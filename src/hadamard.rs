use vstd::prelude::*;
use vstd::arithmetic::div_mod::lemma_fundamental_div_mod_converse;
use vstd::arithmetic::mul::lemma_mul_inequality;
use vstd::arithmetic::power::pow;
use vstd::arithmetic::power2::{
    is_pow2, is_pow2_equiv, is_pow2_exists, lemma2_to64, lemma_pow2, lemma_pow2_adds,
    lemma_pow2_pos, lemma_pow2_strictly_increases, lemma_pow2_unfold, pow2,
};
use crate::error::ConfigError;

verus! {

/// The normalisation tier of a Hadamard mix over `lines` lines: the largest
/// `k <= 8` with `2^k <= lines` (zero for fewer than two lines). The mixed
/// vector is scaled by `1 / sqrt(2)^k`, which keeps the transform
/// energy-preserving for every power of two up to 256 lines.
pub open spec fn tier_of(lines: nat) -> nat {
    if lines >= 256 {
        8
    } else if lines >= 128 {
        7
    } else if lines >= 64 {
        6
    } else if lines >= 32 {
        5
    } else if lines >= 16 {
        4
    } else if lines >= 8 {
        3
    } else if lines >= 4 {
        2
    } else if lines >= 2 {
        1
    } else {
        0
    }
}

/// The tier is the largest exponent, at most 8, whose power of two does not
/// exceed the line count.
pub proof fn lemma_tier_is_capped_log2(lines: nat)
    requires
        lines >= 1,
    ensures
        tier_of(lines) <= 8,
        pow2(tier_of(lines)) <= lines,
        tier_of(lines) < 8 ==> lines < pow2(tier_of(lines) + 1),
{
    lemma2_to64();
}

/// The normalisation tier of a Hadamard mix over `lines` lines (see
/// `tier_of`): the scale applied after the transform is `1 / sqrt(2)^tier`.
pub fn hadamard_tier(lines: usize) -> (tier: u32)
    ensures
        tier == tier_of(lines as nat),
{
    if lines >= 256 {
        8
    } else if lines >= 128 {
        7
    } else if lines >= 64 {
        6
    } else if lines >= 32 {
        5
    } else if lines >= 16 {
        4
    } else if lines >= 8 {
        3
    } else if lines >= 4 {
        2
    } else if lines >= 2 {
        1
    } else {
        0
    }
}

/// Whether `n` is a power of two, the line counts that a Hadamard mix
/// accepts.
pub fn is_power_of_two(n: usize) -> (r: bool)
    ensures
        r == is_pow2(n as int),
        r == is_pow2_exists(n as int),
{
    proof {
        is_pow2_equiv(n as int);
        reveal(is_pow2);
    }
    if n == 0 {
        return false;
    }
    let mut m: usize = n;
    while m > 1 && m % 2 == 0
        invariant
            m >= 1,
            is_pow2(m as int) == is_pow2(n as int),
        decreases m,
    {
        proof {
            reveal(is_pow2);
        }
        m = m / 2;
    }
    proof {
        reveal(is_pow2);
    }
    m == 1
}

/// The normalisation tier for a Hadamard mix over `lines` lines, refused
/// when `lines` is not a power of two (the butterfly pairs lines by halves).
pub fn checked_hadamard_tier(lines: usize) -> (r: Result<u32, ConfigError>)
    ensures
        r is Ok <==> is_pow2(lines as int),
        r matches Ok(tier) ==> tier == tier_of(lines as nat),
        r is Err ==> r == Err::<u32, ConfigError>(ConfigError::NotPowerOfTwo),
{
    if is_power_of_two(lines) {
        Ok(hadamard_tier(lines))
    } else {
        Err(ConfigError::NotPowerOfTwo)
    }
}

/// The lower line of the pair at `offset` (below `h`) in block `block` of a
/// butterfly stage of stride `h`; its partner is `h` lines above it.
pub open spec fn pair_index(block: int, offset: int, h: int) -> int {
    block * (2 * h) + offset
}

/// One butterfly stage of stride `h`: the lines fall into blocks of `2h`,
/// and in every block, line `offset` and line `offset + h` (for each
/// `offset < h`) are replaced by what `pair` returns for their two values.
pub open spec fn stage<T, F: Fn(T, T) -> (T, T)>(pair: F, before: Seq<T>, after: Seq<T>, h: int) -> bool {
    &&& after.len() == before.len()
    &&& forall|block: int, offset: int|
        0 <= block < (before.len() as int) / (2 * h) && 0 <= offset < h ==> {
            let lo = #[trigger] pair_index(block, offset, h);
            pair.ensures((before[lo], before[lo + h]), (after[lo], after[lo + h]))
        }
}

/// `stages` runs a butterfly from `input` to `output`: one stage for each
/// stride `1, 2, 4, ...` below the length, each applied to the result of
/// the one before.
pub open spec fn butterfly_stages<T, F: Fn(T, T) -> (T, T)>(
    pair: F,
    stages: Seq<Seq<T>>,
    input: Seq<T>,
    output: Seq<T>,
) -> bool {
    &&& stages.len() >= 1
    &&& stages[0] == input
    &&& stages.last() == output
    &&& pow2((stages.len() - 1) as nat) == input.len()
    &&& forall|k: int|
        0 <= k < stages.len() - 1 ==> stage(pair, #[trigger] stages[k], stages[k + 1], pow2(k as nat) as int)
}

/// `output` is the in-place fast Hadamard butterfly of `input` with `pair`
/// as its two-point step.
pub open spec fn butterfly<T, F: Fn(T, T) -> (T, T)>(pair: F, input: Seq<T>, output: Seq<T>) -> bool {
    exists|stages: Seq<Seq<T>>| butterfly_stages(pair, stages, input, output)
}

/// The pairs of earlier blocks lie wholly below the start of block `block`.
proof fn lemma_earlier_block_below(earlier: int, block: int, offset: int, h: int)
    requires
        0 <= earlier < block,
        0 <= offset < h,
    ensures
        pair_index(earlier, offset, h) + h < block * (2 * h),
        0 <= pair_index(earlier, offset, h),
{
    lemma_mul_inequality(earlier + 1, block, 2 * h);
    assert((earlier + 1) * (2 * h) == earlier * (2 * h) + 2 * h) by (nonlinear_arith);
    assert(0 <= earlier * (2 * h)) by (nonlinear_arith)
        requires
            0 <= earlier,
            0 < h,
    ;
}

/// Runs the fast Hadamard butterfly over `lines` in place: for strides
/// `h = 1, 2, 4, ...` below the length, each pair of lines `h` apart in the
/// lower and upper half of a block of `2h` is replaced by `pair` of their
/// values. For a Hadamard mix `pair` is `(x, y) -> (x + y, x - y)`.
/// Allocates nothing.
pub fn hadamard_butterfly<T: Copy, F: Fn(T, T) -> (T, T)>(lines: &mut Vec<T>, pair: F)
    requires
        is_pow2(old(lines)@.len() as int),
        forall|x: T, y: T| pair.requires((x, y)),
    ensures
        final(lines)@.len() == old(lines)@.len(),
        butterfly(pair, old(lines)@, final(lines)@),
{
    let n = lines.len();
    proof {
        is_pow2_equiv(n as int);
    }
    let ghost l: nat = choose|e: nat| pow(2, e) == n as int;
    proof {
        lemma_pow2(l);
    }
    let ghost stages: Seq<Seq<T>> = seq![lines@];
    let ghost k: nat = 0;
    let mut h: usize = 1;
    proof {
        lemma2_to64();
    }
    while h < n
        invariant
            forall|x: T, y: T| pair.requires((x, y)),
            lines@.len() == n,
            n == pow2(l),
            h == pow2(k),
            k <= l,
            stages.len() == k + 1,
            stages[0] == old(lines)@,
            stages[k as int] == lines@,
            forall|kk: int|
                0 <= kk < k ==> stage(pair, #[trigger] stages[kk], stages[kk + 1], pow2(kk as nat) as int),
        decreases n - h,
    {
        proof {
            if k >= l {
                if k > l {
                    lemma_pow2_strictly_increases(l, k);
                }
            }
            assert(k < l);
            lemma_pow2_unfold(k + 1);
            if k + 1 < l {
                lemma_pow2_strictly_increases(k + 1, l);
            }
            lemma_pow2_adds(k + 1, (l - k - 1) as nat);
            lemma_pow2_pos(k);
        }
        let m: usize = h * 2;
        let ghost q: int = pow2((l - k - 1) as nat) as int;
        assert(n == q * m) by {
            let rest = (l - k - 1) as nat;
            assert((k + 1) + rest == l);
            assert(pow2(l) == pow2(k + 1) * pow2(rest));
            assert(pow2(k + 1) == m);
            assert(m * q == q * m) by (nonlinear_arith);
        }
        let ghost start = lines@;
        let ghost mut b: int = 0;
        let mut i: usize = 0;
        while i < n
            invariant
                forall|x: T, y: T| pair.requires((x, y)),
                lines@.len() == n,
                start.len() == n,
                h >= 1,
                m == 2 * h,
                n == q * m,
                q >= 1,
                0 <= b <= q,
                i == b * m,
                forall|bb: int, r: int|
                    0 <= bb < b && 0 <= r < h ==> {
                        let lo = #[trigger] pair_index(bb, r, h as int);
                        pair.ensures((start[lo], start[lo + h]), (lines@[lo], lines@[lo + h]))
                    },
                forall|p: int| i <= p < n ==> #[trigger] lines@[p] == start[p],
            decreases n - i,
        {
            proof {
                if b >= q {
                    lemma_mul_inequality(q, b, m as int);
                }
                lemma_mul_inequality(b + 1, q, m as int);
                assert((b + 1) * m == b * m + m) by (nonlinear_arith);
            }
            let mut r: usize = 0;
            while r < h
                invariant
                    forall|x: T, y: T| pair.requires((x, y)),
                    lines@.len() == n,
                    start.len() == n,
                    m == 2 * h,
                    0 <= b,
                    i == b * m,
                    i + m <= n,
                    r <= h,
                    forall|bb: int, rr: int|
                        0 <= bb < b && 0 <= rr < h ==> {
                            let lo = #[trigger] pair_index(bb, rr, h as int);
                            pair.ensures((start[lo], start[lo + h]), (lines@[lo], lines@[lo + h]))
                        },
                    forall|rr: int|
                        0 <= rr < r ==> {
                            let lo = #[trigger] pair_index(b, rr, h as int);
                            pair.ensures((start[lo], start[lo + h]), (lines@[lo], lines@[lo + h]))
                        },
                    forall|p: int|
                        (i + r <= p < i + h || i + h + r <= p < n) ==> #[trigger] lines@[p]
                            == start[p],
                decreases h - r,
            {
                let j = i + r;
                let x = lines[j];
                let y = lines[j + h];
                let ghost before = lines@;
                let (a, c) = pair(x, y);
                lines[j] = a;
                lines[j + h] = c;
                proof {
                    assert(pair_index(b, r as int, h as int) == j);
                    assert forall|bb: int, rr: int| 0 <= bb < b && 0 <= rr < h implies {
                        let lo = #[trigger] pair_index(bb, rr, h as int);
                        pair.ensures((start[lo], start[lo + h]), (lines@[lo], lines@[lo + h]))
                    } by {
                        lemma_earlier_block_below(bb, b, rr, h as int);
                        let lo = pair_index(bb, rr, h as int);
                        assert(lines@[lo] == before[lo]);
                        assert(lines@[lo + h] == before[lo + h]);
                    }
                    assert forall|rr: int| 0 <= rr < r + 1 implies {
                        let lo = #[trigger] pair_index(b, rr, h as int);
                        pair.ensures((start[lo], start[lo + h]), (lines@[lo], lines@[lo + h]))
                    } by {
                        let lo = pair_index(b, rr, h as int);
                        assert(lo == i + rr);
                        if rr < r {
                            assert(lines@[lo] == before[lo]);
                            assert(lines@[lo + h] == before[lo + h]);
                        }
                    }
                }
                r = r + 1;
            }
            proof {
                assert forall|bb: int, rr: int| 0 <= bb < b + 1 && 0 <= rr < h implies {
                    let lo = #[trigger] pair_index(bb, rr, h as int);
                    pair.ensures((start[lo], start[lo + h]), (lines@[lo], lines@[lo + h]))
                } by {
                    if bb == b {
                        assert(pair_index(b, rr, h as int) == pair_index(bb, rr, h as int));
                    }
                }
                assert forall|p: int| i + m <= p < n implies #[trigger] lines@[p] == start[p] by {
                    assert(i + h + h <= p);
                }
                b = b + 1;
            }
            i = i + m;
        }
        proof {
            assert(b == q) by {
                if b < q {
                    lemma_mul_inequality(b + 1, q, m as int);
                    assert((b + 1) * m == b * m + m) by (nonlinear_arith);
                }
            }
            lemma_fundamental_div_mod_converse(n as int, m as int, q, 0);
            assert(n as int / (2 * h) == q);
            assert(stage(pair, start, lines@, h as int));
            stages = stages.push(lines@);
            assert forall|kk: int| 0 <= kk < k + 1 implies stage(
                pair,
                #[trigger] stages[kk],
                stages[kk + 1],
                pow2(kk as nat) as int,
            ) by {
                if kk < k {
                    assert(stages[kk] == stages.drop_last()[kk]);
                }
            }
            k = k + 1;
        }
        h = m;
    }
    proof {
        if k < l {
            lemma_pow2_strictly_increases(k, l);
        }
        assert(butterfly_stages(pair, stages, old(lines)@, lines@));
    }
}

} // verus!
