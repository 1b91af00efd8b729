use vstd::prelude::*;
use vstd::arithmetic::div_mod::{
    lemma_fundamental_div_mod, lemma_fundamental_div_mod_converse, lemma_mod_pos_bound,
};
use crate::error::ConfigError;

verus! {

/// The abstract state of a delay line: its buffer, its active delay, its
/// write cursor and the value that stands for silence.
pub struct DelayLineView<T> {
    pub buffer: Seq<T>,
    pub delay: nat,
    pub cursor: nat,
    pub silence: T,
}

impl<T> DelayLineView<T> {
    /// The delay never exceeds the buffer, and the cursor stays inside the
    /// ring: below the delay, or at zero when the delay is zero (a delay of
    /// zero keeps a ring of one sample, and so acts as a delay of one).
    pub open spec fn wf(self) -> bool {
        &&& self.buffer.len() > 0
        &&& self.cursor < self.buffer.len()
        &&& self.delay <= self.buffer.len()
        &&& (self.cursor < self.delay || self.cursor == 0)
    }

    /// A line of `capacity` silent samples with the cursor at the start;
    /// a delay beyond the capacity is clamped to it.
    pub open spec fn fresh(capacity: nat, delay: nat, silence: T) -> Self {
        DelayLineView {
            buffer: Seq::new(capacity, |p: int| silence),
            delay: if delay <= capacity { delay } else { capacity },
            cursor: 0,
            silence,
        }
    }

    /// The sample that the next tick returns: the one under the cursor.
    pub open spec fn head(self) -> T {
        self.buffer[self.cursor as int]
    }

    /// One tick: the input replaces the sample under the cursor, and the
    /// cursor advances, wrapping to zero when it reaches the active delay.
    pub open spec fn ticked(self, input: T) -> Self {
        DelayLineView {
            buffer: self.buffer.update(self.cursor as int, input),
            cursor: if self.cursor + 1 >= self.delay { 0 } else { (self.cursor + 1) as nat },
            ..self
        }
    }

    /// The state after feeding `inputs` one tick at a time.
    pub open spec fn run(self, inputs: Seq<T>) -> Self
        decreases inputs.len(),
    {
        if inputs.len() == 0 {
            self
        } else {
            self.run(inputs.drop_last()).ticked(inputs.last())
        }
    }

    /// The sample returned at tick `k` (counted from zero) while feeding `inputs`.
    pub open spec fn output_at(self, inputs: Seq<T>, k: int) -> T {
        self.run(inputs.take(k)).head()
    }

    /// A change of the active delay: no change when it is the current one;
    /// otherwise it is clamped to one less than the capacity, and when it
    /// shrinks the positions between the new and the old delay fall silent.
    /// A cursor left outside the new ring restarts at zero.
    pub open spec fn with_delay(self, delay: nat) -> Self {
        if delay == self.delay {
            self
        } else {
            let d: nat = if delay <= self.buffer.len() - 1 {
                delay
            } else {
                (self.buffer.len() - 1) as nat
            };
            DelayLineView {
                buffer: if d < self.delay {
                    Seq::new(
                        self.buffer.len(),
                        |p: int|
                            if d <= p < self.delay {
                                self.silence
                            } else {
                                self.buffer[p]
                            },
                    )
                } else {
                    self.buffer
                },
                delay: d,
                cursor: if self.cursor < d { self.cursor } else { 0 },
                ..self
            }
        }
    }

    /// A new capacity: a longer buffer is padded with silence, a shorter one
    /// keeps its first `capacity` samples.
    pub open spec fn with_capacity(self, capacity: nat) -> Self {
        DelayLineView {
            buffer: if capacity <= self.buffer.len() {
                self.buffer.take(capacity as int)
            } else {
                self.buffer + Seq::new((capacity - self.buffer.len()) as nat, |p: int| self.silence)
            },
            ..self
        }
    }

    /// Every sample silent; delay and cursor untouched.
    pub open spec fn cleared(self) -> Self {
        DelayLineView { buffer: Seq::new(self.buffer.len(), |p: int| self.silence), ..self }
    }
}

/// A single-channel delay of a whole number of samples, held in a circular
/// buffer whose ring length is the active delay and whose allocated length
/// only bounds the delays that can be set.
pub struct DelayLine<T> {
    buffer: Vec<T>,
    delay: usize,
    write_index: usize,
    silence: T,
}

impl<T: Copy> View for DelayLine<T> {
    type V = DelayLineView<T>;

    closed spec fn view(&self) -> DelayLineView<T> {
        DelayLineView {
            buffer: self.buffer@,
            delay: self.delay as nat,
            cursor: self.write_index as nat,
            silence: self.silence,
        }
    }
}

impl<T: Copy> DelayLine<T> {
    pub open spec fn wf(&self) -> bool {
        self@.wf()
    }

    /// A silent line of `max_delay` samples delaying by `delay` (clamped to
    /// `max_delay`), or an error when `max_delay` is zero.
    pub fn new(max_delay: usize, delay: usize, silence: T) -> (r: Result<DelayLine<T>, ConfigError>)
        ensures
            max_delay == 0 <==> r is Err,
            r is Err ==> r == Err::<DelayLine<T>, ConfigError>(ConfigError::ZeroCapacity),
            r matches Ok(line) ==> line.wf() && line@ == DelayLineView::fresh(
                max_delay as nat,
                delay as nat,
                silence,
            ),
    {
        if max_delay == 0 {
            return Err(ConfigError::ZeroCapacity);
        }
        let mut buffer: Vec<T> = Vec::new();
        let mut i: usize = 0;
        while i < max_delay
            invariant
                i <= max_delay,
                buffer@ == Seq::new(i as nat, |p: int| silence),
            decreases max_delay - i,
        {
            buffer.push(silence);
            i = i + 1;
            assert(buffer@ =~= Seq::new(i as nat, |p: int| silence));
        }
        let delay = if delay <= max_delay { delay } else { max_delay };
        Ok(DelayLine { buffer, delay, write_index: 0, silence })
    }

    /// The active delay.
    pub fn delay(&self) -> (r: usize)
        ensures
            r == self@.delay,
    {
        self.delay
    }

    /// The write cursor.
    pub fn cursor(&self) -> (r: usize)
        ensures
            r == self@.cursor,
    {
        self.write_index
    }

    /// The allocated length of the buffer, which bounds the delay.
    pub fn capacity(&self) -> (r: usize)
        ensures
            r == self@.buffer.len(),
    {
        self.buffer.len()
    }

    /// Returns the sample under the cursor (the one written `delay` ticks
    /// ago), stores `input` in its place and advances the cursor.
    pub fn tick(&mut self, input: T) -> (output: T)
        requires
            old(self).wf(),
        ensures
            final(self).wf(),
            output == old(self)@.head(),
            final(self)@ == old(self)@.ticked(input),
    {
        let output = self.buffer[self.write_index];
        self.buffer[self.write_index] = input;
        self.write_index = self.write_index + 1;
        if self.write_index >= self.delay {
            self.write_index = 0;
        }
        output
    }
    /// Sets the active delay, clamped to one less than the capacity. A
    /// shorter delay silences the positions between the new and the old one,
    /// so that samples beyond the new ring are never read again, and moves a
    /// cursor that the new ring no longer holds back to zero.
    pub fn set_delay(&mut self, delay: usize)
        requires
            old(self).wf(),
        ensures
            final(self).wf(),
            final(self)@ == old(self)@.with_delay(delay as nat),
    {
        if delay == self.delay {
            return;
        }
        let old_delay = self.delay;
        let max = self.buffer.len() - 1;
        self.delay = if delay <= max { delay } else { max };
        if self.delay < old_delay {
            let ghost before = self.buffer@;
            let mut ii: usize = self.delay;
            while ii < old_delay
                invariant
                    self.delay <= ii <= old_delay,
                    old_delay == old(self).delay,
                    old_delay <= before.len(),
                    before == old(self)@.buffer,
                    self.delay == old(self)@.with_delay(delay as nat).delay,
                    self.write_index == old(self).write_index,
                    self.silence == old(self).silence,
                    self.buffer@.len() == before.len(),
                    forall|p: int|
                        0 <= p < before.len() ==> #[trigger] self.buffer@[p] == if self.delay <= p
                            < ii {
                            self.silence
                        } else {
                            before[p]
                        },
                decreases old_delay - ii,
            {
                self.buffer[ii] = self.silence;
                ii = ii + 1;
            }
            assert(self.buffer@ =~= old(self)@.with_delay(delay as nat).buffer);
        }
        if self.write_index >= self.delay {
            self.write_index = 0;
        }
    }

    /// Resizes the buffer to `max_delay` samples: growing appends silence,
    /// shrinking drops the trailing samples. The current delay and cursor
    /// must fit in the new buffer.
    pub fn set_max_delay(&mut self, max_delay: usize)
        requires
            old(self).wf(),
            old(self)@.cursor < max_delay,
            old(self)@.delay <= max_delay,
        ensures
            final(self).wf(),
            final(self)@ == old(self)@.with_capacity(max_delay as nat),
    {
        let len = self.buffer.len();
        if max_delay <= len {
            self.buffer.truncate(max_delay);
        } else {
            let mut i: usize = len;
            while i < max_delay
                invariant
                    len <= i <= max_delay,
                    len == old(self)@.buffer.len(),
                    self.silence == old(self).silence,
                    self.delay == old(self).delay,
                    self.write_index == old(self).write_index,
                    self.buffer@ == old(self)@.buffer + Seq::new(
                        (i - len) as nat,
                        |p: int| self.silence,
                    ),
                decreases max_delay - i,
            {
                self.buffer.push(self.silence);
                i = i + 1;
                assert(self.buffer@ =~= old(self)@.buffer + Seq::new(
                    (i - len) as nat,
                    |p: int| self.silence,
                ));
            }
        }
        assert(self.buffer@ =~= old(self)@.with_capacity(max_delay as nat).buffer);
    }

    /// Silences the whole buffer; the delay and the cursor stay as they are.
    pub fn reset(&mut self)
        requires
            old(self).wf(),
        ensures
            final(self).wf(),
            final(self)@ == old(self)@.cleared(),
    {
        let len = self.buffer.len();
        let mut i: usize = 0;
        while i < len
            invariant
                i <= len,
                len == self.buffer@.len(),
                len == old(self)@.buffer.len(),
                self.silence == old(self).silence,
                self.delay == old(self).delay,
                self.write_index == old(self).write_index,
                forall|p: int|
                    0 <= p < len ==> #[trigger] self.buffer@[p] == if p < i {
                        self.silence
                    } else {
                        old(self)@.buffer[p]
                    },
            decreases len - i,
        {
            self.buffer[i] = self.silence;
            i = i + 1;
        }
        assert(self.buffer@ =~= old(self)@.cleared().buffer);
    }
}

/// Stepping `j` places (at most `d`) from `x` moves its residue by `j`,
/// wrapping once; stepping `d` places leaves it unchanged.
proof fn lemma_mod_step(x: int, j: int, d: int)
    requires
        0 <= x,
        0 < d,
        0 <= j <= d,
    ensures
        (x + j) % d == if x % d + j < d {
            x % d + j
        } else {
            x % d + j - d
        },
        (x + d) % d == x % d,
{
    let q = x / d;
    let r = x % d;
    lemma_fundamental_div_mod(x, d);
    lemma_mod_pos_bound(x, d);
    assert(d * q == q * d) by (nonlinear_arith);
    assert((q + 1) * d == q * d + d) by (nonlinear_arith);
    if r + j < d {
        lemma_fundamental_div_mod_converse(x + j, d, q, r + j);
    } else {
        lemma_fundamental_div_mod_converse(x + j, d, q + 1, r + j - d);
    }
    lemma_fundamental_div_mod_converse(x + d, d, q + 1, r);
}

/// Feeding one more input is one more tick.
proof fn lemma_run_take_step<T>(v: DelayLineView<T>, inputs: Seq<T>, k: int)
    requires
        0 <= k < inputs.len(),
    ensures
        v.run(inputs.take(k + 1)) == v.run(inputs.take(k)).ticked(inputs[k]),
{
    assert(inputs.take(k + 1).drop_last() =~= inputs.take(k));
}

/// The state of a well-formed line with a delay `D >= 1` after `k` ticks:
/// the cursor has advanced `k` places round the ring, nothing past the ring
/// has changed, and the place `m` steps ahead of the cursor holds the input
/// of `D - m` ticks ago, or the original sample if that lies before the
/// start.
proof fn lemma_run_state<T>(v: DelayLineView<T>, inputs: Seq<T>, k: int)
    requires
        v.wf(),
        1 <= v.delay,
        0 <= k <= inputs.len(),
    ensures
        ({
            let s = v.run(inputs.take(k));
            let d = v.delay as int;
            let c = v.cursor as int;
            &&& s.wf()
            &&& s.delay == v.delay
            &&& s.silence == v.silence
            &&& s.buffer.len() == v.buffer.len()
            &&& s.cursor == (c + k) % d
            &&& forall|p: int| d <= p < v.buffer.len() ==> s.buffer[p] == v.buffer[p]
            &&& forall|m: int|
                0 <= m < d ==> #[trigger] s.buffer[(c + k + m) % d] == if k + m >= d {
                    inputs[k + m - d]
                } else {
                    v.buffer[(c + k + m) % d]
                }
        }),
    decreases k,
{
    let d = v.delay as int;
    let c = v.cursor as int;
    if k == 0 {
        assert(inputs.take(0) =~= Seq::<T>::empty());
        lemma_mod_step(c, 0, d);
        assert(c % d == c) by {
            lemma_fundamental_div_mod_converse(c, d, 0, c);
        }
    } else {
        let j = k - 1;
        lemma_run_state(v, inputs, j);
        lemma_run_take_step(v, inputs, j);
        let s = v.run(inputs.take(j));
        let t = v.run(inputs.take(k));
        let x = c + j;
        let r = x % d;
        lemma_mod_pos_bound(x, d);
        lemma_mod_step(x, 1, d);
        assert(t.cursor == (c + k) % d);
        assert forall|m: int| 0 <= m < d implies #[trigger] t.buffer[(c + k + m) % d] == if k + m
            >= d {
            inputs[k + m - d]
        } else {
            v.buffer[(c + k + m) % d]
        } by {
            let q = (c + k + m) % d;
            if m < d - 1 {
                lemma_mod_step(x, m + 1, d);
                assert(q == (c + j + (m + 1)) % d);
                assert(q != r);
                assert(s.buffer[(c + j + (m + 1)) % d] == if j + (m + 1) >= d {
                    inputs[j + (m + 1) - d]
                } else {
                    v.buffer[(c + j + (m + 1)) % d]
                });
            } else {
                assert(q == r);
            }
        }
        assert forall|p: int| d <= p < v.buffer.len() implies t.buffer[p] == v.buffer[p] by {
            assert(s.buffer[p] == v.buffer[p]);
        }
    }
}

/// A well-formed line with a ring of `D >= 1` samples is a pure delay of
/// `D` ticks: at tick `k >= D` it returns the input of tick `k - D`,
/// and before that the sample that was `k` places ahead of the cursor.
pub proof fn lemma_delays_by_ring_length<T>(v: DelayLineView<T>, inputs: Seq<T>, k: int)
    requires
        v.wf(),
        1 <= v.delay,
        0 <= k < inputs.len(),
    ensures
        v.output_at(inputs, k) == if k >= v.delay {
            inputs[k - v.delay]
        } else {
            v.buffer[(v.cursor + k) % (v.delay as int)]
        },
{
    lemma_run_state(v, inputs, k);
    let c = v.cursor as int;
    let d = v.delay as int;
    assert(v.run(inputs.take(k)).buffer[(c + k + 0) % d] == if k + 0 >= d {
        inputs[k + 0 - d]
    } else {
        v.buffer[(c + k + 0) % d]
    });
    assert(c + k + 0 == c + k);
}

/// Impulse response: a fresh line with delay `D` (`1 <= D <= capacity`) fed
/// an impulse at tick zero and silence afterwards returns the impulse at tick
/// `D` and silence at every other tick up to `2 * D`.
pub proof fn lemma_impulse_response<T>(
    capacity: nat,
    delay: nat,
    silence: T,
    impulse: T,
    inputs: Seq<T>,
    k: int,
)
    requires
        1 <= delay <= capacity,
        inputs.len() > 0,
        inputs[0] == impulse,
        forall|t: int| 1 <= t < inputs.len() ==> inputs[t] == silence,
        0 <= k < inputs.len(),
        k < 2 * delay,
    ensures
        DelayLineView::fresh(capacity, delay, silence).output_at(inputs, k) == if k == delay {
            impulse
        } else {
            silence
        },
{
    let v = DelayLineView::fresh(capacity, delay, silence);
    lemma_delays_by_ring_length(v, inputs, k);
    lemma_mod_pos_bound(k, delay as int);
}

/// Shrinking the delay of a line from `D1` to `1 <= D2 < D1` silences the
/// positions `[D2, D1)`, and from then on every sample the line returns is
/// an input fed after the change or a sample that sat below position `D2`
/// before it: nothing stored beyond the new ring leaks out.
pub proof fn lemma_shrink_does_not_leak<T>(
    v: DelayLineView<T>,
    delay: nat,
    inputs: Seq<T>,
    k: int,
)
    requires
        v.wf(),
        1 <= delay < v.delay,
        0 <= k < inputs.len(),
    ensures
        forall|p: int|
            delay <= p < v.delay ==> #[trigger] v.with_delay(delay).buffer[p] == v.silence,
        ({
            let out = v.with_delay(delay).output_at(inputs, k);
            ||| exists|t: int| 0 <= t < k && out == inputs[t]
            ||| exists|p: int| 0 <= p < delay && out == v.buffer[p]
        }),
{
    let w = v.with_delay(delay);
    let d = delay as int;
    let out = w.output_at(inputs, k);
    lemma_delays_by_ring_length(w, inputs, k);
    lemma_mod_pos_bound(w.cursor + k, d);
    if k >= d {
        assert(out == inputs[k - d]);
    } else {
        let p = (w.cursor + k) % d;
        assert(out == v.buffer[p]);
    }
}

} // verus!
