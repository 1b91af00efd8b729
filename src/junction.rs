use vstd::prelude::*;
use vstd::arithmetic::div_mod::{
    lemma_div_pos_is_pos, lemma_fundamental_div_mod, lemma_fundamental_div_mod_converse,
    lemma_mod_pos_bound,
};
use vstd::arithmetic::mul::lemma_mul_inequality;
use crate::error::ConfigError;

verus! {

/// The abstract shape of a junction: `inputs` physical channels routed onto
/// `outputs` internal lines.
pub struct JunctionView {
    pub inputs: nat,
    pub outputs: nat,
}

impl JunctionView {
    /// At least one channel and one line, and the lines split evenly.
    pub open spec fn wf(self) -> bool {
        &&& self.inputs > 0
        &&& self.outputs > 0
        &&& self.outputs % self.inputs == 0
    }

    /// The number of lines that belong to each channel.
    pub open spec fn section(self) -> nat {
        self.outputs / self.inputs
    }

    /// The channel that line `line` copies: contiguous blocks of `section`
    /// lines come from successive channels.
    pub open spec fn channel_of(self, line: int) -> int {
        line / (self.section() as int)
    }

    /// The first line of the block that belongs to `channel`.
    pub open spec fn block_start(self, channel: int) -> int {
        channel * self.section()
    }

    /// One past the last line of the block that belongs to `channel`.
    pub open spec fn block_end(self, channel: int) -> int {
        (channel + 1) * self.section()
    }

    /// The lines that `split` makes of one frame of channels.
    pub open spec fn split<T>(self, channels: Seq<T>) -> Seq<T> {
        Seq::new(self.outputs, |line: int| channels[self.channel_of(line)])
    }
}

/// The section of a well-formed junction is positive, and the blocks of all
/// channels together span exactly the lines.
proof fn lemma_section(j: JunctionView)
    requires
        j.wf(),
    ensures
        j.section() > 0,
        j.section() * j.inputs == j.outputs,
        j.inputs * j.section() == j.outputs,
{
    let n = j.inputs as int;
    let s = j.section() as int;
    lemma_fundamental_div_mod(j.outputs as int, n);
    assert(n * s == j.outputs);
    assert(s * n == n * s) by (nonlinear_arith);
    if s == 0 {
        assert(n * s == 0) by (nonlinear_arith)
            requires
                s == 0,
        ;
    }
}

/// A line lies in the block of exactly one channel: the one it copies.
proof fn lemma_line_in_block(j: JunctionView, channel: int, line: int)
    requires
        j.wf(),
        0 <= channel < j.inputs,
        j.block_start(channel) <= line < j.block_end(channel),
    ensures
        j.channel_of(line) == channel,
{
    lemma_section(j);
    let s = j.section() as int;
    assert((channel + 1) * s == channel * s + s) by (nonlinear_arith);
    lemma_fundamental_div_mod_converse(line, s, channel, line - channel * s);
}

/// Splitting fills the block of lines that belongs to each channel with
/// copies of that channel, and the blocks (the ranges that joining averages)
/// lie side by side and cover every line exactly once.
pub proof fn lemma_split_fills_blocks<T>(j: JunctionView, channels: Seq<T>)
    requires
        j.wf(),
        channels.len() == j.inputs,
    ensures
        j.block_start(0) == 0,
        j.block_end(j.inputs - 1) == j.outputs,
        forall|c: int| 0 <= c < j.inputs - 1 ==> #[trigger] j.block_end(c) == j.block_start(c + 1),
        forall|c: int, line: int|
            #![trigger j.split(channels)[line], j.block_start(c)]
            0 <= c < j.inputs && j.block_start(c) <= line < j.block_end(c) ==> j.split(
                channels,
            )[line] == channels[c],
        forall|line: int|
            0 <= line < j.outputs ==> {
                let c = #[trigger] j.channel_of(line);
                &&& 0 <= c < j.inputs
                &&& j.block_start(c) <= line < j.block_end(c)
            },
{
    lemma_section(j);
    let s = j.section() as int;
    assert(0 * s == 0) by (nonlinear_arith);
    assert(j.block_end(j.inputs - 1) == j.inputs * s);
    assert forall|c: int, line: int|
        #![trigger j.split(channels)[line], j.block_start(c)]
        0 <= c < j.inputs && j.block_start(c) <= line < j.block_end(c) implies j.split(
            channels,
        )[line] == channels[c] by {
        lemma_line_in_block(j, c, line);
        assert(j.block_end(c) <= j.outputs) by {
            lemma_mul_inequality(c + 1, j.inputs as int, s);
        }
    }
    assert forall|line: int| 0 <= line < j.outputs implies {
        let c = #[trigger] j.channel_of(line);
        &&& 0 <= c < j.inputs
        &&& j.block_start(c) <= line < j.block_end(c)
    } by {
        let c = line / s;
        let r = line % s;
        lemma_fundamental_div_mod(line, s);
        lemma_mod_pos_bound(line, s);
        lemma_div_pos_is_pos(line, s);
        assert(c * s == s * c) by (nonlinear_arith);
        assert((c + 1) * s == c * s + s) by (nonlinear_arith);
        if c >= j.inputs {
            lemma_mul_inequality(j.inputs as int, c, s);
        }
    }
}

/// A fixed routing between a few physical channels and a larger number of
/// internal lines. Splitting copies each channel onto its own contiguous
/// block of lines; joining takes each block back to its channel.
pub struct ChannelJunction {
    inputs: usize,
    outputs: usize,
}

impl View for ChannelJunction {
    type V = JunctionView;

    closed spec fn view(&self) -> JunctionView {
        JunctionView { inputs: self.inputs as nat, outputs: self.outputs as nat }
    }
}

impl ChannelJunction {
    pub open spec fn wf(&self) -> bool {
        self@.wf()
    }

    /// A junction of `inputs` channels and `outputs` lines. Either count
    /// being zero, or the lines not splitting evenly among the channels, is
    /// refused.
    pub fn new(inputs: usize, outputs: usize) -> (r: Result<ChannelJunction, ConfigError>)
        ensures
            r is Ok <==> (inputs > 0 && outputs > 0 && outputs % inputs == 0),
            r matches Ok(j) ==> j.wf() && j@.inputs == inputs && j@.outputs == outputs,
            (inputs == 0 || outputs == 0) ==> r == Err::<Self, ConfigError>(ConfigError::NoChannels),
            (inputs > 0 && outputs > 0 && outputs % inputs != 0) ==> r == Err::<Self, ConfigError>(ConfigError::UnevenChannels),
    {
        if inputs == 0 || outputs == 0 {
            Err(ConfigError::NoChannels)
        } else if outputs % inputs != 0 {
            Err(ConfigError::UnevenChannels)
        } else {
            Ok(ChannelJunction { inputs, outputs })
        }
    }

    /// The number of physical channels.
    pub fn inputs(&self) -> (r: usize)
        ensures
            r == self@.inputs,
    {
        self.inputs
    }

    /// The number of internal lines.
    pub fn outputs(&self) -> (r: usize)
        ensures
            r == self@.outputs,
    {
        self.outputs
    }

    /// The number of lines in each channel's block.
    pub fn section_len(&self) -> (r: usize)
        requires
            self.wf(),
        ensures
            r == self@.section(),
            r > 0,
    {
        proof {
            lemma_section(self@);
        }
        self.outputs / self.inputs
    }

    /// The half-open range of lines that belongs to `channel`.
    pub fn block(&self, channel: usize) -> (r: (usize, usize))
        requires
            self.wf(),
            channel < self@.inputs,
        ensures
            r.0 == self@.block_start(channel as int),
            r.1 == self@.block_end(channel as int),
            r.0 < r.1 <= self@.outputs,
    {
        let s = self.section_len();
        proof {
            lemma_section(self@);
            lemma_mul_inequality(channel as int + 1, self.inputs as int, s as int);
            assert((channel + 1) * s == channel * s + s) by (nonlinear_arith);
        }
        let start = channel * s;
        (start, start + s)
    }

    /// Copies one frame of channels onto the lines: line `l` receives
    /// channel `l / section`. Writes in place and allocates nothing.
    pub fn split<T: Copy>(&self, channels: &[T], lines: &mut Vec<T>)
        requires
            self.wf(),
            channels@.len() == self@.inputs,
            old(lines)@.len() == self@.outputs,
        ensures
            final(lines)@ == self@.split(channels@),
    {
        let s = self.section_len();
        let ghost whole = self@.split(channels@);
        let mut l: usize = 0;
        while l < self.outputs
            invariant
                self.wf(),
                s == self@.section(),
                s > 0,
                channels@.len() == self@.inputs,
                whole == self@.split(channels@),
                l <= self@.outputs,
                lines@.len() == self@.outputs,
                forall|m: int| 0 <= m < l ==> #[trigger] lines@[m] == whole[m],
            decreases self.outputs - l,
        {
            proof {
                lemma_split_fills_blocks(self@, channels@);
            }
            let c = l / s;
            assert(c == self@.channel_of(l as int));
            lines[l] = channels[c];
            l = l + 1;
        }
        assert(lines@ =~= whole);
    }
}

} // verus!
