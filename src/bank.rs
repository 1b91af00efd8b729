use vstd::prelude::*;
use crate::delay::{DelayLine, DelayLineView};
use crate::error::ConfigError;

verus! {

/// Every line of a bank is well formed.
pub open spec fn lines_wf<T>(lines: Seq<DelayLineView<T>>) -> bool {
    forall|i: int| 0 <= i < lines.len() ==> #[trigger] lines[i].wf()
}

/// Every line of a bank can keep its delay and cursor in a buffer of
/// `capacity` samples.
pub open spec fn fits_capacity<T>(lines: Seq<DelayLineView<T>>, capacity: nat) -> bool {
    forall|i: int|
        0 <= i < lines.len() ==> #[trigger] lines[i].cursor < capacity && lines[i].delay
            <= capacity
}

/// The parallel delay lines of a feedback delay network. The number of
/// lines is fixed when the bank is made; each line keeps its own delay, and
/// all share one buffer capacity.
pub struct DelayBank<T> {
    lines: Vec<DelayLine<T>>,
}

impl<T: Copy> View for DelayBank<T> {
    type V = Seq<DelayLineView<T>>;

    closed spec fn view(&self) -> Seq<DelayLineView<T>> {
        Seq::new(self.lines@.len(), |i: int| self.lines@[i]@)
    }
}

impl<T: Copy> DelayBank<T> {
    pub open spec fn wf(&self) -> bool {
        &&& self@.len() > 0
        &&& lines_wf(self@)
    }

    /// One silent line of `max_delay` samples for each entry of `delays`,
    /// delaying by that entry (clamped to `max_delay`). Refused when there
    /// are no lines or the capacity is zero.
    pub fn new(delays: &[usize], max_delay: usize, silence: T) -> (r: Result<
        DelayBank<T>,
        ConfigError,
    >)
        ensures
            r is Ok <==> (delays@.len() > 0 && max_delay > 0),
            delays@.len() == 0 ==> r == Err::<Self, ConfigError>(ConfigError::NoLines),
            (delays@.len() > 0 && max_delay == 0) ==> r == Err::<Self, ConfigError>(ConfigError::ZeroCapacity),
            r matches Ok(b) ==> b.wf() && b@ == Seq::new(
                delays@.len(),
                |i: int| DelayLineView::fresh(max_delay as nat, delays@[i] as nat, silence),
            ),
    {
        if delays.len() == 0 {
            return Err(ConfigError::NoLines);
        }
        if max_delay == 0 {
            return Err(ConfigError::ZeroCapacity);
        }
        let mut lines: Vec<DelayLine<T>> = Vec::new();
        let mut i: usize = 0;
        while i < delays.len()
            invariant
                max_delay > 0,
                i <= delays@.len(),
                lines@.len() == i,
                forall|k: int|
                    0 <= k < i ==> #[trigger] lines@[k].wf() && (#[trigger] lines@[k])@ == DelayLineView::fresh(
                        max_delay as nat,
                        delays@[k] as nat,
                        silence,
                    ),
            decreases delays@.len() - i,
        {
            match DelayLine::new(max_delay, delays[i], silence) {
                Ok(line) => lines.push(line),
                Err(_) => {
                    return Err(ConfigError::ZeroCapacity);
                },
            }
            i = i + 1;
        }
        let bank = DelayBank { lines };
        assert forall|k: int| 0 <= k < delays@.len() implies #[trigger] bank@[k] == DelayLineView::fresh(
            max_delay as nat,
            delays@[k] as nat,
            silence,
        ) by {
            assert(bank@[k] == bank.lines@[k]@);
            assert(bank.lines@[k].wf());
        }
        assert(bank@ =~= Seq::new(
            delays@.len(),
            |i: int| DelayLineView::fresh(max_delay as nat, delays@[i] as nat, silence),
        ));
        Ok(bank)
    }

    /// The number of lines.
    pub fn len(&self) -> (r: usize)
        ensures
            r == self@.len(),
    {
        self.lines.len()
    }

    /// Ticks line `line` alone with `input`, returning what it read.
    pub fn tick_line(&mut self, line: usize, input: T) -> (output: T)
        requires
            old(self).wf(),
            line < old(self)@.len(),
        ensures
            final(self).wf(),
            output == old(self)@[line as int].head(),
            final(self)@ == old(self)@.update(line as int, old(self)@[line as int].ticked(input)),
    {
        let ghost before = self@;
        assert(self@[line as int] == self.lines@[line as int]@);
        assert(self.lines@[line as int].wf());
        let output = self.lines[line].tick(input);
        assert(self@ =~= before.update(line as int, before[line as int].ticked(input)));
        output
    }

    /// Ticks every line once: line `i` takes `inputs[i]`, and what it read
    /// lands in `outputs[i]`. Writes in place and allocates nothing.
    pub fn tick_all(&mut self, inputs: &[T], outputs: &mut Vec<T>)
        requires
            old(self).wf(),
            inputs@.len() == old(self)@.len(),
            old(outputs)@.len() == old(self)@.len(),
        ensures
            final(self).wf(),
            final(self)@ == Seq::new(old(self)@.len(), |i: int| old(self)@[i].ticked(inputs@[i])),
            final(outputs)@ == Seq::new(old(self)@.len(), |i: int| old(self)@[i].head()),
    {
        let ghost before = self@;
        let mut i: usize = 0;
        while i < self.lines.len()
            invariant
                before == old(self)@,
                inputs@.len() == before.len(),
                outputs@.len() == before.len(),
                self@.len() == before.len(),
                i <= before.len(),
                lines_wf(self@),
                forall|k: int|
                    0 <= k < before.len() ==> #[trigger] self@[k] == if k < i {
                        before[k].ticked(inputs@[k])
                    } else {
                        before[k]
                    },
                forall|k: int| 0 <= k < i ==> #[trigger] outputs@[k] == before[k].head(),
            decreases before.len() - i,
        {
            let ghost mid = self@;
            assert(self@[i as int] == self.lines@[i as int]@);
            assert(self.lines@[i as int].wf());
            let out = self.lines[i].tick(inputs[i]);
            outputs[i] = out;
            assert(self@ =~= mid.update(i as int, mid[i as int].ticked(inputs@[i as int])));
            i = i + 1;
        }
        assert(self@ =~= Seq::new(before.len(), |i: int| before[i].ticked(inputs@[i])));
        assert(outputs@ =~= Seq::new(before.len(), |i: int| before[i].head()));
    }

    /// Sets each line's delay from `delays` (each clamped as
    /// `DelayLine::set_delay` does). A list of the wrong length is refused
    /// and changes nothing.
    pub fn set_delays(&mut self, delays: &[usize]) -> (r: Result<(), ConfigError>)
        requires
            old(self).wf(),
        ensures
            final(self).wf(),
            r is Ok <==> delays@.len() == old(self)@.len(),
            r is Err ==> r == Err::<(), ConfigError>(ConfigError::LineCountMismatch) && final(self)@ == old(self)@,
            r is Ok ==> final(self)@ == Seq::new(
                old(self)@.len(),
                |i: int| old(self)@[i].with_delay(delays@[i] as nat),
            ),
    {
        if delays.len() != self.lines.len() {
            return Err(ConfigError::LineCountMismatch);
        }
        let ghost before = self@;
        let mut i: usize = 0;
        while i < self.lines.len()
            invariant
                before == old(self)@,
                delays@.len() == before.len(),
                self@.len() == before.len(),
                i <= before.len(),
                lines_wf(self@),
                forall|k: int|
                    0 <= k < before.len() ==> #[trigger] self@[k] == if k < i {
                        before[k].with_delay(delays@[k] as nat)
                    } else {
                        before[k]
                    },
            decreases before.len() - i,
        {
            let ghost mid = self@;
            assert(self@[i as int] == self.lines@[i as int]@);
            assert(self.lines@[i as int].wf());
            self.lines[i].set_delay(delays[i]);
            assert(self@ =~= mid.update(i as int, mid[i as int].with_delay(delays@[i as int] as nat)));
            i = i + 1;
        }
        assert(self@ =~= Seq::new(
            before.len(),
            |i: int| before[i].with_delay(delays@[i] as nat),
        ));
        Ok(())
    }

    /// Resizes every line's buffer to `max_delay` samples (see
    /// `DelayLine::set_max_delay`). Refused, changing nothing, when some
    /// line's delay or cursor would not fit.
    pub fn set_max_delays(&mut self, max_delay: usize) -> (r: Result<(), ConfigError>)
        requires
            old(self).wf(),
        ensures
            final(self).wf(),
            r is Ok <==> fits_capacity(old(self)@, max_delay as nat),
            r is Err ==> r == Err::<(), ConfigError>(ConfigError::CapacityTooSmall) && final(self)@ == old(self)@,
            r is Ok ==> final(self)@ == Seq::new(
                old(self)@.len(),
                |i: int| old(self)@[i].with_capacity(max_delay as nat),
            ),
    {
        if !self.fits(max_delay) {
            return Err(ConfigError::CapacityTooSmall);
        }
        let ghost before = self@;
        let mut i: usize = 0;
        while i < self.lines.len()
            invariant
                before == old(self)@,
                fits_capacity(before, max_delay as nat),
                self@.len() == before.len(),
                i <= before.len(),
                lines_wf(self@),
                forall|k: int|
                    0 <= k < before.len() ==> #[trigger] self@[k] == if k < i {
                        before[k].with_capacity(max_delay as nat)
                    } else {
                        before[k]
                    },
            decreases before.len() - i,
        {
            let ghost mid = self@;
            assert(self@[i as int] == self.lines@[i as int]@);
            assert(self.lines@[i as int].wf());
            assert(mid[i as int] == before[i as int]);
            self.lines[i].set_max_delay(max_delay);
            assert(self@ =~= mid.update(i as int, mid[i as int].with_capacity(max_delay as nat)));
            i = i + 1;
        }
        assert(self@ =~= Seq::new(
            before.len(),
            |i: int| before[i].with_capacity(max_delay as nat),
        ));
        Ok(())
    }

    /// Whether every line's delay and cursor fit in `max_delay` samples.
    pub fn fits(&self, max_delay: usize) -> (r: bool)
        requires
            self.wf(),
        ensures
            r == fits_capacity(self@, max_delay as nat),
    {
        let mut i: usize = 0;
        while i < self.lines.len()
            invariant
                i <= self@.len(),
                forall|k: int|
                    0 <= k < i ==> #[trigger] self@[k].cursor < max_delay && self@[k].delay
                        <= max_delay,
            decreases self@.len() - i,
        {
            if self.lines[i].cursor() >= max_delay || self.lines[i].delay() > max_delay {
                assert(!(self@[i as int].cursor < max_delay && self@[i as int].delay
                    <= max_delay));
                return false;
            }
            i = i + 1;
        }
        true
    }

    /// Silences every line; delays and cursors stay as they are.
    pub fn reset(&mut self)
        requires
            old(self).wf(),
        ensures
            final(self).wf(),
            final(self)@ == Seq::new(old(self)@.len(), |i: int| old(self)@[i].cleared()),
    {
        let ghost before = self@;
        let mut i: usize = 0;
        while i < self.lines.len()
            invariant
                before == old(self)@,
                self@.len() == before.len(),
                i <= before.len(),
                lines_wf(self@),
                forall|k: int|
                    0 <= k < before.len() ==> #[trigger] self@[k] == if k < i {
                        before[k].cleared()
                    } else {
                        before[k]
                    },
            decreases before.len() - i,
        {
            let ghost mid = self@;
            assert(self@[i as int] == self.lines@[i as int]@);
            assert(self.lines@[i as int].wf());
            self.lines[i].reset();
            assert(self@ =~= mid.update(i as int, mid[i as int].cleared()));
            i = i + 1;
        }
        assert(self@ =~= Seq::new(before.len(), |i: int| before[i].cleared()));
    }
}

} // verus!
