//! Duplicate suppression over 24-bit sequence numbers.
//!
//! Sequence numbers wrap at 2^24. A window keeps the number it expects next
//! and, for each of the `width` numbers before it, whether that number has
//! been seen. A number up to half the sequence space ahead of the expected
//! one is fresh, which is what makes the window pass over the wrap without
//! noticing it.

use std::collections::VecDeque;
use vstd::prelude::*;

verus! {

/// The size of the sequence space: numbers run from 0 to `MODULUS - 1`.
pub const MODULUS: u32 = 0x100_0000;

/// Half the sequence space: how far ahead a number may be and count as new.
pub const HALF: u32 = 0x80_0000;

/// The width of a window unless told otherwise.
pub const DEFAULT_WIDTH: u32 = 2048;

/// The sequence number that the count `x` stands for.
pub open spec fn wrap(x: int) -> u32 {
    (x % (MODULUS as int)) as u32
}

/// How many steps upward lead from `next` to `s`, wrapping at the end of
/// the sequence space.
pub open spec fn ahead(next: u32, s: u32) -> int {
    (s - next) % (MODULUS as int)
}

/// What a window makes of a sequence number.
#[derive(Debug, Clone, Copy, PartialEq, Eq, Structural)]
pub enum Verdict {
    /// At or ahead of the expected number: new, and the window advances.
    Fresh,
    /// Inside the window and not seen before: new, and a gap is filled.
    Filled,
    /// Inside the window and seen before.
    Duplicate,
    /// Behind the window.
    Stale,
}

/// A window of recently seen sequence numbers.
#[derive(Debug)]
pub struct DedupWindow {
    /// The number expected next: one past the highest seen.
    next: u32,
    /// Whether the number `i + 1` steps behind `next` has been seen.
    seen: VecDeque<bool>,
}

impl DedupWindow {
    /// The number expected next.
    pub closed spec fn next(&self) -> u32 {
        self.next
    }

    /// For each position `i` of the window, whether the number `i + 1`
    /// steps behind the expected one has been seen.
    pub closed spec fn flags(&self) -> Seq<bool> {
        self.seen@
    }

    /// The expected number is a sequence number and the window is at least
    /// one and at most half the sequence space wide.
    pub open spec fn wf(&self) -> bool {
        &&& self.next() < MODULUS
        &&& 1 <= self.flags().len() <= HALF
    }

    /// What a window that expects `next` and holds `flags` makes of `s`.
    pub open spec fn verdict(next: u32, flags: Seq<bool>, s: u32) -> Verdict {
        let d = ahead(next, s);
        if d < HALF {
            Verdict::Fresh
        } else if MODULUS - d > flags.len() {
            Verdict::Stale
        } else if flags[MODULUS - d - 1] {
            Verdict::Duplicate
        } else {
            Verdict::Filled
        }
    }

    /// What the window makes of `s`.
    pub open spec fn classify(&self, s: u32) -> Verdict {
        Self::verdict(self.next(), self.flags(), s)
    }

    /// The number expected after `s` has been observed.
    pub open spec fn next_after(&self, s: u32) -> u32 {
        if self.classify(s) is Fresh {
            wrap(s + 1)
        } else {
            self.next()
        }
    }

    /// The flags after `s` has been observed. A fresh number moves every
    /// flag back by the distance the window advances, marks itself seen and
    /// the numbers it skipped unseen.
    pub open spec fn flags_after(&self, s: u32) -> Seq<bool> {
        let d = ahead(self.next(), s);
        match self.classify(s) {
            Verdict::Fresh => Seq::new(
                self.flags().len(),
                |i: int|
                    if i == 0 {
                        true
                    } else if i <= d {
                        false
                    } else {
                        self.flags()[i - d - 1]
                    },
            ),
            Verdict::Filled => self.flags().update(MODULUS - d - 1, true),
            _ => self.flags(),
        }
    }

    /// A window of `width` numbers that expects 0 and has seen nothing.
    pub fn new(width: u32) -> (window: DedupWindow)
        requires
            1 <= width <= HALF,
        ensures
            window.wf(),
            window.next() == 0,
            window.flags() == Seq::new(width as nat, |i: int| false),
    {
        let mut seen: VecDeque<bool> = VecDeque::new();
        let mut i: u32 = 0;
        while i < width
            invariant
                i <= width,
                seen@ == Seq::new(i as nat, |k: int| false),
            decreases width - i,
        {
            seen.push_back(false);
            i += 1;
            assert(seen@ =~= Seq::new(i as nat, |k: int| false));
        }
        DedupWindow { next: 0, seen }
    }

    /// How many numbers the window covers.
    pub fn width(&self) -> (width: u32)
        requires
            self.wf(),
        ensures
            width == self.flags().len(),
    {
        self.seen.len() as u32
    }

    /// The number expected next.
    pub fn expected(&self) -> (next: u32)
        ensures
            next == self.next(),
    {
        self.next
    }

    /// How many steps upward lead from the expected number to `s`.
    pub fn distance(&self, s: u32) -> (d: u32)
        requires
            self.wf(),
            s < MODULUS,
        ensures
            d == ahead(self.next(), s),
            d < MODULUS,
    {
        (s + MODULUS - self.next) % MODULUS
    }

    /// What the window makes of `s`, without taking note of it.
    pub fn check(&self, s: u32) -> (verdict: Verdict)
        requires
            self.wf(),
            s < MODULUS,
        ensures
            verdict == self.classify(s),
    {
        let d = self.distance(s);
        if d < HALF {
            Verdict::Fresh
        } else {
            let back = (MODULUS - d) as usize;
            if back > self.seen.len() {
                Verdict::Stale
            } else if self.seen[back - 1] {
                Verdict::Duplicate
            } else {
                Verdict::Filled
            }
        }
    }

    /// Takes note of `s` and tells what it was. Duplicates and stale
    /// numbers leave the window as it is.
    pub fn observe(&mut self, s: u32) -> (verdict: Verdict)
        requires
            old(self).wf(),
            s < MODULUS,
        ensures
            final(self).wf(),
            verdict == old(self).classify(s),
            final(self).next() == old(self).next_after(s),
            final(self).flags() == old(self).flags_after(s),
    {
        let verdict = self.check(s);
        let d = self.distance(s);
        let width = self.seen.len();
        match verdict {
            Verdict::Fresh => {
                let skipped: usize = if (d as usize) < width {
                    d as usize
                } else {
                    width
                };
                let mut k: usize = 0;
                assert(self.seen@ =~= Seq::new(
                    width as nat,
                    |i: int| if i < 0 { false } else { old(self).seen@[i - 0] },
                ));
                while k < skipped
                    invariant
                        k <= skipped <= width,
                        width == old(self).seen@.len(),
                        width <= HALF,
                        self.next == old(self).next,
                        self.seen@ == Seq::new(
                            (k + width) as nat,
                            |i: int| if i < k { false } else { old(self).seen@[i - k] },
                        ),
                    decreases skipped - k,
                {
                    self.seen.push_front(false);
                    k += 1;
                    assert(self.seen@ =~= Seq::new(
                        (k + width) as nat,
                        |i: int| if i < k { false } else { old(self).seen@[i - k] },
                    ));
                }
                self.seen.push_front(true);
                self.seen.truncate(width);
                self.next = (s + 1) % MODULUS;
                assert(self.seen@ =~= old(self).flags_after(s));
            },
            Verdict::Filled => {
                let at = (MODULUS - d) as usize - 1;
                let _ = self.seen.remove(at);
                self.seen.insert(at, true);
                assert(self.seen@ =~= old(self).flags_after(s));
            },
            _ => {},
        }
        verdict
    }

    /// A number that was just observed as new is a duplicate from then on:
    /// nothing is taken for new twice.
    pub proof fn lemma_seen_once(&self, s: u32)
        requires
            self.wf(),
            s < MODULUS,
            self.classify(s) is Fresh || self.classify(s) is Filled,
        ensures
            Self::verdict(self.next_after(s), self.flags_after(s), s) is Duplicate,
    {
    }

    /// A number that has been seen stays seen while the window advances,
    /// until it falls behind the window: it is not taken for new again,
    /// unless the window jumps so far ahead at once that the number comes
    /// to lie in the half of the sequence space that counts as ahead.
    pub proof fn lemma_stays_seen(&self, s: u32, t: u32)
        requires
            self.wf(),
            s < MODULUS,
            t < MODULUS,
            self.classify(s) is Duplicate,
            self.classify(t) is Fresh ==> ahead(self.next(), t) + self.flags().len() < HALF,
        ensures
            Self::verdict(self.next_after(t), self.flags_after(t), s) is Duplicate || Self::verdict(
                self.next_after(t),
                self.flags_after(t),
                s,
            ) is Stale,
    {
    }

    /// Observing a duplicate or a stale number changes nothing.
    pub proof fn lemma_repeat_changes_nothing(&self, s: u32)
        requires
            self.classify(s) is Duplicate || self.classify(s) is Stale,
        ensures
            self.next_after(s) == self.next(),
            self.flags_after(s) == self.flags(),
    {
    }

    /// The number that follows the expected one is fresh and leaves no gap,
    /// also where the sequence space wraps from its last number to 0.
    pub proof fn lemma_wrap_is_monotonic(&self)
        requires
            self.wf(),
        ensures
            self.classify(self.next()) is Fresh,
            ahead(self.next(), self.next()) == 0,
            self.next_after(self.next()) == wrap(self.next() + 1),
            self.next() == MODULUS - 1 ==> self.next_after(self.next()) == 0,
            forall|s: u32|
                s < MODULUS && 1 <= #[trigger] ahead(s, self.next()) <= self.flags().len()
                    ==> !(self.classify(s) is Fresh),
    {
    }
}

} // verus!
