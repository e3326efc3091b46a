//! The random source that drives the generators: the thread's generator, or
//! a script of numbers for runs that must repeat exactly.

use rand::Rng;
use vstd::prelude::*;

verus! {

/// A source of picks from `0..n`.
pub struct RandomSource {
    scripted: bool,
    script: Vec<usize>,
    cursor: usize,
}

/// Calls `rand::thread_rng()` and `Rng::gen_range` on the range `0..n`. The
/// range is never empty, so `gen_range` does not panic, and it samples a
/// value inside the range. Which value is left open. (`thread_rng` itself
/// fails only where the operating system cannot seed it.)
#[verifier::external_body]
fn thread_pick(n: usize) -> (pick: usize)
    requires
        n >= 1,
    ensures
        pick < n,
{
    rand::thread_rng().gen_range(0..n)
}

impl RandomSource {
    /// Whether the picks come from a script.
    pub closed spec fn is_scripted(&self) -> bool {
        self.scripted
    }

    /// The numbers of the script.
    pub closed spec fn script(&self) -> Seq<usize> {
        self.script@
    }

    /// The place in the script from which the next pick is taken.
    pub closed spec fn cursor(&self) -> nat {
        self.cursor as nat
    }

    /// The pick from `0..n` that a script gives at `cursor`: the number at
    /// that place, the script read round and round, reduced modulo `n`; 0
    /// from an empty script.
    pub open spec fn scripted_pick(script: Seq<usize>, cursor: nat, n: nat) -> nat {
        if script.len() == 0 {
            0
        } else {
            ((script[(cursor % script.len()) as int] as nat) % n) as nat
        }
    }

    /// The place in the script after a pick at `cursor`.
    pub open spec fn next_cursor(script: Seq<usize>, cursor: nat) -> nat {
        if script.len() == 0 {
            cursor
        } else {
            cursor % script.len() + 1
        }
    }

    /// The place in the script after `k` picks that started at `cursor`.
    pub open spec fn cursor_after(script: Seq<usize>, cursor: nat, k: nat) -> nat
        decreases k,
    {
        if k == 0 {
            cursor
        } else {
            Self::next_cursor(script, Self::cursor_after(script, cursor, (k - 1) as nat))
        }
    }

    /// Whether the coin shows heads at the flip that comes after `k` picks
    /// that started at `cursor`.
    pub open spec fn heads_after(script: Seq<usize>, cursor: nat, k: nat) -> bool {
        Self::scripted_pick(script, Self::cursor_after(script, cursor, k), 2) == 0
    }

    /// The source that asks the thread's random generator.
    pub fn thread() -> (source: RandomSource)
        ensures
            !source.is_scripted(),
    {
        RandomSource { scripted: false, script: Vec::new(), cursor: 0 }
    }

    /// The source that reads its picks from `script`, starting at the front.
    pub fn scripted(script: Vec<usize>) -> (source: RandomSource)
        ensures
            source.is_scripted(),
            source.script() == script@,
            source.cursor() == 0,
    {
        RandomSource { scripted: true, script, cursor: 0 }
    }

    /// A number in `0..n`. A scripted source gives the pick of its script and
    /// moves on by one place; the thread's generator gives any number of the
    /// range.
    pub fn pick(&mut self, n: usize) -> (pick: usize)
        requires
            n >= 1,
        ensures
            pick < n,
            final(self).is_scripted() == old(self).is_scripted(),
            final(self).script() == old(self).script(),
            old(self).is_scripted() ==> pick == Self::scripted_pick(
                old(self).script(),
                old(self).cursor(),
                n as nat,
            ) && final(self).cursor() == Self::next_cursor(old(self).script(), old(self).cursor()),
    {
        if !self.scripted {
            thread_pick(n)
        } else if self.script.len() == 0 {
            0
        } else {
            let at: usize = self.cursor % self.script.len();
            self.cursor = at + 1;
            self.script[at] % n
        }
    }

    /// A coin flip: `true` where the pick from `0..2` is 0.
    pub fn flip(&mut self) -> (heads: bool)
        ensures
            final(self).is_scripted() == old(self).is_scripted(),
            final(self).script() == old(self).script(),
            old(self).is_scripted() ==> heads == (Self::scripted_pick(
                old(self).script(),
                old(self).cursor(),
                2,
            ) == 0) && final(self).cursor() == Self::next_cursor(
                old(self).script(),
                old(self).cursor(),
            ),
    {
        self.pick(2) == 0
    }
}

} // verus!
