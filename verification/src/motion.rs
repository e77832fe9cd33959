//! Scripted movement state and the unanimity bookkeeping used when cubes
//! merge.

use vstd::prelude::*;
use crate::movement::Movement;

verus! {

/// A cube's scripted movement: a list of (direction, repeat count) steps,
/// optionally looping. An empty script is idle.
#[derive(Debug)]
pub struct Motion {
    pub is_loop: bool,
    pub movements: Vec<(Movement, usize)>,
}

/// The combined motion of merged cubes: the first member that still has a
/// script keeps it; with no scripted member the merged cube is idle.
pub open spec fn spec_combined(list: Seq<Motion>) -> Option<Motion>
    decreases list.len(),
{
    if list.len() == 0 {
        None
    } else if list[0].movements@.len() > 0 {
        Some(list[0])
    } else {
        spec_combined(list.drop_first())
    }
}

impl Motion {
    pub open spec fn spec_idle(self) -> bool {
        self.movements@.len() == 0
    }

    pub fn idle() -> (r: Motion)
        ensures
            r.spec_idle(),
            !r.is_loop,
    {
        Motion { is_loop: false, movements: Vec::new() }
    }

    /// Move the script out, leaving this cube idle.
    pub fn take(&mut self) -> (r: Motion)
        ensures
            r == *old(self),
            final(self).spec_idle(),
            !final(self).is_loop,
    {
        let mut taken = Motion::idle();
        core::mem::swap(self, &mut taken);
        taken
    }

    /// A fresh motion with the same script.
    pub fn duplicate(&self) -> (r: Motion)
        ensures
            r.is_loop == self.is_loop,
            r.movements@ == self.movements@,
    {
        let sn = self.movements.len();
        let mut movements: Vec<(Movement, usize)> = Vec::new();
        for t in 0..sn
            invariant
                sn == self.movements@.len(),
                movements@ == self.movements@.subrange(0, t as int),
        {
            movements.push(self.movements[t]);
            proof {
                assert(movements@ =~= self.movements@.subrange(0, t + 1 as int));
            }
        }
        proof {
            assert(self.movements@.subrange(0, sn as int) =~= self.movements@);
        }
        Motion { is_loop: self.is_loop, movements }
    }

    /// Combine the motions of merged members: keep the first one that
    /// still has a script.
    pub fn combine(list: &Vec<Motion>) -> (r: Motion)
        ensures
            match spec_combined(list@) {
                Some(m) => r.is_loop == m.is_loop && r.movements@ == m.movements@,
                None => r.spec_idle() && !r.is_loop,
            },
    {
        let ghost orig = list@;
        let n = list.len();
        for i in 0..n
            invariant
                n == list@.len(),
                list@ == orig,
                forall|j: int| 0 <= j < i ==> (#[trigger] orig[j]).movements@.len() == 0,
        {
            if list[i].movements.len() > 0 {
                let sn = list[i].movements.len();
                let mut movements: Vec<(Movement, usize)> = Vec::new();
                for k in 0..sn
                    invariant
                        n == list@.len(),
                        list@ == orig,
                        i < n,
                        sn == orig[i as int].movements@.len(),
                        movements@ == orig[i as int].movements@.subrange(0, k as int),
                {
                    movements.push(list[i].movements[k]);
                    proof {
                        assert(movements@ =~= orig[i as int].movements@.subrange(
                            0,
                            k + 1 as int,
                        ));
                    }
                }
                let r = Motion { is_loop: list[i].is_loop, movements };
                proof {
                    assert(orig[i as int].movements@.subrange(0, sn as int) =~= orig[
                        i as int].movements@);
                    assert(r.movements@ == orig[i as int].movements@);
                    lemma_combined_of_prefix_idle(orig, i as int);
                    assert(orig.skip(i as int).len() > 0);
                    assert(orig.skip(i as int)[0] == orig[i as int]);
                    assert(spec_combined(orig.skip(i as int)) == Some(orig[i as int]));
                }
                return r;
            }
        }
        proof {
            lemma_combined_of_prefix_idle(orig, n as int);
            assert(orig.skip(n as int).len() == 0);
        }
        Motion::idle()
    }
}

/// Dropping leading idle motions does not change the combination.
proof fn lemma_combined_of_prefix_idle(list: Seq<Motion>, i: int)
    requires
        0 <= i <= list.len(),
        forall|j: int| 0 <= j < i ==> (#[trigger] list[j]).movements@.len() == 0,
    ensures
        spec_combined(list) == spec_combined(list.skip(i)),
    decreases i,
{
    if i > 0 {
        assert(list[0].movements@.len() == 0);
        assert(spec_combined(list) == spec_combined(list.drop_first()));
        assert(list.drop_first() == list.skip(1));
        lemma_combined_of_prefix_idle(list.skip(1), i - 1);
        assert(list.skip(1).skip(i - 1) =~= list.skip(i));
    } else {
        assert(list.skip(0) =~= list);
    }
}

/// Records submitted movement choices and tells whether every submitter
/// agreed on one value.
pub struct Agreement {
    first: Option<Movement>,
    any: bool,
    failed: bool,
    submitted: Ghost<Seq<Option<Movement>>>,
}

/// What a sequence of submissions agrees on: the common value if there is
/// at least one submission and all are equal, nothing otherwise.
pub open spec fn spec_agreed(s: Seq<Option<Movement>>) -> Option<Option<Movement>> {
    if s.len() > 0 && (forall|j: int| 0 <= j < s.len() ==> #[trigger] s[j] == s[0]) {
        Some(s[0])
    } else {
        None
    }
}

impl Agreement {
    pub closed spec fn submitted(self) -> Seq<Option<Movement>> {
        self.submitted@
    }

    pub closed spec fn wf(self) -> bool {
        let s = self.submitted@;
        &&& self.any == (s.len() > 0)
        &&& (s.len() > 0 ==> self.first == s[0])
        &&& self.failed == (s.len() > 0 && exists|j: int| 0 <= j < s.len() && #[trigger] s[j] != s[0])
    }

    pub fn new() -> (r: Agreement)
        ensures
            r.wf(),
            r.submitted() == Seq::<Option<Movement>>::empty(),
    {
        Agreement { first: None, any: false, failed: false, submitted: Ghost(Seq::empty()) }
    }

    /// Record one member's movement choice.
    pub fn submit(&mut self, value: Option<Movement>)
        requires
            old(self).wf(),
        ensures
            final(self).wf(),
            final(self).submitted() == old(self).submitted().push(value),
    {
        let ghost olds = self.submitted@;
        if !self.any {
            self.first = value;
            self.any = true;
        } else {
            if !self.failed {
                let same = match (self.first, value) {
                    (None, None) => true,
                    (Some(a), Some(b)) => a == b,
                    _ => false,
                };
                if !same {
                    self.failed = true;
                }
            }
        }
        proof {
            self.submitted@ = olds.push(value);
            let s = self.submitted@;
            if olds.len() > 0 {
                assert(s[0] == olds[0]);
                if self.failed {
                    if olds.len() > 0 && exists|j: int| 0 <= j < olds.len() && #[trigger] olds[j] != olds[0] {
                        let j = choose|j: int| 0 <= j < olds.len() && #[trigger] olds[j] != olds[0];
                        assert(s[j] != s[0]);
                    } else {
                        assert(s[s.len() - 1] != s[0]);
                    }
                } else {
                    assert forall|j: int| 0 <= j < s.len() implies #[trigger] s[j] == s[0] by {
                        if j < olds.len() {
                            assert(olds[j] == olds[0]);
                        }
                    }
                }
            }
        }
    }

    /// Whether a disagreement has been seen.
    pub fn fail(&self) -> (r: bool)
        requires
            self.wf(),
        ensures
            r == (self.submitted().len() > 0 && spec_agreed(self.submitted()) is None),
    {
        self.failed
    }

    /// The agreed value, if every submitter named the same one.
    pub fn result(&self) -> (r: Option<Option<Movement>>)
        requires
            self.wf(),
        ensures
            r == spec_agreed(self.submitted()),
    {
        if self.any && !self.failed {
            Some(self.first)
        } else {
            None
        }
    }
}

} // verus!
