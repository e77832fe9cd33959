//! The per-group contest: tally which active kinds are present and decide
//! a winner, a draw, or nothing.

use vstd::prelude::*;
use vstd::seq_lib::group_to_multiset_ensures;
use crate::kind::Kind;

verus! {

/// What a contest decides: a winning kind that absorbs the group, a draw
/// that freezes it, or nothing.
#[derive(Clone, Copy, Debug, PartialEq, Eq, Structural)]
pub enum ArenaResult {
    Have(Kind),
    Draw,
    Nothing,
}

/// The contest outcome determined by which active kinds occur among `fed`:
/// all three is a draw; exactly two leaves the dominant one; fewer than
/// two decides nothing. White never counts.
pub open spec fn spec_arena_result(fed: Seq<Kind>) -> ArenaResult {
    let r = fed.contains(Kind::Red);
    let b = fed.contains(Kind::Blue);
    let g = fed.contains(Kind::Green);
    if r && b && g {
        ArenaResult::Draw
    } else if r && b {
        ArenaResult::Have(Kind::Blue)
    } else if r && g {
        ArenaResult::Have(Kind::Red)
    } else if b && g {
        ArenaResult::Have(Kind::Green)
    } else {
        ArenaResult::Nothing
    }
}

/// Tallies the kinds of a candidate group, one at a time.
pub struct Arena {
    red: bool,
    blue: bool,
    green: bool,
    fed: Ghost<Seq<Kind>>,
}

impl Arena {
    /// The kinds fed so far.
    pub closed spec fn fed(self) -> Seq<Kind> {
        self.fed@
    }

    pub closed spec fn wf(self) -> bool {
        self.red == self.fed@.contains(Kind::Red) && self.blue == self.fed@.contains(Kind::Blue)
            && self.green == self.fed@.contains(Kind::Green)
    }

    pub fn new() -> (r: Arena)
        ensures
            r.wf(),
            r.fed() == Seq::<Kind>::empty(),
    {
        let r = Arena { red: false, blue: false, green: false, fed: Ghost(Seq::empty()) };
        proof {
            assert(!Seq::<Kind>::empty().contains(Kind::Red));
            assert(!Seq::<Kind>::empty().contains(Kind::Blue));
            assert(!Seq::<Kind>::empty().contains(Kind::Green));
        }
        r
    }

    /// Record one member's kind. Returns false once every active kind has
    /// been seen, since no further input can change the outcome.
    pub fn input(&mut self, kind: Kind) -> (more: bool)
        requires
            old(self).wf(),
        ensures
            final(self).wf(),
            final(self).fed() == old(self).fed().push(kind),
            more == !(final(self).fed().contains(Kind::Red) && final(self).fed().contains(
                Kind::Blue,
            ) && final(self).fed().contains(Kind::Green)),
    {
        match kind {
            Kind::Red => self.red = true,
            Kind::Blue => self.blue = true,
            Kind::Green => self.green = true,
            Kind::White => (),
        }
        proof {
            self.fed@ = old(self).fed@.push(kind);
            let f = self.fed@;
            let g = old(self).fed@;
            assert forall|k: Kind| #[trigger] f.contains(k) <==> (g.contains(k) || k == kind) by {
                if f.contains(k) {
                    let j = choose|j: int| 0 <= j < f.len() && f[j] == k;
                    if j < g.len() {
                        assert(g[j] == k);
                    }
                }
                if g.contains(k) {
                    let j = choose|j: int| 0 <= j < g.len() && g[j] == k;
                    assert(f[j] == k);
                }
                if k == kind {
                    assert(f[f.len() - 1] == k);
                }
            }
        }
        !(self.red && self.blue && self.green)
    }

    /// Decide the contest from the kinds seen so far.
    pub fn output(&self) -> (r: ArenaResult)
        requires
            self.wf(),
        ensures
            r == spec_arena_result(self.fed()),
    {
        if self.red && self.blue && self.green {
            ArenaResult::Draw
        } else if self.red && self.blue {
            ArenaResult::Have(Kind::Blue)
        } else if self.red && self.green {
            ArenaResult::Have(Kind::Red)
        } else if self.blue && self.green {
            ArenaResult::Have(Kind::Green)
        } else {
            ArenaResult::Nothing
        }
    }
}

/// The contest outcome depends only on the multiset of kinds fed, not on
/// the order they arrive in.
pub proof fn lemma_arena_order_invariant(s1: Seq<Kind>, s2: Seq<Kind>)
    requires
        s1.to_multiset() == s2.to_multiset(),
    ensures
        spec_arena_result(s1) == spec_arena_result(s2),
{
    broadcast use group_to_multiset_ensures;

    assert forall|k: Kind| #[trigger] s1.contains(k) <==> s2.contains(k) by {
        assert(s1.contains(k) <==> s1.to_multiset().contains(k));
        assert(s2.contains(k) <==> s2.to_multiset().contains(k));
    }
    assert(s1.contains(Kind::Red) == s2.contains(Kind::Red));
    assert(s1.contains(Kind::Blue) == s2.contains(Kind::Blue));
    assert(s1.contains(Kind::Green) == s2.contains(Kind::Green));
}

} // verus!
