//! The set of received seqnos awaiting acknowledgement.
use rustc_hash::FxHashSet;
use vstd::prelude::*;

use crate::message::Seqno;

verus! {

/// Seqnos received and not yet acknowledged, held in an `FxHashSet`.
#[verifier::external_body]
pub struct AckSet {
    set: FxHashSet<Seqno>,
}

/// What an [`AckSet`] holds.
pub uninterp spec fn ack_set_contents(s: AckSet) -> Set<Seqno>;

impl AckSet {
    /// Relies on `FxHashSet::default`: a new set is empty.
    #[verifier::external_body]
    pub(crate) fn new() -> (r: AckSet)
        ensures
            ack_set_contents(r) == Set::<Seqno>::empty(),
    {
        AckSet { set: FxHashSet::default() }
    }

    /// Relies on `HashSet::insert`: adds `s`, and returns whether it was absent.
    #[verifier::external_body]
    pub(crate) fn insert(&mut self, s: Seqno) -> (r: bool)
        ensures
            ack_set_contents(*final(self)) == ack_set_contents(*old(self)).insert(s),
            r == !ack_set_contents(*old(self)).contains(s),
    {
        self.set.insert(s)
    }

    /// Relies on `HashSet::len`: the number of seqnos held.
    #[verifier::external_body]
    pub(crate) fn len(&self) -> (r: usize)
        ensures
            r == ack_set_contents(*self).len(),
    {
        self.set.len()
    }

    /// Relies on `HashSet::iter`: each seqno held, once, in no given order.
    #[verifier::external_body]
    pub(crate) fn to_vec(&self) -> (r: Vec<Seqno>)
        ensures
            r@.no_duplicates() && r@.to_set() == ack_set_contents(*self),
    {
        self.set.iter().copied().collect()
    }

    /// Relies on `HashSet::clear`: the set is empty afterwards.
    #[verifier::external_body]
    pub(crate) fn clear(&mut self)
        ensures
            ack_set_contents(*final(self)) == Set::<Seqno>::empty(),
    {
        self.set.clear()
    }
}

/// Strictly increasing.
pub open spec fn strictly_ascending(s: Seq<Seqno>) -> bool {
    forall|i: int, j: int| 0 <= i < j < s.len() ==> s[i] < s[j]
}

/// The distinct seqnos of `v` in ascending order.
pub fn sort_ascending(v: &Vec<Seqno>) -> (r: Vec<Seqno>)
    requires
        v@.no_duplicates(),
    ensures
        strictly_ascending(r@),
        r@.to_set() == v@.to_set(),
        r@.len() == v@.len(),
{
    let mut out: Vec<Seqno> = Vec::new();
    let mut i: usize = 0;
    while i < v.len()
        invariant
            i <= v@.len(),
            v@.no_duplicates(),
            out@.len() == i,
            strictly_ascending(out@),
            forall|y: Seqno| out@.contains(y) <==> v@.subrange(0, i as int).contains(y),
        decreases v.len() - i,
    {
        let x = v[i];
        assert(!out@.contains(x)) by {
            if out@.contains(x) {
                let k = choose|k: int| 0 <= k < i && v@.subrange(0, i as int)[k] == x;
                assert(v@[k] == v@[i as int]);
            }
        }
        let mut pos: usize = 0;
        while pos < out.len() && out[pos] < x
            invariant
                pos <= out@.len(),
                forall|k: int| 0 <= k < pos ==> out@[k] < x,
            decreases out.len() - pos,
        {
            pos += 1;
        }
        let ghost before = out@;
        assert forall|k: int| pos <= k < before.len() implies before[k] > x by {
            assert(before[pos as int] >= x);
            assert(before[pos as int] != x);
            if k > pos {
                assert(before[pos as int] < before[k]);
            }
        }
        out.insert(pos, x);
        assert(out@ == before.insert(pos as int, x));
        assert forall|a: int, b: int| 0 <= a < b < out@.len() implies out@[a] < out@[b] by {
            if a < pos && b > pos {
                assert(out@[b] == before[b - 1]);
            } else if a > pos {
                assert(out@[a] == before[a - 1] && out@[b] == before[b - 1]);
            }
        }
        assert forall|y: Seqno| out@.contains(y) <==> v@.subrange(0, i + 1).contains(y) by {
            assert(v@.subrange(0, i + 1) =~= v@.subrange(0, i as int).push(x));
            if v@.subrange(0, i + 1).contains(y) && y != x {
                let k = choose|k: int| 0 <= k <= i && #[trigger] v@.subrange(0, i + 1)[k] == y;
                assert(v@.subrange(0, i as int)[k] == y);
                assert(before.contains(y));
            }
            if out@.contains(y) {
                let k = choose|k: int| 0 <= k < out@.len() && out@[k] == y;
                if k < pos {
                    assert(before[k] == y);
                } else if k > pos {
                    assert(before[k - 1] == y);
                }
            }
            if before.contains(y) {
                let k = choose|k: int| 0 <= k < before.len() && before[k] == y;
                if k < pos {
                    assert(out@[k] == y);
                } else {
                    assert(out@[k + 1] == y);
                }
            }
            if y == x {
                assert(out@[pos as int] == x);
                assert(v@.subrange(0, i + 1)[i as int] == x);
            }
            if before.contains(y) {
                assert(v@.subrange(0, i as int).contains(y));
                let k = choose|k: int| 0 <= k < i && #[trigger] v@.subrange(0, i as int)[k] == y;
                assert(v@.subrange(0, i + 1)[k] == y);
            }
        }
        i += 1;
    }
    assert(v@.subrange(0, i as int) =~= v@);
    assert(out@.to_set() =~= v@.to_set());
    out
}

} // verus!
