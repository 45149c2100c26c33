//! Ascending sequences of token positions.

use crate::bitmap::{bitmap_rest, next_position};
use roaring::bitmap::Iter;
use vstd::prelude::*;

verus! {

/// The numbers below `n` that satisfy `keep`, in ascending order.
pub open spec fn positions_where(n: nat, keep: spec_fn(int) -> bool) -> Seq<int>
    decreases n,
{
    if n == 0 {
        Seq::empty()
    } else {
        let before = positions_where((n - 1) as nat, keep);
        if keep(n - 1) {
            before.push(n - 1)
        } else {
            before
        }
    }
}

/// Every number is smaller than the ones behind it.
pub open spec fn ascending(s: Seq<int>) -> bool {
    forall|i: int, j: int| 0 <= i < j < s.len() ==> s[i] < s[j]
}

/// `positions_where` holds the numbers that it says, each once and in order.
pub proof fn lemma_positions_where(n: nat, keep: spec_fn(int) -> bool)
    ensures
        ascending(positions_where(n, keep)),
        positions_where(n, keep).len() <= n,
        forall|p: int| #[trigger]
            positions_where(n, keep).contains(p) <==> 0 <= p < n && keep(p),
        forall|i: int|
            #![trigger positions_where(n, keep)[i]]
            0 <= i < positions_where(n, keep).len() ==> 0 <= positions_where(n, keep)[i] < n && keep(
                positions_where(n, keep)[i],
            ),
    decreases n,
{
    if n > 0 {
        let before = positions_where((n - 1) as nat, keep);
        lemma_positions_where((n - 1) as nat, keep);
        let s = positions_where(n, keep);
        assert forall|p: int| #[trigger] s.contains(p) <==> 0 <= p < n && keep(p) by {
            if 0 <= p < n - 1 && keep(p) {
                assert(before.contains(p));
                let i = choose|i: int| 0 <= i < before.len() && before[i] == p;
                assert(s[i] == p);
            }
            if p == n - 1 && keep(p) {
                assert(s[s.len() - 1] == p);
            }
            if s.contains(p) {
                let i = choose|i: int| 0 <= i < s.len() && s[i] == p;
                if i < before.len() {
                    assert(before[i] == p);
                    assert(before.contains(p));
                }
            }
        }
    }
}

/// Two ascending sequences with the same elements are the same.
pub proof fn lemma_ascending_unique(a: Seq<int>, b: Seq<int>)
    requires
        ascending(a),
        ascending(b),
        forall|p: int| a.contains(p) <==> b.contains(p),
    ensures
        a == b,
    decreases a.len(),
{
    if a.len() == 0 {
        if b.len() > 0 {
            assert(b.contains(b[0]));
            assert(a.contains(b[0]));
        }
        assert(a =~= b);
    } else {
        assert(a.contains(a.last()));
        assert(b.contains(a.last()));
        assert(b.contains(b.last()));
        assert(a.contains(b.last()));
        assert(a.last() == b.last());
        let (c, d) = (a.drop_last(), b.drop_last());
        assert forall|p: int| c.contains(p) <==> d.contains(p) by {
            if c.contains(p) {
                let i = choose|i: int| 0 <= i < c.len() && c[i] == p;
                assert(a[i] == p);
                assert(b.contains(p));
                let j = choose|j: int| 0 <= j < b.len() && b[j] == p;
                assert(d[j] == p);
            }
            if d.contains(p) {
                let i = choose|i: int| 0 <= i < d.len() && d[i] == p;
                assert(b[i] == p);
                assert(a.contains(p));
                let j = choose|j: int| 0 <= j < a.len() && a[j] == p;
                assert(c[j] == p);
            }
        }
        lemma_ascending_unique(c, d);
        assert(a =~= c.push(a.last()));
        assert(b =~= d.push(b.last()));
    }
}

/// Filtering the positions that satisfy one condition by another one gives the positions that
/// satisfy both.
pub proof fn lemma_positions_where_filter(
    n: nat,
    keep: spec_fn(int) -> bool,
    also: spec_fn(int) -> bool,
    both: spec_fn(int) -> bool,
)
    requires
        forall|p: int| 0 <= p < n ==> (#[trigger] both(p) <==> keep(p) && also(p)),
    ensures
        positions_where(n, keep).filter(also) == positions_where(n, both),
    decreases n,
{
    reveal(Seq::filter);
    if n == 0 {
        assert(positions_where(n, keep).filter(also) =~= Seq::empty());
    } else {
        let m = (n - 1) as nat;
        lemma_positions_where_filter(m, keep, also, both);
        let before = positions_where(m, keep);
        assert(both(n - 1) <==> keep(n - 1) && also(n - 1));
        if keep(n - 1) {
            assert(before.push(n - 1).drop_last() =~= before);
        }
    }
}

/// Conditions that agree below `n` select the same positions.
pub proof fn lemma_positions_where_same(
    n: nat,
    left: spec_fn(int) -> bool,
    right: spec_fn(int) -> bool,
)
    requires
        forall|p: int| 0 <= p < n ==> (#[trigger] left(p) <==> right(p)),
    ensures
        positions_where(n, left) == positions_where(n, right),
    decreases n,
{
    if n > 0 {
        lemma_positions_where_same((n - 1) as nat, left, right);
        assert(left(n - 1) <==> right(n - 1));
    }
}

/// A condition that every number below `n` satisfies selects all of them.
pub proof fn lemma_all_positions(n: nat, keep: spec_fn(int) -> bool)
    requires
        forall|p: int| 0 <= p < n ==> #[trigger] keep(p),
    ensures
        positions_where(n, keep) == Seq::new(n, |i: int| i),
    decreases n,
{
    if n > 0 {
        lemma_all_positions((n - 1) as nat, keep);
        assert(keep(n - 1));
    }
    assert(positions_where(n, keep) =~= Seq::new(n, |i: int| i));
}

/// Positions to walk over: those from one number up to another, or those of a bitmap.
pub(crate) enum Positions<'a> {
    Range { start: usize, end: usize },
    Bitmap(Iter<'a>),
}

impl<'a> Positions<'a> {
    /// The positions that have not been walked over yet, in order.
    pub(crate) open spec fn rest(self) -> Seq<int> {
        match self {
            Positions::Range { start, end } => if start <= end {
                Seq::new((end - start) as nat, |i: int| start + i)
            } else {
                Seq::empty()
            },
            Positions::Bitmap(iter) => bitmap_rest(iter).map_values(|v: u32| v as int),
        }
    }

    /// The next position, if there is one left.
    pub(crate) fn next(&mut self) -> (position: Option<usize>)
        requires
            forall|i: int| 0 <= i < old(self).rest().len() ==> old(self).rest()[i] <= usize::MAX,
        ensures
            old(self).rest().len() == 0 ==> position is None && final(self).rest() == old(
                self,
            ).rest(),
            old(self).rest().len() > 0 ==> (position matches Some(p) && p == old(self).rest()[0])
                && final(self).rest() == old(self).rest().drop_first(),
    {
        match self {
            Positions::Range { start, end } => {
                if *start < *end {
                    let position: usize = *start;
                    *start = position + 1;
                    Some(position)
                } else {
                    None
                }
            },
            Positions::Bitmap(iter) => match next_position(iter) {
                Some(value) => Some(value as usize),
                None => None,
            },
        }
    }
}

} // verus!
