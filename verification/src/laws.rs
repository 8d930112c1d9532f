//! Laws of the interval-set algebra.
//!
//! Each law is a public proof: its parameters are the values the law speaks
//! of, its premises are exactly what the operations' own contracts give, and
//! its conclusion states the law over the sets' views and membership.

use vstd::prelude::*;

use crate::interval::Interval;
use crate::set::IntervalSet;
use crate::set::lemma_seq_wf_ordered;
use crate::set::seq_has;
use crate::set::seq_wf;
use crate::traits::Bounded;
use crate::traits::Step;

verus! {

/// Stepping forward and then backward returns the starting value: if `y` is
/// the successor of `x` and `z` the predecessor of `y`, then `z` is `x`.
pub proof fn lemma_forward_then_backward<Idx: Step>(x: Idx, y: Idx, z: Idx)
    requires
        y.idx() == x.idx() + 1,
        z.idx() == y.idx() - 1,
    ensures
        z == x,
{
    Idx::lemma_idx_injective(x, z);
}

/// Stepping backward and then forward returns the starting value: if `y` is
/// the predecessor of `x` and `z` the successor of `y`, then `z` is `x`.
pub proof fn lemma_backward_then_forward<Idx: Step>(x: Idx, y: Idx, z: Idx)
    requires
        y.idx() == x.idx() - 1,
        z.idx() == y.idx() + 1,
    ensures
        z == x,
{
    Idx::lemma_idx_injective(x, z);
}

proof fn lemma_seq_has_tail<Idx: Step>(s: Seq<Interval<Idx>>, x: int)
    requires
        seq_wf(s),
        s.len() > 0,
    ensures
        seq_has(s.drop_first(), x) <==> (seq_has(s, x) && x > s[0].hi_idx()),
{
    let s1 = s.drop_first();
    if seq_has(s1, x) {
        let k = choose|k: int| 0 <= k < s1.len() && (#[trigger] s1[k]).has(x);
        assert(s[k + 1].has(x));
        lemma_seq_wf_ordered(s, 0, k + 1);
    }
    if seq_has(s, x) && x > s[0].hi_idx() {
        let k = choose|k: int| 0 <= k < s.len() && (#[trigger] s[k]).has(x);
        assert(k > 0);
        assert(s1[k - 1].has(x));
    }
}

/// Canonical form is unique: two canonical interval sequences with the same
/// members are the same sequence.
pub proof fn lemma_canonical_unique<Idx: Step>(s: Seq<Interval<Idx>>, t: Seq<Interval<Idx>>)
    requires
        seq_wf(s),
        seq_wf(t),
        forall|x: int| seq_has(s, x) <==> seq_has(t, x),
    ensures
        s == t,
    decreases s.len(),
{
    if s.len() == 0 {
        if t.len() > 0 {
            assert(t[0].has(t[0].lo_idx()));
            assert(seq_has(t, t[0].lo_idx()));
            let k = choose|k: int| 0 <= k < s.len() && (#[trigger] s[k]).has(t[0].lo_idx());
            assert(false);
        }
        assert(s =~= t);
    } else if t.len() == 0 {
        assert(s[0].has(s[0].lo_idx()));
        assert(seq_has(s, s[0].lo_idx()));
        let k = choose|k: int| 0 <= k < t.len() && (#[trigger] t[k]).has(s[0].lo_idx());
        assert(false);
    } else {
        // the heads begin at the same place: each begins at the least member
        assert(s[0].has(s[0].lo_idx()));
        assert(seq_has(s, s[0].lo_idx()));
        let kt = choose|k: int| 0 <= k < t.len() && (#[trigger] t[k]).has(s[0].lo_idx());
        if kt > 0 {
            lemma_seq_wf_ordered(t, 0, kt);
        }
        assert(t[0].lo_idx() <= s[0].lo_idx());
        assert(t[0].has(t[0].lo_idx()));
        assert(seq_has(t, t[0].lo_idx()));
        let ks = choose|k: int| 0 <= k < s.len() && (#[trigger] s[k]).has(t[0].lo_idx());
        if ks > 0 {
            lemma_seq_wf_ordered(s, 0, ks);
        }
        assert(s[0].lo_idx() == t[0].lo_idx());
        // and they end at the same place: the value one past the shorter
        // head would be a member of one sequence only
        if s[0].hi_idx() < t[0].hi_idx() {
            let w = s[0].hi_idx() + 1;
            assert(t[0].has(w));
            assert(seq_has(t, w));
            let k = choose|k: int| 0 <= k < s.len() && (#[trigger] s[k]).has(w);
            if k > 0 {
                lemma_seq_wf_ordered(s, 0, k);
            }
            assert(false);
        }
        if t[0].hi_idx() < s[0].hi_idx() {
            let w = t[0].hi_idx() + 1;
            assert(s[0].has(w));
            assert(seq_has(s, w));
            let k = choose|k: int| 0 <= k < t.len() && (#[trigger] t[k]).has(w);
            if k > 0 {
                lemma_seq_wf_ordered(t, 0, k);
            }
            assert(false);
        }
        Idx::lemma_idx_injective(s[0].lo_val(), t[0].lo_val());
        Idx::lemma_idx_injective(s[0].hi_val(), t[0].hi_val());
        s[0].lemma_bounds_determine(t[0]);
        // the tails are canonical and have the same members
        let s1 = s.drop_first();
        let t1 = t.drop_first();
        assert forall|k: int| 0 <= k < s1.len() implies (#[trigger] s1[k]).wf() by {
            assert(s1[k] == s[k + 1]);
        }
        assert forall|k: int| 0 <= k < s1.len() - 1 implies (#[trigger] s1[k]).hi_idx() + 1
            < s1[k + 1].lo_idx() by {
            assert(s1[k] == s[k + 1]);
            assert(s1[k + 1] == s[k + 2]);
        }
        assert forall|k: int| 0 <= k < t1.len() implies (#[trigger] t1[k]).wf() by {
            assert(t1[k] == t[k + 1]);
        }
        assert forall|k: int| 0 <= k < t1.len() - 1 implies (#[trigger] t1[k]).hi_idx() + 1
            < t1[k + 1].lo_idx() by {
            assert(t1[k] == t[k + 1]);
            assert(t1[k + 1] == t[k + 2]);
        }
        assert forall|x: int| seq_has(s1, x) <==> seq_has(t1, x) by {
            lemma_seq_has_tail(s, x);
            lemma_seq_has_tail(t, x);
        }
        lemma_canonical_unique(s1, t1);
        assert forall|k: int| 0 <= k < s.len() implies s[k] == t[k] by {
            if k > 0 {
                assert(s[k] == s1[k - 1]);
                assert(t[k] == t1[k - 1]);
            }
        }
        assert(s =~= t);
    }
}

/// Union is commutative: the union of `a` and `b` and the union of `b` and
/// `a` are the same canonical set.
pub proof fn lemma_union_commutes<Idx: Step>(
    a: IntervalSet<Idx>,
    b: IntervalSet<Idx>,
    ab: IntervalSet<Idx>,
    ba: IntervalSet<Idx>,
)
    requires
        ab.wf(),
        ba.wf(),
        forall|x: int| ab.has(x) <==> a.has(x) || b.has(x),
        forall|x: int| ba.has(x) <==> b.has(x) || a.has(x),
    ensures
        ab@ == ba@,
{
    assert forall|x: int| seq_has(ab@, x) <==> seq_has(ba@, x) by {
        assert(ab.has(x) <==> a.has(x) || b.has(x));
        assert(ba.has(x) <==> b.has(x) || a.has(x));
    }
    lemma_canonical_unique(ab@, ba@);
}

/// Union is idempotent: the union of a canonical set with itself is that
/// same set.
pub proof fn lemma_union_idempotent<Idx: Step>(a: IntervalSet<Idx>, aa: IntervalSet<Idx>)
    requires
        a.wf(),
        aa.wf(),
        forall|x: int| aa.has(x) <==> a.has(x) || a.has(x),
    ensures
        aa@ == a@,
{
    assert forall|x: int| seq_has(aa@, x) <==> seq_has(a@, x) by {
        assert(aa.has(x) <==> a.has(x) || a.has(x));
    }
    lemma_canonical_unique(aa@, a@);
}

/// A set is the union of its intersection with another set and its
/// difference from that set.
pub proof fn lemma_intersection_union_difference<Idx: Step>(
    a: IntervalSet<Idx>,
    b: IntervalSet<Idx>,
    inter: IntervalSet<Idx>,
    diff: IntervalSet<Idx>,
    u: IntervalSet<Idx>,
)
    requires
        a.wf(),
        u.wf(),
        forall|x: int| inter.has(x) <==> a.has(x) && b.has(x),
        forall|x: int| diff.has(x) <==> a.has(x) && !b.has(x),
        forall|x: int| u.has(x) <==> inter.has(x) || diff.has(x),
    ensures
        u@ == a@,
{
    assert forall|x: int| seq_has(u@, x) <==> seq_has(a@, x) by {
        assert(u.has(x) <==> inter.has(x) || diff.has(x));
        assert(inter.has(x) <==> a.has(x) && b.has(x));
        assert(diff.has(x) <==> a.has(x) && !b.has(x));
    }
    lemma_canonical_unique(u@, a@);
}

/// Taking the complement twice returns the original canonical set.
pub proof fn lemma_complement_involution<Idx: Bounded>(
    a: IntervalSet<Idx>,
    c: IntervalSet<Idx>,
    cc: IntervalSet<Idx>,
)
    requires
        a.wf(),
        cc.wf(),
        forall|x: int| c.has(x) <==> (Idx::min_idx() <= x <= Idx::max_idx() && !a.has(x)),
        forall|x: int| cc.has(x) <==> (Idx::min_idx() <= x <= Idx::max_idx() && !c.has(x)),
    ensures
        cc@ == a@,
{
    a.lemma_in_domain();
    assert forall|x: int| seq_has(cc@, x) <==> seq_has(a@, x) by {
        assert(cc.has(x) <==> (Idx::min_idx() <= x <= Idx::max_idx() && !c.has(x)));
        assert(c.has(x) <==> (Idx::min_idx() <= x <= Idx::max_idx() && !a.has(x)));
        assert(a.has(x) ==> Idx::min_idx() <= x <= Idx::max_idx());
    }
    lemma_canonical_unique(cc@, a@);
}

/// The difference of two sets equals the intersection of the first set with
/// the complement of the second.
pub proof fn lemma_difference_via_complement<Idx: Bounded>(
    a: IntervalSet<Idx>,
    b: IntervalSet<Idx>,
    diff: IntervalSet<Idx>,
    comp: IntervalSet<Idx>,
    inter: IntervalSet<Idx>,
)
    requires
        a.wf(),
        diff.wf(),
        inter.wf(),
        forall|x: int| diff.has(x) <==> a.has(x) && !b.has(x),
        forall|x: int| comp.has(x) <==> (Idx::min_idx() <= x <= Idx::max_idx() && !b.has(x)),
        forall|x: int| inter.has(x) <==> a.has(x) && comp.has(x),
    ensures
        diff@ == inter@,
{
    a.lemma_in_domain();
    assert forall|x: int| seq_has(diff@, x) <==> seq_has(inter@, x) by {
        assert(diff.has(x) <==> a.has(x) && !b.has(x));
        assert(inter.has(x) <==> a.has(x) && comp.has(x));
        assert(comp.has(x) <==> (Idx::min_idx() <= x <= Idx::max_idx() && !b.has(x)));
        assert(a.has(x) ==> Idx::min_idx() <= x <= Idx::max_idx());
    }
    lemma_canonical_unique(diff@, inter@);
}

} // verus!
