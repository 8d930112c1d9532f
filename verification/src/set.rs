//! A set of discrete values, stored as its canonical interval decomposition.

use vstd::prelude::*;

use crate::interval::Interval;
use crate::traits::Bounded;
use crate::traits::Step;

verus! {

/// The canonical form of an interval sequence: every interval is valid, and
/// consecutive intervals are in strictly increasing order, non-overlapping
/// and non-adjacent (there is at least one representable value between them).
pub open spec fn seq_wf<Idx: Step>(s: Seq<Interval<Idx>>) -> bool {
    &&& forall|k: int| 0 <= k < s.len() ==> (#[trigger] s[k]).wf()
    &&& forall|k: int| 0 <= k < s.len() - 1 ==> (#[trigger] s[k]).hi_idx() + 1 < s[k + 1].lo_idx()
}

/// Whether the position `x` lies inside one of the intervals of `s`.
pub open spec fn seq_has<Idx: Step>(s: Seq<Interval<Idx>>, x: int) -> bool {
    exists|k: int| 0 <= k < s.len() && (#[trigger] s[k]).has(x)
}

/// The total number of positions covered by the intervals of `s`.
pub open spec fn seq_size<Idx: Step>(s: Seq<Interval<Idx>>) -> int
    decreases s.len(),
{
    if s.len() == 0 {
        0
    } else {
        s[0].hi_idx() - s[0].lo_idx() + 1 + seq_size(s.drop_first())
    }
}

/// In a canonical sequence any earlier interval ends strictly before any
/// later interval begins, with a gap of at least one value.
pub proof fn lemma_seq_wf_ordered<Idx: Step>(s: Seq<Interval<Idx>>, k: int, l: int)
    requires
        seq_wf(s),
        0 <= k < l < s.len(),
    ensures
        s[k].hi_idx() + 1 < s[l].lo_idx(),
    decreases l - k,
{
    if k + 1 < l {
        lemma_seq_wf_ordered(s, k, l - 1);
    }
}

proof fn lemma_seq_has_take_succ<Idx: Step>(s: Seq<Interval<Idx>>, i: int, x: int)
    requires
        0 <= i < s.len(),
    ensures
        seq_has(s.take(i + 1), x) <==> (seq_has(s.take(i), x) || s[i].has(x)),
{
    let t1 = s.take(i + 1);
    let t0 = s.take(i);
    if seq_has(t1, x) {
        let k = choose|k: int| 0 <= k < t1.len() && (#[trigger] t1[k]).has(x);
        if k < i {
            assert(t0[k].has(x));
        } else {
            assert(s[i].has(x));
        }
    }
    if seq_has(t0, x) {
        let k = choose|k: int| 0 <= k < t0.len() && (#[trigger] t0[k]).has(x);
        assert(t1[k].has(x));
    }
    if s[i].has(x) {
        assert(t1[i].has(x));
    }
}

proof fn lemma_seq_has_push<Idx: Step>(s: Seq<Interval<Idx>>, v: Interval<Idx>, x: int)
    ensures
        seq_has(s.push(v), x) <==> (seq_has(s, x) || v.has(x)),
{
    let t = s.push(v);
    if seq_has(t, x) {
        let k = choose|k: int| 0 <= k < t.len() && (#[trigger] t[k]).has(x);
        if k < s.len() {
            assert(s[k].has(x));
        }
    }
    if seq_has(s, x) {
        let k = choose|k: int| 0 <= k < s.len() && (#[trigger] s[k]).has(x);
        assert(t[k].has(x));
    }
    if v.has(x) {
        assert(t[s.len() as int].has(x));
    }
}

/// The intervals already emitted by a merge, together with the pending
/// candidate interval, cover exactly the members of the consumed prefixes of
/// the two input sequences.
#[verifier::opaque]
spec fn merge_cover<Idx: Step>(
    res: Seq<Interval<Idx>>,
    prev: Interval<Idx>,
    a: Seq<Interval<Idx>>,
    i: int,
    b: Seq<Interval<Idx>>,
    j: int,
) -> bool {
    forall|x: int|
        (seq_has(res, x) || prev.has(x)) <==> (seq_has(a.take(i), x) || seq_has(b.take(j), x))
}

proof fn lemma_merge_cover_init<Idx: Step>(
    res: Seq<Interval<Idx>>,
    prev: Interval<Idx>,
    a: Seq<Interval<Idx>>,
    b: Seq<Interval<Idx>>,
    i: int,
    j: int,
    from_a: bool,
)
    requires
        res.len() == 0,
        from_a ==> a.len() > 0 && prev == a[0] && i == 1 && j == 0,
        !from_a ==> b.len() > 0 && prev == b[0] && i == 0 && j == 1,
    ensures
        merge_cover(res, prev, a, i, b, j),
{
    reveal(merge_cover);
    assert forall|x: int|
        (seq_has(res, x) || prev.has(x)) <==> (seq_has(a.take(i), x) || seq_has(b.take(j), x)) by {
        if from_a {
            if prev.has(x) {
                assert(a.take(1)[0].has(x));
            }
            if seq_has(a.take(1), x) {
                let k = choose|k: int| 0 <= k < a.take(1).len() && (#[trigger] a.take(1)[k]).has(x);
                assert(prev.has(x));
            }
        } else {
            if prev.has(x) {
                assert(b.take(1)[0].has(x));
            }
            if seq_has(b.take(1), x) {
                let k = choose|k: int| 0 <= k < b.take(1).len() && (#[trigger] b.take(1)[k]).has(x);
                assert(prev.has(x));
            }
        }
    }
}

proof fn lemma_merge_cover_hull<Idx: Step>(
    res: Seq<Interval<Idx>>,
    prev0: Interval<Idx>,
    prev1: Interval<Idx>,
    nxt: Interval<Idx>,
    a: Seq<Interval<Idx>>,
    b: Seq<Interval<Idx>>,
    i0: int,
    j0: int,
    from_a: bool,
)
    requires
        merge_cover(res, prev0, a, i0, b, j0),
        from_a ==> 0 <= i0 < a.len() && nxt == a[i0] && 0 <= j0 <= b.len(),
        !from_a ==> 0 <= j0 < b.len() && nxt == b[j0] && 0 <= i0 <= a.len(),
        prev0.wf(),
        nxt.wf(),
        nxt.lo_idx() <= prev0.hi_idx() + 1,
        nxt.lo_idx() >= prev0.lo_idx(),
        prev1.lo_idx() == prev0.lo_idx(),
        prev1.hi_idx() == if prev0.hi_idx() >= nxt.hi_idx() {
            prev0.hi_idx()
        } else {
            nxt.hi_idx()
        },
    ensures
        merge_cover(
            res,
            prev1,
            a,
            if from_a {
                i0 + 1
            } else {
                i0
            },
            b,
            if from_a {
                j0
            } else {
                j0 + 1
            },
        ),
{
    reveal(merge_cover);
    let i1: int = if from_a {
        i0 + 1
    } else {
        i0
    };
    let j1: int = if from_a {
        j0
    } else {
        j0 + 1
    };
    assert forall|x: int|
        (seq_has(res, x) || prev1.has(x)) <==> (seq_has(a.take(i1), x) || seq_has(b.take(j1), x)) by {
        if from_a {
            lemma_seq_has_take_succ(a, i0, x);
        } else {
            lemma_seq_has_take_succ(b, j0, x);
        }
        assert(prev1.has(x) <==> (prev0.has(x) || nxt.has(x)));
    }
}

proof fn lemma_merge_cover_push<Idx: Step>(
    res0: Seq<Interval<Idx>>,
    res1: Seq<Interval<Idx>>,
    prev0: Interval<Idx>,
    nxt: Interval<Idx>,
    a: Seq<Interval<Idx>>,
    b: Seq<Interval<Idx>>,
    i0: int,
    j0: int,
    from_a: bool,
)
    requires
        merge_cover(res0, prev0, a, i0, b, j0),
        res1 == res0.push(prev0),
        from_a ==> 0 <= i0 < a.len() && nxt == a[i0] && 0 <= j0 <= b.len(),
        !from_a ==> 0 <= j0 < b.len() && nxt == b[j0] && 0 <= i0 <= a.len(),
    ensures
        merge_cover(
            res1,
            nxt,
            a,
            if from_a {
                i0 + 1
            } else {
                i0
            },
            b,
            if from_a {
                j0
            } else {
                j0 + 1
            },
        ),
{
    reveal(merge_cover);
    let i1: int = if from_a {
        i0 + 1
    } else {
        i0
    };
    let j1: int = if from_a {
        j0
    } else {
        j0 + 1
    };
    assert forall|x: int|
        (seq_has(res1, x) || nxt.has(x)) <==> (seq_has(a.take(i1), x) || seq_has(b.take(j1), x)) by {
        if from_a {
            lemma_seq_has_take_succ(a, i0, x);
        } else {
            lemma_seq_has_take_succ(b, j0, x);
        }
        lemma_seq_has_push(res0, prev0, x);
    }
}

proof fn lemma_merge_cover_final<Idx: Step>(
    res0: Seq<Interval<Idx>>,
    res1: Seq<Interval<Idx>>,
    prev: Interval<Idx>,
    a: Seq<Interval<Idx>>,
    b: Seq<Interval<Idx>>,
)
    requires
        merge_cover(res0, prev, a, a.len() as int, b, b.len() as int),
        res1 == res0.push(prev),
    ensures
        forall|x: int| seq_has(res1, x) <==> (seq_has(a, x) || seq_has(b, x)),
{
    reveal(merge_cover);
    assert(a.take(a.len() as int) =~= a);
    assert(b.take(b.len() as int) =~= b);
    assert forall|x: int| seq_has(res1, x) <==> (seq_has(a, x) || seq_has(b, x)) by {
        lemma_seq_has_push(res0, prev, x);
    }
}

proof fn lemma_seq_size_push<Idx: Step>(s: Seq<Interval<Idx>>, v: Interval<Idx>)
    ensures
        seq_size(s.push(v)) == seq_size(s) + v.hi_idx() - v.lo_idx() + 1,
    decreases s.len(),
{
    if s.len() == 0 {
        assert(s.push(v).drop_first() =~= Seq::<Interval<Idx>>::empty());
        assert(s.push(v)[0] == v);
        assert(seq_size(s.push(v).drop_first()) == 0);
    } else {
        assert(s.push(v).drop_first() =~= s.drop_first().push(v));
        lemma_seq_size_push(s.drop_first(), v);
        assert(s.push(v)[0] == s[0]);
        assert(seq_size(s.push(v)) == s.push(v)[0].hi_idx() - s.push(v)[0].lo_idx() + 1
            + seq_size(s.push(v).drop_first()));
        assert(seq_size(s) == s[0].hi_idx() - s[0].lo_idx() + 1 + seq_size(s.drop_first()));
    }
}

proof fn lemma_seq_size_take_succ<Idx: Step>(s: Seq<Interval<Idx>>, i: int)
    requires
        0 <= i < s.len(),
    ensures
        seq_size(s.take(i + 1)) == seq_size(s.take(i)) + s[i].hi_idx() - s[i].lo_idx() + 1,
{
    assert(s.take(i + 1) =~= s.take(i).push(s[i]));
    lemma_seq_size_push(s.take(i), s[i]);
}

/// The size of a canonical sequence is at least the size of any prefix.
proof fn lemma_seq_size_bound<Idx: Step>(s: Seq<Interval<Idx>>, i: int)
    requires
        seq_wf(s),
        0 <= i <= s.len(),
    ensures
        seq_size(s) >= seq_size(s.take(i)),
    decreases s.len() - i,
{
    if i == s.len() {
        assert(s.take(i) =~= s);
    } else {
        lemma_seq_size_take_succ(s, i);
        lemma_seq_size_bound(s, i + 1);
    }
}

/// Every interval before position `n` ends at or before `bound`.
spec fn his_bounded<Idx: Step>(s: Seq<Interval<Idx>>, n: int, bound: int) -> bool {
    forall|k: int| 0 <= k < n ==> (#[trigger] s[k]).hi_idx() <= bound
}

/// Every interval from position `n` on begins at or after `bound`.
spec fn los_from<Idx: Step>(s: Seq<Interval<Idx>>, n: int, bound: int) -> bool {
    forall|k: int| n <= k < s.len() ==> (#[trigger] s[k]).lo_idx() >= bound
}

/// The intersection pieces already emitted cover exactly the values common to
/// the consumed prefixes of the two input sequences.
#[verifier::opaque]
spec fn inter_cover<Idx: Step>(
    res: Seq<Interval<Idx>>,
    a: Seq<Interval<Idx>>,
    i: int,
    b: Seq<Interval<Idx>>,
    j: int,
) -> bool {
    forall|x: int| seq_has(res, x) <==> (seq_has(a.take(i), x) && seq_has(b.take(j), x))
}

proof fn lemma_inter_cover_init<Idx: Step>(
    res: Seq<Interval<Idx>>,
    a: Seq<Interval<Idx>>,
    b: Seq<Interval<Idx>>,
    i: int,
    j: int,
)
    requires
        res.len() == 0,
        i == 0 || j == 0,
        0 <= i <= a.len(),
        0 <= j <= b.len(),
    ensures
        inter_cover(res, a, i, b, j),
{
    reveal(inter_cover);
    assert forall|x: int|
        seq_has(res, x) <==> (seq_has(a.take(i), x) && seq_has(b.take(j), x)) by {
        assert(!seq_has(res, x));
        if i == 0 {
            assert(!seq_has(a.take(0), x));
        } else {
            assert(!seq_has(b.take(0), x));
        }
    }
}

proof fn lemma_inter_cover_emit<Idx: Step>(
    res0: Seq<Interval<Idx>>,
    res1: Seq<Interval<Idx>>,
    prev: Interval<Idx>,
    piece: Interval<Idx>,
    nxt: Interval<Idx>,
    a: Seq<Interval<Idx>>,
    b: Seq<Interval<Idx>>,
    i0: int,
    j0: int,
    take_a: bool,
    prev_from_a: bool,
)
    requires
        inter_cover(res0, a, i0, b, j0),
        res1 == res0.push(piece),
        take_a ==> 0 <= i0 < a.len() && nxt == a[i0] && 0 <= j0 <= b.len(),
        !take_a ==> 0 <= j0 < b.len() && nxt == b[j0] && 0 <= i0 <= a.len(),
        prev_from_a ==> 1 <= i0 <= a.len() && prev == a[i0 - 1],
        !prev_from_a ==> 1 <= j0 <= b.len() && prev == b[j0 - 1],
        take_a != prev_from_a,
        his_bounded(a, i0, prev.hi_idx()),
        his_bounded(b, j0, prev.hi_idx()),
        prev.wf(),
        nxt.wf(),
        nxt.lo_idx() >= prev.lo_idx(),
        nxt.lo_idx() <= prev.hi_idx(),
        piece.lo_idx() == nxt.lo_idx(),
        piece.hi_idx() == if nxt.hi_idx() <= prev.hi_idx() {
            nxt.hi_idx()
        } else {
            prev.hi_idx()
        },
    ensures
        inter_cover(
            res1,
            a,
            if take_a {
                i0 + 1
            } else {
                i0
            },
            b,
            if take_a {
                j0
            } else {
                j0 + 1
            },
        ),
{
    reveal(inter_cover);
    let i1: int = if take_a {
        i0 + 1
    } else {
        i0
    };
    let j1: int = if take_a {
        j0
    } else {
        j0 + 1
    };
    assert forall|x: int|
        seq_has(res1, x) <==> (seq_has(a.take(i1), x) && seq_has(b.take(j1), x)) by {
        lemma_seq_has_push(res0, piece, x);
        if take_a {
            lemma_seq_has_take_succ(a, i0, x);
        } else {
            lemma_seq_has_take_succ(b, j0, x);
        }
        if piece.has(x) {
            if take_a {
                assert(b.take(j1)[j0 - 1].has(x));
            } else {
                assert(a.take(i1)[i0 - 1].has(x));
            }
        }
        if seq_has(a.take(i1), x) && seq_has(b.take(j1), x) && !seq_has(res0, x) {
            if take_a {
                let k = choose|k: int|
                    0 <= k < b.take(j0).len() && (#[trigger] b.take(j0)[k]).has(x);
                assert(b[k].hi_idx() <= prev.hi_idx());
                assert(piece.has(x));
            } else {
                let k = choose|k: int|
                    0 <= k < a.take(i0).len() && (#[trigger] a.take(i0)[k]).has(x);
                assert(a[k].hi_idx() <= prev.hi_idx());
                assert(piece.has(x));
            }
        }
    }
}

proof fn lemma_inter_cover_skip<Idx: Step>(
    res: Seq<Interval<Idx>>,
    prev: Interval<Idx>,
    nxt: Interval<Idx>,
    a: Seq<Interval<Idx>>,
    b: Seq<Interval<Idx>>,
    i0: int,
    j0: int,
    take_a: bool,
)
    requires
        inter_cover(res, a, i0, b, j0),
        take_a ==> 0 <= i0 < a.len() && nxt == a[i0] && 0 <= j0 <= b.len(),
        !take_a ==> 0 <= j0 < b.len() && nxt == b[j0] && 0 <= i0 <= a.len(),
        his_bounded(a, i0, prev.hi_idx()),
        his_bounded(b, j0, prev.hi_idx()),
        nxt.lo_idx() > prev.hi_idx(),
    ensures
        inter_cover(
            res,
            a,
            if take_a {
                i0 + 1
            } else {
                i0
            },
            b,
            if take_a {
                j0
            } else {
                j0 + 1
            },
        ),
{
    reveal(inter_cover);
    let i1: int = if take_a {
        i0 + 1
    } else {
        i0
    };
    let j1: int = if take_a {
        j0
    } else {
        j0 + 1
    };
    assert forall|x: int|
        seq_has(res, x) <==> (seq_has(a.take(i1), x) && seq_has(b.take(j1), x)) by {
        if take_a {
            lemma_seq_has_take_succ(a, i0, x);
        } else {
            lemma_seq_has_take_succ(b, j0, x);
        }
        if nxt.has(x) {
            if take_a {
                if seq_has(b.take(j0), x) {
                    let k = choose|k: int|
                        0 <= k < b.take(j0).len() && (#[trigger] b.take(j0)[k]).has(x);
                    assert(b[k].hi_idx() <= prev.hi_idx());
                    assert(false);
                }
            } else {
                if seq_has(a.take(i0), x) {
                    let k = choose|k: int|
                        0 <= k < a.take(i0).len() && (#[trigger] a.take(i0)[k]).has(x);
                    assert(a[k].hi_idx() <= prev.hi_idx());
                    assert(false);
                }
            }
        }
    }
}

proof fn lemma_inter_cover_final<Idx: Step>(
    res: Seq<Interval<Idx>>,
    a: Seq<Interval<Idx>>,
    b: Seq<Interval<Idx>>,
)
    requires
        inter_cover(res, a, a.len() as int, b, b.len() as int),
    ensures
        forall|x: int| seq_has(res, x) <==> (seq_has(a, x) && seq_has(b, x)),
{
    reveal(inter_cover);
    assert(a.take(a.len() as int) =~= a);
    assert(b.take(b.len() as int) =~= b);
}

/// Every interval before position `n` ends strictly below `bound`.
spec fn his_below<Idx: Step>(s: Seq<Interval<Idx>>, n: int, bound: int) -> bool {
    forall|k: int| 0 <= k < n ==> (#[trigger] s[k]).hi_idx() < bound
}

/// The difference pieces already emitted cover exactly the values of `a` that
/// are not in `b` and lie strictly below the frontier `lim`.
#[verifier::opaque]
spec fn diff_cover<Idx: Step>(
    res: Seq<Interval<Idx>>,
    a: Seq<Interval<Idx>>,
    b: Seq<Interval<Idx>>,
    lim: int,
) -> bool {
    forall|x: int| seq_has(res, x) <==> (seq_has(a, x) && !seq_has(b, x) && x < lim)
}

/// The difference pieces already emitted cover exactly the values of the
/// first `i` intervals of `a` that are not in `b`.
#[verifier::opaque]
spec fn diff_taken<Idx: Step>(
    res: Seq<Interval<Idx>>,
    a: Seq<Interval<Idx>>,
    i: int,
    b: Seq<Interval<Idx>>,
) -> bool {
    forall|x: int| seq_has(res, x) <==> (seq_has(a.take(i), x) && !seq_has(b, x))
}

proof fn lemma_diff_cover_init<Idx: Step>(
    res: Seq<Interval<Idx>>,
    a: Seq<Interval<Idx>>,
    b: Seq<Interval<Idx>>,
)
    requires
        res.len() == 0,
        seq_wf(a),
        a.len() > 0,
    ensures
        diff_cover(res, a, b, a[0].lo_idx()),
{
    reveal(diff_cover);
    assert forall|x: int|
        seq_has(res, x) <==> (seq_has(a, x) && !seq_has(b, x) && x < a[0].lo_idx()) by {
        assert(!seq_has(res, x));
        if seq_has(a, x) && x < a[0].lo_idx() {
            let k = choose|k: int| 0 <= k < a.len() && (#[trigger] a[k]).has(x);
            if k > 0 {
                lemma_seq_wf_ordered(a, 0, k);
            }
            assert(false);
        }
    }
}

proof fn lemma_diff_step_b<Idx: Step>(
    res0: Seq<Interval<Idx>>,
    res1: Seq<Interval<Idx>>,
    a: Seq<Interval<Idx>>,
    b: Seq<Interval<Idx>>,
    cur0: Interval<Idx>,
    cur1: Interval<Idx>,
    i0: int,
    j0: int,
    left: Option<Interval<Idx>>,
)
    requires
        diff_cover(res0, a, b, cur0.lo_idx()),
        seq_wf(a),
        seq_wf(b),
        0 <= j0 < b.len(),
        1 <= i0 <= a.len(),
        cur0.wf(),
        cur0.hi_idx() == a[i0 - 1].hi_idx(),
        cur0.lo_idx() >= a[i0 - 1].lo_idx(),
        his_below(b, j0, cur0.lo_idx()),
        left is Some <==> cur0.lo_idx() < b[j0].lo_idx(),
        left is Some ==> left->0.wf() && left->0.lo_idx() == cur0.lo_idx() && left->0.hi_idx()
            == (if cur0.hi_idx() <= b[j0].lo_idx() - 1 {
            cur0.hi_idx()
        } else {
            b[j0].lo_idx() - 1
        }),
        res1 == if left is Some {
            res0.push(left->0)
        } else {
            res0
        },
        cur0.hi_idx() > b[j0].hi_idx(),
        cur1.hi_idx() == cur0.hi_idx(),
        cur1.lo_idx() == if cur0.lo_idx() >= b[j0].hi_idx() + 1 {
            cur0.lo_idx()
        } else {
            b[j0].hi_idx() + 1
        },
    ensures
        diff_cover(res1, a, b, cur1.lo_idx()),
        his_below(b, j0 + 1, cur1.lo_idx()),
{
    reveal(diff_cover);
    assert forall|x: int|
        seq_has(res1, x) <==> (seq_has(a, x) && !seq_has(b, x) && x < cur1.lo_idx()) by {
        if left is Some {
            lemma_seq_has_push(res0, left->0, x);
        }
        if left is Some && left->0.has(x) {
            assert(a[i0 - 1].has(x));
            if seq_has(b, x) {
                let k = choose|k: int| 0 <= k < b.len() && (#[trigger] b[k]).has(x);
                if k > j0 {
                    lemma_seq_wf_ordered(b, j0, k);
                }
                assert(false);
            }
        }
        if seq_has(a, x) && !seq_has(b, x) && x < cur1.lo_idx() && x >= cur0.lo_idx() {
            // the value lies in the part of the candidate cut away by b[j0]
            assert(x < b[j0].lo_idx());
            let k = choose|k: int| 0 <= k < a.len() && (#[trigger] a[k]).has(x);
            if k < i0 - 1 {
                lemma_seq_wf_ordered(a, k, i0 - 1);
                assert(false);
            }
            if k > i0 - 1 {
                lemma_seq_wf_ordered(a, i0 - 1, k);
                assert(false);
            }
            assert(left is Some && left->0.has(x));
        }
    }
}

proof fn lemma_diff_step_a<Idx: Step>(
    res0: Seq<Interval<Idx>>,
    res1: Seq<Interval<Idx>>,
    a: Seq<Interval<Idx>>,
    b: Seq<Interval<Idx>>,
    cur0: Interval<Idx>,
    i0: int,
    j0: int,
    left: Option<Interval<Idx>>,
)
    requires
        diff_cover(res0, a, b, cur0.lo_idx()),
        seq_wf(a),
        seq_wf(b),
        0 <= j0 < b.len(),
        1 <= i0 < a.len(),
        cur0.wf(),
        cur0.hi_idx() == a[i0 - 1].hi_idx(),
        cur0.lo_idx() >= a[i0 - 1].lo_idx(),
        his_below(b, j0, cur0.lo_idx()),
        left is Some <==> cur0.lo_idx() < b[j0].lo_idx(),
        left is Some ==> left->0.wf() && left->0.lo_idx() == cur0.lo_idx() && left->0.hi_idx()
            == (if cur0.hi_idx() <= b[j0].lo_idx() - 1 {
            cur0.hi_idx()
        } else {
            b[j0].lo_idx() - 1
        }),
        res1 == if left is Some {
            res0.push(left->0)
        } else {
            res0
        },
        cur0.hi_idx() <= b[j0].hi_idx(),
    ensures
        diff_cover(res1, a, b, a[i0].lo_idx()),
        his_below(b, j0, a[i0].lo_idx()),
{
    reveal(diff_cover);
    assert(a[i0 - 1].hi_idx() + 1 < a[i0].lo_idx());
    assert forall|x: int|
        seq_has(res1, x) <==> (seq_has(a, x) && !seq_has(b, x) && x < a[i0].lo_idx()) by {
        if left is Some {
            lemma_seq_has_push(res0, left->0, x);
        }
        if left is Some && left->0.has(x) {
            assert(a[i0 - 1].has(x));
            if seq_has(b, x) {
                let k = choose|k: int| 0 <= k < b.len() && (#[trigger] b[k]).has(x);
                if k > j0 {
                    lemma_seq_wf_ordered(b, j0, k);
                }
                assert(false);
            }
        }
        if seq_has(a, x) && !seq_has(b, x) && x < a[i0].lo_idx() && x >= cur0.lo_idx() {
            let k = choose|k: int| 0 <= k < a.len() && (#[trigger] a[k]).has(x);
            if k < i0 - 1 {
                lemma_seq_wf_ordered(a, k, i0 - 1);
                assert(false);
            }
            if k > i0 - 1 {
                if k > i0 {
                    lemma_seq_wf_ordered(a, i0, k);
                }
                assert(false);
            }
            assert(x <= cur0.hi_idx());
            assert(x < b[j0].lo_idx());
            assert(left is Some && left->0.has(x));
        }
    }
}

proof fn lemma_diff_done<Idx: Step>(
    res0: Seq<Interval<Idx>>,
    res1: Seq<Interval<Idx>>,
    a: Seq<Interval<Idx>>,
    b: Seq<Interval<Idx>>,
    cur0: Interval<Idx>,
    j0: int,
    left: Option<Interval<Idx>>,
)
    requires
        diff_cover(res0, a, b, cur0.lo_idx()),
        seq_wf(a),
        seq_wf(b),
        0 <= j0 < b.len(),
        a.len() >= 1,
        cur0.wf(),
        cur0.hi_idx() == a[a.len() - 1].hi_idx(),
        cur0.lo_idx() >= a[a.len() - 1].lo_idx(),
        his_below(b, j0, cur0.lo_idx()),
        left is Some <==> cur0.lo_idx() < b[j0].lo_idx(),
        left is Some ==> left->0.wf() && left->0.lo_idx() == cur0.lo_idx() && left->0.hi_idx()
            == (if cur0.hi_idx() <= b[j0].lo_idx() - 1 {
            cur0.hi_idx()
        } else {
            b[j0].lo_idx() - 1
        }),
        res1 == if left is Some {
            res0.push(left->0)
        } else {
            res0
        },
        cur0.hi_idx() <= b[j0].hi_idx(),
    ensures
        diff_taken(res1, a, a.len() as int, b),
{
    reveal(diff_cover);
    reveal(diff_taken);
    let i0 = a.len() as int;
    assert(a.take(i0) =~= a);
    assert forall|x: int| seq_has(res1, x) <==> (seq_has(a, x) && !seq_has(b, x)) by {
        if left is Some {
            lemma_seq_has_push(res0, left->0, x);
        }
        if left is Some && left->0.has(x) {
            assert(a[i0 - 1].has(x));
            if seq_has(b, x) {
                let k = choose|k: int| 0 <= k < b.len() && (#[trigger] b[k]).has(x);
                if k > j0 {
                    lemma_seq_wf_ordered(b, j0, k);
                }
                assert(false);
            }
        }
        if seq_has(a, x) && !seq_has(b, x) && x >= cur0.lo_idx() {
            let k = choose|k: int| 0 <= k < a.len() && (#[trigger] a[k]).has(x);
            if k < i0 - 1 {
                lemma_seq_wf_ordered(a, k, i0 - 1);
                assert(false);
            }
            assert(x <= cur0.hi_idx());
            assert(x < b[j0].lo_idx());
            assert(left is Some && left->0.has(x));
        }
    }
}

proof fn lemma_diff_bridge<Idx: Step>(
    res0: Seq<Interval<Idx>>,
    res1: Seq<Interval<Idx>>,
    a: Seq<Interval<Idx>>,
    b: Seq<Interval<Idx>>,
    cur0: Interval<Idx>,
    i0: int,
)
    requires
        diff_cover(res0, a, b, cur0.lo_idx()),
        seq_wf(a),
        seq_wf(b),
        1 <= i0 <= a.len(),
        cur0.wf(),
        cur0.hi_idx() == a[i0 - 1].hi_idx(),
        cur0.lo_idx() >= a[i0 - 1].lo_idx(),
        his_below(b, b.len() as int, cur0.lo_idx()),
        res1 == res0.push(cur0),
    ensures
        diff_taken(res1, a, i0, b),
{
    reveal(diff_cover);
    reveal(diff_taken);
    assert forall|x: int| seq_has(res1, x) <==> (seq_has(a.take(i0), x) && !seq_has(b, x)) by {
        lemma_seq_has_push(res0, cur0, x);
        if seq_has(res0, x) {
            let k = choose|k: int| 0 <= k < a.len() && (#[trigger] a[k]).has(x);
            if k >= i0 {
                lemma_seq_wf_ordered(a, i0 - 1, k);
                assert(false);
            }
            assert(a.take(i0)[k].has(x));
        }
        if cur0.has(x) {
            assert(a.take(i0)[i0 - 1].has(x));
            if seq_has(b, x) {
                let k = choose|k: int| 0 <= k < b.len() && (#[trigger] b[k]).has(x);
                assert(false);
            }
        }
        if seq_has(a.take(i0), x) && !seq_has(b, x) {
            let k = choose|k: int|
                0 <= k < a.take(i0).len() && (#[trigger] a.take(i0)[k]).has(x);
            assert(a[k].has(x));
            if x < cur0.lo_idx() {
                assert(seq_has(res0, x));
            } else {
                if k < i0 - 1 {
                    lemma_seq_wf_ordered(a, k, i0 - 1);
                    assert(false);
                }
                assert(cur0.has(x));
            }
        }
    }
}

proof fn lemma_diff_taken_push<Idx: Step>(
    res0: Seq<Interval<Idx>>,
    res1: Seq<Interval<Idx>>,
    a: Seq<Interval<Idx>>,
    b: Seq<Interval<Idx>>,
    i0: int,
)
    requires
        diff_taken(res0, a, i0, b),
        0 <= i0 < a.len(),
        res1 == res0.push(a[i0]),
        his_below(b, b.len() as int, a[i0].lo_idx()),
    ensures
        diff_taken(res1, a, i0 + 1, b),
{
    reveal(diff_taken);
    assert forall|x: int|
        seq_has(res1, x) <==> (seq_has(a.take(i0 + 1), x) && !seq_has(b, x)) by {
        lemma_seq_has_push(res0, a[i0], x);
        lemma_seq_has_take_succ(a, i0, x);
        if a[i0].has(x) {
            if seq_has(b, x) {
                let k = choose|k: int| 0 <= k < b.len() && (#[trigger] b[k]).has(x);
                assert(false);
            }
        }
    }
}

proof fn lemma_diff_taken_full<Idx: Step>(
    res: Seq<Interval<Idx>>,
    a: Seq<Interval<Idx>>,
    b: Seq<Interval<Idx>>,
)
    requires
        diff_taken(res, a, a.len() as int, b),
    ensures
        forall|x: int| seq_has(res, x) <==> (seq_has(a, x) && !seq_has(b, x)),
{
    reveal(diff_taken);
    assert(a.take(a.len() as int) =~= a);
}

/// A set of values of `Idx`, kept as the canonical decomposition of the set
/// into closed intervals.
///
/// The number of intervals is minimized: the stored intervals are sorted,
/// pairwise disjoint, and never adjacent — overlapping or touching intervals
/// are merged by every operation.
#[derive(Clone)]
pub struct IntervalSet<Idx: Step> {
    intervals: Vec<Interval<Idx>>,
}

impl<Idx: Step> View for IntervalSet<Idx> {
    type V = Seq<Interval<Idx>>;

    closed spec fn view(&self) -> Seq<Interval<Idx>> {
        self.intervals@
    }
}

impl<Idx: Step> IntervalSet<Idx> {
    /// The set is in canonical form.
    pub open spec fn wf(self) -> bool {
        seq_wf(self@)
    }

    /// Whether the position `x` is a member of the set.
    pub open spec fn has(self, x: int) -> bool {
        seq_has(self@, x)
    }

    /// Returns the empty set.
    pub fn empty() -> (r: Self)
        ensures
            r.wf(),
            r@.len() == 0,
            forall|x: int| !r.has(x),
    {
        IntervalSet { intervals: Vec::new() }
    }

    /// Returns the set that contains a single interval.
    pub fn interval(interval: Interval<Idx>) -> (r: Self)
        requires
            interval.wf(),
        ensures
            r.wf(),
            r@.len() == 1,
            r@[0] == interval,
            forall|x: int| r.has(x) <==> interval.has(x),
    {
        let mut intervals: Vec<Interval<Idx>> = Vec::new();
        intervals.push(interval);
        let r = IntervalSet { intervals };
        proof {
            assert forall|x: int| r.has(x) <==> interval.has(x) by {
                if interval.has(x) {
                    assert(r@[0].has(x));
                }
            }
        }
        r
    }

    /// Returns the number of intervals in the set.
    ///
    /// To get the number of values in the set use [`IntervalSet::size`] or
    /// [`IntervalSet::size_exact`].
    pub fn intervals(&self) -> (r: usize)
        ensures
            r == self@.len(),
    {
        self.intervals.len()
    }

    /// Gives access to the intervals of the set, in canonical order.
    pub fn iter(&self) -> (r: &Vec<Interval<Idx>>)
        ensures
            r@ == self@,
    {
        &self.intervals
    }

    /// Performs the union of two sets.
    #[verifier::rlimit(50)]
    pub fn union(&self, other: &Self) -> (r: Self)
        requires
            self.wf(),
            other.wf(),
        ensures
            r.wf(),
            forall|x: int| r.has(x) <==> self.has(x) || other.has(x),
    {
        let a = &self.intervals;
        let b = &other.intervals;
        let mut result: Vec<Interval<Idx>> = Vec::new();
        if a.len() == 0 && b.len() == 0 {
            let r = IntervalSet { intervals: result };
            return r;
        }
        let mut i: usize = 0;
        let mut j: usize = 0;
        let pick_a: bool = if b.len() == 0 {
            true
        } else if a.len() == 0 {
            false
        } else {
            let a0 = a[0];
            let b0 = b[0];
            Idx::leq(a0.lo(), b0.lo())
        };
        let mut prev: Interval<Idx> = if pick_a {
            i = 1;
            a[0]
        } else {
            j = 1;
            b[0]
        };
        proof {
            lemma_merge_cover_init(result@, prev, a@, b@, i as int, j as int, pick_a);
            assert forall|k: int| i <= k < a@.len() implies (#[trigger] a@[k]).lo_idx()
                >= prev.lo_idx() by {
                if k > 0 {
                    lemma_seq_wf_ordered(a@, 0, k);
                }
            }
            assert forall|k: int| j <= k < b@.len() implies (#[trigger] b@[k]).lo_idx()
                >= prev.lo_idx() by {
                if k > 0 {
                    lemma_seq_wf_ordered(b@, 0, k);
                }
            }
        }
        while i < a.len() || j < b.len()
            invariant
                i <= a.len(),
                j <= b.len(),
                seq_wf(a@),
                seq_wf(b@),
                prev.wf(),
                seq_wf(result@),
                forall|k: int|
                    0 <= k < result@.len() ==> (#[trigger] result@[k]).hi_idx() + 1
                        < prev.lo_idx(),
                forall|k: int| i <= k < a@.len() ==> (#[trigger] a@[k]).lo_idx() >= prev.lo_idx(),
                forall|k: int| j <= k < b@.len() ==> (#[trigger] b@[k]).lo_idx() >= prev.lo_idx(),
                merge_cover(result@, prev, a@, i as int, b@, j as int),
            decreases a@.len() - i + b@.len() - j,
        {
            let ghost i0 = i as int;
            let ghost j0 = j as int;
            let ghost prev0 = prev;
            let take_a: bool = if i < a.len() {
                if j < b.len() {
                    let ai = a[i];
                    let bj = b[j];
                    Idx::leq(ai.lo(), bj.lo())
                } else {
                    true
                }
            } else {
                false
            };
            let nxt: Interval<Idx> = if take_a {
                let v = a[i];
                i = i + 1;
                v
            } else {
                let v = b[j];
                j = j + 1;
                v
            };
            proof {
                // every remaining head begins at or after the head just taken
                assert forall|k: int| i <= k < a@.len() implies (#[trigger] a@[k]).lo_idx()
                    >= nxt.lo_idx() by {
                    if k > i0 {
                        lemma_seq_wf_ordered(a@, i0, k);
                    }
                }
                assert forall|k: int| j <= k < b@.len() implies (#[trigger] b@[k]).lo_idx()
                    >= nxt.lo_idx() by {
                    if k > j0 {
                        lemma_seq_wf_ordered(b@, j0, k);
                    }
                }
            }
            let touch: bool = match Idx::forward_checked(prev.hi()) {
                Some(s) => {
                    let r = Idx::leq(nxt.lo(), &s);
                    r
                },
                None => {
                    proof {
                        Idx::lemma_no_next_is_greatest(prev.hi_val(), nxt.lo_val());
                    }
                    true
                },
            };
            if touch {
                prev = prev.hull(&nxt);
                proof {
                    lemma_merge_cover_hull(
                        result@,
                        prev0,
                        prev,
                        nxt,
                        a@,
                        b@,
                        i0,
                        j0,
                        take_a,
                    );
                }
            } else {
                let ghost res0 = result@;
                result.push(prev);
                prev = nxt;
                proof {
                    assert forall|k: int|
                        0 <= k < result@.len() implies (#[trigger] result@[k]).hi_idx() + 1
                        < prev.lo_idx() by {
                        if k < res0.len() {
                            assert(res0[k].hi_idx() + 1 < prev0.lo_idx());
                        }
                    }
                    assert forall|k: int| 0 <= k < result@.len() - 1 implies (
                    #[trigger] result@[k]).hi_idx() + 1 < result@[k + 1].lo_idx() by {
                        if k + 1 < res0.len() {
                            assert(res0[k].hi_idx() + 1 < res0[k + 1].lo_idx());
                        } else {
                            assert(res0[k].hi_idx() + 1 < prev0.lo_idx());
                        }
                    }
                    lemma_merge_cover_push(
                        res0,
                        result@,
                        prev0,
                        prev,
                        a@,
                        b@,
                        i0,
                        j0,
                        take_a,
                    );
                }
            }
        }
        let ghost res0 = result@;
        result.push(prev);
        let r = IntervalSet { intervals: result };
        proof {
            assert forall|k: int| 0 <= k < result@.len() - 1 implies (
            #[trigger] result@[k]).hi_idx() + 1 < result@[k + 1].lo_idx() by {
                if k + 1 < res0.len() {
                    assert(res0[k].hi_idx() + 1 < res0[k + 1].lo_idx());
                } else {
                    assert(res0[k].hi_idx() + 1 < prev.lo_idx());
                }
            }
            lemma_merge_cover_final(res0, result@, prev, a@, b@);
        }
        r
    }

    /// Performs the intersection of two sets.
    #[verifier::rlimit(50)]
    pub fn intersection(&self, other: &Self) -> (r: Self)
        requires
            self.wf(),
            other.wf(),
        ensures
            r.wf(),
            forall|x: int| r.has(x) <==> self.has(x) && other.has(x),
    {
        let a = &self.intervals;
        let b = &other.intervals;
        let mut result: Vec<Interval<Idx>> = Vec::new();
        if a.len() == 0 || b.len() == 0 {
            let r = IntervalSet { intervals: result };
            return r;
        }
        let mut i: usize = 0;
        let mut j: usize = 0;
        let pick_a: bool = {
            let a0 = a[0];
            let b0 = b[0];
            Idx::leq(a0.lo(), b0.lo())
        };
        let ghost mut from_a: bool = pick_a;
        let mut prev: Interval<Idx> = if pick_a {
            i = 1;
            a[0]
        } else {
            j = 1;
            b[0]
        };
        proof {
            lemma_inter_cover_init(result@, a@, b@, i as int, j as int);
            assert forall|k: int| i <= k < a@.len() implies (#[trigger] a@[k]).lo_idx()
                >= prev.lo_idx() by {
                if k > 0 {
                    lemma_seq_wf_ordered(a@, 0, k);
                }
            }
            assert forall|k: int| j <= k < b@.len() implies (#[trigger] b@[k]).lo_idx()
                >= prev.lo_idx() by {
                if k > 0 {
                    lemma_seq_wf_ordered(b@, 0, k);
                }
            }
            assert(los_from(a@, i as int, prev.lo_idx()));
            assert(los_from(b@, j as int, prev.lo_idx()));
            assert(his_bounded(a@, i as int, prev.hi_idx()));
            assert(his_bounded(b@, j as int, prev.hi_idx()));
        }
        while i < a.len() || j < b.len()
            invariant
                i <= a.len(),
                j <= b.len(),
                seq_wf(a@),
                seq_wf(b@),
                prev.wf(),
                seq_wf(result@),
                his_bounded(a@, i as int, prev.hi_idx()),
                his_bounded(b@, j as int, prev.hi_idx()),
                los_from(a@, i as int, prev.lo_idx()),
                los_from(b@, j as int, prev.lo_idx()),
                from_a ==> 1 <= i && prev == a@[i as int - 1],
                !from_a ==> 1 <= j && prev == b@[j as int - 1],
                result@.len() > 0 ==> los_from(a@, i as int, result@.last().hi_idx() + 2),
                result@.len() > 0 ==> los_from(b@, j as int, result@.last().hi_idx() + 2),
                inter_cover(result@, a@, i as int, b@, j as int),
            decreases a@.len() - i + b@.len() - j,
        {
            let ghost i0 = i as int;
            let ghost j0 = j as int;
            let ghost prev0 = prev;
            let take_a: bool = if i < a.len() {
                if j < b.len() {
                    let ai = a[i];
                    let bj = b[j];
                    Idx::leq(ai.lo(), bj.lo())
                } else {
                    true
                }
            } else {
                false
            };
            let nxt: Interval<Idx> = if take_a {
                let v = a[i];
                i = i + 1;
                v
            } else {
                let v = b[j];
                j = j + 1;
                v
            };
            proof {
                // every remaining head begins at or after the head just taken
                assert forall|k: int| i <= k < a@.len() implies (#[trigger] a@[k]).lo_idx()
                    >= nxt.lo_idx() by {
                    if k > i0 {
                        lemma_seq_wf_ordered(a@, i0, k);
                    }
                }
                assert forall|k: int| j <= k < b@.len() implies (#[trigger] b@[k]).lo_idx()
                    >= nxt.lo_idx() by {
                    if k > j0 {
                        lemma_seq_wf_ordered(b@, j0, k);
                    }
                }
            }
            if Idx::leq(nxt.lo(), prev.hi()) {
                proof {
                    // overlap with the candidate: the head must come from the
                    // other input, since same-input intervals never touch
                    if take_a == from_a {
                        if take_a {
                            assert(a@[i0 - 1].hi_idx() + 1 < a@[i0].lo_idx());
                        } else {
                            assert(b@[j0 - 1].hi_idx() + 1 < b@[j0].lo_idx());
                        }
                        assert(false);
                    }
                }
                match prev.intersection(&nxt) {
                    Some(piece) => {
                        let ghost resb = result@;
                        result.push(piece);
                        proof {
                            lemma_inter_cover_emit(
                                resb,
                                result@,
                                prev,
                                piece,
                                nxt,
                                a@,
                                b@,
                                i0,
                                j0,
                                take_a,
                                from_a,
                            );
                            if resb.len() > 0 {
                                assert(resb.last().hi_idx() + 1 < piece.lo_idx());
                            }
                            assert forall|k: int| 0 <= k < result@.len() - 1 implies (
                            #[trigger] result@[k]).hi_idx() + 1 < result@[k + 1].lo_idx() by {
                                if k + 1 < resb.len() {
                                    assert(resb[k].hi_idx() + 1 < resb[k + 1].lo_idx());
                                }
                            }
                            assert forall|k: int| i <= k < a@.len() implies (
                            #[trigger] a@[k]).lo_idx() >= result@.last().hi_idx() + 2 by {
                                if take_a {
                                    if k > i0 {
                                        lemma_seq_wf_ordered(a@, i0, k);
                                    }
                                } else {
                                    lemma_seq_wf_ordered(a@, i0 - 1, k);
                                }
                            }
                            assert forall|k: int| j <= k < b@.len() implies (
                            #[trigger] b@[k]).lo_idx() >= result@.last().hi_idx() + 2 by {
                                if !take_a {
                                    if k > j0 {
                                        lemma_seq_wf_ordered(b@, j0, k);
                                    }
                                } else {
                                    lemma_seq_wf_ordered(b@, j0 - 1, k);
                                }
                            }
                            assert(los_from(a@, i as int, result@.last().hi_idx() + 2));
                            assert(los_from(b@, j as int, result@.last().hi_idx() + 2));
                        }
                    },
                    None => {
                        proof {
                            assert(false);
                        }
                    },
                }
                if !Idx::leq(nxt.hi(), prev.hi()) {
                    prev = nxt;
                    proof {
                        from_a = take_a;
                        assert(his_bounded(a@, i as int, prev.hi_idx()));
                        assert(his_bounded(b@, j as int, prev.hi_idx()));
                        assert(los_from(a@, i as int, prev.lo_idx()));
                        assert(los_from(b@, j as int, prev.lo_idx()));
                    }
                } else {
                    proof {
                        assert(his_bounded(a@, i as int, prev.hi_idx()));
                        assert(his_bounded(b@, j as int, prev.hi_idx()));
                        assert(los_from(a@, i as int, prev.lo_idx()));
                        assert(los_from(b@, j as int, prev.lo_idx()));
                    }
                }
            } else {
                proof {
                    lemma_inter_cover_skip(result@, prev, nxt, a@, b@, i0, j0, take_a);
                }
                prev = nxt;
                proof {
                    from_a = take_a;
                    assert(his_bounded(a@, i as int, prev.hi_idx()));
                    assert(his_bounded(b@, j as int, prev.hi_idx()));
                    assert(los_from(a@, i as int, prev.lo_idx()));
                    assert(los_from(b@, j as int, prev.lo_idx()));
                }
            }
        }
        let r = IntervalSet { intervals: result };
        proof {
            lemma_inter_cover_final(result@, a@, b@);
        }
        r
    }

    /// Computes the difference of the two sets: the set of all values in
    /// `self` that are not in `other`.
    #[verifier::rlimit(50)]
    pub fn difference(&self, other: &Self) -> (r: Self)
        requires
            self.wf(),
            other.wf(),
        ensures
            r.wf(),
            forall|x: int| r.has(x) <==> self.has(x) && !other.has(x),
    {
        let a = &self.intervals;
        let b = &other.intervals;
        let mut result: Vec<Interval<Idx>> = Vec::new();
        if a.len() == 0 {
            let r = IntervalSet { intervals: result };
            return r;
        }
        let mut i: usize = 1;
        let mut j: usize = 0;
        let mut cur: Interval<Idx> = a[0];
        let mut has_cur: bool = true;
        proof {
            lemma_diff_cover_init(result@, a@, b@);
        }
        while has_cur && j < b.len()
            invariant
                j <= b.len(),
                seq_wf(a@),
                seq_wf(b@),
                seq_wf(result@),
                has_cur ==> 1 <= i <= a.len(),
                has_cur ==> cur.wf() && cur.hi_idx() == a@[i as int - 1].hi_idx() && cur.lo_idx()
                    >= a@[i as int - 1].lo_idx(),
                has_cur ==> his_below(b@, j as int, cur.lo_idx()),
                has_cur && result@.len() > 0 ==> result@.last().hi_idx() + 1 < cur.lo_idx(),
                has_cur ==> diff_cover(result@, a@, b@, cur.lo_idx()),
                !has_cur ==> i == a.len() && diff_taken(result@, a@, a@.len() as int, b@),
            decreases a@.len() - i + b@.len() - j + (if has_cur {
                1int
            } else {
                0int
            }),
        {
            let ghost i0 = i as int;
            let ghost j0 = j as int;
            let ghost cur0 = cur;
            let ghost res0 = result@;
            let bj = b[j];
            let (left, right) = cur.difference(&bj);
            if let Some(l) = left {
                result.push(l);
                proof {
                    assert forall|k: int| 0 <= k < result@.len() - 1 implies (
                    #[trigger] result@[k]).hi_idx() + 1 < result@[k + 1].lo_idx() by {
                        if k + 1 < res0.len() {
                            assert(res0[k].hi_idx() + 1 < res0[k + 1].lo_idx());
                        } else {
                            assert(res0[k].hi_idx() + 1 < cur0.lo_idx());
                        }
                    }
                }
            }
            match right {
                Some(rr) => {
                    cur = rr;
                    j = j + 1;
                    proof {
                        lemma_diff_step_b(res0, result@, a@, b@, cur0, cur, i0, j0, left);
                        if result@.len() > 0 {
                            if left is Some {
                                assert(result@.last() == left->0);
                            } else {
                                assert(result@.last().hi_idx() + 1 < cur0.lo_idx());
                            }
                        }
                    }
                },
                None => {
                    if i < a.len() {
                        cur = a[i];
                        i = i + 1;
                        proof {
                            lemma_diff_step_a(res0, result@, a@, b@, cur0, i0, j0, left);
                            assert(a@[i0 - 1].hi_idx() + 1 < a@[i0].lo_idx());
                            if result@.len() > 0 {
                                if left is Some {
                                    assert(result@.last() == left->0);
                                } else {
                                    assert(result@.last().hi_idx() + 1 < cur0.lo_idx());
                                }
                            }
                        }
                    } else {
                        has_cur = false;
                        proof {
                            lemma_diff_done(res0, result@, a@, b@, cur0, j0, left);
                        }
                    }
                },
            }
        }
        if has_cur {
            let ghost res0 = result@;
            result.push(cur);
            proof {
                assert forall|k: int| 0 <= k < result@.len() - 1 implies (
                #[trigger] result@[k]).hi_idx() + 1 < result@[k + 1].lo_idx() by {
                    if k + 1 < res0.len() {
                        assert(res0[k].hi_idx() + 1 < res0[k + 1].lo_idx());
                    } else {
                        assert(res0[k].hi_idx() + 1 < cur.lo_idx());
                    }
                }
                lemma_diff_bridge(res0, result@, a@, b@, cur, i as int);
                if i < a.len() {
                    assert(a@[i as int - 1].hi_idx() + 1 < a@[i as int].lo_idx());
                    assert forall|k: int| 0 <= k < b@.len() implies (#[trigger] b@[k]).hi_idx()
                        < a@[i as int].lo_idx() by {
                        assert(b@[k].hi_idx() < cur.lo_idx());
                    }
                }
            }
        }
        while i < a.len()
            invariant
                i <= a.len(),
                seq_wf(a@),
                seq_wf(b@),
                seq_wf(result@),
                diff_taken(result@, a@, i as int, b@),
                i < a.len() ==> his_below(b@, b@.len() as int, a@[i as int].lo_idx()),
                result@.len() > 0 && i < a.len() ==> result@.last().hi_idx() + 1 < a@[
                    i as int
                ].lo_idx(),
            decreases a@.len() - i,
        {
            let ghost res0 = result@;
            let ghost i0 = i as int;
            let v = a[i];
            result.push(v);
            i = i + 1;
            proof {
                assert forall|k: int| 0 <= k < result@.len() - 1 implies (
                #[trigger] result@[k]).hi_idx() + 1 < result@[k + 1].lo_idx() by {
                    if k + 1 < res0.len() {
                        assert(res0[k].hi_idx() + 1 < res0[k + 1].lo_idx());
                    } else {
                        assert(res0[k].hi_idx() + 1 < a@[i0].lo_idx());
                    }
                }
                lemma_diff_taken_push(res0, result@, a@, b@, i0);
                if i < a.len() {
                    assert(a@[i0].hi_idx() + 1 < a@[i as int].lo_idx());
                    assert forall|k: int| 0 <= k < b@.len() implies (#[trigger] b@[k]).hi_idx()
                        < a@[i as int].lo_idx() by {
                        assert(b@[k].hi_idx() < a@[i0].lo_idx());
                    }
                }
            }
        }
        let r = IntervalSet { intervals: result };
        proof {
            lemma_diff_taken_full(result@, a@, b@);
        }
        r
    }

    /// Returns a lower bound for the number of values in the set.
    ///
    /// The returned value equals the number of values whenever that number
    /// fits in `usize`; a larger set reports `usize::MAX`.
    pub fn size(&self) -> (r: usize)
        requires
            self.wf(),
        ensures
            seq_size(self@) <= usize::MAX as int ==> r == seq_size(self@),
            seq_size(self@) > usize::MAX as int ==> r == usize::MAX,
    {
        let mut total: usize = 0;
        let mut i: usize = 0;
        let n = self.intervals.len();
        while i < n
            invariant
                n == self@.len(),
                i <= n,
                seq_wf(self@),
                total == seq_size(self@.take(i as int)),
            decreases n - i,
        {
            let iv = self.intervals[i];
            let s = iv.size();
            proof {
                lemma_seq_size_take_succ(self@, i as int);
            }
            if s == usize::MAX || total > usize::MAX - s {
                proof {
                    lemma_seq_size_bound(self@, i as int + 1);
                }
                return usize::MAX;
            }
            total = total + s;
            i = i + 1;
        }
        proof {
            assert(self@.take(n as int) =~= self@);
        }
        total
    }

    /// Returns the number of values in the set, or `None` when that number
    /// does not fit in `usize`.
    pub fn size_exact(&self) -> (r: Option<usize>)
        requires
            self.wf(),
        ensures
            seq_size(self@) <= usize::MAX as int ==> r == Some(seq_size(self@) as usize),
            seq_size(self@) > usize::MAX as int ==> r is None,
    {
        let mut total: usize = 0;
        let mut i: usize = 0;
        let n = self.intervals.len();
        while i < n
            invariant
                n == self@.len(),
                i <= n,
                seq_wf(self@),
                total == seq_size(self@.take(i as int)),
            decreases n - i,
        {
            let iv = self.intervals[i];
            proof {
                lemma_seq_size_take_succ(self@, i as int);
            }
            match iv.size_exact() {
                Some(s) => {
                    if total > usize::MAX - s {
                        proof {
                            lemma_seq_size_bound(self@, i as int + 1);
                        }
                        return None;
                    }
                    total = total + s;
                },
                None => {
                    proof {
                        lemma_seq_size_bound(self@, i as int + 1);
                    }
                    return None;
                },
            }
            i = i + 1;
        }
        proof {
            assert(self@.take(n as int) =~= self@);
        }
        Some(total)
    }

    /// Inserts an interval in the set, merging it with the stored intervals
    /// where they overlap or touch.
    pub fn insert(&mut self, interval: Interval<Idx>)
        requires
            old(self).wf(),
            interval.wf(),
        ensures
            final(self).wf(),
            forall|x: int| final(self).has(x) <==> old(self).has(x) || interval.has(x),
    {
        let tmp = Self::interval(interval);
        let u = self.union(&tmp);
        *self = u;
    }
}

impl<Idx: Bounded> IntervalSet<Idx> {
    /// Returns the set containing all values of the type.
    pub fn full() -> (r: Self)
        ensures
            r.wf(),
            forall|x: int| r.has(x) <==> Idx::min_idx() <= x <= Idx::max_idx(),
    {
        let iv = Interval::full();
        Self::interval(iv)
    }

    /// Takes the complement of the set: the set that contains exactly the
    /// values of the type not in this set.
    pub fn complement(&self) -> (r: Self)
        requires
            self.wf(),
        ensures
            r.wf(),
            forall|x: int|
                r.has(x) <==> (Idx::min_idx() <= x <= Idx::max_idx() && !self.has(x)),
    {
        let f = Self::full();
        f.difference(self)
    }

    /// Every member of the set lies between the positions of the least and
    /// the greatest value of the type.
    pub proof fn lemma_in_domain(self)
        ensures
            forall|x: int| self.has(x) ==> Idx::min_idx() <= x <= Idx::max_idx(),
    {
        assert forall|x: int| self.has(x) implies Idx::min_idx() <= x <= Idx::max_idx() by {
            let k = choose|k: int| 0 <= k < self@.len() && (#[trigger] self@[k]).has(x);
            self@[k].lemma_in_domain();
        }
    }
}

} // verus!
