//! Ordering vertices by a date: a stable sort, and what makes its result the
//! only possible one.

use vstd::prelude::*;

verus! {

/// The sorted `s` with `x` put in: after every element that is not later than
/// `x`, before the others.
pub open spec fn inserted(s: Seq<(i64, usize)>, x: (i64, usize)) -> Seq<(i64, usize)>
    decreases s.len(),
{
    if s.len() == 0 {
        seq![x]
    } else if s.last().0 <= x.0 {
        s.push(x)
    } else {
        inserted(s.drop_last(), x).push(s.last())
    }
}

/// The elements of `s` ordered by their dates, earliest first; elements of the
/// same date keep their order.
pub open spec fn sorted_by_date(s: Seq<(i64, usize)>) -> Seq<(i64, usize)>
    decreases s.len(),
{
    if s.len() == 0 {
        seq![]
    } else {
        inserted(sorted_by_date(s.drop_last()), s.last())
    }
}

/// Whether no element of `s` is later than one that follows it.
pub open spec fn ordered(s: Seq<(i64, usize)>) -> bool {
    forall|i: int, j: int| 0 <= i < j < s.len() ==> s[i].0 <= s[j].0
}

/// Whether the dates of `s` are all different.
pub open spec fn distinct_dates(s: Seq<(i64, usize)>) -> bool {
    forall|i: int, j: int| 0 <= i < j < s.len() ==> s[i].0 != s[j].0
}

/// Putting `x` in at index `j` is what `inserted` does, where the elements
/// from `j` on are later than `x` and the one before is not.
pub proof fn lemma_inserted_at(s: Seq<(i64, usize)>, x: (i64, usize), j: int)
    requires
        0 <= j <= s.len(),
        forall|k: int| j <= k < s.len() ==> s[k].0 > x.0,
        j > 0 ==> s[j - 1].0 <= x.0,
    ensures
        inserted(s, x) == s.insert(j, x),
    decreases s.len(),
{
    if s.len() == 0 {
        assert(s.insert(0, x) =~= seq![x]);
    } else if j == s.len() {
        assert(s.insert(j, x) =~= s.push(x));
    } else {
        let t = s.drop_last();
        assert forall|k: int| j <= k < t.len() implies t[k].0 > x.0 by {
            assert(t[k] == s[k]);
        }
        lemma_inserted_at(t, x, j);
        assert(t.insert(j, x).push(s.last()) =~= s.insert(j, x));
    }
}

/// Putting an element into `s` keeps the elements of `s` and adds the one.
pub proof fn lemma_inserted_contents(s: Seq<(i64, usize)>, x: (i64, usize))
    ensures
        inserted(s, x).len() == s.len() + 1,
        inserted(s, x).to_multiset() == s.to_multiset().insert(x),
        forall|y: (i64, usize)| inserted(s, x).contains(y) <==> (s.contains(y) || y == x),
    decreases s.len(),
{
    broadcast use vstd::seq_lib::group_to_multiset_ensures;

    let r = inserted(s, x);
    if s.len() == 0 {
        assert(r =~= Seq::<(i64, usize)>::empty().push(x));
        assert(r[0] == x);
    } else if s.last().0 <= x.0 {
        assert(r[s.len() as int] == x);
        assert forall|y: (i64, usize)| r.contains(y) <==> (s.contains(y) || y == x) by {
            if s.contains(y) {
                let k = choose|k: int| 0 <= k < s.len() && s[k] == y;
                assert(r[k] == y);
            }
        }
    } else {
        let t = s.drop_last();
        lemma_inserted_contents(t, x);
        let u = inserted(t, x);
        assert(s =~= t.push(s.last()));
        assert(r == u.push(s.last()));
        assert(r.to_multiset() =~= s.to_multiset().insert(x));
        assert forall|y: (i64, usize)| r.contains(y) <==> (s.contains(y) || y == x) by {
            if r.contains(y) {
                let k = choose|k: int| 0 <= k < r.len() && r[k] == y;
                if k < u.len() {
                    assert(u[k] == y);
                    assert(u.contains(y));
                    if t.contains(y) {
                        let m = choose|m: int| 0 <= m < t.len() && t[m] == y;
                        assert(s[m] == y);
                    }
                } else {
                    assert(s[s.len() - 1] == y);
                }
            }
            if s.contains(y) {
                let k = choose|k: int| 0 <= k < s.len() && s[k] == y;
                if k < t.len() {
                    assert(t[k] == y);
                    assert(t.contains(y));
                    assert(u.contains(y));
                    let m = choose|m: int| 0 <= m < u.len() && u[m] == y;
                    assert(r[m] == y);
                } else {
                    assert(r[u.len() as int] == y);
                }
            }
            if y == x {
                assert(u.contains(x) <==> (t.contains(x) || x == x));
                assert(u.contains(x));
                let m = choose|m: int| 0 <= m < u.len() && u[m] == x;
                assert(r[m] == x);
            }
        }
    }
}

/// Putting an element into an ordered sequence leaves it ordered.
pub proof fn lemma_inserted_ordered(s: Seq<(i64, usize)>, x: (i64, usize))
    requires
        ordered(s),
    ensures
        ordered(inserted(s, x)),
    decreases s.len(),
{
    let r = inserted(s, x);
    if s.len() == 0 {
    } else if s.last().0 <= x.0 {
    } else {
        let t = s.drop_last();
        assert forall|i: int, j: int| 0 <= i < j < t.len() implies t[i].0 <= t[j].0 by {
            assert(t[i] == s[i] && t[j] == s[j]);
        }
        lemma_inserted_ordered(t, x);
        lemma_inserted_contents(t, x);
        let u = inserted(t, x);
        assert forall|i: int, j: int| 0 <= i < j < r.len() implies r[i].0 <= r[j].0 by {
            if j < u.len() {
                assert(r[i] == u[i] && r[j] == u[j]);
            } else {
                assert(r[i] == u[i]);
                assert(u.contains(u[i]));
                if t.contains(u[i]) {
                    let m = choose|m: int| 0 <= m < t.len() && t[m] == u[i];
                    assert(s[m] == u[i]);
                }
            }
        }
    }
}

/// What the sort gives is ordered, and holds the elements it was given: each
/// as often as before.
pub proof fn lemma_sorted_by_date(s: Seq<(i64, usize)>)
    ensures
        ordered(sorted_by_date(s)),
        sorted_by_date(s).len() == s.len(),
        sorted_by_date(s).to_multiset() == s.to_multiset(),
        forall|y: (i64, usize)| sorted_by_date(s).contains(y) <==> s.contains(y),
    decreases s.len(),
{
    broadcast use vstd::seq_lib::group_to_multiset_ensures;

    if s.len() == 0 {
    } else {
        let t = s.drop_last();
        lemma_sorted_by_date(t);
        lemma_inserted_ordered(sorted_by_date(t), s.last());
        lemma_inserted_contents(sorted_by_date(t), s.last());
        assert(s =~= t.push(s.last()));
        assert forall|y: (i64, usize)| sorted_by_date(s).contains(y) <==> s.contains(y) by {
            if s.contains(y) {
                let k = choose|k: int| 0 <= k < s.len() && s[k] == y;
                if k < t.len() {
                    assert(t[k] == y);
                }
            }
            if t.contains(y) {
                let k = choose|k: int| 0 <= k < t.len() && t[k] == y;
                assert(s[k] == y);
            }
            assert(s[s.len() - 1] == s.last());
        }
    }
}

/// Orders `v` by date, earliest first; elements of the same date keep their
/// order.
pub fn sort_by_date(v: &Vec<(i64, usize)>) -> (r: Vec<(i64, usize)>)
    ensures
        r@ == sorted_by_date(v@),
{
    let mut r: Vec<(i64, usize)> = Vec::new();
    let n = v.len();
    for i in 0..n
        invariant
            n == v@.len(),
            r@ == sorted_by_date(v@.take(i as int)),
    {
        proof {
            assert(v@.take(i + 1).drop_last() == v@.take(i as int));
        }
        let x = v[i];
        let mut j: usize = r.len();
        while j > 0 && r[j - 1].0 > x.0
            invariant
                j <= r@.len(),
                forall|k: int| j <= k < r@.len() ==> r@[k].0 > x.0,
            decreases j,
        {
            j -= 1;
        }
        proof {
            lemma_inserted_at(r@, x, j as int);
        }
        r.insert(j, x);
    }
    assert(v@.take(n as int) == v@);
    r
}

/// Putting an element of a new date into a sequence of different dates leaves
/// the dates different.
pub proof fn lemma_inserted_distinct(s: Seq<(i64, usize)>, x: (i64, usize))
    requires
        distinct_dates(s),
        forall|i: int| 0 <= i < s.len() ==> s[i].0 != x.0,
    ensures
        distinct_dates(inserted(s, x)),
    decreases s.len(),
{
    let r = inserted(s, x);
    if s.len() == 0 {
    } else if s.last().0 <= x.0 {
    } else {
        let t = s.drop_last();
        assert forall|i: int, j: int| 0 <= i < j < t.len() implies t[i].0 != t[j].0 by {
            assert(t[i] == s[i] && t[j] == s[j]);
        }
        assert forall|i: int| 0 <= i < t.len() implies t[i].0 != x.0 by {
            assert(t[i] == s[i]);
        }
        lemma_inserted_distinct(t, x);
        lemma_inserted_contents(t, x);
        let u = inserted(t, x);
        assert forall|i: int, j: int| 0 <= i < j < r.len() implies r[i].0 != r[j].0 by {
            if j < u.len() {
                assert(r[i] == u[i] && r[j] == u[j]);
            } else {
                assert(r[i] == u[i]);
                assert(u.contains(u[i]));
                if t.contains(u[i]) {
                    let m = choose|m: int| 0 <= m < t.len() && t[m] == u[i];
                    assert(s[m] == u[i]);
                }
            }
        }
    }
}

/// Sorting keeps different dates different.
pub proof fn lemma_sorted_distinct(s: Seq<(i64, usize)>)
    requires
        distinct_dates(s),
    ensures
        distinct_dates(sorted_by_date(s)),
    decreases s.len(),
{
    if s.len() > 0 {
        let t = s.drop_last();
        assert forall|i: int, j: int| 0 <= i < j < t.len() implies t[i].0 != t[j].0 by {
            assert(t[i] == s[i] && t[j] == s[j]);
        }
        lemma_sorted_distinct(t);
        lemma_sorted_by_date(t);
        let u = sorted_by_date(t);
        assert forall|i: int| 0 <= i < u.len() implies u[i].0 != s.last().0 by {
            assert(u.contains(u[i]));
            assert(t.contains(u[i]));
            let m = choose|m: int| 0 <= m < t.len() && t[m] == u[i];
            assert(s[m] == u[i]);
        }
        lemma_inserted_distinct(u, s.last());
    }
}

/// Where no two dates are equal, the elements can be ordered in one way only.
pub proof fn lemma_ordered_unique(a: Seq<(i64, usize)>, b: Seq<(i64, usize)>)
    requires
        ordered(a),
        ordered(b),
        distinct_dates(a),
        distinct_dates(b),
        forall|y: (i64, usize)| a.contains(y) <==> b.contains(y),
    ensures
        a == b,
    decreases a.len(),
{
    if a.len() == 0 {
        if b.len() > 0 {
            assert(b.contains(b[0]));
        }
        assert(a =~= b);
    } else if b.len() == 0 {
        assert(a.contains(a[0]));
    } else {
        assert(a.contains(a[0]));
        assert(b.contains(b[0]));
        let k = choose|k: int| 0 <= k < b.len() && b[k] == a[0];
        let m = choose|m: int| 0 <= m < a.len() && a[m] == b[0];
        assert(a[0].0 <= a[m].0);
        assert(b[0].0 <= b[k].0);
        assert(m == 0);
        let x = a.skip(1);
        let y = b.skip(1);
        assert forall|c: (i64, usize)| x.contains(c) <==> y.contains(c) by {
            if x.contains(c) {
                let i = choose|i: int| 0 <= i < x.len() && x[i] == c;
                assert(a[i + 1] == c);
                assert(a.contains(c));
                let j = choose|j: int| 0 <= j < b.len() && b[j] == c;
                assert(j != 0);
                assert(y[j - 1] == c);
            }
            if y.contains(c) {
                let i = choose|i: int| 0 <= i < y.len() && y[i] == c;
                assert(b[i + 1] == c);
                assert(b.contains(c));
                let j = choose|j: int| 0 <= j < a.len() && a[j] == c;
                assert(j != 0);
                assert(x[j - 1] == c);
            }
        }
        assert forall|i: int, j: int| 0 <= i < j < x.len() implies x[i].0 <= x[j].0 && x[i].0
            != x[j].0 by {
            assert(x[i] == a[i + 1] && x[j] == a[j + 1]);
        }
        assert forall|i: int, j: int| 0 <= i < j < y.len() implies y[i].0 <= y[j].0 && y[i].0
            != y[j].0 by {
            assert(y[i] == b[i + 1] && y[j] == b[j + 1]);
        }
        lemma_ordered_unique(x, y);
        assert(a =~= seq![a[0]] + x);
        assert(b =~= seq![b[0]] + y);
    }
}

/// The order of a listing is settled by the dates where no two are equal:
/// whatever orders the same elements by date gives what the sort gives.
pub proof fn lemma_sort_is_only_order(s: Seq<(i64, usize)>, t: Seq<(i64, usize)>)
    requires
        distinct_dates(s),
        distinct_dates(t),
        ordered(t),
        forall|y: (i64, usize)| t.contains(y) <==> s.contains(y),
    ensures
        t == sorted_by_date(s),
{
    lemma_sorted_by_date(s);
    lemma_sorted_distinct(s);
    lemma_ordered_unique(t, sorted_by_date(s));
}

} // verus!
