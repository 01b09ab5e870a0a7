//! Why the extent of a sweep does not matter.
//!
//! Every pass over the world visits positions in a fixed order, and every visit to a
//! position with nothing to do changes nothing. So two passes that list positions
//! differently, but agree on the order of the positions that have something to do,
//! end the same. The lemmas here say that once, for any model and any visit.

use vstd::prelude::*;
use crate::field::Bounds;

verus! {

/// Visits `ps` in order.
pub open spec fn fold_visits<M, P>(m: M, visit: spec_fn(M, P) -> M, ps: Seq<P>) -> M
    decreases ps.len(),
{
    if ps.len() == 0 {
        m
    } else {
        fold_visits(visit(m, ps[0]), visit, ps.drop_first())
    }
}

/// The positions of `ps` that `wanted` picks, in their order.
pub open spec fn keep<P>(ps: Seq<P>, wanted: spec_fn(P) -> bool) -> Seq<P>
    decreases ps.len(),
{
    if ps.len() == 0 {
        ps
    } else if wanted(ps[0]) {
        seq![ps[0]] + keep(ps.drop_first(), wanted)
    } else {
        keep(ps.drop_first(), wanted)
    }
}

/// No visit makes a position live.
pub open spec fn never_wakes<M, P, Q>(visit: spec_fn(M, P) -> M, live: spec_fn(M, Q) -> bool) -> bool {
    forall|m: M, p: P, q: Q| #[trigger] live(visit(m, p), q) ==> live(m, q)
}

/// A visit to a position that is not live changes nothing, and no visit makes a
/// position live.
pub open spec fn idle_skipped<M, P>(visit: spec_fn(M, P) -> M, live: spec_fn(M, P) -> bool) -> bool {
    &&& forall|m: M, p: P| !live(m, p) ==> #[trigger] visit(m, p) == m
    &&& never_wakes(visit, live)
}

/// Visiting in order never makes a position live.
pub proof fn lemma_fold_shrinks<M, P, Q>(m: M, visit: spec_fn(M, P) -> M, live: spec_fn(M, Q) -> bool, ps: Seq<P>, q: Q)
    requires
        never_wakes(visit, live),
        live(fold_visits(m, visit, ps), q),
    ensures
        live(m, q),
    decreases ps.len(),
{
    if ps.len() > 0 {
        lemma_fold_shrinks(visit(m, ps[0]), visit, live, ps.drop_first(), q);
        assert(live(visit(m, ps[0]), q));
    }
}

/// Visiting `a` then `b` is visiting `a + b`.
pub proof fn lemma_fold_append<M, P>(m: M, visit: spec_fn(M, P) -> M, a: Seq<P>, b: Seq<P>)
    ensures
        fold_visits(m, visit, a + b) == fold_visits(fold_visits(m, visit, a), visit, b),
    decreases a.len(),
{
    if a.len() == 0 {
        assert(a + b =~= b);
    } else {
        assert((a + b).drop_first() =~= a.drop_first() + b);
        assert((a + b)[0] == a[0]);
        lemma_fold_append(visit(m, a[0]), visit, a.drop_first(), b);
    }
}

/// What `keep` keeps: exactly the wanted positions of `ps`.
pub proof fn lemma_keep_contains<P>(ps: Seq<P>, wanted: spec_fn(P) -> bool)
    ensures
        forall|v: P| #[trigger] keep(ps, wanted).contains(v) <==> ps.contains(v) && wanted(v),
    decreases ps.len(),
{
    if ps.len() > 0 {
        let rest = ps.drop_first();
        let kr = keep(rest, wanted);
        lemma_keep_contains(rest, wanted);
        assert forall|v: P| #[trigger] keep(ps, wanted).contains(v) <==> ps.contains(v) && wanted(v) by {
            assert(ps =~= seq![ps[0]] + rest);
            assert(ps.contains(v) <==> (v == ps[0] || rest.contains(v))) by {
                if ps.contains(v) {
                    let i = choose|i: int| 0 <= i < ps.len() && ps[i] == v;
                    if i > 0 {
                        assert(rest[i - 1] == v);
                    }
                }
                if rest.contains(v) {
                    let i = choose|i: int| 0 <= i < rest.len() && rest[i] == v;
                    assert(ps[i + 1] == v);
                }
                assert(ps[0] == ps[0]);
            }
            if wanted(ps[0]) {
                let k = seq![ps[0]] + kr;
                assert(keep(ps, wanted) == k);
                assert(k.contains(v) <==> (v == ps[0] || kr.contains(v))) by {
                    if k.contains(v) {
                        let i = choose|i: int| 0 <= i < k.len() && k[i] == v;
                        if i > 0 {
                            assert(kr[i - 1] == v);
                        }
                    }
                    if kr.contains(v) {
                        let i = choose|i: int| 0 <= i < kr.len() && kr[i] == v;
                        assert(k[i + 1] == v);
                    }
                    assert(k[0] == ps[0]);
                }
            } else {
                assert(keep(ps, wanted) == kr);
            }
        }
    }
}

/// Skipping positions that are not live, and stay so, leaves a pass unchanged.
pub proof fn lemma_skip_idle<M, P>(m: M, visit: spec_fn(M, P) -> M, live: spec_fn(M, P) -> bool, wanted: spec_fn(P) -> bool, ps: Seq<P>)
    requires
        idle_skipped(visit, live),
        forall|i: int| 0 <= i < ps.len() && !wanted(ps[i]) ==> !live(m, #[trigger] ps[i]),
    ensures
        fold_visits(m, visit, ps) == fold_visits(m, visit, keep(ps, wanted)),
    decreases ps.len(),
{
    if ps.len() > 0 {
        let p = ps[0];
        let rest = ps.drop_first();
        let m1 = visit(m, p);
        assert forall|i: int| 0 <= i < rest.len() && !wanted(rest[i]) implies !live(m1, #[trigger] rest[i]) by {
            assert(rest[i] == ps[i + 1]);
            if live(m1, rest[i]) {
                assert(live(m, rest[i]));
            }
        }
        if wanted(p) {
            lemma_skip_idle(m1, visit, live, wanted, rest);
            let k = seq![p] + keep(rest, wanted);
            assert(k[0] == p);
            assert(k.drop_first() =~= keep(rest, wanted));
        } else {
            assert(!live(m, ps[0]));
            assert(m1 == m);
            lemma_skip_idle(m, visit, live, wanted, rest);
        }
    }
}

/// Whether `s` is strictly ordered by `before`.
pub open spec fn strictly_ordered<P>(s: Seq<P>, before: spec_fn(P, P) -> bool) -> bool {
    forall|i: int, j: int| 0 <= i < j < s.len() ==> before(#[trigger] s[i], #[trigger] s[j])
}

/// Whether `before` is a strict total order.
pub open spec fn strict_total<P>(before: spec_fn(P, P) -> bool) -> bool {
    &&& forall|a: P| !#[trigger] before(a, a)
    &&& forall|a: P, b: P, c: P| #[trigger] before(a, b) && #[trigger] before(b, c) ==> before(a, c)
    &&& forall|a: P, b: P| a != b ==> #[trigger] before(a, b) || before(b, a)
}

/// `keep` keeps the order.
pub proof fn lemma_keep_ordered<P>(ps: Seq<P>, wanted: spec_fn(P) -> bool, before: spec_fn(P, P) -> bool)
    requires
        strictly_ordered(ps, before),
    ensures
        strictly_ordered(keep(ps, wanted), before),
    decreases ps.len(),
{
    if ps.len() > 0 {
        let rest = ps.drop_first();
        assert(strictly_ordered(rest, before)) by {
            assert forall|i: int, j: int| 0 <= i < j < rest.len() implies before(#[trigger] rest[i], #[trigger] rest[j]) by {
                assert(rest[i] == ps[i + 1] && rest[j] == ps[j + 1]);
            }
        }
        lemma_keep_ordered(rest, wanted, before);
        if wanted(ps[0]) {
            lemma_keep_contains(rest, wanted);
            let kr = keep(rest, wanted);
            let k = seq![ps[0]] + kr;
            assert forall|i: int, j: int| 0 <= i < j < k.len() implies before(#[trigger] k[i], #[trigger] k[j]) by {
                if i == 0 {
                    assert(kr.contains(kr[j - 1]));
                    let t = choose|t: int| 0 <= t < rest.len() && rest[t] == kr[j - 1];
                    assert(ps[t + 1] == kr[j - 1]);
                    assert(k[j] == kr[j - 1]);
                } else {
                    assert(k[i] == kr[i - 1] && k[j] == kr[j - 1]);
                }
            }
        }
    }
}

/// Two sequences strictly ordered by the same total order, holding the same
/// positions, are the same sequence.
pub proof fn lemma_ordered_unique<P>(s1: Seq<P>, s2: Seq<P>, before: spec_fn(P, P) -> bool)
    requires
        strict_total(before),
        strictly_ordered(s1, before),
        strictly_ordered(s2, before),
        forall|v: P| #![trigger s1.contains(v)] #![trigger s2.contains(v)] s1.contains(v) <==> s2.contains(v),
    ensures
        s1 == s2,
    decreases s1.len() + s2.len(),
{
    if s1.len() == 0 || s2.len() == 0 {
        if s1.len() > 0 {
            assert(s1.contains(s1[0]));
        }
        if s2.len() > 0 {
            assert(s2.contains(s2[0]));
        }
        assert(s1 =~= s2);
    } else {
        let a = s1[0];
        let b = s2[0];
        assert(s1.contains(a));
        assert(s2.contains(b));
        if a != b {
            let i = choose|i: int| 0 <= i < s2.len() && s2[i] == a;
            let j = choose|j: int| 0 <= j < s1.len() && s1[j] == b;
            assert(i > 0 && j > 0);
            assert(before(s2[0], s2[i]));
            assert(before(s1[0], s1[j]));
            assert(before(a, a));
        }
        let r1 = s1.drop_first();
        let r2 = s2.drop_first();
        assert(strictly_ordered(r1, before)) by {
            assert forall|i: int, j: int| 0 <= i < j < r1.len() implies before(#[trigger] r1[i], #[trigger] r1[j]) by {
                assert(r1[i] == s1[i + 1] && r1[j] == s1[j + 1]);
            }
        }
        assert(strictly_ordered(r2, before)) by {
            assert forall|i: int, j: int| 0 <= i < j < r2.len() implies before(#[trigger] r2[i], #[trigger] r2[j]) by {
                assert(r2[i] == s2[i + 1] && r2[j] == s2[j + 1]);
            }
        }
        assert forall|v: P| #![trigger r1.contains(v)] #![trigger r2.contains(v)] r1.contains(v) <==> r2.contains(v) by {
            if r1.contains(v) {
                let i = choose|i: int| 0 <= i < r1.len() && r1[i] == v;
                assert(s1[i + 1] == v);
                assert(before(s1[0], s1[i + 1]));
                assert(v != a);
                assert(s2.contains(v));
                let j = choose|j: int| 0 <= j < s2.len() && s2[j] == v;
                assert(j != 0);
                assert(r2[j - 1] == v);
            }
            if r2.contains(v) {
                let i = choose|i: int| 0 <= i < r2.len() && r2[i] == v;
                assert(s2[i + 1] == v);
                assert(before(s2[0], s2[i + 1]));
                assert(v != b);
                assert(s1.contains(v));
                let j = choose|j: int| 0 <= j < s1.len() && s1[j] == v;
                assert(j != 0);
                assert(r1[j - 1] == v);
            }
        }
        lemma_ordered_unique(r1, r2, before);
        assert(s1 =~= seq![a] + r1);
        assert(s2 =~= seq![b] + r2);
    }
}


/// Two passes that visit the same live positions in the same order end the same,
/// whatever else each visits: `a` holds exactly the positions `in_a` picks and `b`
/// those `in_b` picks, both in one order, and every live position is in both.
pub proof fn lemma_same_live_order<M, P>(
    m: M,
    visit: spec_fn(M, P) -> M,
    live: spec_fn(M, P) -> bool,
    a: Seq<P>,
    b: Seq<P>,
    in_a: spec_fn(P) -> bool,
    in_b: spec_fn(P) -> bool,
    before: spec_fn(P, P) -> bool,
)
    requires
        idle_skipped(visit, live),
        strict_total(before),
        strictly_ordered(a, before),
        strictly_ordered(b, before),
        forall|p: P| #[trigger] a.contains(p) <==> in_a(p),
        forall|p: P| #[trigger] b.contains(p) <==> in_b(p),
        forall|p: P| #[trigger] live(m, p) ==> in_a(p) && in_b(p),
    ensures
        fold_visits(m, visit, a) == fold_visits(m, visit, b),
{
    assert forall|i: int| 0 <= i < a.len() && !in_b(a[i]) implies !live(m, #[trigger] a[i]) by {}
    assert forall|i: int| 0 <= i < b.len() && !in_a(b[i]) implies !live(m, #[trigger] b[i]) by {}
    lemma_skip_idle(m, visit, live, in_b, a);
    lemma_skip_idle(m, visit, live, in_a, b);
    lemma_keep_contains(a, in_b);
    lemma_keep_contains(b, in_a);
    lemma_keep_ordered(a, in_b, before);
    lemma_keep_ordered(b, in_a, before);
    let ka = keep(a, in_b);
    let kb = keep(b, in_a);
    assert forall|p: P| #![trigger ka.contains(p)] #![trigger kb.contains(p)] ka.contains(p) <==> kb.contains(p) by {
        assert(a.contains(p) <==> in_a(p));
        assert(b.contains(p) <==> in_b(p));
    }
    lemma_ordered_unique(ka, kb, before);
}

/// Row by row from the top, each row from the left: the order heat and reactions
/// walk a region in.
pub open spec fn reading_order() -> spec_fn((int, int), (int, int)) -> bool {
    |p: (int, int), q: (int, int)| p.1 < q.1 || (p.1 == q.1 && p.0 < q.0)
}

/// Columns `x..=max_x` of row `y`.
pub open spec fn row_cols(b: Bounds, y: int, x: int) -> Seq<(int, int)> {
    Seq::new(if x <= b.max_x { (b.max_x - x + 1) as nat } else { 0 }, |i: int| (x + i, y))
}

/// Rows `y..=max_y` of a region, in reading order.
pub open spec fn rows_down(b: Bounds, y: int) -> Seq<(int, int)>
    decreases b.max_y - y + 1,
{
    if y > b.max_y {
        Seq::empty()
    } else {
        row_cols(b, y, b.min_x as int) + rows_down(b, y + 1)
    }
}

/// The rows of a region come in reading order, and are its positions from row `y` on.
pub proof fn lemma_rows_down(b: Bounds, y: int)
    ensures
        strictly_ordered(rows_down(b, y), reading_order()),
        forall|p: (int, int)| #[trigger] rows_down(b, y).contains(p) <==> y <= p.1 <= b.max_y && b.min_x <= p.0 <= b.max_x,
    decreases b.max_y - y + 1,
{
    if y <= b.max_y {
        lemma_rows_down(b, y + 1);
        let r = row_cols(b, y, b.min_x as int);
        let rest = rows_down(b, y + 1);
        assert(rows_down(b, y) == r + rest);
        assert forall|p: (int, int)| #[trigger] r.contains(p) <==> p.1 == y && b.min_x <= p.0 <= b.max_x by {
            if p.1 == y && b.min_x <= p.0 <= b.max_x {
                assert(r[p.0 - b.min_x] == p);
            }
        }
        assert forall|i: int, j: int| 0 <= i < j < (r + rest).len() implies reading_order()(#[trigger] (r + rest)[i], #[trigger] (r + rest)[j]) by {
            if j >= r.len() && i < r.len() {
                assert(rest.contains(rest[j - r.len()]));
            } else if i >= r.len() {
                assert((r + rest)[i] == rest[i - r.len()]);
                assert((r + rest)[j] == rest[j - r.len()]);
            }
        }
        assert forall|p: (int, int)| #[trigger] (r + rest).contains(p) <==> y <= p.1 <= b.max_y && b.min_x <= p.0 <= b.max_x by {
            if (r + rest).contains(p) {
                let i = choose|i: int| 0 <= i < (r + rest).len() && (r + rest)[i] == p;
                if i < r.len() {
                    assert(r.contains(p));
                } else {
                    assert(rest[i - r.len()] == p);
                    assert(rest.contains(p));
                }
            }
            if y <= p.1 <= b.max_y && b.min_x <= p.0 <= b.max_x {
                if p.1 == y {
                    assert(r.contains(p));
                    let i = choose|i: int| 0 <= i < r.len() && r[i] == p;
                    assert((r + rest)[i] == p);
                } else {
                    assert(rest.contains(p));
                    let i = choose|i: int| 0 <= i < rest.len() && rest[i] == p;
                    assert((r + rest)[r.len() + i] == p);
                }
            }
        }
    }
}

/// Reading order is a strict total order.
pub proof fn lemma_reading_order_total()
    ensures
        strict_total(reading_order()),
{
}

/// A pass in reading order over a region visits what a pass over any other region
/// visits, when both hold every live position.
pub proof fn lemma_region_extent<M>(m: M, visit: spec_fn(M, (int, int)) -> M, live: spec_fn(M, (int, int)) -> bool, b1: Bounds, b2: Bounds)
    requires
        idle_skipped(visit, live),
        forall|p: (int, int)| #[trigger] live(m, p) ==> b1.contains(p.0, p.1) && b2.contains(p.0, p.1),
    ensures
        fold_visits(m, visit, rows_down(b1, b1.min_y as int)) == fold_visits(m, visit, rows_down(b2, b2.min_y as int)),
{
    lemma_rows_down(b1, b1.min_y as int);
    lemma_rows_down(b2, b2.min_y as int);
    lemma_reading_order_total();
    lemma_same_live_order(
        m,
        visit,
        live,
        rows_down(b1, b1.min_y as int),
        rows_down(b2, b2.min_y as int),
        |p: (int, int)| b1.contains(p.0, p.1),
        |p: (int, int)| b2.contains(p.0, p.1),
        reading_order(),
    );
}

/// A pass in reading order over a region holding no live position changes nothing.
pub proof fn lemma_region_idle<M>(m: M, visit: spec_fn(M, (int, int)) -> M, live: spec_fn(M, (int, int)) -> bool, b: Bounds)
    requires
        idle_skipped(visit, live),
        forall|p: (int, int)| #[trigger] live(m, p) ==> !b.contains(p.0, p.1),
    ensures
        fold_visits(m, visit, rows_down(b, b.min_y as int)) == m,
{
    let a = rows_down(b, b.min_y as int);
    lemma_rows_down(b, b.min_y as int);
    let nothing = |p: (int, int)| false;
    assert forall|i: int| 0 <= i < a.len() && !nothing(a[i]) implies !live(m, #[trigger] a[i]) by {
        assert(a.contains(a[i]));
    }
    lemma_skip_idle(m, visit, live, nothing, a);
    lemma_keep_contains(a, nothing);
    let k = keep(a, nothing);
    if k.len() > 0 {
        assert(k.contains(k[0]));
    }
}


/// A property that every visit keeps holds after any pass.
pub proof fn lemma_fold_keeps<M, P>(m: M, visit: spec_fn(M, P) -> M, kept: spec_fn(M) -> bool, ps: Seq<P>)
    requires
        forall|n: M, p: P| kept(n) ==> #[trigger] kept(visit(n, p)),
        kept(m),
    ensures
        kept(fold_visits(m, visit, ps)),
    decreases ps.len(),
{
    if ps.len() > 0 {
        assert(kept(visit(m, ps[0])));
        lemma_fold_keeps(visit(m, ps[0]), visit, kept, ps.drop_first());
    }
}


/// Visiting positions under other names is the same pass, when each visit agrees with
/// the visit to its renamed position.
pub proof fn lemma_fold_rename<M, P, Q>(m: M, v1: spec_fn(M, P) -> M, v2: spec_fn(M, Q) -> M, ps: Seq<P>, qs: Seq<Q>)
    requires
        ps.len() == qs.len(),
        forall|n: M, i: int| 0 <= i < ps.len() ==> #[trigger] v2(n, qs[i]) == v1(n, ps[i]),
    ensures
        fold_visits(m, v1, ps) == fold_visits(m, v2, qs),
    decreases ps.len(),
{
    if ps.len() > 0 {
        assert(v2(m, qs[0]) == v1(m, ps[0]));
        let (pr, qr) = (ps.drop_first(), qs.drop_first());
        assert forall|n: M, i: int| 0 <= i < pr.len() implies #[trigger] v2(n, qr[i]) == v1(n, pr[i]) by {
            assert(qr[i] == qs[i + 1] && pr[i] == ps[i + 1]);
        }
        lemma_fold_rename(v1(m, ps[0]), v1, v2, pr, qr);
    }
}

/// A pass over positions none of which is live changes nothing.
pub proof fn lemma_fold_idle<M, P>(m: M, visit: spec_fn(M, P) -> M, live: spec_fn(M, P) -> bool, ps: Seq<P>)
    requires
        idle_skipped(visit, live),
        forall|i: int| 0 <= i < ps.len() ==> !live(m, #[trigger] ps[i]),
    ensures
        fold_visits(m, visit, ps) == m,
    decreases ps.len(),
{
    if ps.len() > 0 {
        assert(!live(m, ps[0]));
        let rest = ps.drop_first();
        assert forall|i: int| 0 <= i < rest.len() implies !live(m, #[trigger] rest[i]) by {
            assert(rest[i] == ps[i + 1]);
        }
        lemma_fold_idle(m, visit, live, rest);
    }
}


/// Two models related before a pass are related after it, when every visit keeps the
/// relation.
pub proof fn lemma_fold_simulates<M, P>(a: M, b: M, visit: spec_fn(M, P) -> M, related: spec_fn(M, M) -> bool, ps: Seq<P>)
    requires
        forall|x: M, y: M, p: P| related(x, y) ==> #[trigger] related(visit(x, p), visit(y, p)),
        related(a, b),
    ensures
        related(fold_visits(a, visit, ps), fold_visits(b, visit, ps)),
    decreases ps.len(),
{
    if ps.len() > 0 {
        assert(related(visit(a, ps[0]), visit(b, ps[0])));
        lemma_fold_simulates(visit(a, ps[0]), visit(b, ps[0]), visit, related, ps.drop_first());
    }
}


/// A pass that visits `target` ends done, when every visit keeps `kept`, a done model
/// stays done, and visiting `target` finishes what is not done yet.
pub proof fn lemma_fold_reaches<M, P>(m: M, visit: spec_fn(M, P) -> M, kept: spec_fn(M) -> bool, done: spec_fn(M) -> bool, target: P, ps: Seq<P>)
    requires
        ps.contains(target),
        kept(m),
        forall|n: M, p: P| kept(n) ==> #[trigger] kept(visit(n, p)),
        forall|n: M, p: P| kept(n) && done(n) ==> #[trigger] done(visit(n, p)),
        forall|n: M| kept(n) && !done(n) ==> #[trigger] done(visit(n, target)),
    ensures
        done(fold_visits(m, visit, ps)),
    decreases ps.len(),
{
    let rest = ps.drop_first();
    let m1 = visit(m, ps[0]);
    assert(kept(m1));
    if ps[0] == target {
        assert(done(m1));
        let both = |n: M| kept(n) && done(n);
        assert forall|n: M, p: P| both(n) implies #[trigger] both(visit(n, p)) by {
            assert(kept(visit(n, p)));
            assert(done(visit(n, p)));
        }
        lemma_fold_keeps(m1, visit, both, rest);
    } else {
        let k = choose|k: int| 0 <= k < ps.len() && ps[k] == target;
        assert(k != 0);
        assert(rest[k - 1] == target);
        lemma_fold_reaches(m1, visit, kept, done, target, rest);
    }
}


/// A pass in order over positions of which only `p` and then `q` are live is the visit
/// to `p` followed by the visit to `q`.
pub proof fn lemma_two_live<M, P>(m: M, visit: spec_fn(M, P) -> M, live: spec_fn(M, P) -> bool, ps: Seq<P>, p: P, q: P, before: spec_fn(P, P) -> bool)
    requires
        idle_skipped(visit, live),
        strict_total(before),
        strictly_ordered(ps, before),
        ps.contains(p),
        ps.contains(q),
        before(p, q),
        forall|i: int| 0 <= i < ps.len() && live(m, #[trigger] ps[i]) ==> ps[i] == p || ps[i] == q,
    ensures
        fold_visits(m, visit, ps) == visit(visit(m, p), q),
{
    let wanted = |r: P| r == p || r == q;
    assert forall|i: int| 0 <= i < ps.len() && !wanted(ps[i]) implies !live(m, #[trigger] ps[i]) by {}
    lemma_skip_idle(m, visit, live, wanted, ps);
    let kept = keep(ps, wanted);
    lemma_keep_contains(ps, wanted);
    lemma_keep_ordered(ps, wanted, before);
    let two = seq![p, q];
    assert(strictly_ordered(two, before));
    assert forall|r: P| #![trigger kept.contains(r)] #![trigger two.contains(r)] kept.contains(r) <==> two.contains(r) by {
        if kept.contains(r) {
            if r == p {
                assert(two[0] == r);
            } else {
                assert(two[1] == r);
            }
        }
    }
    lemma_ordered_unique(kept, two, before);
    assert(two.drop_first() =~= seq![q]);
    assert(seq![q].drop_first() =~= Seq::<P>::empty());
    let m1 = visit(m, p);
    assert(fold_visits(m, visit, two) == fold_visits(m1, visit, seq![q]));
    assert(fold_visits(m1, visit, seq![q]) == fold_visits(visit(m1, q), visit, Seq::<P>::empty()));
}


/// A pass over positions of which only `p` is live is the visit to `p`.
pub proof fn lemma_one_live<M, P>(m: M, visit: spec_fn(M, P) -> M, live: spec_fn(M, P) -> bool, ps: Seq<P>, p: P, before: spec_fn(P, P) -> bool)
    requires
        idle_skipped(visit, live),
        strict_total(before),
        strictly_ordered(ps, before),
        ps.contains(p),
        forall|i: int| 0 <= i < ps.len() && live(m, #[trigger] ps[i]) ==> ps[i] == p,
    ensures
        fold_visits(m, visit, ps) == visit(m, p),
{
    let wanted = |r: P| r == p;
    assert forall|i: int| 0 <= i < ps.len() && !wanted(ps[i]) implies !live(m, #[trigger] ps[i]) by {}
    lemma_skip_idle(m, visit, live, wanted, ps);
    let kept = keep(ps, wanted);
    lemma_keep_contains(ps, wanted);
    lemma_keep_ordered(ps, wanted, before);
    let one = seq![p];
    assert(strictly_ordered(one, before));
    assert forall|r: P| #![trigger kept.contains(r)] #![trigger one.contains(r)] kept.contains(r) <==> one.contains(r) by {
        if kept.contains(r) {
            assert(one[0] == r);
        }
    }
    lemma_ordered_unique(kept, one, before);
    assert(one.drop_first() =~= Seq::<P>::empty());
    assert(fold_visits(m, visit, one) == fold_visits(visit(m, p), visit, Seq::<P>::empty()));
}

} // verus!
