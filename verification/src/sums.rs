//! Sums over positions, and the law that the two ways of counting what
//! could move away from an application give the same total.

use vstd::prelude::*;
use crate::model::{
    candidate_for, count_where, defaulted_to, lists_apps, lists_exts, overlap_counts, pair_text,
    shared_with, shows_app, shows_target_count, AppRec, DbView, ExtRec,
};
use crate::laws::{law_target_count_is_other_openers, other_opener};
use crate::rows::App;
use crate::text::{lemma_seq_lt_asymmetric, seq_lt, binary_key};

verus! {

/// `f(0) + f(1) + ... + f(n - 1)`.
pub open spec fn sum_to(n: int, f: spec_fn(int) -> int) -> int
    decreases n,
{
    if n <= 0 {
        0
    } else {
        sum_to(n - 1, f) + f(n - 1)
    }
}

pub(crate) proof fn lemma_sum_ext(n: int, f: spec_fn(int) -> int, g: spec_fn(int) -> int)
    requires
        forall|i: int| 0 <= i < n ==> #[trigger] f(i) == g(i),
    ensures
        sum_to(n, f) == sum_to(n, g),
    decreases n,
{
    if n > 0 {
        lemma_sum_ext(n - 1, f, g);
        assert(f(n - 1) == g(n - 1));
    }
}

proof fn lemma_sum_add(n: int, f: spec_fn(int) -> int, g: spec_fn(int) -> int, h: spec_fn(int) -> int)
    requires
        forall|i: int| 0 <= i < n ==> #[trigger] h(i) == f(i) + g(i),
    ensures
        sum_to(n, h) == sum_to(n, f) + sum_to(n, g),
    decreases n,
{
    if n > 0 {
        lemma_sum_add(n - 1, f, g, h);
        assert(h(n - 1) == f(n - 1) + g(n - 1));
    }
}

proof fn lemma_sum_zero(n: int, f: spec_fn(int) -> int)
    requires
        forall|i: int| 0 <= i < n ==> #[trigger] f(i) == 0,
    ensures
        sum_to(n, f) == 0,
    decreases n,
{
    if n > 0 {
        lemma_sum_zero(n - 1, f);
        assert(f(n - 1) == 0);
    }
}

/// Changing one term by `d` changes the sum by `d`.
proof fn lemma_sum_point(n: int, f0: spec_fn(int) -> int, f1: spec_fn(int) -> int, j: int, d: int)
    requires
        0 <= j < n,
        forall|i: int| 0 <= i < n && i != j ==> #[trigger] f1(i) == f0(i),
        f1(j) == f0(j) + d,
    ensures
        sum_to(n, f1) == sum_to(n, f0) + d,
    decreases n,
{
    if j == n - 1 {
        lemma_sum_ext(n - 1, f0, f1);
    } else {
        lemma_sum_point(n - 1, f0, f1, j, d);
        assert(f1(n - 1) == f0(n - 1));
    }
}

/// 1 where `p` holds of the element, 0 elsewhere.
pub open spec fn indicator<A>(s: Seq<A>, p: spec_fn(A) -> bool) -> spec_fn(int) -> int {
    |i: int| if p(s[i]) { 1int } else { 0int }
}

/// A count is the sum of its indicator.
proof fn lemma_count_as_sum<A>(s: Seq<A>, p: spec_fn(A) -> bool)
    ensures
        count_where(s, p) == sum_to(s.len() as int, indicator(s, p)),
    decreases s.len(),
{
    if s.len() > 0 {
        let d = s.drop_last();
        lemma_count_as_sum(d, p);
        assert forall|i: int| 0 <= i < d.len() implies #[trigger] indicator(d, p)(i) == indicator(s, p)(i) by {
            assert(d[i] == s[i]);
        }
        lemma_sum_ext(d.len() as int, indicator(d, p), indicator(s, p));
    }
}

/// `F` with its first argument fixed.
pub open spec fn fixed_first(f: spec_fn(int, int) -> int, x: int) -> spec_fn(int) -> int {
    |y: int| f(x, y)
}

/// `F` with its second argument fixed.
pub open spec fn fixed_second(f: spec_fn(int, int) -> int, y: int) -> spec_fn(int) -> int {
    |x: int| f(x, y)
}

/// For each `x`, the sum of `F(x, y)` over `y < b`.
pub open spec fn sums_over_second(f: spec_fn(int, int) -> int, b: int) -> spec_fn(int) -> int {
    |x: int| sum_to(b, fixed_first(f, x))
}

/// For each `y`, the sum of `F(x, y)` over `x < a`.
pub open spec fn sums_over_first(f: spec_fn(int, int) -> int, a: int) -> spec_fn(int) -> int {
    |y: int| sum_to(a, fixed_second(f, y))
}

/// A double sum can be taken in either order.
proof fn lemma_sum_swap(a: int, b: int, f: spec_fn(int, int) -> int)
    ensures
        sum_to(a, sums_over_second(f, b)) == sum_to(b, sums_over_first(f, a)),
    decreases a,
{
    if a <= 0 {
        assert forall|y: int| 0 <= y < b implies #[trigger] sums_over_first(f, a)(y) == 0 by {}
        lemma_sum_zero(b, sums_over_first(f, a));
    } else {
        lemma_sum_swap(a - 1, b, f);
        assert forall|y: int| 0 <= y < b implies #[trigger] sums_over_first(f, a)(y) == sums_over_first(f, a - 1)(y)
            + fixed_first(f, a - 1)(y) by {}
        lemma_sum_add(b, sums_over_first(f, a - 1), fixed_first(f, a - 1), sums_over_first(f, a));
    }
}

/// The value of each listed entry.
pub open spec fn values_of<T>(res: Seq<T>, val: spec_fn(T) -> int) -> spec_fn(int) -> int {
    |k: int| val(res[k])
}

/// The value of each row that `sel` picks, 0 for the others.
pub open spec fn picked_values<R>(rows: Seq<R>, sel: spec_fn(R) -> bool, g: spec_fn(R) -> int) -> spec_fn(int) -> int {
    |i: int| if sel(rows[i]) { g(rows[i]) } else { 0int }
}

/// One of the first `n` entries shows `r`.
pub open spec fn shown_before<T, R>(res: Seq<T>, n: int, r: R, shows: spec_fn(T, R) -> bool) -> bool {
    exists|k: int| 0 <= k < n && #[trigger] shows(res[k], r)
}

/// The value of each row shown among the first `n` entries, 0 for the
/// others.
pub open spec fn shown_values<T, R>(
    res: Seq<T>,
    n: int,
    rows: Seq<R>,
    shows: spec_fn(T, R) -> bool,
    g: spec_fn(R) -> int,
) -> spec_fn(int) -> int {
    |i: int| if shown_before(res, n, rows[i], shows) { g(rows[i]) } else { 0int }
}

/// `x` shows some row that `sel` picks.
pub open spec fn shows_picked<T, R>(x: T, rows: Seq<R>, sel: spec_fn(R) -> bool, shows: spec_fn(T, R) -> bool) -> bool {
    exists|i: int| 0 <= i < rows.len() && sel(rows[i]) && #[trigger] shows(x, rows[i])
}

/// `res` lists the rows that `sel` picks, each entry showing exactly one
/// row and each picked row shown by exactly one entry.
#[verifier::opaque]
pub open spec fn lists_one_to_one<T, R>(
    res: Seq<T>,
    rows: Seq<R>,
    sel: spec_fn(R) -> bool,
    shows: spec_fn(T, R) -> bool,
) -> bool {
    &&& forall|k: int| 0 <= k < res.len() ==> shows_picked(#[trigger] res[k], rows, sel, shows)
    &&& forall|i: int| 0 <= i < rows.len() && sel(rows[i]) ==> shown_before(res, res.len() as int, #[trigger] rows[i], shows)
    &&& forall|k: int, i1: int, i2: int|
        0 <= k < res.len() && 0 <= i1 < rows.len() && 0 <= i2 < rows.len() && #[trigger] shows(res[k], rows[i1])
            && #[trigger] shows(res[k], rows[i2]) ==> i1 == i2
    &&& forall|k1: int, k2: int, i: int|
        0 <= k1 < res.len() && 0 <= k2 < res.len() && 0 <= i < rows.len() && #[trigger] shows(res[k1], rows[i])
            && #[trigger] shows(res[k2], rows[i]) ==> k1 == k2
}

proof fn lemma_listing_prefix_sum<T, R>(
    res: Seq<T>,
    rows: Seq<R>,
    sel: spec_fn(R) -> bool,
    shows: spec_fn(T, R) -> bool,
    val: spec_fn(T) -> int,
    g: spec_fn(R) -> int,
    n: int,
)
    requires
        0 <= n <= res.len(),
        lists_one_to_one(res, rows, sel, shows),
        forall|k: int, i: int|
            0 <= k < res.len() && 0 <= i < rows.len() && #[trigger] shows(res[k], rows[i]) ==> val(res[k]) == g(rows[i]),
    ensures
        sum_to(n, values_of(res, val)) == sum_to(rows.len() as int, shown_values(res, n, rows, shows, g)),
    decreases n,
{
    reveal(lists_one_to_one);
    if n == 0 {
        assert forall|i: int| 0 <= i < rows.len() implies #[trigger] shown_values(res, 0, rows, shows, g)(i) == 0 by {}
        lemma_sum_zero(rows.len() as int, shown_values(res, 0, rows, shows, g));
    } else {
        let m = n - 1;
        lemma_listing_prefix_sum(res, rows, sel, shows, val, g, m);
        assert(shows_picked(res[m], rows, sel, shows));
        let j = choose|j: int| 0 <= j < rows.len() && sel(rows[j]) && #[trigger] shows(res[m], rows[j]);
        assert forall|i: int| 0 <= i < rows.len() && i != j implies #[trigger] shown_values(res, n, rows, shows, g)(i)
            == shown_values(res, m, rows, shows, g)(i) by {
            if shown_before(res, n, rows[i], shows) {
                let k = choose|k: int| 0 <= k < n && #[trigger] shows(res[k], rows[i]);
                if k == m {
                    assert(shows(res[m], rows[j]));
                    assert(false);
                }
            }
            if shown_before(res, m, rows[i], shows) {
                let k = choose|k: int| 0 <= k < m && #[trigger] shows(res[k], rows[i]);
                assert(shows(res[k], rows[i]));
            }
        }
        assert(!shown_before(res, m, rows[j], shows)) by {
            if shown_before(res, m, rows[j], shows) {
                let k = choose|k: int| 0 <= k < m && #[trigger] shows(res[k], rows[j]);
                assert(shows(res[m], rows[j]));
            }
        }
        assert(shown_before(res, n, rows[j], shows)) by {
            assert(shows(res[m], rows[j]));
        }
        lemma_sum_point(
            rows.len() as int,
            shown_values(res, m, rows, shows, g),
            shown_values(res, n, rows, shows, g),
            j,
            g(rows[j]),
        );
    }
}

/// The total of the values of a one-to-one listing is the total over the
/// rows it lists.
proof fn lemma_listing_sum<T, R>(
    res: Seq<T>,
    rows: Seq<R>,
    sel: spec_fn(R) -> bool,
    shows: spec_fn(T, R) -> bool,
    val: spec_fn(T) -> int,
    g: spec_fn(R) -> int,
)
    requires
        lists_one_to_one(res, rows, sel, shows),
        forall|k: int, i: int|
            0 <= k < res.len() && 0 <= i < rows.len() && #[trigger] shows(res[k], rows[i]) ==> val(res[k]) == g(rows[i]),
    ensures
        sum_to(res.len() as int, values_of(res, val)) == sum_to(rows.len() as int, picked_values(rows, sel, g)),
{
    reveal(lists_one_to_one);
    let n = res.len() as int;
    lemma_listing_prefix_sum(res, rows, sel, shows, val, g, n);
    assert forall|i: int| 0 <= i < rows.len() implies #[trigger] shown_values(res, n, rows, shows, g)(i)
        == picked_values(rows, sel, g)(i) by {
        if shown_before(res, n, rows[i], shows) {
            let k = choose|k: int| 0 <= k < n && #[trigger] shows(res[k], rows[i]);
            assert(shows_picked(res[k], rows, sel, shows));
            let i2 = choose|i2: int| 0 <= i2 < rows.len() && sel(rows[i2]) && #[trigger] shows(res[k], rows[i2]);
            assert(shows(res[k], rows[i]));
        }
    }
    lemma_sum_ext(rows.len() as int, shown_values(res, n, rows, shows, g), picked_values(rows, sel, g));
}


/// The application entry shows the row with the count `count` gives it.
pub open spec fn shows_with_count(count: spec_fn(AppRec) -> int) -> spec_fn(App, AppRec) -> bool {
    |a: App, r: AppRec| shows_app(a, r, count(r))
}

/// The count an application entry shows.
pub open spec fn app_count() -> spec_fn(App) -> int {
    |a: App| a.ext_count as int
}

/// The count a per-extension pair shows.
pub open spec fn pair_count() -> spec_fn((String, i64)) -> int {
    |p: (String, i64)| p.1 as int
}

/// The number of other handlers of an extension defaulted to `source`.
pub open spec fn target_counts(v: DbView, source: i64) -> spec_fn(ExtRec) -> int {
    |e: ExtRec| v.target_count(e.ext, source) as int
}

/// The total of the counts an application list shows.
pub open spec fn app_count_total(res: Seq<App>) -> int {
    sum_to(res.len() as int, values_of(res, app_count()))
}

/// The total of the counts a per-extension list shows.
pub open spec fn pair_count_total(res: Seq<(String, i64)>) -> int {
    sum_to(res.len() as int, values_of(res, pair_count()))
}

/// 1 when application `a` is not `source` and can open extension `i`,
/// which is defaulted to `source`; 0 otherwise.
pub open spec fn handler_matrix(v: DbView, source: i64) -> spec_fn(int, int) -> int {
    |a: int, i: int|
        if v.exts[i].default_app_id == Some(source) && v.apps[a].id != source && v.has_link(
            v.exts[i].ext,
            v.apps[a].id,
        ) {
            1int
        } else {
            0int
        }
}

proof fn lemma_apps_one_to_one(v: DbView, res: Seq<App>, sel: spec_fn(AppRec) -> bool, count: spec_fn(AppRec) -> int)
    requires
        v.wf(),
        lists_apps(res, v.apps, sel, count),
    ensures
        lists_one_to_one(res, v.apps, sel, shows_with_count(count)),
{
    let rows = v.apps;
    let sh = shows_with_count(count);
    assert forall|k: int| 0 <= k < res.len() implies shows_picked(#[trigger] res[k], rows, sel, sh) by {
        assert(crate::model::shows_picked_row(res[k], rows, sel, count));
        let i = choose|i: int| 0 <= i < rows.len() && sel(rows[i]) && #[trigger] shows_app(res[k], rows[i], count(rows[i]));
        assert(sh(res[k], rows[i]));
    }
    assert forall|i: int| 0 <= i < rows.len() && sel(rows[i]) implies shown_before(res, res.len() as int, #[trigger] rows[i], sh) by {
        assert(crate::model::row_shown(rows[i], res, count(rows[i])));
        let k = choose|k: int| 0 <= k < res.len() && #[trigger] shows_app(res[k], rows[i], count(rows[i]));
        assert(sh(res[k], rows[i]));
    }
    assert forall|k: int, i1: int, i2: int|
        0 <= k < res.len() && 0 <= i1 < rows.len() && 0 <= i2 < rows.len() && #[trigger] sh(res[k], rows[i1])
            && #[trigger] sh(res[k], rows[i2]) implies i1 == i2 by {
        v.lemma_app_index_unique(i1, i2);
    }
    assert forall|k1: int, k2: int, i: int|
        0 <= k1 < res.len() && 0 <= k2 < res.len() && 0 <= i < rows.len() && #[trigger] sh(res[k1], rows[i])
            && #[trigger] sh(res[k2], rows[i]) implies k1 == k2 by {
        if k1 < k2 {
            assert(res[k1].id != res[k2].id);
        } else if k2 < k1 {
            assert(res[k2].id != res[k1].id);
        }
    }
    reveal(lists_one_to_one);
}

proof fn lemma_pairs_rows_once(v: DbView, source: i64, res: Seq<(String, i64)>)
    requires
        v.wf(),
    ensures
        forall|k: int, i1: int, i2: int|
            0 <= k < res.len() && 0 <= i1 < v.exts.len() && 0 <= i2 < v.exts.len() && #[trigger] shows_target_count(
                v,
                source,
            )(res[k], v.exts[i1]) && #[trigger] shows_target_count(v, source)(res[k], v.exts[i2]) ==> i1 == i2,
{
    let sh = shows_target_count(v, source);
    assert forall|k: int, i1: int, i2: int|
        0 <= k < res.len() && 0 <= i1 < v.exts.len() && 0 <= i2 < v.exts.len() && #[trigger] sh(res[k], v.exts[i1])
            && #[trigger] sh(res[k], v.exts[i2]) implies i1 == i2 by {
        v.lemma_ext_index_unique(i1, i2);
    }
}

proof fn lemma_pairs_entries_once(rows: Seq<ExtRec>, sh: spec_fn((String, i64), ExtRec) -> bool, res: Seq<(String, i64)>)
    requires
        forall|k1: int, k2: int|
            0 <= k1 < k2 < res.len() ==> seq_lt(
                binary_key(pair_text()(#[trigger] res[k1])),
                binary_key(pair_text()(#[trigger] res[k2])),
            ),
        forall|k: int, i: int| 0 <= k < res.len() && 0 <= i < rows.len() && #[trigger] sh(res[k], rows[i]) ==> res[k].0@ == rows[i].ext,
    ensures
        forall|k1: int, k2: int, i: int|
            0 <= k1 < res.len() && 0 <= k2 < res.len() && 0 <= i < rows.len() && #[trigger] sh(res[k1], rows[i])
                && #[trigger] sh(res[k2], rows[i]) ==> k1 == k2,
{
    let key = pair_text();
    assert forall|k1: int, k2: int, i: int|
        0 <= k1 < res.len() && 0 <= k2 < res.len() && 0 <= i < rows.len() && #[trigger] sh(res[k1], rows[i])
            && #[trigger] sh(res[k2], rows[i]) implies k1 == k2 by {
        assert(key(res[k1]) == key(res[k2]));
        lemma_seq_lt_asymmetric(binary_key(key(res[k1])), binary_key(key(res[k2])));
        if k1 < k2 {
            assert(seq_lt(binary_key(key(res[k1])), binary_key(key(res[k2]))));
        } else if k2 < k1 {
            assert(seq_lt(binary_key(key(res[k2])), binary_key(key(res[k1]))));
        }
    }
}

proof fn lemma_pairs_cover(
    res: Seq<(String, i64)>,
    rows: Seq<ExtRec>,
    sel: spec_fn(ExtRec) -> bool,
    sh: spec_fn((String, i64), ExtRec) -> bool,
)
    requires
        lists_exts(res, rows, sel, sh, pair_text()),
    ensures
        forall|k: int| 0 <= k < res.len() ==> shows_picked(#[trigger] res[k], rows, sel, sh),
        forall|i: int| 0 <= i < rows.len() && sel(rows[i]) ==> shown_before(res, res.len() as int, #[trigger] rows[i], sh),
{
    assert forall|k: int| 0 <= k < res.len() implies shows_picked(#[trigger] res[k], rows, sel, sh) by {
        assert(crate::model::shows_picked_ext(res[k], rows, sel, sh));
    }
    assert forall|i: int| 0 <= i < rows.len() && sel(rows[i]) implies shown_before(res, res.len() as int, #[trigger] rows[i], sh) by {
        assert(crate::model::ext_shown(rows[i], res, sh));
    }
}

proof fn lemma_pairs_one_to_one(v: DbView, source: i64, res: Seq<(String, i64)>)
    requires
        v.wf(),
        lists_exts(res, v.exts, defaulted_to(source), shows_target_count(v, source), pair_text()),
    ensures
        lists_one_to_one(res, v.exts, defaulted_to(source), shows_target_count(v, source)),
{
    let rows = v.exts;
    let sh = shows_target_count(v, source);
    lemma_pairs_cover(res, rows, defaulted_to(source), sh);
    lemma_pairs_rows_once(v, source, res);
    assert forall|k: int, i: int| 0 <= k < res.len() && 0 <= i < rows.len() && #[trigger] sh(res[k], rows[i]) implies res[k].0@
        == rows[i].ext by {}
    lemma_pairs_entries_once(rows, sh, res);
    reveal(lists_one_to_one);
}

proof fn lemma_pair_column(v: DbView, source: i64, i: int)
    requires
        v.wf(),
        0 <= i < v.exts.len(),
    ensures
        picked_values(v.exts, defaulted_to(source), target_counts(v, source))(i) == sums_over_first(
            handler_matrix(v, source),
            v.apps.len() as int,
        )(i),
{
    let f = handler_matrix(v, source);
    let na = v.apps.len() as int;
    let e = v.exts[i];
    if e.default_app_id == Some(source) {
        law_target_count_is_other_openers(v, e.ext, source);
        lemma_count_as_sum(v.apps, other_opener(v, e.ext, source));
        assert forall|a: int| 0 <= a < na implies #[trigger] indicator(v.apps, other_opener(v, e.ext, source))(a)
            == fixed_second(f, i)(a) by {}
        lemma_sum_ext(na, indicator(v.apps, other_opener(v, e.ext, source)), fixed_second(f, i));
    } else {
        assert forall|a: int| 0 <= a < na implies #[trigger] fixed_second(f, i)(a) == 0 by {}
        lemma_sum_zero(na, fixed_second(f, i));
    }
}

proof fn lemma_app_row(v: DbView, source: i64, a: int)
    requires
        0 <= a < v.apps.len(),
    ensures
        picked_values(v.apps, candidate_for(v, source), overlap_counts(v, source))(a) == sums_over_second(
            handler_matrix(v, source),
            v.exts.len() as int,
        )(a),
{
    let f = handler_matrix(v, source);
    let ne = v.exts.len() as int;
    let id = v.apps[a].id;
    if id != source {
        lemma_count_as_sum(v.exts, shared_with(v, source, id));
        assert forall|i: int| 0 <= i < ne implies #[trigger] indicator(v.exts, shared_with(v, source, id))(i)
            == fixed_first(f, a)(i) by {}
        lemma_sum_ext(ne, indicator(v.exts, shared_with(v, source, id)), fixed_first(f, a));
    } else {
        assert forall|i: int| 0 <= i < ne implies #[trigger] fixed_first(f, a)(i) == 0 by {}
        lemma_sum_zero(ne, fixed_first(f, a));
    }
}

/// The per-extension total, as a double sum.
proof fn lemma_pair_side(v: DbView, source: i64, counts: Seq<(String, i64)>)
    requires
        v.wf(),
        lists_exts(counts, v.exts, defaulted_to(source), shows_target_count(v, source), pair_text()),
    ensures
        pair_count_total(counts) == sum_to(v.exts.len() as int, sums_over_first(handler_matrix(v, source), v.apps.len() as int)),
{
    let f = handler_matrix(v, source);
    let ne = v.exts.len() as int;
    lemma_pairs_one_to_one(v, source, counts);
    lemma_listing_sum(counts, v.exts, defaulted_to(source), shows_target_count(v, source), pair_count(), target_counts(v, source));
    assert forall|i: int| 0 <= i < ne implies #[trigger] picked_values(v.exts, defaulted_to(source), target_counts(v, source))(i)
        == sums_over_first(f, v.apps.len() as int)(i) by {
        lemma_pair_column(v, source, i);
    }
    lemma_sum_ext(ne, picked_values(v.exts, defaulted_to(source), target_counts(v, source)), sums_over_first(f, v.apps.len() as int));
}

/// The per-application total, as a double sum.
proof fn lemma_app_side(v: DbView, source: i64, cands: Seq<App>)
    requires
        v.wf(),
        lists_apps(cands, v.apps, candidate_for(v, source), overlap_counts(v, source)),
    ensures
        app_count_total(cands) == sum_to(v.apps.len() as int, sums_over_second(handler_matrix(v, source), v.exts.len() as int)),
{
    let f = handler_matrix(v, source);
    let na = v.apps.len() as int;
    lemma_apps_one_to_one(v, cands, candidate_for(v, source), overlap_counts(v, source));
    lemma_listing_sum(
        cands,
        v.apps,
        candidate_for(v, source),
        shows_with_count(overlap_counts(v, source)),
        app_count(),
        overlap_counts(v, source),
    );
    assert forall|a: int| 0 <= a < na implies #[trigger] picked_values(v.apps, candidate_for(v, source), overlap_counts(v, source))(a)
        == sums_over_second(f, v.exts.len() as int)(a) by {
        lemma_app_row(v, source, a);
    }
    lemma_sum_ext(na, picked_values(v.apps, candidate_for(v, source), overlap_counts(v, source)), sums_over_second(f, v.exts.len() as int));
}

/// Counting what could move away from `source` in two ways gives one
/// total: with `cands` the candidate targets of `source` and `counts` the
/// per-extension numbers of other handlers (as their contracts describe
/// them on the same catalogue), the counts of `counts` add up to the
/// counts of `cands`.  Both count the pairs of an extension defaulted to
/// `source` and another application that can open it.
pub proof fn law_target_total_is_candidate_total(
    v: DbView,
    source: i64,
    cands: Seq<App>,
    counts: Seq<(String, i64)>,
)
    requires
        v.wf(),
        lists_apps(cands, v.apps, candidate_for(v, source), overlap_counts(v, source)),
        lists_exts(counts, v.exts, defaulted_to(source), shows_target_count(v, source), pair_text()),
    ensures
        pair_count_total(counts) == app_count_total(cands),
{
    lemma_pair_side(v, source, counts);
    lemma_app_side(v, source, cands);
    lemma_sum_swap(v.apps.len() as int, v.exts.len() as int, handler_matrix(v, source));
}


/// A count is positive when some element satisfies the predicate.
proof fn lemma_count_positive<A>(s: Seq<A>, p: spec_fn(A) -> bool, i: int)
    requires
        0 <= i < s.len(),
        p(s[i]),
    ensures
        count_where(s, p) > 0,
    decreases s.len(),
{
    if i < s.len() - 1 {
        lemma_count_positive(s.drop_last(), p, i);
    }
}

/// The listed application can open `ext`.
pub open spec fn entry_opens(v: DbView, ext: Seq<char>) -> spec_fn(App) -> int {
    |x: App| if v.has_link(ext, x.id) { 1int } else { 0int }
}

/// The application can open `ext`.
pub open spec fn row_opens(v: DbView, ext: Seq<char>) -> spec_fn(AppRec) -> int {
    |r: AppRec| if v.has_link(ext, r.id) { 1int } else { 0int }
}

/// Each per-extension count is the number of candidate targets that can
/// open the extension: for an extension (row `i`) defaulted to `source`,
/// its number of other handlers equals the number of entries of the
/// candidate list `cands` that can open it.
pub proof fn law_target_count_counts_candidates(v: DbView, source: i64, cands: Seq<App>, i: int)
    requires
        v.wf(),
        lists_apps(cands, v.apps, candidate_for(v, source), overlap_counts(v, source)),
        0 <= i < v.exts.len(),
        v.exts[i].default_app_id == Some(source),
    ensures
        v.target_count(v.exts[i].ext, source) == sum_to(cands.len() as int, values_of(cands, entry_opens(v, v.exts[i].ext))),
{
    let ext = v.exts[i].ext;
    let na = v.apps.len() as int;
    let sh = shows_with_count(overlap_counts(v, source));
    lemma_apps_one_to_one(v, cands, candidate_for(v, source), overlap_counts(v, source));
    assert forall|k: int, a: int| 0 <= k < cands.len() && 0 <= a < na && #[trigger] sh(cands[k], v.apps[a]) implies entry_opens(
        v,
        ext,
    )(cands[k]) == row_opens(v, ext)(v.apps[a]) by {}
    lemma_listing_sum(cands, v.apps, candidate_for(v, source), sh, entry_opens(v, ext), row_opens(v, ext));
    assert forall|a: int| 0 <= a < na implies #[trigger] picked_values(v.apps, candidate_for(v, source), row_opens(v, ext))(a)
        == indicator(v.apps, other_opener(v, ext, source))(a) by {
        let id = v.apps[a].id;
        if id != source && v.has_link(ext, id) {
            assert(shared_with(v, source, id)(v.exts[i]));
            lemma_count_positive(v.exts, shared_with(v, source, id), i);
        }
    }
    lemma_sum_ext(na, picked_values(v.apps, candidate_for(v, source), row_opens(v, ext)), indicator(v.apps, other_opener(v, ext, source)));
    lemma_count_as_sum(v.apps, other_opener(v, ext, source));
    law_target_count_is_other_openers(v, ext, source);
}

} // verus!
