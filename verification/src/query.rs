//! The read-only queries over the tables.

use vstd::prelude::*;
use crate::model::{
    app_with_id, count_where, default_counts, defaulted_to, exclude_counts, first_index,
    lemma_count_bound, lemma_count_step, lemma_first_index_is, name_filter,
    candidate_for, opens, opens_all, other_handler, overlap_counts, shared_with, texts, AppRec,
    DbView, ExtRec, app_before, apps_in_order, lists_apps, row_shown, shows_app,
    shows_picked_row, lists_exts, shows_picked_ext, ext_shown, for_default, shows_extension,
    extension_text, eligible_for, shows_ext_name, string_text, shows_target_count, pair_text, opt_text,
};
use crate::rows::{App, AppRow, Extension};
use crate::sort::{lemma_from_same_items, items_of, key_lt, keys_sorted, lemma_same_items, sort_items, Keyed, SortKey};
use crate::tables::Tables;
use crate::text::{binary_key, key_of, lemma_seq_lt_total, name_like, nocase_key, seq_lt};

verus! {

/// The key of an application entry agrees with its count and name.
pub open spec fn app_key_ok(x: Keyed<App>, by_count: bool) -> bool {
    &&& x.key.rank == (if by_count {
        x.item.ext_count
    } else {
        0
    })
    &&& x.key.text@ == nocase_key(x.item.name@)
}

/// Each listed item comes from an entry, and each entry is listed.
proof fn lemma_items_listed<T>(input: Seq<Keyed<T>>, order: Seq<Keyed<T>>, out: Seq<T>)
    requires
        input.to_multiset() == order.to_multiset(),
        out == items_of(order),
    ensures
        out.len() == order.len(),
        forall|k: int| 0 <= k < out.len() ==> items_of(input).contains(#[trigger] out[k]),
        forall|j: int| 0 <= j < input.len() ==> out.contains(#[trigger] input[j].item),
{
    assert forall|k: int| 0 <= k < out.len() implies items_of(input).contains(#[trigger] out[k]) by {
        assert(out[k] == order[k].item);
        lemma_from_same_items(input, order, k);
        let j = choose|j: int| 0 <= j < input.len() && input[j] == order[k];
        assert(items_of(input)[j] == out[k]);
    }
    assert forall|j: int| 0 <= j < input.len() implies out.contains(#[trigger] input[j].item) by {
        lemma_from_same_items(order, input, j);
        let k = choose|k: int| 0 <= k < order.len() && order[k] == input[j];
        assert(out[k] == order[k].item);
    }
}

/// Entries with distinct identifiers come out with distinct identifiers,
/// in the order their keys give.
proof fn lemma_apps_finished(input: Seq<Keyed<App>>, order: Seq<Keyed<App>>, out: Seq<App>, by_count: bool)
    requires
        input.to_multiset() == order.to_multiset(),
        keys_sorted(order),
        out == items_of(order),
        forall|j: int| 0 <= j < input.len() ==> app_key_ok(#[trigger] input[j], by_count),
        forall|j1: int, j2: int|
            0 <= j1 < j2 < input.len() ==> #[trigger] input[j1].item.id != #[trigger] input[j2].item.id,
    ensures
        forall|k1: int, k2: int| 0 <= k1 < k2 < out.len() ==> #[trigger] out[k1].id != #[trigger] out[k2].id,
        apps_in_order(out, by_count),
{
    assert(input.no_duplicates()) by {
        assert forall|a: int, b: int|
            0 <= a < input.len() && 0 <= b < input.len() && a != b implies input[a] != input[b] by {
            if a < b {
                assert(input[a].item.id != input[b].item.id);
            } else {
                assert(input[b].item.id != input[a].item.id);
            }
        }
    }
    lemma_same_items(input, order);
    assert forall|k1: int, k2: int| 0 <= k1 < k2 < out.len() implies #[trigger] out[k1].id
        != #[trigger] out[k2].id by {
        assert(input.contains(order[k1]));
        assert(input.contains(order[k2]));
        let j1 = choose|j: int| 0 <= j < input.len() && input[j] == order[k1];
        let j2 = choose|j: int| 0 <= j < input.len() && input[j] == order[k2];
        assert(out[k1] == order[k1].item && out[k2] == order[k2].item);
        if j1 < j2 {
            assert(input[j1].item.id != input[j2].item.id);
        } else if j2 < j1 {
            assert(input[j2].item.id != input[j1].item.id);
        } else {
            assert(order[k1] == order[k2]);
        }
    }
    assert forall|i: int, j: int| 0 <= i < j < out.len() implies !app_before(
        #[trigger] out[j],
        #[trigger] out[i],
        by_count,
    ) by {
        assert(!key_lt(order[j].key, order[i].key));
        assert(input.contains(order[i]));
        assert(input.contains(order[j]));
        let a = choose|a: int| 0 <= a < input.len() && input[a] == order[i];
        let b = choose|b: int| 0 <= b < input.len() && input[b] == order[j];
        assert(app_key_ok(input[a], by_count));
        assert(app_key_ok(input[b], by_count));
        assert(out[i] == order[i].item && out[j] == order[j].item);
    }
}

/// Orders application entries and hands out the applications.
fn finish_apps(items: Vec<Keyed<App>>, Ghost(by_count): Ghost<bool>) -> (out: Vec<App>)
    requires
        forall|j: int| 0 <= j < items@.len() ==> app_key_ok(#[trigger] items@[j], by_count),
        forall|j1: int, j2: int|
            0 <= j1 < j2 < items@.len() ==> #[trigger] items@[j1].item.id != #[trigger] items@[j2].item.id,
    ensures
        out@.len() == items@.len(),
        forall|k: int| 0 <= k < out@.len() ==> items_of(items@).contains(#[trigger] out@[k]),
        forall|j: int| 0 <= j < items@.len() ==> out@.contains(#[trigger] items@[j].item),
        forall|k1: int, k2: int| 0 <= k1 < k2 < out@.len() ==> #[trigger] out@[k1].id != #[trigger] out@[k2].id,
        apps_in_order(out@, by_count),
{
    let ghost input = items@;
    let (out, Ghost(order)) = sort_items(items);
    proof {
        lemma_items_listed(input, order, out@);
        lemma_apps_finished(input, order, out@, by_count);
    }
    out
}

impl Tables {
    /// The number of extensions whose default is `id`.
    pub fn count_defaults(&self, id: i64) -> (c: i64)
        requires
            self.view().wf(),
        ensures
            c == self.view().default_count(id),
    {
        let ghost v = self.view();
        let mut c: i64 = 0;
        let mut i: usize = 0;
        while i < self.exts.len()
            invariant
                v == self.view(),
                v.wf(),
                i <= self.exts.len(),
                c == count_where(v.exts.take(i as int), defaulted_to(id)),
            decreases self.exts.len() - i,
        {
            proof {
                lemma_count_step(v.exts, defaulted_to(id), i as int);
                lemma_count_bound(v.exts.take(i + 1), defaulted_to(id));
                assert(v.exts[i as int] == self.exts@[i as int]@);
            }
            if self.exts[i].default_app_id == Some(id) {
                c = c + 1;
            }
            i = i + 1;
        }
        proof {
            assert(v.exts.take(i as int) =~= v.exts);
        }
        c
    }

    /// The number of extensions defaulted to `source` that `id` can open.
    pub fn count_overlap(&self, source: i64, id: i64) -> (c: i64)
        requires
            self.view().wf(),
        ensures
            c == self.view().overlap_count(source, id),
    {
        let ghost v = self.view();
        let mut c: i64 = 0;
        let mut i: usize = 0;
        while i < self.exts.len()
            invariant
                v == self.view(),
                v.wf(),
                i <= self.exts.len(),
                c == count_where(v.exts.take(i as int), shared_with(v, source, id)),
            decreases self.exts.len() - i,
        {
            proof {
                lemma_count_step(v.exts, shared_with(v, source, id), i as int);
                lemma_count_bound(v.exts.take(i + 1), shared_with(v, source, id));
                assert(v.exts[i as int] == self.exts@[i as int]@);
            }
            if self.exts[i].default_app_id == Some(source) && self.contains_link(&self.exts[i].ext, id) {
                c = c + 1;
            }
            i = i + 1;
        }
        proof {
            assert(v.exts.take(i as int) =~= v.exts);
        }
        c
    }
}

/// Which applications a listing asks for.
pub enum AppQuery {
    /// All applications whose name matches the filter, if any.
    Named(Option<String>),
    /// The applications that can open an extension.
    Opening(String),
    /// The applications that could take over extensions from `source`.
    CandidatesFor(i64),
    /// The applications, other than one, that can open all the extensions.
    OpeningAll(Vec<String>, Option<i64>),
}

impl AppQuery {
    /// The applications the query picks.
    pub open spec fn selects(&self, v: DbView) -> spec_fn(AppRec) -> bool {
        match self {
            AppQuery::Named(f) => name_filter(match f {
                Some(s) => Some(s@),
                None => None,
            }),
            AppQuery::Opening(e) => opens(v, e@),
            AppQuery::CandidatesFor(src) => candidate_for(v, *src),
            AppQuery::OpeningAll(exts, exclude) => opens_all(v, texts(exts@), *exclude),
        }
    }

    /// The count the query shows for each application it picks.
    pub open spec fn counts(&self, v: DbView) -> spec_fn(AppRec) -> int {
        match self {
            AppQuery::Named(_) => default_counts(v),
            AppQuery::Opening(_) => default_counts(v),
            AppQuery::CandidatesFor(src) => overlap_counts(v, *src),
            AppQuery::OpeningAll(_, exclude) => exclude_counts(v, *exclude),
        }
    }

    /// Whether the listing puts larger counts first.
    pub open spec fn by_count(&self) -> bool {
        match self {
            AppQuery::Named(_) => false,
            AppQuery::Opening(_) => false,
            AppQuery::CandidatesFor(_) => true,
            AppQuery::OpeningAll(_, _) => true,
        }
    }
}

impl Tables {
    /// Whether `id` can open every one of `exts`.
    fn opens_every(&self, exts: &Vec<String>, id: i64) -> (r: bool)
        ensures
            r == (forall|i: int| 0 <= i < exts@.len() ==> self.view().has_link(#[trigger] texts(exts@)[i], id)),
    {
        let mut i: usize = 0;
        while i < exts.len()
            invariant
                i <= exts.len(),
                forall|j: int| 0 <= j < i ==> self.view().has_link(#[trigger] texts(exts@)[j], id),
            decreases exts.len() - i,
        {
            if !self.contains_link(&exts[i], id) {
                assert(!self.view().has_link(texts(exts@)[i as int], id));
                return false;
            }
            i = i + 1;
        }
        true
    }

    /// Whether the query picks `row`, and its count when it does.
    fn evaluate(&self, q: &AppQuery, row: &AppRow) -> (r: (bool, i64))
        requires
            self.view().wf(),
        ensures
            r.0 == q.selects(self.view())(row@),
            r.0 ==> r.1 == q.counts(self.view())(row@),
    {
        match q {
            AppQuery::Named(f) => {
                let picked = match f {
                    None => true,
                    Some(needle) => name_like(needle.as_str(), row.name.as_str()),
                };
                if picked {
                    (true, self.count_defaults(row.id))
                } else {
                    (false, 0)
                }
            },
            AppQuery::Opening(e) => {
                if self.contains_link(e, row.id) {
                    (true, self.count_defaults(row.id))
                } else {
                    (false, 0)
                }
            },
            AppQuery::CandidatesFor(src) => {
                if row.id == *src {
                    (false, 0)
                } else {
                    let c = self.count_overlap(*src, row.id);
                    (c > 0, c)
                }
            },
            AppQuery::OpeningAll(exts, exclude) => {
                if *exclude == Some(row.id) || !self.opens_every(exts, row.id) {
                    (false, 0)
                } else {
                    match exclude {
                        Some(x) => (true, self.count_overlap(*x, row.id)),
                        None => (true, 0),
                    }
                }
            },
        }
    }

    /// Lists the applications that `q` asks for, in its order.
    pub fn collect_apps(&self, q: &AppQuery) -> (res: Vec<App>)
        requires
            self.view().wf(),
        ensures
            lists_apps(res@, self.view().apps, q.selects(self.view()), q.counts(self.view())),
            apps_in_order(res@, q.by_count()),
    {
        let ghost v = self.view();
        let ghost sel = q.selects(v);
        let ghost cnt = q.counts(v);
        let ghost by_count = q.by_count();
        let mut items: Vec<Keyed<App>> = Vec::new();
        let ghost mut src: Seq<int> = Seq::empty();
        let ghost mut slot: Seq<int> = Seq::empty();
        let mut i: usize = 0;
        while i < self.apps.len()
            invariant
                v == self.view(),
                v.wf(),
                sel == q.selects(v),
                cnt == q.counts(v),
                by_count == q.by_count(),
                i <= self.apps.len(),
                items@.len() == count_where(v.apps.take(i as int), sel),
                picks_rows(items@, src, v.apps, sel, cnt, by_count, i as int),
                slot.len() == i,
                forall|a: int|
                    0 <= a < i && sel(v.apps[a]) ==> 0 <= #[trigger] slot[a] < items@.len() && src[slot[a]] == a,
            decreases self.apps.len() - i,
        {
            let row = &self.apps[i];
            let (picked, c) = self.evaluate(q, row);
            proof {
                lemma_count_step(v.apps, sel, i as int);
                assert(v.apps[i as int] == row@);
            }
            if picked {
                let key = key_of(row.name.as_str(), true);
                let rank: i64 = if by_count_of(q) {
                    c
                } else {
                    0
                };
                let item = App { id: row.id, name: row.name.clone(), path: row.path.clone(), ext_count: c };
                let ghost before = items@;
                items.push(Keyed { key: SortKey { rank, text: key }, item });
                proof {
                    lemma_picks_push(before, items@, src, v.apps, sel, cnt, by_count, i as int);
                    src = src.push(i as int);
                    slot = slot.push(before.len() as int);
                }
            } else {
                proof {
                    slot = slot.push(-1);
                }
            }
            i = i + 1;
        }
        proof {
            assert(v.apps.take(i as int) =~= v.apps);
            lemma_picks_distinct(items@, src, v, sel, cnt, by_count, i as int);
        }
        let ghost input = items@;
        proof {
            assert forall|j: int| 0 <= j < input.len() implies app_key_ok(#[trigger] input[j], by_count) by {
                assert(0 <= src[j]);
            }
        }
        let res = finish_apps(items, Ghost(by_count));
        proof {
            lemma_picks_listed(res@, input, src, slot, v.apps, sel, cnt, by_count);
        }
        res
    }
}

proof fn lemma_picks_listed(
    res: Seq<App>,
    input: Seq<Keyed<App>>,
    src: Seq<int>,
    slot: Seq<int>,
    rows: Seq<AppRec>,
    sel: spec_fn(AppRec) -> bool,
    cnt: spec_fn(AppRec) -> int,
    by_count: bool,
)
    requires
        picks_rows(input, src, rows, sel, cnt, by_count, rows.len() as int),
        input.len() == count_where(rows, sel),
        slot.len() == rows.len(),
        forall|a: int|
            0 <= a < rows.len() && sel(rows[a]) ==> 0 <= #[trigger] slot[a] < input.len() && src[slot[a]] == a,
        res.len() == input.len(),
        forall|k: int| 0 <= k < res.len() ==> items_of(input).contains(#[trigger] res[k]),
        forall|j: int| 0 <= j < input.len() ==> res.contains(#[trigger] input[j].item),
        forall|k1: int, k2: int| 0 <= k1 < k2 < res.len() ==> #[trigger] res[k1].id != #[trigger] res[k2].id,
    ensures
        lists_apps(res, rows, sel, cnt),
{
    assert(forall|j: int| 0 <= j < input.len() ==> 0 <= #[trigger] src[j] < rows.len() && sel(rows[src[j]])
        && shows_app(input[j].item, rows[src[j]], cnt(rows[src[j]])));
    assert forall|k: int| 0 <= k < res.len() implies shows_picked_row(#[trigger] res[k], rows, sel, cnt) by {
        assert(items_of(input).contains(res[k]));
        let j = choose|j: int| 0 <= j < items_of(input).len() && items_of(input)[j] == res[k];
        assert(input[j].item == res[k]);
        let w = src[j];
        assert(0 <= w < rows.len() && sel(rows[w]) && shows_app(res[k], rows[w], cnt(rows[w])));
    }
    assert forall|a: int| 0 <= a < rows.len() && sel(rows[a]) implies row_shown(#[trigger] rows[a], res, cnt(rows[a])) by {
        let j = slot[a];
        assert(src[j] == a);
        assert(shows_app(input[j].item, rows[a], cnt(rows[a])));
        assert(res.contains(input[j].item));
        let k = choose|k: int| 0 <= k < res.len() && res[k] == input[j].item;
        assert(shows_app(res[k], rows[a], cnt(rows[a])));
    }
}

/// Each entry of `items` shows the row `src[j]` (a row below `i` that
/// `sel` picks) with its count and a consistent key, and the rows come in
/// increasing order.
pub open spec fn picks_rows(
    items: Seq<Keyed<App>>,
    src: Seq<int>,
    rows: Seq<AppRec>,
    sel: spec_fn(AppRec) -> bool,
    cnt: spec_fn(AppRec) -> int,
    by_count: bool,
    i: int,
) -> bool {
    &&& src.len() == items.len()
    &&& forall|j: int|
        0 <= j < items.len() ==> {
            &&& 0 <= #[trigger] src[j] < i
            &&& sel(rows[src[j]])
            &&& shows_app(items[j].item, rows[src[j]], cnt(rows[src[j]]))
            &&& app_key_ok(items[j], by_count)
        }
    &&& forall|j1: int, j2: int| 0 <= j1 < j2 < items.len() ==> #[trigger] src[j1] < #[trigger] src[j2]
}

proof fn lemma_picks_push(
    before: Seq<Keyed<App>>,
    after: Seq<Keyed<App>>,
    src: Seq<int>,
    rows: Seq<AppRec>,
    sel: spec_fn(AppRec) -> bool,
    cnt: spec_fn(AppRec) -> int,
    by_count: bool,
    i: int,
)
    requires
        picks_rows(before, src, rows, sel, cnt, by_count, i),
        0 <= i < rows.len(),
        after.len() == before.len() + 1,
        forall|j: int| 0 <= j < before.len() ==> after[j] == before[j],
        sel(rows[i]),
        shows_app(after[before.len() as int].item, rows[i], cnt(rows[i])),
        app_key_ok(after[before.len() as int], by_count),
    ensures
        picks_rows(after, src.push(i), rows, sel, cnt, by_count, i + 1),
{
    let s2 = src.push(i);
    assert forall|j: int| 0 <= j < after.len() implies {
        &&& 0 <= #[trigger] s2[j] < i + 1
        &&& sel(rows[s2[j]])
        &&& shows_app(after[j].item, rows[s2[j]], cnt(rows[s2[j]]))
        &&& app_key_ok(after[j], by_count)
    } by {
        if j < before.len() {
            assert(s2[j] == src[j]);
        }
    }
    assert forall|j1: int, j2: int| 0 <= j1 < j2 < after.len() implies #[trigger] s2[j1] < #[trigger] s2[j2] by {
        assert(s2[j1] == src[j1]);
        if j2 < before.len() {
            assert(s2[j2] == src[j2]);
        }
    }
}

proof fn lemma_picks_distinct(
    items: Seq<Keyed<App>>,
    src: Seq<int>,
    v: DbView,
    sel: spec_fn(AppRec) -> bool,
    cnt: spec_fn(AppRec) -> int,
    by_count: bool,
    i: int,
)
    requires
        v.wf(),
        i <= v.apps.len(),
        picks_rows(items, src, v.apps, sel, cnt, by_count, i),
    ensures
        forall|j1: int, j2: int|
            0 <= j1 < j2 < items.len() ==> #[trigger] items[j1].item.id != #[trigger] items[j2].item.id,
{
    assert forall|j1: int, j2: int| 0 <= j1 < j2 < items.len() implies #[trigger] items[j1].item.id
        != #[trigger] items[j2].item.id by {
        assert(src[j1] < src[j2]);
        assert(v.apps[src[j1]].id != v.apps[src[j2]].id);
    }
}

/// Whether the query orders by count first.
fn by_count_of(q: &AppQuery) -> (r: bool)
    ensures
        r == q.by_count(),
{
    match q {
        AppQuery::Named(_) => false,
        AppQuery::Opening(_) => false,
        AppQuery::CandidatesFor(_) => true,
        AppQuery::OpeningAll(_, _) => true,
    }
}

/// The key of an extension entry is the binary key of its extension.
pub open spec fn ext_key_ok<T>(x: Keyed<T>, key: spec_fn(T) -> Seq<char>) -> bool {
    x.key.rank == 0 && x.key.text@ == binary_key(key(x.item))
}

/// Each entry shows the extension row `src[j]` (a row below `i` that `sel`
/// picks), keyed by that row's extension, and the rows come in increasing
/// order.
pub open spec fn picks_ext_rows<T>(
    items: Seq<Keyed<T>>,
    src: Seq<int>,
    rows: Seq<ExtRec>,
    sel: spec_fn(ExtRec) -> bool,
    shows: spec_fn(T, ExtRec) -> bool,
    key: spec_fn(T) -> Seq<char>,
    i: int,
) -> bool {
    &&& src.len() == items.len()
    &&& forall|j: int|
        0 <= j < items.len() ==> {
            &&& 0 <= #[trigger] src[j] < i
            &&& sel(rows[src[j]])
            &&& shows(items[j].item, rows[src[j]])
            &&& key(items[j].item) == rows[src[j]].ext
            &&& ext_key_ok(items[j], key)
        }
    &&& forall|j1: int, j2: int| 0 <= j1 < j2 < items.len() ==> #[trigger] src[j1] < #[trigger] src[j2]
}

proof fn lemma_ext_picks_push<T>(
    before: Seq<Keyed<T>>,
    after: Seq<Keyed<T>>,
    src: Seq<int>,
    rows: Seq<ExtRec>,
    sel: spec_fn(ExtRec) -> bool,
    shows: spec_fn(T, ExtRec) -> bool,
    key: spec_fn(T) -> Seq<char>,
    i: int,
)
    requires
        picks_ext_rows(before, src, rows, sel, shows, key, i),
        0 <= i < rows.len(),
        after.len() == before.len() + 1,
        forall|j: int| 0 <= j < before.len() ==> after[j] == before[j],
        sel(rows[i]),
        shows(after[before.len() as int].item, rows[i]),
        key(after[before.len() as int].item) == rows[i].ext,
        ext_key_ok(after[before.len() as int], key),
    ensures
        picks_ext_rows(after, src.push(i), rows, sel, shows, key, i + 1),
{
    let s2 = src.push(i);
    assert forall|j: int| 0 <= j < after.len() implies {
        &&& 0 <= #[trigger] s2[j] < i + 1
        &&& sel(rows[s2[j]])
        &&& shows(after[j].item, rows[s2[j]])
        &&& key(after[j].item) == rows[s2[j]].ext
        &&& ext_key_ok(after[j], key)
    } by {
        if j < before.len() {
            assert(s2[j] == src[j]);
        }
    }
    assert forall|j1: int, j2: int| 0 <= j1 < j2 < after.len() implies #[trigger] s2[j1] < #[trigger] s2[j2] by {
        assert(s2[j1] == src[j1]);
        if j2 < before.len() {
            assert(s2[j2] == src[j2]);
        }
    }
}

proof fn lemma_code_point_injective(x: char, y: char)
    requires
        (x as u32) == (y as u32),
    ensures
        x == y,
{
}

proof fn lemma_binary_key_injective(a: Seq<char>, b: Seq<char>)
    requires
        binary_key(a) == binary_key(b),
    ensures
        a == b,
{
    assert(a.len() == binary_key(a).len());
    assert(b.len() == binary_key(b).len());
    assert forall|i: int| 0 <= i < a.len() implies a[i] == b[i] by {
        assert(binary_key(a)[i] == binary_key(b)[i]);
        assert(binary_key(a)[i] == a[i] as u32);
        assert(binary_key(b)[i] == b[i] as u32);
        lemma_code_point_injective(a[i], b[i]);
    }
    assert(a =~= b);
}

proof fn lemma_ext_picks_listed<T>(
    res: Seq<T>,
    input: Seq<Keyed<T>>,
    order: Seq<Keyed<T>>,
    src: Seq<int>,
    slot: Seq<int>,
    v: DbView,
    sel: spec_fn(ExtRec) -> bool,
    shows: spec_fn(T, ExtRec) -> bool,
    key: spec_fn(T) -> Seq<char>,
)
    requires
        v.wf(),
        picks_ext_rows(input, src, v.exts, sel, shows, key, v.exts.len() as int),
        input.len() == count_where(v.exts, sel),
        slot.len() == v.exts.len(),
        forall|a: int|
            0 <= a < v.exts.len() && sel(v.exts[a]) ==> 0 <= #[trigger] slot[a] < input.len() && src[slot[a]] == a,
        input.to_multiset() == order.to_multiset(),
        order.len() == input.len(),
        keys_sorted(order),
        res == items_of(order),
    ensures
        lists_exts(res, v.exts, sel, shows, key),
{
    let rows = v.exts;
    lemma_items_listed(input, order, res);
    assert(input.no_duplicates()) by {
        assert forall|a: int, b: int|
            0 <= a < input.len() && 0 <= b < input.len() && a != b implies input[a] != input[b] by {
            if a < b {
                assert(src[a] < src[b]);
            } else {
                assert(src[b] < src[a]);
            }
            assert(rows[src[a]].ext != rows[src[b]].ext) by {
                if src[a] < src[b] {
                    assert(rows[src[a]].ext != rows[src[b]].ext);
                } else {
                    assert(rows[src[b]].ext != rows[src[a]].ext);
                }
            }
        }
    }
    lemma_same_items(input, order);
    assert forall|k: int| 0 <= k < res.len() implies shows_picked_ext(#[trigger] res[k], rows, sel, shows) by {
        assert(items_of(input).contains(res[k]));
        let j = choose|j: int| 0 <= j < items_of(input).len() && items_of(input)[j] == res[k];
        assert(input[j].item == res[k]);
        let w = src[j];
        assert(0 <= w < rows.len() && sel(rows[w]) && shows(res[k], rows[w]));
    }
    assert forall|a: int| 0 <= a < rows.len() && sel(rows[a]) implies ext_shown(#[trigger] rows[a], res, shows) by {
        let j = slot[a];
        assert(src[j] == a);
        assert(shows(input[j].item, rows[a]));
        assert(res.contains(input[j].item));
        let k = choose|k: int| 0 <= k < res.len() && res[k] == input[j].item;
        assert(shows(res[k], rows[a]));
    }
    assert forall|k1: int, k2: int| 0 <= k1 < k2 < res.len() implies seq_lt(
        binary_key(key(#[trigger] res[k1])),
        binary_key(key(#[trigger] res[k2])),
    ) by {
        assert(!key_lt(order[k2].key, order[k1].key));
        assert(input.contains(order[k1]));
        assert(input.contains(order[k2]));
        let a = choose|a: int| 0 <= a < input.len() && input[a] == order[k1];
        let b = choose|b: int| 0 <= b < input.len() && input[b] == order[k2];
        assert(res[k1] == order[k1].item && res[k2] == order[k2].item);
        assert(a != b);
        assert(key(input[a].item) != key(input[b].item)) by {
            if a < b {
                assert(src[a] < src[b]);
                assert(rows[src[a]].ext != rows[src[b]].ext);
            } else {
                assert(src[b] < src[a]);
                assert(rows[src[b]].ext != rows[src[a]].ext);
            }
        }
        let ka = binary_key(key(res[k1]));
        let kb = binary_key(key(res[k2]));
        lemma_seq_lt_total(ka, kb);
        if ka == kb {
            lemma_binary_key_injective(key(res[k1]), key(res[k2]));
        }
    }
}

/// Orders extension entries by extension and hands out the items.
fn finish_exts<T>(
    items: Vec<Keyed<T>>,
    Ghost(src): Ghost<Seq<int>>,
    Ghost(slot): Ghost<Seq<int>>,
    Ghost(v): Ghost<DbView>,
    Ghost(sel): Ghost<spec_fn(ExtRec) -> bool>,
    Ghost(shows): Ghost<spec_fn(T, ExtRec) -> bool>,
    Ghost(key): Ghost<spec_fn(T) -> Seq<char>>,
) -> (res: Vec<T>)
    requires
        v.wf(),
        picks_ext_rows(items@, src, v.exts, sel, shows, key, v.exts.len() as int),
        items@.len() == count_where(v.exts, sel),
        slot.len() == v.exts.len(),
        forall|a: int|
            0 <= a < v.exts.len() && sel(v.exts[a]) ==> 0 <= #[trigger] slot[a] < items@.len() && src[slot[a]] == a,
    ensures
        lists_exts(res@, v.exts, sel, shows, key),
{
    let ghost input = items@;
    let (res, Ghost(order)) = sort_items(items);
    proof {
        lemma_ext_picks_listed(res@, input, order, src, slot, v, sel, shows, key);
    }
    res
}

impl Tables {
    /// The name of application `id`, if it exists.
    pub fn app_name_of(&self, id: Option<i64>) -> (r: Option<String>)
        ensures
            opt_text(r) == self.view().app_name(id),
    {
        match id {
            None => None,
            Some(x) => {
                let ghost v = self.view();
                let mut i: usize = 0;
                while i < self.apps.len()
                    invariant
                        v == self.view(),
                        id == Some(x),
                        i <= self.apps.len(),
                        forall|j: int| 0 <= j < i ==> !app_with_id(x)(#[trigger] v.apps[j]),
                    decreases self.apps.len() - i,
                {
                    if self.apps[i].id == x {
                        proof {
                            lemma_first_index_is(v.apps, app_with_id(x), i as int);
                            assert(v.apps[i as int].name == self.apps@[i as int].name@);
                        }
                        let n = self.apps[i].name.clone();
                        proof {
                            assert(first_index(v.apps, app_with_id(x)) == i);
                            assert(v.app_name(id) == Some(v.apps[i as int].name));
                            assert(opt_text(Some(n)) == Some(n@));
                        }
                        return Some(n);
                    }
                    i = i + 1;
                }
                proof {
                    lemma_first_index_is(v.apps, app_with_id(x), -1);
                }
                None
            },
        }
    }

    /// The number of applications other than `source` that can open `ext`.
    pub fn count_targets(&self, ext: &String, source: i64) -> (c: i64)
        requires
            self.view().wf(),
        ensures
            c == self.view().target_count(ext@, source),
    {
        let ghost v = self.view();
        let mut c: i64 = 0;
        let mut i: usize = 0;
        while i < self.links.len()
            invariant
                v == self.view(),
                v.wf(),
                i <= self.links.len(),
                c == count_where(v.links.take(i as int), other_handler(ext@, source)),
            decreases self.links.len() - i,
        {
            proof {
                lemma_count_step(v.links, other_handler(ext@, source), i as int);
                lemma_count_bound(v.links.take(i + 1), other_handler(ext@, source));
                assert(v.links[i as int] == self.links@[i as int]@);
            }
            if self.links[i].app_id != source && self.links[i].ext == *ext {
                c = c + 1;
            }
            i = i + 1;
        }
        proof {
            assert(v.links.take(i as int) =~= v.links);
        }
        c
    }

    /// The extensions defaulted to `app_id` (all of them for `None`), by extension.
    pub fn list_extensions(&self, app_id: Option<i64>) -> (res: Vec<Extension>)
        requires
            self.view().wf(),
        ensures
            lists_exts(res@, self.view().exts, for_default(app_id), shows_extension(self.view()), extension_text()),
    {
        let ghost v = self.view();
        let ghost sel = for_default(app_id);
        let ghost shows = shows_extension(self.view());
        let ghost key = extension_text();
        let mut items: Vec<Keyed<Extension>> = Vec::new();
        let ghost mut src: Seq<int> = Seq::empty();
        let ghost mut slot: Seq<int> = Seq::empty();
        let mut i: usize = 0;
        while i < self.exts.len()
            invariant
                v == self.view(),
                v.wf(),
                sel == for_default(app_id),
                shows == shows_extension(self.view()),
                key == extension_text(),
                i <= self.exts.len(),
                items@.len() == count_where(v.exts.take(i as int), sel),
                picks_ext_rows(items@, src, v.exts, sel, shows, key, i as int),
                slot.len() == i,
                forall|a: int|
                    0 <= a < i && sel(v.exts[a]) ==> 0 <= #[trigger] slot[a] < items@.len() && src[slot[a]] == a,
            decreases self.exts.len() - i,
        {
            let row = &self.exts[i];
            proof {
                lemma_count_step(v.exts, sel, i as int);
                assert(v.exts[i as int] == row@);
            }
            if app_id.is_none() || row.default_app_id == app_id {
                let item = Extension {
                    ext: row.ext.clone(),
                    description: row.description.clone(),
                    default_app_id: row.default_app_id,
                    default_app_name: self.app_name_of(row.default_app_id),
                };
                let text = key_of(row.ext.as_str(), false);
                let ghost before = items@;
                items.push(Keyed { key: SortKey { rank: 0, text }, item });
                proof {
                    lemma_ext_picks_push(before, items@, src, v.exts, sel, shows, key, i as int);
                    src = src.push(i as int);
                    slot = slot.push(before.len() as int);
                }
            } else {
                proof {
                    slot = slot.push(-1);
                }
            }
            i = i + 1;
        }
        proof {
            assert(v.exts.take(i as int) =~= v.exts);
        }
        finish_exts(items, Ghost(src), Ghost(slot), Ghost(v), Ghost(sel), Ghost(shows), Ghost(key))
    }
    /// The extensions defaulted to `source` that `target` can open, by extension.
    pub fn list_eligible(&self, source: i64, target: i64) -> (res: Vec<String>)
        requires
            self.view().wf(),
        ensures
            lists_exts(res@, self.view().exts, eligible_for(self.view(), source, target), shows_ext_name(), string_text()),
    {
        let ghost v = self.view();
        let ghost sel = eligible_for(self.view(), source, target);
        let ghost shows = shows_ext_name();
        let ghost key = string_text();
        let mut items: Vec<Keyed<String>> = Vec::new();
        let ghost mut src: Seq<int> = Seq::empty();
        let ghost mut slot: Seq<int> = Seq::empty();
        let mut i: usize = 0;
        while i < self.exts.len()
            invariant
                v == self.view(),
                v.wf(),
                sel == eligible_for(self.view(), source, target),
                shows == shows_ext_name(),
                key == string_text(),
                i <= self.exts.len(),
                items@.len() == count_where(v.exts.take(i as int), sel),
                picks_ext_rows(items@, src, v.exts, sel, shows, key, i as int),
                slot.len() == i,
                forall|a: int|
                    0 <= a < i && sel(v.exts[a]) ==> 0 <= #[trigger] slot[a] < items@.len() && src[slot[a]] == a,
            decreases self.exts.len() - i,
        {
            let row = &self.exts[i];
            proof {
                lemma_count_step(v.exts, sel, i as int);
                assert(v.exts[i as int] == row@);
            }
            if row.default_app_id == Some(source) && self.contains_link(&row.ext, target) {
                let item = row.ext.clone();
                let text = key_of(row.ext.as_str(), false);
                let ghost before = items@;
                items.push(Keyed { key: SortKey { rank: 0, text }, item });
                proof {
                    lemma_ext_picks_push(before, items@, src, v.exts, sel, shows, key, i as int);
                    src = src.push(i as int);
                    slot = slot.push(before.len() as int);
                }
            } else {
                proof {
                    slot = slot.push(-1);
                }
            }
            i = i + 1;
        }
        proof {
            assert(v.exts.take(i as int) =~= v.exts);
        }
        finish_exts(items, Ghost(src), Ghost(slot), Ghost(v), Ghost(sel), Ghost(shows), Ghost(key))
    }
    /// Each extension defaulted to `source`, with its number of other handlers, by extension.
    pub fn list_target_counts(&self, source: i64) -> (res: Vec<(String, i64)>)
        requires
            self.view().wf(),
        ensures
            lists_exts(res@, self.view().exts, defaulted_to(source), shows_target_count(self.view(), source), pair_text()),
    {
        let ghost v = self.view();
        let ghost sel = defaulted_to(source);
        let ghost shows = shows_target_count(self.view(), source);
        let ghost key = pair_text();
        let mut items: Vec<Keyed<(String, i64)>> = Vec::new();
        let ghost mut src: Seq<int> = Seq::empty();
        let ghost mut slot: Seq<int> = Seq::empty();
        let mut i: usize = 0;
        while i < self.exts.len()
            invariant
                v == self.view(),
                v.wf(),
                sel == defaulted_to(source),
                shows == shows_target_count(self.view(), source),
                key == pair_text(),
                i <= self.exts.len(),
                items@.len() == count_where(v.exts.take(i as int), sel),
                picks_ext_rows(items@, src, v.exts, sel, shows, key, i as int),
                slot.len() == i,
                forall|a: int|
                    0 <= a < i && sel(v.exts[a]) ==> 0 <= #[trigger] slot[a] < items@.len() && src[slot[a]] == a,
            decreases self.exts.len() - i,
        {
            let row = &self.exts[i];
            proof {
                lemma_count_step(v.exts, sel, i as int);
                assert(v.exts[i as int] == row@);
            }
            if row.default_app_id == Some(source) {
                let item = (row.ext.clone(), self.count_targets(&row.ext, source));
                let text = key_of(row.ext.as_str(), false);
                let ghost before = items@;
                items.push(Keyed { key: SortKey { rank: 0, text }, item });
                proof {
                    lemma_ext_picks_push(before, items@, src, v.exts, sel, shows, key, i as int);
                    src = src.push(i as int);
                    slot = slot.push(before.len() as int);
                }
            } else {
                proof {
                    slot = slot.push(-1);
                }
            }
            i = i + 1;
        }
        proof {
            assert(v.exts.take(i as int) =~= v.exts);
        }
        finish_exts(items, Ghost(src), Ghost(slot), Ghost(v), Ghost(sel), Ghost(shows), Ghost(key))
    }
}

} // verus!
