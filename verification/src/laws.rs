//! What holds of the catalogue across operations.

use vstd::prelude::*;
use crate::model::{
    app_named, count_where, defaulted_to, eligible_for, first_index, for_default, handled_in,
    keeps_link, lemma_filter_facts, lemma_first_index, name_filter, shared_with, AppRec, DbError,
    DbView, ExtRec, LinkRec, other_handler,
};
use crate::plist::{as_items, lookup, strings_in, PlistValue, UtiExtensions};
use crate::sums::{lemma_sum_ext, sum_to};
use crate::scan::{
    apply_assocs, apply_handlers, apply_report, associations, bundle_name, firsts,
    lemma_apply_assocs_wf, opt_pair_text, pair_texts, process_outcome, LsReport, doc_assocs, doc_exts,
    doc_types_named, lowercase_of, lowered, planned, resolved, table_exts, usable, with_description,
    doc_description,
};
use crate::rows::App;
use crate::model::{exclude_counts, apps_in_order, default_counts, lists_apps, lists_exts, shows_ext_name, string_text, texts};
use crate::text::{lemma_seq_lt_total, like_contains, like_match, nocase_key};

verus! {

/// Adding an application and reading the table back: after
/// `upsert_app(name, path)` answers `id`, the catalogue holds the
/// application `id` called `name` at `path`, and it is the only one of
/// that name.
pub proof fn law_upsert_app_read_back(v: DbView, name: Seq<char>, path: Seq<char>)
    requires
        v.wf(),
    ensures
        v.upsert_app(name, path) matches Ok((w, id)) ==> exists|i: int|
            0 <= i < w.apps.len() && #[trigger] w.apps[i] == (AppRec { id, name, path }),
{
    lemma_first_index(v.apps, app_named(name));
    let i = first_index(v.apps, app_named(name));
    if let Ok((w, id)) = v.upsert_app(name, path) {
        if i >= 0 {
            assert(w.apps[i] == (AppRec { id, name, path }));
        } else {
            assert(w.apps[v.apps.len() as int] == (AppRec { id, name, path }));
        }
    }
}

/// Upserting the same name twice keeps the application's identifier.
pub proof fn law_upsert_app_keeps_id(v: DbView, name: Seq<char>, p1: Seq<char>, p2: Seq<char>)
    requires
        v.wf(),
    ensures
        v.upsert_app(name, p1) matches Ok((w, id1)) ==> (w.upsert_app(name, p2) matches Ok((w2, id2))
            ==> id1 == id2),
{
    v.lemma_upsert_app_wf(name, p1);
    lemma_first_index(v.apps, app_named(name));
    if let Ok((w, id1)) = v.upsert_app(name, p1) {
        lemma_first_index(w.apps, app_named(name));
        let i = first_index(v.apps, app_named(name));
        let j = first_index(w.apps, app_named(name));
        if i >= 0 {
            assert(w.apps[i].name == name);
            if j < 0 {
                assert(!app_named(name)(w.apps[i]));
            } else if j != i {
                if j < i {
                    assert(w.apps[j].name == w.apps[i].name);
                } else {
                    assert(!app_named(name)(w.apps[i]));
                }
            }
        } else {
            let n = v.apps.len() as int;
            assert(w.apps[n].name == name);
            if j < 0 {
                assert(!app_named(name)(w.apps[n]));
            } else if j != n {
                assert(w.apps[j] == v.apps[j]);
                assert(!app_named(name)(v.apps[j]));
            }
        }
    }
}

/// Every element satisfies `p`: filtering keeps the whole sequence.
proof fn lemma_filter_all<A>(s: Seq<A>, p: spec_fn(A) -> bool)
    requires
        forall|i: int| 0 <= i < s.len() ==> p(#[trigger] s[i]),
    ensures
        s.filter(p) == s,
    decreases s.len(),
{
    reveal(Seq::filter);
    if s.len() > 0 {
        let d = s.drop_last();
        assert forall|i: int| 0 <= i < d.len() implies p(#[trigger] d[i]) by {
            assert(d[i] == s[i]);
        }
        lemma_filter_all(d, p);
        assert(p(s[s.len() - 1]));
        assert(s.filter(p) =~= s);
    }
}

/// Counting a predicate that holds everywhere gives the length; one that
/// holds nowhere gives zero.
proof fn lemma_count_all_or_none<A>(s: Seq<A>, p: spec_fn(A) -> bool)
    ensures
        (forall|i: int| 0 <= i < s.len() ==> p(#[trigger] s[i])) ==> count_where(s, p) == s.len(),
        (forall|i: int| 0 <= i < s.len() ==> !p(#[trigger] s[i])) ==> count_where(s, p) == 0,
    decreases s.len(),
{
    if s.len() > 0 {
        let d = s.drop_last();
        lemma_count_all_or_none(d, p);
        if forall|i: int| 0 <= i < s.len() ==> p(#[trigger] s[i]) {
            assert forall|i: int| 0 <= i < d.len() implies p(#[trigger] d[i]) by {
                assert(d[i] == s[i]);
            }
            assert(p(s[s.len() - 1]));
        }
        if forall|i: int| 0 <= i < s.len() ==> !p(#[trigger] s[i]) {
            assert forall|i: int| 0 <= i < d.len() implies !p(#[trigger] d[i]) by {
                assert(d[i] == s[i]);
            }
            assert(!p(s[s.len() - 1]));
        }
    }
}

/// Recording that an application opens an extension and reading it back:
/// when `upsert_ext_app(ext, id, d)` succeeds, `ext` is catalogued and
/// application `id` can open it; while neither table is full it succeeds
/// exactly when application `id` exists.
pub proof fn law_upsert_ext_app_read_back(v: DbView, ext: Seq<char>, id: i64, d: Seq<char>)
    requires
        v.wf(),
    ensures
        v.upsert_ext_app(ext, id, d).1 is Ok ==> v.upsert_ext_app(ext, id, d).0.has_ext(ext)
            && v.upsert_ext_app(ext, id, d).0.has_link(ext, id),
        v.exts.len() < i64::MAX && v.links.len() < i64::MAX ==> (v.upsert_ext_app(ext, id, d).1 is Ok
            <==> v.has_app(id)),
{
    v.lemma_upsert_ext_app_wf(ext, id, d);
    v.lemma_insert_ext_wf(ext, d);
    let (w, r) = v.upsert_ext_app(ext, id, d);
    if r is Ok {
        let k = choose|k: int|
            0 <= k < w.links.len() && #[trigger] w.links[k].ext == ext && w.links[k].app_id == id;
        assert(w.has_ext(w.links[k].ext));
    }
    let (u, r0) = v.insert_ext(ext, d);
    u.lemma_apps_frame(v);
    if v.exts.len() < i64::MAX && v.links.len() < i64::MAX {
        assert(r0 is Ok);
        if u.has_link(ext, id) {
            let k = choose|k: int|
                0 <= k < u.links.len() && #[trigger] u.links[k].ext == ext && u.links[k].app_id == id;
            assert(u.has_app(u.links[k].app_id));
        }
    }
}

/// Recording the same pair a second time changes nothing, whatever
/// description comes with it (unless the first time filled a table to its
/// last slot).
pub proof fn law_upsert_ext_app_idempotent(v: DbView, ext: Seq<char>, id: i64, d1: Seq<char>, d2: Seq<char>)
    requires
        v.wf(),
        (if v.has_ext(ext) {
            v.exts.len()
        } else {
            v.exts.len() + 1
        }) < i64::MAX,
        (if v.has_link(ext, id) {
            v.links.len()
        } else {
            v.links.len() + 1
        }) < i64::MAX,
    ensures
        v.upsert_ext_app(ext, id, d1).1 is Ok ==> v.upsert_ext_app(ext, id, d1).0.upsert_ext_app(ext, id, d2)
            == (v.upsert_ext_app(ext, id, d1).0, Ok::<(), DbError>(())),
{
    law_upsert_ext_app_read_back(v, ext, id, d1);
}

/// Choosing a default and reading it back: for a catalogued extension,
/// `set_default_app(ext, id)` succeeds exactly when application `id`
/// exists, and then `ext` has default `id` while every other extension
/// keeps its own and nothing else changes; for an extension that is not
/// catalogued it changes nothing.
pub proof fn law_set_default_read_back(v: DbView, ext: Seq<char>, id: i64)
    requires
        v.wf(),
    ensures
        !v.has_ext(ext) ==> v.set_default_app(ext, id) == Ok::<DbView, DbError>(v),
        v.has_ext(ext) ==> (v.set_default_app(ext, id) is Ok <==> v.has_app(id)),
        v.set_default_app(ext, id) matches Ok(w) ==> {
            &&& w.apps == v.apps
            &&& w.links == v.links
            &&& w.last_id == v.last_id
            &&& w.exts.len() == v.exts.len()
            &&& forall|k: int|
                0 <= k < v.exts.len() ==> #[trigger] w.exts[k] == (ExtRec {
                    default_app_id: if v.exts[k].ext == ext {
                        Some(id)
                    } else {
                        v.exts[k].default_app_id
                    },
                    ..v.exts[k]
                })
        },
{
    lemma_first_index(v.exts, crate::model::ext_named(ext));
    let i = first_index(v.exts, crate::model::ext_named(ext));
    if i >= 0 {
        assert(v.has_ext(ext)) by {
            assert(v.exts[i].ext == ext);
        }
        if let Ok(w) = v.set_default_app(ext, id) {
            assert forall|k: int| 0 <= k < v.exts.len() implies #[trigger] w.exts[k] == (ExtRec {
                default_app_id: if v.exts[k].ext == ext {
                    Some(id)
                } else {
                    v.exts[k].default_app_id
                },
                ..v.exts[k]
            }) by {
                if k != i && v.exts[k].ext == ext {
                    v.lemma_ext_index_unique(i, k);
                }
            }
        }
    } else if v.has_ext(ext) {
        let k = choose|k: int| 0 <= k < v.exts.len() && #[trigger] v.exts[k].ext == ext;
        assert(!crate::model::ext_named(ext)(v.exts[k]));
    }
}

/// Forgetting stale pairs: afterwards application `app_id` opens exactly
/// the extensions of `keep` that it opened before, every other application
/// opens what it did, nothing else changes, and forgetting again changes
/// nothing.
pub proof fn law_remove_stale(v: DbView, app_id: i64, keep: Seq<Seq<char>>)
    requires
        v.wf(),
    ensures
        v.remove_stale(app_id, keep).apps == v.apps,
        v.remove_stale(app_id, keep).exts == v.exts,
        v.remove_stale(app_id, keep).last_id == v.last_id,
        forall|e: Seq<char>| #[trigger] v.remove_stale(app_id, keep).has_link(e, app_id) <==> v.has_link(e, app_id)
            && keep.contains(e),
        forall|e: Seq<char>, a: i64|
            a != app_id ==> (#[trigger] v.remove_stale(app_id, keep).has_link(e, a) <==> v.has_link(e, a)),
        v.remove_stale(app_id, keep).remove_stale(app_id, keep) == v.remove_stale(app_id, keep),
{
    let p = keeps_link(app_id, keep);
    let w = v.remove_stale(app_id, keep);
    lemma_filter_facts(v.links, p);
    assert forall|e: Seq<char>, a: i64| #[trigger] w.has_link(e, a) implies v.has_link(e, a) && (a == app_id
        ==> keep.contains(e)) by {
        let k = choose|k: int| 0 <= k < w.links.len() && #[trigger] w.links[k].ext == e && w.links[k].app_id == a;
        assert(v.links.contains(w.links[k]) && p(w.links[k]));
        let m = choose|m: int| 0 <= m < v.links.len() && v.links[m] == w.links[k];
        assert(v.links[m].ext == e);
    }
    assert forall|e: Seq<char>, a: i64| v.has_link(e, a) && (a == app_id ==> keep.contains(e)) implies #[trigger] w.has_link(e, a) by {
        let m = choose|m: int| 0 <= m < v.links.len() && #[trigger] v.links[m].ext == e && v.links[m].app_id == a;
        assert(p(v.links[m]));
        assert(w.links.contains(v.links[m]));
        let k = choose|k: int| 0 <= k < w.links.len() && w.links[k] == v.links[m];
        assert(w.links[k].ext == e);
    }
    assert forall|i: int| 0 <= i < w.links.len() implies p(#[trigger] w.links[i]) by {}
    lemma_filter_all(w.links, p);
}

/// Dropping orphans: afterwards every extension left can be opened by some
/// application, every extension that could be opened stays, nothing else
/// changes, and dropping again changes nothing.
pub proof fn law_cleanup_orphans(v: DbView)
    requires
        v.wf(),
    ensures
        v.cleanup_orphans().apps == v.apps,
        v.cleanup_orphans().links == v.links,
        v.cleanup_orphans().last_id == v.last_id,
        forall|k: int|
            0 <= k < v.cleanup_orphans().exts.len() ==> v.cleanup_orphans().ext_has_handler(
                #[trigger] v.cleanup_orphans().exts[k].ext,
            ),
        forall|k: int|
            0 <= k < v.exts.len() && v.ext_has_handler(#[trigger] v.exts[k].ext) ==> v.cleanup_orphans().has_ext(
                v.exts[k].ext,
            ),
        v.cleanup_orphans().cleanup_orphans() == v.cleanup_orphans(),
{
    let p = handled_in(v.links);
    let w = v.cleanup_orphans();
    lemma_filter_facts(v.exts, p);
    assert forall|k: int| 0 <= k < w.exts.len() implies w.ext_has_handler(#[trigger] w.exts[k].ext) by {
        assert(p(w.exts[k]));
        let j = choose|j: int| 0 <= j < v.links.len() && #[trigger] v.links[j].ext == w.exts[k].ext;
        assert(w.links[j].ext == w.exts[k].ext);
    }
    assert forall|k: int| 0 <= k < v.exts.len() && v.ext_has_handler(#[trigger] v.exts[k].ext) implies w.has_ext(
        v.exts[k].ext,
    ) by {
        let j = choose|j: int| 0 <= j < v.links.len() && #[trigger] v.links[j].ext == v.exts[k].ext;
        assert(p(v.exts[k]));
        assert(w.exts.contains(v.exts[k]));
        let m = choose|m: int| 0 <= m < w.exts.len() && w.exts[m] == v.exts[k];
        assert(w.exts[m].ext == v.exts[k].ext);
    }
    assert forall|i: int| 0 <= i < w.exts.len() implies handled_in(w.links)(#[trigger] w.exts[i]) by {
        assert(p(w.exts[i]));
    }
    lemma_filter_all(w.exts, handled_in(w.links));
}

/// The count the application list shows for `id` is the length of the
/// extension list of `id`: both count the extensions defaulted to it.
pub proof fn law_default_count_is_listing(v: DbView, id: i64)
    ensures
        v.default_count(id) == count_where(v.exts, for_default(Some(id))),
{
    assert(for_default(Some(id)) =~= defaulted_to(id));
}

/// The count the candidate list shows for `target` is the length of the
/// list of extensions eligible to move from `source` to `target`.
pub proof fn law_overlap_is_eligible(v: DbView, source: i64, target: i64)
    ensures
        v.overlap_count(source, target) == count_where(v.exts, eligible_for(v, source, target)),
{
    assert(shared_with(v, source, target) =~= eligible_for(v, source, target));
}

/// `%` matches every text.
proof fn lemma_percent_matches(s: Seq<char>)
    ensures
        like_match(seq!['%'], s),
    decreases s.len(),
{
    let p = seq!['%'];
    assert(p.len() == 1 && p[0] == '%');
    assert(p.drop_first() =~= Seq::<char>::empty());
    if s.len() > 0 {
        lemma_percent_matches(s.drop_first());
    } else {
        assert(like_match(p.drop_first(), s));
    }
}

/// Without a filter, and with the empty filter, the application list holds
/// every application: as many as the summary counts.
pub proof fn law_unfiltered_lists_all(v: DbView)
    ensures
        count_where(v.apps, name_filter(None)) == v.apps.len(),
        count_where(v.apps, name_filter(Some(Seq::empty()))) == v.apps.len(),
{
    lemma_count_all_or_none(v.apps, name_filter(None));
    assert forall|i: int| 0 <= i < v.apps.len() implies name_filter(Some(Seq::empty()))(#[trigger] v.apps[i]) by {
        let p = seq!['%'] + Seq::<char>::empty() + seq!['%'];
        assert(p =~= seq!['%', '%']);
        assert(p.drop_first() =~= seq!['%']);
        lemma_percent_matches(v.apps[i].name);
        assert(like_contains(Seq::empty(), v.apps[i].name));
    }
    lemma_count_all_or_none(v.apps, name_filter(Some(Seq::empty())));
}


/// `w` is `v` with each catalogued extension among `exts` defaulted to
/// `target`, every other row as it was.
pub open spec fn moved_to(v: DbView, w: DbView, exts: Seq<Seq<char>>, target: i64) -> bool {
    &&& w.apps == v.apps
    &&& w.links == v.links
    &&& w.last_id == v.last_id
    &&& w.exts.len() == v.exts.len()
    &&& forall|k: int|
        0 <= k < v.exts.len() ==> #[trigger] w.exts[k] == (ExtRec {
            default_app_id: if exts.contains(v.exts[k].ext) {
                Some(target)
            } else {
                v.exts[k].default_app_id
            },
            ..v.exts[k]
        })
}

/// Reassigning extensions: to an existing application it succeeds and
/// defaults each catalogued extension among `exts` to it, every other
/// extension keeping its default; to a missing application it changes
/// nothing, and it is refused exactly when one of `exts` is catalogued.
pub proof fn law_reassign(v: DbView, exts: Seq<Seq<char>>, target: i64)
    requires
        v.wf(),
    ensures
        v.has_app(target) ==> v.reassign(exts, target).1 is Ok,
        v.has_app(target) ==> moved_to(v, v.reassign(exts, target).0, exts, target),
        !v.has_app(target) ==> v.reassign(exts, target).0 == v,
        !v.has_app(target) ==> (v.reassign(exts, target).1 is Ok <==> forall|i: int|
            0 <= i < exts.len() ==> !v.has_ext(#[trigger] exts[i])),
    decreases exts.len(),
{
    if exts.len() > 0 {
        let init = exts.drop_last();
        let last = exts.last();
        law_reassign(v, init, target);
        v.lemma_reassign_wf(init, target);
        let (u, r) = v.reassign(init, target);
        law_set_default_read_back(u, last, target);
        u.lemma_apps_frame(v);
        if v.has_app(target) {
            let w = v.reassign(exts, target).0;
            assert forall|k: int| 0 <= k < v.exts.len() implies #[trigger] w.exts[k] == (ExtRec {
                default_app_id: if exts.contains(v.exts[k].ext) {
                    Some(target)
                } else {
                    v.exts[k].default_app_id
                },
                ..v.exts[k]
            }) by {
                let x = v.exts[k].ext;
                assert(u.exts[k] == (ExtRec {
                    default_app_id: if init.contains(x) {
                        Some(target)
                    } else {
                        v.exts[k].default_app_id
                    },
                    ..v.exts[k]
                }));
                if init.contains(x) {
                    let j = choose|j: int| 0 <= j < init.len() && init[j] == x;
                    assert(exts[j] == x);
                }
                if x == last {
                    assert(exts[exts.len() - 1] == x);
                }
                if exts.contains(x) && x != last {
                    let j = choose|j: int| 0 <= j < exts.len() && exts[j] == x;
                    assert(init[j] == x);
                }
            }
        } else {
            if u.has_ext(last) {
                assert(!(forall|i: int| 0 <= i < exts.len() ==> !v.has_ext(#[trigger] exts[i]))) by {
                    assert(v.has_ext(exts[exts.len() - 1]));
                }
            }
            if forall|i: int| 0 <= i < init.len() ==> !v.has_ext(#[trigger] init[i]) {
                if !v.has_ext(last) {
                    assert forall|i: int| 0 <= i < exts.len() implies !v.has_ext(#[trigger] exts[i]) by {
                        if i < init.len() {
                            assert(exts[i] == init[i]);
                        }
                    }
                }
            } else {
                let i = choose|i: int| 0 <= i < init.len() && v.has_ext(#[trigger] init[i]);
                assert(v.has_ext(exts[i]));
            }
        }
    }
}

/// Handing the eligible extensions over: once a list holding every
/// extension defaulted to `source` that `target` can open has been
/// reassigned to `target` (another application), `target` shares no
/// extension with `source` any more.
pub proof fn law_reassign_eligible_clears_overlap(v: DbView, source: i64, target: i64, exts: Seq<Seq<char>>)
    requires
        v.wf(),
        source != target,
        forall|k: int|
            0 <= k < v.exts.len() && eligible_for(v, source, target)(#[trigger] v.exts[k]) ==> exts.contains(
                v.exts[k].ext,
            ),
    ensures
        v.reassign(exts, target).0.overlap_count(source, target) == 0,
{
    law_reassign(v, exts, target);
    let w = v.reassign(exts, target).0;
    let p = shared_with(w, source, target);
    w.lemma_links_frame(v);
    assert forall|k: int| 0 <= k < w.exts.len() implies !p(#[trigger] w.exts[k]) by {
        if v.has_app(target) {
            if p(w.exts[k]) {
                assert(eligible_for(v, source, target)(v.exts[k]));
            }
        } else if p(w.exts[k]) {
            let j = choose|j: int|
                0 <= j < v.links.len() && #[trigger] v.links[j].ext == w.exts[k].ext && v.links[j].app_id
                    == target;
            assert(v.has_app(v.links[j].app_id));
        }
    }
    lemma_count_all_or_none(w.exts, p);
}


/// Recording a pair adds at most that pair and keeps every other.
proof fn lemma_upsert_ext_app_links(v: DbView, ext: Seq<char>, id: i64, d: Seq<char>)
    requires
        v.wf(),
    ensures
        v.upsert_ext_app(ext, id, d).0.apps == v.apps,
        forall|e: Seq<char>, a: i64| v.has_link(e, a) ==> #[trigger] v.upsert_ext_app(ext, id, d).0.has_link(e, a),
        forall|e: Seq<char>, a: i64|
            #[trigger] v.upsert_ext_app(ext, id, d).0.has_link(e, a) ==> v.has_link(e, a) || (e == ext && a == id),
{
    v.lemma_upsert_ext_app_wf(ext, id, d);
    let w = v.upsert_ext_app(ext, id, d).0;
    let n = v.links.len() as int;
    assert(w.links == v.links || w.links == v.links.push(crate::model::LinkRec { ext, app_id: id }));
    assert forall|e: Seq<char>, a: i64| v.has_link(e, a) implies #[trigger] w.has_link(e, a) by {
        let k = choose|k: int| 0 <= k < v.links.len() && #[trigger] v.links[k].ext == e && v.links[k].app_id == a;
        assert(w.links[k] == v.links[k]);
    }
    assert forall|e: Seq<char>, a: i64| #[trigger] w.has_link(e, a) implies v.has_link(e, a) || (e == ext && a == id) by {
        let k = choose|k: int| 0 <= k < w.links.len() && #[trigger] w.links[k].ext == e && w.links[k].app_id == a;
        if k < n {
            assert(v.links[k] == w.links[k]);
        }
    }
}

/// Recording a run of pairs for `id`: the applications stay, every pair
/// stays, the only new pairs are for `id` and one of the run's extensions,
/// and when the run succeeds all of them are recorded.
proof fn lemma_apply_assocs_links(v: DbView, id: i64, assocs: Seq<(Seq<char>, Seq<char>)>)
    requires
        v.wf(),
    ensures
        apply_assocs(v, id, assocs).0.apps == v.apps,
        forall|e: Seq<char>, a: i64| v.has_link(e, a) ==> #[trigger] apply_assocs(v, id, assocs).0.has_link(e, a),
        forall|e: Seq<char>, a: i64|
            #[trigger] apply_assocs(v, id, assocs).0.has_link(e, a) ==> v.has_link(e, a) || (a == id && firsts(
                assocs,
            ).contains(e)),
        apply_assocs(v, id, assocs).1 is Ok ==> forall|i: int|
            0 <= i < assocs.len() ==> apply_assocs(v, id, assocs).0.has_link(#[trigger] assocs[i].0, id),
    decreases assocs.len(),
{
    if assocs.len() > 0 {
        let init = assocs.drop_last();
        let last = assocs.last();
        lemma_apply_assocs_links(v, id, init);
        lemma_apply_assocs_wf(v, id, init);
        let (w, r) = apply_assocs(v, id, init);
        let out = apply_assocs(v, id, assocs).0;
        assert forall|e: Seq<char>| firsts(init).contains(e) implies firsts(assocs).contains(e) by {
            let j = choose|j: int| 0 <= j < firsts(init).len() && firsts(init)[j] == e;
            assert(firsts(assocs)[j] == e);
        }
        assert(firsts(assocs)[assocs.len() - 1] == last.0);
        if r is Ok {
            lemma_upsert_ext_app_links(w, last.0, id, last.1);
            w.lemma_upsert_ext_app_wf(last.0, id, last.1);
            if apply_assocs(v, id, assocs).1 is Ok {
                assert forall|i: int| 0 <= i < assocs.len() implies out.has_link(#[trigger] assocs[i].0, id) by {
                    if i < init.len() {
                        assert(init[i] == assocs[i]);
                        assert(w.has_link(init[i].0, id));
                    }
                }
            }
        }
    }
}

/// Scanning an application reflects its property list: when the scan
/// succeeds, the application is catalogued at `app_path` under the name
/// it declares, it opens exactly the extensions its document types
/// declare, every other application opens what it did before, and the
/// answer counts the declared pairs.
pub proof fn law_scan_reflects_declarations(
    v: DbView,
    app_path: Seq<char>,
    info: PlistValue,
    table: Seq<UtiExtensions>,
)
    requires
        v.wf(),
    ensures
        info matches PlistValue::Dictionary(d) ==> (process_outcome(v, app_path, info, table) matches (
            w,
            Ok((id, n)),
        ) ==> {
            &&& exists|k: int|
                0 <= k < w.apps.len() && #[trigger] w.apps[k] == (AppRec {
                    id,
                    name: bundle_name(d@, app_path),
                    path: app_path,
                })
            &&& forall|e: Seq<char>| #[trigger] w.has_link(e, id) <==> firsts(associations(d@, table)).contains(e)
            &&& forall|e: Seq<char>, a: i64| a != id ==> (#[trigger] w.has_link(e, a) <==> v.has_link(e, a))
            &&& n == associations(d@, table).len()
        }),
{
    if let PlistValue::Dictionary(d) = info {
        let name = bundle_name(d@, app_path);
        v.lemma_upsert_app_wf(name, app_path);
        law_upsert_app_read_back(v, name, app_path);
        if let Ok((v1, id)) = v.upsert_app(name, app_path) {
            v1.lemma_links_frame(v);
            let assocs = associations(d@, table);
            lemma_apply_assocs_links(v1, id, assocs);
            lemma_apply_assocs_wf(v1, id, assocs);
            let (v2, r) = apply_assocs(v1, id, assocs);
            if r is Ok {
                let keep = firsts(assocs);
                law_remove_stale(v2, id, keep);
                let w = v2.remove_stale(id, keep);
                assert forall|e: Seq<char>| #[trigger] w.has_link(e, id) <==> keep.contains(e) by {
                    if keep.contains(e) {
                        let j = choose|j: int| 0 <= j < keep.len() && keep[j] == e;
                        assert(assocs[j].0 == e);
                        assert(v2.has_link(assocs[j].0, id));
                    }
                }
                assert forall|e: Seq<char>, a: i64| a != id implies (#[trigger] w.has_link(e, a) <==> v.has_link(
                    e,
                    a,
                )) by {
                    assert(w.has_link(e, a) == v2.has_link(e, a));
                    assert(v1.has_link(e, a) == v.has_link(e, a));
                    if v2.has_link(e, a) {
                        assert(v1.has_link(e, a));
                    }
                    if v1.has_link(e, a) {
                        assert(v2.has_link(e, a));
                    }
                }
                let out = process_outcome(v, app_path, info, table);
                assert(out.0 == w);
                assert(out.1 == Ok::<(i64, nat), crate::scan::ScanError>((id, assocs.len())));
            }
        }
    }
}


/// Some application called `name` can open `ext`.
pub open spec fn named_opens(v: DbView, name: Seq<char>, ext: Seq<char>) -> bool {
    exists|k: int| 0 <= k < v.apps.len() && #[trigger] v.apps[k].name == name && v.has_link(ext, v.apps[k].id)
}

/// The extension `ext` is catalogued with an application called `name` as
/// its default.
pub open spec fn named_default(v: DbView, name: Seq<char>, ext: Seq<char>) -> bool {
    exists|j: int, k: int|
        0 <= j < v.exts.len() && 0 <= k < v.apps.len() && #[trigger] v.exts[j].ext == ext && #[trigger] v.apps[k].name
            == name && v.exts[j].default_app_id == Some(v.apps[k].id)
}

/// `w` keeps every application of `v` (same position, name and
/// identifier) and every pair.
pub open spec fn keeps_apps_and_pairs(v: DbView, w: DbView) -> bool {
    &&& w.apps.len() >= v.apps.len()
    &&& forall|k: int| 0 <= k < v.apps.len() ==> same_app(#[trigger] w.apps[k], v.apps[k])
    &&& forall|e: Seq<char>, a: i64| v.has_link(e, a) ==> #[trigger] w.has_link(e, a)
}

/// Two rows of the same application: same name and identifier.
pub open spec fn same_app(a: AppRec, b: AppRec) -> bool {
    a.name == b.name && a.id == b.id
}

proof fn lemma_keeps_transitive(u: DbView, v: DbView, w: DbView)
    requires
        keeps_apps_and_pairs(u, v),
        keeps_apps_and_pairs(v, w),
    ensures
        keeps_apps_and_pairs(u, w),
{
    assert forall|k: int| 0 <= k < u.apps.len() implies same_app(#[trigger] w.apps[k], u.apps[k]) by {
        assert(same_app(v.apps[k], u.apps[k]));
        assert(same_app(w.apps[k], v.apps[k]));
    }
    assert forall|e: Seq<char>, a: i64| u.has_link(e, a) implies #[trigger] w.has_link(e, a) by {
        assert(v.has_link(e, a));
    }
}

proof fn lemma_keeps_named_opens(v: DbView, w: DbView, name: Seq<char>, ext: Seq<char>)
    requires
        keeps_apps_and_pairs(v, w),
        named_opens(v, name, ext),
    ensures
        named_opens(w, name, ext),
{
    let k = choose|k: int| 0 <= k < v.apps.len() && #[trigger] v.apps[k].name == name && v.has_link(ext, v.apps[k].id);
    assert(same_app(w.apps[k], v.apps[k]));
    assert(w.has_link(ext, v.apps[k].id));
}

proof fn lemma_upsert_app_keeps(v: DbView, name: Seq<char>, path: Seq<char>)
    requires
        v.wf(),
    ensures
        v.upsert_app(name, path) matches Ok((w, id)) ==> keeps_apps_and_pairs(v, w) && w.links == v.links && w.exts
            == v.exts,
{
    lemma_first_index(v.apps, app_named(name));
    if let Ok((w, id)) = v.upsert_app(name, path) {
        w.lemma_links_frame(v);
        assert forall|k: int| 0 <= k < v.apps.len() implies same_app(#[trigger] w.apps[k], v.apps[k]) by {}
    }
}

/// The handlers of a report: each ends up able to open `ext`, and
/// nothing known before is lost.
proof fn lemma_apply_handlers(v: DbView, ext: Seq<char>, hs: Seq<(Seq<char>, Seq<char>)>)
    requires
        v.wf(),
    ensures
        apply_handlers(v, ext, hs).0.wf(),
        keeps_apps_and_pairs(v, apply_handlers(v, ext, hs).0),
        apply_handlers(v, ext, hs).1 is Ok ==> forall|i: int|
            0 <= i < hs.len() ==> named_opens(apply_handlers(v, ext, hs).0, #[trigger] hs[i].0, ext),
    decreases hs.len(),
{
    assert forall|k: int| 0 <= k < v.apps.len() implies same_app(#[trigger] v.apps[k], v.apps[k]) by {}
    if hs.len() > 0 {
        let init = hs.drop_last();
        let (name, path) = hs.last();
        lemma_apply_handlers(v, ext, init);
        let (w, r) = apply_handlers(v, ext, init);
        if r is Ok {
            w.lemma_upsert_app_wf(name, path);
            lemma_upsert_app_keeps(w, name, path);
            law_upsert_app_read_back(w, name, path);
            if let Ok((w1, id)) = w.upsert_app(name, path) {
                lemma_upsert_ext_app_links(w1, ext, id, Seq::empty());
                w1.lemma_upsert_ext_app_wf(ext, id, Seq::empty());
                let (w2, r2) = w1.upsert_ext_app(ext, id, Seq::empty());
                assert forall|k: int| 0 <= k < w1.apps.len() implies same_app(#[trigger] w2.apps[k], w1.apps[k]) by {}
                assert(keeps_apps_and_pairs(w1, w2));
                lemma_keeps_transitive(w, w1, w2);
                lemma_keeps_transitive(v, w, w2);
                if r2 is Ok {
                    assert forall|i: int| 0 <= i < hs.len() implies named_opens(w2, #[trigger] hs[i].0, ext) by {
                        if i < init.len() {
                            assert(init[i] == hs[i]);
                            lemma_keeps_named_opens(w, w2, init[i].0, ext);
                        } else {
                            let k = choose|k: int| 0 <= k < w1.apps.len() && #[trigger] w1.apps[k] == (AppRec {
                                id,
                                name,
                                path,
                            });
                            assert(w2.apps[k].name == name);
                        }
                    }
                }
            }
        }
    }
}

/// What Launch Services reports enters the catalogue: when a report is
/// applied without refusal, every reported handler is an application that
/// can open the report's extension, and the reported default application,
/// when the extension is catalogued, is its default.
pub proof fn law_launch_services_report(v: DbView, rep: LsReport)
    requires
        v.wf(),
    ensures
        apply_report(v, rep).1 is Ok ==> {
            &&& forall|i: int|
                0 <= i < rep.handlers@.len() ==> named_opens(
                    apply_report(v, rep).0,
                    #[trigger] rep.handlers@[i].0@,
                    rep.ext@,
                )
            &&& rep.default_app matches Some(d) ==> (apply_report(v, rep).0.has_ext(rep.ext@) ==> named_default(
                apply_report(v, rep).0,
                d.0@,
                rep.ext@,
            ))
        },
{
    let hs = pair_texts(rep.handlers@);
    let ext = rep.ext@;
    lemma_apply_handlers(v, ext, hs);
    let (w, r) = apply_handlers(v, ext, hs);
    if r is Ok {
        let out = apply_report(v, rep);
        match opt_pair_text(rep.default_app) {
            None => {
                assert(out.0 == w);
            },
            Some((name, path)) => {
                w.lemma_upsert_app_wf(name, path);
                lemma_upsert_app_keeps(w, name, path);
                law_upsert_app_read_back(w, name, path);
                if let Ok((w1, id)) = w.upsert_app(name, path) {
                    law_set_default_read_back(w1, ext, id);
                    if let Ok(w2) = w1.set_default_app(ext, id) {
                        assert(out.0 == w2);
                        assert forall|k: int| 0 <= k < w1.apps.len() implies same_app(#[trigger] w2.apps[k], w1.apps[k]) by {}
                        w2.lemma_links_frame(w1);
                        assert(keeps_apps_and_pairs(w1, w2));
                        lemma_keeps_transitive(w, w1, w2);
                        if w2.has_ext(ext) {
                            let j = choose|j: int| 0 <= j < w2.exts.len() && #[trigger] w2.exts[j].ext == ext;
                            let k = choose|k: int| 0 <= k < w1.apps.len() && #[trigger] w1.apps[k] == (AppRec {
                                id,
                                name,
                                path,
                            });
                            assert(w2.exts[j] == (ExtRec { default_app_id: Some(id), ..w1.exts[j] }));
                            assert(w2.apps[k].name == name);
                        }
                    }
                }
            },
        }
        if out.1 is Ok {
            assert forall|i: int| 0 <= i < rep.handlers@.len() implies named_opens(
                out.0,
                #[trigger] rep.handlers@[i].0@,
                ext,
            ) by {
                assert(hs[i].0 == rep.handlers@[i].0@);
                if rep.default_app is Some {
                    let (name, path) = opt_pair_text(rep.default_app)->Some_0;
                    let w1 = w.upsert_app(name, path)->Ok_0.0;
                    lemma_keeps_named_opens(w, out.0, hs[i].0, ext);
                }
            }
        }
    }
}


/// Counting is the length of the filtered sequence.
proof fn lemma_count_is_filter_len<A>(s: Seq<A>, p: spec_fn(A) -> bool)
    ensures
        count_where(s, p) == s.filter(p).len(),
    decreases s.len(),
{
    reveal(Seq::filter);
    if s.len() > 0 {
        lemma_count_is_filter_len(s.drop_last(), p);
    }
}

/// Applications other than `source` that can open `ext`.
pub open spec fn other_opener(v: DbView, ext: Seq<char>, source: i64) -> spec_fn(AppRec) -> bool {
    |a: AppRec| a.id != source && v.has_link(ext, a.id)
}

/// The number of other handlers that the per-extension counts show is the
/// number of applications, other than `source`, that can open `ext`.
pub proof fn law_target_count_is_other_openers(v: DbView, ext: Seq<char>, source: i64)
    requires
        v.wf(),
    ensures
        v.target_count(ext, source) == count_where(v.apps, other_opener(v, ext, source)),
{
    broadcast use vstd::seq_lib::seq_to_set_is_finite;

    let lp = other_handler(ext, source);
    let ap = other_opener(v, ext, source);
    let lf = v.links.filter(lp);
    let af = v.apps.filter(ap);
    lemma_count_is_filter_len(v.links, lp);
    lemma_count_is_filter_len(v.apps, ap);
    lemma_filter_facts(v.links, lp);
    lemma_filter_facts(v.apps, ap);
    assert(v.links.no_duplicates()) by {
        assert forall|a: int, b: int| 0 <= a < v.links.len() && 0 <= b < v.links.len() && a != b implies v.links[a]
            != v.links[b] by {
            if a < b {
                assert(v.links[a] != v.links[b]);
            } else {
                assert(v.links[b] != v.links[a]);
            }
        }
    }
    assert(v.apps.no_duplicates()) by {
        assert forall|a: int, b: int| 0 <= a < v.apps.len() && 0 <= b < v.apps.len() && a != b implies v.apps[a]
            != v.apps[b] by {
            if v.apps[a] == v.apps[b] {
                v.lemma_app_index_unique(a, b);
            }
        }
    }
    lf.unique_seq_to_set();
    af.unique_seq_to_set();
    let fl = |l: LinkRec| l.app_id;
    let fa = |a: AppRec| a.id;
    let ls = lf.to_set();
    let as_ = af.to_set();
    assert(vstd::relations::injective_on(fl, ls)) by {
        assert forall|x1: LinkRec, x2: LinkRec| ls.contains(x1) && ls.contains(x2) && #[trigger] fl(x1) == #[trigger] fl(
            x2,
        ) implies x1 == x2 by {
            let i = choose|i: int| 0 <= i < lf.len() && lf[i] == x1;
            let j = choose|j: int| 0 <= j < lf.len() && lf[j] == x2;
            assert(lp(lf[i]) && lp(lf[j]));
        }
    }
    assert(vstd::relations::injective_on(fa, as_)) by {
        assert forall|x1: AppRec, x2: AppRec| as_.contains(x1) && as_.contains(x2) && #[trigger] fa(x1) == #[trigger] fa(
            x2,
        ) implies x1 == x2 by {
            let i = choose|i: int| 0 <= i < af.len() && af[i] == x1;
            let j = choose|j: int| 0 <= j < af.len() && af[j] == x2;
            assert(v.apps.contains(af[i]) && v.apps.contains(af[j]));
            let a = choose|a: int| 0 <= a < v.apps.len() && v.apps[a] == af[i];
            let b = choose|b: int| 0 <= b < v.apps.len() && v.apps[b] == af[j];
            v.lemma_app_index_unique(a, b);
        }
    }
    assert(ls.map(fl) =~= as_.map(fa)) by {
        assert forall|x: i64| ls.map(fl).contains(x) implies as_.map(fa).contains(x) by {
            let l = choose|l: LinkRec| ls.contains(l) && x == fl(l);
            let i = choose|i: int| 0 <= i < lf.len() && lf[i] == l;
            assert(v.links.contains(l) && lp(l));
            let m = choose|m: int| 0 <= m < v.links.len() && v.links[m] == l;
            assert(v.has_app(v.links[m].app_id));
            let a = choose|a: int| 0 <= a < v.apps.len() && #[trigger] v.apps[a].id == x;
            assert(v.has_link(ext, v.apps[a].id));
            assert(ap(v.apps[a]));
            assert(af.contains(v.apps[a]));
            assert(as_.contains(v.apps[a]));
            assert(fa(v.apps[a]) == x);
        }
        assert forall|x: i64| as_.map(fa).contains(x) implies ls.map(fl).contains(x) by {
            let a = choose|a: AppRec| as_.contains(a) && x == fa(a);
            let i = choose|i: int| 0 <= i < af.len() && af[i] == a;
            assert(v.apps.contains(a) && ap(a));
            let m = choose|m: int|
                0 <= m < v.links.len() && #[trigger] v.links[m].ext == ext && v.links[m].app_id == a.id;
            assert(lp(v.links[m]));
            assert(lf.contains(v.links[m]));
            assert(ls.contains(v.links[m]));
            assert(fl(v.links[m]) == x);
        }
    }
    vstd::set_lib::lemma_map_size(ls, ls.map(fl), fl);
    vstd::set_lib::lemma_map_size(as_, as_.map(fa), fa);
}


/// `ext` is catalogued in `w` with, as its default, one of `apps` whose
/// bundle is at `path`.
pub open spec fn defaulted_to_app_at(w: DbView, apps: Seq<AppRec>, ext: Seq<char>, path: Seq<char>) -> bool {
    exists|j: int, k: int|
        0 <= j < w.exts.len() && 0 <= k < apps.len() && #[trigger] w.exts[j].ext == ext && #[trigger] apps[k].path
            == path && w.exts[j].default_app_id == Some(apps[k].id)
}

/// Refreshing a default from the system's answer: it never fails on a
/// catalogue that obeys the rules, it answers whether some application
/// has its bundle at `path`, and when one has, a catalogued `ext` gets the
/// first such application as its default.
pub proof fn law_refresh_default_by_path(v: DbView, ext: Seq<char>, path: Seq<char>)
    requires
        v.wf(),
    ensures
        v.refresh_default_by_path(ext, path) is Ok,
        v.refresh_default_by_path(ext, path) matches Ok((w, found)) ==> {
            &&& found <==> exists|k: int| 0 <= k < v.apps.len() && #[trigger] v.apps[k].path == path
            &&& !found ==> w == v
            &&& found && v.has_ext(ext) ==> defaulted_to_app_at(w, v.apps, ext, path)
        },
{
    let p = crate::model::app_at_path(path);
    lemma_first_index(v.apps, p);
    let i = first_index(v.apps, p);
    if i >= 0 {
        let id = v.apps[i].id;
        assert(v.has_app(id));
        law_set_default_read_back(v, ext, id);
        assert(v.apps[i].path == path);
        if v.has_ext(ext) {
            let w = v.set_default_app(ext, id)->Ok_0;
            let j = choose|j: int| 0 <= j < v.exts.len() && #[trigger] v.exts[j].ext == ext;
            assert(w.exts[j].ext == ext);
            assert(w.exts[j].default_app_id == Some(v.apps[i].id));
            assert(v.refresh_default_by_path(ext, path) == Ok::<(DbView, bool), DbError>((w, true)));
            assert(defaulted_to_app_at(w, v.apps, ext, path));
        }
    } else {
        if exists|k: int| 0 <= k < v.apps.len() && #[trigger] v.apps[k].path == path {
            let k = choose|k: int| 0 <= k < v.apps.len() && #[trigger] v.apps[k].path == path;
            assert(!p(v.apps[k]));
        }
    }
}


/// Repeating an upsert: once `upsert_app(name, path)` has succeeded, the
/// same call again gives the same identifier and leaves the applications,
/// extensions and pairs as they are; it still uses up an identifier, and
/// is refused when none is left.
pub proof fn law_upsert_app_repeat_keeps_rows(v: DbView, name: Seq<char>, path: Seq<char>)
    requires
        v.wf(),
    ensures
        v.upsert_app(name, path) matches Ok((w, id)) ==> {
            &&& w.last_id == i64::MAX ==> w.upsert_app(name, path) == Err::<(DbView, i64), DbError>(DbError::Full)
            &&& w.last_id < i64::MAX ==> w.upsert_app(name, path) is Ok
            &&& w.upsert_app(name, path) matches Ok((w2, id2)) ==> {
                &&& id2 == id
                &&& w2.apps == w.apps
                &&& w2.exts == w.exts
                &&& w2.links == w.links
                &&& w2.last_id == w.last_id + 1
            }
        },
{
    v.lemma_upsert_app_wf(name, path);
    law_upsert_app_read_back(v, name, path);
    if let Ok((w, id)) = v.upsert_app(name, path) {
        let k = choose|k: int| 0 <= k < w.apps.len() && #[trigger] w.apps[k] == (AppRec { id, name, path });
        lemma_first_index(w.apps, app_named(name));
        let j = first_index(w.apps, app_named(name));
        assert(app_named(name)(w.apps[k]));
        assert(j >= 0);
        if j != k {
            if j < k {
                w.lemma_duplicate_app(j, k);
            } else {
                w.lemma_duplicate_app(k, j);
            }
        }
        assert(w.apps.update(j, AppRec { path, ..w.apps[j] }) =~= w.apps);
    }
}

/// Two listed applications show the same application with the same count.
pub open spec fn same_entry(a: App, b: App) -> bool {
    a.id == b.id && a.name@ == b.name@ && a.path@ == b.path@ && a.ext_count == b.ext_count
}

/// `a` appears in `all` with a name that holds a match of `f`.
pub open spec fn listed_matching(a: App, all: Seq<App>, f: Seq<char>) -> bool {
    exists|m: int| 0 <= m < all.len() && #[trigger] same_entry(all[m], a) && like_contains(f, all[m].name@)
}

/// `a` appears in `res`.
pub open spec fn listed_in(a: App, res: Seq<App>) -> bool {
    exists|k: int| 0 <= k < res.len() && #[trigger] same_entry(a, res[k])
}

/// The filtered application list is the whole list filtered: with `all`
/// the list without a filter and `res` the list filtered by `f` (as their
/// contracts describe them on the same catalogue), every entry of `res` is
/// an entry of `all` whose name holds a match of `f`, every such entry of
/// `all` is in `res` with the same count, and entries whose names differ
/// other than in ASCII case come in the same order in both.
pub proof fn law_filtered_list_is_filtered(v: DbView, f: Seq<char>, all: Seq<App>, res: Seq<App>)
    requires
        lists_apps(all, v.apps, name_filter(None), default_counts(v)),
        apps_in_order(all, false),
        lists_apps(res, v.apps, name_filter(Some(f)), default_counts(v)),
        apps_in_order(res, false),
    ensures
        forall|k: int| 0 <= k < res.len() ==> listed_matching(#[trigger] res[k], all, f),
        forall|m: int| 0 <= m < all.len() && like_contains(f, all[m].name@) ==> listed_in(#[trigger] all[m], res),
        forall|k1: int, k2: int, m1: int, m2: int|
            0 <= k1 < k2 < res.len() && 0 <= m1 < all.len() && 0 <= m2 < all.len() && #[trigger] same_entry(
                all[m1],
                res[k1],
            ) && #[trigger] same_entry(all[m2], res[k2]) && nocase_key(res[k1].name@) != nocase_key(
                res[k2].name@,
            ) ==> m1 < m2,
{
    let rows = v.apps;
    let cnt = default_counts(v);
    assert forall|k: int| 0 <= k < res.len() implies listed_matching(#[trigger] res[k], all, f) by {
        assert(crate::model::shows_picked_row(res[k], rows, name_filter(Some(f)), cnt));
        let i = choose|i: int|
            0 <= i < rows.len() && name_filter(Some(f))(rows[i]) && #[trigger] crate::model::shows_app(
                res[k],
                rows[i],
                cnt(rows[i]),
            );
        assert(name_filter(None)(rows[i]));
        assert(crate::model::row_shown(rows[i], all, cnt(rows[i])));
        let m = choose|m: int| 0 <= m < all.len() && #[trigger] crate::model::shows_app(all[m], rows[i], cnt(rows[i]));
        assert(same_entry(all[m], res[k]));
    }
    assert forall|m: int| 0 <= m < all.len() && like_contains(f, all[m].name@) implies listed_in(#[trigger] all[m], res) by {
        assert(crate::model::shows_picked_row(all[m], rows, name_filter(None), cnt));
        let i = choose|i: int|
            0 <= i < rows.len() && name_filter(None)(rows[i]) && #[trigger] crate::model::shows_app(
                all[m],
                rows[i],
                cnt(rows[i]),
            );
        assert(name_filter(Some(f))(rows[i]));
        assert(crate::model::row_shown(rows[i], res, cnt(rows[i])));
        let k = choose|k: int| 0 <= k < res.len() && #[trigger] crate::model::shows_app(res[k], rows[i], cnt(rows[i]));
        assert(same_entry(all[m], res[k]));
    }
    assert forall|k1: int, k2: int, m1: int, m2: int|
        0 <= k1 < k2 < res.len() && 0 <= m1 < all.len() && 0 <= m2 < all.len() && #[trigger] same_entry(
            all[m1],
            res[k1],
        ) && #[trigger] same_entry(all[m2], res[k2]) && nocase_key(res[k1].name@) != nocase_key(res[k2].name@)
        implies m1 < m2 by {
        let a = nocase_key(res[k1].name@);
        let b = nocase_key(res[k2].name@);
        assert(res[k1].id != res[k2].id);
        assert(!crate::model::app_before(res[k2], res[k1], false));
        lemma_seq_lt_total(a, b);
        assert(crate::text::seq_lt(a, b));
        if m2 < m1 {
            assert(!crate::model::app_before(all[m1], all[m2], false));
        }
    }
}


/// Counting a predicate that, position by position, is one of two
/// exclusive predicates on two other sequences of the same length.
proof fn lemma_count_union<A, B, C>(
    x: Seq<A>,
    px: spec_fn(A) -> bool,
    y: Seq<B>,
    py: spec_fn(B) -> bool,
    z: Seq<C>,
    pz: spec_fn(C) -> bool,
)
    requires
        x.len() == y.len(),
        y.len() == z.len(),
        forall|k: int| 0 <= k < x.len() ==> #[trigger] px(x[k]) == (py(y[k]) || pz(z[k])),
        forall|k: int| 0 <= k < x.len() ==> !(#[trigger] py(y[k]) && pz(z[k])),
    ensures
        count_where(x, px) == count_where(y, py) + count_where(z, pz),
    decreases x.len(),
{
    if x.len() > 0 {
        let n = x.len() - 1;
        let (x1, y1, z1) = (x.drop_last(), y.drop_last(), z.drop_last());
        assert forall|k: int| 0 <= k < x1.len() implies #[trigger] px(x1[k]) == (py(y1[k]) || pz(z1[k])) by {
            assert(x1[k] == x[k] && y1[k] == y[k] && z1[k] == z[k]);
            assert(px(x[k]) == (py(y[k]) || pz(z[k])));
        }
        assert forall|k: int| 0 <= k < x1.len() implies !(#[trigger] py(y1[k]) && pz(z1[k])) by {
            assert(y1[k] == y[k] && z1[k] == z[k]);
            assert(!(py(y[k]) && pz(z[k])));
        }
        lemma_count_union(x1, px, y1, py, z1, pz);
        assert(px(x[n]) == (py(y[n]) || pz(z[n])));
        assert(!(py(y[n]) && pz(z[n])));
    }
}

/// Handing the eligible extensions over moves the default counts: with
/// `res` the list of extensions defaulted to `source` that `target` (another
/// application) can open, as its contract describes it, reassigning `res`
/// to `target` succeeds, leaves nothing eligible, adds `res.len()` to the
/// number of extensions defaulted to `target`, and takes as many from
/// `source`.
pub proof fn law_reassign_eligible_moves_counts(v: DbView, source: i64, target: i64, res: Seq<String>)
    requires
        v.wf(),
        source != target,
        lists_exts(res, v.exts, eligible_for(v, source, target), shows_ext_name(), string_text()),
    ensures
        v.reassign(texts(res), target).1 is Ok,
        count_where(v.reassign(texts(res), target).0.exts, eligible_for(v.reassign(texts(res), target).0, source, target))
            == 0,
        v.reassign(texts(res), target).0.default_count(target) == v.default_count(target) + res.len(),
        v.reassign(texts(res), target).0.default_count(source) + res.len() == v.default_count(source),
{
    let exts = texts(res);
    let elig = eligible_for(v, source, target);
    let shows = shows_ext_name();
    assert forall|k: int| 0 <= k < v.exts.len() implies exts.contains(#[trigger] v.exts[k].ext) == elig(v.exts[k]) by {
        if elig(v.exts[k]) {
            assert(crate::model::ext_shown(v.exts[k], res, shows));
            let j = choose|j: int| 0 <= j < res.len() && #[trigger] shows(res[j], v.exts[k]);
            assert(exts[j] == v.exts[k].ext);
        }
        if exts.contains(v.exts[k].ext) {
            let j = choose|j: int| 0 <= j < exts.len() && exts[j] == v.exts[k].ext;
            assert(crate::model::shows_picked_ext(res[j], v.exts, elig, shows));
            let i = choose|i: int| 0 <= i < v.exts.len() && elig(v.exts[i]) && #[trigger] shows(res[j], v.exts[i]);
            v.lemma_ext_index_unique(i, k);
        }
    }
    law_reassign(v, exts, target);
    law_reassign_eligible_clears_overlap(v, source, target, exts);
    let w = v.reassign(exts, target).0;
    law_overlap_is_eligible(w, source, target);
    if v.has_app(target) {
        lemma_count_union(w.exts, defaulted_to(target), v.exts, defaulted_to(target), v.exts, elig);
        lemma_count_union(v.exts, defaulted_to(source), w.exts, defaulted_to(source), v.exts, elig);
    } else {
        assert forall|k: int| 0 <= k < v.exts.len() implies !elig(#[trigger] v.exts[k]) by {
            if elig(v.exts[k]) {
                let j = choose|j: int|
                    0 <= j < v.links.len() && #[trigger] v.links[j].ext == v.exts[k].ext && v.links[j].app_id
                        == target;
                assert(v.has_app(v.links[j].app_id));
            }
        }
        lemma_count_all_or_none(v.exts, elig);
        assert(exts.len() == 0);
        assert(v.reassign(exts, target) == (v, Ok::<(), DbError>(())));
    }
}


/// The count the list of applications able to open all of a set of
/// extensions shows, when application `x` is excluded: for each listed
/// application `a`, the number of extensions defaulted to `x` that `a` can
/// open.  That is the length of the eligible list of (`x`, `a`), and it
/// does not change when `a` is recorded as able to open an extension that
/// is not defaulted to `x`.  With no excluded application the count is 0.
pub proof fn law_exclude_count_is_eligible_count(v: DbView, x: i64, a: AppRec, e: Seq<char>)
    requires
        v.wf(),
    ensures
        exclude_counts(v, Some(x))(a) == count_where(
            v.exts,
            |r: ExtRec| r.default_app_id == Some(x) && v.has_link(r.ext, a.id),
        ),
        exclude_counts(v, Some(x))(a) == count_where(v.exts, eligible_for(v, x, a.id)),
        exclude_counts(v, None)(a) == 0,
        (forall|k: int| 0 <= k < v.exts.len() && #[trigger] v.exts[k].ext == e ==> v.exts[k].default_app_id != Some(x))
            ==> exclude_counts(v.insert_link(e, a.id).0, Some(x))(a) == exclude_counts(v, Some(x))(a),
{
    let p = |r: ExtRec| r.default_app_id == Some(x) && v.has_link(r.ext, a.id);
    assert(shared_with(v, x, a.id) =~= p);
    assert(eligible_for(v, x, a.id) =~= p);
    let w = v.insert_link(e, a.id).0;
    if forall|k: int| 0 <= k < v.exts.len() && #[trigger] v.exts[k].ext == e ==> v.exts[k].default_app_id != Some(x) {
        assert(w.exts == v.exts);
        let n = v.links.len() as int;
        assert(w.links == v.links || w.links == v.links.push(LinkRec { ext: e, app_id: a.id }));
        let q = shared_with(w, x, a.id);
        let none = |r: ExtRec| false;
        assert forall|k: int| 0 <= k < v.exts.len() implies #[trigger] q(w.exts[k]) == (p(v.exts[k]) || none(v.exts[k])) by {
            let r = v.exts[k];
            if v.has_link(r.ext, a.id) {
                let j = choose|j: int| 0 <= j < v.links.len() && #[trigger] v.links[j].ext == r.ext && v.links[j].app_id == a.id;
                assert(w.links[j] == v.links[j]);
            }
            if r.default_app_id == Some(x) && w.has_link(r.ext, a.id) {
                let j = choose|j: int| 0 <= j < w.links.len() && #[trigger] w.links[j].ext == r.ext && w.links[j].app_id == a.id;
                if j < n {
                    assert(v.links[j] == w.links[j]);
                } else {
                    assert(r.ext == e);
                }
            }
        }
        assert forall|k: int| 0 <= k < v.exts.len() implies !(#[trigger] p(v.exts[k]) && none(v.exts[k])) by {}
        lemma_count_union(w.exts, q, v.exts, p, v.exts, none);
        lemma_count_all_or_none(v.exts, none);
    }
}


/// The strings of a document type's `CFBundleTypeExtensions`, as declared.
pub open spec fn declared_legacy(item: PlistValue) -> Seq<Seq<char>> {
    match item {
        PlistValue::Dictionary(d) => strings_in(as_items(lookup(d@, "CFBundleTypeExtensions"@))),
        _ => Seq::empty(),
    }
}

/// The number of pairs each document type declares.
pub open spec fn assoc_counts(items: Seq<PlistValue>, table: Seq<UtiExtensions>) -> spec_fn(int) -> int {
    |j: int| doc_assocs(items[j], table).len() as int
}

proof fn lemma_planned_has(items: Seq<PlistValue>, table: Seq<UtiExtensions>, j: int, q: int)
    requires
        0 <= j < items.len(),
        0 <= q < doc_assocs(items[j], table).len(),
    ensures
        planned(items, table).contains(doc_assocs(items[j], table)[q]),
    decreases items.len(),
{
    let init = items.drop_last();
    let pi = planned(init, table);
    if j == items.len() - 1 {
        assert(planned(items, table)[pi.len() + q] == doc_assocs(items[j], table)[q]);
    } else {
        assert(init[j] == items[j]);
        lemma_planned_has(init, table, j, q);
        let r = choose|r: int| 0 <= r < pi.len() && pi[r] == doc_assocs(items[j], table)[q];
        assert(planned(items, table)[r] == pi[r]);
    }
}

proof fn lemma_planned_len(items: Seq<PlistValue>, table: Seq<UtiExtensions>)
    ensures
        planned(items, table).len() == sum_to(items.len() as int, assoc_counts(items, table)),
    decreases items.len(),
{
    if items.len() > 0 {
        let init = items.drop_last();
        lemma_planned_len(init, table);
        assert forall|j: int| 0 <= j < init.len() implies #[trigger] assoc_counts(init, table)(j) == assoc_counts(
            items,
            table,
        )(j) by {
            assert(init[j] == items[j]);
        }
        lemma_sum_ext(init.len() as int, assoc_counts(init, table), assoc_counts(items, table));
    }
}

proof fn lemma_with_description_has(exts: Seq<Seq<char>>, desc: Seq<char>, k: int)
    requires
        0 <= k < exts.len(),
        usable(exts[k]),
    ensures
        with_description(exts, desc).contains((exts[k], desc)),
    decreases exts.len(),
{
    let init = exts.drop_last();
    let wi = with_description(init, desc);
    if k == exts.len() - 1 {
        assert(with_description(exts, desc)[wi.len() as int] == (exts[k], desc));
    } else {
        assert(init[k] == exts[k]);
        lemma_with_description_has(init, desc, k);
        let r = choose|r: int| 0 <= r < wi.len() && wi[r] == (exts[k], desc);
        assert(with_description(exts, desc)[r] == wi[r]);
    }
}

proof fn lemma_resolved_has(utis: Seq<Seq<char>>, table: Seq<UtiExtensions>, k: int, m: int)
    requires
        0 <= k < utis.len(),
        0 <= m < table_exts(table, utis[k]).len(),
    ensures
        resolved(utis, table).contains(table_exts(table, utis[k])[m]),
    decreases utis.len(),
{
    let init = utis.drop_last();
    let ri = resolved(init, table);
    if k == utis.len() - 1 {
        assert(resolved(utis, table)[ri.len() + m] == table_exts(table, utis[k])[m]);
    } else {
        assert(init[k] == utis[k]);
        lemma_resolved_has(init, table, k, m);
        let r = choose|r: int| 0 <= r < ri.len() && ri[r] == table_exts(table, utis[k])[m];
        assert(resolved(utis, table)[r] == ri[r]);
    }
}

/// A usable extension at position `i` of what a document type declares is
/// among the extensions of the whole property list.
proof fn lemma_declared_planned(items: Seq<PlistValue>, table: Seq<UtiExtensions>, j: int, i: int)
    requires
        0 <= j < items.len(),
        items[j] is Dictionary,
        0 <= i < doc_exts(items[j]->Dictionary_0@, table).len(),
        usable(doc_exts(items[j]->Dictionary_0@, table)[i]),
    ensures
        firsts(planned(items, table)).contains(doc_exts(items[j]->Dictionary_0@, table)[i]),
{
    let d = items[j]->Dictionary_0@;
    let exts = doc_exts(d, table);
    let desc = doc_description(d);
    lemma_with_description_has(exts, desc, i);
    let da = doc_assocs(items[j], table);
    let q = choose|q: int| 0 <= q < da.len() && da[q] == (exts[i], desc);
    lemma_planned_has(items, table, j, q);
    let pl = planned(items, table);
    let r = choose|r: int| 0 <= r < pl.len() && pl[r] == da[q];
    assert(firsts(pl)[r] == exts[i]);
}

/// Scanning records every document type: when a scan succeeds, the
/// application can open every extension that any dictionary among its
/// `CFBundleDocumentTypes` declares (each string of its
/// `CFBundleTypeExtensions`, and each extension the table gives for each of
/// its `LSItemContentTypes`), in lowercase, unless that is `*` or empty;
/// and the answered count is the total, over all document types, of the
/// pairs each declares.
pub proof fn law_scan_covers_every_document_type(
    v: DbView,
    app_path: Seq<char>,
    info: PlistValue,
    table: Seq<UtiExtensions>,
)
    requires
        v.wf(),
    ensures
        info matches PlistValue::Dictionary(d) ==> (process_outcome(v, app_path, info, table) matches (
            w,
            Ok((id, n)),
        ) ==> {
            let items = as_items(lookup(d@, "CFBundleDocumentTypes"@));
            &&& forall|j: int, k: int|
                0 <= j < items.len() && 0 <= k < declared_legacy(items[j]).len() && usable(
                    lowercase_of(#[trigger] declared_legacy(items[j])[k]),
                ) ==> w.has_link(lowercase_of(declared_legacy(items[j])[k]), id)
            &&& forall|j: int, k: int, m: int|
                0 <= j < items.len() && 0 <= k < doc_types_named(items[j]).len() && 0 <= m < table_exts(
                    table,
                    doc_types_named(items[j])[k],
                ).len() && usable(lowercase_of(#[trigger] table_exts(table, #[trigger] doc_types_named(items[j])[k])[m]))
                    ==> w.has_link(lowercase_of(table_exts(table, doc_types_named(items[j])[k])[m]), id)
            &&& n == sum_to(items.len() as int, assoc_counts(items, table))
        }),
{
    if let PlistValue::Dictionary(d) = info {
        law_scan_reflects_declarations(v, app_path, info, table);
        let items = as_items(lookup(d@, "CFBundleDocumentTypes"@));
        lemma_planned_len(items, table);
        if let (w, Ok((id, n))) = process_outcome(v, app_path, info, table) {
            assert(associations(d@, table) == planned(items, table));
            assert forall|j: int, k: int|
                0 <= j < items.len() && 0 <= k < declared_legacy(items[j]).len() && usable(
                    lowercase_of(#[trigger] declared_legacy(items[j])[k]),
                ) implies w.has_link(lowercase_of(declared_legacy(items[j])[k]), id) by {
                let dt = items[j]->Dictionary_0@;
                let legacy = declared_legacy(items[j]);
                assert(lowered(legacy)[k] == lowercase_of(legacy[k]));
                assert(doc_exts(dt, table)[k] == lowered(legacy)[k]);
                lemma_declared_planned(items, table, j, k);
            }
            assert forall|j: int, k: int, m: int|
                0 <= j < items.len() && 0 <= k < doc_types_named(items[j]).len() && 0 <= m < table_exts(
                    table,
                    doc_types_named(items[j])[k],
                ).len() && usable(lowercase_of(#[trigger] table_exts(table, #[trigger] doc_types_named(items[j])[k])[m]))
                    implies w.has_link(lowercase_of(table_exts(table, doc_types_named(items[j])[k])[m]), id) by {
                let dt = items[j]->Dictionary_0@;
                let utis = doc_types_named(items[j]);
                let e = table_exts(table, utis[k])[m];
                let legacy = declared_legacy(items[j]);
                lemma_resolved_has(utis, table, k, m);
                let rs = resolved(utis, table);
                let r = choose|r: int| 0 <= r < rs.len() && rs[r] == e;
                assert(lowered(rs)[r] == lowercase_of(e));
                let i = lowered(legacy).len() + r;
                assert(doc_exts(dt, table)[i] == lowered(rs)[r]);
                lemma_declared_planned(items, table, j, i);
            }
        }
    }
}


/// The application called `name` has its bundle at `path` and can open
/// `ext`.
pub open spec fn named_at(v: DbView, name: Seq<char>, path: Seq<char>, ext: Seq<char>) -> bool {
    exists|k: int|
        0 <= k < v.apps.len() && #[trigger] v.apps[k].name == name && v.apps[k].path == path && v.has_link(
            ext,
            v.apps[k].id,
        )
}

/// No handler after the `i`th has its name.
pub open spec fn last_of_its_name(hs: Seq<(Seq<char>, Seq<char>)>, i: int) -> bool {
    forall|j: int| i < j < hs.len() ==> #[trigger] hs[j].0 != hs[i].0
}

/// Upserting an application leaves every application of another name as
/// it was, and the pairs.
proof fn lemma_upsert_app_others(v: DbView, name: Seq<char>, path: Seq<char>)
    requires
        v.wf(),
    ensures
        v.upsert_app(name, path) matches Ok((w, id)) ==> {
            &&& w.links == v.links
            &&& forall|n: Seq<char>, p: Seq<char>, e: Seq<char>|
                n != name && named_at(v, n, p, e) ==> #[trigger] named_at(w, n, p, e)
        },
{
    lemma_first_index(v.apps, app_named(name));
    if let Ok((w, id)) = v.upsert_app(name, path) {
        w.lemma_links_frame(v);
        assert forall|n: Seq<char>, p: Seq<char>, e: Seq<char>| n != name && named_at(v, n, p, e) implies #[trigger] named_at(
            w,
            n,
            p,
            e,
        ) by {
            let k = choose|k: int|
                0 <= k < v.apps.len() && #[trigger] v.apps[k].name == n && v.apps[k].path == p && v.has_link(
                    e,
                    v.apps[k].id,
                );
            assert(w.apps[k] == v.apps[k]);
        }
    }
}

/// Recording a pair keeps every application where it was and every pair.
proof fn lemma_upsert_ext_app_named_at(v: DbView, ext: Seq<char>, id: i64, d: Seq<char>)
    requires
        v.wf(),
    ensures
        forall|n: Seq<char>, p: Seq<char>, e: Seq<char>|
            named_at(v, n, p, e) ==> #[trigger] named_at(v.upsert_ext_app(ext, id, d).0, n, p, e),
{
    lemma_upsert_ext_app_links(v, ext, id, d);
    let w = v.upsert_ext_app(ext, id, d).0;
    assert forall|n: Seq<char>, p: Seq<char>, e: Seq<char>| named_at(v, n, p, e) implies #[trigger] named_at(w, n, p, e) by {
        let k = choose|k: int|
            0 <= k < v.apps.len() && #[trigger] v.apps[k].name == n && v.apps[k].path == p && v.has_link(e, v.apps[k].id);
        assert(w.has_link(e, v.apps[k].id));
    }
}

proof fn lemma_apply_handlers_paths(v: DbView, ext: Seq<char>, hs: Seq<(Seq<char>, Seq<char>)>)
    requires
        v.wf(),
    ensures
        apply_handlers(v, ext, hs).1 is Ok ==> forall|i: int|
            0 <= i < hs.len() && last_of_its_name(hs, i) ==> named_at(
                apply_handlers(v, ext, hs).0,
                #[trigger] hs[i].0,
                hs[i].1,
                ext,
            ),
    decreases hs.len(),
{
    if hs.len() > 0 {
        let init = hs.drop_last();
        let (name, path) = hs.last();
        lemma_apply_handlers_paths(v, ext, init);
        lemma_apply_handlers(v, ext, init);
        let (w, r) = apply_handlers(v, ext, init);
        if r is Ok {
            w.lemma_upsert_app_wf(name, path);
            lemma_upsert_app_others(w, name, path);
            law_upsert_app_read_back(w, name, path);
            if let Ok((w1, id)) = w.upsert_app(name, path) {
                lemma_upsert_ext_app_named_at(w1, ext, id, Seq::empty());
                law_upsert_ext_app_read_back(w1, ext, id, Seq::empty());
                let (w2, r2) = w1.upsert_ext_app(ext, id, Seq::empty());
                if r2 is Ok {
                    assert forall|i: int| 0 <= i < hs.len() && last_of_its_name(hs, i) implies named_at(
                        w2,
                        #[trigger] hs[i].0,
                        hs[i].1,
                        ext,
                    ) by {
                        if i < init.len() {
                            assert(init[i] == hs[i]);
                            assert(hs[hs.len() - 1].0 != hs[i].0);
                            assert(last_of_its_name(init, i)) by {
                                assert forall|j: int| i < j < init.len() implies #[trigger] init[j].0 != init[i].0 by {
                                    assert(init[j] == hs[j]);
                                    assert(hs[j].0 != hs[i].0);
                                }
                            }
                            assert(named_at(w, init[i].0, init[i].1, ext));
                            assert(named_at(w1, hs[i].0, hs[i].1, ext));
                        } else {
                            let k = choose|k: int| 0 <= k < w1.apps.len() && #[trigger] w1.apps[k] == (AppRec {
                                id,
                                name,
                                path,
                            });
                            w1.lemma_upsert_ext_app_wf(ext, id, Seq::empty());
                            assert(w2.apps[k] == w1.apps[k]);
                            assert(w2.apps[k].name == name);
                        }
                    }
                }
            }
        }
    }
}

/// What Launch Services reports of handler locations is recorded: when a
/// report is applied without refusal, each reported handler that is the
/// last of its name in the report (and is not the default's name) is an
/// application of that name whose bundle is at the reported location and
/// that can open the report's extension; the reported default is an
/// application of its name at its reported location.
pub proof fn law_launch_services_paths(v: DbView, rep: LsReport)
    requires
        v.wf(),
    ensures
        apply_report(v, rep).1 is Ok ==> {
            &&& forall|i: int|
                0 <= i < rep.handlers@.len() && last_of_its_name(pair_texts(rep.handlers@), i) && !(
                rep.default_app matches Some(d) && d.0@ == rep.handlers@[i].0@) ==> named_at(
                    apply_report(v, rep).0,
                    #[trigger] rep.handlers@[i].0@,
                    rep.handlers@[i].1@,
                    rep.ext@,
                )
            &&& rep.default_app matches Some(d) ==> exists|k: int|
                0 <= k < apply_report(v, rep).0.apps.len() && #[trigger] apply_report(v, rep).0.apps[k].name == d.0@
                    && apply_report(v, rep).0.apps[k].path == d.1@
        },
{
    let hs = pair_texts(rep.handlers@);
    let ext = rep.ext@;
    lemma_apply_handlers_paths(v, ext, hs);
    lemma_apply_handlers(v, ext, hs);
    let (w, r) = apply_handlers(v, ext, hs);
    let out = apply_report(v, rep);
    if r is Ok && out.1 is Ok {
        assert forall|i: int| 0 <= i < rep.handlers@.len() implies #[trigger] hs[i] == (rep.handlers@[i].0@, rep.handlers@[i].1@) by {}
        match opt_pair_text(rep.default_app) {
            None => {
                assert(out.0 == w);
                assert forall|i: int|
                    0 <= i < rep.handlers@.len() && last_of_its_name(hs, i) implies named_at(
                        out.0,
                        #[trigger] rep.handlers@[i].0@,
                        rep.handlers@[i].1@,
                        ext,
                    ) by {
                    assert(hs[i].0 == rep.handlers@[i].0@);
                }
            },
            Some((name, path)) => {
                w.lemma_upsert_app_wf(name, path);
                lemma_upsert_app_others(w, name, path);
                law_upsert_app_read_back(w, name, path);
                let (w1, id) = w.upsert_app(name, path)->Ok_0;
                law_set_default_read_back(w1, ext, id);
                let w2 = w1.set_default_app(ext, id)->Ok_0;
                assert(out.0 == w2);
                let k = choose|k: int| 0 <= k < w1.apps.len() && #[trigger] w1.apps[k] == (AppRec { id, name, path });
                assert(w2.apps[k].name == name && w2.apps[k].path == path);
                w2.lemma_links_frame(w1);
                assert forall|i: int|
                    0 <= i < rep.handlers@.len() && last_of_its_name(hs, i) && name != rep.handlers@[i].0@ implies named_at(
                        out.0,
                        #[trigger] rep.handlers@[i].0@,
                        rep.handlers@[i].1@,
                        ext,
                    ) by {
                    assert(hs[i].0 == rep.handlers@[i].0@);
                    assert(named_at(w, hs[i].0, hs[i].1, ext));
                    assert(named_at(w1, hs[i].0, hs[i].1, ext));
                    let m = choose|m: int|
                        0 <= m < w1.apps.len() && #[trigger] w1.apps[m].name == hs[i].0 && w1.apps[m].path == hs[i].1
                            && w1.has_link(ext, w1.apps[m].id);
                    assert(w2.apps[m] == w1.apps[m]);
                    assert(w2.has_link(ext, w2.apps[m].id));
                }
            },
        }
    }
}

} // verus!
