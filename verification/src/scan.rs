//! The scan of installed applications: what an application's property list
//! says it can open, and how the findings enter the catalogue.

use vstd::prelude::*;
use vstd::string::*;
use crate::db::Database;
use crate::text::{decimal, push_decimal};
use crate::model::{first_index, lemma_first_index_is, lemma_take_next, lemma_texts_push, opt_text, texts, DbError, DbView};
use crate::plist::{
    as_items, as_text, collect_strings, get, lookup, parse_plist, plist_of, strings_in, DictEntry, PlistValue,
    UtiExtensions,
};

verus! {

/// What `str::to_lowercase` gives for a text.
pub uninterp spec fn lowercase_of(s: Seq<char>) -> Seq<char>;

/// Calls `str::to_lowercase`, which maps every character to its Unicode
/// lowercase form.  The contract only names the result: it is the same for
/// the same text.
#[verifier::external_body]
fn to_lowercase(s: &str) -> (r: String)
    ensures
        r@ == lowercase_of(s@),
{
    s.to_lowercase()
}

/// What `Path::file_stem` gives for a path (as text).
pub uninterp spec fn file_stem_of(path: Seq<char>) -> Option<Seq<char>>;

/// Calls `std::path::Path::file_stem` on `path`: the final component
/// without its last extension, or nothing when the path has no final file
/// name.  The contract only names the result.
#[verifier::external_body]
fn file_stem(path: &str) -> (r: Option<String>)
    ensures
        opt_text(r) == file_stem_of(path@),
{
    match std::path::Path::new(path).file_stem() {
        Some(s) => Some(s.to_string_lossy().into_owned()),
        None => None,
    }
}

/// The name an application gets from its bundle location: the bundle's
/// file stem, or nothing.
pub open spec fn name_from_path(path: Seq<char>) -> Seq<char> {
    match file_stem_of(path) {
        Some(s) => s,
        None => Seq::empty(),
    }
}

/// Derives an application's name from its bundle location.
pub fn app_name_from_path(path: &str) -> (r: String)
    ensures
        r@ == name_from_path(path@),
{
    match file_stem(path) {
        Some(s) => s,
        None => String::new(),
    }
}

/// The name an application declares (`CFBundleDisplayName`, else
/// `CFBundleName`, when that value is a string), or the one its location
/// gives.
pub open spec fn bundle_name(entries: Seq<DictEntry>, app_path: Seq<char>) -> Seq<char> {
    let declared = match lookup(entries, "CFBundleDisplayName"@) {
        Some(x) => Some(x),
        None => lookup(entries, "CFBundleName"@),
    };
    match as_text(declared) {
        Some(s) => s,
        None => name_from_path(app_path),
    }
}

/// Each text in lowercase.
pub open spec fn lowered(s: Seq<Seq<char>>) -> Seq<Seq<char>> {
    s.map_values(|x: Seq<char>| lowercase_of(x))
}

/// The entry is for type `uti`.
pub open spec fn uti_is(uti: Seq<char>) -> spec_fn(UtiExtensions) -> bool {
    |u: UtiExtensions| u.uti@ == uti
}

/// The extensions recorded for `uti` (the first entry for it), or none.
pub open spec fn table_exts(table: Seq<UtiExtensions>, uti: Seq<char>) -> Seq<Seq<char>> {
    let k = first_index(table, uti_is(uti));
    if k >= 0 {
        texts(table[k].extensions@)
    } else {
        Seq::empty()
    }
}

/// The extensions of each type in `utis`, in order.
pub open spec fn resolved(utis: Seq<Seq<char>>, table: Seq<UtiExtensions>) -> Seq<Seq<char>>
    decreases utis.len(),
{
    if utis.len() == 0 {
        Seq::empty()
    } else {
        resolved(utis.drop_last(), table) + table_exts(table, utis.last())
    }
}

/// The extensions a document type declares: its own list, then those of
/// its content types, all in lowercase.
pub open spec fn doc_exts(entries: Seq<DictEntry>, table: Seq<UtiExtensions>) -> Seq<Seq<char>> {
    lowered(strings_in(as_items(lookup(entries, "CFBundleTypeExtensions"@)))) + lowered(
        resolved(strings_in(as_items(lookup(entries, "LSItemContentTypes"@))), table),
    )
}

/// The description of a document type, or the empty text.
pub open spec fn doc_description(entries: Seq<DictEntry>) -> Seq<char> {
    match as_text(lookup(entries, "CFBundleTypeName"@)) {
        Some(s) => s,
        None => Seq::empty(),
    }
}

/// A declared extension is usable: neither `*` nor empty.
pub open spec fn usable(ext: Seq<char>) -> bool {
    ext != "*"@ && ext.len() > 0
}

/// The usable extensions of `exts`, each with `description`.
pub open spec fn with_description(exts: Seq<Seq<char>>, description: Seq<char>) -> Seq<(Seq<char>, Seq<char>)>
    decreases exts.len(),
{
    if exts.len() == 0 {
        Seq::empty()
    } else {
        with_description(exts.drop_last(), description) + if usable(exts.last()) {
            seq![(exts.last(), description)]
        } else {
            Seq::empty()
        }
    }
}

/// The (extension, description) pairs that one document type declares.
pub open spec fn doc_assocs(item: PlistValue, table: Seq<UtiExtensions>) -> Seq<(Seq<char>, Seq<char>)> {
    match item {
        PlistValue::Dictionary(d) => with_description(doc_exts(d@, table), doc_description(d@)),
        _ => Seq::empty(),
    }
}

/// The pairs that all of `items` declare, in order.
pub open spec fn planned(items: Seq<PlistValue>, table: Seq<UtiExtensions>) -> Seq<(Seq<char>, Seq<char>)>
    decreases items.len(),
{
    if items.len() == 0 {
        Seq::empty()
    } else {
        planned(items.drop_last(), table) + doc_assocs(items.last(), table)
    }
}

/// The pairs that an application's property list declares.
pub open spec fn associations(entries: Seq<DictEntry>, table: Seq<UtiExtensions>) -> Seq<(Seq<char>, Seq<char>)> {
    planned(as_items(lookup(entries, "CFBundleDocumentTypes"@)), table)
}

/// The content types one document type names.
pub open spec fn doc_types_named(item: PlistValue) -> Seq<Seq<char>> {
    match item {
        PlistValue::Dictionary(d) => strings_in(as_items(lookup(d@, "LSItemContentTypes"@))),
        _ => Seq::empty(),
    }
}

/// The content types that all of `items` name, in order.
pub open spec fn types_named(items: Seq<PlistValue>) -> Seq<Seq<char>>
    decreases items.len(),
{
    if items.len() == 0 {
        Seq::empty()
    } else {
        types_named(items.drop_last()) + doc_types_named(items.last())
    }
}

/// The text of each pair.
pub open spec fn pair_texts(v: Seq<(String, String)>) -> Seq<(Seq<char>, Seq<char>)> {
    v.map_values(|p: (String, String)| (p.0@, p.1@))
}

/// The first component of each pair.
pub open spec fn firsts(v: Seq<(Seq<char>, Seq<char>)>) -> Seq<Seq<char>> {
    v.map_values(|p: (Seq<char>, Seq<char>)| p.0)
}

/// Each text in lowercase.
fn lower_all(v: &Vec<String>) -> (r: Vec<String>)
    ensures
        texts(r@) == lowered(texts(v@)),
{
    let mut r: Vec<String> = Vec::new();
    let mut i: usize = 0;
    while i < v.len()
        invariant
            i <= v.len(),
            texts(r@) == lowered(texts(v@.take(i as int))),
        decreases v.len() - i,
    {
        let l = to_lowercase(v[i].as_str());
        let ghost before = r@;
        r.push(l);
        proof {
            lemma_texts_push(before, l);
            lemma_take_next(v@, i as int);
            lemma_texts_push(v@.take(i as int), v@[i as int]);
            assert(lowered(texts(v@.take(i + 1))) =~= lowered(texts(v@.take(i as int))).push(l@));
        }
        i = i + 1;
    }
    proof {
        assert(v@.take(i as int) =~= v@);
    }
    r
}

/// The extensions recorded for `uti`.
fn exts_of_type(table: &[UtiExtensions], uti: &String) -> (r: Vec<String>)
    ensures
        texts(r@) == table_exts(table@, uti@),
{
    let mut i: usize = 0;
    while i < table.len()
        invariant
            i <= table.len(),
            forall|j: int| 0 <= j < i ==> !uti_is(uti@)(#[trigger] table@[j]),
        decreases table.len() - i,
    {
        if table[i].uti == *uti {
            proof {
                lemma_first_index_is(table@, uti_is(uti@), i as int);
            }
            let src = &table[i].extensions;
            let mut r: Vec<String> = Vec::new();
            let mut k: usize = 0;
            while k < src.len()
                invariant
                    k <= src.len(),
                    texts(r@) == texts(src@.take(k as int)),
                decreases src.len() - k,
            {
                let e = src[k].clone();
                let ghost before = r@;
                r.push(e);
                proof {
                    lemma_texts_push(before, e);
                    lemma_take_next(src@, k as int);
                    lemma_texts_push(src@.take(k as int), src@[k as int]);
                }
                k = k + 1;
            }
            proof {
                assert(src@.take(k as int) =~= src@);
            }
            return r;
        }
        i = i + 1;
    }
    proof {
        lemma_first_index_is(table@, uti_is(uti@), -1);
    }
    Vec::new()
}

/// The extensions of each type in `utis`, in order.
fn resolve(utis: &Vec<String>, table: &[UtiExtensions]) -> (r: Vec<String>)
    ensures
        texts(r@) == resolved(texts(utis@), table@),
{
    let mut r: Vec<String> = Vec::new();
    let mut i: usize = 0;
    while i < utis.len()
        invariant
            i <= utis.len(),
            texts(r@) == resolved(texts(utis@.take(i as int)), table@),
        decreases utis.len() - i,
    {
        let more = exts_of_type(table, &utis[i]);
        let ghost before = r@;
        let mut k: usize = 0;
        while k < more.len()
            invariant
                k <= more.len(),
                texts(r@) == texts(before) + texts(more@.take(k as int)),
            decreases more.len() - k,
        {
            let e = more[k].clone();
            let ghost mid = r@;
            r.push(e);
            proof {
                lemma_texts_push(mid, e);
                lemma_take_next(more@, k as int);
                lemma_texts_push(more@.take(k as int), more@[k as int]);
                assert(texts(before) + texts(more@.take(k + 1)) =~= (texts(before) + texts(more@.take(k as int))).push(e@));
            }
            k = k + 1;
        }
        proof {
            assert(more@.take(k as int) =~= more@);
            assert(texts(utis@.take(i + 1)).drop_last() =~= texts(utis@.take(i as int)));
            assert(texts(utis@.take(i + 1)).last() == utis@[i as int]@);
        }
        i = i + 1;
    }
    proof {
        assert(utis@.take(i as int) =~= utis@);
    }
    r
}

/// The usable extensions of `exts`, each paired with `description`.
fn usable_pairs(exts: &Vec<String>, description: &String) -> (r: Vec<(String, String)>)
    ensures
        pair_texts(r@) == with_description(texts(exts@), description@),
{
    let star = String::from_str("*");
    let mut r: Vec<(String, String)> = Vec::new();
    let mut i: usize = 0;
    while i < exts.len()
        invariant
            star@ == "*"@,
            i <= exts.len(),
            pair_texts(r@) == with_description(texts(exts@.take(i as int)), description@),
        decreases exts.len() - i,
    {
        proof {
            lemma_take_next(exts@, i as int);
            lemma_texts_push(exts@.take(i as int), exts@[i as int]);
        }
        let e = &exts[i];
        proof {
            assert(texts(exts@.take(i + 1)).drop_last() =~= texts(exts@.take(i as int)));
            assert(texts(exts@.take(i + 1)).last() == e@);
        }
        let keep = !e.as_str().is_empty() && !(*e == star);
        assert(keep == usable(e@));
        if keep {
            let ghost before = r@;
            let p = (e.clone(), description.clone());
            r.push(p);
            proof {
                assert(pair_texts(r@) =~= pair_texts(before).push((e@, description@)));
            }
        }
        i = i + 1;
    }
    proof {
        assert(exts@.take(i as int) =~= exts@);
    }
    r
}

/// Moves every element of `more` to the end of `v`.
fn append_all<T>(v: &mut Vec<T>, more: Vec<T>)
    ensures
        final(v)@ == old(v)@ + more@,
{
    let mut more = more;
    v.append(&mut more);
}

/// The (extension, description) pairs that one document type declares.
pub fn doc_associations(item: &PlistValue, table: &[UtiExtensions]) -> (r: Vec<(String, String)>)
    ensures
        pair_texts(r@) == doc_assocs(*item, table@),
{
    match item {
        PlistValue::Dictionary(d) => {
            let legacy = match get(d, "CFBundleTypeExtensions") {
                Some(PlistValue::Array(a)) => collect_strings(a),
                _ => Vec::new(),
            };
            let utis = match get(d, "LSItemContentTypes") {
                Some(PlistValue::Array(a)) => collect_strings(a),
                _ => Vec::new(),
            };
            let description = match get(d, "CFBundleTypeName") {
                Some(PlistValue::String(s)) => s.clone(),
                _ => String::new(),
            };
            let mut all = lower_all(&legacy);
            let modern = lower_all(&resolve(&utis, table));
            let ghost a0 = all@;
            append_all(&mut all, modern);
            proof {
                assert(texts(all@) =~= texts(a0) + texts(modern@));
            }
            usable_pairs(&all, &description)
        },
        _ => Vec::new(),
    }
}

/// The (extension, description) pairs that an application's property
/// list declares, in document order.
pub fn planned_associations(entries: &Vec<DictEntry>, table: &[UtiExtensions]) -> (r: Vec<(String, String)>)
    ensures
        pair_texts(r@) == associations(entries@, table@),
{
    let items = match get(entries, "CFBundleDocumentTypes") {
        Some(PlistValue::Array(a)) => a,
        _ => {
            return Vec::new();
        },
    };
    let mut r: Vec<(String, String)> = Vec::new();
    let mut i: usize = 0;
    while i < items.len()
        invariant
            i <= items.len(),
            pair_texts(r@) == planned(items@.take(i as int), table@),
        decreases items.len() - i,
    {
        proof {
            assert(items@.take(i + 1).drop_last() =~= items@.take(i as int));
        }
        let more = doc_associations(&items[i], table);
        let ghost before = r@;
        append_all(&mut r, more);
        proof {
            assert(pair_texts(r@) =~= pair_texts(before) + pair_texts(more@));
        }
        i = i + 1;
    }
    proof {
        assert(items@.take(i as int) =~= items@);
    }
    r
}

/// The content types that the document types of a property list name, in
/// order.
pub open spec fn declared_types(info: PlistValue) -> Seq<Seq<char>> {
    match info {
        PlistValue::Dictionary(d) => types_named(as_items(lookup(d@, "CFBundleDocumentTypes"@))),
        _ => Seq::empty(),
    }
}

/// The content types that an application's document types name, in
/// order: the types whose extensions the scan needs to know.
pub fn content_types(info: &PlistValue) -> (r: Vec<String>)
    ensures
        texts(r@) == declared_types(*info),
{
    let entries = match info {
        PlistValue::Dictionary(d) => d,
        _ => {
            return Vec::new();
        },
    };
    let items = match get(entries, "CFBundleDocumentTypes") {
        Some(PlistValue::Array(a)) => a,
        _ => {
            return Vec::new();
        },
    };
    let mut r: Vec<String> = Vec::new();
    let mut i: usize = 0;
    while i < items.len()
        invariant
            i <= items.len(),
            texts(r@) == types_named(items@.take(i as int)),
        decreases items.len() - i,
    {
        proof {
            assert(items@.take(i + 1).drop_last() =~= items@.take(i as int));
        }
        let more = match &items[i] {
            PlistValue::Dictionary(d) => match get(d, "LSItemContentTypes") {
                Some(PlistValue::Array(a)) => collect_strings(a),
                _ => Vec::new(),
            },
            _ => Vec::new(),
        };
        let ghost before = r@;
        append_all(&mut r, more);
        proof {
            assert(texts(r@) =~= texts(before) + texts(more@));
        }
        i = i + 1;
    }
    proof {
        assert(items@.take(i as int) =~= items@);
    }
    r
}

/// Why an application could not be scanned.
#[derive(Debug, Clone, Copy, PartialEq, Eq, Structural)]
pub enum ScanError {
    /// Its property-list file does not parse.
    NotAPropertyList,
    /// Its property list is not a dictionary.
    NotADictionary,
    /// The catalogue refused a change.
    Db(DbError),
}

/// Records each pair for application `id` in turn, stopping at the first
/// refusal.
pub open spec fn apply_assocs(v: DbView, id: i64, assocs: Seq<(Seq<char>, Seq<char>)>) -> (DbView, Result<(), DbError>)
    decreases assocs.len(),
{
    if assocs.len() == 0 {
        (v, Ok(()))
    } else {
        let (w, r) = apply_assocs(v, id, assocs.drop_last());
        match r {
            Err(e) => (w, Err(e)),
            Ok(_) => w.upsert_ext_app(assocs.last().0, id, assocs.last().1),
        }
    }
}

/// Once recording is refused, later pairs change nothing.
pub proof fn lemma_apply_assocs_sticky(v: DbView, id: i64, assocs: Seq<(Seq<char>, Seq<char>)>, k: int)
    requires
        0 <= k <= assocs.len(),
        apply_assocs(v, id, assocs.take(k)).1 is Err,
    ensures
        apply_assocs(v, id, assocs) == apply_assocs(v, id, assocs.take(k)),
    decreases assocs.len(),
{
    if assocs.len() == k {
        assert(assocs.take(k) =~= assocs);
    } else {
        assert(assocs.drop_last().take(k) =~= assocs.take(k));
        lemma_apply_assocs_sticky(v, id, assocs.drop_last(), k);
    }
}

/// Recording pairs keeps the catalogue's rules.
pub proof fn lemma_apply_assocs_wf(v: DbView, id: i64, assocs: Seq<(Seq<char>, Seq<char>)>)
    requires
        v.wf(),
    ensures
        apply_assocs(v, id, assocs).0.wf(),
    decreases assocs.len(),
{
    if assocs.len() > 0 {
        lemma_apply_assocs_wf(v, id, assocs.drop_last());
        let (w, r) = apply_assocs(v, id, assocs.drop_last());
        w.lemma_upsert_ext_app_wf(assocs.last().0, id, assocs.last().1);
    }
}

/// What scanning an application does to the catalogue `v`: it adds or
/// moves the application under the name its property list declares,
/// records every usable extension its document types declare (with their
/// descriptions), then forgets the extensions it no longer declares.
/// Answers the application's identifier and the number of declared pairs.
pub open spec fn process_outcome(
    v: DbView,
    app_path: Seq<char>,
    info: PlistValue,
    table: Seq<UtiExtensions>,
) -> (DbView, Result<(i64, nat), ScanError>) {
    match info {
        PlistValue::Dictionary(d) => match v.upsert_app(bundle_name(d@, app_path), app_path) {
            Err(e) => (v, Err(ScanError::Db(e))),
            Ok((v1, id)) => {
                let assocs = associations(d@, table);
                let (v2, r) = apply_assocs(v1, id, assocs);
                match r {
                    Err(e) => (v2, Err(ScanError::Db(e))),
                    Ok(_) => (v2.remove_stale(id, firsts(assocs)), Ok((id, assocs.len()))),
                }
            },
        },
        _ => (v, Err(ScanError::NotADictionary)),
    }
}

/// Scans the application at `app_path` whose property list is `info`;
/// `table` gives the extensions of the content types it names (see
/// `content_types`).
pub fn process_app(db: &mut Database, app_path: &str, info: &PlistValue, table: &[UtiExtensions]) -> (r: Result<(i64, usize), ScanError>)
    ensures
        ({
            let (v, out) = process_outcome(old(db)@, app_path@, *info, table@);
            &&& final(db)@ == v
            &&& match (r, out) {
                (Ok((id, n)), Ok((id2, n2))) => id == id2 && n == n2,
                (Err(e), Err(e2)) => e == e2,
                _ => false,
            }
        }),
{
    let entries = match info {
        PlistValue::Dictionary(d) => d,
        _ => {
            return Err(ScanError::NotADictionary);
        },
    };
    let declared = match get(entries, "CFBundleDisplayName") {
        Some(x) => Some(x),
        None => get(entries, "CFBundleName"),
    };
    let name = match declared {
        Some(PlistValue::String(s)) => s.clone(),
        _ => app_name_from_path(app_path),
    };
    assert(name@ == bundle_name(entries@, app_path@));
    let ghost v0 = db@;
    let id = match db.upsert_app(name.as_str(), app_path) {
        Ok(id) => id,
        Err(e) => {
            return Err(ScanError::Db(e));
        },
    };
    let ghost v1 = db@;
    let assocs = planned_associations(entries, table);
    let ghost all = pair_texts(assocs@);
    let mut found: Vec<String> = Vec::new();
    let mut k: usize = 0;
    proof {
        assert(all.take(0) =~= Seq::<(Seq<char>, Seq<char>)>::empty());
        assert(firsts(all.take(0)) =~= Seq::<Seq<char>>::empty());
    }
    while k < assocs.len()
        invariant
            k <= assocs.len(),
            all == pair_texts(assocs@),
            v0.upsert_app(bundle_name(entries@, app_path@), app_path@) == Ok::<(DbView, i64), DbError>((v1, id)),
            v0 == old(db)@,
            *info == PlistValue::Dictionary(*entries),
            all == associations(entries@, table@),
            (db@, Ok::<(), DbError>(())) == apply_assocs(v1, id, all.take(k as int)),
            texts(found@) == firsts(all.take(k as int)),
        decreases assocs.len() - k,
    {
        proof {
            assert(all.take(k + 1).drop_last() =~= all.take(k as int));
            assert(all.take(k + 1).last() == all[k as int]);
        }
        let r = db.upsert_ext_app(assocs[k].0.as_str(), id, assocs[k].1.as_str());
        if let Err(e) = r {
            proof {
                lemma_apply_assocs_sticky(v1, id, all, k + 1);
            }
            return Err(ScanError::Db(e));
        }
        let e = assocs[k].0.clone();
        let ghost before = found@;
        found.push(e);
        proof {
            lemma_texts_push(before, e);
            assert(firsts(all.take(k + 1)) =~= firsts(all.take(k as int)).push(all[k as int].0));
        }
        k = k + 1;
    }
    proof {
        assert(all.take(k as int) =~= all);
    }
    db.remove_stale_ext_apps(id, found.as_slice());
    Ok((id, assocs.len()))
}

/// What Launch Services reports for one extension: every application that
/// can open it (name and bundle location) and its default application.
pub struct LsReport {
    pub ext: String,
    pub handlers: Vec<(String, String)>,
    pub default_app: Option<(String, String)>,
}

/// Adds or moves each handler and records that it can open `ext` (with an
/// empty description), stopping at the first refusal.
pub open spec fn apply_handlers(v: DbView, ext: Seq<char>, hs: Seq<(Seq<char>, Seq<char>)>) -> (DbView, Result<(), DbError>)
    decreases hs.len(),
{
    if hs.len() == 0 {
        (v, Ok(()))
    } else {
        let (w, r) = apply_handlers(v, ext, hs.drop_last());
        match r {
            Err(e) => (w, Err(e)),
            Ok(_) => match w.upsert_app(hs.last().0, hs.last().1) {
                Err(e) => (w, Err(e)),
                Ok((w2, id)) => w2.upsert_ext_app(ext, id, Seq::empty()),
            },
        }
    }
}

/// Adds or moves the default application and makes it the default of
/// `ext`.
pub open spec fn apply_default(v: DbView, ext: Seq<char>, d: Option<(Seq<char>, Seq<char>)>) -> (DbView, Result<(), DbError>) {
    match d {
        None => (v, Ok(())),
        Some((name, path)) => match v.upsert_app(name, path) {
            Err(e) => (v, Err(e)),
            Ok((w, id)) => match w.set_default_app(ext, id) {
                Ok(w2) => (w2, Ok(())),
                Err(e) => (w, Err(e)),
            },
        },
    }
}

/// The text of an optional pair.
pub open spec fn opt_pair_text(d: Option<(String, String)>) -> Option<(Seq<char>, Seq<char>)> {
    match d {
        Some(p) => Some((p.0@, p.1@)),
        None => None,
    }
}

/// Applies one report: its handlers, then its default.
pub open spec fn apply_report(v: DbView, rep: LsReport) -> (DbView, Result<(), DbError>) {
    let (w, r) = apply_handlers(v, rep.ext@, pair_texts(rep.handlers@));
    match r {
        Err(e) => (w, Err(e)),
        Ok(_) => apply_default(w, rep.ext@, opt_pair_text(rep.default_app)),
    }
}

/// Applies the reports in turn, stopping at the first refusal.
pub open spec fn apply_reports(v: DbView, reps: Seq<LsReport>) -> (DbView, Result<(), DbError>)
    decreases reps.len(),
{
    if reps.len() == 0 {
        (v, Ok(()))
    } else {
        let (w, r) = apply_reports(v, reps.drop_last());
        match r {
            Err(e) => (w, Err(e)),
            Ok(_) => apply_report(w, reps.last()),
        }
    }
}

/// The number of handlers in all reports.
pub open spec fn handler_total(reps: Seq<LsReport>) -> nat
    decreases reps.len(),
{
    if reps.len() == 0 {
        0
    } else {
        handler_total(reps.drop_last()) + reps.last().handlers@.len()
    }
}

proof fn lemma_apply_handlers_sticky(v: DbView, ext: Seq<char>, hs: Seq<(Seq<char>, Seq<char>)>, k: int)
    requires
        0 <= k <= hs.len(),
        apply_handlers(v, ext, hs.take(k)).1 is Err,
    ensures
        apply_handlers(v, ext, hs) == apply_handlers(v, ext, hs.take(k)),
    decreases hs.len(),
{
    if hs.len() == k {
        assert(hs.take(k) =~= hs);
    } else {
        assert(hs.drop_last().take(k) =~= hs.take(k));
        lemma_apply_handlers_sticky(v, ext, hs.drop_last(), k);
    }
}

proof fn lemma_apply_reports_sticky(v: DbView, reps: Seq<LsReport>, k: int)
    requires
        0 <= k <= reps.len(),
        apply_reports(v, reps.take(k)).1 is Err,
    ensures
        apply_reports(v, reps) == apply_reports(v, reps.take(k)),
    decreases reps.len(),
{
    if reps.len() == k {
        assert(reps.take(k) =~= reps);
    } else {
        assert(reps.drop_last().take(k) =~= reps.take(k));
        lemma_apply_reports_sticky(v, reps.drop_last(), k);
    }
}

/// Applies one report to the catalogue.
fn apply_one_report(db: &mut Database, rep: &LsReport) -> (r: Result<(), DbError>)
    ensures
        (final(db)@, r) == apply_report(old(db)@, *rep),
{
    let ghost v0 = db@;
    let ghost hs = pair_texts(rep.handlers@);
    let mut k: usize = 0;
    proof {
        assert(hs.take(0) =~= Seq::<(Seq<char>, Seq<char>)>::empty());
    }
    while k < rep.handlers.len()
        invariant
            k <= rep.handlers.len(),
            hs == pair_texts(rep.handlers@),
            v0 == old(db)@,
            (db@, Ok::<(), DbError>(())) == apply_handlers(v0, rep.ext@, hs.take(k as int)),
        decreases rep.handlers.len() - k,
    {
        proof {
            assert(hs.take(k + 1).drop_last() =~= hs.take(k as int));
            assert(hs.take(k + 1).last() == hs[k as int]);
        }
        let ghost before = db@;
        match db.upsert_app(rep.handlers[k].0.as_str(), rep.handlers[k].1.as_str()) {
            Err(e) => {
                proof {
                    lemma_apply_handlers_sticky(v0, rep.ext@, hs, k + 1);
                }
                return Err(e);
            },
            Ok(id) => {
                if let Err(e) = db.upsert_ext_app(rep.ext.as_str(), id, "") {
                    proof {
                        reveal_strlit("");
                        assert(""@ =~= Seq::<char>::empty());
                        lemma_apply_handlers_sticky(v0, rep.ext@, hs, k + 1);
                    }
                    return Err(e);
                }
                proof {
                    reveal_strlit("");
                    assert(""@ =~= Seq::<char>::empty());
                }
            },
        }
        k = k + 1;
    }
    proof {
        assert(hs.take(k as int) =~= hs);
    }
    let ghost w = db@;
    assert((w, Ok::<(), DbError>(())) == apply_handlers(v0, rep.ext@, hs));
    let res: Result<(), DbError> = match &rep.default_app {
        None => Ok(()),
        Some((name, path)) => {
            assert(opt_pair_text(rep.default_app) == Some((name@, path@)));
            match db.upsert_app(name.as_str(), path.as_str()) {
                Err(e) => Err(e),
                Ok(id) => db.set_default_app(rep.ext.as_str(), id),
            }
        },
    };
    proof {
        let out = apply_report(v0, *rep);
        assert(db@ == out.0);
        match res {
            Ok(u) => {
                assert(out.1 is Ok);
                let u2 = out.1->Ok_0;
                assert(u == u2);
                assert(out.1 == res);
            },
            Err(e) => assert(out.1 == Err::<(), DbError>(e)),
        }
        assert((db@, res) == out);
    }
    res
}

/// Records what Launch Services reports, one extension after another,
/// stopping at the first refusal; answers how many handlers were recorded
/// (counted modulo 2^32).
pub fn apply_launch_services(db: &mut Database, reports: &[LsReport]) -> (r: Result<u32, DbError>)
    ensures
        final(db)@ == apply_reports(old(db)@, reports@).0,
        match (r, apply_reports(old(db)@, reports@).1) {
            (Ok(c), Ok(_)) => c as nat == handler_total(reports@) % 0x1_0000_0000,
            (Err(e), Err(e2)) => e == e2,
            _ => false,
        },
{
    let ghost v0 = db@;
    let mut count: u32 = 0;
    let mut i: usize = 0;
    proof {
        assert(reports@.take(0) =~= Seq::<LsReport>::empty());
    }
    while i < reports.len()
        invariant
            i <= reports.len(),
            v0 == old(db)@,
            (db@, Ok::<(), DbError>(())) == apply_reports(v0, reports@.take(i as int)),
            count as nat == handler_total(reports@.take(i as int)) % 0x1_0000_0000,
        decreases reports.len() - i,
    {
        proof {
            assert(reports@.take(i + 1).drop_last() =~= reports@.take(i as int));
            assert(reports@.take(i + 1).last() == reports@[i as int]);
        }
        if let Err(e) = apply_one_report(db, &reports[i]) {
            proof {
                lemma_apply_reports_sticky(v0, reports@, i + 1);
            }
            return Err(e);
        }
        let n = reports[i].handlers.len();
        let mut j: usize = 0;
        let ghost base = handler_total(reports@.take(i as int));
        while j < n
            invariant
                j <= n,
                count as nat == (base + j) % 0x1_0000_0000,
            decreases n - j,
        {
            proof {
                assert((base + j + 1) % 0x1_0000_0000 == if count + 1 > u32::MAX {
                    count + 1 - 0x1_0000_0000
                } else {
                    count + 1
                }) by (nonlinear_arith)
                    requires
                        count as nat == (base + j) % 0x1_0000_0000,
                        0 <= count <= u32::MAX,
                ;
            }
            count = count.wrapping_add(1);
            j = j + 1;
        }
        i = i + 1;
    }
    proof {
        assert(reports@.take(i as int) =~= reports@);
    }
    Ok(count)
}

/// How much a scan found.
pub struct ScanTally {
    pub app_count: u32,
    pub ext_count: u32,
    pub ls_count: u32,
}

impl ScanTally {
    /// Nothing found yet.
    pub fn new() -> (t: ScanTally)
        ensures
            t.app_count == 0 && t.ext_count == 0 && t.ls_count == 0,
    {
        ScanTally { app_count: 0, ext_count: 0, ls_count: 0 }
    }

    /// Counts one scanned application that declared `exts` pairs (both
    /// counts wrap around at 2^32).
    pub fn record_app(&mut self, exts: usize)
        ensures
            final(self).app_count == vstd::wrapping::u32_specs::wrapping_add(old(self).app_count, 1),
            final(self).ext_count == vstd::wrapping::u32_specs::wrapping_add(old(self).ext_count, exts as u32),
            final(self).ls_count == old(self).ls_count,
    {
        self.app_count = self.app_count.wrapping_add(1);
        self.ext_count = self.ext_count.wrapping_add(exts as u32);
    }

    /// `Scanned A apps, E plist associations, L Launch Services
    /// associations`, with the three counts in decimal.
    pub fn summary(&self) -> (r: String)
        ensures
            r@ == "Scanned "@ + decimal(self.app_count as nat) + " apps, "@ + decimal(self.ext_count as nat)
                + " plist associations, "@ + decimal(self.ls_count as nat) + " Launch Services associations"@,
    {
        let mut r = String::from_str("Scanned ");
        push_decimal(&mut r, self.app_count);
        r.append(" apps, ");
        push_decimal(&mut r, self.ext_count);
        r.append(" plist associations, ");
        push_decimal(&mut r, self.ls_count);
        r.append(" Launch Services associations");
        r
    }
}


/// The content types that the property-list file `bytes` names (see
/// `content_types`); `NotAPropertyList` when the bytes do not parse.
pub fn content_types_of(bytes: &[u8]) -> (r: Result<Vec<String>, ScanError>)
    ensures
        match plist_of(bytes@) {
            None => r == Err::<Vec<String>, ScanError>(ScanError::NotAPropertyList),
            Some(info) => r matches Ok(v) && texts(v@) == declared_types(info),
        },
{
    match parse_plist(bytes) {
        None => Err(ScanError::NotAPropertyList),
        Some(info) => Ok(content_types(&info)),
    }
}

/// Scans the application at `app_path` whose property-list file holds
/// `bytes`: when they parse, exactly as `process_app` on the value they
/// hold; otherwise `NotAPropertyList`, with the catalogue unchanged.
pub fn process_app_bytes(db: &mut Database, app_path: &str, bytes: &[u8], table: &[UtiExtensions]) -> (r: Result<(i64, usize), ScanError>)
    ensures
        match plist_of(bytes@) {
            None => r == Err::<(i64, usize), ScanError>(ScanError::NotAPropertyList) && final(db)@ == old(db)@,
            Some(info) => {
                let (v, out) = process_outcome(old(db)@, app_path@, info, table@);
                &&& final(db)@ == v
                &&& match (r, out) {
                    (Ok((id, n)), Ok((id2, n2))) => id == id2 && n == n2,
                    (Err(e), Err(e2)) => e == e2,
                    _ => false,
                }
            },
        },
{
    match parse_plist(bytes) {
        None => Err(ScanError::NotAPropertyList),
        Some(info) => process_app(db, app_path, &info, table),
    }
}

/// The bundle identifier a property list declares (`CFBundleIdentifier`,
/// when the root is a dictionary and that value is a string).
pub open spec fn bundle_identifier(info: PlistValue) -> Option<Seq<char>> {
    match info {
        PlistValue::Dictionary(d) => as_text(lookup(d@, "CFBundleIdentifier"@)),
        _ => None,
    }
}

/// The bundle identifier that the property-list file `bytes` declares;
/// `None` when the bytes do not parse or declare none.
pub fn bundle_identifier_of(bytes: &[u8]) -> (r: Option<String>)
    ensures
        opt_text(r) == match plist_of(bytes@) {
            None => None,
            Some(info) => bundle_identifier(info),
        },
{
    match parse_plist(bytes) {
        Some(PlistValue::Dictionary(d)) => match get(&d, "CFBundleIdentifier") {
            Some(PlistValue::String(s)) => Some(s.clone()),
            _ => None,
        },
        _ => None,
    }
}

/// What `Path::extension` gives for a path (as text).
pub uninterp spec fn extension_of(path: Seq<char>) -> Option<Seq<char>>;

/// Calls `std::path::Path::extension` on `path`: the part of the final
/// component after its last `.`, or nothing when there is none.  The
/// contract only names the result.
#[verifier::external_body]
fn path_extension(path: &str) -> (r: Option<String>)
    ensures
        opt_text(r) == extension_of(path@),
{
    match std::path::Path::new(path).extension() {
        Some(e) => Some(e.to_string_lossy().into_owned()),
        None => None,
    }
}

/// A directory entry is scanned as an application when its extension is
/// `app`.
pub fn is_app_bundle(path: &str) -> (r: bool)
    ensures
        r == (extension_of(path@) == Some("app"@)),
{
    match path_extension(path) {
        Some(e) => {
            let app = String::from_str("app");
            e == app
        },
        None => false,
    }
}

} // verus!
