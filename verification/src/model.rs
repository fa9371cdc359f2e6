//! The abstract catalogue: three tables (applications, extensions, and the
//! pairs saying which application can open which extension), the
//! well-formedness rules they obey, and the meaning of every operation on
//! them.

use vstd::prelude::*;
use crate::rows::{App, Extension};
use crate::text::{binary_key, like_contains, nocase_key, seq_lt};

verus! {

/// An application: a unique identifier, a unique display name and the
/// location of its bundle.
pub struct AppRec {
    pub id: i64,
    pub name: Seq<char>,
    pub path: Seq<char>,
}

/// A file extension, its human description and, when one is chosen, the
/// application that opens it by default.
pub struct ExtRec {
    pub ext: Seq<char>,
    pub description: Seq<char>,
    pub default_app_id: Option<i64>,
}

/// The application `app_id` is able to open files with extension `ext`.
pub struct LinkRec {
    pub ext: Seq<char>,
    pub app_id: i64,
}

/// The whole catalogue.  Each table lists its rows in the order they were
/// added; `last_id` is the largest application identifier ever handed out.
pub struct DbView {
    pub apps: Seq<AppRec>,
    pub exts: Seq<ExtRec>,
    pub links: Seq<LinkRec>,
    pub last_id: i64,
}

/// Why a change to the catalogue was refused.
#[derive(Debug, Clone, Copy, PartialEq, Eq, Structural)]
pub enum DbError {
    /// The change would name an application that does not exist.
    ForeignKey,
    /// No identifier or row slot is left for a new row.
    Full,
}

/// The text of each string, in order.
pub open spec fn texts(v: Seq<String>) -> Seq<Seq<char>> {
    v.map_values(|s: String| s@)
}

/// Appending a string appends its text.
pub proof fn lemma_texts_push(s: Seq<String>, x: String)
    ensures
        texts(s.push(x)) == texts(s).push(x@),
{
    assert(texts(s.push(x)) =~= texts(s).push(x@));
}

/// A prefix one longer is the prefix with the next element appended.
pub proof fn lemma_take_next<A>(s: Seq<A>, i: int)
    requires
        0 <= i < s.len(),
    ensures
        s.take(i + 1) == s.take(i).push(s[i]),
{
    assert(s.take(i + 1) =~= s.take(i).push(s[i]));
}

/// The position of the first element of `s` that satisfies `p`, or -1.
pub open spec fn first_index<A>(s: Seq<A>, p: spec_fn(A) -> bool) -> int
    decreases s.len(),
{
    if s.len() == 0 {
        -1
    } else {
        let k = first_index(s.drop_last(), p);
        if k >= 0 {
            k
        } else if p(s.last()) {
            s.len() - 1
        } else {
            -1
        }
    }
}

/// What `first_index` returns.
pub proof fn lemma_first_index<A>(s: Seq<A>, p: spec_fn(A) -> bool)
    ensures
        -1 <= first_index(s, p) < s.len(),
        first_index(s, p) >= 0 ==> p(s[first_index(s, p)]),
        forall|j: int| 0 <= j < first_index(s, p) ==> !p(#[trigger] s[j]),
        first_index(s, p) == -1 ==> forall|j: int| 0 <= j < s.len() ==> !p(#[trigger] s[j]),
    decreases s.len(),
{
    if s.len() > 0 {
        lemma_first_index(s.drop_last(), p);
        assert forall|j: int| 0 <= j < s.len() - 1 implies s.drop_last()[j] == s[j] by {}
    }
}

/// `first_index` is the first position that satisfies `p`.
pub proof fn lemma_first_index_is<A>(s: Seq<A>, p: spec_fn(A) -> bool, i: int)
    requires
        -1 <= i < s.len(),
        i >= 0 ==> p(s[i]),
        i >= 0 ==> forall|j: int| 0 <= j < i ==> !p(#[trigger] s[j]),
        i == -1 ==> forall|j: int| 0 <= j < s.len() ==> !p(#[trigger] s[j]),
    ensures
        first_index(s, p) == i,
{
    lemma_first_index(s, p);
    let k = first_index(s, p);
    if k >= 0 && i >= 0 {
        if k < i {
            assert(!p(s[k]));
        } else if i < k {
            assert(!p(s[i]));
        }
    } else if k >= 0 {
        assert(!p(s[k]));
    } else if i >= 0 {
        assert(!p(s[i]));
    }
}

/// How many elements of `s` satisfy `p`.
pub open spec fn count_where<A>(s: Seq<A>, p: spec_fn(A) -> bool) -> nat
    decreases s.len(),
{
    if s.len() == 0 {
        0
    } else {
        count_where(s.drop_last(), p) + if p(s.last()) {
            1nat
        } else {
            0nat
        }
    }
}

/// Counting one more element of a prefix.
pub proof fn lemma_count_step<A>(s: Seq<A>, p: spec_fn(A) -> bool, i: int)
    requires
        0 <= i < s.len(),
    ensures
        count_where(s.take(i + 1), p) == count_where(s.take(i), p) + if p(s[i]) {
            1nat
        } else {
            0nat
        },
{
    assert(s.take(i + 1).drop_last() =~= s.take(i));
}

/// A count never exceeds the length.
pub proof fn lemma_count_bound<A>(s: Seq<A>, p: spec_fn(A) -> bool)
    ensures
        count_where(s, p) <= s.len(),
    decreases s.len(),
{
    if s.len() > 0 {
        lemma_count_bound(s.drop_last(), p);
    }
}

/// The application is called `name`.  (Predicates on rows are named so
/// that every use denotes the same function.)
pub open spec fn app_named(name: Seq<char>) -> spec_fn(AppRec) -> bool {
    |a: AppRec| a.name == name
}

/// The application has identifier `id`.
pub open spec fn app_with_id(id: i64) -> spec_fn(AppRec) -> bool {
    |a: AppRec| a.id == id
}

/// The application's bundle is at `path`.
pub open spec fn app_at_path(path: Seq<char>) -> spec_fn(AppRec) -> bool {
    |a: AppRec| a.path == path
}

/// The extension row is for `ext`.
pub open spec fn ext_named(ext: Seq<char>) -> spec_fn(ExtRec) -> bool {
    |e: ExtRec| e.ext == ext
}

/// A pair survives `remove_stale(app_id, keep)`.
pub open spec fn keeps_link(app_id: i64, keep: Seq<Seq<char>>) -> spec_fn(LinkRec) -> bool {
    |l: LinkRec| l.app_id != app_id || keep.contains(l.ext)
}

/// Some pair in `links` names the extension.
pub open spec fn handled_in(links: Seq<LinkRec>) -> spec_fn(ExtRec) -> bool {
    |e: ExtRec| exists|k: int| 0 <= k < links.len() && #[trigger] links[k].ext == e.ext
}

impl DbView {
    /// An application with identifier `id` exists.
    pub open spec fn has_app(self, id: i64) -> bool {
        exists|k: int| 0 <= k < self.apps.len() && #[trigger] self.apps[k].id == id
    }

    /// The extension `ext` is catalogued.
    pub open spec fn has_ext(self, ext: Seq<char>) -> bool {
        exists|k: int| 0 <= k < self.exts.len() && #[trigger] self.exts[k].ext == ext
    }

    /// The application `app_id` can open `ext`.
    pub open spec fn has_link(self, ext: Seq<char>, app_id: i64) -> bool {
        exists|k: int|
            0 <= k < self.links.len() && #[trigger] self.links[k].ext == ext && self.links[k].app_id
                == app_id
    }

    /// Some application can open `ext`.
    pub open spec fn ext_has_handler(self, ext: Seq<char>) -> bool {
        exists|k: int| 0 <= k < self.links.len() && #[trigger] self.links[k].ext == ext
    }

    /// The rules every catalogue obeys: identifiers and names of
    /// applications are unique and no larger than `last_id`, extensions are
    /// unique, pairs are unique, and every identifier that a row mentions
    /// belongs to an existing application (every extension a pair mentions
    /// is catalogued).  No table holds more than `i64::MAX` rows.
    pub open spec fn wf(self) -> bool {
        &&& 0 <= self.last_id
        &&& self.apps.len() <= self.last_id
        &&& self.exts.len() <= i64::MAX
        &&& self.links.len() <= i64::MAX
        &&& forall|i: int, j: int|
            0 <= i < j < self.apps.len() ==> #[trigger] self.apps[i].id != #[trigger] self.apps[j].id
                && self.apps[i].name != self.apps[j].name
        &&& forall|i: int| 0 <= i < self.apps.len() ==> 1 <= #[trigger] self.apps[i].id <= self.last_id
        &&& forall|i: int, j: int|
            0 <= i < j < self.exts.len() ==> #[trigger] self.exts[i].ext != #[trigger] self.exts[j].ext
        &&& forall|i: int|
            0 <= i < self.exts.len() ==> (#[trigger] self.exts[i].default_app_id matches Some(
                id,
            ) ==> self.has_app(id))
        &&& forall|i: int, j: int|
            0 <= i < j < self.links.len() ==> #[trigger] self.links[i] != #[trigger] self.links[j]
        &&& forall|i: int|
            0 <= i < self.links.len() ==> self.has_ext(#[trigger] self.links[i].ext) && self.has_app(
                self.links[i].app_id,
            )
    }

    /// The empty catalogue.
    pub open spec fn empty() -> DbView {
        DbView { apps: Seq::empty(), exts: Seq::empty(), links: Seq::empty(), last_id: 0 }
    }

    /// Adds or renames-in-place an application: the application called
    /// `name` gets the bundle location `path`, keeping its identifier, or is
    /// added with a fresh identifier.  Every call uses up one identifier.
    /// Returns the new catalogue and the application's identifier.
    pub open spec fn upsert_app(self, name: Seq<char>, path: Seq<char>) -> Result<
        (DbView, i64),
        DbError,
    > {
        if self.last_id == i64::MAX {
            Err(DbError::Full)
        } else {
            let n = (self.last_id + 1) as i64;
            let i = first_index(self.apps, app_named(name));
            if i >= 0 {
                Ok(
                    (
                        DbView {
                            apps: self.apps.update(i, AppRec { path, ..self.apps[i] }),
                            last_id: n,
                            ..self
                        },
                        self.apps[i].id,
                    ),
                )
            } else {
                Ok(
                    (
                        DbView {
                            apps: self.apps.push(AppRec { id: n, name, path }),
                            last_id: n,
                            ..self
                        },
                        n,
                    ),
                )
            }
        }
    }

    /// Catalogues `ext` with `description` unless it is already there.
    pub open spec fn insert_ext(self, ext: Seq<char>, description: Seq<char>) -> (DbView, Result<(), DbError>) {
        if self.exts.len() >= i64::MAX {
            (self, Err(DbError::Full))
        } else if self.has_ext(ext) {
            (self, Ok(()))
        } else {
            (
                DbView {
                    exts: self.exts.push(ExtRec { ext, description, default_app_id: None }),
                    ..self
                },
                Ok(()),
            )
        }
    }

    /// Records that `app_id` can open `ext`, unless already recorded.
    pub open spec fn insert_link(self, ext: Seq<char>, app_id: i64) -> (DbView, Result<(), DbError>) {
        if self.links.len() >= i64::MAX {
            (self, Err(DbError::Full))
        } else if self.has_link(ext, app_id) {
            (self, Ok(()))
        } else if !self.has_app(app_id) {
            (self, Err(DbError::ForeignKey))
        } else {
            (DbView { links: self.links.push(LinkRec { ext, app_id }), ..self }, Ok(()))
        }
    }

    /// Catalogues `ext` (with `description` if it is new), then records
    /// that `app_id` can open it.  The first step stays done when the second
    /// is refused.
    pub open spec fn upsert_ext_app(self, ext: Seq<char>, app_id: i64, description: Seq<char>) -> (
        DbView,
        Result<(), DbError>,
    ) {
        let (v, r) = self.insert_ext(ext, description);
        match r {
            Err(e) => (v, Err(e)),
            Ok(_) => v.insert_link(ext, app_id),
        }
    }

    /// Makes `app_id` the default application of `ext`; nothing happens
    /// when `ext` is not catalogued.
    pub open spec fn set_default_app(self, ext: Seq<char>, app_id: i64) -> Result<DbView, DbError> {
        let i = first_index(self.exts, ext_named(ext));
        if i < 0 {
            Ok(self)
        } else if !self.has_app(app_id) {
            Err(DbError::ForeignKey)
        } else {
            Ok(
                DbView {
                    exts: self.exts.update(i, ExtRec { default_app_id: Some(app_id), ..self.exts[i] }),
                    ..self
                },
            )
        }
    }

    /// Makes `target` the default of each of `exts` in turn, stopping at
    /// the first refusal (the earlier ones stay done).
    pub open spec fn reassign(self, exts: Seq<Seq<char>>, target: i64) -> (DbView, Result<(), DbError>)
        decreases exts.len(),
    {
        if exts.len() == 0 {
            (self, Ok(()))
        } else {
            let (v, r) = self.reassign(exts.drop_last(), target);
            match r {
                Err(e) => (v, Err(e)),
                Ok(_) => match v.set_default_app(exts.last(), target) {
                    Ok(v2) => (v2, Ok(())),
                    Err(e) => (v, Err(e)),
                },
            }
        }
    }

    /// Forgets that `app_id` can open the extensions not in `keep`.
    pub open spec fn remove_stale(self, app_id: i64, keep: Seq<Seq<char>>) -> DbView {
        DbView { links: self.links.filter(keeps_link(app_id, keep)), ..self }
    }

    /// Drops every extension that no application can open.
    pub open spec fn cleanup_orphans(self) -> DbView {
        DbView { exts: self.exts.filter(handled_in(self.links)), ..self }
    }

    /// Makes the first application found at `path` the default of `ext`;
    /// answers whether there was one.
    pub open spec fn refresh_default_by_path(self, ext: Seq<char>, path: Seq<char>) -> Result<
        (DbView, bool),
        DbError,
    > {
        let i = first_index(self.apps, app_at_path(path));
        if i < 0 {
            Ok((self, false))
        } else {
            match self.set_default_app(ext, self.apps[i].id) {
                Ok(v) => Ok((v, true)),
                Err(e) => Err(e),
            }
        }
    }

    /// The number of extensions whose default is `app_id`.
    pub open spec fn default_count(self, app_id: i64) -> nat {
        count_where(self.exts, defaulted_to(app_id))
    }

    /// The number of extensions defaulted to `source` that `app_id` can open.
    pub open spec fn overlap_count(self, source: i64, app_id: i64) -> nat {
        count_where(self.exts, shared_with(self, source, app_id))
    }

    /// The number of applications other than `source` that can open `ext`.
    pub open spec fn target_count(self, ext: Seq<char>, source: i64) -> nat {
        count_where(self.links, other_handler(ext, source))
    }

    /// Two applications sharing an identifier or a name break the rules.
    pub proof fn lemma_duplicate_app(self, a: int, b: int)
        requires
            0 <= a < b < self.apps.len(),
            self.apps[a].id == self.apps[b].id || self.apps[a].name == self.apps[b].name,
        ensures
            !self.wf(),
    {
        if self.wf() {
            assert(self.apps[a].id != self.apps[b].id && self.apps[a].name != self.apps[b].name);
        }
    }

    /// A pair naming a missing extension or application breaks the rules.
    pub proof fn lemma_dangling_link(self, a: int)
        requires
            0 <= a < self.links.len(),
            !self.has_ext(self.links[a].ext) || !self.has_app(self.links[a].app_id),
        ensures
            !self.wf(),
    {
        if self.wf() {
            assert(self.has_ext(self.links[a].ext));
        }
    }


    /// An application identifier outside `1..=last_id` breaks the rules.
    pub proof fn lemma_bad_app_id(self, a: int)
        requires
            0 <= a < self.apps.len(),
            !(1 <= self.apps[a].id <= self.last_id),
        ensures
            !self.wf(),
    {
    }

}

/// The extension's default is `app_id`.
pub open spec fn defaulted_to(app_id: i64) -> spec_fn(ExtRec) -> bool {
    |e: ExtRec| e.default_app_id == Some(app_id)
}

/// The extension is defaulted to `source` and `app_id` can open it.
pub open spec fn shared_with(v: DbView, source: i64, app_id: i64) -> spec_fn(ExtRec) -> bool {
    |e: ExtRec| e.default_app_id == Some(source) && v.has_link(e.ext, app_id)
}

/// The pair says that an application other than `source` can open `ext`.
pub open spec fn other_handler(ext: Seq<char>, source: i64) -> spec_fn(LinkRec) -> bool {
    |l: LinkRec| l.ext == ext && l.app_id != source
}

/// Applications that can open `ext`.
pub open spec fn opens(v: DbView, ext: Seq<char>) -> spec_fn(AppRec) -> bool {
    |a: AppRec| v.has_link(ext, a.id)
}

/// Applications other than `source` that can open some extension
/// defaulted to `source`.
pub open spec fn candidate_for(v: DbView, source: i64) -> spec_fn(AppRec) -> bool {
    |a: AppRec| a.id != source && v.overlap_count(source, a.id) > 0
}

/// Applications, other than `exclude`, that can open every one of `exts`.
pub open spec fn opens_all(v: DbView, exts: Seq<Seq<char>>, exclude: Option<i64>) -> spec_fn(AppRec) -> bool {
    |a: AppRec| exclude != Some(a.id) && forall|i: int| 0 <= i < exts.len() ==> v.has_link(#[trigger] exts[i], a.id)
}

/// Each application's number of defaulted extensions.
pub open spec fn default_counts(v: DbView) -> spec_fn(AppRec) -> int {
    |a: AppRec| v.default_count(a.id) as int
}

/// Each application's number of extensions shared with `source`.
pub open spec fn overlap_counts(v: DbView, source: i64) -> spec_fn(AppRec) -> int {
    |a: AppRec| v.overlap_count(source, a.id) as int
}

/// Shared extensions with `exclude` when there is one, else none.
pub open spec fn exclude_counts(v: DbView, exclude: Option<i64>) -> spec_fn(AppRec) -> int {
    |a: AppRec| match exclude {
        Some(x) => v.overlap_count(x, a.id) as int,
        None => 0,
    }
}

/// What `filter` keeps: elements of the sequence that satisfy `p`, every
/// such element, and no new repetition.
pub proof fn lemma_filter_facts<A>(s: Seq<A>, p: spec_fn(A) -> bool)
    ensures
        forall|i: int|
            0 <= i < s.filter(p).len() ==> s.contains(#[trigger] s.filter(p)[i]) && p(
                s.filter(p)[i],
            ),
        forall|i: int| 0 <= i < s.len() && p(#[trigger] s[i]) ==> s.filter(p).contains(s[i]),
        s.no_duplicates() ==> s.filter(p).no_duplicates(),
        s.filter(p).len() <= s.len(),
    decreases s.len(),
{
    reveal(Seq::filter);
    if s.len() > 0 {
        let d = s.drop_last();
        lemma_filter_facts(d, p);
        let f = s.filter(p);
        let fd = d.filter(p);
        assert forall|i: int| 0 <= i < f.len() implies s.contains(#[trigger] f[i]) && p(f[i]) by {
            if i < fd.len() {
                assert(f[i] == fd[i]);
                assert(d.contains(fd[i]));
                let k = choose|k: int| 0 <= k < d.len() && d[k] == fd[i];
                assert(s[k] == d[k]);
            } else {
                assert(f[i] == s.last());
                assert(s[s.len() - 1] == s.last());
            }
        }
        assert forall|i: int| 0 <= i < s.len() && p(#[trigger] s[i]) implies f.contains(s[i]) by {
            if i < s.len() - 1 {
                assert(d[i] == s[i]);
                assert(fd.contains(d[i]));
                let k = choose|k: int| 0 <= k < fd.len() && fd[k] == d[i];
                assert(f[k] == fd[k]);
            } else {
                assert(f[f.len() - 1] == s[i]);
            }
        }
        if s.no_duplicates() {
            assert(d.no_duplicates()) by {
                assert forall|i: int, j: int| 0 <= i < d.len() && 0 <= j < d.len() && i != j implies d[i]
                    != d[j] by {
                    assert(d[i] == s[i] && d[j] == s[j]);
                }
            }
            if p(s.last()) {
                assert forall|i: int, j: int|
                    0 <= i < f.len() && 0 <= j < f.len() && i != j implies f[i] != f[j] by {
                    if i < fd.len() && j < fd.len() {
                        assert(f[i] == fd[i] && f[j] == fd[j]);
                    } else {
                        let k = if i < fd.len() {
                            i
                        } else {
                            j
                        };
                        assert(f[k] == fd[k]);
                        assert(d.contains(fd[k]));
                        let m = choose|m: int| 0 <= m < d.len() && d[m] == fd[k];
                        assert(s[m] == d[m]);
                        assert(s[s.len() - 1] == s.last());
                    }
                }
            }
        }
    }
}

impl DbView {
    /// Each identifier names at most one application.
    pub proof fn lemma_app_index_unique(self, i: int, j: int)
        requires
            self.wf(),
            0 <= i < self.apps.len(),
            0 <= j < self.apps.len(),
            self.apps[i].id == self.apps[j].id,
        ensures
            i == j,
    {
        if i < j {
            assert(self.apps[i].id != self.apps[j].id);
        } else if j < i {
            assert(self.apps[j].id != self.apps[i].id);
        }
    }

    /// Each extension is catalogued at most once.
    pub proof fn lemma_ext_index_unique(self, i: int, j: int)
        requires
            self.wf(),
            0 <= i < self.exts.len(),
            0 <= j < self.exts.len(),
            self.exts[i].ext == self.exts[j].ext,
        ensures
            i == j,
    {
        if i < j {
            assert(self.exts[i].ext != self.exts[j].ext);
        } else if j < i {
            assert(self.exts[j].ext != self.exts[i].ext);
        }
    }

    /// Adding or renaming an application keeps the rules.
    pub proof fn lemma_upsert_app_wf(self, name: Seq<char>, path: Seq<char>)
        requires
            self.wf(),
        ensures
            self.upsert_app(name, path) matches Ok((v, id)) ==> {
                &&& v.wf()
                &&& v.has_app(id)
                &&& forall|x: i64| #[trigger] v.has_app(x) == (self.has_app(x) || x == id)
            },
    {
        if self.last_id < i64::MAX {
            let n = (self.last_id + 1) as i64;
            let i = first_index(self.apps, app_named(name));
            lemma_first_index(self.apps, app_named(name));
            if let Ok((v, id)) = self.upsert_app(name, path) {
                if i >= 0 {
                    assert(self.apps[i].id == id);
                    assert(self.has_app(id));
                    assert forall|x: i64| #[trigger] v.has_app(x) == (self.has_app(x) || x == id) by {
                        if self.has_app(x) {
                            let k = choose|k: int| 0 <= k < self.apps.len() && self.apps[k].id == x;
                            assert(v.apps[k].id == x);
                        }
                        if v.has_app(x) {
                            let k = choose|k: int| 0 <= k < v.apps.len() && v.apps[k].id == x;
                            assert(self.apps[k].id == x);
                        }
                    }
                    assert(v.apps[i].id == id);
                } else {
                    assert forall|x: i64| #[trigger] v.has_app(x) == (self.has_app(x) || x == id) by {
                        if self.has_app(x) {
                            let k = choose|k: int| 0 <= k < self.apps.len() && self.apps[k].id == x;
                            assert(v.apps[k].id == x);
                        }
                        if x == id {
                            assert(v.apps[self.apps.len() as int].id == x);
                        }
                        if v.has_app(x) && x != id {
                            let k = choose|k: int| 0 <= k < v.apps.len() && v.apps[k].id == x;
                            assert(self.apps[k].id == x);
                        }
                    }
                    assert forall|a: int, b: int| 0 <= a < b < v.apps.len() implies #[trigger] v.apps[a].id
                        != #[trigger] v.apps[b].id && v.apps[a].name != v.apps[b].name by {
                        assert(v.apps[a] == self.apps[a]);
                        if b == self.apps.len() {
                            assert(!app_named(name)(self.apps[a]));
                            assert(1 <= self.apps[a].id <= self.last_id);
                        } else {
                            assert(v.apps[b] == self.apps[b]);
                        }
                    }
                    assert(v.apps[self.apps.len() as int].id == id);
                }
                assert forall|k: int| 0 <= k < v.exts.len() implies (
                #[trigger] v.exts[k].default_app_id matches Some(x) ==> v.has_app(x)) by {
                    if let Some(x) = v.exts[k].default_app_id {
                        assert(self.has_app(x));
                    }
                }
                assert forall|k: int| 0 <= k < v.links.len() implies v.has_ext(
                    #[trigger] v.links[k].ext,
                ) && v.has_app(v.links[k].app_id) by {
                    assert(v.links[k] == self.links[k]);
                    assert(self.has_ext(self.links[k].ext));
                    assert(self.has_app(self.links[k].app_id));
                    assert(v.has_app(self.links[k].app_id));
                    let e = choose|e: int| 0 <= e < self.exts.len() && self.exts[e].ext == self.links[k].ext;
                    assert(v.exts[e].ext == self.links[k].ext);
                }
                assert(v.has_app(id));
                assert(v.apps.len() <= v.last_id);
                assert(forall|k: int| 0 <= k < v.apps.len() ==> 1 <= #[trigger] v.apps[k].id <= v.last_id);
                assert(v.wf());
            }
        }
    }

    /// Whether an application exists depends only on the application table.
    pub proof fn lemma_apps_frame(self, other: DbView)
        requires
            self.apps == other.apps,
        ensures
            forall|x: i64| #[trigger] self.has_app(x) == other.has_app(x),
    {
        assert forall|x: i64| #[trigger] self.has_app(x) == other.has_app(x) by {
            if self.has_app(x) {
                let k = choose|k: int| 0 <= k < self.apps.len() && self.apps[k].id == x;
                assert(other.apps[k].id == x);
            }
            if other.has_app(x) {
                let k = choose|k: int| 0 <= k < other.apps.len() && other.apps[k].id == x;
                assert(self.apps[k].id == x);
            }
        }
    }

    /// Whether an extension is catalogued depends only on its names.
    pub proof fn lemma_exts_frame(self, other: DbView)
        requires
            self.exts.len() == other.exts.len(),
            forall|k: int| 0 <= k < self.exts.len() ==> self.exts[k].ext == other.exts[k].ext,
        ensures
            forall|x: Seq<char>| #[trigger] self.has_ext(x) == other.has_ext(x),
    {
        assert forall|x: Seq<char>| #[trigger] self.has_ext(x) == other.has_ext(x) by {
            if self.has_ext(x) {
                let k = choose|k: int| 0 <= k < self.exts.len() && self.exts[k].ext == x;
                assert(other.exts[k].ext == x);
            }
            if other.has_ext(x) {
                let k = choose|k: int| 0 <= k < other.exts.len() && other.exts[k].ext == x;
                assert(self.exts[k].ext == x);
            }
        }
    }

    /// Whether a pair is recorded depends only on the pair table.
    pub proof fn lemma_links_frame(self, other: DbView)
        requires
            self.links == other.links,
        ensures
            forall|x: Seq<char>, y: i64| #[trigger] self.has_link(x, y) == other.has_link(x, y),
            forall|x: Seq<char>| #[trigger] self.ext_has_handler(x) == other.ext_has_handler(x),
    {
        assert forall|x: Seq<char>, y: i64| #[trigger] self.has_link(x, y) == other.has_link(x, y) by {
            if self.has_link(x, y) {
                let k = choose|k: int| 0 <= k < self.links.len() && self.links[k].ext == x && self.links[k].app_id == y;
                assert(other.links[k].ext == x);
            }
            if other.has_link(x, y) {
                let k = choose|k: int| 0 <= k < other.links.len() && other.links[k].ext == x && other.links[k].app_id == y;
                assert(self.links[k].ext == x);
            }
        }
        assert forall|x: Seq<char>| #[trigger] self.ext_has_handler(x) == other.ext_has_handler(x) by {
            if self.ext_has_handler(x) {
                let k = choose|k: int| 0 <= k < self.links.len() && self.links[k].ext == x;
                assert(other.links[k].ext == x);
            }
            if other.ext_has_handler(x) {
                let k = choose|k: int| 0 <= k < other.links.len() && other.links[k].ext == x;
                assert(self.links[k].ext == x);
            }
        }
    }

    /// Cataloguing an extension keeps the rules and leaves it catalogued.
    pub proof fn lemma_insert_ext_wf(self, ext: Seq<char>, description: Seq<char>)
        requires
            self.wf(),
        ensures
            self.insert_ext(ext, description).0.wf(),
            self.insert_ext(ext, description).1 is Ok ==> self.insert_ext(ext, description).0.has_ext(ext),
            self.insert_ext(ext, description).0.apps == self.apps,
            self.insert_ext(ext, description).0.links == self.links,
            self.insert_ext(ext, description).0.last_id == self.last_id,
            forall|x: Seq<char>| #[trigger] self.has_ext(x) ==> self.insert_ext(ext, description).0.has_ext(x),
    {
        let v = self.insert_ext(ext, description).0;
        v.lemma_apps_frame(self);
        if self.exts.len() < i64::MAX && !self.has_ext(ext) {
            let n = self.exts.len() as int;
            assert(v.exts[n].ext == ext);
            assert forall|x: Seq<char>| #[trigger] self.has_ext(x) implies v.has_ext(x) by {
                let k = choose|k: int| 0 <= k < self.exts.len() && self.exts[k].ext == x;
                assert(v.exts[k].ext == x);
            }
            assert forall|a: int, b: int| 0 <= a < b < v.exts.len() implies #[trigger] v.exts[a].ext
                != #[trigger] v.exts[b].ext by {
                assert(v.exts[a] == self.exts[a]);
                if b < n {
                    assert(v.exts[b] == self.exts[b]);
                }
            }
            assert forall|k: int| 0 <= k < v.exts.len() implies (
            #[trigger] v.exts[k].default_app_id matches Some(x) ==> v.has_app(x)) by {
                if k < n {
                    assert(v.exts[k] == self.exts[k]);
                }
            }
            assert forall|k: int| 0 <= k < v.links.len() implies v.has_ext(
                #[trigger] v.links[k].ext,
            ) && v.has_app(v.links[k].app_id) by {
                assert(self.has_ext(self.links[k].ext));
            }
        }
    }

    /// Recording a pair for a catalogued extension keeps the rules.
    pub proof fn lemma_insert_link_wf(self, ext: Seq<char>, app_id: i64)
        requires
            self.wf(),
            self.has_ext(ext),
        ensures
            self.insert_link(ext, app_id).0.wf(),
            self.insert_link(ext, app_id).1 is Ok ==> self.insert_link(ext, app_id).0.has_link(ext, app_id),
            self.insert_link(ext, app_id).0.apps == self.apps,
            self.insert_link(ext, app_id).0.exts == self.exts,
            self.insert_link(ext, app_id).0.last_id == self.last_id,
    {
        let v = self.insert_link(ext, app_id).0;
        v.lemma_apps_frame(self);
        v.lemma_exts_frame(self);
        if self.links.len() < i64::MAX && !self.has_link(ext, app_id) && self.has_app(app_id) {
            let n = self.links.len() as int;
            assert(v.links[n].ext == ext && v.links[n].app_id == app_id);
            assert forall|a: int, b: int| 0 <= a < b < v.links.len() implies #[trigger] v.links[a]
                != #[trigger] v.links[b] by {
                assert(v.links[a] == self.links[a]);
                if b < n {
                    assert(v.links[b] == self.links[b]);
                } else {
                    assert(!(self.links[a].ext == ext && self.links[a].app_id == app_id));
                }
            }
            assert forall|k: int| 0 <= k < v.links.len() implies v.has_ext(
                #[trigger] v.links[k].ext,
            ) && v.has_app(v.links[k].app_id) by {
                if k < n {
                    assert(v.links[k] == self.links[k]);
                    assert(self.has_ext(self.links[k].ext));
                }
            }
        }
    }

    /// `upsert_ext_app` keeps the rules; when it succeeds the extension is
    /// catalogued and the pair recorded.
    pub proof fn lemma_upsert_ext_app_wf(self, ext: Seq<char>, app_id: i64, description: Seq<char>)
        requires
            self.wf(),
        ensures
            self.upsert_ext_app(ext, app_id, description).0.wf(),
            self.upsert_ext_app(ext, app_id, description).1 is Ok ==> self.upsert_ext_app(
                ext,
                app_id,
                description,
            ).0.has_link(ext, app_id),
            self.upsert_ext_app(ext, app_id, description).0.apps == self.apps,
            self.upsert_ext_app(ext, app_id, description).0.last_id == self.last_id,
    {
        self.lemma_insert_ext_wf(ext, description);
        let (v, r) = self.insert_ext(ext, description);
        if r is Ok {
            v.lemma_insert_link_wf(ext, app_id);
        }
    }

    /// Choosing a default keeps the rules.
    pub proof fn lemma_set_default_app_wf(self, ext: Seq<char>, app_id: i64)
        requires
            self.wf(),
        ensures
            self.set_default_app(ext, app_id) matches Ok(v) ==> v.wf() && v.apps == self.apps
                && v.links == self.links && v.last_id == self.last_id && v.exts.len()
                == self.exts.len() && forall|x: Seq<char>| #[trigger] v.has_ext(x) == self.has_ext(x),
    {
        let i = first_index(self.exts, ext_named(ext));
        lemma_first_index(self.exts, ext_named(ext));
        if let Ok(v) = self.set_default_app(ext, app_id) {
            v.lemma_apps_frame(self);
            if i >= 0 {
                assert forall|x: Seq<char>| #[trigger] v.has_ext(x) == self.has_ext(x) by {
                    if self.has_ext(x) {
                        let k = choose|k: int| 0 <= k < self.exts.len() && self.exts[k].ext == x;
                        assert(v.exts[k].ext == x);
                    }
                    if v.has_ext(x) {
                        let k = choose|k: int| 0 <= k < v.exts.len() && v.exts[k].ext == x;
                        assert(self.exts[k].ext == x);
                    }
                }
                assert forall|a: int, b: int| 0 <= a < b < v.exts.len() implies #[trigger] v.exts[a].ext
                    != #[trigger] v.exts[b].ext by {
                    assert(v.exts[a].ext == self.exts[a].ext);
                    assert(v.exts[b].ext == self.exts[b].ext);
                }
                assert forall|k: int| 0 <= k < v.exts.len() implies (
                #[trigger] v.exts[k].default_app_id matches Some(x) ==> v.has_app(x)) by {
                    if k != i {
                        assert(v.exts[k] == self.exts[k]);
                    }
                }
                assert forall|k: int| 0 <= k < v.links.len() implies v.has_ext(
                    #[trigger] v.links[k].ext,
                ) && v.has_app(v.links[k].app_id) by {
                    assert(self.has_ext(self.links[k].ext));
                }
            }
        }
    }

    /// Reassigning keeps the rules, whatever the outcome.
    pub proof fn lemma_reassign_wf(self, exts: Seq<Seq<char>>, target: i64)
        requires
            self.wf(),
        ensures
            self.reassign(exts, target).0.wf(),
            self.reassign(exts, target).0.apps == self.apps,
            self.reassign(exts, target).0.links == self.links,
            self.reassign(exts, target).0.last_id == self.last_id,
            self.reassign(exts, target).0.exts.len() == self.exts.len(),
        decreases exts.len(),
    {
        if exts.len() > 0 {
            self.lemma_reassign_wf(exts.drop_last(), target);
            let (v, r) = self.reassign(exts.drop_last(), target);
            v.lemma_set_default_app_wf(exts.last(), target);
        }
    }

    /// Forgetting pairs keeps the rules.
    pub proof fn lemma_remove_stale_wf(self, app_id: i64, keep: Seq<Seq<char>>)
        requires
            self.wf(),
        ensures
            self.remove_stale(app_id, keep).wf(),
    {
        let p = keeps_link(app_id, keep);
        let v = self.remove_stale(app_id, keep);
        v.lemma_apps_frame(self);
        v.lemma_exts_frame(self);
        lemma_filter_facts(self.links, p);
        assert(self.links.no_duplicates()) by {
            assert forall|a: int, b: int|
                0 <= a < self.links.len() && 0 <= b < self.links.len() && a != b implies self.links[a]
                != self.links[b] by {
                if a < b {
                    assert(self.links[a] != self.links[b]);
                } else {
                    assert(self.links[b] != self.links[a]);
                }
            }
        }
        assert forall|a: int, b: int| 0 <= a < b < v.links.len() implies #[trigger] v.links[a]
            != #[trigger] v.links[b] by {}
        assert forall|k: int| 0 <= k < v.links.len() implies v.has_ext(#[trigger] v.links[k].ext)
            && v.has_app(v.links[k].app_id) by {
            assert(self.links.contains(v.links[k]));
            let m = choose|m: int| 0 <= m < self.links.len() && self.links[m] == v.links[k];
            assert(self.has_ext(self.links[m].ext));
        }
    }

    /// Dropping extensions that nobody can open keeps the rules.
    pub proof fn lemma_cleanup_orphans_wf(self)
        requires
            self.wf(),
        ensures
            self.cleanup_orphans().wf(),
    {
        let links = self.links;
        let p = handled_in(links);
        let v = self.cleanup_orphans();
        v.lemma_apps_frame(self);
        lemma_filter_facts(self.exts, p);
        assert(self.exts.no_duplicates()) by {
            assert forall|a: int, b: int|
                0 <= a < self.exts.len() && 0 <= b < self.exts.len() && a != b implies self.exts[a]
                != self.exts[b] by {
                if a < b {
                    assert(self.exts[a].ext != self.exts[b].ext);
                } else {
                    assert(self.exts[b].ext != self.exts[a].ext);
                }
            }
        }
        assert forall|a: int, b: int| 0 <= a < b < v.exts.len() implies #[trigger] v.exts[a].ext
            != #[trigger] v.exts[b].ext by {
            assert(self.exts.contains(v.exts[a]));
            assert(self.exts.contains(v.exts[b]));
            let i = choose|i: int| 0 <= i < self.exts.len() && self.exts[i] == v.exts[a];
            let j = choose|j: int| 0 <= j < self.exts.len() && self.exts[j] == v.exts[b];
            if v.exts[a].ext == v.exts[b].ext {
                self.lemma_ext_index_unique(i, j);
            }
        }
        assert forall|k: int| 0 <= k < v.exts.len() implies (
        #[trigger] v.exts[k].default_app_id matches Some(x) ==> v.has_app(x)) by {
            assert(self.exts.contains(v.exts[k]));
            let i = choose|i: int| 0 <= i < self.exts.len() && self.exts[i] == v.exts[k];
            assert(self.exts[i].default_app_id == v.exts[k].default_app_id);
        }
        assert forall|k: int| 0 <= k < v.links.len() implies v.has_ext(#[trigger] v.links[k].ext)
            && v.has_app(v.links[k].app_id) by {
            assert(self.has_ext(self.links[k].ext));
            let i = choose|i: int| 0 <= i < self.exts.len() && self.exts[i].ext == self.links[k].ext;
            assert(p(self.exts[i]));
            assert(v.exts.contains(self.exts[i]));
            let j = choose|j: int| 0 <= j < v.exts.len() && v.exts[j] == self.exts[i];
            assert(v.exts[j].ext == v.links[k].ext);
        }
    }


    /// Once a reassignment is refused, later extensions change nothing.
    pub proof fn lemma_reassign_err_sticky(self, exts: Seq<Seq<char>>, target: i64, k: int)
        requires
            0 <= k <= exts.len(),
            self.reassign(exts.take(k), target).1 is Err,
        ensures
            self.reassign(exts, target) == self.reassign(exts.take(k), target),
        decreases exts.len(),
    {
        if exts.len() == k {
            assert(exts.take(k) =~= exts);
        } else {
            assert(exts.drop_last().take(k) =~= exts.take(k));
            self.lemma_reassign_err_sticky(exts.drop_last(), target, k);
        }
    }

}

/// `a` shows the application row `r` with count `count`.
pub open spec fn shows_app(a: App, r: AppRec, count: int) -> bool {
    a.id == r.id && a.name@ == r.name && a.path@ == r.path && a.ext_count == count
}

/// `a` comes strictly before `b`: by larger count first when `by_count`,
/// then by name compared without regard to ASCII case.
pub open spec fn app_before(a: App, b: App, by_count: bool) -> bool {
    (by_count && a.ext_count > b.ext_count) || ((!by_count || a.ext_count == b.ext_count) && seq_lt(
        nocase_key(a.name@),
        nocase_key(b.name@),
    ))
}

/// No application of `res` comes strictly before one listed earlier.
pub open spec fn apps_in_order(res: Seq<App>, by_count: bool) -> bool {
    forall|i: int, j: int| 0 <= i < j < res.len() ==> !app_before(#[trigger] res[j], #[trigger] res[i], by_count)
}

/// `a` shows some row of `rows` that `sel` picks, with that row's count.
pub open spec fn shows_picked_row(
    a: App,
    rows: Seq<AppRec>,
    sel: spec_fn(AppRec) -> bool,
    count: spec_fn(AppRec) -> int,
) -> bool {
    exists|i: int| 0 <= i < rows.len() && sel(rows[i]) && #[trigger] shows_app(a, rows[i], count(rows[i]))
}

/// Some application of `res` shows the row `r` with count `c`.
pub open spec fn row_shown(r: AppRec, res: Seq<App>, c: int) -> bool {
    exists|k: int| 0 <= k < res.len() && #[trigger] shows_app(res[k], r, c)
}

/// `res` lists each application row that `sel` picks exactly once, with
/// count `count` of that row, and nothing else.
pub open spec fn lists_apps(
    res: Seq<App>,
    rows: Seq<AppRec>,
    sel: spec_fn(AppRec) -> bool,
    count: spec_fn(AppRec) -> int,
) -> bool {
    &&& res.len() == count_where(rows, sel)
    &&& forall|k: int| 0 <= k < res.len() ==> shows_picked_row(#[trigger] res[k], rows, sel, count)
    &&& forall|i: int| 0 <= i < rows.len() && sel(rows[i]) ==> row_shown(#[trigger] rows[i], res, count(rows[i]))
    &&& forall|k1: int, k2: int| 0 <= k1 < k2 < res.len() ==> #[trigger] res[k1].id != #[trigger] res[k2].id
}

/// `x` shows some row of `rows` that `sel` picks.
pub open spec fn shows_picked_ext<T>(
    x: T,
    rows: Seq<ExtRec>,
    sel: spec_fn(ExtRec) -> bool,
    shows: spec_fn(T, ExtRec) -> bool,
) -> bool {
    exists|i: int| 0 <= i < rows.len() && sel(rows[i]) && #[trigger] shows(x, rows[i])
}

/// Some element of `res` shows the extension row `e`.
pub open spec fn ext_shown<T>(e: ExtRec, res: Seq<T>, shows: spec_fn(T, ExtRec) -> bool) -> bool {
    exists|k: int| 0 <= k < res.len() && #[trigger] shows(res[k], e)
}

/// `res` lists each extension row that `sel` picks exactly once, as `shows`
/// describes it, in strictly increasing order of `key`.
pub open spec fn lists_exts<T>(
    res: Seq<T>,
    rows: Seq<ExtRec>,
    sel: spec_fn(ExtRec) -> bool,
    shows: spec_fn(T, ExtRec) -> bool,
    key: spec_fn(T) -> Seq<char>,
) -> bool {
    &&& res.len() == count_where(rows, sel)
    &&& forall|k: int| 0 <= k < res.len() ==> shows_picked_ext(#[trigger] res[k], rows, sel, shows)
    &&& forall|i: int| 0 <= i < rows.len() && sel(rows[i]) ==> ext_shown(#[trigger] rows[i], res, shows)
    &&& forall|k1: int, k2: int|
        0 <= k1 < k2 < res.len() ==> seq_lt(binary_key(key(#[trigger] res[k1])), binary_key(key(#[trigger] res[k2])))
}

impl DbView {
    /// The name of application `id`, if it exists.
    pub open spec fn app_name(self, id: Option<i64>) -> Option<Seq<char>> {
        match id {
            None => None,
            Some(x) => {
                let k = first_index(self.apps, app_with_id(x));
                if k >= 0 {
                    Some(self.apps[k].name)
                } else {
                    None
                }
            },
        }
    }

    /// `a` shows application `id`, with the number of extensions it is the
    /// default for.
    pub open spec fn shows_app_by_id(self, a: App, id: i64) -> bool {
        exists|i: int|
            0 <= i < self.apps.len() && self.apps[i].id == id && #[trigger] shows_app(
                a,
                self.apps[i],
                self.default_count(id) as int,
            )
    }

    /// `x` shows the extension row `e`, with its default's name.
    pub open spec fn shows_ext(self, x: Extension, e: ExtRec) -> bool {
        &&& x.ext@ == e.ext
        &&& x.description@ == e.description
        &&& x.default_app_id == e.default_app_id
        &&& match x.default_app_name {
            Some(n) => self.app_name(e.default_app_id) == Some(n@),
            None => self.app_name(e.default_app_id) is None,
        }
    }
}

/// The name filter of the application list: none, or `LIKE '%filter%'`.
pub open spec fn name_filter(filter: Option<Seq<char>>) -> spec_fn(AppRec) -> bool {
    |a: AppRec| match filter {
        None => true,
        Some(f) => like_contains(f, a.name),
    }
}

/// Extensions whose default is `app_id`, or all extensions when it is
/// `None`.
pub open spec fn for_default(app_id: Option<i64>) -> spec_fn(ExtRec) -> bool {
    |e: ExtRec| app_id is None || e.default_app_id == app_id
}

/// The extension record shows the row, with its default's name.
pub open spec fn shows_extension(v: DbView) -> spec_fn(Extension, ExtRec) -> bool {
    |x: Extension, e: ExtRec| v.shows_ext(x, e)
}

/// The extension of an extension record.
pub open spec fn extension_text() -> spec_fn(Extension) -> Seq<char> {
    |x: Extension| x.ext@
}

/// Extensions defaulted to `source` that `target` can open.
pub open spec fn eligible_for(v: DbView, source: i64, target: i64) -> spec_fn(ExtRec) -> bool {
    |e: ExtRec| e.default_app_id == Some(source) && v.has_link(e.ext, target)
}

/// The string is the row's extension.
pub open spec fn shows_ext_name() -> spec_fn(String, ExtRec) -> bool {
    |s: String, e: ExtRec| s@ == e.ext
}

/// The text of a string.
pub open spec fn string_text() -> spec_fn(String) -> Seq<char> {
    |s: String| s@
}

/// The pair is the row's extension and its number of other handlers.
pub open spec fn shows_target_count(v: DbView, source: i64) -> spec_fn((String, i64), ExtRec) -> bool {
    |p: (String, i64), e: ExtRec| p.0@ == e.ext && p.1 == v.target_count(e.ext, source)
}

/// The extension of a pair.
pub open spec fn pair_text() -> spec_fn((String, i64)) -> Seq<char> {
    |p: (String, i64)| p.0@
}

/// The text of an optional string.
pub open spec fn opt_text(s: Option<String>) -> Option<Seq<char>> {
    match s {
        Some(x) => Some(x@),
        None => None,
    }
}

} // verus!
