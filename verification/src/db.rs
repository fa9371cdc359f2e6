//! The catalogue of applications and the file extensions they open.

use vstd::prelude::*;
use vstd::string::*;
use crate::model::{
    candidate_for, default_counts, defaulted_to, eligible_for, exclude_counts, extension_text,
    for_default, lists_apps, lists_exts, name_filter, opens, opens_all, overlap_counts, pair_text,
    shows_app, shows_ext_name, shows_extension, shows_target_count, string_text, texts, apps_in_order, DbError,
    DbView,
};
use crate::query::AppQuery;
use crate::rows::{App, AppRow, Extension, ExtensionRow, LinkRow};
use crate::tables::Tables;

verus! {

/// The catalogue: which applications exist, which extensions they can
/// open, and which application opens each extension by default.
pub struct Database {
    t: Tables,
}

impl View for Database {
    type V = DbView;

    closed spec fn view(&self) -> DbView {
        self.t.view()
    }
}

impl Database {
    #[verifier::type_invariant]
    spec fn well_formed(self) -> bool {
        self.t.view().wf()
    }

    /// An empty catalogue.
    pub fn new() -> (db: Database)
        ensures
            db@ == DbView::empty(),
            db@.wf(),
    {
        Database { t: Tables::empty() }
    }

    /// Adds the application `name` with bundle location `path`, or moves
    /// the existing application of that name to `path`; returns its
    /// identifier.
    pub fn upsert_app(&mut self, name: &str, path: &str) -> (r: Result<i64, DbError>)
        ensures
            match (r, old(self)@.upsert_app(name@, path@)) {
                (Ok(id), Ok((v, id2))) => final(self)@ == v && id == id2,
                (Err(e), Err(e2)) => e == e2 && final(self)@ == old(self)@,
                _ => false,
            },
            final(self)@.wf(),
    {
        proof {
            use_type_invariant(&*self);
        }
        let mut t = Tables::empty();
        std::mem::swap(&mut t, &mut self.t);
        let r = t.upsert_app(name, path);
        self.t = t;
        r
    }

    /// Catalogues `ext` (described by `description` when it is new) and
    /// records that application `app_id` can open it.
    pub fn upsert_ext_app(&mut self, ext: &str, app_id: i64, description: &str) -> (r: Result<(), DbError>)
        ensures
            (final(self)@, r) == old(self)@.upsert_ext_app(ext@, app_id, description@),
            final(self)@.wf(),
    {
        proof {
            use_type_invariant(&*self);
        }
        let ext_s = String::from_str(ext);
        let desc_s = String::from_str(description);
        let mut t = Tables::empty();
        std::mem::swap(&mut t, &mut self.t);
        let r = t.upsert_ext_app(&ext_s, app_id, &desc_s);
        self.t = t;
        r
    }

    /// Makes application `app_id` the default of `ext`.
    pub fn set_default_app(&mut self, ext: &str, app_id: i64) -> (r: Result<(), DbError>)
        ensures
            match (r, old(self)@.set_default_app(ext@, app_id)) {
                (Ok(_), Ok(v)) => final(self)@ == v,
                (Err(e), Err(e2)) => e == e2 && final(self)@ == old(self)@,
                _ => false,
            },
            final(self)@.wf(),
    {
        proof {
            use_type_invariant(&*self);
        }
        let ext_s = String::from_str(ext);
        let mut t = Tables::empty();
        std::mem::swap(&mut t, &mut self.t);
        let r = t.set_default_app(&ext_s, app_id);
        self.t = t;
        r
    }

    /// Forgets that application `app_id` can open the extensions that are
    /// not among `current_exts`.
    pub fn remove_stale_ext_apps(&mut self, app_id: i64, current_exts: &[String])
        ensures
            final(self)@ == old(self)@.remove_stale(app_id, texts(current_exts@)),
            final(self)@.wf(),
    {
        proof {
            use_type_invariant(&*self);
        }
        let mut t = Tables::empty();
        std::mem::swap(&mut t, &mut self.t);
        t.remove_stale(app_id, current_exts);
        self.t = t;
    }

    /// Every catalogued extension, each once, in the order they were added.
    pub fn all_extensions(&self) -> (res: Vec<String>)
        ensures
            texts(res@) == self@.exts.map_values(|e: crate::model::ExtRec| e.ext),
            self@.wf(),
    {
        proof {
            use_type_invariant(self);
        }
        let mut res: Vec<String> = Vec::new();
        let mut i: usize = 0;
        while i < self.t.exts.len()
            invariant
                i <= self.t.exts.len(),
                texts(res@) == self@.exts.take(i as int).map_values(|e: crate::model::ExtRec| e.ext),
            decreases self.t.exts.len() - i,
        {
            let e = self.t.exts[i].ext.clone();
            proof {
                assert(e@ == self@.exts[i as int].ext);
                assert(self@.exts.take(i + 1) =~= self@.exts.take(i as int).push(self@.exts[i as int]));
            }
            let ghost before = res@;
            res.push(e);
            i = i + 1;
            proof {
                assert(res@ == before.push(e));
                assert(texts(res@) =~= texts(before).push(e@));
                assert(texts(res@) =~= self@.exts.take(i as int).map_values(|e: crate::model::ExtRec| e.ext));
            }
        }
        proof {
            assert(self@.exts.take(i as int) =~= self@.exts);
        }
        res
    }

    /// Drops every extension that no application can open.
    pub fn cleanup_orphan_extensions(&mut self)
        ensures
            final(self)@ == old(self)@.cleanup_orphans(),
            final(self)@.wf(),
    {
        proof {
            use_type_invariant(&*self);
        }
        let mut t = Tables::empty();
        std::mem::swap(&mut t, &mut self.t);
        t.cleanup_orphans();
        self.t = t;
    }

    /// All applications whose name contains a match of `filter` (as in SQL
    /// `name LIKE '%filter%'`; all of them when there is no filter), each
    /// with the number of extensions it is the default for, ordered by name
    /// without regard to ASCII case.
    pub fn get_apps(&self, filter: Option<&str>) -> (res: Vec<App>)
        ensures
            lists_apps(
                res@,
                self@.apps,
                name_filter(
                    match filter {
                        Some(f) => Some(f@),
                        None => None,
                    },
                ),
                default_counts(self@),
            ),
            apps_in_order(res@, false),
            self@.wf(),
    {
        proof {
            use_type_invariant(self);
        }
        let q = match filter {
            Some(f) => AppQuery::Named(Some(String::from_str(f))),
            None => AppQuery::Named(None),
        };
        self.t.collect_apps(&q)
    }

    /// The extensions whose default is `app_id` (every extension when it is
    /// `None`), with their default's name, ordered by extension.
    pub fn get_extensions_for_app(&self, app_id: Option<i64>) -> (res: Vec<Extension>)
        ensures
            lists_exts(res@, self@.exts, for_default(app_id), shows_extension(self@), extension_text()),
            self@.wf(),
    {
        proof {
            use_type_invariant(self);
        }
        self.t.list_extensions(app_id)
    }

    /// The applications, other than `source_app_id`, that can open at least
    /// one extension defaulted to `source_app_id`, each with the number of
    /// such extensions, most first, then by name.
    pub fn get_candidate_targets(&self, source_app_id: i64) -> (res: Vec<App>)
        ensures
            lists_apps(res@, self@.apps, candidate_for(self@, source_app_id), overlap_counts(self@, source_app_id)),
            apps_in_order(res@, true),
            self@.wf(),
    {
        proof {
            use_type_invariant(self);
        }
        self.t.collect_apps(&AppQuery::CandidatesFor(source_app_id))
    }

    /// The extensions defaulted to `source_app_id` that `target_app_id` can
    /// open, ordered.
    pub fn get_eligible_extensions(&self, source_app_id: i64, target_app_id: i64) -> (res: Vec<String>)
        ensures
            lists_exts(
                res@,
                self@.exts,
                eligible_for(self@, source_app_id, target_app_id),
                shows_ext_name(),
                string_text(),
            ),
            self@.wf(),
    {
        proof {
            use_type_invariant(self);
        }
        self.t.list_eligible(source_app_id, target_app_id)
    }

    /// Makes `target_app_id` the default of each of `exts` in turn; stops
    /// at the first refusal, keeping the earlier changes.
    pub fn reassign_extensions(&mut self, exts: &[String], target_app_id: i64) -> (r: Result<(), DbError>)
        ensures
            (final(self)@, r) == old(self)@.reassign(texts(exts@), target_app_id),
            final(self)@.wf(),
    {
        proof {
            use_type_invariant(&*self);
        }
        let mut t = Tables::empty();
        std::mem::swap(&mut t, &mut self.t);
        let r = t.reassign(exts, target_app_id);
        self.t = t;
        r
    }

    /// The applications that can open `ext`, each with the number of
    /// extensions it is the default for, ordered by name.
    pub fn get_apps_for_extension(&self, ext: &str) -> (res: Vec<App>)
        ensures
            lists_apps(res@, self@.apps, opens(self@, ext@), default_counts(self@)),
            apps_in_order(res@, false),
            self@.wf(),
    {
        proof {
            use_type_invariant(self);
        }
        self.t.collect_apps(&AppQuery::Opening(String::from_str(ext)))
    }

    /// The applications, other than `exclude_app_id`, that can open all of
    /// `exts` (none when `exts` is empty), each with the number of
    /// extensions defaulted to `exclude_app_id` that it can open (0 when
    /// there is no excluded application), most first, then by name.
    pub fn get_apps_for_extensions(&self, exts: &[String], exclude_app_id: Option<i64>) -> (res: Vec<App>)
        ensures
            exts@.len() == 0 ==> res@.len() == 0,
            exts@.len() > 0 ==> lists_apps(
                res@,
                self@.apps,
                opens_all(self@, texts(exts@), exclude_app_id),
                exclude_counts(self@, exclude_app_id),
            ),
            apps_in_order(res@, true),
            self@.wf(),
    {
        proof {
            use_type_invariant(self);
        }
        if exts.len() == 0 {
            return Vec::new();
        }
        let mut owned: Vec<String> = Vec::new();
        let mut i: usize = 0;
        while i < exts.len()
            invariant
                i <= exts.len(),
                texts(owned@) == texts(exts@).take(i as int),
            decreases exts.len() - i,
        {
            let e = exts[i].clone();
            proof {
                assert(e@ == texts(exts@)[i as int]);
            }
            let ghost before = owned@;
            owned.push(e);
            i = i + 1;
            proof {
                assert(owned@ == before.push(e));
                assert(texts(owned@) =~= texts(before).push(e@));
                assert(texts(exts@).take(i as int) =~= texts(exts@).take(i - 1).push(e@));
                assert(texts(owned@) =~= texts(exts@).take(i as int));
            }
        }
        proof {
            assert(texts(exts@).take(i as int) =~= texts(exts@));
        }
        self.t.collect_apps(&AppQuery::OpeningAll(owned, exclude_app_id))
    }

    /// Each extension defaulted to `source_app_id`, with the number of other
    /// applications that can open it, ordered by extension.
    pub fn get_extension_target_counts(&self, source_app_id: i64) -> (res: Vec<(String, i64)>)
        ensures
            lists_exts(
                res@,
                self@.exts,
                defaulted_to(source_app_id),
                shows_target_count(self@, source_app_id),
                pair_text(),
            ),
            self@.wf(),
    {
        proof {
            use_type_invariant(self);
        }
        self.t.list_target_counts(source_app_id)
    }

    /// The application with identifier `id`, with the number of extensions
    /// it is the default for; `None` when there is none.
    pub fn app_by_id(&self, id: i64) -> (r: Option<App>)
        ensures
            match r {
                Some(a) => self@.shows_app_by_id(a, id),
                None => !self@.has_app(id),
            },
    {
        proof {
            use_type_invariant(self);
        }
        let mut i: usize = 0;
        while i < self.t.apps.len()
            invariant
                i <= self.t.apps.len(),
                self@ == self.t.view(),
                self@.wf(),
                forall|j: int| 0 <= j < i ==> #[trigger] self@.apps[j].id != id,
            decreases self.t.apps.len() - i,
        {
            if self.t.apps[i].id == id {
                let row = self.t.apps[i].clone();
                let c = self.t.count_defaults(id);
                let a = App { id, name: row.name, path: row.path, ext_count: c };
                assert(self@.apps[i as int] == self.t.apps@[i as int]@);
                assert(row@ == self.t.apps@[i as int]@);
                assert(shows_app(a, self@.apps[i as int], self@.default_count(id) as int));
                assert(self@.apps[i as int].id == id);
                assert(self@.shows_app_by_id(a, id));
                return Some(a);
            }
            i = i + 1;
        }
        None
    }

    /// The number of applications and the number of extensions.
    pub fn get_summary(&self) -> (r: (i64, i64))
        ensures
            r.0 == self@.apps.len(),
            r.1 == self@.exts.len(),
            self@.wf(),
    {
        proof {
            use_type_invariant(self);
        }
        (self.t.apps.len() as i64, self.t.exts.len() as i64)
    }

    /// Makes the first application whose bundle is at `app_path` the
    /// default of `ext`; answers whether there was such an application.
    pub fn refresh_default_app_by_path(&mut self, ext: &str, app_path: &str) -> (r: Result<bool, DbError>)
        ensures
            match (r, old(self)@.refresh_default_by_path(ext@, app_path@)) {
                (Ok(b), Ok((v, b2))) => final(self)@ == v && b == b2,
                (Err(e), Err(e2)) => e == e2 && final(self)@ == old(self)@,
                _ => false,
            },
            final(self)@.wf(),
    {
        proof {
            use_type_invariant(&*self);
        }
        let ext_s = String::from_str(ext);
        let path_s = String::from_str(app_path);
        let mut t = Tables::empty();
        std::mem::swap(&mut t, &mut self.t);
        let r = t.refresh_default_by_path(&ext_s, &path_s);
        self.t = t;
        r
    }
}

impl Database {
    /// Rebuilds a catalogue from stored rows; `None` when the rows break
    /// the catalogue's rules.
    pub fn from_rows(apps: Vec<AppRow>, exts: Vec<ExtensionRow>, links: Vec<LinkRow>, last_id: i64) -> (r: Option<Database>)
        ensures
            ({
                let v = DbView {
                    apps: apps@.map_values(|x: AppRow| x@),
                    exts: exts@.map_values(|x: ExtensionRow| x@),
                    links: links@.map_values(|x: LinkRow| x@),
                    last_id,
                };
                &&& r is Some <==> v.wf()
                &&& r matches Some(db) ==> db@ == v
            }),
    {
        let t = Tables { apps, exts, links, last_id };
        if t.check_wf() {
            Some(Database { t })
        } else {
            None
        }
    }

    /// The application rows, in the order they were added.
    pub fn app_rows(&self) -> (res: Vec<AppRow>)
        ensures
            res@.map_values(|x: AppRow| x@) == self@.apps,
    {
        let mut res: Vec<AppRow> = Vec::new();
        let mut i: usize = 0;
        while i < self.t.apps.len()
            invariant
                i <= self.t.apps.len(),
                res@.map_values(|x: AppRow| x@) == self@.apps.take(i as int),
            decreases self.t.apps.len() - i,
        {
            let row = self.t.apps[i].clone();
            proof {
                assert(row@ == self@.apps[i as int]);
                assert(self@.apps.take(i + 1) =~= self@.apps.take(i as int).push(row@));
            }
            let ghost before = res@;
            res.push(row);
            i = i + 1;
            proof {
                assert(res@ == before.push(row));
                assert(res@.map_values(|x: AppRow| x@) =~= self@.apps.take(i as int));
            }
        }
        proof {
            assert(self@.apps.take(i as int) =~= self@.apps);
        }
        res
    }

    /// The extension rows, in the order they were added.
    pub fn extension_rows(&self) -> (res: Vec<ExtensionRow>)
        ensures
            res@.map_values(|x: ExtensionRow| x@) == self@.exts,
    {
        let mut res: Vec<ExtensionRow> = Vec::new();
        let mut i: usize = 0;
        while i < self.t.exts.len()
            invariant
                i <= self.t.exts.len(),
                res@.map_values(|x: ExtensionRow| x@) == self@.exts.take(i as int),
            decreases self.t.exts.len() - i,
        {
            let row = self.t.exts[i].clone();
            proof {
                assert(row@ == self@.exts[i as int]);
                assert(self@.exts.take(i + 1) =~= self@.exts.take(i as int).push(row@));
            }
            let ghost before = res@;
            res.push(row);
            i = i + 1;
            proof {
                assert(res@ == before.push(row));
                assert(res@.map_values(|x: ExtensionRow| x@) =~= self@.exts.take(i as int));
            }
        }
        proof {
            assert(self@.exts.take(i as int) =~= self@.exts);
        }
        res
    }

    /// The rows saying which application opens which extension, in the
    /// order they were added.
    pub fn link_rows(&self) -> (res: Vec<LinkRow>)
        ensures
            res@.map_values(|x: LinkRow| x@) == self@.links,
    {
        let mut res: Vec<LinkRow> = Vec::new();
        let mut i: usize = 0;
        while i < self.t.links.len()
            invariant
                i <= self.t.links.len(),
                res@.map_values(|x: LinkRow| x@) == self@.links.take(i as int),
            decreases self.t.links.len() - i,
        {
            let row = self.t.links[i].clone();
            proof {
                assert(row@ == self@.links[i as int]);
                assert(self@.links.take(i + 1) =~= self@.links.take(i as int).push(row@));
            }
            let ghost before = res@;
            res.push(row);
            i = i + 1;
            proof {
                assert(res@ == before.push(row));
                assert(res@.map_values(|x: LinkRow| x@) =~= self@.links.take(i as int));
            }
        }
        proof {
            assert(self@.links.take(i as int) =~= self@.links);
        }
        res
    }

    /// The largest application identifier handed out so far.
    pub fn last_id(&self) -> (r: i64)
        ensures
            r == self@.last_id,
    {
        self.t.last_id
    }
}

} // verus!
