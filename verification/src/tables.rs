//! The catalogue's tables as vectors of rows, with the lookups and changes
//! that the public operations are built from.

use vstd::prelude::*;
use vstd::string::*;
use crate::model::{
    app_at_path, app_named, ext_named, handled_in, keeps_link, first_index, lemma_first_index, lemma_first_index_is,
    texts, AppRec, DbError, DbView, ExtRec, LinkRec,
};
use crate::rows::{AppRow, ExtensionRow, LinkRow};

verus! {

/// The three tables as vectors of rows, in the order the rows were added,
/// and the largest application identifier handed out.
pub struct Tables {
    pub apps: Vec<AppRow>,
    pub exts: Vec<ExtensionRow>,
    pub links: Vec<LinkRow>,
    pub last_id: i64,
}

impl Tables {
    /// The catalogue the tables hold.
    pub open spec fn view(&self) -> DbView {
        DbView {
            apps: self.apps@.map_values(|r: AppRow| r@),
            exts: self.exts@.map_values(|r: ExtensionRow| r@),
            links: self.links@.map_values(|r: LinkRow| r@),
            last_id: self.last_id,
        }
    }

    /// Three empty tables.
    pub fn empty() -> (t: Tables)
        ensures
            t.view() == DbView::empty(),
            t.view().wf(),
    {
        let t = Tables { apps: Vec::new(), exts: Vec::new(), links: Vec::new(), last_id: 0 };
        assert(t.view().apps =~= Seq::<AppRec>::empty());
        assert(t.view().exts =~= Seq::<ExtRec>::empty());
        assert(t.view().links =~= Seq::<LinkRec>::empty());
        t
    }

    /// The position of the application called `name`.
    pub fn find_app_named(&self, name: &String) -> (r: Option<usize>)
        ensures
            match r {
                Some(i) => i < self.apps.len() && first_index(self.view().apps, app_named(name@)) == i,
                None => first_index(self.view().apps, app_named(name@)) == -1,
            },
    {
        let ghost v = self.view();
        let mut i: usize = 0;
        while i < self.apps.len()
            invariant
                v == self.view(),
                i <= self.apps.len(),
                forall|j: int| 0 <= j < i ==> !app_named(name@)(#[trigger] v.apps[j]),
            decreases self.apps.len() - i,
        {
            if self.apps[i].name == *name {
                proof {
                    lemma_first_index_is(v.apps, app_named(name@), i as int);
                }
                return Some(i);
            }
            i = i + 1;
        }
        proof {
            lemma_first_index_is(v.apps, app_named(name@), -1);
        }
        None
    }

    /// The position of the first application whose bundle is at `path`.
    pub fn find_app_at(&self, path: &String) -> (r: Option<usize>)
        ensures
            match r {
                Some(i) => i < self.apps.len() && first_index(self.view().apps, app_at_path(path@)) == i,
                None => first_index(self.view().apps, app_at_path(path@)) == -1,
            },
    {
        let ghost v = self.view();
        let mut i: usize = 0;
        while i < self.apps.len()
            invariant
                v == self.view(),
                i <= self.apps.len(),
                forall|j: int| 0 <= j < i ==> !app_at_path(path@)(#[trigger] v.apps[j]),
            decreases self.apps.len() - i,
        {
            if self.apps[i].path == *path {
                proof {
                    lemma_first_index_is(v.apps, app_at_path(path@), i as int);
                }
                return Some(i);
            }
            i = i + 1;
        }
        proof {
            lemma_first_index_is(v.apps, app_at_path(path@), -1);
        }
        None
    }

    /// The position of extension `ext`.
    pub fn find_ext(&self, ext: &String) -> (r: Option<usize>)
        ensures
            match r {
                Some(i) => i < self.exts.len() && first_index(self.view().exts, ext_named(ext@)) == i,
                None => first_index(self.view().exts, ext_named(ext@)) == -1,
            },
            r is Some <==> self.view().has_ext(ext@),
    {
        let ghost v = self.view();
        let mut i: usize = 0;
        while i < self.exts.len()
            invariant
                v == self.view(),
                i <= self.exts.len(),
                forall|j: int| 0 <= j < i ==> !ext_named(ext@)(#[trigger] v.exts[j]),
            decreases self.exts.len() - i,
        {
            if self.exts[i].ext == *ext {
                proof {
                    lemma_first_index_is(v.exts, ext_named(ext@), i as int);
                    assert(v.exts[i as int].ext == ext@);
                }
                return Some(i);
            }
            i = i + 1;
        }
        proof {
            lemma_first_index_is(v.exts, ext_named(ext@), -1);
            assert forall|k: int| 0 <= k < v.exts.len() implies #[trigger] v.exts[k].ext != ext@ by {
                assert(!ext_named(ext@)(v.exts[k]));
            }
        }
        None
    }

    /// Whether an application with identifier `id` exists.
    pub fn contains_app(&self, id: i64) -> (r: bool)
        ensures
            r == self.view().has_app(id),
    {
        let ghost v = self.view();
        let mut i: usize = 0;
        while i < self.apps.len()
            invariant
                v == self.view(),
                i <= self.apps.len(),
                forall|j: int| 0 <= j < i ==> #[trigger] v.apps[j].id != id,
            decreases self.apps.len() - i,
        {
            if self.apps[i].id == id {
                assert(v.apps[i as int].id == id);
                return true;
            }
            i = i + 1;
        }
        false
    }

    /// Whether `app_id` can open `ext`.
    pub fn contains_link(&self, ext: &String, app_id: i64) -> (r: bool)
        ensures
            r == self.view().has_link(ext@, app_id),
    {
        let ghost v = self.view();
        let mut i: usize = 0;
        while i < self.links.len()
            invariant
                v == self.view(),
                i <= self.links.len(),
                forall|j: int| 0 <= j < i ==> !(#[trigger] v.links[j].ext == ext@ && v.links[j].app_id == app_id),
            decreases self.links.len() - i,
        {
            if self.links[i].app_id == app_id && self.links[i].ext == *ext {
                assert(v.links[i as int].ext == ext@);
                return true;
            }
            i = i + 1;
        }
        false
    }

    /// Whether some application can open `ext`.
    pub fn has_handler(&self, ext: &String) -> (r: bool)
        ensures
            r == self.view().ext_has_handler(ext@),
    {
        let ghost v = self.view();
        let mut i: usize = 0;
        while i < self.links.len()
            invariant
                v == self.view(),
                i <= self.links.len(),
                forall|j: int| 0 <= j < i ==> #[trigger] v.links[j].ext != ext@,
            decreases self.links.len() - i,
        {
            if self.links[i].ext == *ext {
                assert(v.links[i as int].ext == ext@);
                return true;
            }
            i = i + 1;
        }
        false
    }
}

impl Tables {
    /// Adds or renames-in-place the application `name`.
    pub fn upsert_app(&mut self, name: &str, path: &str) -> (r: Result<i64, DbError>)
        requires
            old(self).view().wf(),
        ensures
            match (r, old(self).view().upsert_app(name@, path@)) {
                (Ok(id), Ok((v, id2))) => final(self).view() == v && id == id2,
                (Err(e), Err(e2)) => e == e2 && final(self).view() == old(self).view(),
                _ => false,
            },
            final(self).view().wf(),
    {
        proof {
            self.view().lemma_upsert_app_wf(name@, path@);
        }
        if self.last_id == i64::MAX {
            return Err(DbError::Full);
        }
        let n = self.last_id + 1;
        let name_s = String::from_str(name);
        let path_s = String::from_str(path);
        let ghost v = self.view();
        match self.find_app_named(&name_s) {
            Some(i) => {
                let id = self.apps[i].id;
                proof {
                    lemma_first_index(v.apps, app_named(name@));
                    assert(v.apps[i as int].name == name@);
                }
                self.apps.set(i, AppRow { id, name: name_s, path: path_s });
                self.last_id = n;
                proof {
                    assert(self.view().apps =~= v.apps.update(i as int, AppRec { path: path@, ..v.apps[i as int] }));
                }
                Ok(id)
            },
            None => {
                self.apps.push(AppRow { id: n, name: name_s, path: path_s });
                self.last_id = n;
                proof {
                    assert(self.view().apps =~= v.apps.push(AppRec { id: n, name: name@, path: path@ }));
                }
                Ok(n)
            },
        }
    }

    /// Catalogues `ext` unless it is already there.
    pub fn insert_ext(&mut self, ext: &String, description: &String) -> (r: Result<(), DbError>)
        requires
            old(self).view().wf(),
        ensures
            (final(self).view(), r) == old(self).view().insert_ext(ext@, description@),
    {
        let ghost v = self.view();
        if self.exts.len() as u64 >= i64::MAX as u64 {
            return Err(DbError::Full);
        }
        if self.find_ext(ext).is_some() {
            return Ok(());
        }
        self.exts.push(ExtensionRow { ext: ext.clone(), description: description.clone(), default_app_id: None });
        proof {
            assert(self.view().exts =~= v.exts.push(ExtRec { ext: ext@, description: description@, default_app_id: None }));
        }
        Ok(())
    }

    /// Records that `app_id` can open `ext`, unless already recorded.
    pub fn insert_link(&mut self, ext: &String, app_id: i64) -> (r: Result<(), DbError>)
        requires
            old(self).view().wf(),
        ensures
            (final(self).view(), r) == old(self).view().insert_link(ext@, app_id),
    {
        let ghost v = self.view();
        if self.links.len() as u64 >= i64::MAX as u64 {
            return Err(DbError::Full);
        }
        if self.contains_link(ext, app_id) {
            return Ok(());
        }
        if !self.contains_app(app_id) {
            return Err(DbError::ForeignKey);
        }
        self.links.push(LinkRow { ext: ext.clone(), app_id });
        proof {
            assert(self.view().links =~= v.links.push(LinkRec { ext: ext@, app_id }));
        }
        Ok(())
    }

    /// Catalogues `ext` and records that `app_id` can open it.
    pub fn upsert_ext_app(&mut self, ext: &String, app_id: i64, description: &String) -> (r: Result<(), DbError>)
        requires
            old(self).view().wf(),
        ensures
            (final(self).view(), r) == old(self).view().upsert_ext_app(ext@, app_id, description@),
            final(self).view().wf(),
    {
        proof {
            self.view().lemma_upsert_ext_app_wf(ext@, app_id, description@);
            self.view().lemma_insert_ext_wf(ext@, description@);
        }
        let r1 = self.insert_ext(ext, description);
        match r1 {
            Err(e) => Err(e),
            Ok(_) => self.insert_link(ext, app_id),
        }
    }

    /// Makes `app_id` the default of `ext` when `ext` is catalogued.
    pub fn set_default_app(&mut self, ext: &String, app_id: i64) -> (r: Result<(), DbError>)
        requires
            old(self).view().wf(),
        ensures
            match (r, old(self).view().set_default_app(ext@, app_id)) {
                (Ok(_), Ok(v)) => final(self).view() == v,
                (Err(e), Err(e2)) => e == e2 && final(self).view() == old(self).view(),
                _ => false,
            },
            final(self).view().wf(),
    {
        proof {
            self.view().lemma_set_default_app_wf(ext@, app_id);
        }
        let ghost v = self.view();
        match self.find_ext(ext) {
            None => Ok(()),
            Some(i) => {
                if !self.contains_app(app_id) {
                    return Err(DbError::ForeignKey);
                }
                let row = ExtensionRow {
                    ext: self.exts[i].ext.clone(),
                    description: self.exts[i].description.clone(),
                    default_app_id: Some(app_id),
                };
                self.exts.set(i, row);
                proof {
                    assert(self.view().exts =~= v.exts.update(
                        i as int,
                        ExtRec { default_app_id: Some(app_id), ..v.exts[i as int] },
                    ));
                }
                Ok(())
            },
        }
    }
}

/// Whether `needle` is one of `list`.
pub fn contains_text(list: &[String], needle: &String) -> (r: bool)
    ensures
        r == texts(list@).contains(needle@),
{
    let mut i: usize = 0;
    while i < list.len()
        invariant
            i <= list.len(),
            forall|j: int| 0 <= j < i ==> #[trigger] list@[j]@ != needle@,
        decreases list.len() - i,
    {
        if list[i] == *needle {
            assert(texts(list@)[i as int] == needle@);
            return true;
        }
        i = i + 1;
    }
    proof {
        if texts(list@).contains(needle@) {
            let k = choose|k: int| 0 <= k < texts(list@).len() && texts(list@)[k] == needle@;
            assert(list@[k]@ == needle@);
        }
    }
    false
}

impl Tables {
    /// Makes `target` the default of each of `exts` in turn, stopping at
    /// the first refusal.
    pub fn reassign(&mut self, exts: &[String], target: i64) -> (r: Result<(), DbError>)
        requires
            old(self).view().wf(),
        ensures
            (final(self).view(), r) == old(self).view().reassign(texts(exts@), target),
            final(self).view().wf(),
    {
        let ghost v0 = self.view();
        let ghost all = texts(exts@);
        let mut i: usize = 0;
        assert(all.take(0) =~= Seq::<Seq<char>>::empty());
        while i < exts.len()
            invariant
                i <= exts.len(),
                all == texts(exts@),
                v0 == old(self).view(),
                v0.wf(),
                (self.view(), Ok::<(), DbError>(())) == v0.reassign(all.take(i as int), target),
                self.view().wf(),
            decreases exts.len() - i,
        {
            proof {
                assert(all.take(i + 1).drop_last() =~= all.take(i as int));
                assert(all.take(i + 1).last() == exts@[i as int]@);
            }
            let r = self.set_default_app(&exts[i], target);
            if let Err(e) = r {
                proof {
                    assert(v0.reassign(all.take(i + 1), target) == (self.view(), Err::<(), DbError>(e)));
                    v0.lemma_reassign_err_sticky(all, target, i + 1);
                    assert((self.view(), Err::<(), DbError>(e)) == v0.reassign(all, target));
                    assert(v0 == old(self).view());
                    assert(all == texts(exts@));
                }
                return Err(e);
            }
            i = i + 1;
        }
        assert(all.take(exts.len() as int) =~= all);
        Ok(())
    }

    /// Forgets that `app_id` can open the extensions not in `keep`.
    pub fn remove_stale(&mut self, app_id: i64, keep: &[String])
        requires
            old(self).view().wf(),
        ensures
            final(self).view() == old(self).view().remove_stale(app_id, texts(keep@)),
            final(self).view().wf(),
    {
        let ghost v = self.view();
        let ghost p = keeps_link(app_id, texts(keep@));
        proof {
            v.lemma_remove_stale_wf(app_id, texts(keep@));
        }
        let mut kept: Vec<LinkRow> = Vec::new();
        let mut i: usize = 0;
        assert(v.links.take(0) =~= Seq::<LinkRec>::empty());
        proof {
            reveal(Seq::filter);
        }
        while i < self.links.len()
            invariant
                v == self.view(),
                p == keeps_link(app_id, texts(keep@)),
                i <= self.links.len(),
                kept@.map_values(|r: LinkRow| r@) == v.links.take(i as int).filter(p),
            decreases self.links.len() - i,
        {
            let ghost before = kept@;
            reveal(Seq::filter);
            proof {
                assert(v.links.take(i + 1).drop_last() =~= v.links.take(i as int));
                assert(v.links.take(i + 1).last() == self.links@[i as int]@);
            }
            let keep_it = self.links[i].app_id != app_id || contains_text(keep, &self.links[i].ext);
            assert(keep_it == p(self.links@[i as int]@));
            if keep_it {
                kept.push(self.links[i].clone());
                proof {
                    assert(kept@.map_values(|r: LinkRow| r@) =~= before.map_values(|r: LinkRow| r@).push(
                        self.links@[i as int]@,
                    ));
                }
            }
            i = i + 1;
            reveal(Seq::filter);
        }
        self.links = kept;
        proof {
            assert(v.links.take(v.links.len() as int) =~= v.links);
            assert(self.view().links == v.links.filter(p));
            assert(self.view() =~= v.remove_stale(app_id, texts(keep@)));
        }
    }

    /// Drops every extension that no application can open.
    pub fn cleanup_orphans(&mut self)
        requires
            old(self).view().wf(),
        ensures
            final(self).view() == old(self).view().cleanup_orphans(),
            final(self).view().wf(),
    {
        let ghost v = self.view();
        let ghost links = v.links;
        let ghost p = handled_in(links);
        proof {
            v.lemma_cleanup_orphans_wf();
        }
        let mut kept: Vec<ExtensionRow> = Vec::new();
        let mut i: usize = 0;
        assert(v.exts.take(0) =~= Seq::<ExtRec>::empty());
        proof {
            reveal(Seq::filter);
        }
        while i < self.exts.len()
            invariant
                v == self.view(),
                links == v.links,
                p == handled_in(links),
                i <= self.exts.len(),
                kept@.map_values(|r: ExtensionRow| r@) == v.exts.take(i as int).filter(p),
            decreases self.exts.len() - i,
        {
            let ghost before = kept@;
            reveal(Seq::filter);
            proof {
                assert(v.exts.take(i + 1).drop_last() =~= v.exts.take(i as int));
                assert(v.exts.take(i + 1).last() == self.exts@[i as int]@);
            }
            let used = self.has_handler(&self.exts[i].ext);
            assert(used == p(self.exts@[i as int]@));
            if used {
                kept.push(self.exts[i].clone());
                proof {
                    assert(kept@.map_values(|r: ExtensionRow| r@) =~= before.map_values(
                        |r: ExtensionRow| r@,
                    ).push(self.exts@[i as int]@));
                }
            }
            i = i + 1;
            reveal(Seq::filter);
        }
        self.exts = kept;
        proof {
            assert(v.exts.take(v.exts.len() as int) =~= v.exts);
            assert(self.view().exts == v.exts.filter(p));
            assert(self.view() =~= v.cleanup_orphans());
        }
    }
}

impl Tables {
    /// Makes the first application found at `path` the default of `ext`.
    pub fn refresh_default_by_path(&mut self, ext: &String, path: &String) -> (r: Result<bool, DbError>)
        requires
            old(self).view().wf(),
        ensures
            match (r, old(self).view().refresh_default_by_path(ext@, path@)) {
                (Ok(b), Ok((v, b2))) => final(self).view() == v && b == b2,
                (Err(e), Err(e2)) => e == e2 && final(self).view() == old(self).view(),
                _ => false,
            },
            final(self).view().wf(),
    {
        match self.find_app_at(path) {
            None => Ok(false),
            Some(i) => {
                let id = self.apps[i].id;
                match self.set_default_app(ext, id) {
                    Ok(_) => Ok(true),
                    Err(e) => Err(e),
                }
            },
        }
    }
}

impl Tables {
    /// Whether the tables obey the catalogue's rules.
    pub fn check_wf(&self) -> (b: bool)
        ensures
            b == self.view().wf(),
    {
        let ghost v = self.view();
        if self.last_id < 0 || self.apps.len() as u64 > self.last_id as u64 {
            return false;
        }
        if self.exts.len() as u64 > i64::MAX as u64 || self.links.len() as u64 > i64::MAX as u64 {
            return false;
        }
        let mut i: usize = 0;
        while i < self.apps.len()
            invariant
                v == self.view(),
                0 <= v.last_id,
                v.apps.len() <= v.last_id,
                v.exts.len() <= i64::MAX,
                v.links.len() <= i64::MAX,
                i <= self.apps.len(),
                forall|a: int, b: int|
                    0 <= a < b < i ==> #[trigger] v.apps[a].id != #[trigger] v.apps[b].id && v.apps[a].name
                        != v.apps[b].name,
                forall|a: int| 0 <= a < i ==> 1 <= #[trigger] v.apps[a].id <= v.last_id,
            decreases self.apps.len() - i,
        {
            assert(v.apps[i as int] == self.apps@[i as int]@);
            if self.apps[i].id < 1 || self.apps[i].id > self.last_id {
                proof {
                    v.lemma_bad_app_id(i as int);
                }
                return false;
            }
            let mut j: usize = 0;
            while j < i
                invariant
                    v == self.view(),
                    j <= i,
                    i < self.apps.len(),
                    forall|a: int| 0 <= a < j ==> #[trigger] v.apps[a].id != v.apps[i as int].id && v.apps[a].name
                        != v.apps[i as int].name,
                decreases i - j,
            {
                assert(v.apps[j as int] == self.apps@[j as int]@);
                assert(v.apps[i as int] == self.apps@[i as int]@);
                if self.apps[j].id == self.apps[i].id || self.apps[j].name == self.apps[i].name {
                    proof {
                        v.lemma_duplicate_app(j as int, i as int);
                    }
                    return false;
                }
                assert(v.apps[j as int].id != v.apps[i as int].id);
                assert(v.apps[j as int].name != v.apps[i as int].name);
                assert forall|a: int| 0 <= a < j + 1 implies #[trigger] v.apps[a].id != v.apps[i as int].id
                    && v.apps[a].name != v.apps[i as int].name by {}
                j = j + 1;
            }
            i = i + 1;
        }
        let mut i: usize = 0;
        while i < self.exts.len()
            invariant
                v == self.view(),
                0 <= v.last_id,
                v.apps.len() <= v.last_id,
                v.exts.len() <= i64::MAX,
                v.links.len() <= i64::MAX,
                forall|a: int, b: int|
                    0 <= a < b < v.apps.len() ==> #[trigger] v.apps[a].id != #[trigger] v.apps[b].id
                        && v.apps[a].name != v.apps[b].name,
                forall|a: int| 0 <= a < v.apps.len() ==> 1 <= #[trigger] v.apps[a].id <= v.last_id,
                i <= self.exts.len(),
                forall|a: int, b: int|
                    0 <= a < b < i ==> #[trigger] v.exts[a].ext != #[trigger] v.exts[b].ext,
                forall|a: int|
                    0 <= a < i ==> (#[trigger] v.exts[a].default_app_id matches Some(id) ==> v.has_app(id)),
            decreases self.exts.len() - i,
        {
            assert(v.exts[i as int] == self.exts@[i as int]@);
            if let Some(id) = self.exts[i].default_app_id {
                if !self.contains_app(id) {
                    proof {
                        if v.wf() {
                            assert(v.exts[i as int].default_app_id matches Some(x) ==> v.has_app(x));
                        }
                    }
                    return false;
                }
            }
            let mut j: usize = 0;
            while j < i
                invariant
                    v == self.view(),
                    j <= i,
                    i < self.exts.len(),
                    forall|a: int| 0 <= a < j ==> #[trigger] v.exts[a].ext != v.exts[i as int].ext,
                decreases i - j,
            {
                assert(v.exts[j as int] == self.exts@[j as int]@);
                assert(v.exts[i as int] == self.exts@[i as int]@);
                if self.exts[j].ext == self.exts[i].ext {
                    proof {
                        if v.wf() {
                            assert(v.exts[j as int].ext != v.exts[i as int].ext);
                        }
                    }
                    return false;
                }
                j = j + 1;
            }
            i = i + 1;
        }
        let mut i: usize = 0;
        while i < self.links.len()
            invariant
                v == self.view(),
                0 <= v.last_id,
                v.apps.len() <= v.last_id,
                v.exts.len() <= i64::MAX,
                v.links.len() <= i64::MAX,
                forall|a: int, b: int|
                    0 <= a < b < v.apps.len() ==> #[trigger] v.apps[a].id != #[trigger] v.apps[b].id
                        && v.apps[a].name != v.apps[b].name,
                forall|a: int| 0 <= a < v.apps.len() ==> 1 <= #[trigger] v.apps[a].id <= v.last_id,
                forall|a: int, b: int|
                    0 <= a < b < v.exts.len() ==> #[trigger] v.exts[a].ext != #[trigger] v.exts[b].ext,
                forall|a: int|
                    0 <= a < v.exts.len() ==> (#[trigger] v.exts[a].default_app_id matches Some(id)
                        ==> v.has_app(id)),
                i <= self.links.len(),
                forall|a: int, b: int|
                    0 <= a < b < i ==> #[trigger] v.links[a] != #[trigger] v.links[b],
                forall|a: int|
                    0 <= a < i ==> v.has_ext(#[trigger] v.links[a].ext) && v.has_app(v.links[a].app_id),
            decreases self.links.len() - i,
        {
            assert(v.links[i as int] == self.links@[i as int]@);
            if self.find_ext(&self.links[i].ext).is_none() || !self.contains_app(self.links[i].app_id) {
                proof {
                    v.lemma_dangling_link(i as int);
                }
                return false;
            }
            let mut j: usize = 0;
            while j < i
                invariant
                    v == self.view(),
                    j <= i,
                    i < self.links.len(),
                    forall|a: int| 0 <= a < j ==> #[trigger] v.links[a] != v.links[i as int],
                decreases i - j,
            {
                assert(v.links[j as int] == self.links@[j as int]@);
                assert(v.links[i as int] == self.links@[i as int]@);
                if self.links[j].ext == self.links[i].ext && self.links[j].app_id == self.links[i].app_id {
                    proof {
                        if v.wf() {
                            assert(v.links[j as int] != v.links[i as int]);
                        }
                    }
                    return false;
                }
                j = j + 1;
            }
            i = i + 1;
        }
        assert forall|a: int, b: int| 0 <= a < b < v.apps.len() implies #[trigger] v.apps[a].id
            != #[trigger] v.apps[b].id && v.apps[a].name != v.apps[b].name by {}
        assert forall|a: int| 0 <= a < v.apps.len() implies 1 <= #[trigger] v.apps[a].id <= v.last_id by {}
        assert forall|a: int, b: int| 0 <= a < b < v.exts.len() implies #[trigger] v.exts[a].ext
            != #[trigger] v.exts[b].ext by {}
        assert forall|a: int| 0 <= a < v.exts.len() implies (#[trigger] v.exts[a].default_app_id matches Some(
            id,
        ) ==> v.has_app(id)) by {}
        assert forall|a: int, b: int| 0 <= a < b < v.links.len() implies #[trigger] v.links[a]
            != #[trigger] v.links[b] by {}
        assert forall|a: int| 0 <= a < v.links.len() implies v.has_ext(#[trigger] v.links[a].ext)
            && v.has_app(v.links[a].app_id) by {}
        assert(v.wf());
        true
    }
}

} // verus!
