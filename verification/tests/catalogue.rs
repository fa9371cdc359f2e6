use file_type_groups::db::Database;
use file_type_groups::model::DbError;
use file_type_groups::rows::{App, AppRow, ExtensionRow, LinkRow};

fn s(x: &str) -> String {
    x.to_string()
}

fn names(apps: &[App]) -> Vec<String> {
    apps.iter().map(|a| a.name.clone()).collect()
}

/// Source owns txt, md and rs; Target opens txt and md; Other opens txt.
fn sample() -> (Database, i64, i64, i64) {
    let mut db = Database::new();
    let source = db.upsert_app("Source", "/Applications/Source.app").unwrap();
    let target = db.upsert_app("Target", "/Applications/Target.app").unwrap();
    let other = db.upsert_app("other", "/Applications/other.app").unwrap();
    for ext in ["txt", "md", "rs"] {
        db.upsert_ext_app(ext, source, "Source files").unwrap();
        db.set_default_app(ext, source).unwrap();
    }
    db.upsert_ext_app("txt", target, "").unwrap();
    db.upsert_ext_app("md", target, "").unwrap();
    db.upsert_ext_app("txt", other, "").unwrap();
    (db, source, target, other)
}

#[test]
fn new_catalogue_is_empty() {
    let db = Database::new();
    assert_eq!(db.get_summary(), (0, 0));
    assert!(db.get_apps(None).is_empty());
    assert!(db.all_extensions().is_empty());
    assert_eq!(db.last_id(), 0);
}

#[test]
fn upsert_app_keeps_identifier_and_moves_path() {
    let mut db = Database::new();
    assert_eq!(db.upsert_app("Alpha", "/A/Alpha.app"), Ok(1));
    assert_eq!(db.upsert_app("Beta", "/A/Beta.app"), Ok(2));
    assert_eq!(db.upsert_app("Alpha", "/B/Alpha.app"), Ok(1));
    let apps = db.get_apps(None);
    assert_eq!(apps.len(), 2);
    assert_eq!(apps[0].name, "Alpha");
    assert_eq!(apps[0].path, "/B/Alpha.app");
    assert_eq!(apps[0].id, 1);
    // every upsert uses up an identifier, as an AUTOINCREMENT key does
    assert_eq!(db.last_id(), 3);
    assert_eq!(db.upsert_app("Gamma", "/A/Gamma.app"), Ok(4));
}

#[test]
fn upsert_ext_app_records_pair_once() {
    let mut db = Database::new();
    let id = db.upsert_app("Editor", "/Applications/Editor.app").unwrap();
    assert_eq!(db.upsert_ext_app("txt", id, "Plain text"), Ok(()));
    assert_eq!(db.upsert_ext_app("txt", id, "Other words"), Ok(()));
    assert_eq!(db.link_rows().len(), 1);
    let exts = db.get_extensions_for_app(None);
    assert_eq!(exts.len(), 1);
    assert_eq!(exts[0].ext, "txt");
    assert_eq!(exts[0].description, "Plain text");
    assert_eq!(exts[0].default_app_id, None);
    assert_eq!(exts[0].default_app_name, None);
}

#[test]
fn upsert_ext_app_for_unknown_app_is_refused() {
    let mut db = Database::new();
    assert_eq!(db.upsert_ext_app("txt", 42, "Plain text"), Err(DbError::ForeignKey));
    // the extension itself stays catalogued
    assert_eq!(db.all_extensions(), vec![s("txt")]);
    assert!(db.link_rows().is_empty());
}

#[test]
fn set_default_app_rules() {
    let mut db = Database::new();
    let id = db.upsert_app("Editor", "/Applications/Editor.app").unwrap();
    // an extension that is not catalogued: nothing happens
    assert_eq!(db.set_default_app("txt", id), Ok(()));
    assert!(db.all_extensions().is_empty());
    db.upsert_ext_app("txt", id, "").unwrap();
    assert_eq!(db.set_default_app("txt", 99), Err(DbError::ForeignKey));
    assert_eq!(db.get_extensions_for_app(None)[0].default_app_id, None);
    assert_eq!(db.set_default_app("txt", id), Ok(()));
    let exts = db.get_extensions_for_app(Some(id));
    assert_eq!(exts.len(), 1);
    assert_eq!(exts[0].default_app_id, Some(id));
    assert_eq!(exts[0].default_app_name, Some(s("Editor")));
}

#[test]
fn get_apps_orders_by_name_without_case() {
    let mut db = Database::new();
    db.upsert_app("beta", "/b").unwrap();
    db.upsert_app("Alpha", "/a").unwrap();
    db.upsert_app("gamma", "/g").unwrap();
    db.upsert_app("Delta", "/d").unwrap();
    assert_eq!(names(&db.get_apps(None)), vec!["Alpha", "beta", "Delta", "gamma"]);
}

#[test]
fn get_apps_filters_like_sql() {
    let mut db = Database::new();
    db.upsert_app("Visual Studio Code", "/v").unwrap();
    db.upsert_app("TextEdit", "/t").unwrap();
    db.upsert_app("Xcode", "/x").unwrap();
    assert_eq!(names(&db.get_apps(Some("code"))), vec!["Visual Studio Code", "Xcode"]);
    assert_eq!(names(&db.get_apps(Some("EDIT"))), vec!["TextEdit"]);
    assert_eq!(names(&db.get_apps(Some("X_o"))), vec!["Xcode"]);
    assert_eq!(names(&db.get_apps(Some("t%t"))), vec!["TextEdit"]);
    assert_eq!(db.get_apps(Some("")).len(), 3);
    assert!(db.get_apps(Some("zzz")).is_empty());
}

#[test]
fn get_apps_counts_defaults() {
    let (db, source, target, other) = sample();
    let apps = db.get_apps(None);
    assert_eq!(names(&apps), vec!["other", "Source", "Target"]);
    let count = |id: i64| apps.iter().find(|a| a.id == id).unwrap().ext_count;
    assert_eq!(count(source), 3);
    assert_eq!(count(target), 0);
    assert_eq!(count(other), 0);
    // the count is the length of the app's extension list
    assert_eq!(db.get_extensions_for_app(Some(source)).len(), 3);
}

#[test]
fn extensions_are_listed_in_binary_order() {
    let mut db = Database::new();
    let id = db.upsert_app("Editor", "/e").unwrap();
    for ext in ["md", "TXT", "c", "Rs"] {
        db.upsert_ext_app(ext, id, "").unwrap();
    }
    let exts: Vec<String> = db.get_extensions_for_app(None).into_iter().map(|e| e.ext).collect();
    assert_eq!(exts, vec!["Rs", "TXT", "c", "md"]);
    assert!(db.get_extensions_for_app(Some(id)).is_empty());
    // in the order they were added
    assert_eq!(db.all_extensions(), vec![s("md"), s("TXT"), s("c"), s("Rs")]);
}

#[test]
fn candidate_targets_by_overlap() {
    let (db, source, target, other) = sample();
    let c = db.get_candidate_targets(source);
    assert_eq!(c.len(), 2);
    assert_eq!((c[0].id, c[0].ext_count), (target, 2));
    assert_eq!((c[1].id, c[1].ext_count), (other, 1));
    assert!(c.iter().all(|a| a.id != source));
    assert!(db.get_candidate_targets(target).is_empty());
}

#[test]
fn eligible_extensions_for_a_move() {
    let (db, source, target, other) = sample();
    assert_eq!(db.get_eligible_extensions(source, target), vec![s("md"), s("txt")]);
    assert_eq!(db.get_eligible_extensions(source, other), vec![s("txt")]);
    assert!(db.get_eligible_extensions(target, source).is_empty());
    // the candidate count is the number of eligible extensions
    let c = db.get_candidate_targets(source);
    assert_eq!(c[0].ext_count as usize, db.get_eligible_extensions(source, c[0].id).len());
}

#[test]
fn target_counts_per_extension() {
    let (db, source, _target, _other) = sample();
    assert_eq!(
        db.get_extension_target_counts(source),
        vec![(s("md"), 1), (s("rs"), 0), (s("txt"), 2)]
    );
    // the count is the number of other applications that open it
    let txt_openers = db.get_apps_for_extension("txt");
    assert_eq!(txt_openers.iter().filter(|a| a.id != source).count(), 2);
}

#[test]
fn reassign_moves_defaults() {
    let (mut db, source, target, _other) = sample();
    let eligible = db.get_eligible_extensions(source, target);
    assert_eq!(db.reassign_extensions(&eligible, target), Ok(()));
    let moved: Vec<String> = db.get_extensions_for_app(Some(target)).into_iter().map(|e| e.ext).collect();
    assert_eq!(moved, vec!["md", "txt"]);
    let kept: Vec<String> = db.get_extensions_for_app(Some(source)).into_iter().map(|e| e.ext).collect();
    assert_eq!(kept, vec!["rs"]);
    assert!(db.get_eligible_extensions(source, target).is_empty());
    let c = db.get_candidate_targets(source);
    assert!(c.is_empty());
}

#[test]
fn reassign_to_unknown_app_changes_nothing() {
    let (mut db, source, _target, _other) = sample();
    assert_eq!(db.reassign_extensions(&[s("nope"), s("md")], 77), Err(DbError::ForeignKey));
    assert_eq!(db.get_extensions_for_app(Some(source)).len(), 3);
    // extensions that are not catalogued are skipped quietly
    assert_eq!(db.reassign_extensions(&[s("nope")], 77), Ok(()));
}

#[test]
fn apps_for_one_extension() {
    let (db, source, target, other) = sample();
    let apps = db.get_apps_for_extension("txt");
    assert_eq!(names(&apps), vec!["other", "Source", "Target"]);
    assert_eq!(apps[1].id, source);
    assert_eq!(apps[1].ext_count, 3);
    let md: Vec<i64> = db.get_apps_for_extension("md").iter().map(|a| a.id).collect();
    assert_eq!(md, vec![source, target]);
    assert!(db.get_apps_for_extension("png").is_empty());
    let _ = other;
}

#[test]
fn apps_for_all_extensions() {
    let (db, source, target, other) = sample();
    let both = db.get_apps_for_extensions(&[s("txt"), s("md")], Some(source));
    assert_eq!(both.len(), 1);
    assert_eq!((both[0].id, both[0].ext_count), (target, 2));
    let txt = db.get_apps_for_extensions(&[s("txt")], Some(source));
    assert_eq!(txt.iter().map(|a| (a.id, a.ext_count)).collect::<Vec<_>>(), vec![(target, 2), (other, 1)]);
    let everyone = db.get_apps_for_extensions(&[s("txt")], None);
    assert_eq!(names(&everyone), vec!["other", "Source", "Target"]);
    assert!(everyone.iter().all(|a| a.ext_count == 0));
    assert!(db.get_apps_for_extensions(&[], Some(source)).is_empty());
}

#[test]
fn remove_stale_keeps_current_extensions() {
    let (mut db, source, target, _other) = sample();
    db.remove_stale_ext_apps(source, &[s("txt")]);
    let links = db.link_rows().len();
    db.remove_stale_ext_apps(source, &[s("txt")]);
    assert_eq!(db.link_rows().len(), links);
    let md: Vec<i64> = db.get_apps_for_extension("md").iter().map(|a| a.id).collect();
    assert_eq!(md, vec![target]);
    assert!(db.get_apps_for_extension("rs").is_empty());
    // defaults are untouched
    assert_eq!(db.get_extensions_for_app(Some(source)).len(), 3);
    db.remove_stale_ext_apps(target, &[]);
    assert!(db.get_apps_for_extension("md").is_empty());
}

#[test]
fn cleanup_drops_orphans_only() {
    let (mut db, source, _target, _other) = sample();
    db.remove_stale_ext_apps(source, &[s("txt"), s("md")]);
    assert_eq!(db.get_summary(), (3, 3));
    db.cleanup_orphan_extensions();
    assert_eq!(db.get_summary(), (3, 2));
    assert_eq!(db.all_extensions(), vec![s("txt"), s("md")]);
    db.cleanup_orphan_extensions();
    assert_eq!(db.get_summary(), (3, 2));
}

#[test]
fn summary_counts_apps_and_extensions() {
    let (db, _source, _target, _other) = sample();
    assert_eq!(db.get_summary(), (3, 3));
    assert_eq!(db.get_summary().0 as usize, db.get_apps(None).len());
}

#[test]
fn refresh_default_by_path() {
    let (mut db, source, target, _other) = sample();
    assert_eq!(db.refresh_default_app_by_path("txt", "/Applications/Target.app"), Ok(true));
    let txt = db.get_extensions_for_app(Some(target));
    assert_eq!(txt.len(), 1);
    assert_eq!(txt[0].ext, "txt");
    assert_eq!(db.refresh_default_app_by_path("md", "/nowhere/Else.app"), Ok(false));
    assert_eq!(db.get_extensions_for_app(Some(source)).len(), 2);
}

#[test]
fn rows_round_trip() {
    let (db, source, _target, _other) = sample();
    let copy = Database::from_rows(db.app_rows(), db.extension_rows(), db.link_rows(), db.last_id()).unwrap();
    assert_eq!(copy.get_summary(), db.get_summary());
    assert_eq!(copy.last_id(), db.last_id());
    assert_eq!(
        copy.get_extension_target_counts(source),
        db.get_extension_target_counts(source)
    );
    assert_eq!(names(&copy.get_apps(None)), names(&db.get_apps(None)));
}

#[test]
fn from_rows_rejects_broken_tables() {
    let app = |id: i64, name: &str| AppRow { id, name: s(name), path: s("/p") };
    let ext = |e: &str, d: Option<i64>| ExtensionRow { ext: s(e), description: s(""), default_app_id: d };
    let link = |e: &str, id: i64| LinkRow { ext: s(e), app_id: id };
    assert!(Database::from_rows(vec![app(1, "A")], vec![ext("txt", Some(1))], vec![link("txt", 1)], 1).is_some());
    // duplicate names
    assert!(Database::from_rows(vec![app(1, "A"), app(2, "A")], vec![], vec![], 2).is_none());
    // identifier above the last one handed out
    assert!(Database::from_rows(vec![app(3, "A")], vec![], vec![], 2).is_none());
    // default naming a missing application
    assert!(Database::from_rows(vec![app(1, "A")], vec![ext("txt", Some(2))], vec![], 2).is_none());
    // pair naming a missing extension
    assert!(Database::from_rows(vec![app(1, "A")], vec![], vec![link("txt", 1)], 1).is_none());
    // the same pair twice
    assert!(Database::from_rows(
        vec![app(1, "A")],
        vec![ext("txt", None)],
        vec![link("txt", 1), link("txt", 1)],
        1
    )
    .is_none());
}

fn entries(apps: &[App]) -> Vec<(i64, String, String, i64)> {
    apps.iter().map(|a| (a.id, a.name.clone(), a.path.clone(), a.ext_count)).collect()
}

#[test]
fn filtered_list_is_whole_list_filtered() {
    let (db, _source, _target, _other) = sample();
    let all = db.get_apps(None);
    let cases: [(&str, &[&str]); 5] = [
        ("t", &["other", "Target"]),
        ("SOURCE", &["Source"]),
        ("_a", &["Target"]),
        ("x", &[]),
        ("", &["other", "Source", "Target"]),
    ];
    for (f, keep) in cases {
        let expected: Vec<App> = all.iter().filter(|a| keep.contains(&a.name.as_str())).cloned().collect();
        assert_eq!(entries(&db.get_apps(Some(f))), entries(&expected), "filter {f}");
    }
}

#[test]
fn repeated_upsert_keeps_rows() {
    let (mut db, source, _target, _other) = sample();
    let rows = |db: &Database| {
        (
            db.app_rows().into_iter().map(|a| (a.id, a.name, a.path)).collect::<Vec<_>>(),
            db.extension_rows().into_iter().map(|e| (e.ext, e.description, e.default_app_id)).collect::<Vec<_>>(),
            db.link_rows().into_iter().map(|l| (l.ext, l.app_id)).collect::<Vec<_>>(),
        )
    };
    assert_eq!(db.upsert_app("Source", "/Applications/Source.app"), Ok(source));
    let before = rows(&db);
    let last = db.last_id();
    assert_eq!(db.upsert_app("Source", "/Applications/Source.app"), Ok(source));
    assert_eq!(rows(&db), before);
    assert_eq!(db.last_id(), last + 1);
}

#[test]
fn reassigning_eligible_moves_default_counts() {
    let (mut db, source, target, _other) = sample();
    let count = |db: &Database, id: i64| db.get_apps(None).iter().find(|a| a.id == id).unwrap().ext_count;
    let (s0, t0) = (count(&db, source), count(&db, target));
    let eligible = db.get_eligible_extensions(source, target);
    assert_eq!(eligible.len(), 2);
    assert_eq!(db.reassign_extensions(&eligible, target), Ok(()));
    assert_eq!(count(&db, source), s0 - 2);
    assert_eq!(count(&db, target), t0 + 2);
    assert!(db.get_eligible_extensions(source, target).is_empty());
}

#[test]
fn target_counts_add_up_to_candidate_counts() {
    let (db, source, _target, _other) = sample();
    let counts = db.get_extension_target_counts(source);
    let cands = db.get_candidate_targets(source);
    let total: i64 = counts.iter().map(|p| p.1).sum();
    assert_eq!(total, cands.iter().map(|a| a.ext_count).sum::<i64>());
    assert_eq!(total, 3);
    for (ext, c) in &counts {
        let openers = db.get_apps_for_extension(ext);
        let n = cands.iter().filter(|x| openers.iter().any(|a| a.id == x.id)).count();
        assert_eq!(*c as usize, n, "extension {ext}");
    }
}

#[test]
fn app_by_id_finds_the_application() {
    let (db, source, target, _other) = sample();
    let a = db.app_by_id(source).unwrap();
    assert_eq!((a.id, a.name.as_str(), a.path.as_str(), a.ext_count), (source, "Source", "/Applications/Source.app", 3));
    assert_eq!(db.app_by_id(target).unwrap().ext_count, 0);
    assert!(db.app_by_id(99).is_none());
}
