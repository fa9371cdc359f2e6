use file_type_groups::db::Database;
use file_type_groups::model::DbError;
use file_type_groups::plist::{DictEntry, PlistValue, UtiExtensions};
use file_type_groups::scan::is_app_bundle;
use file_type_groups::scan::{
    app_name_from_path, apply_launch_services, content_types, doc_associations, planned_associations,
    process_app, LsReport, ScanError, ScanTally,
};

fn s(x: &str) -> String {
    x.to_string()
}

fn text(x: &str) -> PlistValue {
    PlistValue::String(s(x))
}

fn array(items: &[&str]) -> PlistValue {
    PlistValue::Array(items.iter().map(|x| text(x)).collect())
}

fn dict(entries: Vec<(&str, PlistValue)>) -> PlistValue {
    PlistValue::Dictionary(entries.into_iter().map(|(k, v)| DictEntry { key: s(k), value: v }).collect())
}

fn json_table() -> Vec<UtiExtensions> {
    vec![
        UtiExtensions { uti: s("public.json"), extensions: vec![s("JSON")] },
        UtiExtensions { uti: s("public.plain-text"), extensions: vec![s("txt"), s("text")] },
    ]
}

fn editor_plist(exts: &[&str]) -> PlistValue {
    dict(vec![
        ("CFBundleName", text("Editor")),
        (
            "CFBundleDocumentTypes",
            PlistValue::Array(vec![
                dict(vec![
                    ("CFBundleTypeName", text("Source code")),
                    ("CFBundleTypeExtensions", array(exts)),
                    ("LSItemContentTypes", array(&["public.json"])),
                ]),
                text("not a dictionary"),
            ]),
        ),
    ])
}

#[test]
fn process_app_records_declared_extensions() {
    let mut db = Database::new();
    let info = editor_plist(&["RS", "md", "*", ""]);
    let (id, n) = process_app(&mut db, "/Applications/Editor.app", &info, &json_table()).unwrap();
    assert_eq!(n, 3);
    let apps = db.get_apps(None);
    assert_eq!(apps.len(), 1);
    assert_eq!((apps[0].id, apps[0].name.as_str(), apps[0].path.as_str()), (id, "Editor", "/Applications/Editor.app"));
    let exts = db.get_extensions_for_app(None);
    let found: Vec<(String, String)> = exts.iter().map(|e| (e.ext.clone(), e.description.clone())).collect();
    assert_eq!(
        found,
        vec![(s("json"), s("Source code")), (s("md"), s("Source code")), (s("rs"), s("Source code"))]
    );
    assert!(exts.iter().all(|e| e.default_app_id.is_none()));
}

#[test]
fn rescanning_forgets_extensions_no_longer_declared() {
    let mut db = Database::new();
    let table = json_table();
    let (id, _) = process_app(&mut db, "/Applications/Editor.app", &editor_plist(&["rs", "md"]), &table).unwrap();
    let (id2, n) = process_app(&mut db, "/Applications/Editor.app", &editor_plist(&["rs"]), &table).unwrap();
    assert_eq!(id, id2);
    assert_eq!(n, 2);
    assert!(db.get_apps_for_extension("md").is_empty());
    assert_eq!(db.get_apps_for_extension("rs").len(), 1);
    assert_eq!(db.get_apps_for_extension("json").len(), 1);
}

#[test]
fn display_name_wins_over_bundle_name() {
    let mut db = Database::new();
    let info = dict(vec![("CFBundleName", text("Short")), ("CFBundleDisplayName", text("Long Name"))]);
    let (_, n) = process_app(&mut db, "/Applications/X.app", &info, &[]).unwrap();
    assert_eq!(n, 0);
    assert_eq!(db.get_apps(None)[0].name, "Long Name");
}

#[test]
fn name_comes_from_bundle_when_not_declared() {
    let mut db = Database::new();
    let info = dict(vec![("CFBundleName", PlistValue::Other)]);
    process_app(&mut db, "/Applications/Foo Bar.app", &info, &[]).unwrap();
    assert_eq!(db.get_apps(None)[0].name, "Foo Bar");
    assert_eq!(app_name_from_path("/Applications/Safari.app"), "Safari");
    assert_eq!(app_name_from_path("/"), "");
}

#[test]
fn plist_that_is_not_a_dictionary_is_refused() {
    let mut db = Database::new();
    let r = process_app(&mut db, "/Applications/X.app", &array(&["a"]), &[]);
    assert_eq!(r, Err(ScanError::NotADictionary));
    assert_eq!(db.get_summary(), (0, 0));
}

#[test]
fn extensions_are_lowercased() {
    let item = dict(vec![
        ("CFBundleTypeExtensions", array(&["TXT", "Md"])),
        ("LSItemContentTypes", array(&["public.plain-text", "public.unknown"])),
    ]);
    let pairs = doc_associations(&item, &json_table());
    let exts: Vec<String> = pairs.iter().map(|p| p.0.clone()).collect();
    assert_eq!(exts, vec!["txt", "md", "txt", "text"]);
    assert!(pairs.iter().all(|p| p.1.is_empty()));
    assert!(doc_associations(&text("x"), &json_table()).is_empty());
}

#[test]
fn planned_associations_follow_document_order() {
    let info = editor_plist(&["c", "h"]);
    let entries = match &info {
        PlistValue::Dictionary(d) => d,
        _ => unreachable!(),
    };
    let pairs = planned_associations(entries, &json_table());
    let exts: Vec<String> = pairs.iter().map(|p| p.0.clone()).collect();
    assert_eq!(exts, vec!["c", "h", "json"]);
}

#[test]
fn content_types_lists_declared_types() {
    let info = editor_plist(&["c"]);
    assert_eq!(content_types(&info), vec![s("public.json")]);
    assert!(content_types(&text("x")).is_empty());
    assert!(content_types(&dict(vec![])).is_empty());
}

#[test]
fn launch_services_reports_enter_the_catalogue() {
    let mut db = Database::new();
    let mine = db.upsert_app("Editor", "/Applications/Editor.app").unwrap();
    db.upsert_ext_app("txt", mine, "Plain text").unwrap();
    let reports = vec![
        LsReport {
            ext: s("txt"),
            handlers: vec![(s("Viewer"), s("/Applications/Viewer.app")), (s("Editor"), s("/Applications/Editor.app"))],
            default_app: Some((s("Viewer"), s("/Applications/Viewer.app"))),
        },
        LsReport { ext: s("md"), handlers: vec![], default_app: None },
    ];
    assert_eq!(apply_launch_services(&mut db, &reports), Ok(2));
    let openers: Vec<String> = db.get_apps_for_extension("txt").into_iter().map(|a| a.name).collect();
    assert_eq!(openers, vec!["Editor", "Viewer"]);
    let viewer = db.get_apps(Some("Viewer"))[0].id;
    let defaults = db.get_extensions_for_app(Some(viewer));
    assert_eq!(defaults.len(), 1);
    assert_eq!(defaults[0].ext, "txt");
    assert_eq!(defaults[0].description, "Plain text");
    assert_eq!(defaults[0].default_app_name, Some(s("Viewer")));
}

#[test]
fn launch_services_default_for_unknown_extension_is_ignored() {
    let mut db = Database::new();
    let reports = vec![LsReport { ext: s("zip"), handlers: vec![], default_app: Some((s("Archiver"), s("/A.app"))) }];
    assert_eq!(apply_launch_services(&mut db, &reports), Ok(0));
    assert_eq!(db.get_summary(), (1, 0));
    let _ = DbError::Full;
}

#[test]
fn tally_summary_text() {
    let mut t = ScanTally::new();
    t.record_app(3);
    t.record_app(2);
    t.ls_count = 1;
    assert_eq!(t.summary(), "Scanned 2 apps, 5 plist associations, 1 Launch Services associations");
    assert_eq!(ScanTally::new().summary(), "Scanned 0 apps, 0 plist associations, 0 Launch Services associations");
}

#[test]
fn tally_wraps_around() {
    let mut t = ScanTally { app_count: u32::MAX, ext_count: 10, ls_count: 4294967295 };
    t.record_app(usize::MAX);
    assert_eq!(t.app_count, 0);
    assert_eq!(t.ext_count, 9);
    assert!(t.summary().ends_with("4294967295 Launch Services associations"));
}

const EDITOR_PLIST: &str = r#"<?xml version="1.0" encoding="UTF-8"?>
<!DOCTYPE plist PUBLIC "-//Apple//DTD PLIST 1.0//EN" "http://www.apple.com/DTDs/PropertyList-1.0.dtd">
<plist version="1.0">
<dict>
    <key>CFBundleIdentifier</key>
    <string>com.example.editor</string>
    <key>CFBundleName</key>
    <string>Editor</string>
    <key>CFBundleVersion</key>
    <integer>3</integer>
    <key>CFBundleDocumentTypes</key>
    <array>
        <dict>
            <key>CFBundleTypeName</key>
            <string>Source code</string>
            <key>CFBundleTypeExtensions</key>
            <array>
                <string>RS</string>
                <string>*</string>
            </array>
            <key>LSItemContentTypes</key>
            <array>
                <string>public.json</string>
            </array>
        </dict>
    </array>
</dict>
</plist>
"#;

#[test]
fn process_app_bytes_reads_the_property_list() {
    let mut db = Database::new();
    let bytes = EDITOR_PLIST.as_bytes();
    assert_eq!(
        file_type_groups::scan::content_types_of(bytes),
        Ok(vec![s("public.json")])
    );
    let (id, n) =
        file_type_groups::scan::process_app_bytes(&mut db, "/Applications/Editor.app", bytes, &json_table()).unwrap();
    assert_eq!(n, 2);
    assert_eq!(db.get_apps(None)[0].name, "Editor");
    let exts: Vec<(String, String)> =
        db.get_extensions_for_app(None).into_iter().map(|e| (e.ext, e.description)).collect();
    assert_eq!(exts, vec![(s("json"), s("Source code")), (s("rs"), s("Source code"))]);
    assert_eq!(db.get_apps_for_extension("rs")[0].id, id);
}

#[test]
fn process_app_bytes_refuses_what_does_not_parse() {
    let mut db = Database::new();
    let bytes = b"this is not a property list";
    assert_eq!(
        file_type_groups::scan::process_app_bytes(&mut db, "/Applications/X.app", bytes, &[]),
        Err(ScanError::NotAPropertyList)
    );
    assert_eq!(file_type_groups::scan::content_types_of(bytes), Err(ScanError::NotAPropertyList));
    assert_eq!(db.get_summary(), (0, 0));
    let array = br#"<?xml version="1.0" encoding="UTF-8"?><plist version="1.0"><array><string>a</string></array></plist>"#;
    assert_eq!(
        file_type_groups::scan::process_app_bytes(&mut db, "/Applications/X.app", array, &[]),
        Err(ScanError::NotADictionary)
    );
}

#[test]
fn bundle_identifier_from_bytes() {
    assert_eq!(
        file_type_groups::scan::bundle_identifier_of(EDITOR_PLIST.as_bytes()),
        Some(s("com.example.editor"))
    );
    assert_eq!(file_type_groups::scan::bundle_identifier_of(b"nonsense"), None);
}

#[test]
fn app_bundles_are_recognised_by_extension() {
    assert!(is_app_bundle("/Applications/Safari.app"));
    assert!(!is_app_bundle("/Applications/notes.txt"));
    assert!(!is_app_bundle("/Applications/App"));
    assert!(!is_app_bundle("/Applications/.app"));
}
