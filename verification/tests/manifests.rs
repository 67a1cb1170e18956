use cargo_feature_guard::toml_doc::{parse_toml, TomlValue};
use cargo_feature_guard::workspace::{
    crate_from_manifest, member_glob_base, workspace_members, CrateInfo, MemberListError, Workspace,
    WorkspaceManifestError,
};

#[test]
fn members_of_a_workspace() {
    let m = workspace_members("[workspace]\nmembers = [\"a\", \"crates/*\"]\n").unwrap();
    assert_eq!(m, vec!["a".to_string(), "crates/*".to_string()]);
}

#[test]
fn members_errors() {
    assert!(matches!(
        workspace_members("[package]\nname = \"x\"\n"),
        Err(WorkspaceManifestError::Members(MemberListError::MissingWorkspace))
    ));
    assert!(matches!(
        workspace_members("[workspace]\nresolver = \"2\"\n"),
        Err(WorkspaceManifestError::Members(MemberListError::MissingMembers))
    ));
    assert!(matches!(
        workspace_members("[workspace]\nmembers = \"a\"\n"),
        Err(WorkspaceManifestError::Members(MemberListError::MembersNotArray))
    ));
    assert!(matches!(
        workspace_members("[workspace]\nmembers = [\"a\", 3]\n"),
        Err(WorkspaceManifestError::Members(MemberListError::MemberNotString))
    ));
    assert!(matches!(workspace_members("[workspace"), Err(WorkspaceManifestError::Syntax(_))));
}

#[test]
fn crate_manifest_features() {
    let text = "[package]\nname = \"engine\"\n\n[features]\ndefault = [\"nfc\"]\nmock = [\"dep:x\", 7]\nnfc = []\nodd = \"x\"\n";
    let (name, info) = crate_from_manifest(text).unwrap().unwrap();
    assert_eq!(name, "engine");
    let mut feats = info.features.clone();
    feats.sort();
    assert_eq!(
        feats,
        vec![
            ("default".to_string(), vec!["nfc".to_string()]),
            ("mock".to_string(), vec!["dep:x".to_string()]),
            ("nfc".to_string(), vec![]),
            ("odd".to_string(), vec![]),
        ]
    );
}

#[test]
fn crate_manifest_without_name_or_features() {
    assert!(crate_from_manifest("[workspace]\nmembers = []\n").unwrap().is_none());
    assert!(crate_from_manifest("[package]\nname = 3\n").unwrap().is_none());
    let (name, info) = crate_from_manifest("[package]\nname = \"x\"\nfeatures = 1\n").unwrap().unwrap();
    assert_eq!(name, "x");
    assert!(info.features.is_empty());
    assert!(crate_from_manifest("not toml ===").is_err());
}

#[test]
fn glob_members() {
    assert_eq!(member_glob_base("crates/*"), Some("crates".to_string()));
    assert_eq!(member_glob_base("crates/**//"), Some("crates/**".to_string()));
    assert_eq!(member_glob_base("*"), Some("".to_string()));
    assert_eq!(member_glob_base("engine"), None);
}

#[test]
fn workspace_insert_replaces_same_name() {
    let mut ws = Workspace::new();
    ws.insert("a".to_string(), CrateInfo { features: vec![] });
    ws.insert("b".to_string(), CrateInfo { features: vec![] });
    ws.insert("a".to_string(), CrateInfo { features: vec![("f".to_string(), vec![])] });
    assert_eq!(ws.len(), 2);
    assert_eq!(ws.crates()[0].0, "a");
    assert_eq!(ws.crates()[0].1.features.len(), 1);
}

#[test]
fn toml_lookup() {
    let doc = parse_toml("a = \"x\"\n[t]\nb = [1, \"y\"]\n").unwrap();
    assert_eq!(doc.get(&"a".to_string()).unwrap().as_str().unwrap(), "x");
    let t = doc.get(&"t".to_string()).unwrap();
    let b = t.get(&"b".to_string()).unwrap();
    assert_eq!(b.string_items().unwrap(), vec!["y".to_string()]);
    assert!(matches!(b, TomlValue::Array(_)));
    assert!(doc.get(&"missing".to_string()).is_none());
    assert!(parse_toml("= oops").is_err());
}

#[test]
fn workspace_records_member_manifests() {
    let mut ws = Workspace::new();
    ws.record_manifest(None).unwrap();
    ws.record_manifest(Some("[workspace]\nmembers = []\n")).unwrap();
    assert_eq!(ws.len(), 0);
    ws.record_manifest(Some("[package]\nname = \"a\"\n[features]\nf = []\n")).unwrap();
    ws.record_manifest(Some("[package]\nname = \"b\"\n")).unwrap();
    ws.record_manifest(Some("[package]\nname = \"a\"\n")).unwrap();
    assert_eq!(ws.len(), 2);
    assert!(ws.crates()[0].1.features.is_empty());
    assert!(ws.record_manifest(Some("[package")).is_err());
    assert_eq!(ws.len(), 2);
}
