use std::collections::HashSet;

use cargo_feature_guard::config::{EntryPointConfig, NeverEnablesConfig};
use cargo_feature_guard::duplicates::{duplicates_from_tree_run, find_duplicate_deps};
use cargo_feature_guard::never_enables::{check_forbidden_feature, enabled_in, record_never_enables_rule};
use cargo_feature_guard::pattern::Pattern;
use cargo_feature_guard::propagation::{
    add_unseen_gaps, feature_gap_key, feature_gaps_for_entry_point, record_entry_point_gaps,
};
use cargo_feature_guard::report::{CheckResult, DuplicateDep, FeatureGap, NeverEnablesViolation};
use cargo_feature_guard::tree::NameSets;
use cargo_feature_guard::workspace::{CrateInfo, Workspace};

fn s(x: &str) -> String {
    x.to_string()
}

#[test]
fn test_check_result_has_errors() {
    let empty = CheckResult {
        feature_gaps: vec![],
        never_enables_violations: vec![],
        duplicate_deps: vec![],
    };
    assert!(!empty.has_errors());

    let with_gap = CheckResult {
        feature_gaps: vec![FeatureGap {
            entry_point: "pkg".to_string(),
            entry_features: vec!["f".to_string()],
            crate_name: "dep".to_string(),
            feature: "f".to_string(),
            feature_content: vec![],
        }],
        never_enables_violations: vec![],
        duplicate_deps: vec![],
    };
    assert!(with_gap.has_errors());

    // Duplicate deps alone don't count as errors (informational)
    let with_dups = CheckResult {
        feature_gaps: vec![],
        never_enables_violations: vec![],
        duplicate_deps: vec![DuplicateDep {
            name: "serde".to_string(),
            versions: vec!["1.0".to_string(), "2.0".to_string()],
        }],
    };
    assert!(!with_dups.has_errors());
}

#[test]
fn exit_status_follows_errors() {
    let ok = CheckResult { feature_gaps: vec![], never_enables_violations: vec![], duplicate_deps: vec![] };
    assert_eq!(ok.exit_status(), 0);
    let bad = CheckResult {
        feature_gaps: vec![],
        never_enables_violations: vec![NeverEnablesViolation {
            package: s("p"),
            forbidden_feature: s("mock"),
            enabled_in: vec![s("c")],
        }],
        duplicate_deps: vec![],
    };
    assert!(bad.has_errors());
    assert_eq!(bad.exit_status(), 1);
}

fn workspace() -> Workspace {
    let mut ws = Workspace::new();
    ws.insert(
        s("engine"),
        CrateInfo { features: vec![(s("mock"), vec![s("fsv_api/mock")]), (s("nfc"), vec![])] },
    );
    ws.insert(s("fsv_api"), CrateInfo { features: vec![(s("mock"), vec![])] });
    ws.insert(s("unused"), CrateInfo { features: vec![(s("mock"), vec![])] });
    ws
}

fn resolved(entries: &[(&str, &[&str])]) -> NameSets {
    let mut r = NameSets::new();
    for (name, feats) in entries {
        r.add_features(s(name), &feats.iter().map(|f| s(f)).collect());
    }
    r
}

#[test]
fn gap_reported_when_feature_not_forwarded() {
    let ep = EntryPointConfig { package: s("engine"), features: vec![s("mock"), s("nfc")] };
    let res = resolved(&[("engine", &["mock", "nfc"]), ("fsv_api", &[])]);
    let gaps = feature_gaps_for_entry_point(&ep, &workspace(), &res);
    assert_eq!(gaps.len(), 1);
    assert_eq!(gaps[0].crate_name, "fsv_api");
    assert_eq!(gaps[0].feature, "mock");
    assert_eq!(gaps[0].entry_point, "engine");
    assert_eq!(gaps[0].entry_features, vec![s("mock"), s("nfc")]);
    assert!(gaps[0].feature_content.is_empty());
}

#[test]
fn no_gap_for_crates_outside_the_tree_or_unrequested_features() {
    let ep = EntryPointConfig { package: s("engine"), features: vec![s("nfc")] };
    // `unused` is not in the tree; `mock` is not requested.
    let res = resolved(&[("engine", &[]), ("fsv_api", &[])]);
    let gaps = feature_gaps_for_entry_point(&ep, &workspace(), &res);
    assert_eq!(gaps.len(), 1);
    assert_eq!(gaps[0].crate_name, "engine");
    assert_eq!(gaps[0].feature, "nfc");
    assert!(gaps[0].feature_content.is_empty());

    let ep = EntryPointConfig { package: s("engine"), features: vec![s("mock")] };
    let res = resolved(&[("engine", &[])]);
    let gaps = feature_gaps_for_entry_point(&ep, &workspace(), &res);
    assert_eq!(gaps.len(), 1);
    assert_eq!(gaps[0].feature_content, vec![s("fsv_api/mock")]);
}

#[test]
fn gaps_are_reported_once_per_key() {
    let ep = EntryPointConfig { package: s("engine"), features: vec![s("mock")] };
    let res = resolved(&[("engine", &[]), ("fsv_api", &[])]);
    let first = feature_gaps_for_entry_point(&ep, &workspace(), &res);
    assert_eq!(first.len(), 2);
    assert_eq!(feature_gap_key(&first[0]), "engine::mock::engine");
    let mut all = Vec::new();
    add_unseen_gaps(&mut all, first);
    assert_eq!(all.len(), 2);
    let again = feature_gaps_for_entry_point(&ep, &workspace(), &res);
    add_unseen_gaps(&mut all, again);
    assert_eq!(all.len(), 2);
    let other = EntryPointConfig { package: s("other"), features: vec![s("mock")] };
    let third = feature_gaps_for_entry_point(&other, &workspace(), &res);
    add_unseen_gaps(&mut all, third);
    assert_eq!(all.len(), 4);
}

#[test]
fn forbidden_feature_reports_every_crate_once() {
    let res = resolved(&[("a", &["mock", "x"]), ("b", &["x"]), ("c", &["mock"])]);
    let v = check_forbidden_feature(&s("pkg"), &s("mock"), &res).unwrap();
    assert_eq!(v.package, "pkg");
    assert_eq!(v.forbidden_feature, "mock");
    let got: HashSet<String> = v.enabled_in.iter().cloned().collect();
    assert_eq!(got, HashSet::from([s("a"), s("c")]));
    assert_eq!(v.enabled_in.len(), 2);
    assert!(check_forbidden_feature(&s("pkg"), &s("test-only"), &res).is_none());
    assert!(enabled_in(&res, &s("nope")).is_empty());
}

const DUP_RE: &str = r"^(\S+) v([\d.]+\S*)";

#[test]
fn duplicate_dependencies_are_sorted() {
    let re = Pattern::new(DUP_RE).unwrap();
    let out = "\
syn v2.0.1
syn v1.0.109
quote v1.0.0 (*)
anyhow v1.0.1
anyhow v1.0.0-rc.1
syn v2.0.1
";
    let dups = find_duplicate_deps(out, &re).unwrap();
    assert_eq!(dups.len(), 2);
    assert_eq!(dups[0].name, "anyhow");
    assert_eq!(dups[0].versions, vec![s("1.0.0-rc.1"), s("1.0.1")]);
    assert_eq!(dups[1].name, "syn");
    assert_eq!(dups[1].versions, vec![s("1.0.109"), s("2.0.1")]);
}

#[test]
fn duplicate_dependencies_of_a_failed_run() {
    let re = Pattern::new(DUP_RE).unwrap();
    assert!(duplicates_from_tree_run(false, "", &re).unwrap().is_none());
    assert!(duplicates_from_tree_run(true, "", &re).unwrap().unwrap().is_empty());
    let dups = duplicates_from_tree_run(false, "a v1\na v2\n", &re).unwrap().unwrap();
    assert_eq!(dups.len(), 1);
    assert!(find_duplicate_deps("", &re).unwrap().is_empty());
}

#[test]
fn entry_point_step_skips_an_empty_tree() {
    let ep = EntryPointConfig { package: s("engine"), features: vec![s("mock")] };
    let mut all = Vec::new();
    assert_eq!(record_entry_point_gaps(&mut all, &ep, &workspace(), &NameSets::new()), None);
    assert!(all.is_empty());
    let res = resolved(&[("engine", &[]), ("fsv_api", &[])]);
    assert_eq!(record_entry_point_gaps(&mut all, &ep, &workspace(), &res), Some(2));
    assert_eq!(record_entry_point_gaps(&mut all, &ep, &workspace(), &res), Some(2));
    assert_eq!(all.len(), 2);
    let res = resolved(&[("engine", &["mock"]), ("fsv_api", &["mock"])]);
    assert_eq!(record_entry_point_gaps(&mut all, &ep, &workspace(), &res), Some(0));
}

#[test]
fn never_enables_rule_step() {
    let re = Pattern::new(r"(\S+) v[\d.]+ \([^)]+\) \[([^\]]*)\]").unwrap();
    let prefix_re = Pattern::new(r"^[│├└─\s]+").unwrap();
    let rule = NeverEnablesConfig { package: s("app"), forbidden: vec![s("mock"), s("nfc"), s("x")] };
    let out = "app v0.1.0 (/a) [nfc]\n└── lib v0.1.0 (/l) [mock,nfc]\n";
    let mut all = Vec::new();
    assert_eq!(record_never_enables_rule(&mut all, &rule, false, out, &re, &prefix_re).unwrap(), None);
    assert!(all.is_empty());
    let flags = record_never_enables_rule(&mut all, &rule, true, out, &re, &prefix_re).unwrap().unwrap();
    assert_eq!(flags, vec![true, true, false]);
    assert_eq!(all.len(), 2);
    assert_eq!(all[0].forbidden_feature, "mock");
    assert_eq!(all[0].enabled_in, vec![s("lib")]);
    assert_eq!(all[1].forbidden_feature, "nfc");
    let got: HashSet<String> = all[1].enabled_in.iter().cloned().collect();
    assert_eq!(got, HashSet::from([s("app"), s("lib")]));
}

#[test]
fn later_entry_points_keep_earlier_gaps_first() {
    let first = EntryPointConfig { package: s("engine"), features: vec![s("mock")] };
    let second = EntryPointConfig { package: s("other"), features: vec![s("mock")] };
    let res = resolved(&[("engine", &[]), ("fsv_api", &[])]);
    let mut only_first = Vec::new();
    record_entry_point_gaps(&mut only_first, &first, &workspace(), &res);
    let mut both = Vec::new();
    record_entry_point_gaps(&mut both, &first, &workspace(), &res);
    record_entry_point_gaps(&mut both, &second, &workspace(), &res);
    assert_eq!(both.len(), 4);
    for (a, b) in only_first.iter().zip(both.iter()) {
        assert_eq!(feature_gap_key(a), feature_gap_key(b));
        assert_eq!(a.feature_content, b.feature_content);
    }
    let keys: HashSet<String> = both.iter().map(feature_gap_key).collect();
    assert_eq!(keys.len(), both.len());
}

#[test]
fn never_enables_over_a_configuration() {
    let re = Pattern::new(r"(\S+) v[\d.]+ \([^)]+\) \[([^\]]*)\]").unwrap();
    let prefix_re = Pattern::new(r"^[│├└─\s]+").unwrap();
    let rules = vec![
        NeverEnablesConfig { package: s("app"), forbidden: vec![s("mock")] },
        NeverEnablesConfig { package: s("broken"), forbidden: vec![s("mock")] },
        NeverEnablesConfig { package: s("cli"), forbidden: vec![s("nfc"), s("mock")] },
    ];
    let runs = [
        (true, "app v0.1.0 (/a) []\n└── lib v0.1.0 (/l) [mock]\n"),
        (false, ""),
        (true, "cli v0.1.0 (/c) [nfc]\n└── lib v0.1.0 (/l) [mock]\n"),
    ];
    let mut all = Vec::new();
    for (rule, (ok, out)) in rules.iter().zip(runs.iter()) {
        record_never_enables_rule(&mut all, rule, *ok, out, &re, &prefix_re).unwrap();
    }
    let got: Vec<(String, String, Vec<String>)> =
        all.iter().map(|v| (v.package.clone(), v.forbidden_feature.clone(), v.enabled_in.clone())).collect();
    assert_eq!(
        got,
        vec![
            (s("app"), s("mock"), vec![s("lib")]),
            (s("cli"), s("nfc"), vec![s("cli")]),
            (s("cli"), s("mock"), vec![s("lib")]),
        ]
    );
}

fn run_entry_points(eps: &[(EntryPointConfig, NameSets)]) -> Vec<FeatureGap> {
    let mut all = Vec::new();
    for (ep, res) in eps {
        record_entry_point_gaps(&mut all, ep, &workspace(), res);
    }
    all
}

fn gap_tuple(g: &FeatureGap) -> (String, Vec<String>, String, String, Vec<String>) {
    (g.entry_point.clone(), g.entry_features.clone(), g.crate_name.clone(), g.feature.clone(), g.feature_content.clone())
}

#[test]
fn a_gap_carries_the_features_of_the_first_entry_point_giving_it() {
    let first = EntryPointConfig { package: s("engine"), features: vec![s("mock")] };
    let second = EntryPointConfig { package: s("engine"), features: vec![s("mock"), s("nfc")] };
    let res = || resolved(&[("engine", &["nfc"]), ("fsv_api", &[])]);
    let all = run_entry_points(&[(first, res()), (second, res())]);
    let got: Vec<_> = all.iter().map(gap_tuple).collect();
    assert_eq!(
        got,
        vec![
            (s("engine"), vec![s("mock")], s("engine"), s("mock"), vec![s("fsv_api/mock")]),
            (s("engine"), vec![s("mock")], s("fsv_api"), s("mock"), vec![]),
        ]
    );
}

#[test]
fn listing_every_entry_point_twice_changes_nothing() {
    let e0 = || EntryPointConfig { package: s("engine"), features: vec![s("mock")] };
    let e1 = || EntryPointConfig { package: s("other"), features: vec![s("mock"), s("nfc")] };
    let r0 = || resolved(&[("engine", &[]), ("fsv_api", &[])]);
    let r1 = || resolved(&[("engine", &["mock"]), ("fsv_api", &[])]);
    let once = run_entry_points(&[(e0(), r0()), (e1(), r1())]);
    let twice = run_entry_points(&[(e0(), r0()), (e0(), r0()), (e1(), r1()), (e1(), r1())]);
    assert_eq!(once.iter().map(gap_tuple).collect::<Vec<_>>(), twice.iter().map(gap_tuple).collect::<Vec<_>>());
    assert_eq!(once.len(), 4);
}
