use std::collections::HashSet;

use cargo_feature_guard::pattern::Pattern;
use cargo_feature_guard::duplicates::duplicate_line_pattern;
use cargo_feature_guard::text::char_is_whitespace;
use cargo_feature_guard::tree::{
    features_from_tree_run, parse_cargo_tree_output, parse_feature_list, tree_line_pattern, tree_prefix_pattern, NameSets,
};

const TREE_RE: &str = r"(\S+) v[\d.]+ \([^)]+\) \[([^\]]*)\]";
const PREFIX_RE: &str = r"^[│├└─\s]+";

fn as_set(v: &Vec<String>) -> HashSet<String> {
    v.iter().cloned().collect()
}

#[test]
fn test_parse_cargo_tree_output_basic() {
    let re = Pattern::new(r"(\S+) v[\d.]+ \([^)]+\) \[([^\]]*)\]").unwrap();
    let prefix_re = Pattern::new(r"^[│├└─\s]+").unwrap();

    let input = "\
engine v0.1.0 (/path/to/engine) [mock,nfc]
├── fsv_api v0.1.0 (/path/to/fsv_api) [mock]
│   └── smart_card_utils v0.1.0 (/path/to/scu) [mock,record_apdu]
└── storage v0.1.0 (/path/to/storage) []";

    let result = parse_cargo_tree_output(input, &re, &prefix_re).unwrap();

    assert_eq!(
        as_set(result.get("engine").unwrap()),
        HashSet::from(["mock".to_string(), "nfc".to_string()])
    );
    assert_eq!(
        as_set(result.get("fsv_api").unwrap()),
        HashSet::from(["mock".to_string()])
    );
    assert_eq!(
        as_set(result.get("smart_card_utils").unwrap()),
        HashSet::from(["mock".to_string(), "record_apdu".to_string()])
    );
    assert!(result.get("storage").unwrap().is_empty());
}

#[test]
fn test_parse_cargo_tree_output_empty() {
    let re = Pattern::new(r"(\S+) v[\d.]+ \([^)]+\) \[([^\]]*)\]").unwrap();
    let prefix_re = Pattern::new(r"^[│├└─\s]+").unwrap();

    let result = parse_cargo_tree_output("", &re, &prefix_re).unwrap();
    assert!(result.is_empty());
}

#[test]
fn test_parse_cargo_tree_output_merges_features() {
    let re = Pattern::new(r"(\S+) v[\d.]+ \([^)]+\) \[([^\]]*)\]").unwrap();
    let prefix_re = Pattern::new(r"^[│├└─\s]+").unwrap();

    let input = "\
root v0.1.0 (/path) [a]
├── dep v0.1.0 (/path/dep) [feat1]
└── dep v0.1.0 (/path/dep) [feat2]";

    let result = parse_cargo_tree_output(input, &re, &prefix_re).unwrap();
    let dep_feats = as_set(result.get("dep").unwrap());
    assert!(dep_feats.contains("feat1"));
    assert!(dep_feats.contains("feat2"));
}

#[test]
fn tree_lines_that_do_not_match_are_ignored() {
    let re = Pattern::new(TREE_RE).unwrap();
    let prefix_re = Pattern::new(PREFIX_RE).unwrap();
    let input = "warning: something\n\nroot v1.2.3 (/p) [x]\n(*)\n";
    let result = parse_cargo_tree_output(input, &re, &prefix_re).unwrap();
    assert_eq!(result.len(), 1);
    assert_eq!(as_set(result.get("root").unwrap()), HashSet::from(["x".to_string()]));
    assert!(result.get("warning:").is_none());
}

#[test]
fn tree_crlf_line_endings_and_duplicate_features() {
    let re = Pattern::new(TREE_RE).unwrap();
    let prefix_re = Pattern::new(PREFIX_RE).unwrap();
    let input = "a v0.1.0 (/a) [f, g ,f]\r\n└── b v0.2.0 (/b) [ , h]\r\n";
    let result = parse_cargo_tree_output(input, &re, &prefix_re).unwrap();
    let a = result.get("a").unwrap();
    assert_eq!(a.len(), 2);
    assert_eq!(as_set(a), HashSet::from(["f".to_string(), "g".to_string()]));
    assert_eq!(result.get("b").unwrap(), &vec!["h".to_string()]);
}

#[test]
fn tree_prefix_is_removed_before_matching() {
    // Without the prefix removal the tree drawing would become part of the
    // crate name.
    let re = Pattern::new(TREE_RE).unwrap();
    let prefix_re = Pattern::new(PREFIX_RE).unwrap();
    let input = "│   │   └── deep v0.1.0 (/d) [z]";
    let result = parse_cargo_tree_output(input, &re, &prefix_re).unwrap();
    assert!(result.get("deep").is_some());
}

#[test]
fn tree_match_without_groups_is_unreadable() {
    let re = Pattern::new(r"(\S+) v(x)?").unwrap();
    let prefix_re = Pattern::new(PREFIX_RE).unwrap();
    assert!(parse_cargo_tree_output("pkg v1", &re, &prefix_re).is_err());
    let re_one_group = Pattern::new(r"(\S+) v").unwrap();
    assert!(parse_cargo_tree_output("pkg v1", &re_one_group, &prefix_re).is_err());
}

#[test]
fn tree_failed_run_gives_no_features() {
    let re = Pattern::new(TREE_RE).unwrap();
    let prefix_re = Pattern::new(PREFIX_RE).unwrap();
    let result = features_from_tree_run(false, "root v1.0.0 (/p) [x]", &re, &prefix_re).unwrap();
    assert!(result.is_empty());
    let result = features_from_tree_run(true, "root v1.0.0 (/p) [x]", &re, &prefix_re).unwrap();
    assert!(!result.is_empty());
}

#[test]
fn feature_list_is_split_and_trimmed() {
    assert_eq!(
        parse_feature_list(" mock ,\tnfc,, \u{3000}std\u{a0}"),
        vec!["mock".to_string(), "nfc".to_string(), "std".to_string()]
    );
    assert_eq!(parse_feature_list(""), Vec::<String>::new());
    assert_eq!(parse_feature_list("  "), Vec::<String>::new());
}

#[test]
fn name_sets_merge_features() {
    let mut sets = NameSets::new();
    sets.add_features("c".to_string(), &vec!["a".to_string(), "b".to_string()]);
    sets.add_features("c".to_string(), &vec!["b".to_string(), "d".to_string()]);
    assert_eq!(
        as_set(sets.get("c").unwrap()),
        HashSet::from(["a".to_string(), "b".to_string(), "d".to_string()])
    );
    assert!(sets.has_feature(&"c".to_string(), &"d".to_string()));
    assert!(!sets.has_feature(&"c".to_string(), &"e".to_string()));
    assert!(!sets.has_feature(&"x".to_string(), &"a".to_string()));
    assert_eq!(sets.len(), 1);
}

#[test]
fn pattern_rejects_invalid_regex() {
    assert!(Pattern::new("(unclosed").is_err());
    assert_eq!(Pattern::new(TREE_RE).unwrap().as_str(), TREE_RE);
}

fn listed_white_space(c: char) -> bool {
    ('\u{9}'..='\u{d}').contains(&c)
        || c == '\u{20}'
        || c == '\u{85}'
        || c == '\u{a0}'
        || c == '\u{1680}'
        || ('\u{2000}'..='\u{200a}').contains(&c)
        || c == '\u{2028}'
        || c == '\u{2029}'
        || c == '\u{202f}'
        || c == '\u{205f}'
        || c == '\u{3000}'
}

#[test]
fn white_space_list_matches_char_is_whitespace() {
    for c in (0u32..=0x10ffff).filter_map(char::from_u32) {
        assert_eq!(c.is_whitespace(), listed_white_space(c), "{:?}", c);
        assert_eq!(char_is_whitespace(c), c.is_whitespace(), "{:?}", c);
    }
}

#[test]
fn feature_items_are_trimmed_of_exactly_white_space() {
    for c in (0u32..0x3100).filter_map(char::from_u32) {
        if c == ',' {
            continue;
        }
        let item = format!("{c}x{c}");
        let expected = if listed_white_space(c) { "x".to_string() } else { item.clone() };
        assert_eq!(parse_feature_list(&item), vec![expected]);
    }
}

fn reading(text: &str) -> Vec<(String, HashSet<String>)> {
    let re = Pattern::new(TREE_RE).unwrap();
    let prefix_re = Pattern::new(PREFIX_RE).unwrap();
    let sets = parse_cargo_tree_output(text, &re, &prefix_re).unwrap();
    let mut out: Vec<(String, HashSet<String>)> =
        sets.entries().iter().map(|(n, v)| (n.clone(), as_set(v))).collect();
    out.sort_by(|x, y| x.0.cmp(&y.0));
    out
}

#[test]
fn two_outputs_joined_read_as_the_merge_of_their_readings() {
    let a = "root v0.1.0 (/r) [x]\n├── dep v0.1.0 (/d) [a, b]";
    let b = "└── dep v0.1.0 (/d) [b,c]\nother v1.0.0 (/o) []";
    let whole = reading(&format!("{a}\n{b}"));
    let first = reading(a);
    let second = reading(b);
    let mut merged: Vec<(String, HashSet<String>)> = Vec::new();
    for (name, set) in first.iter().chain(second.iter()) {
        match merged.iter_mut().find(|(n, _)| n == name) {
            Some((_, s)) => s.extend(set.iter().cloned()),
            None => merged.push((name.clone(), set.clone())),
        }
    }
    merged.sort_by(|x, y| x.0.cmp(&y.0));
    assert_eq!(whole, merged);
    assert_eq!(whole.len(), 3);
    assert_eq!(whole[0].1, HashSet::from(["a".to_string(), "b".to_string(), "c".to_string()]));
    // the order of the lines does not matter
    assert_eq!(reading(&format!("{b}\n{a}")), whole);
    // a first output that already ends its last line adds an empty line
    assert_eq!(reading(&format!("{a}\n\n{b}")), whole);
    assert_eq!(reading(&format!("\n{b}")), second);
}

#[test]
fn the_library_owns_its_patterns() {
    assert_eq!(tree_line_pattern().unwrap().as_str(), TREE_RE);
    assert_eq!(tree_prefix_pattern().unwrap().as_str(), PREFIX_RE);
    assert_eq!(duplicate_line_pattern().unwrap().as_str(), r"^(\S+) v([\d.]+\S*)");
    let re = tree_line_pattern().unwrap();
    let prefix_re = tree_prefix_pattern().unwrap();
    let r = parse_cargo_tree_output("└── dep v0.1.0 (/d) [a]", &re, &prefix_re).unwrap();
    assert_eq!(as_set(r.get("dep").unwrap()), HashSet::from(["a".to_string()]));
}
