//! Check 2: a forbidden feature must not be active anywhere in a package's
//! dependency tree.
use vstd::prelude::*;
use crate::report::NeverEnablesViolation;
use crate::config::NeverEnablesConfig;
use crate::pattern::Pattern;
use crate::tree::{NameSets, SetMap, UnreadableLine, contains_string, lemma_collect_step, law_tree_reading_is_a_union, line_lists, line_names, resolve_lines, parse_cargo_tree_output, resolve_output};

verus! {

/// The crates of a tree for which a feature is enabled.
pub open spec fn crates_with_feature(resolved: SetMap, feature: Seq<char>) -> Set<Seq<char>> {
    Set::new(|name: Seq<char>| resolved.contains_key(name) && resolved[name].contains(feature))
}

/// The crates of a tree for which a feature is enabled, each once.
pub fn enabled_in(resolved: &NameSets, feature: &String) -> (r: Vec<String>)
    ensures
        r.deep_view().to_set() == crates_with_feature(resolved@, feature@),
        r.deep_view().no_duplicates(),
{
    let entries = resolved.entries();
    let ghost keys = entries@.map_values(|e: (String, Vec<String>)| e.0@);
    let ghost lists = entries@.map_values(|e: (String, Vec<String>)| e.1.deep_view());
    let mut r: Vec<String> = Vec::new();
    let mut i: usize = 0;
    while i < entries.len()
        invariant
            i <= entries@.len(),
            keys == entries@.map_values(|e: (String, Vec<String>)| e.0@),
            lists == entries@.map_values(|e: (String, Vec<String>)| e.1.deep_view()),
            forall|a: int| 0 <= a < entries@.len() ==> resolved@.contains_key(#[trigger] entries@[a].0@)
                && resolved@[entries@[a].0@] == entries@[a].1.deep_view().to_set(),
            forall|k: Seq<char>| resolved@.contains_key(k) ==> exists|a: int| 0 <= a < entries@.len() && #[trigger] entries@[a].0@ == k,
            forall|a: int, b: int| 0 <= a < b < entries@.len() ==> entries@[a].0@ != entries@[b].0@,
            r.deep_view().no_duplicates(),
            forall|k: Seq<char>| #[trigger] r.deep_view().contains(k) <==> exists|a: int| 0 <= a < i && keys[a] == k
                && lists[a].contains(feature@),
        decreases entries@.len() - i,
    {
        let ghost before = r.deep_view();
        if contains_string(&entries[i].1, feature) {
            r.push(entries[i].0.clone());
        }
        proof {
            assert forall|a: int, b: int| 0 <= a < b < keys.len() implies keys[a] != keys[b] by {
                assert(keys[a] == entries@[a].0@ && keys[b] == entries@[b].0@);
            }
            let p = |a: int| lists[a].contains(feature@);
            assert(r.deep_view() =~= (if p(i as int) { before.push(keys[i as int]) } else { before }));
            lemma_collect_step(before, r.deep_view(), keys, i as int, p);
        }
        i += 1;
    }
    assert forall|k: Seq<char>| #[trigger] r.deep_view().to_set().contains(k) <==> crates_with_feature(resolved@, feature@).contains(k) by {
        if crates_with_feature(resolved@, feature@).contains(k) {
            let a = choose|a: int| 0 <= a < entries@.len() && #[trigger] entries@[a].0@ == k;
            assert(entries@[a].1.deep_view().to_set().contains(feature@));
            assert(keys[a] == k && lists[a].contains(feature@));
        }
        if r.deep_view().contains(k) {
            let a = choose|a: int| 0 <= a < i && keys[a] == k && lists[a].contains(feature@);
            assert(entries@[a].0@ == k);
            assert(resolved@[k] == entries@[a].1.deep_view().to_set());
        }
    }
    assert(r.deep_view().to_set() =~= crates_with_feature(resolved@, feature@));
    r
}

/// The violation of a forbidden feature in a package's tree: `Some` exactly
/// when some crate has it enabled, naming every such crate once.
pub fn check_forbidden_feature(package: &String, forbidden: &String, resolved: &NameSets) -> (r: Option<
    NeverEnablesViolation,
>)
    ensures
        r is Some <==> exists|name: Seq<char>| #[trigger] crates_with_feature(resolved@, forbidden@).contains(name),
        r matches Some(v) ==> {
            &&& v.package@ == package@
            &&& v.forbidden_feature@ == forbidden@
            &&& v.enabled_in.deep_view().to_set() == crates_with_feature(resolved@, forbidden@)
            &&& v.enabled_in.deep_view().no_duplicates()
        },
{
    let crates = enabled_in(resolved, forbidden);
    if crates.len() > 0 {
        assert(crates.deep_view().to_set().contains(crates.deep_view()[0]));
        Some(NeverEnablesViolation {
            package: package.clone(),
            forbidden_feature: forbidden.clone(),
            enabled_in: crates,
        })
    } else {
        assert forall|name: Seq<char>| !crates_with_feature(resolved@, forbidden@).contains(name) by {
            assert(!crates.deep_view().contains(name));
        }
        None
    }
}

/// Whether some crate of a tree has a feature enabled.
pub open spec fn enabled_somewhere(resolved: SetMap, feature: Seq<char>) -> bool {
    exists|name: Seq<char>| #[trigger] crates_with_feature(resolved, feature).contains(name)
}

/// The forbidden features that some crate has enabled, in list order.
pub open spec fn violated_features(forbidden: Seq<Seq<char>>, resolved: SetMap) -> Seq<Seq<char>>
    decreases forbidden.len(),
{
    if forbidden.len() == 0 {
        seq![]
    } else {
        let rest = violated_features(forbidden.drop_last(), resolved);
        if enabled_somewhere(resolved, forbidden.last()) {
            rest.push(forbidden.last())
        } else {
            rest
        }
    }
}

/// Whether a violation reports a forbidden feature of a package in a tree,
/// naming each crate that has it enabled once.
pub open spec fn reports_violation(
    v: NeverEnablesViolation,
    package: Seq<char>,
    feature: Seq<char>,
    resolved: SetMap,
) -> bool {
    &&& v.package@ == package
    &&& v.forbidden_feature@ == feature
    &&& v.enabled_in.deep_view().to_set() == crates_with_feature(resolved, feature)
    &&& v.enabled_in.deep_view().no_duplicates()
}

/// A violation as plain values: the package, the forbidden feature and the
/// crates that have it enabled.
pub type ViolationModel = (Seq<char>, Seq<char>, Set<Seq<char>>);

pub open spec fn violation_model(v: NeverEnablesViolation) -> ViolationModel {
    (v.package@, v.forbidden_feature@, v.enabled_in.deep_view().to_set())
}

pub open spec fn violation_models(vs: Seq<NeverEnablesViolation>) -> Seq<ViolationModel> {
    vs.map_values(|v: NeverEnablesViolation| violation_model(v))
}

/// The violations of one rule whose package's tree was read as `m`, in the
/// order of its forbidden features.
pub open spec fn rule_violations(package: Seq<char>, forbidden: Seq<Seq<char>>, m: SetMap) -> Seq<ViolationModel> {
    violated_features(forbidden, m).map_values(|f: Seq<char>| (package, f, crates_with_feature(m, f)))
}

/// One rule's step of the never-enables check, given the run of `cargo tree`
/// for its package: nothing when the run failed; otherwise, for each
/// forbidden feature in order, whether some crate has it enabled, and a
/// violation is appended for each that is.
pub fn record_never_enables_rule(
    violations: &mut Vec<NeverEnablesViolation>,
    rule: &NeverEnablesConfig,
    succeeded: bool,
    stdout: &str,
    re: &Pattern,
    prefix_re: &Pattern,
) -> (r: Result<Option<Vec<bool>>, UnreadableLine>)
    ensures
        !succeeded ==> (r matches Ok(None) && final(violations)@ == old(violations)@),
        succeeded ==> (r is Ok <==> resolve_output(stdout@, re@, prefix_re@) is Some),
        r is Err ==> final(violations)@ == old(violations)@,
        succeeded && r is Ok ==> ({
            let m = resolve_output(stdout@, re@, prefix_re@)->0;
            let hit = violated_features(rule.forbidden.deep_view(), m);
            &&& r matches Ok(Some(flags)) && flags@.len() == rule.forbidden@.len()
                && forall|i: int| 0 <= i < flags@.len() ==> flags@[i] == enabled_somewhere(m, #[trigger] rule.forbidden@[i]@)
            &&& final(violations)@.len() == old(violations)@.len() + hit.len()
            &&& forall|i: int| 0 <= i < old(violations)@.len() ==> final(violations)@[i] == old(violations)@[i]
            &&& forall|j: int| 0 <= j < hit.len() ==> reports_violation(
                #[trigger] final(violations)@[old(violations)@.len() + j],
                rule.package@,
                hit[j],
                m,
            )
            &&& violation_models(final(violations)@) == violation_models(old(violations)@) + rule_violations(
                rule.package@,
                rule.forbidden.deep_view(),
                m,
            )
        }),
{
    if !succeeded {
        return Ok(None);
    }
    let resolved = parse_cargo_tree_output(stdout, re, prefix_re)?;
    let ghost m = resolved@;
    let ghost start = violations@;
    let ghost forbidden = rule.forbidden.deep_view();
    let mut flags: Vec<bool> = Vec::new();
    let mut i: usize = 0;
    while i < rule.forbidden.len()
        invariant
            i <= rule.forbidden@.len(),
            m == resolved@,
            forbidden == rule.forbidden.deep_view(),
            flags@.len() == i,
            forall|a: int| 0 <= a < i ==> flags@[a] == enabled_somewhere(m, #[trigger] rule.forbidden@[a]@),
            violations@.len() == start.len() + violated_features(forbidden.take(i as int), m).len(),
            forall|a: int| 0 <= a < start.len() ==> violations@[a] == start[a],
            forall|j: int| 0 <= j < violated_features(forbidden.take(i as int), m).len() ==> reports_violation(
                #[trigger] violations@[start.len() + j],
                rule.package@,
                violated_features(forbidden.take(i as int), m)[j],
                m,
            ),
        decreases rule.forbidden@.len() - i,
    {
        let f = &rule.forbidden[i];
        assert(forbidden.take(i + 1).drop_last() == forbidden.take(i as int));
        assert(forbidden[i as int] == f@);
        let ghost before = violations@;
        let ghost prev = violated_features(forbidden.take(i as int), m);
        match check_forbidden_feature(&rule.package, f, &resolved) {
            Some(v) => {
                flags.push(true);
                violations.push(v);
                let ghost now = violated_features(forbidden.take(i + 1), m);
                assert(now == prev.push(f@));
                assert forall|j: int| 0 <= j < now.len() implies reports_violation(
                    #[trigger] violations@[start.len() + j],
                    rule.package@,
                    now[j],
                    m,
                ) by {
                    if j < prev.len() {
                        assert(violations@[start.len() + j] == before[start.len() + j]);
                    }
                }
            },
            None => {
                flags.push(false);
            },
        }
        i += 1;
    }
    assert(forbidden.take(rule.forbidden@.len() as int) == forbidden);
    proof {
        let hit = violated_features(forbidden, m);
        assert(violation_models(violations@) =~= violation_models(start) + rule_violations(rule.package@, forbidden, m)) by {
            assert forall|j: int| 0 <= j < violations@.len() implies #[trigger] violation_models(violations@)[j] == (
            violation_models(start) + rule_violations(rule.package@, forbidden, m))[j] by {
                if j >= start.len() {
                    let jj = j - start.len();
                    assert(reports_violation(violations@[start.len() + jj], rule.package@, hit[jj], m));
                }
            }
        }
    }
    Ok(Some(flags))
}

/// A rule as plain values: its package and its forbidden features.
pub type RuleModel = (Seq<char>, Seq<Seq<char>>);

/// The violations of a whole configuration, rule by rule in order;
/// `runs[k]` is the reading of the tree of rule `k`'s package, `None` when
/// its run failed (such a rule is skipped).
pub open spec fn never_enables_run(rules: Seq<RuleModel>, runs: Seq<Option<SetMap>>) -> Seq<ViolationModel>
    decreases rules.len(),
{
    if rules.len() == 0 {
        seq![]
    } else {
        let prev = never_enables_run(rules.drop_last(), runs);
        match runs[rules.len() - 1] {
            None => prev,
            Some(m) => prev + rule_violations(rules.last().0, rules.last().1, m),
        }
    }
}

/// Whether a violation is one that rule `k` gives: its package, one of its
/// forbidden features that some crate of its tree has enabled, and exactly
/// the crates that have it.
pub open spec fn rule_gives(rules: Seq<RuleModel>, runs: Seq<Option<SetMap>>, k: int, v: ViolationModel) -> bool {
    &&& 0 <= k < rules.len()
    &&& runs[k] is Some
    &&& v.0 == rules[k].0
    &&& rules[k].1.contains(v.1)
    &&& enabled_somewhere(runs[k]->0, v.1)
    &&& v.2 == crates_with_feature(runs[k]->0, v.1)
}

/// Whether some rule gives a violation.
pub open spec fn some_rule_gives(rules: Seq<RuleModel>, runs: Seq<Option<SetMap>>, v: ViolationModel) -> bool {
    exists|k: int| #[trigger] rule_gives(rules, runs, k, v)
}

/// Whether the `j`-th forbidden feature of rule `k` is enabled somewhere in
/// the tree of its package.
pub open spec fn rule_is_violated(rules: Seq<RuleModel>, runs: Seq<Option<SetMap>>, k: int, j: int) -> bool {
    &&& 0 <= k < rules.len()
    &&& runs[k] is Some
    &&& 0 <= j < rules[k].1.len()
    &&& enabled_somewhere(runs[k]->0, rules[k].1[j])
}

/// The violation that the `j`-th forbidden feature of rule `k` gives.
pub open spec fn rule_violation(rules: Seq<RuleModel>, runs: Seq<Option<SetMap>>, k: int, j: int) -> ViolationModel {
    (rules[k].0, rules[k].1[j], crates_with_feature(runs[k]->0, rules[k].1[j]))
}

proof fn lemma_violated_features(forbidden: Seq<Seq<char>>, m: SetMap)
    ensures
        forall|f: Seq<char>| #[trigger] violated_features(forbidden, m).contains(f) <==> (forbidden.contains(f)
            && enabled_somewhere(m, f)),
    decreases forbidden.len(),
{
    if forbidden.len() > 0 {
        let pf = forbidden.drop_last();
        lemma_violated_features(pf, m);
        let rest = violated_features(pf, m);
        assert forall|f: Seq<char>| #[trigger] violated_features(forbidden, m).contains(f) <==> (forbidden.contains(f)
            && enabled_somewhere(m, f)) by {
            if forbidden.contains(f) && enabled_somewhere(m, f) {
                let i = choose|i: int| 0 <= i < forbidden.len() && forbidden[i] == f;
                if i < pf.len() {
                    assert(pf[i] == f);
                    assert(rest.contains(f));
                    let j = choose|j: int| 0 <= j < rest.len() && rest[j] == f;
                    assert(violated_features(forbidden, m)[j] == f);
                } else {
                    assert(violated_features(forbidden, m) == rest.push(f));
                    assert(violated_features(forbidden, m)[rest.len() as int] == f);
                }
            }
            if violated_features(forbidden, m).contains(f) {
                let j = choose|j: int| 0 <= j < violated_features(forbidden, m).len() && violated_features(forbidden, m)[j] == f;
                if j < rest.len() {
                    assert(rest[j] == f);
                    assert(rest.contains(f));
                    let i = choose|i: int| 0 <= i < pf.len() && pf[i] == f;
                    assert(forbidden[i] == f);
                } else {
                    assert(forbidden[forbidden.len() - 1] == f);
                }
            }
        }
    }
}

/// Over a whole configuration: every violation reported is one that some
/// rule whose tree was read gives, and every forbidden feature of such a
/// rule that some crate has enabled is reported.
pub proof fn law_whole_never_enables_run(rules: Seq<RuleModel>, runs: Seq<Option<SetMap>>)
    requires
        rules.len() <= runs.len(),
    ensures
        forall|i: int| 0 <= i < never_enables_run(rules, runs).len() ==> some_rule_gives(
            rules,
            runs,
            #[trigger] never_enables_run(rules, runs)[i],
        ),
        forall|k: int, j: int| #[trigger] rule_is_violated(rules, runs, k, j) ==> never_enables_run(rules, runs).contains(
            rule_violation(rules, runs, k, j),
        ),
    decreases rules.len(),
{
    if rules.len() == 0 {
        return;
    }
    let r = never_enables_run(rules, runs);
    let pr = rules.drop_last();
    let last = rules.len() - 1;
    law_whole_never_enables_run(pr, runs);
    let prev = never_enables_run(pr, runs);
    assert(rules.last() == rules[last]);
    assert forall|k: int| 0 <= k < pr.len() implies #[trigger] pr[k] == rules[k] by {}
    match runs[last] {
        None => {
            assert(r == prev);
            assert forall|i: int| 0 <= i < r.len() implies some_rule_gives(rules, runs, #[trigger] r[i]) by {
                let k = choose|k: int| rule_gives(pr, runs, k, prev[i]);
                assert(pr[k] == rules[k]);
                assert(rule_gives(rules, runs, k, r[i]));
            }
            assert forall|k: int, j: int| #[trigger] rule_is_violated(rules, runs, k, j) implies r.contains(
                rule_violation(rules, runs, k, j),
            ) by {
                assert(pr[k] == rules[k]);
                assert(rule_is_violated(pr, runs, k, j));
                assert(rule_violation(pr, runs, k, j) == rule_violation(rules, runs, k, j));
            }
        },
        Some(m) => {
            let pkg = rules[last].0;
            let forbidden = rules[last].1;
            let mine = rule_violations(pkg, forbidden, m);
            assert(r == prev + mine);
            lemma_violated_features(forbidden, m);
            let hit = violated_features(forbidden, m);
            assert forall|i: int| 0 <= i < r.len() implies some_rule_gives(rules, runs, #[trigger] r[i]) by {
                if i < prev.len() {
                    let k = choose|k: int| rule_gives(pr, runs, k, prev[i]);
                    assert(pr[k] == rules[k]);
                    assert(rule_gives(rules, runs, k, r[i]));
                } else {
                    let jj = i - prev.len();
                    assert(r[i] == mine[jj]);
                    assert(hit.contains(hit[jj]));
                    assert(rule_gives(rules, runs, last, r[i]));
                }
            }
            assert forall|k: int, j: int| #[trigger] rule_is_violated(rules, runs, k, j) implies r.contains(
                rule_violation(rules, runs, k, j),
            ) by {
                let v = rule_violation(rules, runs, k, j);
                if k < last {
                    assert(pr[k] == rules[k]);
                    assert(rule_is_violated(pr, runs, k, j));
                    assert(rule_violation(pr, runs, k, j) == v);
                    let a = choose|a: int| 0 <= a < prev.len() && prev[a] == v;
                    assert(r[a] == v);
                } else {
                    let f = forbidden[j];
                    assert(forbidden.contains(f));
                    assert(hit.contains(f));
                    let jj = choose|jj: int| 0 <= jj < hit.len() && hit[jj] == f;
                    assert(mine[jj] == v);
                    assert(r[prev.len() + jj] == v);
                }
            }
        },
    }
}

/// The crates a violation names are exactly those that some line of the
/// package's tree names with the forbidden feature in its list.
pub proof fn law_violation_names_the_crates_listing_the_feature(
    lines: Seq<Seq<char>>,
    re: Seq<char>,
    prefix_re: Seq<char>,
    name: Seq<char>,
    feature: Seq<char>,
)
    requires
        resolve_lines(lines, re, prefix_re) is Some,
    ensures
        crates_with_feature(resolve_lines(lines, re, prefix_re)->0, feature).contains(name) <==> exists|i: int|
            0 <= i < lines.len() && #[trigger] line_names(lines, re, prefix_re, i, name) && line_lists(
                lines,
                re,
                prefix_re,
                i,
                feature,
            ),
{
    law_tree_reading_is_a_union(lines, re, prefix_re, name, feature);
    let m = resolve_lines(lines, re, prefix_re)->0;
    if exists|i: int| 0 <= i < lines.len() && #[trigger] line_names(lines, re, prefix_re, i, name) && line_lists(lines, re, prefix_re, i, feature) {
        let i = choose|i: int| 0 <= i < lines.len() && #[trigger] line_names(lines, re, prefix_re, i, name) && line_lists(lines, re, prefix_re, i, feature);
        assert(m.contains_key(name));
    }
}

/// The violated features of a list are those of its parts, in order: a
/// feature is violated when some crate has it enabled.
pub proof fn law_violated_features_keep_list_order(a: Seq<Seq<char>>, b: Seq<Seq<char>>, f: Seq<char>, m: SetMap)
    ensures
        violated_features(a + b, m) == violated_features(a, m) + violated_features(b, m),
        violated_features(seq![f], m) == (if exists|name: Seq<char>| #[trigger] crates_with_feature(m, f).contains(name) {
            seq![f]
        } else {
            Seq::<Seq<char>>::empty()
        }),
    decreases b.len(),
{
    let one = seq![f];
    assert(one.drop_last() =~= Seq::<Seq<char>>::empty());
    assert(violated_features(one.drop_last(), m) =~= Seq::<Seq<char>>::empty());
    assert(one.last() == f);
    assert(Seq::<Seq<char>>::empty().push(f) =~= seq![f]);
    if b.len() == 0 {
        assert(a + b =~= a);
        assert(violated_features(a, m) + seq![] =~= violated_features(a, m));
    } else {
        law_violated_features_keep_list_order(a, b.drop_last(), f, m);
        assert((a + b).drop_last() =~= a + b.drop_last());
        assert((a + b).last() == b.last());
        assert(violated_features(a, m) + violated_features(b.drop_last(), m).push(b.last()) =~= (violated_features(a, m)
            + violated_features(b.drop_last(), m)).push(b.last()));
    }
}

} // verus!
