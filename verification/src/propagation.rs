//! Check 1: every crate that defines a feature an entry point is built with
//! must receive that feature.
use vstd::prelude::*;
use crate::config::EntryPointConfig;
use crate::report::FeatureGap;
use crate::tree::{NameSets, SetMap, contains_string};
use crate::workspace::{CrateInfo, CrateModel, FeatureDef, Workspace, crate_model, feature_def};

verus! {

broadcast use vstd::string::group_string_axioms;

/// A feature gap as plain values.
pub struct GapModel {
    pub entry_point: Seq<char>,
    pub entry_features: Seq<Seq<char>>,
    pub crate_name: Seq<char>,
    pub feature: Seq<char>,
    pub feature_content: Seq<Seq<char>>,
}

impl FeatureGap {
    pub open spec fn model(self) -> GapModel {
        GapModel {
            entry_point: self.entry_point@,
            entry_features: self.entry_features.deep_view(),
            crate_name: self.crate_name@,
            feature: self.feature@,
            feature_content: self.feature_content.deep_view(),
        }
    }
}

pub open spec fn gap_models(gaps: Seq<FeatureGap>) -> Seq<GapModel> {
    gaps.map_values(|g: FeatureGap| g.model())
}

/// The gaps of one crate: each feature it defines that the entry point asks
/// for and that is not among the features enabled for it, in definition
/// order.
pub open spec fn crate_gaps(
    package: Seq<char>,
    requested: Seq<Seq<char>>,
    name: Seq<char>,
    defs: Seq<FeatureDef>,
    active: Set<Seq<char>>,
) -> Seq<GapModel>
    decreases defs.len(),
{
    if defs.len() == 0 {
        seq![]
    } else {
        let rest = crate_gaps(package, requested, name, defs.drop_last(), active);
        let d = defs.last();
        if !active.contains(d.0) && requested.contains(d.0) {
            rest.push(
                GapModel {
                    entry_point: package,
                    entry_features: requested,
                    crate_name: name,
                    feature: d.0,
                    feature_content: d.1,
                },
            )
        } else {
            rest
        }
    }
}

/// The gaps of an entry point: for each crate of the workspace that occurs
/// in the resolved tree, its gaps, crate by crate.  Crates the tree does
/// not hold are not examined.
pub open spec fn entry_point_gaps(
    package: Seq<char>,
    requested: Seq<Seq<char>>,
    crates: Seq<CrateModel>,
    resolved: SetMap,
) -> Seq<GapModel>
    decreases crates.len(),
{
    if crates.len() == 0 {
        seq![]
    } else {
        let prev = entry_point_gaps(package, requested, crates.drop_last(), resolved);
        let c = crates.last();
        if resolved.contains_key(c.0) {
            prev + crate_gaps(package, requested, c.0, c.1, resolved[c.0])
        } else {
            prev
        }
    }
}

/// A copy of a list of strings.
pub fn clone_strings(v: &Vec<String>) -> (r: Vec<String>)
    ensures
        r.deep_view() == v.deep_view(),
{
    let mut r: Vec<String> = Vec::new();
    let mut i: usize = 0;
    while i < v.len()
        invariant
            i <= v@.len(),
            r.deep_view() == v.deep_view().take(i as int),
        decreases v@.len() - i,
    {
        let ghost before = r.deep_view();
        r.push(v[i].clone());
        assert(r.deep_view() =~= before.push(v[i as int]@));
        assert(v.deep_view().take(i + 1) =~= v.deep_view().take(i as int).push(v[i as int]@));
        i += 1;
    }
    assert(v.deep_view().take(v@.len() as int) =~= v.deep_view());
    r
}

/// The feature gaps of one entry point, given the features the resolver
/// enabled when building it.
pub fn feature_gaps_for_entry_point(
    ep: &EntryPointConfig,
    crates: &Workspace,
    resolved: &NameSets,
) -> (gaps: Vec<FeatureGap>)
    ensures
        gap_models(gaps@) == entry_point_gaps(
            ep.package@,
            ep.features.deep_view(),
            crates.model(),
            resolved@,
        ),
{
    let list = crates.crates();
    let ghost model = crates.model();
    let ghost package = ep.package@;
    let ghost requested = ep.features.deep_view();
    let mut gaps: Vec<FeatureGap> = Vec::new();
    let mut i: usize = 0;
    while i < list.len()
        invariant
            i <= list@.len(),
            package == ep.package@,
            requested == ep.features.deep_view(),
            list@.map_values(|e: (String, CrateInfo)| crate_model(e)) == model,
            gap_models(gaps@) == entry_point_gaps(package, requested, model.take(i as int), resolved@),
        decreases list@.len() - i,
    {
        let name = &list[i].0;
        let info = &list[i].1;
        assert(model.take(i + 1).drop_last() == model.take(i as int));
        assert(model[i as int] == crate_model(list@[i as int]));
        match resolved.get(name.as_str()) {
            Some(active) => {
                let ghost active_set = resolved@[name@];
                let ghost prev = gap_models(gaps@);
                let ghost defs = info.model();
                let mut j: usize = 0;
                while j < info.features.len()
                    invariant
                        j <= info.features@.len(),
                        defs == info.model(),
                        active.deep_view().to_set() == active_set,
                        package == ep.package@,
                        requested == ep.features.deep_view(),
                        gap_models(gaps@) == prev + crate_gaps(package, requested, name@, defs.take(j as int), active_set),
                    decreases info.features@.len() - j,
                {
                    let feature = &info.features[j].0;
                    let content = &info.features[j].1;
                    assert(defs.take(j + 1).drop_last() == defs.take(j as int));
                    assert(defs[j as int] == feature_def(info.features@[j as int]));
                    let is_active = contains_string(active, feature);
                    let is_requested = contains_string(&ep.features, feature);
                    if !is_active && is_requested {
                        let gap = FeatureGap {
                            entry_point: ep.package.clone(),
                            entry_features: clone_strings(&ep.features),
                            crate_name: name.clone(),
                            feature: feature.clone(),
                            feature_content: clone_strings(content),
                        };
                        let ghost before = gap_models(gaps@);
                        gaps.push(gap);
                        assert(gap_models(gaps@) =~= before.push(gap.model()));
                    }
                    j += 1;
                }
                assert(defs.take(defs.len() as int) == defs);
                assert(gap_models(gaps@) == entry_point_gaps(package, requested, model.take(i + 1), resolved@));
            },
            None => {
                assert(gap_models(gaps@) == entry_point_gaps(package, requested, model.take(i + 1), resolved@));
            },
        }
        i += 1;
    }
    assert(model.take(list@.len() as int) == model);
    gaps
}

// ---------------------------------------------------------------------------
// Collecting gaps over entry points
// ---------------------------------------------------------------------------

/// The key under which a gap is reported once:
/// `crate::feature::entry_point`.
pub open spec fn gap_key(g: GapModel) -> Seq<char> {
    g.crate_name + "::"@ + g.feature + "::"@ + g.entry_point
}

pub open spec fn gap_keys(gaps: Seq<GapModel>) -> Seq<Seq<char>> {
    gaps.map_values(|g: GapModel| gap_key(g))
}

/// The gaps reported so far followed by the new ones whose key has not been
/// reported yet, in order.
pub open spec fn add_unseen(reported: Seq<GapModel>, new: Seq<GapModel>) -> Seq<GapModel>
    decreases new.len(),
{
    if new.len() == 0 {
        reported
    } else {
        let acc = add_unseen(reported, new.drop_last());
        let g = new.last();
        if gap_keys(acc).contains(gap_key(g)) {
            acc
        } else {
            acc.push(g)
        }
    }
}

/// The key of a gap.
pub fn feature_gap_key(g: &FeatureGap) -> (k: String)
    ensures
        k@ == gap_key(g.model()),
{
    let k = g.crate_name.clone();
    let k = k.concat("::");
    let k = k.concat(g.feature.as_str());
    let k = k.concat("::");
    k.concat(g.entry_point.as_str())
}

fn has_gap_key(gaps: &Vec<FeatureGap>, key: &String) -> (b: bool)
    ensures
        b == gap_keys(gap_models(gaps@)).contains(key@),
{
    let mut i: usize = 0;
    while i < gaps.len()
        invariant
            i <= gaps@.len(),
            forall|j: int| 0 <= j < i ==> gap_key(#[trigger] gaps@[j].model()) != key@,
        decreases gaps@.len() - i,
    {
        let k = feature_gap_key(&gaps[i]);
        if k == *key {
            assert(gap_keys(gap_models(gaps@))[i as int] == key@);
            return true;
        }
        i += 1;
    }
    assert forall|j: int| 0 <= j < gaps@.len() implies gap_keys(gap_models(gaps@))[j] != key@ by {
        assert(gap_keys(gap_models(gaps@))[j] == gap_key(gaps@[j].model()));
    }
    false
}

/// Appends the new gaps whose key has not been reported yet.
pub fn add_unseen_gaps(reported: &mut Vec<FeatureGap>, new: Vec<FeatureGap>)
    ensures
        gap_models(final(reported)@) == add_unseen(gap_models(old(reported)@), gap_models(new@)),
{
    let ghost start = gap_models(reported@);
    let ghost added = gap_models(new@);
    let mut new = new;
    let n = new.len();
    assert(added.len() == n);
    let mut i: usize = 0;
    while new.len() > 0
        invariant
            i + new@.len() == added.len(),
            added.len() <= usize::MAX,
            gap_models(new@) == added.skip(i as int),
            gap_models(reported@) == add_unseen(start, added.take(i as int)),
            start == gap_models(old(reported)@),
        decreases new@.len(),
    {
        let ghost rest = gap_models(new@);
        let ghost old_new = new@;
        let g = new.remove(0);
        assert(g.model() == rest[0]);
        assert(rest[0] == added[i as int]);
        assert forall|j: int| 0 <= j < new@.len() implies #[trigger] gap_models(new@)[j] == added.skip(i + 1)[j] by {
            assert(new@[j] == old_new[j + 1]);
            assert(rest[j + 1] == old_new[j + 1].model());
        }
        assert(gap_models(new@) =~= added.skip(i + 1));
        assert(added.take(i + 1).drop_last() == added.take(i as int));
        let k = feature_gap_key(&g);
        if !has_gap_key(reported, &k) {
            let ghost before = gap_models(reported@);
            reported.push(g);
            assert(gap_models(reported@) =~= before.push(added[i as int]));
        }
        i += 1;
    }
    assert(added.take(added.len() as int) == added);
}

/// One entry point's step of the propagation check, given the features the
/// resolver enabled when building it: nothing when the resolved tree is
/// empty (the build could not be resolved); otherwise its gaps are added to
/// those reported so far, and their number is handed back.
pub fn record_entry_point_gaps(
    reported: &mut Vec<FeatureGap>,
    ep: &EntryPointConfig,
    crates: &Workspace,
    resolved: &NameSets,
) -> (r: Option<usize>)
    ensures
        resolved@ == Map::<Seq<char>, Set<Seq<char>>>::empty() ==> r is None && final(reported)@ == old(reported)@,
        resolved@ != Map::<Seq<char>, Set<Seq<char>>>::empty() ==> {
            let gaps = entry_point_gaps(ep.package@, ep.features.deep_view(), crates.model(), resolved@);
            &&& r == Some(gaps.len() as usize)
            &&& gap_models(final(reported)@) == add_unseen(gap_models(old(reported)@), gaps)
        },
        gap_models(final(reported)@) == propagation_step(
            gap_models(old(reported)@),
            (ep.package@, ep.features.deep_view()),
            crates.model(),
            resolved@,
        ),
{
    if resolved.is_empty() {
        return None;
    }
    let gaps = feature_gaps_for_entry_point(ep, crates, resolved);
    let n = gaps.len();
    add_unseen_gaps(reported, gaps);
    Some(n)
}

// ---------------------------------------------------------------------------
// Laws
// ---------------------------------------------------------------------------

/// Whether some gap names this crate and feature.
pub open spec fn reports_gap(gaps: Seq<GapModel>, name: Seq<char>, feature: Seq<char>) -> bool {
    exists|i: int| 0 <= i < gaps.len() && (#[trigger] gaps[i]).crate_name == name && gaps[i].feature == feature
}

/// Whether a crate of that name defines that feature.
pub open spec fn defines_feature(crates: Seq<CrateModel>, name: Seq<char>, feature: Seq<char>) -> bool {
    exists|c: int, d: int|
        0 <= c < crates.len() && 0 <= d < crates[c].1.len() && (#[trigger] crates[c]).0 == name && (
        #[trigger] crates[c].1[d]).0 == feature
}

proof fn lemma_crate_gaps(
    package: Seq<char>,
    requested: Seq<Seq<char>>,
    name: Seq<char>,
    defs: Seq<FeatureDef>,
    active: Set<Seq<char>>,
    feature: Seq<char>,
)
    ensures
        ({
            let g = crate_gaps(package, requested, name, defs, active);
            &&& forall|i: int| 0 <= i < g.len() ==> (#[trigger] g[i]).crate_name == name
                && g[i].entry_point == package && g[i].entry_features == requested
            &&& reports_gap(g, name, feature) <==> (!active.contains(feature) && requested.contains(feature)
                && exists|d: int| 0 <= d < defs.len() && (#[trigger] defs[d]).0 == feature)
        }),
    decreases defs.len(),
{
    if defs.len() > 0 {
        let prev = defs.drop_last();
        lemma_crate_gaps(package, requested, name, prev, active, feature);
        let rest = crate_gaps(package, requested, name, prev, active);
        let g = crate_gaps(package, requested, name, defs, active);
        let last = defs.last();
        if reports_gap(g, name, feature) {
            let i = choose|i: int| 0 <= i < g.len() && (#[trigger] g[i]).crate_name == name && g[i].feature == feature;
            if i < rest.len() {
                assert(g[i] == rest[i]);
                assert(reports_gap(rest, name, feature));
                let d = choose|d: int| 0 <= d < prev.len() && (#[trigger] prev[d]).0 == feature;
                assert(defs[d] == prev[d]);
            } else {
                assert(defs[defs.len() - 1] == last);
            }
        }
        if !active.contains(feature) && requested.contains(feature) && exists|d: int| 0 <= d < defs.len() && (#[trigger] defs[d]).0 == feature {
            let d = choose|d: int| 0 <= d < defs.len() && (#[trigger] defs[d]).0 == feature;
            if d < prev.len() {
                assert(prev[d] == defs[d]);
                let i = choose|i: int| 0 <= i < rest.len() && (#[trigger] rest[i]).crate_name == name && rest[i].feature == feature;
                assert(g[i] == rest[i]);
            } else {
                assert(g[rest.len() as int].feature == feature);
            }
        }
    }
}

/// A feature gap is reported for a crate and a feature exactly when the
/// crate is in the resolved tree, some crate of that name in the workspace
/// defines the feature, the entry point is built with the feature, and the
/// resolver did not enable it for the crate; every gap names the entry point
/// and its features.
pub proof fn law_gap_reported_iff_not_propagated(
    package: Seq<char>,
    requested: Seq<Seq<char>>,
    crates: Seq<CrateModel>,
    resolved: SetMap,
    name: Seq<char>,
    feature: Seq<char>,
)
    ensures
        ({
            let g = entry_point_gaps(package, requested, crates, resolved);
            &&& forall|i: int| 0 <= i < g.len() ==> (#[trigger] g[i]).entry_point == package
                && g[i].entry_features == requested
            &&& reports_gap(g, name, feature) <==> {
                &&& resolved.contains_key(name)
                &&& defines_feature(crates, name, feature)
                &&& requested.contains(feature)
                &&& !resolved[name].contains(feature)
            }
        }),
    decreases crates.len(),
{
    if crates.len() > 0 {
        let prev_crates = crates.drop_last();
        law_gap_reported_iff_not_propagated(package, requested, prev_crates, resolved, name, feature);
        let prev = entry_point_gaps(package, requested, prev_crates, resolved);
        let g = entry_point_gaps(package, requested, crates, resolved);
        let c = crates.last();
        assert(crates[crates.len() - 1] == c);
        if resolved.contains_key(c.0) {
            let cg = crate_gaps(package, requested, c.0, c.1, resolved[c.0]);
            lemma_crate_gaps(package, requested, c.0, c.1, resolved[c.0], feature);
            assert(g == prev + cg);
            assert forall|i: int| 0 <= i < g.len() implies (#[trigger] g[i]).entry_point == package
                && g[i].entry_features == requested by {
                if i < prev.len() {
                    assert(g[i] == prev[i]);
                } else {
                    assert(g[i] == cg[i - prev.len()]);
                }
            }
            if reports_gap(g, name, feature) {
                let i = choose|i: int| 0 <= i < g.len() && (#[trigger] g[i]).crate_name == name && g[i].feature == feature;
                if i < prev.len() {
                    assert(g[i] == prev[i]);
                    assert(reports_gap(prev, name, feature));
                    let (a, b) = choose|a: int, b: int|
                        0 <= a < prev_crates.len() && 0 <= b < prev_crates[a].1.len() && (#[trigger] prev_crates[a]).0 == name && (
                        #[trigger] prev_crates[a].1[b]).0 == feature;
                    assert(crates[a] == prev_crates[a]);
                } else {
                    assert(g[i] == cg[i - prev.len()]);
                    assert(reports_gap(cg, name, feature));
                    let d = choose|d: int| 0 <= d < c.1.len() && (#[trigger] c.1[d]).0 == feature;
                    let last = crates.len() - 1;
                    assert(crates[last].1[d].0 == feature);
                }
            }
            if resolved.contains_key(name) && defines_feature(crates, name, feature) && requested.contains(feature)
                && !resolved[name].contains(feature) {
                let (a, b) = choose|a: int, b: int|
                    0 <= a < crates.len() && 0 <= b < crates[a].1.len() && (#[trigger] crates[a]).0 == name && (
                    #[trigger] crates[a].1[b]).0 == feature;
                if a < prev_crates.len() {
                    assert(prev_crates[a] == crates[a]);
                    assert(defines_feature(prev_crates, name, feature));
                    let i = choose|i: int| 0 <= i < prev.len() && (#[trigger] prev[i]).crate_name == name && prev[i].feature == feature;
                    assert(g[i] == prev[i]);
                } else {
                    assert(c.1[b].0 == feature);
                    let i = choose|i: int| 0 <= i < cg.len() && (#[trigger] cg[i]).crate_name == name && cg[i].feature == feature;
                    assert(g[prev.len() + i] == cg[i]);
                }
            }
        } else {
            assert(g == prev);
            if resolved.contains_key(name) && defines_feature(crates, name, feature) {
                let (a, b) = choose|a: int, b: int|
                    0 <= a < crates.len() && 0 <= b < crates[a].1.len() && (#[trigger] crates[a]).0 == name && (
                    #[trigger] crates[a].1[b]).0 == feature;
                assert(a < prev_crates.len());
                assert(prev_crates[a] == crates[a]);
                assert(defines_feature(prev_crates, name, feature));
            }
            if defines_feature(prev_crates, name, feature) {
                let (a, b) = choose|a: int, b: int|
                    0 <= a < prev_crates.len() && 0 <= b < prev_crates[a].1.len() && (#[trigger] prev_crates[a]).0 == name && (
                    #[trigger] prev_crates[a].1[b]).0 == feature;
                assert(crates[a] == prev_crates[a]);
            }
        }
    }
}

proof fn lemma_add_unseen_extends(reported: Seq<GapModel>, new: Seq<GapModel>)
    ensures
        add_unseen(reported, new).len() >= reported.len(),
        forall|i: int| 0 <= i < reported.len() ==> add_unseen(reported, new)[i] == reported[i],
        forall|j: int| 0 <= j < new.len() ==> gap_keys(add_unseen(reported, new)).contains(gap_key(#[trigger] new[j])),
    decreases new.len(),
{
    if new.len() > 0 {
        let prev = new.drop_last();
        lemma_add_unseen_extends(reported, prev);
        let acc = add_unseen(reported, prev);
        let r = add_unseen(reported, new);
        let g = new.last();
        assert forall|j: int| 0 <= j < new.len() implies gap_keys(r).contains(gap_key(#[trigger] new[j])) by {
            if j < prev.len() {
                assert(new[j] == prev[j]);
                assert(gap_keys(acc).contains(gap_key(prev[j])));
                let k = choose|k: int| 0 <= k < gap_keys(acc).len() && gap_keys(acc)[k] == gap_key(prev[j]);
                assert(gap_keys(r)[k] == gap_keys(acc)[k]);
            } else if !gap_keys(acc).contains(gap_key(g)) {
                assert(gap_keys(r)[acc.len() as int] == gap_key(g));
            }
        }
    }
}

proof fn lemma_add_seen_is_noop(reported: Seq<GapModel>, new: Seq<GapModel>)
    requires
        forall|j: int| 0 <= j < new.len() ==> gap_keys(reported).contains(gap_key(#[trigger] new[j])),
    ensures
        add_unseen(reported, new) == reported,
    decreases new.len(),
{
    if new.len() > 0 {
        let prev = new.drop_last();
        assert forall|j: int| 0 <= j < prev.len() implies gap_keys(reported).contains(gap_key(#[trigger] prev[j])) by {
            assert(prev[j] == new[j]);
        }
        lemma_add_seen_is_noop(reported, prev);
        assert(new.last() == new[new.len() - 1]);
    }
}

/// Gaps once reported stay reported, in place.
pub proof fn law_reported_gaps_are_kept(reported: Seq<GapModel>, new: Seq<GapModel>)
    ensures
        add_unseen(reported, new).len() >= reported.len(),
        forall|i: int| 0 <= i < reported.len() ==> add_unseen(reported, new)[i] == reported[i],
{
    lemma_add_unseen_extends(reported, new);
}

/// Adding the same gaps a second time reports nothing new.
pub proof fn law_adding_gaps_twice_changes_nothing(reported: Seq<GapModel>, new: Seq<GapModel>)
    ensures
        add_unseen(add_unseen(reported, new), new) == add_unseen(reported, new),
{
    lemma_add_unseen_extends(reported, new);
    lemma_add_seen_is_noop(add_unseen(reported, new), new);
}

/// No two reported gaps share a key, as long as none did before.
pub proof fn law_gap_keys_stay_distinct(reported: Seq<GapModel>, new: Seq<GapModel>)
    requires
        gap_keys(reported).no_duplicates(),
    ensures
        gap_keys(add_unseen(reported, new)).no_duplicates(),
    decreases new.len(),
{
    if new.len() > 0 {
        let prev = new.drop_last();
        law_gap_keys_stay_distinct(reported, prev);
        let acc = add_unseen(reported, prev);
        let g = new.last();
        if !gap_keys(acc).contains(gap_key(g)) {
            let r = acc.push(g);
            assert(gap_keys(r) =~= gap_keys(acc).push(gap_key(g)));
            assert forall|a: int, b: int| 0 <= a < b < gap_keys(r).len() implies gap_keys(r)[a] != gap_keys(r)[b] by {
                if b == acc.len() {
                    assert(gap_keys(r)[a] == gap_keys(acc)[a]);
                }
            }
        }
    }
}

/// An entry point as plain values: its package and its features.
pub type EntryPointModel = (Seq<char>, Seq<Seq<char>>);

/// The gaps reported after one entry point's step (see
/// `record_entry_point_gaps`).
pub open spec fn propagation_step(
    reported: Seq<GapModel>,
    ep: EntryPointModel,
    crates: Seq<CrateModel>,
    resolved: SetMap,
) -> Seq<GapModel> {
    if resolved == Map::<Seq<char>, Set<Seq<char>>>::empty() {
        reported
    } else {
        add_unseen(reported, entry_point_gaps(ep.0, ep.1, crates, resolved))
    }
}

/// The gaps reported over a whole configuration: one step per entry point,
/// in configuration order, `runs[k]` being the features resolved when
/// building entry point `k`.
pub open spec fn propagation_run(eps: Seq<EntryPointModel>, runs: Seq<SetMap>, crates: Seq<CrateModel>) -> Seq<
    GapModel,
>
    decreases eps.len(),
{
    if eps.len() == 0 {
        seq![]
    } else {
        propagation_step(
            propagation_run(eps.drop_last(), runs, crates),
            eps.last(),
            crates,
            runs[eps.len() - 1],
        )
    }
}

proof fn lemma_add_unseen_from(reported: Seq<GapModel>, new: Seq<GapModel>)
    ensures
        forall|i: int| 0 <= i < add_unseen(reported, new).len() ==> reported.contains(#[trigger] add_unseen(reported, new)[i])
            || new.contains(add_unseen(reported, new)[i]),
    decreases new.len(),
{
    if new.len() > 0 {
        let prev = new.drop_last();
        lemma_add_unseen_from(reported, prev);
        let acc = add_unseen(reported, prev);
        let r = add_unseen(reported, new);
        assert forall|i: int| 0 <= i < r.len() implies reported.contains(#[trigger] r[i]) || new.contains(r[i]) by {
            if i < acc.len() {
                assert(r[i] == acc[i]);
                if prev.contains(acc[i]) {
                    let j = choose|j: int| 0 <= j < prev.len() && prev[j] == acc[i];
                    assert(new[j] == prev[j]);
                }
            } else {
                assert(r[i] == new[new.len() - 1]);
            }
        }
    }
}

/// Over a whole configuration: no two reported gaps share a key; every
/// reported gap is a gap of some entry point; every gap of every entry
/// point whose build resolved is reported under its key.
pub proof fn law_whole_propagation_run(eps: Seq<EntryPointModel>, runs: Seq<SetMap>, crates: Seq<CrateModel>)
    requires
        eps.len() == runs.len(),
    ensures
        gap_keys(propagation_run(eps, runs, crates)).no_duplicates(),
        forall|i: int| 0 <= i < propagation_run(eps, runs, crates).len() ==> exists|k: int| 0 <= k < eps.len()
            && entry_point_gaps(eps[k].0, eps[k].1, crates, runs[k]).contains(
            #[trigger] propagation_run(eps, runs, crates)[i],
        ),
        forall|k: int, j: int|
            0 <= k < eps.len() && runs[k] != Map::<Seq<char>, Set<Seq<char>>>::empty() && 0 <= j
                < entry_point_gaps(eps[k].0, eps[k].1, crates, runs[k]).len() ==> gap_keys(
                propagation_run(eps, runs, crates),
            ).contains(gap_key(#[trigger] entry_point_gaps(eps[k].0, eps[k].1, crates, runs[k])[j])),
    decreases eps.len(),
{
    let r = propagation_run(eps, runs, crates);
    if eps.len() == 0 {
        assert(gap_keys(r).len() == 0);
        return;
    }
    let last = eps.len() - 1;
    let pe = eps.drop_last();
    let pr = runs.drop_last();
    law_whole_propagation_run(pe, pr, crates);
    lemma_run_ignores_later_runs(pe, runs, pr, crates);
    let prev = propagation_run(pe, runs, crates);
    assert(prev == propagation_run(pe, pr, crates));
    let gaps = entry_point_gaps(eps[last].0, eps[last].1, crates, runs[last]);
    assert(eps.last() == eps[last]);
    assert forall|k: int| 0 <= k < pe.len() implies #[trigger] pe[k] == eps[k] && pr[k] == runs[k] by {}
    if runs[last] == Map::<Seq<char>, Set<Seq<char>>>::empty() {
        assert(r == prev);
    } else {
        assert(r == add_unseen(prev, gaps));
        law_gap_keys_stay_distinct(prev, gaps);
        lemma_add_unseen_extends(prev, gaps);
        lemma_add_unseen_from(prev, gaps);
    }
    // every reported gap is a gap of some entry point
    assert forall|i: int| 0 <= i < r.len() implies exists|k: int| 0 <= k < eps.len()
        && entry_point_gaps(eps[k].0, eps[k].1, crates, runs[k]).contains(#[trigger] r[i]) by {
        if prev.contains(r[i]) {
            let a = choose|a: int| 0 <= a < prev.len() && prev[a] == r[i];
            let k = choose|k: int| 0 <= k < pe.len() && entry_point_gaps(pe[k].0, pe[k].1, crates, pr[k]).contains(#[trigger] prev[a]);
            assert(pe[k] == eps[k] && pr[k] == runs[k]);
        } else {
            assert(gaps.contains(r[i]));
            assert(0 <= last < eps.len());
        }
    }
    // every gap of every resolved entry point is reported
    assert forall|k: int, j: int|
        0 <= k < eps.len() && runs[k] != Map::<Seq<char>, Set<Seq<char>>>::empty() && 0 <= j
            < entry_point_gaps(eps[k].0, eps[k].1, crates, runs[k]).len() implies gap_keys(r).contains(
            gap_key(#[trigger] entry_point_gaps(eps[k].0, eps[k].1, crates, runs[k])[j]),
        ) by {
        let g = entry_point_gaps(eps[k].0, eps[k].1, crates, runs[k])[j];
        if k < last {
            assert(pe[k] == eps[k] && pr[k] == runs[k]);
            assert(gap_keys(prev).contains(gap_key(entry_point_gaps(pe[k].0, pe[k].1, crates, pr[k])[j])));
            let a = choose|a: int| 0 <= a < gap_keys(prev).len() && gap_keys(prev)[a] == gap_key(g);
            assert(r[a] == prev[a]);
            assert(gap_keys(r)[a] == gap_key(g));
        } else {
            assert(gap_keys(r).contains(gap_key(gaps[j])));
        }
    }
}

/// The gaps reported for the first `n` entry points are reported first, and
/// unchanged, once the later entry points have been checked too.
pub proof fn law_earlier_entry_points_come_first(
    eps: Seq<EntryPointModel>,
    runs: Seq<SetMap>,
    crates: Seq<CrateModel>,
    n: int,
)
    requires
        0 <= n <= eps.len(),
        eps.len() == runs.len(),
    ensures
        propagation_run(eps.take(n), runs.take(n), crates).is_prefix_of(propagation_run(eps, runs, crates)),
    decreases eps.len(),
{
    let r = propagation_run(eps, runs, crates);
    lemma_run_ignores_later_runs(eps.take(n), runs, runs.take(n), crates);
    if n == eps.len() {
        assert(eps.take(n) == eps);
        assert(runs.take(n) == runs);
        assert(r.subrange(0, r.len() as int) =~= r);
    } else {
        let pe = eps.drop_last();
        let pr = runs.drop_last();
        law_earlier_entry_points_come_first(pe, pr, crates, n);
        assert(pe.take(n) == eps.take(n));
        assert(pr.take(n) == runs.take(n));
        lemma_run_ignores_later_runs(pe, runs, pr, crates);
        let prev = propagation_run(pe, runs, crates);
        let first = propagation_run(eps.take(n), runs.take(n), crates);
        let last = eps.len() - 1;
        assert(eps.last() == eps[last]);
        if runs[last] != Map::<Seq<char>, Set<Seq<char>>>::empty() {
            lemma_add_unseen_extends(prev, entry_point_gaps(eps[last].0, eps[last].1, crates, runs[last]));
        } else {
            assert(r == prev);
        }
        assert(first =~= r.subrange(0, first.len() as int)) by {
            assert(first =~= prev.subrange(0, first.len() as int));
        }
    }
}

/// Whether the `j`-th new gap is added: its key was not reported before,
/// nor met earlier among the new gaps.
pub open spec fn first_new(reported: Seq<GapModel>, new: Seq<GapModel>, j: int) -> bool {
    &&& 0 <= j < new.len()
    &&& !gap_keys(reported).contains(gap_key(new[j]))
    &&& forall|j2: int| 0 <= j2 < j ==> gap_key(#[trigger] new[j2]) != gap_key(new[j])
}

/// Whether a gap is one of the new gaps that is added.
pub open spec fn added_from(reported: Seq<GapModel>, new: Seq<GapModel>, g: GapModel) -> bool {
    exists|j: int| #[trigger] first_new(reported, new, j) && new[j] == g
}

proof fn lemma_add_unseen_new(reported: Seq<GapModel>, new: Seq<GapModel>)
    ensures
        forall|i: int| reported.len() <= i < add_unseen(reported, new).len() ==> added_from(
            reported,
            new,
            #[trigger] add_unseen(reported, new)[i],
        ),
    decreases new.len(),
{
    if new.len() > 0 {
        let prev = new.drop_last();
        lemma_add_unseen_new(reported, prev);
        lemma_add_unseen_extends(reported, prev);
        let acc = add_unseen(reported, prev);
        let r = add_unseen(reported, new);
        let g = new.last();
        assert forall|j: int| #[trigger] first_new(reported, prev, j) implies first_new(reported, new, j) by {
            assert(new[j] == prev[j]);
            assert forall|j2: int| 0 <= j2 < j implies gap_key(#[trigger] new[j2]) != gap_key(new[j]) by {
                assert(new[j2] == prev[j2]);
            }
        }
        assert forall|i: int| reported.len() <= i < r.len() implies added_from(reported, new, #[trigger] r[i]) by {
            if i < acc.len() {
                assert(r[i] == acc[i]);
                let j = choose|j: int| #[trigger] first_new(reported, prev, j) && prev[j] == acc[i];
                assert(first_new(reported, new, j));
            } else {
                let j = new.len() - 1;
                assert(r[i] == g);
                assert(new[j] == g);
                assert(!gap_keys(reported).contains(gap_key(g))) by {
                    if gap_keys(reported).contains(gap_key(g)) {
                        let a = choose|a: int| 0 <= a < gap_keys(reported).len() && gap_keys(reported)[a] == gap_key(g);
                        assert(acc[a] == reported[a]);
                        assert(gap_keys(acc)[a] == gap_key(g));
                    }
                }
                assert forall|j2: int| 0 <= j2 < j implies gap_key(#[trigger] new[j2]) != gap_key(new[j]) by {
                    assert(new[j2] == prev[j2]);
                    assert(gap_keys(acc).contains(gap_key(prev[j2])));
                }
                assert(first_new(reported, new, j));
            }
        }
    }
}

/// The gaps that entry point `k`'s step considers: none when its tree is
/// empty.
pub open spec fn step_gaps(eps: Seq<EntryPointModel>, runs: Seq<SetMap>, crates: Seq<CrateModel>, k: int) -> Seq<
    GapModel,
> {
    if runs[k] == Map::<Seq<char>, Set<Seq<char>>>::empty() {
        seq![]
    } else {
        entry_point_gaps(eps[k].0, eps[k].1, crates, runs[k])
    }
}

/// Whether a key was met before the `j`-th gap of entry point `k`: among the
/// gaps of an earlier entry point, or earlier among those of the same one.
pub open spec fn key_met_before(
    eps: Seq<EntryPointModel>,
    runs: Seq<SetMap>,
    crates: Seq<CrateModel>,
    k: int,
    j: int,
    key: Seq<char>,
) -> bool {
    exists|k2: int, j2: int|
        #![trigger step_gaps(eps, runs, crates, k2)[j2]]
        ((0 <= k2 < k && 0 <= j2 < step_gaps(eps, runs, crates, k2).len()) || (k2 == k && 0 <= j2 < j)) && gap_key(
            step_gaps(eps, runs, crates, k2)[j2],
        ) == key
}

/// Whether the `j`-th gap of entry point `k` is the first gap with its key,
/// taking the entry points in order and each one's gaps in order.
pub open spec fn first_with_its_key(eps: Seq<EntryPointModel>, runs: Seq<SetMap>, crates: Seq<CrateModel>, k: int, j: int) -> bool {
    &&& 0 <= k < eps.len()
    &&& 0 <= j < step_gaps(eps, runs, crates, k).len()
    &&& !key_met_before(eps, runs, crates, k, j, gap_key(step_gaps(eps, runs, crates, k)[j]))
}

/// Whether a gap is the first gap with its key, and names the entry point it
/// comes from and that entry point's features.
pub open spec fn is_first_gap(eps: Seq<EntryPointModel>, runs: Seq<SetMap>, crates: Seq<CrateModel>, g: GapModel) -> bool {
    exists|k: int, j: int|
        #[trigger] first_with_its_key(eps, runs, crates, k, j) && step_gaps(eps, runs, crates, k)[j] == g
            && g.entry_point == eps[k].0 && g.entry_features == eps[k].1
}

/// The first entry points read the same gaps whatever follows them.
proof fn lemma_step_gaps_of_prefix(eps: Seq<EntryPointModel>, runs: Seq<SetMap>, crates: Seq<CrateModel>)
    requires
        eps.len() == runs.len(),
        eps.len() > 0,
    ensures
        forall|k: int| 0 <= k < eps.len() - 1 ==> #[trigger] step_gaps(eps.drop_last(), runs.drop_last(), crates, k)
            == step_gaps(eps, runs, crates, k),
        forall|k: int, j: int, key: Seq<char>| 0 <= k < eps.len() - 1 ==> (#[trigger] key_met_before(
            eps.drop_last(),
            runs.drop_last(),
            crates,
            k,
            j,
            key,
        ) <==> key_met_before(eps, runs, crates, k, j, key)),
{
    let pe = eps.drop_last();
    let pr = runs.drop_last();
    assert forall|k: int| 0 <= k < eps.len() - 1 implies #[trigger] step_gaps(pe, pr, crates, k) == step_gaps(eps, runs, crates, k) by {
        assert(pe[k] == eps[k] && pr[k] == runs[k]);
    }
    assert forall|k: int, j: int, key: Seq<char>| 0 <= k < eps.len() - 1 implies (#[trigger] key_met_before(pe, pr, crates, k, j, key)
        <==> key_met_before(eps, runs, crates, k, j, key)) by {
        if key_met_before(pe, pr, crates, k, j, key) {
            let (k2, j2) = choose|k2: int, j2: int|
                ((0 <= k2 < k && 0 <= j2 < step_gaps(pe, pr, crates, k2).len()) || (k2 == k && 0 <= j2 < j)) && gap_key(
                    #[trigger] step_gaps(pe, pr, crates, k2)[j2],
                ) == key;
            assert(step_gaps(pe, pr, crates, k2) == step_gaps(eps, runs, crates, k2));
        }
        if key_met_before(eps, runs, crates, k, j, key) {
            let (k2, j2) = choose|k2: int, j2: int|
                ((0 <= k2 < k && 0 <= j2 < step_gaps(eps, runs, crates, k2).len()) || (k2 == k && 0 <= j2 < j)) && gap_key(
                    #[trigger] step_gaps(eps, runs, crates, k2)[j2],
                ) == key;
            assert(step_gaps(pe, pr, crates, k2) == step_gaps(eps, runs, crates, k2));
        }
    }
}

/// Over a whole configuration, each reported gap is the first gap with its
/// key (crate, feature and entry point), taking the entry points in
/// configuration order and each one's gaps in order; so it carries the
/// features of the first entry point that gives that key.
pub proof fn law_each_gap_is_the_first_with_its_key(
    eps: Seq<EntryPointModel>,
    runs: Seq<SetMap>,
    crates: Seq<CrateModel>,
)
    requires
        eps.len() == runs.len(),
    ensures
        forall|i: int| 0 <= i < propagation_run(eps, runs, crates).len() ==> is_first_gap(
            eps,
            runs,
            crates,
            #[trigger] propagation_run(eps, runs, crates)[i],
        ),
    decreases eps.len(),
{
    if eps.len() == 0 {
        return;
    }
    let r = propagation_run(eps, runs, crates);
    let last = eps.len() - 1;
    let pe = eps.drop_last();
    let pr = runs.drop_last();
    law_each_gap_is_the_first_with_its_key(pe, pr, crates);
    law_whole_propagation_run(pe, pr, crates);
    lemma_run_ignores_later_runs(pe, runs, pr, crates);
    lemma_step_gaps_of_prefix(eps, runs, crates);
    let prev = propagation_run(pe, runs, crates);
    assert(prev == propagation_run(pe, pr, crates));
    assert(eps.last() == eps[last]);
    let gaps = entry_point_gaps(eps[last].0, eps[last].1, crates, runs[last]);
    if runs[last] == Map::<Seq<char>, Set<Seq<char>>>::empty() {
        assert(r == prev);
    } else {
        assert(r == add_unseen(prev, gaps));
        lemma_add_unseen_extends(prev, gaps);
        lemma_add_unseen_new(prev, gaps);
        law_gap_reported_iff_not_propagated(eps[last].0, eps[last].1, crates, runs[last], seq![], seq![]);
    }
    assert forall|i: int| 0 <= i < r.len() implies is_first_gap(eps, runs, crates, #[trigger] r[i]) by {
        if i < prev.len() {
            assert(r[i] == prev[i]);
            assert(is_first_gap(pe, pr, crates, prev[i]));
            let (k, j) = choose|k: int, j: int|
                #[trigger] first_with_its_key(pe, pr, crates, k, j) && step_gaps(pe, pr, crates, k)[j] == prev[i]
                    && prev[i].entry_point == pe[k].0 && prev[i].entry_features == pe[k].1;
            assert(pe[k] == eps[k]);
            assert(step_gaps(pe, pr, crates, k) == step_gaps(eps, runs, crates, k));
            assert(first_with_its_key(eps, runs, crates, k, j));
        } else {
            assert(added_from(prev, gaps, r[i]));
            let j = choose|j: int| #[trigger] first_new(prev, gaps, j) && gaps[j] == r[i];
            assert(step_gaps(eps, runs, crates, last) == gaps);
            assert(!key_met_before(eps, runs, crates, last, j, gap_key(gaps[j]))) by {
                if key_met_before(eps, runs, crates, last, j, gap_key(gaps[j])) {
                    let (k2, j2) = choose|k2: int, j2: int|
                        ((0 <= k2 < last && 0 <= j2 < step_gaps(eps, runs, crates, k2).len()) || (k2 == last && 0 <= j2
                            < j)) && gap_key(#[trigger] step_gaps(eps, runs, crates, k2)[j2]) == gap_key(gaps[j]);
                    if k2 < last {
                        assert(step_gaps(pe, pr, crates, k2) == step_gaps(eps, runs, crates, k2));
                        assert(pe[k2] == eps[k2] && pr[k2] == runs[k2]);
                        assert(pr[k2] != Map::<Seq<char>, Set<Seq<char>>>::empty());
                        assert(gap_keys(prev).contains(gap_key(entry_point_gaps(pe[k2].0, pe[k2].1, crates, pr[k2])[j2])));
                    } else {
                        assert(gap_key(gaps[j2]) != gap_key(gaps[j]));
                    }
                }
            }
            assert(first_with_its_key(eps, runs, crates, last, j));
            assert(gaps[j].entry_point == eps[last].0 && gaps[j].entry_features == eps[last].1);
        }
    }
}

/// A list with each item repeated next to itself.
pub open spec fn twice<A>(s: Seq<A>) -> Seq<A>
    decreases s.len(),
{
    if s.len() == 0 {
        seq![]
    } else {
        twice(s.drop_last()) + seq![s.last(), s.last()]
    }
}

proof fn lemma_twice_len<A>(s: Seq<A>)
    ensures
        twice(s).len() == 2 * s.len(),
    decreases s.len(),
{
    if s.len() > 0 {
        lemma_twice_len(s.drop_last());
    }
}

/// Listing every entry point twice, each next to itself, reports exactly
/// the same gaps in the same order: repeating an entry point adds no gap.
pub proof fn law_repeated_entry_points_change_nothing(
    eps: Seq<EntryPointModel>,
    runs: Seq<SetMap>,
    crates: Seq<CrateModel>,
)
    requires
        eps.len() == runs.len(),
    ensures
        propagation_run(twice(eps), twice(runs), crates) == propagation_run(eps, runs, crates),
    decreases eps.len(),
{
    if eps.len() == 0 {
        return;
    }
    let last = eps.len() - 1;
    let pe = eps.drop_last();
    let pr = runs.drop_last();
    let l = eps.last();
    let rl = runs.last();
    let te = twice(eps);
    let tr = twice(runs);
    let tpe = twice(pe);
    let tpr = twice(pr);
    lemma_twice_len(eps);
    lemma_twice_len(runs);
    lemma_twice_len(pe);
    lemma_twice_len(pr);
    law_repeated_entry_points_change_nothing(pe, pr, crates);
    assert(te == tpe + seq![l, l]);
    assert(tr == tpr + seq![rl, rl]);
    let te1 = te.drop_last();
    assert(te1 =~= tpe.push(l));
    assert(te1.drop_last() =~= tpe);
    assert(te.last() == l && te1.last() == l);
    assert(tr[te.len() - 1] == rl);
    assert(tr[te1.len() - 1] == rl);
    assert forall|k: int| 0 <= k < tpr.len() implies #[trigger] tpr[k] == tr[k] by {}
    lemma_run_ignores_later_runs(tpe, tr, tpr, crates);
    lemma_run_ignores_later_runs(pe, runs, pr, crates);
    let p = propagation_run(pe, runs, crates);
    assert(propagation_run(tpe, tr, crates) == p);
    assert(propagation_run(te1, tr, crates) == propagation_step(p, l, crates, rl));
    assert(propagation_run(te, tr, crates) == propagation_step(propagation_step(p, l, crates, rl), l, crates, rl));
    assert(propagation_run(eps, runs, crates) == propagation_step(p, l, crates, rl));
    if rl != Map::<Seq<char>, Set<Seq<char>>>::empty() {
        law_adding_gaps_twice_changes_nothing(p, entry_point_gaps(l.0, l.1, crates, rl));
    }
}

/// Whether a name holds no `:`, as the names of Cargo packages and features
/// do not.
pub open spec fn colon_free(s: Seq<char>) -> bool {
    !s.contains(':')
}

/// Whether every crate name and every feature name of a workspace holds no
/// `:`.
pub open spec fn workspace_names_colon_free(crates: Seq<CrateModel>) -> bool {
    forall|c: int, d: int|
        0 <= c < crates.len() && 0 <= d < crates[c].1.len() ==> colon_free(#[trigger] crates[c].0) && colon_free(
            #[trigger] crates[c].1[d].0,
        )
}

proof fn lemma_split_at_separator(x1: Seq<char>, t1: Seq<char>, x2: Seq<char>, t2: Seq<char>)
    requires
        colon_free(x1),
        colon_free(x2),
        x1 + seq![':', ':'] + t1 == x2 + seq![':', ':'] + t2,
    ensures
        x1 == x2,
        t1 == t2,
{
    let s = x1 + seq![':', ':'] + t1;
    let s2 = x2 + seq![':', ':'] + t2;
    if x1.len() < x2.len() {
        assert(s[x1.len() as int] == ':');
        assert(s2[x1.len() as int] == x2[x1.len() as int]);
        assert(x2.contains(':'));
    } else if x2.len() < x1.len() {
        assert(s2[x2.len() as int] == ':');
        assert(s[x2.len() as int] == x1[x2.len() as int]);
        assert(x1.contains(':'));
    }
    let n = x1.len() as int;
    assert(x1 =~= s.subrange(0, n));
    assert(x2 =~= s2.subrange(0, n));
    assert(t1 =~= s.subrange(n + 2, s.len() as int));
    assert(t2 =~= s2.subrange(n + 2, s2.len() as int));
}

/// Two gaps whose crate and feature names hold no `:` share a key exactly
/// when they name the same crate, feature and entry point.
proof fn lemma_gap_key_parts(a: GapModel, b: GapModel)
    requires
        colon_free(a.crate_name),
        colon_free(a.feature),
        colon_free(b.crate_name),
        colon_free(b.feature),
        gap_key(a) == gap_key(b),
    ensures
        a.crate_name == b.crate_name,
        a.feature == b.feature,
        a.entry_point == b.entry_point,
{
    reveal_strlit("::");
    let cc = seq![':', ':'];
    assert("::"@ == cc);
    assert(gap_key(a) =~= a.crate_name + cc + (a.feature + cc + a.entry_point));
    assert(gap_key(b) =~= b.crate_name + cc + (b.feature + cc + b.entry_point));
    lemma_split_at_separator(a.crate_name, a.feature + cc + a.entry_point, b.crate_name, b.feature + cc + b.entry_point);
    lemma_split_at_separator(a.feature, a.entry_point, b.feature, b.entry_point);
}

/// Whether some gap names this entry point, crate and feature.
pub open spec fn reports_gap_of(gaps: Seq<GapModel>, ep: Seq<char>, name: Seq<char>, feature: Seq<char>) -> bool {
    exists|i: int|
        0 <= i < gaps.len() && (#[trigger] gaps[i]).entry_point == ep && gaps[i].crate_name == name && gaps[i].feature
            == feature
}

/// Whether entry point `k` is built with a feature that a crate of the
/// workspace defines, the crate is in its resolved tree, and the resolver
/// did not enable the feature for it.
pub open spec fn feature_not_propagated(
    eps: Seq<EntryPointModel>,
    runs: Seq<SetMap>,
    crates: Seq<CrateModel>,
    k: int,
    name: Seq<char>,
    feature: Seq<char>,
) -> bool {
    &&& 0 <= k < eps.len()
    &&& runs[k].contains_key(name)
    &&& defines_feature(crates, name, feature)
    &&& eps[k].1.contains(feature)
    &&& !runs[k][name].contains(feature)
}

/// Over a whole configuration, a gap is reported for an entry point, a crate
/// and a feature exactly when some entry point of that package is built with
/// the feature, the crate defines it and is in that entry point's resolved
/// tree, and the resolver did not enable it there; as long as crate and
/// feature names hold no `:` (the gaps are told apart by a key that joins
/// the three names with `::`).
pub proof fn law_gaps_are_exactly_the_missing_features(
    eps: Seq<EntryPointModel>,
    runs: Seq<SetMap>,
    crates: Seq<CrateModel>,
    ep: Seq<char>,
    name: Seq<char>,
    feature: Seq<char>,
)
    requires
        eps.len() == runs.len(),
        workspace_names_colon_free(crates),
    ensures
        reports_gap_of(propagation_run(eps, runs, crates), ep, name, feature) <==> exists|k: int|
            #[trigger] feature_not_propagated(eps, runs, crates, k, name, feature) && eps[k].0 == ep,
{
    let r = propagation_run(eps, runs, crates);
    law_whole_propagation_run(eps, runs, crates);
    if reports_gap_of(r, ep, name, feature) {
        let i = choose|i: int|
            0 <= i < r.len() && (#[trigger] r[i]).entry_point == ep && r[i].crate_name == name && r[i].feature == feature;
        let k = choose|k: int| 0 <= k < eps.len() && entry_point_gaps(eps[k].0, eps[k].1, crates, runs[k]).contains(#[trigger] r[i]);
        let g = entry_point_gaps(eps[k].0, eps[k].1, crates, runs[k]);
        law_gap_reported_iff_not_propagated(eps[k].0, eps[k].1, crates, runs[k], name, feature);
        let j = choose|j: int| 0 <= j < g.len() && g[j] == r[i];
        assert(reports_gap(g, name, feature));
        assert(feature_not_propagated(eps, runs, crates, k, name, feature));
    }
    if exists|k: int| #[trigger] feature_not_propagated(eps, runs, crates, k, name, feature) && eps[k].0 == ep {
        let k = choose|k: int| #[trigger] feature_not_propagated(eps, runs, crates, k, name, feature) && eps[k].0 == ep;
        let g = entry_point_gaps(eps[k].0, eps[k].1, crates, runs[k]);
        law_gap_reported_iff_not_propagated(eps[k].0, eps[k].1, crates, runs[k], name, feature);
        assert(runs[k] != Map::<Seq<char>, Set<Seq<char>>>::empty()) by {
            assert(runs[k].dom().contains(name));
        }
        let j = choose|j: int| 0 <= j < g.len() && (#[trigger] g[j]).crate_name == name && g[j].feature == feature;
        assert(gap_keys(r).contains(gap_key(g[j])));
        let a = choose|a: int| 0 <= a < gap_keys(r).len() && gap_keys(r)[a] == gap_key(g[j]);
        assert(gap_key(r[a]) == gap_key(g[j]));
        let k2 = choose|k2: int| 0 <= k2 < eps.len() && entry_point_gaps(eps[k2].0, eps[k2].1, crates, runs[k2]).contains(#[trigger] r[a]);
        let g2 = entry_point_gaps(eps[k2].0, eps[k2].1, crates, runs[k2]);
        law_gap_reported_iff_not_propagated(eps[k2].0, eps[k2].1, crates, runs[k2], r[a].crate_name, r[a].feature);
        let j2 = choose|j2: int| 0 <= j2 < g2.len() && g2[j2] == r[a];
        assert(reports_gap(g2, r[a].crate_name, r[a].feature));
        let (c, d) = choose|c: int, d: int|
            0 <= c < crates.len() && 0 <= d < crates[c].1.len() && (#[trigger] crates[c]).0 == r[a].crate_name && (
            #[trigger] crates[c].1[d]).0 == r[a].feature;
        let (c1, d1) = choose|c: int, d: int|
            0 <= c < crates.len() && 0 <= d < crates[c].1.len() && (#[trigger] crates[c]).0 == name && (
            #[trigger] crates[c].1[d]).0 == feature;
        lemma_gap_key_parts(r[a], g[j]);
        assert(g[j].entry_point == ep);
        assert(reports_gap_of(r, ep, name, feature));
    }
}

/// Whether a gap of a crate's definitions is what one of them gives: a
/// requested feature that the crate defines, with its full definition, not
/// among the features active for the crate.
pub open spec fn gap_of_definition(
    package: Seq<char>,
    requested: Seq<Seq<char>>,
    name: Seq<char>,
    defs: Seq<FeatureDef>,
    active: Set<Seq<char>>,
    g: GapModel,
) -> bool {
    &&& exists|d: int| 0 <= d < defs.len() && #[trigger] defs[d] == (g.feature, g.feature_content)
    &&& g.crate_name == name
    &&& g.entry_point == package
    &&& g.entry_features == requested
    &&& requested.contains(g.feature)
    &&& !active.contains(g.feature)
}

proof fn lemma_crate_gaps_carry_definitions(
    package: Seq<char>,
    requested: Seq<Seq<char>>,
    name: Seq<char>,
    defs: Seq<FeatureDef>,
    active: Set<Seq<char>>,
)
    ensures
        forall|i: int| 0 <= i < crate_gaps(package, requested, name, defs, active).len() ==> gap_of_definition(
            package,
            requested,
            name,
            defs,
            active,
            #[trigger] crate_gaps(package, requested, name, defs, active)[i],
        ),
    decreases defs.len(),
{
    if defs.len() > 0 {
        let prev = defs.drop_last();
        lemma_crate_gaps_carry_definitions(package, requested, name, prev, active);
        let rest = crate_gaps(package, requested, name, prev, active);
        let g = crate_gaps(package, requested, name, defs, active);
        assert forall|i: int| 0 <= i < g.len() implies gap_of_definition(package, requested, name, defs, active, #[trigger] g[i]) by {
            if i < rest.len() {
                assert(g[i] == rest[i]);
                assert(gap_of_definition(package, requested, name, prev, active, rest[i]));
                let d = choose|d: int| 0 <= d < prev.len() && #[trigger] prev[d] == (rest[i].feature, rest[i].feature_content);
                assert(defs[d] == prev[d]);
            } else {
                let d = defs.len() - 1;
                assert(defs[d] == defs.last());
                assert(defs[d] == (g[i].feature, g[i].feature_content));
            }
        }
    }
}

/// Whether a gap of an entry point is what a crate of the workspace gives:
/// the crate is in the resolved tree, defines a requested feature that the
/// resolver did not enable for it, and the gap carries that feature's full
/// definition and names the entry point and its features.
pub open spec fn gap_of_workspace(
    package: Seq<char>,
    requested: Seq<Seq<char>>,
    crates: Seq<CrateModel>,
    resolved: SetMap,
    g: GapModel,
) -> bool {
    &&& exists|c: int, d: int|
        0 <= c < crates.len() && 0 <= d < crates[c].1.len() && #[trigger] crates[c].0 == g.crate_name && #[trigger] crates[c].1[d]
            == (g.feature, g.feature_content)
    &&& resolved.contains_key(g.crate_name)
    &&& !resolved[g.crate_name].contains(g.feature)
    &&& requested.contains(g.feature)
    &&& g.entry_point == package
    &&& g.entry_features == requested
}

/// Every gap of an entry point carries the full definition of its feature in
/// the crate that defines it, for a requested feature that the resolver did
/// not enable for a crate of the resolved tree.
pub proof fn law_each_gap_carries_its_definition(
    package: Seq<char>,
    requested: Seq<Seq<char>>,
    crates: Seq<CrateModel>,
    resolved: SetMap,
)
    ensures
        forall|i: int| 0 <= i < entry_point_gaps(package, requested, crates, resolved).len() ==> gap_of_workspace(
            package,
            requested,
            crates,
            resolved,
            #[trigger] entry_point_gaps(package, requested, crates, resolved)[i],
        ),
    decreases crates.len(),
{
    if crates.len() > 0 {
        let pc = crates.drop_last();
        law_each_gap_carries_its_definition(package, requested, pc, resolved);
        let prev = entry_point_gaps(package, requested, pc, resolved);
        let g = entry_point_gaps(package, requested, crates, resolved);
        let last = crates.len() - 1;
        let c = crates.last();
        assert(crates[last] == c);
        if resolved.contains_key(c.0) {
            let cg = crate_gaps(package, requested, c.0, c.1, resolved[c.0]);
            lemma_crate_gaps_carry_definitions(package, requested, c.0, c.1, resolved[c.0]);
            assert(g == prev + cg);
            assert forall|i: int| 0 <= i < g.len() implies gap_of_workspace(package, requested, crates, resolved, #[trigger] g[i]) by {
                if i < prev.len() {
                    assert(g[i] == prev[i]);
                    assert(gap_of_workspace(package, requested, pc, resolved, prev[i]));
                    let (a, b) = choose|a: int, b: int|
                        0 <= a < pc.len() && 0 <= b < pc[a].1.len() && #[trigger] pc[a].0 == prev[i].crate_name && #[trigger] pc[a].1[b]
                            == (prev[i].feature, prev[i].feature_content);
                    assert(crates[a] == pc[a]);
                } else {
                    assert(g[i] == cg[i - prev.len()]);
                    assert(gap_of_definition(package, requested, c.0, c.1, resolved[c.0], cg[i - prev.len()]));
                    let d = choose|d: int| 0 <= d < c.1.len() && #[trigger] c.1[d] == (g[i].feature, g[i].feature_content);
                    assert(crates[last].1[d] == c.1[d]);
                }
            }
        } else {
            assert(g == prev);
            assert forall|i: int| 0 <= i < g.len() implies gap_of_workspace(package, requested, crates, resolved, #[trigger] g[i]) by {
                assert(gap_of_workspace(package, requested, pc, resolved, prev[i]));
                let (a, b) = choose|a: int, b: int|
                    0 <= a < pc.len() && 0 <= b < pc[a].1.len() && #[trigger] pc[a].0 == prev[i].crate_name && #[trigger] pc[a].1[b]
                        == (prev[i].feature, prev[i].feature_content);
                assert(crates[a] == pc[a]);
            }
        }
    }
}

/// A run over the first entry points reads only their own builds.
proof fn lemma_run_ignores_later_runs(eps: Seq<EntryPointModel>, runs: Seq<SetMap>, shorter: Seq<SetMap>, crates: Seq<CrateModel>)
    requires
        eps.len() <= shorter.len() <= runs.len(),
        forall|k: int| 0 <= k < shorter.len() ==> #[trigger] shorter[k] == runs[k],
    ensures
        propagation_run(eps, runs, crates) == propagation_run(eps, shorter, crates),
    decreases eps.len(),
{
    if eps.len() > 0 {
        lemma_run_ignores_later_runs(eps.drop_last(), runs, shorter, crates);
        assert(shorter[eps.len() - 1] == runs[eps.len() - 1]);
    }
}

} // verus!
