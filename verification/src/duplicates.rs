//! Check 3: dependencies present in more than one version.
use vstd::prelude::*;
use crate::order::{sort_strings, strictly_sorted};
use crate::pattern::{Pattern, PatternError, pattern_captures, regex_captures, regex_compiles};
use crate::report::DuplicateDep;
use crate::text::{chars_of, lines_of, split_lines, string_from_chars};
use crate::tree::{NameSets, SetMap, UnreadableLine, features_of, lemma_collect_step};

verus! {

broadcast use vstd::string::group_string_axioms;

/// What one line of `cargo tree -d` adds, given the capture groups of its
/// match: a line that does not match adds nothing; a match records the
/// version of group 2 for the dependency of group 1; a match without group 1
/// or 2 is not readable (`None`).
pub open spec fn apply_version_captures(m: SetMap, caps: Option<Seq<Option<Seq<char>>>>) -> Option<SetMap> {
    match caps {
        None => Some(m),
        Some(groups) => {
            if groups.len() > 2 && groups[1] is Some && groups[2] is Some {
                let name = groups[1]->0;
                Some(m.insert(name, features_of(m, name).insert(groups[2]->0)))
            } else {
                None
            }
        },
    }
}

/// The versions seen per dependency over all lines, read in order; `None`
/// when a line is not readable.
pub open spec fn versions_from_lines(lines: Seq<Seq<char>>, re: Seq<char>) -> Option<SetMap>
    decreases lines.len(),
{
    if lines.len() == 0 {
        Some(Map::empty())
    } else {
        match versions_from_lines(lines.drop_last(), re) {
            Some(m) => apply_version_captures(m, regex_captures(re, lines.last())),
            None => None,
        }
    }
}

/// The versions seen per dependency in the whole output.
pub open spec fn dependency_versions(output: Seq<char>, re: Seq<char>) -> Option<SetMap> {
    versions_from_lines(lines_of(output), re)
}

/// Whether a dependency was seen in more than one version.
pub open spec fn is_duplicate(m: SetMap, name: Seq<char>) -> bool {
    m.contains_key(name) && m[name].len() > 1
}

/// The duplicates of a map of versions, exactly: in increasing order of
/// name, each with its versions in increasing order.
pub open spec fn duplicates_match(r: Seq<DuplicateDep>, m: SetMap) -> bool {
    &&& strictly_sorted(r.map_values(|d: DuplicateDep| d.name@))
    &&& forall|i: int| 0 <= i < r.len() ==> {
        &&& is_duplicate(m, (#[trigger] r[i]).name@)
        &&& strictly_sorted(r[i].versions.deep_view())
        &&& r[i].versions.deep_view().to_set() == m[r[i].name@]
    }
    &&& forall|name: Seq<char>| is_duplicate(m, name) ==> exists|i: int| 0 <= i < r.len() && (#[trigger] r[i]).name@ == name
}

impl NameSets {
    /// Records what one line of `cargo tree -d` adds, given the capture
    /// groups of its match (see `apply_version_captures`).
    pub fn record_version_captures(&mut self, caps: Option<Vec<Option<String>>>) -> (r: Result<(), UnreadableLine>)
        ensures
            r is Ok <==> apply_version_captures(old(self)@, caps.deep_view()) is Some,
            r is Ok ==> final(self)@ == apply_version_captures(old(self)@, caps.deep_view())->0,
    {
        match caps {
            None => Ok(()),
            Some(groups) => {
                if groups.len() > 2 {
                    match (&groups[1], &groups[2]) {
                        (Some(name), Some(version)) => {
                            let mut one: Vec<String> = Vec::new();
                            one.push(version.clone());
                            let ghost pre = self@;
                            self.add_features(name.clone(), &one);
                            assert(one.deep_view() =~= seq![version@]);
                            assert(seq![version@].to_set() =~= Set::<Seq<char>>::empty().insert(version@)) by {
                                assert(seq![version@][0] == version@);
                            }
                            assert(features_of(pre, name@) + one.deep_view().to_set() =~= features_of(pre, name@).insert(version@));
                            Ok(())
                        },
                        _ => Err(UnreadableLine),
                    }
                } else {
                    Err(UnreadableLine)
                }
            },
        }
    }
}

/// The pattern of a line of `cargo tree -d --depth=0`: the dependency's
/// name (group 1) and its version (group 2).
pub fn duplicate_line_pattern() -> (r: Result<Pattern, PatternError>)
    ensures
        r is Ok <==> regex_compiles(r"^(\S+) v([\d.]+\S*)"@),
        r matches Ok(p) ==> p@ == r"^(\S+) v([\d.]+\S*)"@,
{
    Pattern::new(r"^(\S+) v([\d.]+\S*)")
}

/// Reads the versions seen per dependency from the output of
/// `cargo tree -d --depth=0`: a line that `re` matches names a dependency
/// (group 1) and a version of it (group 2).
pub fn parse_dependency_versions(stdout: &str, re: &Pattern) -> (r: Result<NameSets, UnreadableLine>)
    ensures
        r is Ok <==> dependency_versions(stdout@, re@) is Some,
        r matches Ok(v) ==> v@ == dependency_versions(stdout@, re@)->0,
{
    let chars = chars_of(stdout);
    let lines = split_lines(chars.as_slice());
    let mut versions = NameSets::new();
    let mut i: usize = 0;
    while i < lines.len()
        invariant
            i <= lines@.len(),
            lines.deep_view() == lines_of(stdout@),
            versions_from_lines(lines.deep_view().take(i as int), re@) == Some(versions@),
        decreases lines@.len() - i,
    {
        let line = string_from_chars(lines[i].as_slice());
        let caps = pattern_captures(re, line.as_str());
        assert(lines.deep_view().take(i + 1).drop_last() == lines.deep_view().take(i as int));
        assert(lines[i as int].deep_view() =~= lines[i as int]@);
        match versions.record_version_captures(caps) {
            Ok(()) => {},
            Err(e) => {
                proof {
                    lemma_versions_none_extends(lines.deep_view(), i as int + 1, re@);
                }
                return Err(e);
            },
        }
        i += 1;
    }
    assert(lines.deep_view().take(lines@.len() as int) == lines.deep_view());
    Ok(versions)
}

proof fn lemma_versions_none_extends(lines: Seq<Seq<char>>, k: int, re: Seq<char>)
    requires
        0 <= k <= lines.len(),
        versions_from_lines(lines.take(k), re) is None,
    ensures
        versions_from_lines(lines, re) is None,
    decreases lines.len() - k,
{
    if k == lines.len() {
        assert(lines.take(k) == lines);
    } else {
        assert(lines.take(k + 1).drop_last() == lines.take(k));
        lemma_versions_none_extends(lines, k + 1, re);
    }
}

/// The dependencies seen in more than one version, in increasing order of
/// name, each with its versions in increasing order.
pub fn duplicate_deps(versions: &NameSets) -> (r: Vec<DuplicateDep>)
    ensures
        duplicates_match(r@, versions@),
{
    let m = Ghost(versions@);
    let entries = versions.entries();
    let ghost keys = entries@.map_values(|e: (String, Vec<String>)| e.0@);
    let mut names: Vec<String> = Vec::new();
    let mut i: usize = 0;
    while i < entries.len()
        invariant
            i <= entries@.len(),
            m@ == versions@,
            keys == entries@.map_values(|e: (String, Vec<String>)| e.0@),
            forall|a: int| 0 <= a < entries@.len() ==> m@.contains_key(#[trigger] entries@[a].0@)
                && m@[entries@[a].0@] == entries@[a].1.deep_view().to_set() && entries@[a].1.deep_view().no_duplicates(),
            forall|k: Seq<char>| m@.contains_key(k) ==> exists|a: int| 0 <= a < entries@.len() && #[trigger] entries@[a].0@ == k,
            forall|a: int, b: int| 0 <= a < b < entries@.len() ==> entries@[a].0@ != entries@[b].0@,
            names.deep_view().no_duplicates(),
            forall|k: Seq<char>| #[trigger] names.deep_view().contains(k) <==> exists|a: int| 0 <= a < i && keys[a] == k
                && is_duplicate(m@, keys[a]),
        decreases entries@.len() - i,
    {
        proof {
            assert(m@.contains_key(entries@[i as int].0@));
            entries@[i as int].1.deep_view().unique_seq_to_set();
            assert(keys[i as int] == entries@[i as int].0@);
        }
        let ghost before = names.deep_view();
        if entries[i].1.len() > 1 {
            names.push(entries[i].0.clone());
        }
        proof {
            assert forall|a: int, b: int| 0 <= a < b < keys.len() implies keys[a] != keys[b] by {
                assert(keys[a] == entries@[a].0@ && keys[b] == entries@[b].0@);
            }
            let p = |a: int| is_duplicate(m@, keys[a]);
            assert(names.deep_view() =~= (if p(i as int) { before.push(keys[i as int]) } else { before }));
            lemma_collect_step(before, names.deep_view(), keys, i as int, p);
        }
        i += 1;
    }
    assert forall|k: Seq<char>| #[trigger] names.deep_view().contains(k) <==> is_duplicate(m@, k) by {
        if is_duplicate(m@, k) {
            let a = choose|a: int| 0 <= a < entries@.len() && #[trigger] entries@[a].0@ == k;
            assert(keys[a] == k);
        }
    }
    let sorted = sort_strings(names);
    let mut r: Vec<DuplicateDep> = Vec::new();
    let mut j: usize = 0;
    while j < sorted.len()
        invariant
            j <= sorted@.len(),
            m@ == versions@,
            strictly_sorted(sorted.deep_view()),
            forall|k: Seq<char>| #[trigger] sorted.deep_view().to_set().contains(k) <==> is_duplicate(m@, k),
            r@.len() == j,
            forall|a: int| 0 <= a < j ==> (#[trigger] r@[a]).name@ == sorted.deep_view()[a],
            forall|a: int| 0 <= a < j ==> {
                &&& is_duplicate(m@, (#[trigger] r@[a]).name@)
                &&& strictly_sorted(r@[a].versions.deep_view())
                &&& r@[a].versions.deep_view().to_set() == m@[r@[a].name@]
            },
        decreases sorted@.len() - j,
    {
        let name = &sorted[j];
        assert(sorted.deep_view().to_set().contains(name@)) by {
            assert(sorted.deep_view()[j as int] == name@);
        }
        let list = match versions.get(name.as_str()) {
            Some(list) => list,
            None => {
                assert(false);
                return r;
            },
        };
        let mut copy: Vec<String> = Vec::new();
        let mut t: usize = 0;
        while t < list.len()
            invariant
                t <= list@.len(),
                copy.deep_view() == list.deep_view().take(t as int),
            decreases list@.len() - t,
        {
            let ghost before = copy.deep_view();
            copy.push(list[t].clone());
            assert(copy.deep_view() =~= before.push(list[t as int]@));
            assert(list.deep_view().take(t + 1) =~= list.deep_view().take(t as int).push(list[t as int]@));
            t += 1;
        }
        assert(list.deep_view().take(list@.len() as int) =~= list.deep_view());
        let ordered = sort_strings(copy);
        let ghost before = r@;
        r.push(DuplicateDep { name: name.clone(), versions: ordered });
        assert forall|a: int| 0 <= a < j + 1 implies (#[trigger] r@[a]).name@ == sorted.deep_view()[a] by {
            if a < j {
                assert(r@[a] == before[a]);
            }
        }
        assert forall|a: int| 0 <= a < j + 1 implies {
            &&& is_duplicate(m@, (#[trigger] r@[a]).name@)
            &&& strictly_sorted(r@[a].versions.deep_view())
            &&& r@[a].versions.deep_view().to_set() == m@[r@[a].name@]
        } by {
            if a < j {
                assert(r@[a] == before[a]);
            }
        }
        j += 1;
    }
    proof {
        let names_seq = r@.map_values(|d: DuplicateDep| d.name@);
        assert(names_seq =~= sorted.deep_view());
        assert forall|name: Seq<char>| is_duplicate(m@, name) implies exists|i: int| 0 <= i < r@.len() && (#[trigger] r@[i]).name@ == name by {
            assert(sorted.deep_view().to_set().contains(name));
            let a = choose|a: int| 0 <= a < sorted.deep_view().len() && sorted.deep_view()[a] == name;
            assert(r@[a].name@ == name);
        }
    }
    r
}

/// The dependencies of the output of `cargo tree -d --depth=0` seen in more
/// than one version.
pub fn find_duplicate_deps(stdout: &str, re: &Pattern) -> (r: Result<Vec<DuplicateDep>, UnreadableLine>)
    ensures
        r is Ok <==> dependency_versions(stdout@, re@) is Some,
        r matches Ok(d) ==> duplicates_match(d@, dependency_versions(stdout@, re@)->0),
{
    let versions = parse_dependency_versions(stdout, re)?;
    Ok(duplicate_deps(&versions))
}

/// The duplicate dependencies of a run of `cargo tree -d --depth=0`:
/// `None` when the run failed without printing anything (there is nothing
/// to report on), otherwise those of what it printed.
pub fn duplicates_from_tree_run(succeeded: bool, stdout: &str, re: &Pattern) -> (r: Result<
    Option<Vec<DuplicateDep>>,
    UnreadableLine,
>)
    ensures
        !succeeded && stdout@.len() == 0 ==> r matches Ok(None),
        succeeded || stdout@.len() > 0 ==> {
            &&& r is Ok <==> dependency_versions(stdout@, re@) is Some
            &&& r matches Ok(d) ==> (d matches Some(d) && duplicates_match(d@, dependency_versions(stdout@, re@)->0))
        },
{
    if !succeeded && stdout.is_empty() {
        Ok(None)
    } else {
        let d = find_duplicate_deps(stdout, re)?;
        Ok(Some(d))
    }
}

/// Whether line `i` matches with group 1 naming a dependency and group 2 a
/// version of it.
pub open spec fn line_gives_version(lines: Seq<Seq<char>>, re: Seq<char>, i: int, name: Seq<char>, v: Seq<char>) -> bool {
    &&& 0 <= i < lines.len()
    &&& regex_captures(re, lines[i]) matches Some(g)
    &&& g.len() > 2
    &&& g[1] == Some(name)
    &&& g[2] == Some(v)
}

/// Whether line `i` matches without group 1 or group 2.
pub open spec fn line_unreadable_version(lines: Seq<Seq<char>>, re: Seq<char>, i: int) -> bool {
    &&& 0 <= i < lines.len()
    &&& regex_captures(re, lines[i]) matches Some(g)
    &&& !(g.len() > 2 && g[1] is Some && g[2] is Some)
}

proof fn lemma_versions_are_every_line(lines: Seq<Seq<char>>, re: Seq<char>, name: Seq<char>, v: Seq<char>)
    ensures
        versions_from_lines(lines, re) is None <==> exists|i: int| #[trigger] line_unreadable_version(lines, re, i),
        versions_from_lines(lines, re) matches Some(m) ==> {
            &&& (m.contains_key(name) && m[name].contains(v)) <==> exists|i: int| #[trigger] line_gives_version(lines, re, i, name, v)
            &&& m.contains_key(name) <==> exists|i: int, w: Seq<char>| #[trigger] line_gives_version(lines, re, i, name, w)
        },
    decreases lines.len(),
{
    if lines.len() == 0 {
        return;
    }
    let prev = lines.drop_last();
    let last = lines.len() - 1;
    lemma_versions_are_every_line(prev, re, name, v);
    assert(lines.last() == lines[last]);
    assert forall|i: int| 0 <= i < last implies #[trigger] prev[i] == lines[i] by {}
    assert forall|i: int| #[trigger] line_unreadable_version(prev, re, i) <==> (i != last && line_unreadable_version(lines, re, i)) by {
        if 0 <= i < last {
            assert(prev[i] == lines[i]);
        }
    }
    assert forall|i: int, w: Seq<char>| #[trigger] line_gives_version(prev, re, i, name, w) <==> (i != last
        && line_gives_version(lines, re, i, name, w)) by {
        if 0 <= i < last {
            assert(prev[i] == lines[i]);
        }
    }
    match versions_from_lines(prev, re) {
        None => {
            let i = choose|i: int| #[trigger] line_unreadable_version(prev, re, i);
            assert(line_unreadable_version(lines, re, i));
        },
        Some(m0) => {
            assert(!exists|i: int| #[trigger] line_unreadable_version(prev, re, i));
            let caps = regex_captures(re, lines[last]);
            if line_unreadable_version(lines, re, last) {
                assert(versions_from_lines(lines, re) is None);
            } else {
                assert forall|i: int| !#[trigger] line_unreadable_version(lines, re, i) by {
                    if i != last {
                        assert(!line_unreadable_version(prev, re, i));
                    }
                }
                let m = versions_from_lines(lines, re)->0;
                match caps {
                    None => {
                        assert(m == m0);
                        assert forall|w: Seq<char>| !#[trigger] line_gives_version(lines, re, last, name, w) by {}
                        if exists|i: int, w: Seq<char>| #[trigger] line_gives_version(lines, re, i, name, w) {
                            let (i, w) = choose|i: int, w: Seq<char>| #[trigger] line_gives_version(lines, re, i, name, w);
                            assert(line_gives_version(prev, re, i, name, w));
                        }
                        if exists|i: int| #[trigger] line_gives_version(lines, re, i, name, v) {
                            let i = choose|i: int| #[trigger] line_gives_version(lines, re, i, name, v);
                            assert(line_gives_version(prev, re, i, name, v));
                        }
                        if exists|i: int, w: Seq<char>| #[trigger] line_gives_version(prev, re, i, name, w) {
                            let (i, w) = choose|i: int, w: Seq<char>| #[trigger] line_gives_version(prev, re, i, name, w);
                            assert(line_gives_version(lines, re, i, name, w));
                        }
                        if exists|i: int| #[trigger] line_gives_version(prev, re, i, name, v) {
                            let i = choose|i: int| #[trigger] line_gives_version(prev, re, i, name, v);
                            assert(line_gives_version(lines, re, i, name, v));
                        }
                    },
                    Some(g) => {
                        let n = g[1]->0;
                        let ver = g[2]->0;
                        assert(m == m0.insert(n, features_of(m0, n).insert(ver)));
                        assert(line_gives_version(lines, re, last, n, ver));
                        if exists|i: int, w: Seq<char>| #[trigger] line_gives_version(lines, re, i, name, w) {
                            let (i, w) = choose|i: int, w: Seq<char>| #[trigger] line_gives_version(lines, re, i, name, w);
                            if i != last {
                                assert(line_gives_version(prev, re, i, name, w));
                            }
                        }
                        if exists|i: int, w: Seq<char>| #[trigger] line_gives_version(prev, re, i, name, w) {
                            let (i, w) = choose|i: int, w: Seq<char>| #[trigger] line_gives_version(prev, re, i, name, w);
                            assert(line_gives_version(lines, re, i, name, w));
                        }
                        if exists|i: int| #[trigger] line_gives_version(lines, re, i, name, v) {
                            let i = choose|i: int| #[trigger] line_gives_version(lines, re, i, name, v);
                            if i != last {
                                assert(line_gives_version(prev, re, i, name, v));
                            }
                        }
                        if exists|i: int| #[trigger] line_gives_version(prev, re, i, name, v) {
                            let i = choose|i: int| #[trigger] line_gives_version(prev, re, i, name, v);
                            assert(line_gives_version(lines, re, i, name, v));
                        }
                    },
                }
            }
        },
    }
}

/// The versions recorded for a dependency are exactly those that group 2
/// captures on the lines of the output whose group 1 names it, every line
/// being read, whatever lines (blank ones too) stand between them; the
/// reading fails exactly when some line matches without group 1 or 2.
pub proof fn law_every_line_of_the_output_is_read(output: Seq<char>, re: Seq<char>, name: Seq<char>, v: Seq<char>)
    ensures
        dependency_versions(output, re) is None <==> exists|i: int| #[trigger] line_unreadable_version(lines_of(output), re, i),
        dependency_versions(output, re) matches Some(m) ==> {
            &&& (m.contains_key(name) && m[name].contains(v)) <==> exists|i: int|
                #[trigger] line_gives_version(lines_of(output), re, i, name, v)
            &&& m.contains_key(name) <==> exists|i: int, w: Seq<char>| #[trigger] line_gives_version(lines_of(output), re, i, name, w)
        },
{
    lemma_versions_are_every_line(lines_of(output), re, name, v);
}

} // verus!
