//! Reading the output of `cargo tree -e features -f "{p} [{f}]"`: for each
//! crate, the set of features the resolver enabled for it.
use vstd::prelude::*;
use crate::pattern::{Pattern, PatternError, pattern_captures, pattern_replace_first, regex_captures, regex_compiles, regex_replace_first};
use crate::text::{chars_of, lemma_lines_of_joined, lemma_lines_of_joined_after_line_end, lines_of, split_at_char, split_chars, split_lines, string_from_chars, trim, trim_chars};

verus! {

broadcast use vstd::string::group_string_axioms;

/// Names mapped to sets of strings: the crates of a tree and the features
/// enabled for each of them, or dependencies and their versions.
pub type SetMap = Map<Seq<char>, Set<Seq<char>>>;

/// The features named in a comma-separated list: each item trimmed, empty
/// items left out.
pub open spec fn feature_names(list: Seq<char>) -> Seq<Seq<char>> {
    trimmed_nonempty(split_at_char(list, ','))
}

/// The trimmed pieces that are not empty, in order.
pub open spec fn trimmed_nonempty(pieces: Seq<Seq<char>>) -> Seq<Seq<char>>
    decreases pieces.len(),
{
    if pieces.len() == 0 {
        seq![]
    } else {
        let rest = trimmed_nonempty(pieces.drop_last());
        let t = trim(pieces.last());
        if t.len() > 0 {
            rest.push(t)
        } else {
            rest
        }
    }
}

/// The strings already recorded for a name, none if it was not seen.
pub open spec fn features_of(m: SetMap, name: Seq<char>) -> Set<Seq<char>> {
    if m.contains_key(name) {
        m[name]
    } else {
        Set::empty()
    }
}

/// What one line of the tree adds, given the capture groups of its match:
/// a line that does not match adds nothing; a match records the crate of
/// group 1 with the features listed in group 2, merged with those already
/// seen for it; a match without group 1 or 2 is not readable (`None`).
pub open spec fn apply_captures(m: SetMap, caps: Option<Seq<Option<Seq<char>>>>) -> Option<
    SetMap,
> {
    match caps {
        None => Some(m),
        Some(groups) => {
            if groups.len() > 2 && groups[1] is Some && groups[2] is Some {
                let name = groups[1]->0;
                Some(
                    m.insert(
                        name,
                        features_of(m, name) + feature_names(groups[2]->0).to_set(),
                    ),
                )
            } else {
                None
            }
        },
    }
}

/// The capture groups of a line once the drawing prefix is removed.
pub open spec fn line_captures(re: Seq<char>, prefix_re: Seq<char>, line: Seq<char>) -> Option<
    Seq<Option<Seq<char>>>,
> {
    regex_captures(re, regex_replace_first(prefix_re, line, seq![]))
}

/// The features of all lines, read in order; `None` when a line is not
/// readable.
pub open spec fn resolve_lines(lines: Seq<Seq<char>>, re: Seq<char>, prefix_re: Seq<char>) -> Option<
    SetMap,
>
    decreases lines.len(),
{
    if lines.len() == 0 {
        Some(Map::empty())
    } else {
        match resolve_lines(lines.drop_last(), re, prefix_re) {
            Some(m) => apply_captures(m, line_captures(re, prefix_re, lines.last())),
            None => None,
        }
    }
}

/// The features enabled per crate, read from the whole output.
pub open spec fn resolve_output(output: Seq<char>, re: Seq<char>, prefix_re: Seq<char>) -> Option<
    SetMap,
> {
    resolve_lines(lines_of(output), re, prefix_re)
}

/// A line matched the pattern, but group 1 or group 2 took no part in the
/// match.
#[derive(Debug)]
pub struct UnreadableLine;

/// Names, each mapped to a set of strings: for each crate seen in a tree,
/// the features enabled for it (or, for dependencies, the versions seen).
pub struct NameSets {
    entries: Vec<(String, Vec<String>)>,
}

impl View for NameSets {
    type V = SetMap;

    /// Each recorded name, mapped to the set of its strings.
    closed spec fn view(&self) -> SetMap {
        Map::new(|k: Seq<char>| self.has_name(k), |k: Seq<char>| self.features_at(self.position(k)).to_set())
    }
}

impl NameSets {
    pub closed spec fn name_at(self, i: int) -> Seq<char> {
        self.entries@[i].0@
    }

    pub closed spec fn features_at(self, i: int) -> Seq<Seq<char>> {
        self.entries@[i].1.deep_view()
    }

    pub closed spec fn len_spec(self) -> nat {
        self.entries@.len()
    }

    /// Each name occurs once, and so does each of its strings.
    #[verifier::type_invariant]
    pub closed spec fn wf(self) -> bool {
        &&& forall|i: int, j: int|
            0 <= i < self.len_spec() && 0 <= j < self.len_spec() && i != j ==> self.name_at(i)
                != self.name_at(j)
        &&& forall|i: int| 0 <= i < self.len_spec() ==> (#[trigger] self.features_at(i)).no_duplicates()
    }

    pub closed spec fn has_name(self, k: Seq<char>) -> bool {
        exists|i: int| 0 <= i < self.len_spec() && self.name_at(i) == k
    }

    pub closed spec fn position(self, k: Seq<char>) -> int {
        choose|i: int| 0 <= i < self.len_spec() && self.name_at(i) == k
    }

    /// No name recorded yet.
    pub fn new() -> (r: Self)
        ensures
            r@ == Map::<Seq<char>, Set<Seq<char>>>::empty(),
    {
        let r = NameSets { entries: Vec::new() };
        assert(r@ =~= Map::<Seq<char>, Set<Seq<char>>>::empty());
        r
    }

    proof fn lemma_position(self, i: int)
        requires
            self.wf(),
            0 <= i < self.len_spec(),
        ensures
            self.has_name(self.name_at(i)),
            self.position(self.name_at(i)) == i,
    {
        assert(self.has_name(self.name_at(i)));
    }

    /// The number of names recorded.
    pub fn len(&self) -> (n: usize)
        ensures
            n == self@.dom().len(),
    {
        proof {
            use_type_invariant(self);
        }
        proof {
            self.lemma_dom_len();
        }
        self.entries.len()
    }

    proof fn lemma_dom_len(self)
        requires
            self.wf(),
        ensures
            self@.dom().len() == self.len_spec(),
            self@.dom().finite(),
    {
        let names = Seq::new(self.len_spec(), |i: int| self.name_at(i));
        assert(names.no_duplicates());
        names.unique_seq_to_set();
        assert(self@.dom() =~= names.to_set()) by {
            assert forall|k: Seq<char>| self@.dom().contains(k) implies names.to_set().contains(k) by {
                let i = self.position(k);
                assert(names[i] == k);
            }
            assert forall|k: Seq<char>| names.to_set().contains(k) implies self@.dom().contains(k) by {
                let i = choose|i: int| 0 <= i < names.len() && names[i] == k;
                assert(self.name_at(i) == k);
            }
        }
    }

    /// Whether no name is recorded.
    pub fn is_empty(&self) -> (b: bool)
        ensures
            b == (self@ == Map::<Seq<char>, Set<Seq<char>>>::empty()),
    {
        proof {
            use_type_invariant(self);
        }
        if self.entries.len() == 0 {
            assert(self@ =~= Map::<Seq<char>, Set<Seq<char>>>::empty());
            true
        } else {
            proof {
                self.lemma_position(0);
                assert(self@.contains_key(self.name_at(0)));
            }
            false
        }
    }

    fn find(&self, name: &String) -> (r: Option<usize>)
        requires
            self.wf(),
        ensures
            r matches Some(i) ==> i < self.len_spec() && self.name_at(i as int) == name@,
            r is None ==> !self.has_name(name@),
    {
        let mut i: usize = 0;
        while i < self.entries.len()
            invariant
                i <= self.len_spec(),
                forall|j: int| 0 <= j < i ==> self.name_at(j) != name@,
            decreases self.len_spec() - i,
        {
            if self.entries[i].0 == *name {
                return Some(i);
            }
            i += 1;
        }
        None
    }

    /// The strings recorded for a name.
    pub fn get(&self, name: &str) -> (r: Option<&Vec<String>>)
        ensures
            r is Some <==> self@.contains_key(name@),
            r matches Some(v) ==> v.deep_view().to_set() == self@[name@] && v.deep_view().no_duplicates(),
    {
        proof {
            use_type_invariant(self);
        }
        let key = name.to_string();
        match self.find(&key) {
            Some(i) => {
                proof {
                    self.lemma_position(i as int);
                }
                Some(&self.entries[i].1)
            },
            None => None,
        }
    }

    /// Whether a string is recorded for a name.
    pub fn has_feature(&self, name: &String, feature: &String) -> (b: bool)
        ensures
            b == (self@.contains_key(name@) && self@[name@].contains(feature@)),
    {
        proof {
            use_type_invariant(self);
        }
        match self.find(name) {
            Some(i) => {
                proof {
                    self.lemma_position(i as int);
                }
                contains_string(&self.entries[i].1, feature)
            },
            None => false,
        }
    }

    /// The names recorded, with their strings.
    pub fn entries(&self) -> (r: &Vec<(String, Vec<String>)>)
        ensures
            forall|i: int| 0 <= i < r@.len() ==> self@.contains_key(#[trigger] r@[i].0@)
                && self@[r@[i].0@] == r@[i].1.deep_view().to_set() && r@[i].1.deep_view().no_duplicates(),
            forall|k: Seq<char>| self@.contains_key(k) ==> exists|i: int| 0 <= i < r@.len() && #[trigger] r@[i].0@ == k,
            forall|i: int, j: int| 0 <= i < j < r@.len() ==> r@[i].0@ != r@[j].0@,
    {
        proof {
            use_type_invariant(self);
        }
        assert forall|i: int| 0 <= i < self.entries@.len() implies self@.contains_key(#[trigger] self.entries@[i].0@)
            && self@[self.entries@[i].0@] == self.entries@[i].1.deep_view().to_set()
            && self.entries@[i].1.deep_view().no_duplicates() by {
            self.lemma_position(i);
            assert(self.features_at(i).no_duplicates());
        }
        assert forall|k: Seq<char>| self@.contains_key(k) implies exists|i: int| 0 <= i < self.entries@.len() && #[trigger] self.entries@[i].0@ == k by {
            let i = self.position(k);
            assert(self.name_at(i) == k);
        }
        assert forall|i: int, j: int| 0 <= i < j < self.entries@.len() implies self.entries@[i].0@ != self.entries@[j].0@ by {
            assert(self.name_at(i) != self.name_at(j));
        }
        &self.entries
    }

    /// Records strings for a name, merged with those already recorded.
    pub fn add_features(&mut self, name: String, features: &Vec<String>)
        ensures
            final(self)@ == old(self)@.insert(
                name@,
                features_of(old(self)@, name@) + features.deep_view().to_set(),
            ),
    {
        proof {
            use_type_invariant(&*self);
        }
        let ghost pre = *self;
        let found = self.find(&name);
        let mut entries: Vec<(String, Vec<String>)> = Vec::new();
        std::mem::swap(&mut entries, &mut self.entries);
        let ghost n = pre.len_spec() as int;
        let ghost target = pre@.insert(name@, features_of(pre@, name@) + features.deep_view().to_set());
        // the slot that holds the name afterwards
        let ghost slot: int;
        match found {
            Some(i) => {
                proof {
                    pre.lemma_position(i as int);
                    slot = i as int;
                }
                assert(pre.features_at(i as int).no_duplicates());
                let merged = merge_unique(&entries[i].1, features);
                entries.set(i, (name, merged));
            },
            None => {
                proof {
                    slot = n;
                    assert(features_of(pre@, name@) == Set::<Seq<char>>::empty());
                    assert(Set::<Seq<char>>::empty() + features.deep_view().to_set() =~= features.deep_view().to_set());
                }
                let empty: Vec<String> = Vec::new();
                let merged = merge_unique(&empty, features);
                entries.push((name, merged));
            },
        }
        let ghost post = NameSets { entries: entries };
        proof {
            assert(0 <= slot < post.len_spec());
            assert(post.name_at(slot) == name@);
            assert(post.features_at(slot).to_set() == target[name@]);
            assert(post.features_at(slot).no_duplicates());
            assert forall|a: int| 0 <= a < post.len_spec() && a != slot implies #[trigger] post.name_at(a)
                == pre.name_at(a) && post.features_at(a) == pre.features_at(a) by {}
            assert forall|a: int, b: int|
                0 <= a < post.len_spec() && 0 <= b < post.len_spec() && a != b implies post.name_at(a)
                    != post.name_at(b) by {
                if a != slot && b != slot {
                    assert(pre.name_at(a) != pre.name_at(b));
                } else if a == slot {
                    if b < n {
                        assert(pre.name_at(b) != name@ || found is Some);
                    }
                } else {
                    if a < n {
                        assert(pre.name_at(a) != name@ || found is Some);
                    }
                }
            }
            assert forall|a: int| 0 <= a < post.len_spec() implies (#[trigger] post.features_at(a)).no_duplicates() by {
                if a != slot {
                    assert(post.features_at(a) == pre.features_at(a));
                }
            }
            assert(post.wf());
            post.lemma_position(slot);
            assert forall|k: Seq<char>| #[trigger] post@.contains_key(k) <==> target.contains_key(k) by {
                if post.has_name(k) {
                    let j = post.position(k);
                    if j != slot {
                        assert(pre.name_at(j) == k);
                    }
                }
                if pre.has_name(k) {
                    let j = pre.position(k);
                    assert(post.name_at(j) == k);
                }
            }
            assert forall|k: Seq<char>| #[trigger] post@.contains_key(k) implies post@[k] == target[k] by {
                let j = post.position(k);
                if j != slot {
                    assert(pre.name_at(j) == k);
                    pre.lemma_position(j);
                    assert(post.features_at(j) == pre.features_at(j));
                }
            }
            assert(post@ =~= target);
        }
        self.entries = entries;
        assert(*self == post);
    }

    /// Records what one line of the tree adds, given the capture groups of
    /// its match (see `apply_captures`).
    pub fn record_captures(&mut self, caps: Option<Vec<Option<String>>>) -> (r: Result<
        (),
        UnreadableLine,
    >)
        ensures
            r is Ok <==> apply_captures(old(self)@, caps.deep_view()) is Some,
            r is Ok ==> final(self)@ == apply_captures(old(self)@, caps.deep_view())->0,
    {
        match caps {
            None => Ok(()),
            Some(groups) => {
                if groups.len() > 2 {
                    match (&groups[1], &groups[2]) {
                        (Some(name), Some(list)) => {
                            let features = parse_feature_list(list.as_str());
                            self.add_features(name.clone(), &features);
                            Ok(())
                        },
                        _ => Err(UnreadableLine),
                    }
                } else {
                    Err(UnreadableLine)
                }
            },
        }
    }
}

/// One step of collecting, in order, the names of the entries that satisfy
/// `p`: after entry `i` the collected names are exactly those of the
/// satisfying entries up to `i`, each once, provided no two entries share a
/// name.
pub(crate) proof fn lemma_collect_step(
    before: Seq<Seq<char>>,
    after: Seq<Seq<char>>,
    keys: Seq<Seq<char>>,
    i: int,
    p: spec_fn(int) -> bool,
)
    requires
        0 <= i < keys.len(),
        forall|a: int, b: int| 0 <= a < b < keys.len() ==> keys[a] != keys[b],
        before.no_duplicates(),
        forall|k: Seq<char>| #[trigger] before.contains(k) <==> exists|a: int| 0 <= a < i && keys[a] == k && p(a),
        after == (if p(i) { before.push(keys[i]) } else { before }),
    ensures
        after.no_duplicates(),
        forall|k: Seq<char>| #[trigger] after.contains(k) <==> exists|a: int| 0 <= a < i + 1 && keys[a] == k && p(a),
{
    if p(i) {
        assert(!before.contains(keys[i])) by {
            if before.contains(keys[i]) {
                let a = choose|a: int| 0 <= a < i && keys[a] == keys[i] && p(a);
                assert(keys[a] != keys[i]);
            }
        }
    }
    assert forall|k: Seq<char>| #[trigger] after.contains(k) <==> exists|a: int| 0 <= a < i + 1 && keys[a] == k && p(a) by {
        if after.contains(k) {
            let j = choose|j: int| 0 <= j < after.len() && after[j] == k;
            if j < before.len() {
                assert(before[j] == k);
                assert(before.contains(k));
                let a = choose|a: int| 0 <= a < i && keys[a] == k && p(a);
                assert(0 <= a < i + 1 && keys[a] == k && p(a));
            } else {
                assert(0 <= i < i + 1 && keys[i] == k && p(i));
            }
        }
        if exists|a: int| 0 <= a < i + 1 && keys[a] == k && p(a) {
            let a = choose|a: int| 0 <= a < i + 1 && keys[a] == k && p(a);
            if a < i {
                assert(before.contains(k));
                let j = choose|j: int| 0 <= j < before.len() && before[j] == k;
                assert(after[j] == k);
            } else {
                assert(after[before.len() as int] == k);
            }
        }
    }
}

/// Whether a list holds a string.
pub fn contains_string(v: &Vec<String>, s: &String) -> (b: bool)
    ensures
        b == v.deep_view().contains(s@),
{
    let mut i: usize = 0;
    while i < v.len()
        invariant
            i <= v@.len(),
            forall|j: int| 0 <= j < i ==> v.deep_view()[j] != s@,
        decreases v@.len() - i,
    {
        if v[i] == *s {
            assert(v.deep_view()[i as int] == s@);
            return true;
        }
        i += 1;
    }
    false
}

/// Appending an item adds it to the set of items.
pub proof fn lemma_push_to_set(s: Seq<Seq<char>>, x: Seq<char>)
    ensures
        s.push(x).to_set() == s.to_set().insert(x),
{
    assert forall|a: Seq<char>| s.push(x).to_set().contains(a) implies s.to_set().insert(x).contains(a) by {
        let i = choose|i: int| 0 <= i < s.push(x).len() && s.push(x)[i] == a;
        if i < s.len() {
            assert(s[i] == a);
        }
    }
    assert forall|a: Seq<char>| s.to_set().insert(x).contains(a) implies s.push(x).to_set().contains(a) by {
        if a == x {
            assert(s.push(x)[s.len() as int] == a);
        } else {
            let i = choose|i: int| 0 <= i < s.len() && s[i] == a;
            assert(s.push(x)[i] == a);
        }
    }
    assert(s.push(x).to_set() =~= s.to_set().insert(x));
}

/// The strings of `base` followed by those of `extra` not seen before.
fn merge_unique(base: &Vec<String>, extra: &Vec<String>) -> (r: Vec<String>)
    requires
        base.deep_view().no_duplicates(),
    ensures
        r.deep_view().no_duplicates(),
        r.deep_view().to_set() == base.deep_view().to_set() + extra.deep_view().to_set(),
{
    let mut r: Vec<String> = base.clone();
    assert(r.deep_view() =~= base.deep_view());
    let mut i: usize = 0;
    while i < extra.len()
        invariant
            i <= extra@.len(),
            r.deep_view().no_duplicates(),
            r.deep_view().to_set() == base.deep_view().to_set() + extra.deep_view().take(i as int).to_set(),
        decreases extra@.len() - i,
    {
        let s = &extra[i];
        let ghost before = r.deep_view();
        assert(extra.deep_view().take(i + 1) == extra.deep_view().take(i as int).push(s@));
        if !contains_string(&r, s) {
            r.push(s.clone());
            assert(r.deep_view() =~= before.push(s@));
            proof {
                lemma_push_to_set(before, s@);
            }
        } else {
            assert(r.deep_view().to_set() =~= r.deep_view().to_set().insert(s@));
        }
        proof {
            lemma_push_to_set(extra.deep_view().take(i as int), s@);
        }
        assert(r.deep_view().to_set() =~= base.deep_view().to_set() + extra.deep_view().take(i + 1).to_set());
        i += 1;
    }
    assert(extra.deep_view().take(extra@.len() as int) == extra.deep_view());
    r
}

/// The features named in a comma-separated list, each trimmed, empty ones
/// left out.
pub fn parse_feature_list(list: &str) -> (r: Vec<String>)
    ensures
        r.deep_view() == feature_names(list@),
{
    let chars = chars_of(list);
    let pieces = split_chars(chars.as_slice(), ',');
    let mut r: Vec<String> = Vec::new();
    let mut i: usize = 0;
    while i < pieces.len()
        invariant
            i <= pieces@.len(),
            pieces.deep_view() == split_at_char(list@, ','),
            r.deep_view() == trimmed_nonempty(pieces.deep_view().take(i as int)),
        decreases pieces@.len() - i,
    {
        let t = trim_chars(pieces[i].as_slice());
        assert(pieces.deep_view().take(i + 1).drop_last() == pieces.deep_view().take(i as int));
        assert(pieces[i as int].deep_view() =~= pieces[i as int]@);
        if t.len() > 0 {
            let s = string_from_chars(t.as_slice());
            let ghost before = r.deep_view();
            r.push(s);
            assert(r.deep_view() =~= before.push(s@));
        }
        i += 1;
    }
    assert(pieces.deep_view().take(pieces@.len() as int) == pieces.deep_view());
    r
}

/// The pattern of a line of `cargo tree -e features -f "{p} [{f}]"`: the
/// crate's name (group 1) and its enabled features (group 2).
pub fn tree_line_pattern() -> (r: Result<Pattern, PatternError>)
    ensures
        r is Ok <==> regex_compiles(r"(\S+) v[\d.]+ \([^)]+\) \[([^\]]*)\]"@),
        r matches Ok(p) ==> p@ == r"(\S+) v[\d.]+ \([^)]+\) \[([^\]]*)\]"@,
{
    Pattern::new(r"(\S+) v[\d.]+ \([^)]+\) \[([^\]]*)\]")
}

/// The pattern of the tree drawing that starts a line of `cargo tree`.
pub fn tree_prefix_pattern() -> (r: Result<Pattern, PatternError>)
    ensures
        r is Ok <==> regex_compiles(r"^[│├└─\s]+"@),
        r matches Ok(p) ==> p@ == r"^[│├└─\s]+"@,
{
    Pattern::new(r"^[│├└─\s]+")
}

/// Reads the features enabled per crate from the output of `cargo tree`:
/// each line has the drawing prefix matched by `prefix_re` removed, and a
/// line that `re` matches names a crate (group 1) and its comma-separated
/// features (group 2).  Features of a crate that appears on several lines
/// are merged.
pub fn parse_cargo_tree_output(stdout: &str, re: &Pattern, prefix_re: &Pattern) -> (r: Result<
    NameSets,
    UnreadableLine,
>)
    ensures
        r is Ok <==> resolve_output(stdout@, re@, prefix_re@) is Some,
        r matches Ok(res) ==> res@ == resolve_output(stdout@, re@, prefix_re@)->0,
{
    let chars = chars_of(stdout);
    let lines = split_lines(chars.as_slice());
    let mut resolved = NameSets::new();
    let mut i: usize = 0;
    proof {
        reveal_strlit("");
    }
    assert(""@ =~= Seq::<char>::empty());
    while i < lines.len()
        invariant
            i <= lines@.len(),
            lines.deep_view() == lines_of(stdout@),
            resolve_lines(lines.deep_view().take(i as int), re@, prefix_re@) == Some(resolved@),
            ""@ == Seq::<char>::empty(),
        decreases lines@.len() - i,
    {
        let line = string_from_chars(lines[i].as_slice());
        let clean = pattern_replace_first(prefix_re, line.as_str(), "");
        let caps = pattern_captures(re, clean.as_str());
        assert(lines.deep_view().take(i + 1).drop_last() == lines.deep_view().take(i as int));
        assert(lines[i as int].deep_view() =~= lines[i as int]@);
        assert(line_captures(re@, prefix_re@, lines.deep_view()[i as int]) == caps.deep_view());
        match resolved.record_captures(caps) {
            Ok(()) => {},
            Err(e) => {
                proof {
                    lemma_resolve_none_extends(lines.deep_view(), i as int + 1, re@, prefix_re@);
                }
                assert(lines.deep_view().take(lines@.len() as int) == lines.deep_view());
                return Err(e);
            },
        }
        i += 1;
    }
    assert(lines.deep_view().take(lines@.len() as int) == lines.deep_view());
    Ok(resolved)
}

/// The features per crate of a run of `cargo tree`: none when the run
/// failed, otherwise those of its output.
pub fn features_from_tree_run(succeeded: bool, stdout: &str, re: &Pattern, prefix_re: &Pattern) -> (r: Result<
    NameSets,
    UnreadableLine,
>)
    ensures
        !succeeded ==> (r matches Ok(v) && v@ == Map::<Seq<char>, Set<Seq<char>>>::empty()),
        succeeded ==> {
            &&& r is Ok <==> resolve_output(stdout@, re@, prefix_re@) is Some
            &&& r matches Ok(v) ==> v@ == resolve_output(stdout@, re@, prefix_re@)->0
        },
{
    if !succeeded {
        Ok(NameSets::new())
    } else {
        parse_cargo_tree_output(stdout, re, prefix_re)
    }
}

/// Once a line is unreadable, so is every longer prefix of the output.
proof fn lemma_resolve_none_extends(lines: Seq<Seq<char>>, k: int, re: Seq<char>, prefix_re: Seq<char>)
    requires
        0 <= k <= lines.len(),
        resolve_lines(lines.take(k), re, prefix_re) is None,
    ensures
        resolve_lines(lines, re, prefix_re) is None,
    decreases lines.len() - k,
{
    if k == lines.len() {
        assert(lines.take(k) == lines);
    } else {
        assert(lines.take(k + 1).drop_last() == lines.take(k));
        lemma_resolve_none_extends(lines, k + 1, re, prefix_re);
    }
}

/// Reading more lines never takes a feature away: every crate recorded so
/// far stays recorded with at least the features it had.
pub proof fn law_features_only_accumulate(
    lines: Seq<Seq<char>>,
    more: Seq<Seq<char>>,
    re: Seq<char>,
    prefix_re: Seq<char>,
)
    requires
        resolve_lines(lines, re, prefix_re) is Some,
        resolve_lines(lines + more, re, prefix_re) is Some,
    ensures
        forall|name: Seq<char>| #[trigger] resolve_lines(lines, re, prefix_re)->0.contains_key(name) ==> {
            &&& resolve_lines(lines + more, re, prefix_re)->0.contains_key(name)
            &&& resolve_lines(lines, re, prefix_re)->0[name].subset_of(resolve_lines(lines + more, re, prefix_re)->0[name])
        },
    decreases more.len(),
{
    if more.len() == 0 {
        assert(lines + more == lines);
    } else {
        let shorter = more.drop_last();
        assert((lines + more).drop_last() == lines + shorter);
        assert((lines + more).last() == more.last());
        law_features_only_accumulate(lines, shorter, re, prefix_re);
    }
}

/// Whether line `i` matches and names crate `name` with a feature list.
pub open spec fn line_names(lines: Seq<Seq<char>>, re: Seq<char>, prefix_re: Seq<char>, i: int, name: Seq<char>) -> bool {
    line_captures(re, prefix_re, lines[i]) matches Some(g) && g.len() > 2 && g[1] == Some(name) && g[2] is Some
}

/// Whether line `i` matches with a feature list that names `feature`.
pub open spec fn line_lists(lines: Seq<Seq<char>>, re: Seq<char>, prefix_re: Seq<char>, i: int, feature: Seq<char>) -> bool {
    match line_captures(re, prefix_re, lines[i]) {
        Some(g) => g.len() > 2 && match g[2] {
            Some(list) => feature_names(list).contains(feature),
            None => false,
        },
        None => false,
    }
}

/// Whether line `i` matches but lacks group 1 or group 2.
pub open spec fn line_unreadable(lines: Seq<Seq<char>>, re: Seq<char>, prefix_re: Seq<char>, i: int) -> bool {
    line_captures(re, prefix_re, lines[i]) matches Some(g) && !(g.len() > 2 && g[1] is Some && g[2] is Some)
}

/// The items that a list of pieces gives: each piece trimmed, the empty ones
/// left out, and nothing else.
proof fn lemma_trimmed_nonempty_members(pieces: Seq<Seq<char>>, x: Seq<char>)
    ensures
        trimmed_nonempty(pieces).contains(x) <==> (x.len() > 0 && exists|p: int|
            0 <= p < pieces.len() && trim(#[trigger] pieces[p]) == x),
    decreases pieces.len(),
{
    if pieces.len() > 0 {
        let prev = pieces.drop_last();
        lemma_trimmed_nonempty_members(prev, x);
        let rest = trimmed_nonempty(prev);
        let r = trimmed_nonempty(pieces);
        let t = trim(pieces.last());
        let last = pieces.len() - 1;
        assert(pieces[last] == pieces.last());
        if r.contains(x) {
            let j = choose|j: int| 0 <= j < r.len() && r[j] == x;
            if j < rest.len() {
                assert(rest[j] == x);
                assert(rest.contains(x));
                let p = choose|p: int| 0 <= p < prev.len() && trim(#[trigger] prev[p]) == x;
                assert(pieces[p] == prev[p]);
            } else {
                assert(x == t);
            }
        }
        if x.len() > 0 && exists|p: int| 0 <= p < pieces.len() && trim(#[trigger] pieces[p]) == x {
            let p = choose|p: int| 0 <= p < pieces.len() && trim(#[trigger] pieces[p]) == x;
            if p < last {
                assert(prev[p] == pieces[p]);
                assert(rest.contains(x));
                let j = choose|j: int| 0 <= j < rest.len() && rest[j] == x;
                assert(r[j] == x);
            } else {
                assert(r[rest.len() as int] == x);
            }
        }
    }
}

/// The features named in a list are exactly its comma-separated items,
/// trimmed, that are not empty.
pub proof fn law_feature_names_are_the_trimmed_items(list: Seq<char>, x: Seq<char>)
    ensures
        feature_names(list).contains(x) <==> (x.len() > 0 && exists|p: int|
            0 <= p < split_at_char(list, ',').len() && trim(#[trigger] split_at_char(list, ',')[p]) == x),
{
    lemma_trimmed_nonempty_members(split_at_char(list, ','), x);
}

proof fn lemma_trimmed_nonempty_items(pieces: Seq<Seq<char>>)
    ensures
        forall|j: int| 0 <= j < trimmed_nonempty(pieces).len() ==> (#[trigger] trimmed_nonempty(pieces)[j]).len() > 0,
    decreases pieces.len(),
{
    if pieces.len() > 0 {
        let rest = trimmed_nonempty(pieces.drop_last());
        lemma_trimmed_nonempty_items(pieces.drop_last());
        let r = trimmed_nonempty(pieces);
        assert forall|j: int| 0 <= j < r.len() implies (#[trigger] r[j]).len() > 0 by {
            if j < rest.len() {
                assert(rest[j].len() > 0);
            }
        }
    }
}

proof fn lemma_same_line(lines: Seq<Seq<char>>, prev: Seq<Seq<char>>, re: Seq<char>, prefix_re: Seq<char>, i: int)
    requires
        0 <= i < prev.len() <= lines.len(),
        lines[i] == prev[i],
    ensures
        forall|name: Seq<char>| line_names(lines, re, prefix_re, i, name) == line_names(prev, re, prefix_re, i, name),
        forall|f: Seq<char>| line_lists(lines, re, prefix_re, i, f) == line_lists(prev, re, prefix_re, i, f),
        line_unreadable(lines, re, prefix_re, i) == line_unreadable(prev, re, prefix_re, i),
{
}

/// The reading of a tree is the union of its lines: it fails exactly when
/// some line matches without a crate or a feature list; a crate is recorded
/// exactly when some line names it, with the features that the lines naming
/// it list (an empty item is never a feature); lines that do not match add
/// nothing.
pub proof fn law_tree_reading_is_a_union(
    lines: Seq<Seq<char>>,
    re: Seq<char>,
    prefix_re: Seq<char>,
    name: Seq<char>,
    feature: Seq<char>,
)
    ensures
        resolve_lines(lines, re, prefix_re) is None <==> exists|i: int| 0 <= i < lines.len() && #[trigger] line_unreadable(lines, re, prefix_re, i),
        resolve_lines(lines, re, prefix_re) matches Some(m) ==> {
            &&& m.contains_key(name) <==> exists|i: int| 0 <= i < lines.len() && #[trigger] line_names(lines, re, prefix_re, i, name)
            &&& m.contains_key(name) ==> (m[name].contains(feature) <==> exists|i: int|
                0 <= i < lines.len() && #[trigger] line_names(lines, re, prefix_re, i, name) && line_lists(lines, re, prefix_re, i, feature))
            &&& m.contains_key(name) ==> !m[name].contains(Seq::<char>::empty())
        },
    decreases lines.len(),
{
    if lines.len() == 0 {
        return;
    }
    let prev = lines.drop_last();
    let last = lines.len() - 1;
    law_tree_reading_is_a_union(prev, re, prefix_re, name, feature);
    law_tree_reading_is_a_union(prev, re, prefix_re, name, Seq::<char>::empty());
    assert forall|i: int| 0 <= i < prev.len() implies #[trigger] prev[i] == lines[i] by {}
    assert forall|i: int| 0 <= i < prev.len() implies
        (forall|n: Seq<char>| line_names(lines, re, prefix_re, i, n) == line_names(prev, re, prefix_re, i, n))
        && (forall|f: Seq<char>| line_lists(lines, re, prefix_re, i, f) == line_lists(prev, re, prefix_re, i, f))
        && #[trigger] line_unreadable(lines, re, prefix_re, i) == line_unreadable(prev, re, prefix_re, i) by {
        lemma_same_line(lines, prev, re, prefix_re, i);
    }
    let caps = line_captures(re, prefix_re, lines[last]);
    assert(lines.last() == lines[last]);
    // unreadable
    if resolve_lines(lines, re, prefix_re) is None {
        if resolve_lines(prev, re, prefix_re) is None {
            let i = choose|i: int| 0 <= i < prev.len() && #[trigger] line_unreadable(prev, re, prefix_re, i);
            assert(line_unreadable(lines, re, prefix_re, i));
        } else {
            assert(line_unreadable(lines, re, prefix_re, last));
        }
    } else {
        if exists|i: int| 0 <= i < lines.len() && #[trigger] line_unreadable(lines, re, prefix_re, i) {
            let i = choose|i: int| 0 <= i < lines.len() && #[trigger] line_unreadable(lines, re, prefix_re, i);
            if i < last {
                assert(line_unreadable(prev, re, prefix_re, i));
            }
        }
    }
    if let Some(m) = resolve_lines(lines, re, prefix_re) {
        let m0 = resolve_lines(prev, re, prefix_re)->0;
        match caps {
            None => {
                assert(m == m0);
                assert(!line_names(lines, re, prefix_re, last, name));
                if exists|i: int| 0 <= i < lines.len() && #[trigger] line_names(lines, re, prefix_re, i, name) {
                    let i = choose|i: int| 0 <= i < lines.len() && #[trigger] line_names(lines, re, prefix_re, i, name);
                    assert(line_names(prev, re, prefix_re, i, name));
                }
                if exists|i: int| 0 <= i < prev.len() && #[trigger] line_names(prev, re, prefix_re, i, name) {
                    let i = choose|i: int| 0 <= i < prev.len() && #[trigger] line_names(prev, re, prefix_re, i, name);
                    assert(line_names(lines, re, prefix_re, i, name));
                }
                if exists|i: int| 0 <= i < lines.len() && #[trigger] line_names(lines, re, prefix_re, i, name) && line_lists(lines, re, prefix_re, i, feature) {
                    let i = choose|i: int| 0 <= i < lines.len() && #[trigger] line_names(lines, re, prefix_re, i, name) && line_lists(lines, re, prefix_re, i, feature);
                    assert(line_names(prev, re, prefix_re, i, name) && line_lists(prev, re, prefix_re, i, feature));
                }
                if exists|i: int| 0 <= i < prev.len() && #[trigger] line_names(prev, re, prefix_re, i, name) && line_lists(prev, re, prefix_re, i, feature) {
                    let i = choose|i: int| 0 <= i < prev.len() && #[trigger] line_names(prev, re, prefix_re, i, name) && line_lists(prev, re, prefix_re, i, feature);
                    assert(line_names(lines, re, prefix_re, i, name) && line_lists(lines, re, prefix_re, i, feature));
                }
            },
            Some(g) => {
                let n = g[1]->0;
                let list = g[2]->0;
                lemma_trimmed_nonempty_items(split_at_char(list, ','));
                assert(m == m0.insert(n, features_of(m0, n) + feature_names(list).to_set()));
                assert(line_names(lines, re, prefix_re, last, n));
                assert(feature_names(list).contains(feature) == line_lists(lines, re, prefix_re, last, feature));
                if exists|i: int| 0 <= i < lines.len() && #[trigger] line_names(lines, re, prefix_re, i, name) {
                    let i = choose|i: int| 0 <= i < lines.len() && #[trigger] line_names(lines, re, prefix_re, i, name);
                    if i < last {
                        assert(line_names(prev, re, prefix_re, i, name));
                    }
                }
                if exists|i: int| 0 <= i < prev.len() && #[trigger] line_names(prev, re, prefix_re, i, name) {
                    let i = choose|i: int| 0 <= i < prev.len() && #[trigger] line_names(prev, re, prefix_re, i, name);
                    assert(line_names(lines, re, prefix_re, i, name));
                }
                if exists|i: int| 0 <= i < lines.len() && #[trigger] line_names(lines, re, prefix_re, i, name) && line_lists(lines, re, prefix_re, i, feature) {
                    let i = choose|i: int| 0 <= i < lines.len() && #[trigger] line_names(lines, re, prefix_re, i, name) && line_lists(lines, re, prefix_re, i, feature);
                    if i < last {
                        assert(line_names(prev, re, prefix_re, i, name) && line_lists(prev, re, prefix_re, i, feature));
                    }
                }
                if exists|i: int| 0 <= i < prev.len() && #[trigger] line_names(prev, re, prefix_re, i, name) && line_lists(prev, re, prefix_re, i, feature) {
                    let i = choose|i: int| 0 <= i < prev.len() && #[trigger] line_names(prev, re, prefix_re, i, name) && line_lists(prev, re, prefix_re, i, feature);
                    assert(line_names(lines, re, prefix_re, i, name) && line_lists(lines, re, prefix_re, i, feature));
                }
                if name == n && feature_names(list).contains(Seq::<char>::empty()) {
                    let j = choose|j: int| 0 <= j < feature_names(list).len() && feature_names(list)[j] == Seq::<char>::empty();
                    assert(feature_names(list)[j].len() > 0);
                }
            },
        }
    }
}

proof fn lemma_line_at(a: Seq<Seq<char>>, i: int, b: Seq<Seq<char>>, j: int, re: Seq<char>, prefix_re: Seq<char>)
    requires
        0 <= i < a.len(),
        0 <= j < b.len(),
        a[i] == b[j],
    ensures
        forall|name: Seq<char>| line_names(a, re, prefix_re, i, name) == line_names(b, re, prefix_re, j, name),
        forall|f: Seq<char>| line_lists(a, re, prefix_re, i, f) == line_lists(b, re, prefix_re, j, f),
        line_unreadable(a, re, prefix_re, i) == line_unreadable(b, re, prefix_re, j),
{
}

/// Reading a tree in two parts and merging the readings gives the reading
/// of the whole: the order of the lines does not matter.
pub proof fn law_reading_in_two_parts(
    first: Seq<Seq<char>>,
    second: Seq<Seq<char>>,
    re: Seq<char>,
    prefix_re: Seq<char>,
    name: Seq<char>,
    feature: Seq<char>,
)
    requires
        resolve_lines(first + second, re, prefix_re) is Some,
    ensures
        resolve_lines(first, re, prefix_re) is Some,
        resolve_lines(second, re, prefix_re) is Some,
        ({
            let m = resolve_lines(first + second, re, prefix_re)->0;
            let m1 = resolve_lines(first, re, prefix_re)->0;
            let m2 = resolve_lines(second, re, prefix_re)->0;
            &&& m.contains_key(name) <==> (m1.contains_key(name) || m2.contains_key(name))
            &&& m.contains_key(name) ==> (m[name].contains(feature) <==> (features_of(m1, name).contains(feature)
                || features_of(m2, name).contains(feature)))
        }),
{
    let all = first + second;
    let k = first.len() as int;
    law_tree_reading_is_a_union(all, re, prefix_re, name, feature);
    law_tree_reading_is_a_union(first, re, prefix_re, name, feature);
    law_tree_reading_is_a_union(second, re, prefix_re, name, feature);
    assert forall|i: int| 0 <= i < first.len() implies
        (forall|n: Seq<char>| line_names(first, re, prefix_re, i, n) == line_names(all, re, prefix_re, i, n))
        && (forall|f: Seq<char>| line_lists(first, re, prefix_re, i, f) == line_lists(all, re, prefix_re, i, f))
        && #[trigger] line_unreadable(first, re, prefix_re, i) == line_unreadable(all, re, prefix_re, i) by {
        lemma_line_at(first, i, all, i, re, prefix_re);
    }
    assert forall|j: int| 0 <= j < second.len() implies
        (forall|n: Seq<char>| line_names(second, re, prefix_re, j, n) == line_names(all, re, prefix_re, k + j, n))
        && (forall|f: Seq<char>| line_lists(second, re, prefix_re, j, f) == line_lists(all, re, prefix_re, k + j, f))
        && #[trigger] line_unreadable(second, re, prefix_re, j) == line_unreadable(all, re, prefix_re, k + j) by {
        lemma_line_at(second, j, all, k + j, re, prefix_re);
    }
    if resolve_lines(first, re, prefix_re) is None {
        let i = choose|i: int| 0 <= i < first.len() && #[trigger] line_unreadable(first, re, prefix_re, i);
        assert(line_unreadable(all, re, prefix_re, i));
    }
    if resolve_lines(second, re, prefix_re) is None {
        let j = choose|j: int| 0 <= j < second.len() && #[trigger] line_unreadable(second, re, prefix_re, j);
        assert(line_unreadable(all, re, prefix_re, k + j));
    }
    let m1 = resolve_lines(first, re, prefix_re)->0;
    let m2 = resolve_lines(second, re, prefix_re)->0;
    if exists|i: int| 0 <= i < all.len() && #[trigger] line_names(all, re, prefix_re, i, name) {
        let i = choose|i: int| 0 <= i < all.len() && #[trigger] line_names(all, re, prefix_re, i, name);
        if i < k {
            assert(line_names(first, re, prefix_re, i, name));
        } else {
            assert(line_names(second, re, prefix_re, i - k, name));
        }
        if line_lists(all, re, prefix_re, i, feature) {
            if i < k {
                assert(line_lists(first, re, prefix_re, i, feature));
            } else {
                assert(line_lists(second, re, prefix_re, i - k, feature));
            }
        }
    }
    if exists|i: int| 0 <= i < all.len() && #[trigger] line_names(all, re, prefix_re, i, name) && line_lists(all, re, prefix_re, i, feature) {
        let i = choose|i: int| 0 <= i < all.len() && #[trigger] line_names(all, re, prefix_re, i, name) && line_lists(all, re, prefix_re, i, feature);
        if i < k {
            assert(line_names(first, re, prefix_re, i, name) && line_lists(first, re, prefix_re, i, feature));
        } else {
            assert(line_names(second, re, prefix_re, i - k, name) && line_lists(second, re, prefix_re, i - k, feature));
        }
    }
    if exists|i: int| 0 <= i < first.len() && #[trigger] line_names(first, re, prefix_re, i, name) {
        let i = choose|i: int| 0 <= i < first.len() && #[trigger] line_names(first, re, prefix_re, i, name);
        assert(line_names(all, re, prefix_re, i, name));
        if line_lists(first, re, prefix_re, i, feature) {
            assert(line_lists(all, re, prefix_re, i, feature));
        }
    }
    if exists|i: int| 0 <= i < first.len() && #[trigger] line_names(first, re, prefix_re, i, name) && line_lists(first, re, prefix_re, i, feature) {
        let i = choose|i: int| 0 <= i < first.len() && #[trigger] line_names(first, re, prefix_re, i, name) && line_lists(first, re, prefix_re, i, feature);
        assert(line_names(all, re, prefix_re, i, name) && line_lists(all, re, prefix_re, i, feature));
    }
    if exists|j: int| 0 <= j < second.len() && #[trigger] line_names(second, re, prefix_re, j, name) {
        let j = choose|j: int| 0 <= j < second.len() && #[trigger] line_names(second, re, prefix_re, j, name);
        assert(line_names(all, re, prefix_re, k + j, name));
    }
    if exists|j: int| 0 <= j < second.len() && #[trigger] line_names(second, re, prefix_re, j, name) && line_lists(second, re, prefix_re, j, feature) {
        let j = choose|j: int| 0 <= j < second.len() && #[trigger] line_names(second, re, prefix_re, j, name) && line_lists(second, re, prefix_re, j, feature);
        assert(line_names(all, re, prefix_re, k + j, name) && line_lists(all, re, prefix_re, k + j, feature));
    }
}

/// Reading two outputs joined by a line break, and merging their readings,
/// give the same result, as long as the first output does not end in a
/// carriage return (which the line break would take away) and, when it is
/// empty or already ends its last line, the empty line that the break then
/// adds is one that the pattern does not match.
pub proof fn law_reading_two_outputs(
    a: Seq<char>,
    b: Seq<char>,
    re: Seq<char>,
    prefix_re: Seq<char>,
    name: Seq<char>,
    feature: Seq<char>,
)
    requires
        a.len() == 0 || a.last() != '\r',
        (a.len() > 0 && a.last() != '\n') || line_captures(re, prefix_re, Seq::<char>::empty()) is None,
        resolve_output(a + seq!['\n'] + b, re, prefix_re) is Some,
    ensures
        resolve_output(a, re, prefix_re) is Some,
        resolve_output(b, re, prefix_re) is Some,
        ({
            let m = resolve_output(a + seq!['\n'] + b, re, prefix_re)->0;
            let m1 = resolve_output(a, re, prefix_re)->0;
            let m2 = resolve_output(b, re, prefix_re)->0;
            &&& m.contains_key(name) <==> (m1.contains_key(name) || m2.contains_key(name))
            &&& m.contains_key(name) ==> (m[name].contains(feature) <==> (features_of(m1, name).contains(feature)
                || features_of(m2, name).contains(feature)))
        }),
{
    if a.len() > 0 && a.last() != '\n' {
        lemma_lines_of_joined(a, b);
        law_reading_in_two_parts(lines_of(a), lines_of(b), re, prefix_re, name, feature);
    } else {
        lemma_lines_of_joined_after_line_end(a, b);
        let first = lines_of(a).push(Seq::<char>::empty());
        assert(lines_of(a) + seq![Seq::<char>::empty()] =~= first);
        assert(first.drop_last() =~= lines_of(a));
        assert(first.last() == Seq::<char>::empty());
        assert(resolve_lines(first, re, prefix_re) == resolve_lines(lines_of(a), re, prefix_re));
        law_reading_in_two_parts(first, lines_of(b), re, prefix_re, name, feature);
    }
}

} // verus!
