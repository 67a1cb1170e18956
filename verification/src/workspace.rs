//! The crates of a workspace and the features each of them defines, read
//! from Cargo manifests.
use vstd::prelude::*;
use crate::text::{chars_of, string_from_chars};
use crate::toml_doc::{
    TomlSyntaxError, TomlValue, parse_toml, string_items, toml_document, value_get, value_str,
};

verus! {

broadcast use vstd::string::group_string_axioms;

/// The features a crate defines: each feature's name with the string items
/// of its definition.
pub struct CrateInfo {
    pub features: Vec<(String, Vec<String>)>,
}

/// A feature definition as plain values.
pub type FeatureDef = (Seq<char>, Seq<Seq<char>>);

pub open spec fn feature_def(e: (String, Vec<String>)) -> FeatureDef {
    (e.0@, e.1.deep_view())
}

impl CrateInfo {
    /// The feature definitions, in order.
    pub open spec fn model(self) -> Seq<FeatureDef> {
        self.features@.map_values(|e: (String, Vec<String>)| feature_def(e))
    }
}

// ---------------------------------------------------------------------------
// The root manifest
// ---------------------------------------------------------------------------

/// What makes the member list of a root manifest unreadable.
#[derive(Debug, PartialEq, Eq, Structural, Clone, Copy)]
pub enum MemberListError {
    /// There is no `workspace` table.
    MissingWorkspace,
    /// The `workspace` table has no `members` key.
    MissingMembers,
    /// `workspace.members` is not an array.
    MembersNotArray,
    /// An item of `workspace.members` is not a string.
    MemberNotString,
}

/// A root manifest that could not be read.
#[derive(Debug)]
pub enum WorkspaceManifestError {
    Syntax(TomlSyntaxError),
    Members(MemberListError),
}

/// Whether every value is a string.
pub open spec fn all_strings(items: Seq<TomlValue>) -> bool {
    forall|i: int| 0 <= i < items.len() ==> (#[trigger] items[i]) is Str
}

/// The `workspace.members` list of a parsed root manifest.
pub open spec fn members_of(doc: TomlValue) -> Result<Seq<Seq<char>>, MemberListError> {
    match value_get(doc, "workspace"@) {
        None => Err(MemberListError::MissingWorkspace),
        Some(ws) => match value_get(ws, "members"@) {
            None => Err(MemberListError::MissingMembers),
            Some(TomlValue::Array(items)) => if all_strings(items@) {
                Ok(string_items(items@))
            } else {
                Err(MemberListError::MemberNotString)
            },
            Some(_) => Err(MemberListError::MembersNotArray),
        },
    }
}

/// Reads the member patterns of a workspace from its root manifest.
#[verifier::loop_isolation(false)]
pub fn workspace_members(content: &str) -> (r: Result<Vec<String>, WorkspaceManifestError>)
    ensures
        (r matches Err(WorkspaceManifestError::Syntax(_))) <==> toml_document(content@) is None,
        toml_document(content@) matches Some(doc) ==> match members_of(doc) {
            Ok(members) => r matches Ok(v) && v.deep_view() == members,
            Err(e) => r matches Err(WorkspaceManifestError::Members(e2)) && e2 == e,
        },
{
    let doc = match parse_toml(content) {
        Ok(doc) => doc,
        Err(e) => return Err(WorkspaceManifestError::Syntax(e)),
    };
    let ws = match doc.get(&"workspace".to_string()) {
        Some(ws) => ws,
        None => return Err(WorkspaceManifestError::Members(MemberListError::MissingWorkspace)),
    };
    let members = match ws.get(&"members".to_string()) {
        Some(m) => m,
        None => return Err(WorkspaceManifestError::Members(MemberListError::MissingMembers)),
    };
    match members {
        TomlValue::Array(items) => {
            let mut i: usize = 0;
            while i < items.len()
                invariant
                    i <= items@.len(),
                    forall|j: int| 0 <= j < i ==> (#[trigger] items@[j]) is Str,
                decreases items@.len() - i,
            {
                match &items[i] {
                    TomlValue::Str(_) => {},
                    _ => return Err(WorkspaceManifestError::Members(MemberListError::MemberNotString)),
                }
                i += 1;
            }
            match members.string_items() {
                Some(v) => Ok(v),
                None => Err(WorkspaceManifestError::Members(MemberListError::MembersNotArray)),
            }
        },
        _ => Err(WorkspaceManifestError::Members(MemberListError::MembersNotArray)),
    }
}

// ---------------------------------------------------------------------------
// Member patterns
// ---------------------------------------------------------------------------

/// A text with every trailing occurrence of a character removed.
pub open spec fn trim_end_char(s: Seq<char>, c: char) -> Seq<char>
    decreases s.len(),
{
    if s.len() > 0 && s.last() == c {
        trim_end_char(s.drop_last(), c)
    } else {
        s
    }
}

/// The directory whose subdirectories a glob member pattern stands for:
/// `Some` exactly when the pattern holds a `*`, with trailing `*` and then
/// trailing `/` removed.
pub open spec fn glob_base(pattern: Seq<char>) -> Option<Seq<char>> {
    if pattern.contains('*') {
        Some(trim_end_char(trim_end_char(pattern, '*'), '/'))
    } else {
        None
    }
}

/// Removing every trailing occurrence of a character leaves a beginning of
/// the text that does not end with it, and all that was removed is that
/// character.
pub proof fn law_trim_end_char_removes_only_that_character(s: Seq<char>, c: char)
    ensures
        trim_end_char(s, c).len() <= s.len(),
        trim_end_char(s, c) == s.take(trim_end_char(s, c).len() as int),
        forall|j: int| trim_end_char(s, c).len() <= j < s.len() ==> s[j] == c,
        trim_end_char(s, c).len() > 0 ==> trim_end_char(s, c).last() != c,
    decreases s.len(),
{
    if s.len() > 0 && s.last() == c {
        law_trim_end_char_removes_only_that_character(s.drop_last(), c);
        let t = trim_end_char(s, c);
        assert(s.drop_last().take(t.len() as int) =~= s.take(t.len() as int));
        assert forall|j: int| t.len() <= j < s.len() implies s[j] == c by {
            if j < s.len() - 1 {
                assert(s.drop_last()[j] == s[j]);
            }
        }
    } else {
        assert(s.take(s.len() as int) =~= s);
    }
}

fn trim_end_char_vec(v: Vec<char>, c: char) -> (r: Vec<char>)
    ensures
        r@ == trim_end_char(v@, c),
    decreases v@.len(),
{
    let mut v = v;
    let ghost start = v@;
    while v.len() > 0 && v[v.len() - 1] == c
        invariant
            trim_end_char(start, c) == trim_end_char(v@, c),
        decreases v@.len(),
    {
        let ghost before = v@;
        v.pop();
        assert(v@ == before.drop_last());
    }
    v
}

/// For a member pattern holding a `*` (such as `crates/*`), the directory
/// whose subdirectories it stands for; `None` for a plain path.
pub fn member_glob_base(pattern: &str) -> (r: Option<String>)
    ensures
        r.deep_view() == glob_base(pattern@),
{
    let chars = chars_of(pattern);
    let mut i: usize = 0;
    let mut has_star = false;
    while i < chars.len()
        invariant
            i <= chars@.len(),
            chars@ == pattern@,
            has_star == (exists|j: int| 0 <= j < i && chars@[j] == '*'),
        decreases chars@.len() - i,
    {
        if chars[i] == '*' {
            has_star = true;
        }
        i += 1;
    }
    if has_star {
        let base = trim_end_char_vec(trim_end_char_vec(chars, '*'), '/');
        Some(string_from_chars(base.as_slice()))
    } else {
        None
    }
}

// ---------------------------------------------------------------------------
// Member manifests
// ---------------------------------------------------------------------------

/// The `package.name` of a parsed manifest, if it is a string.
pub open spec fn manifest_name(doc: TomlValue) -> Option<Seq<char>> {
    match value_get(doc, "package"@) {
        Some(package) => match value_get(package, "name"@) {
            Some(name) => value_str(name),
            None => None,
        },
        None => None,
    }
}

/// The definition of one feature: the string items when it is an array,
/// nothing otherwise.
pub open spec fn definition_items(v: TomlValue) -> Seq<Seq<char>> {
    match v {
        TomlValue::Array(items) => string_items(items@),
        _ => seq![],
    }
}

/// The `[features]` table of a parsed manifest, in order; none when it is
/// missing or not a table.
pub open spec fn manifest_features(doc: TomlValue) -> Seq<FeatureDef> {
    match value_get(doc, "features"@) {
        Some(TomlValue::Table(entries)) => entries@.map_values(
            |e: (String, TomlValue)| (e.0@, definition_items(e.1)),
        ),
        _ => seq![],
    }
}

/// Reads a member's manifest: its package name and feature definitions,
/// or `None` when it names no package (such a directory is skipped).
pub fn crate_from_manifest(content: &str) -> (r: Result<Option<(String, CrateInfo)>, TomlSyntaxError>)
    ensures
        r is Err <==> toml_document(content@) is None,
        toml_document(content@) matches Some(doc) ==> match manifest_name(doc) {
            None => r matches Ok(None),
            Some(name) => r matches Ok(Some((n, info))) && n@ == name && info.model()
                == manifest_features(doc),
        },
{
    let doc = parse_toml(content)?;
    let name = match doc.get(&"package".to_string()) {
        Some(package) => match package.get(&"name".to_string()) {
            Some(n) => match n.as_str() {
                Some(s) => s.clone(),
                None => return Ok(None),
            },
            None => return Ok(None),
        },
        None => return Ok(None),
    };
    let mut features: Vec<(String, Vec<String>)> = Vec::new();
    match doc.get(&"features".to_string()) {
        Some(TomlValue::Table(entries)) => {
            let mut i: usize = 0;
            while i < entries.len()
                invariant
                    i <= entries@.len(),
                    features@.len() == i,
                    forall|j: int| 0 <= j < i ==> feature_def(#[trigger] features@[j]) == (
                        entries@[j].0@,
                        definition_items(entries@[j].1),
                    ),
                decreases entries@.len() - i,
            {
                let items = match entries[i].1.string_items() {
                    Some(v) => v,
                    None => Vec::new(),
                };
                assert(items.deep_view() == definition_items(entries@[i as int].1)) by {
                    if !(entries@[i as int].1 is Array) {
                        assert(items.deep_view() =~= Seq::<Seq<char>>::empty());
                    }
                }
                features.push((entries[i].0.clone(), items));
                i += 1;
            }
            let info = CrateInfo { features };
            assert(info.model() =~= manifest_features(doc));
            Ok(Some((name, info)))
        },
        _ => {
            let info = CrateInfo { features };
            assert(info.model() =~= manifest_features(doc));
            Ok(Some((name, info)))
        },
    }
}

// ---------------------------------------------------------------------------
// The workspace
// ---------------------------------------------------------------------------

/// A crate of a workspace as plain values.
pub type CrateModel = (Seq<char>, Seq<FeatureDef>);

/// Whether each crate name occurs once.
pub open spec fn names_distinct(crates: Seq<CrateModel>) -> bool {
    forall|i: int, j: int| 0 <= i < crates.len() && 0 <= j < crates.len() && i != j ==> crates[i].0
        != crates[j].0
}

/// Whether a crate of that name is listed.
pub open spec fn has_crate(crates: Seq<CrateModel>, name: Seq<char>) -> bool {
    exists|i: int| 0 <= i < crates.len() && crates[i].0 == name
}

/// Records a crate as a map does: a crate of the same name is replaced in
/// place, a new one goes last.
pub open spec fn insert_crate(crates: Seq<CrateModel>, c: CrateModel) -> Seq<CrateModel> {
    if has_crate(crates, c.0) {
        crates.update(choose|i: int| 0 <= i < crates.len() && crates[i].0 == c.0, c)
    } else {
        crates.push(c)
    }
}

/// The crates of a workspace by package name, each name once.
pub struct Workspace {
    crates: Vec<(String, CrateInfo)>,
}

pub open spec fn crate_model(e: (String, CrateInfo)) -> CrateModel {
    (e.0@, e.1.model())
}

impl Workspace {
    /// The crates in the order they were first recorded.
    pub closed spec fn model(self) -> Seq<CrateModel> {
        self.crates@.map_values(|e: (String, CrateInfo)| crate_model(e))
    }

    /// No crate yet.
    pub fn new() -> (w: Self)
        ensures
            w.model() == Seq::<CrateModel>::empty(),
    {
        let w = Workspace { crates: Vec::new() };
        assert(w.model() =~= Seq::<CrateModel>::empty());
        w
    }

    /// Each crate name occurs once.
    #[verifier::type_invariant]
    closed spec fn distinct_names(self) -> bool {
        names_distinct(self.model())
    }

    /// Where the crate of that name stands, if it is recorded.
    fn position_of(&self, name: &String) -> (r: Option<usize>)
        ensures
            r matches Some(i) ==> i < self.crates@.len() && self.crates@[i as int].0@ == name@,
            r is None ==> !has_crate(self.model(), name@),
    {
        let mut i: usize = 0;
        while i < self.crates.len()
            invariant
                i <= self.crates@.len(),
                forall|j: int| 0 <= j < i ==> self.crates@[j].0@ != name@,
            decreases self.crates@.len() - i,
        {
            if self.crates[i].0 == *name {
                return Some(i);
            }
            i += 1;
        }
        proof {
            if has_crate(self.model(), name@) {
                let k = choose|k: int| 0 <= k < self.model().len() && self.model()[k].0 == name@;
                assert(self.model()[k] == crate_model(self.crates@[k]));
            }
        }
        None
    }

    /// Records a crate, replacing one of the same name.
    pub fn insert(&mut self, name: String, info: CrateInfo)
        ensures
            final(self).model() == insert_crate(old(self).model(), (name@, info.model())),
    {
        proof {
            use_type_invariant(&*self);
        }
        let ghost pre = self.model();
        let ghost c: CrateModel = (name@, info.model());
        let at = self.position_of(&name);
        let mut crates: Vec<(String, CrateInfo)> = Vec::new();
        std::mem::swap(&mut crates, &mut self.crates);
        assert(crates@.map_values(|e: (String, CrateInfo)| crate_model(e)) == pre);
        match at {
            Some(i) => {
                proof {
                    assert(pre[i as int] == crate_model(crates@[i as int]));
                    assert(has_crate(pre, c.0));
                    let k = choose|k: int| 0 <= k < pre.len() && pre[k].0 == c.0;
                    assert(k == i as int);
                    assert(insert_crate(pre, c) == pre.update(i as int, c));
                }
                crates.set(i, (name, info));
                assert(crates@.map_values(|e: (String, CrateInfo)| crate_model(e)) =~= pre.update(i as int, c));
            },
            None => {
                crates.push((name, info));
                assert(crates@.map_values(|e: (String, CrateInfo)| crate_model(e)) =~= pre.push(c));
            },
        }
        proof {
            law_insert_crate_is_a_map_update(pre, c);
        }
        let ghost post = Workspace { crates: crates };
        assert(post.model() == insert_crate(pre, c));
        self.crates = crates;
        assert(self.model() == post.model());
    }

    /// Records a member directory from the text of its manifest (`None` when
    /// the manifest could not be read): an unreadable manifest or one that
    /// names no package is skipped, a package is recorded under its name.
    pub fn record_manifest(&mut self, content: Option<&str>) -> (r: Result<(), TomlSyntaxError>)
        ensures
            content is None ==> r is Ok && final(self).model() == old(self).model(),
            content matches Some(t) ==> {
                &&& r is Err <==> toml_document(t@) is None
                &&& r is Err ==> final(self).model() == old(self).model()
                &&& toml_document(t@) matches Some(doc) ==> match manifest_name(doc) {
                    None => final(self).model() == old(self).model(),
                    Some(name) => final(self).model() == insert_crate(
                        old(self).model(),
                        (name, manifest_features(doc)),
                    ),
                }
                &&& toml_document(t@) matches Some(doc) ==> final(self).model() == record_all(
                    old(self).model(),
                    seq![manifest_crate(doc)],
                )
            },
    {
        proof {
            if let Some(t) = content {
                if let Some(doc) = toml_document(t@) {
                    lemma_record_one(self.model(), manifest_crate(doc));
                }
            }
        }
        match content {
            None => Ok(()),
            Some(text) => match crate_from_manifest(text)? {
                Some((name, info)) => {
                    self.insert(name, info);
                    Ok(())
                },
                None => Ok(()),
            },
        }
    }

    /// The number of crates.
    pub fn len(&self) -> (n: usize)
        ensures
            n == self.model().len(),
    {
        self.crates.len()
    }

    /// The recorded crates.
    pub fn crates(&self) -> (r: &Vec<(String, CrateInfo)>)
        ensures
            r@.map_values(|e: (String, CrateInfo)| crate_model(e)) == self.model(),
    {
        &self.crates
    }
}

/// Recording a crate works as a map by name does: afterwards the name
/// occurs once and carries the recorded features, and every crate of
/// another name is kept as it was.
pub proof fn law_insert_crate_is_a_map_update(crates: Seq<CrateModel>, c: CrateModel)
    requires
        names_distinct(crates),
    ensures
        names_distinct(insert_crate(crates, c)),
        has_crate(insert_crate(crates, c), c.0),
        forall|i: int| 0 <= i < insert_crate(crates, c).len() && (#[trigger] insert_crate(crates, c)[i]).0 == c.0
            ==> insert_crate(crates, c)[i] == c,
        forall|j: int| 0 <= j < crates.len() && (#[trigger] crates[j]).0 != c.0 ==> insert_crate(crates, c).contains(crates[j]),
        forall|i: int| 0 <= i < insert_crate(crates, c).len() && (#[trigger] insert_crate(crates, c)[i]).0 != c.0
            ==> crates.contains(insert_crate(crates, c)[i]),
{
    let r = insert_crate(crates, c);
    if has_crate(crates, c.0) {
        let k = choose|k: int| 0 <= k < crates.len() && crates[k].0 == c.0;
        assert(r == crates.update(k, c));
        assert(r[k] == c);
        assert forall|i: int| 0 <= i < r.len() && (#[trigger] r[i]).0 == c.0 implies r[i] == c by {
            if i != k {
                assert(crates[i].0 != crates[k].0);
            }
        }
        assert forall|j: int| 0 <= j < crates.len() && (#[trigger] crates[j]).0 != c.0 implies r.contains(crates[j]) by {
            assert(r[j] == crates[j]);
        }
        assert forall|i: int| 0 <= i < r.len() && (#[trigger] r[i]).0 != c.0 implies crates.contains(r[i]) by {
            assert(r[i] == crates[i]);
        }
        assert forall|a: int, b: int| 0 <= a < r.len() && 0 <= b < r.len() && a != b implies r[a].0 != r[b].0 by {
            if a != k && b != k {
                assert(crates[a].0 != crates[b].0);
            } else if a == k {
                assert(crates[b].0 != crates[k].0);
            } else {
                assert(crates[a].0 != crates[k].0);
            }
        }
    } else {
        assert(r == crates.push(c));
        assert(r[crates.len() as int] == c);
        assert forall|i: int| 0 <= i < r.len() && (#[trigger] r[i]).0 == c.0 implies r[i] == c by {
            if i < crates.len() {
                assert(r[i] == crates[i]);
            }
        }
        assert forall|j: int| 0 <= j < crates.len() && (#[trigger] crates[j]).0 != c.0 implies r.contains(crates[j]) by {
            assert(r[j] == crates[j]);
        }
        assert forall|i: int| 0 <= i < r.len() && (#[trigger] r[i]).0 != c.0 implies crates.contains(r[i]) by {
            assert(r[i] == crates[i]);
        }
        assert forall|a: int, b: int| 0 <= a < r.len() && 0 <= b < r.len() && a != b implies r[a].0 != r[b].0 by {
            if a < crates.len() && b < crates.len() {
                assert(crates[a].0 != crates[b].0);
            } else if a < crates.len() {
                assert(r[a] == crates[a]);
            } else {
                assert(r[b] == crates[b]);
            }
        }
    }
}

/// What a parsed member manifest contributes: its package with its
/// features, when it names one.
pub open spec fn manifest_crate(doc: TomlValue) -> Option<CrateModel> {
    match manifest_name(doc) {
        Some(name) => Some((name, manifest_features(doc))),
        None => None,
    }
}

/// The crates recorded from what the member manifests contribute, in
/// order, starting from `crates`: a manifest that names no package is
/// skipped.
pub open spec fn record_all(crates: Seq<CrateModel>, items: Seq<Option<CrateModel>>) -> Seq<CrateModel>
    decreases items.len(),
{
    if items.len() == 0 {
        crates
    } else {
        let prev = record_all(crates, items.drop_last());
        match items.last() {
            None => prev,
            Some(c) => insert_crate(prev, c),
        }
    }
}

/// Recording what one manifest contributes.
proof fn lemma_record_one(crates: Seq<CrateModel>, item: Option<CrateModel>)
    ensures
        record_all(crates, seq![item]) == match item {
            None => crates,
            Some(c) => insert_crate(crates, c),
        },
{
    let one = seq![item];
    assert(one.drop_last() =~= Seq::<Option<CrateModel>>::empty());
    assert(record_all(crates, one.drop_last()) == crates);
    assert(one.last() == item);
}

/// Whether the `i`-th item names the package.
pub open spec fn names_package(items: Seq<Option<CrateModel>>, i: int, name: Seq<char>) -> bool {
    0 <= i < items.len() && items[i] is Some && (items[i]->0).0 == name
}

/// Whether the `i`-th item is the last one to name the package.
pub open spec fn last_to_name(items: Seq<Option<CrateModel>>, i: int, name: Seq<char>) -> bool {
    &&& names_package(items, i, name)
    &&& forall|j: int| i < j < items.len() ==> !#[trigger] names_package(items, j, name)
}

/// Recording a crate of another name leaves what is recorded under `name`
/// as it was.
proof fn lemma_insert_other_name(prev: Seq<CrateModel>, c: CrateModel, name: Seq<char>)
    requires
        names_distinct(prev),
        c.0 != name,
    ensures
        names_distinct(insert_crate(prev, c)),
        has_crate(insert_crate(prev, c), name) == has_crate(prev, name),
        forall|k: int| 0 <= k < insert_crate(prev, c).len() && (#[trigger] insert_crate(prev, c)[k]).0 == name
            ==> prev.contains(insert_crate(prev, c)[k]),
{
    let r = insert_crate(prev, c);
    law_insert_crate_is_a_map_update(prev, c);
    if has_crate(r, name) {
        let k = choose|k: int| 0 <= k < r.len() && r[k].0 == name;
        assert(prev.contains(r[k]));
        let j = choose|j: int| 0 <= j < prev.len() && prev[j] == r[k];
        assert(prev[j].0 == name);
    }
    if has_crate(prev, name) {
        let j = choose|j: int| 0 <= j < prev.len() && prev[j].0 == name;
        assert(r.contains(prev[j]));
        let k = choose|k: int| 0 <= k < r.len() && r[k] == prev[j];
        assert(r[k].0 == name);
    }
}

/// Recording a crate makes it the one entry under its name.
proof fn lemma_insert_same_name(prev: Seq<CrateModel>, c: CrateModel)
    requires
        names_distinct(prev),
    ensures
        names_distinct(insert_crate(prev, c)),
        has_crate(insert_crate(prev, c), c.0),
        forall|k: int| 0 <= k < insert_crate(prev, c).len() && (#[trigger] insert_crate(prev, c)[k]).0 == c.0
            ==> insert_crate(prev, c)[k] == c,
{
    law_insert_crate_is_a_map_update(prev, c);
}

/// Recording member manifests works as a map by package name does: each
/// name occurs once; a name is recorded exactly when it was before or some
/// manifest names it; it carries what the last manifest that names it
/// holds; and a crate that no manifest names is kept as it was.
pub proof fn law_members_recorded_by_name(crates: Seq<CrateModel>, items: Seq<Option<CrateModel>>, name: Seq<char>)
    requires
        names_distinct(crates),
    ensures
        names_distinct(record_all(crates, items)),
        has_crate(record_all(crates, items), name) <==> (has_crate(crates, name) || exists|i: int|
            #[trigger] names_package(items, i, name)),
        forall|i: int, k: int|
            #[trigger] last_to_name(items, i, name) && 0 <= k < record_all(crates, items).len() && (
            #[trigger] record_all(crates, items)[k]).0 == name ==> record_all(crates, items)[k] == items[i]->0,
        (forall|i: int| !#[trigger] names_package(items, i, name)) ==> forall|k: int|
            0 <= k < record_all(crates, items).len() && (#[trigger] record_all(crates, items)[k]).0 == name
                ==> crates.contains(record_all(crates, items)[k]),
    decreases items.len(),
{
    let r = record_all(crates, items);
    if items.len() == 0 {
        return;
    }
    let pi = items.drop_last();
    let last = items.len() - 1;
    law_members_recorded_by_name(crates, pi, name);
    let prev = record_all(crates, pi);
    assert(items.last() == items[last]);
    assert forall|j: int| #[trigger] names_package(pi, j, name) implies names_package(items, j, name) by {
        assert(pi[j] == items[j]);
    }
    assert forall|j: int| j != last && #[trigger] names_package(items, j, name) implies names_package(pi, j, name) by {
        assert(pi[j] == items[j]);
    }
    if names_package(items, last, name) {
        let c = items[last]->0;
        assert(r == insert_crate(prev, c));
        lemma_insert_same_name(prev, c);
        assert forall|i: int, k: int|
            #[trigger] last_to_name(items, i, name) && 0 <= k < r.len() && (#[trigger] r[k]).0 == name implies r[k]
                == items[i]->0 by {
            if i < last {
                assert(names_package(items, last, name));
            }
        }
    } else {
        assert forall|i: int| #[trigger] last_to_name(items, i, name) implies last_to_name(pi, i, name) by {
            assert(names_package(pi, i, name));
            assert forall|j: int| i < j < pi.len() implies !#[trigger] names_package(pi, j, name) by {
                if names_package(pi, j, name) {
                    assert(names_package(items, j, name));
                }
            }
        }
        match items[last] {
            None => {
                assert(r == prev);
            },
            Some(c) => {
                assert(r == insert_crate(prev, c));
                lemma_insert_other_name(prev, c, name);
                assert forall|i: int, k: int|
                    #[trigger] last_to_name(items, i, name) && 0 <= k < r.len() && (#[trigger] r[k]).0 == name implies r[k]
                        == items[i]->0 by {
                    assert(last_to_name(pi, i, name));
                    let j = choose|j: int| 0 <= j < prev.len() && prev[j] == r[k];
                    assert(prev[j].0 == name);
                }
                assert forall|k: int| 0 <= k < r.len() && (#[trigger] r[k]).0 == name && (forall|i: int|
                    !#[trigger] names_package(pi, i, name)) implies crates.contains(r[k]) by {
                    let j = choose|j: int| 0 <= j < prev.len() && prev[j] == r[k];
                    assert(prev[j].0 == name);
                }
            },
        }
    }
}

} // verus!
