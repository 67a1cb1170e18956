//! TOML documents, parsed by the `toml` crate and held as plain values.
use vstd::prelude::*;

verus! {

#[verifier::external_type_specification]
#[verifier::external_body]
pub struct ExTomlValue(toml::Value);

#[verifier::external_type_specification]
#[verifier::external_body]
pub struct ExTomlDeError(toml::de::Error);

/// A TOML value.  Tables keep their entries in the order the parser hands
/// them out; floats and date-times, which nothing here reads, are `Other`.
pub enum TomlValue {
    Str(String),
    Integer(i64),
    Boolean(bool),
    Array(Vec<TomlValue>),
    Table(Vec<(String, TomlValue)>),
    Other,
}

/// The document that `toml` parses from a text (`toml::Value`'s `FromStr`),
/// `None` when the text is not valid TOML.
pub uninterp spec fn toml_document(text: Seq<char>) -> Option<TomlValue>;

/// Copies a parsed `toml::Value` into a `TomlValue`, variant for variant
/// and entry for entry; it decides nothing.
#[verifier::external_body]
fn toml_value_model(v: toml::Value) -> TomlValue {
    match v {
        toml::Value::String(s) => TomlValue::Str(s),
        toml::Value::Integer(i) => TomlValue::Integer(i),
        toml::Value::Boolean(b) => TomlValue::Boolean(b),
        toml::Value::Array(a) => TomlValue::Array(a.into_iter().map(toml_value_model).collect()),
        toml::Value::Table(t) => TomlValue::Table(
            t.into_iter().map(|(k, v)| (k, toml_value_model(v))).collect(),
        ),
        toml::Value::Float(_) => TomlValue::Other,
        toml::Value::Datetime(_) => TomlValue::Other,
    }
}

/// Parses a text with `toml::Value`'s `FromStr`.  The contract claims that
/// the parse succeeds exactly when `toml_document` names a document for the
/// text, and that the value handed back is that document.
#[verifier::external_body]
fn parse_toml_value(text: &str) -> (r: Result<TomlValue, toml::de::Error>)
    ensures
        r is Ok <==> toml_document(text@) is Some,
        r matches Ok(v) ==> toml_document(text@) == Some(v),
{
    text.parse::<toml::Value>().map(toml_value_model)
}

/// The message `toml::de::Error` displays.  Nothing is claimed of it.
#[verifier::external_body]
fn toml_error_message(e: &toml::de::Error) -> String {
    e.to_string()
}

/// A text that is not valid TOML, with the parser's message.
#[derive(Debug)]
pub struct TomlSyntaxError {
    pub message: String,
}

/// Parses a TOML document.
pub fn parse_toml(text: &str) -> (r: Result<TomlValue, TomlSyntaxError>)
    ensures
        r is Ok <==> toml_document(text@) is Some,
        r matches Ok(v) ==> toml_document(text@) == Some(v),
{
    match parse_toml_value(text) {
        Ok(v) => Ok(v),
        Err(e) => Err(TomlSyntaxError { message: toml_error_message(&e) }),
    }
}

/// The value of a key in the entries of a table: the first entry with that
/// key (a parsed table has each key once).
pub open spec fn entries_get(entries: Seq<(String, TomlValue)>, key: Seq<char>) -> Option<TomlValue>
    decreases entries.len(),
{
    if entries.len() == 0 {
        None
    } else if entries[0].0@ == key {
        Some(entries[0].1)
    } else {
        entries_get(entries.drop_first(), key)
    }
}

/// The value of a key when `v` is a table, as `toml::Value::get` finds it.
pub open spec fn value_get(v: TomlValue, key: Seq<char>) -> Option<TomlValue> {
    match v {
        TomlValue::Table(entries) => entries_get(entries@, key),
        _ => None,
    }
}

/// The text of a string value.
pub open spec fn value_str(v: TomlValue) -> Option<Seq<char>> {
    match v {
        TomlValue::Str(s) => Some(s@),
        _ => None,
    }
}

/// The string items of a sequence of values, others left out.
pub open spec fn string_items(items: Seq<TomlValue>) -> Seq<Seq<char>>
    decreases items.len(),
{
    if items.len() == 0 {
        seq![]
    } else {
        let rest = string_items(items.drop_last());
        match items.last() {
            TomlValue::Str(s) => rest.push(s@),
            _ => rest,
        }
    }
}

impl TomlValue {
    /// The value of a key when this is a table.
    pub fn get(&self, key: &String) -> (r: Option<&TomlValue>)
        ensures
            r matches Some(v) ==> value_get(*self, key@) == Some(*v),
            r is None ==> value_get(*self, key@) is None,
    {
        match self {
            TomlValue::Table(entries) => {
                let mut i: usize = 0;
                assert(entries@.skip(0) == entries@);
                while i < entries.len()
                    invariant
                        i <= entries@.len(),
                        entries_get(entries@, key@) == entries_get(entries@.skip(i as int), key@),
                        value_get(*self, key@) == entries_get(entries@, key@),
                    decreases entries@.len() - i,
                {
                    assert(entries@.skip(i as int).drop_first() == entries@.skip(i + 1));
                    assert(entries@.skip(i as int)[0] == entries@[i as int]);
                    if entries[i].0 == *key {
                        return Some(&entries[i].1);
                    }
                    i += 1;
                }
                None
            },
            _ => None,
        }
    }

    /// The text when this is a string.
    pub fn as_str(&self) -> (r: Option<&String>)
        ensures
            r matches Some(s) ==> value_str(*self) == Some(s@),
            r is None ==> value_str(*self) is None,
    {
        match self {
            TomlValue::Str(s) => Some(s),
            _ => None,
        }
    }

    /// The string items when this is an array.
    pub fn string_items(&self) -> (r: Option<Vec<String>>)
        ensures
            match *self {
                TomlValue::Array(items) => r matches Some(v) && v.deep_view() == string_items(items@),
                _ => r is None,
            },
    {
        match self {
            TomlValue::Array(items) => {
                let mut out: Vec<String> = Vec::new();
                let mut i: usize = 0;
                while i < items.len()
                    invariant
                        i <= items@.len(),
                        out.deep_view() == string_items(items@.take(i as int)),
                    decreases items@.len() - i,
                {
                    assert(items@.take(i + 1).drop_last() == items@.take(i as int));
                    match &items[i] {
                        TomlValue::Str(s) => {
                            let ghost before = out.deep_view();
                            out.push(s.clone());
                            assert(out.deep_view() =~= before.push(s@));
                        },
                        _ => {},
                    }
                    i += 1;
                }
                assert(items@.take(items@.len() as int) == items@);
                Some(out)
            },
            _ => None,
        }
    }
}

/// The value of a key is that of the first entry with the key, and there
/// is none exactly when no entry has the key.
pub proof fn law_get_finds_the_first_entry_with_the_key(entries: Seq<(String, TomlValue)>, key: Seq<char>)
    ensures
        entries_get(entries, key) is None <==> forall|i: int| 0 <= i < entries.len() ==> (#[trigger] entries[i]).0@ != key,
        entries_get(entries, key) matches Some(v) ==> exists|i: int|
            0 <= i < entries.len() && (#[trigger] entries[i]).0@ == key && entries[i].1 == v && forall|j: int|
                0 <= j < i ==> (#[trigger] entries[j]).0@ != key,
    decreases entries.len(),
{
    if entries.len() > 0 {
        let rest = entries.drop_first();
        law_get_finds_the_first_entry_with_the_key(rest, key);
        assert forall|i: int| 0 <= i < rest.len() implies #[trigger] rest[i] == entries[i + 1] by {}
        if entries[0].0@ == key {
            assert(0 <= 0 < entries.len() && entries[0].0@ == key);
        } else {
            if entries_get(rest, key) is None {
                assert forall|i: int| 0 <= i < entries.len() implies (#[trigger] entries[i]).0@ != key by {
                    if i > 0 {
                        assert(rest[i - 1] == entries[i]);
                    }
                }
            } else {
                let v = entries_get(rest, key)->0;
                let i = choose|i: int|
                    0 <= i < rest.len() && (#[trigger] rest[i]).0@ == key && rest[i].1 == v && forall|j: int|
                        0 <= j < i ==> (#[trigger] rest[j]).0@ != key;
                assert(entries[i + 1] == rest[i]);
                assert forall|j: int| 0 <= j < i + 1 implies (#[trigger] entries[j]).0@ != key by {
                    if j > 0 {
                        assert(entries[j] == rest[j - 1]);
                    }
                }
                let k = i + 1;
                assert(0 <= k < entries.len() && entries[k].0@ == key && entries[k].1 == v);
                let w = choose|i: int| 0 <= i < rest.len() && (#[trigger] rest[i]).0@ == key;
                assert(entries[w + 1] == rest[w]);
            }
        }
    }
}

/// The string items of a list are those of its parts, in order: a string
/// gives its text, any other value nothing.
pub proof fn law_string_items_keep_the_strings_in_order(a: Seq<TomlValue>, b: Seq<TomlValue>, v: TomlValue)
    ensures
        string_items(a + b) == string_items(a) + string_items(b),
        string_items(seq![v]) == match v {
            TomlValue::Str(s) => seq![s@],
            _ => Seq::<Seq<char>>::empty(),
        },
    decreases b.len(),
{
    let one = seq![v];
    assert(one.drop_last() =~= Seq::<TomlValue>::empty());
    assert(string_items(one.drop_last()) =~= Seq::<Seq<char>>::empty());
    assert(one.last() == v);
    match v {
        TomlValue::Str(s) => {
            assert(Seq::<Seq<char>>::empty().push(s@) =~= seq![s@]);
        },
        _ => {},
    }
    if b.len() == 0 {
        assert(a + b =~= a);
        assert(string_items(a) + seq![] =~= string_items(a));
    } else {
        law_string_items_keep_the_strings_in_order(a, b.drop_last(), v);
        assert((a + b).drop_last() =~= a + b.drop_last());
        assert((a + b).last() == b.last());
        match b.last() {
            TomlValue::Str(s) => {
                assert(string_items(a) + string_items(b.drop_last()).push(s@) =~= (string_items(a) + string_items(
                    b.drop_last(),
                )).push(s@));
            },
            _ => {},
        }
    }
}

} // verus!
