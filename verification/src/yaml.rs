//! The call into `serde_yaml` that reads a frontmatter block as a mapping.

use vstd::prelude::*;

verus! {

/// A YAML value of a mapping entry: a scalar with its content (a number as
/// its text), or the kind of any other value.
#[derive(Debug)]
pub enum YamlValue {
    Null,
    Bool(bool),
    Number(String),
    Str(String),
    Sequence,
    Mapping,
    Tagged,
}

/// The view of a YAML value: its kind and content as plain values.
pub enum YamlScalar {
    Null,
    Bool(bool),
    Number(Seq<char>),
    Str(Seq<char>),
    Sequence,
    Mapping,
    Tagged,
}

impl View for YamlValue {
    type V = YamlScalar;

    open spec fn view(&self) -> YamlScalar {
        match self {
            YamlValue::Null => YamlScalar::Null,
            YamlValue::Bool(b) => YamlScalar::Bool(*b),
            YamlValue::Number(t) => YamlScalar::Number(t@),
            YamlValue::Str(s) => YamlScalar::Str(s@),
            YamlValue::Sequence => YamlScalar::Sequence,
            YamlValue::Mapping => YamlScalar::Mapping,
            YamlValue::Tagged => YamlScalar::Tagged,
        }
    }
}

/// The view of the entries: each key's string and each value's view.
pub open spec fn entries_view(v: Seq<(Option<String>, YamlValue)>) -> Seq<
    (Option<Seq<char>>, YamlScalar),
> {
    v.map_values(|e: (Option<String>, YamlValue)| (e.0.deep_view(), e.1@))
}

/// What `serde_yaml::from_str::<serde_yaml::Mapping>` gives for `text`, as the
/// mapping's entries in order: the key's string (`Value::as_str`; `None` for a
/// key that is not a string) and the value, one variant per `serde_yaml::Value`
/// variant (a number as its `Display` text). `None` when parsing fails.
pub uninterp spec fn yaml_entries(text: Seq<char>) -> Option<Seq<(Option<Seq<char>>, YamlScalar)>>;

/// Calls `serde_yaml::from_str::<serde_yaml::Mapping>` on `text` and hands its
/// entries over as plain values, one variant per value variant. The contract
/// claims only that the result is the one `yaml_entries` names for `text`.
#[verifier::external_body]
pub(crate) fn yaml_mapping_entries(text: &str) -> (r: Option<Vec<(Option<String>, YamlValue)>>)
    ensures
        match r {
            Some(v) => yaml_entries(text@) == Some(entries_view(v@)),
            None => yaml_entries(text@) is None,
        },
{
    let map = serde_yaml::from_str::<serde_yaml::Mapping>(text).ok()?;
    Some(map.into_iter().map(|(k, v)| (k.as_str().map(String::from), match v {
        serde_yaml::Value::Null => YamlValue::Null,
        serde_yaml::Value::Bool(b) => YamlValue::Bool(b),
        serde_yaml::Value::Number(n) => YamlValue::Number(n.to_string()),
        serde_yaml::Value::String(s) => YamlValue::Str(s),
        serde_yaml::Value::Sequence(_) => YamlValue::Sequence,
        serde_yaml::Value::Mapping(_) => YamlValue::Mapping,
        serde_yaml::Value::Tagged(_) => YamlValue::Tagged,
    })).collect())
}

} // verus!
