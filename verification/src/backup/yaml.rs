//! YAML documents as values.

use vstd::prelude::*;

use crate::text;

verus! {

/// A YAML tag, as the YAML library holds it.
#[verifier::external_type_specification]
#[verifier::external_body]
pub struct ExTag(serde_yaml_ng::value::Tag);

/// A YAML value, as the YAML library holds it.
#[verifier::external_type_specification]
#[verifier::external_body]
pub struct ExValue(serde_yaml_ng::Value);

/// A YAML value.
#[derive(Debug)]
pub enum Yaml {
    Null,
    Text(String),
    List(Vec<Yaml>),
    Mapping(Vec<YamlEntry>),
    Tagged { tag: serde_yaml_ng::value::Tag, value: Box<Yaml> },
    /// A truth value or a number.
    Other(serde_yaml_ng::Value),
}

/// An entry of a map. No key of a map occurs twice.
#[derive(Debug)]
pub struct YamlEntry {
    pub key: Yaml,
    pub value: Yaml,
}

/// A YAML value over texts and sequences.
pub enum YamlModel {
    Null,
    Text(Seq<char>),
    List(Seq<YamlModel>),
    Mapping(Seq<(YamlModel, YamlModel)>),
    Tagged { tag: serde_yaml_ng::value::Tag, value: Box<YamlModel> },
    Other(serde_yaml_ng::Value),
}

/// A YAML value over texts and sequences.
pub open spec fn yaml_model(yaml: Yaml) -> YamlModel
    decreases yaml, 0nat,
{
    match yaml {
        Yaml::Null => YamlModel::Null,
        Yaml::Text(text) => YamlModel::Text(text@),
        Yaml::List(list) => YamlModel::List(yaml_models(list@)),
        Yaml::Mapping(entries) => YamlModel::Mapping(entry_models(entries@)),
        Yaml::Tagged { tag, value } => YamlModel::Tagged {
            tag,
            value: Box::new(yaml_model(*value)),
        },
        Yaml::Other(value) => YamlModel::Other(value),
    }
}

/// The values of a list over texts and sequences.
pub open spec fn yaml_models(list: Seq<Yaml>) -> Seq<YamlModel>
    decreases list, 1nat,
{
    if list.len() == 0 {
        Seq::empty()
    } else {
        yaml_models(list.drop_last()).push(yaml_model(list.last()))
    }
}

/// The entries of a map over texts and sequences.
pub open spec fn entry_models(entries: Seq<YamlEntry>) -> Seq<(YamlModel, YamlModel)>
    decreases entries, 1nat,
{
    if entries.len() == 0 {
        Seq::empty()
    } else {
        entry_models(entries.drop_last()).push(
            (yaml_model(entries.last().key), yaml_model(entries.last().value)),
        )
    }
}

/// Each value of a list has its place.
pub proof fn lemma_yaml_models(list: Seq<Yaml>)
    ensures
        yaml_models(list).len() == list.len(),
        forall|i: int|
            0 <= i < list.len() ==> #[trigger] yaml_models(list)[i] == yaml_model(list[i]),
    decreases list.len(),
{
    if list.len() > 0 {
        lemma_yaml_models(list.drop_last());
    }
}

/// Each entry of a map has its place.
pub proof fn lemma_entry_models(entries: Seq<YamlEntry>)
    ensures
        entry_models(entries).len() == entries.len(),
        forall|i: int|
            0 <= i < entries.len() ==> #[trigger] entry_models(entries)[i] == (
                yaml_model(entries[i].key),
                yaml_model(entries[i].value),
            ),
    decreases entries.len(),
{
    if entries.len() > 0 {
        lemma_entry_models(entries.drop_last());
    }
}

// ---------------------------------------------------------------------------
// Reading and writing
// ---------------------------------------------------------------------------

/// The value of `serde_yaml_ng`, taken apart variant by variant.
#[verifier::external_body]
fn taken_apart(value: serde_yaml_ng::Value) -> (yaml: Yaml) {
    match value {
        serde_yaml_ng::Value::Null => Yaml::Null,
        serde_yaml_ng::Value::String(text) => Yaml::Text(text),
        serde_yaml_ng::Value::Sequence(list) => Yaml::List(list.into_iter().map(taken_apart).collect()),
        serde_yaml_ng::Value::Mapping(map) => Yaml::Mapping(
            map.into_iter().map(
                |entry| YamlEntry { key: taken_apart(entry.0), value: taken_apart(entry.1) },
            ).collect(),
        ),
        serde_yaml_ng::Value::Tagged(tagged) => Yaml::Tagged {
            tag: tagged.tag,
            value: Box::new(taken_apart(tagged.value)),
        },
        other => Yaml::Other(other),
    }
}

/// The value of `serde_yaml_ng`, put together variant by variant.
#[verifier::external_body]
fn put_together(yaml: Yaml) -> (value: serde_yaml_ng::Value) {
    match yaml {
        Yaml::Null => serde_yaml_ng::Value::Null,
        Yaml::Text(text) => serde_yaml_ng::Value::String(text),
        Yaml::List(list) => serde_yaml_ng::Value::Sequence(list.into_iter().map(put_together).collect()),
        Yaml::Mapping(entries) => serde_yaml_ng::Value::Mapping(
            entries.into_iter().map(
                |entry| (put_together(entry.key), put_together(entry.value)),
            ).collect(),
        ),
        Yaml::Tagged { tag, value } => serde_yaml_ng::Value::Tagged(
            Box::new(serde_yaml_ng::value::TaggedValue { tag, value: put_together(*value) }),
        ),
        Yaml::Other(other) => other,
    }
}

/// The value that a YAML text holds, if it holds one.
pub uninterp spec fn yaml_in(text: Seq<char>) -> Option<YamlModel>;

/// `serde_yaml_ng::from_str` into a YAML value. Which texts hold a value, and
/// which one, is left to the crate; the result is a function of the text alone.
#[verifier::external_body]
pub(crate) fn parse_yaml(text: &str) -> (yaml: Option<Yaml>)
    ensures
        match yaml {
            Some(value) => yaml_in(text@) == Some(yaml_model(value)),
            None => yaml_in(text@) is None,
        },
{
    serde_yaml_ng::from_str::<serde_yaml_ng::Value>(text).ok().map(taken_apart)
}

/// The YAML text of a value, if it has one.
pub uninterp spec fn yaml_text_of(yaml: YamlModel) -> Option<Seq<char>>;

/// `serde_yaml_ng::to_string` of a YAML value. How the value is written is left
/// to the crate; the result is a function of the value alone.
#[verifier::external_body]
pub(crate) fn write_yaml(yaml: Yaml) -> (text: Option<String>)
    ensures
        text::held(text) == yaml_text_of(yaml_model(yaml)),
{
    serde_yaml_ng::to_string(&put_together(yaml)).ok()
}

// ---------------------------------------------------------------------------
// Looking at values
// ---------------------------------------------------------------------------

/// The value without its tags.
pub open spec fn untagged(yaml: YamlModel) -> YamlModel
    decreases yaml,
{
    match yaml {
        YamlModel::Tagged { tag, value } => untagged(*value),
        _ => yaml,
    }
}

/// The value without its tags.
pub fn untag(yaml: &Yaml) -> (inner: &Yaml)
    ensures
        yaml_model(*inner) == untagged(yaml_model(*yaml)),
        !(*inner is Tagged),
    decreases yaml,
{
    match yaml {
        Yaml::Tagged { tag: _, value } => untag(value),
        _ => yaml,
    }
}

/// The position of the first entry with the key.
pub open spec fn position_of_key(entries: Seq<(YamlModel, YamlModel)>, key: Seq<char>) -> Option<int>
    decreases entries.len(),
{
    if entries.len() == 0 {
        None
    } else {
        match position_of_key(entries.drop_last(), key) {
            Some(i) => Some(i),
            None => if entries.last().0 == YamlModel::Text(key) {
                Some(entries.len() - 1)
            } else {
                None
            },
        }
    }
}

/// The position of the first entry with the key.
pub fn find_key(entries: &Vec<YamlEntry>, key: &str) -> (position: Option<usize>)
    ensures
        match position {
            Some(i) => i < entries@.len() && position_of_key(entry_models(entries@), key@) == Some(
                i as int,
            ),
            None => position_of_key(entry_models(entries@), key@) is None,
        },
{
    let ghost all = entry_models(entries@);
    proof {
        lemma_entry_models(entries@);
        assert(all.take(0) =~= Seq::<(YamlModel, YamlModel)>::empty());
    }
    let mut found: Option<usize> = None;
    for i in 0..entries.len()
        invariant
            all == entry_models(entries@),
            all.len() == entries@.len(),
            forall|k: int|
                0 <= k < entries@.len() ==> #[trigger] all[k] == (
                    yaml_model(entries@[k].key),
                    yaml_model(entries@[k].value),
                ),
            match found {
                Some(k) => k < i && position_of_key(all.take(i as int), key@) == Some(k as int),
                None => position_of_key(all.take(i as int), key@) is None,
            },
    {
        proof {
            assert(all.take(i + 1).drop_last() =~= all.take(i as int));
            assert(all.take(i + 1).last() == all[i as int]);
        }
        let same = match &entries[i].key {
            Yaml::Text(name) => text::same(name.as_str(), key),
            _ => false,
        };
        if found.is_none() && same {
            found = Some(i);
        }
    }
    assert(all.take(all.len() as int) =~= all);
    found
}

/// A found key is there.
pub proof fn lemma_position(entries: Seq<(YamlModel, YamlModel)>, key: Seq<char>)
    ensures
        position_of_key(entries, key) matches Some(i) ==> 0 <= i < entries.len() && entries[i].0
            == YamlModel::Text(key),
    decreases entries.len(),
{
    if entries.len() > 0 {
        lemma_position(entries.drop_last(), key);
    }
}

/// Another value for a key does not change where keys are found.
pub proof fn lemma_position_of_update(
    entries: Seq<(YamlModel, YamlModel)>,
    i: int,
    value: YamlModel,
    key: Seq<char>,
)
    requires
        0 <= i < entries.len(),
    ensures
        position_of_key(entries.update(i, (entries[i].0, value)), key) == position_of_key(
            entries,
            key,
        ),
    decreases entries.len(),
{
    let after = entries.update(i, (entries[i].0, value));
    let rest = entries.drop_last();
    if i < rest.len() {
        assert(after.drop_last() =~= rest.update(i, (rest[i].0, value)));
        lemma_position_of_update(rest, i, value, key);
    } else {
        assert(after.drop_last() =~= rest);
    }
}

/// The value that a map gives to a key.
pub open spec fn field(yaml: YamlModel, key: Seq<char>) -> Option<YamlModel> {
    match untagged(yaml) {
        YamlModel::Mapping(entries) => match position_of_key(entries, key) {
            Some(i) => Some(entries[i].1),
            None => None,
        },
        _ => None,
    }
}

/// The value that a map gives to a key.
pub fn get<'a>(yaml: &'a Yaml, key: &str) -> (value: Option<&'a Yaml>)
    ensures
        match value {
            Some(found) => field(yaml_model(*yaml), key@) == Some(yaml_model(*found)),
            None => field(yaml_model(*yaml), key@) is None,
        },
{
    match untag(yaml) {
        Yaml::Mapping(entries) => match find_key(entries, key) {
            Some(i) => {
                proof {
                    lemma_entry_models(entries@);
                    assert(entry_models(entries@)[i as int] == (
                        yaml_model(entries@[i as int].key),
                        yaml_model(entries@[i as int].value),
                    ));
                }
                Some(&entries[i].value)
            },
            None => None,
        },
        _ => None,
    }
}

/// The text that a value holds.
pub open spec fn text_in(yaml: YamlModel) -> Option<Seq<char>> {
    match untagged(yaml) {
        YamlModel::Text(text) => Some(text),
        _ => None,
    }
}

/// The text that a value holds.
pub fn as_text(yaml: &Yaml) -> (text: Option<String>)
    ensures
        text::held(text) == text_in(yaml_model(*yaml)),
{
    match untag(yaml) {
        Yaml::Text(text) => Some(text.clone()),
        _ => None,
    }
}

/// The first entry with the key is found, and none where there is none.
pub proof fn first_keys_are_found(entries: Seq<(YamlModel, YamlModel)>, key: Seq<char>)
    ensures
        match position_of_key(entries, key) {
            Some(i) => 0 <= i < entries.len() && entries[i].0 == YamlModel::Text(key) && forall|
                j: int,
            | 0 <= j < i ==> (#[trigger] entries[j]).0 != YamlModel::Text(key),
            None => forall|j: int|
                0 <= j < entries.len() ==> (#[trigger] entries[j]).0 != YamlModel::Text(key),
        },
    decreases entries.len(),
{
    if entries.len() > 0 {
        let rest = entries.drop_last();
        first_keys_are_found(rest, key);
        let high = match position_of_key(entries, key) {
            Some(i) => i,
            None => entries.len() as int,
        };
        assert forall|j: int| 0 <= j < high implies (#[trigger] entries[j]).0 != YamlModel::Text(
            key,
        ) by {
            if j < rest.len() {
                assert(rest[j] == entries[j]);
            }
        }
    }
}

/// A tag does not hide what it is put on.
pub proof fn tags_hide_nothing(
    tag: serde_yaml_ng::value::Tag,
    value: YamlModel,
    key: Seq<char>,
)
    ensures
        field(YamlModel::Tagged { tag, value: Box::new(value) }, key) == field(value, key),
        text_in(YamlModel::Tagged { tag, value: Box::new(value) }) == text_in(value),
        forall|text: Seq<char>| #[trigger] text_in(YamlModel::Text(text)) == Some(text),
{
    assert forall|text: Seq<char>| #[trigger] text_in(YamlModel::Text(text)) == Some(text) by {
        assert(untagged(YamlModel::Text(text)) == YamlModel::Text(text));
    }
}

} // verus!
