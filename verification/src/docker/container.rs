//! Containers as they are listed.

use vstd::prelude::*;

use crate::text;

verus! {

/// The state of a container.
#[derive(Clone, Copy, Debug, PartialEq, Eq, Structural)]
pub enum ContainerStateStatusEnum {
    Created,
    Running,
    Paused,
    Restarting,
    Removing,
    Exited,
    Dead,
    Empty,
}

/// A label of a container.
#[derive(Clone, Debug, PartialEq, Eq)]
pub struct Label {
    pub name: String,
    pub value: String,
}

/// A container as it is listed.
#[derive(Clone, Debug, PartialEq, Eq)]
pub struct ContainerListItem {
    pub id: Option<String>,
    pub name: String,
    pub state: ContainerStateStatusEnum,
    pub network_mode: Option<String>,
    pub networks: Vec<String>,
    pub volumes: Vec<String>,
    /// The labels; no name occurs twice.
    pub labels: Vec<Label>,
}

/// The value of the label with the name.
pub open spec fn label_of(labels: Seq<Label>, name: Seq<char>) -> Option<Seq<char>>
    decreases labels.len(),
{
    if labels.len() == 0 {
        None
    } else if labels[0].name@ == name {
        Some(labels[0].value@)
    } else {
        label_of(labels.drop_first(), name)
    }
}

/// The value of the label with the name.
pub fn label<'a>(labels: &'a Vec<Label>, name: &str) -> (value: Option<&'a str>)
    ensures
        match value {
            Some(found) => label_of(labels@, name@) == Some(found@),
            None => label_of(labels@, name@) is None,
        },
{
    assert(labels@.skip(0) =~= labels@);
    for i in 0..labels.len()
        invariant
            label_of(labels@, name@) == label_of(labels@.skip(i as int), name@),
    {
        assert(labels@.skip(i as int).drop_first() =~= labels@.skip(i + 1));
        if text::same(labels[i].name.as_str(), name) {
            return Some(labels[i].value.as_str());
        }
    }
    None
}

/// The container runs.
pub fn is_running(container: &ContainerListItem) -> (running: bool)
    ensures
        running == (container.state == ContainerStateStatusEnum::Running),
{
    match container.state {
        ContainerStateStatusEnum::Running => true,
        _ => false,
    }
}

} // verus!
