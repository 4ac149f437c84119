//! Bind mounts in Compose files.

use vstd::prelude::*;

use crate::backup::preview;
use crate::backup::publication::RestorePublishPath;
use crate::backup::yaml;
use crate::backup::yaml::entry_models;
use crate::backup::yaml::yaml_model;
use crate::backup::yaml::yaml_models;
use crate::backup::yaml::Yaml;
use crate::backup::yaml::YamlEntry;
use crate::backup::yaml::YamlModel;
use crate::path;
use crate::text;
use crate::text::in_order;
use crate::text::texts;

verus! {

/// Why the bind mounts of a recovered stack are not known.
#[derive(Clone, Copy, Debug, PartialEq, Eq, Structural)]
pub enum ComposeError {
    /// The file is no YAML text.
    Parse,
    /// The rewritten file has no YAML text.
    Write,
    /// A mount has another form than Compose allows.
    InvalidMount,
    /// A mount that has to be resolved has no target.
    NoTarget,
    /// The deployed configuration has no mount with the same target.
    NotDeployed,
    /// The deployed mount is no bind mount.
    NoSource,
    /// The source of the deployed mount is not absolute.
    NotAbsolute,
    /// A Compose file lies outside the directory of the stack.
    UnsafePath,
    /// The directory of the stack is not restored.
    NoRunDirectory,
}

/// A mount of a service.
#[derive(Clone, Debug, PartialEq, Eq)]
pub enum BackupComposeMount {
    Short(String),
    Long { mount_type: Option<String>, source: Option<String>, target: Option<String> },
}

/// A mount over texts.
pub enum MountModel {
    Short(Seq<char>),
    Long { mount_type: Option<Seq<char>>, source: Option<Seq<char>>, target: Option<Seq<char>> },
}

/// A mount over texts.
pub open spec fn mount_model(mount: BackupComposeMount) -> MountModel {
    match mount {
        BackupComposeMount::Short(value) => MountModel::Short(value@),
        BackupComposeMount::Long { mount_type, source, target } => MountModel::Long {
            mount_type: text::held(mount_type),
            source: text::held(source),
            target: text::held(target),
        },
    }
}

/// A service as it was deployed.
#[derive(Clone, Debug, PartialEq, Eq)]
pub struct BackupComposeService {
    pub name: String,
    pub volumes: Vec<BackupComposeMount>,
}

// ---------------------------------------------------------------------------
// One mount
// ---------------------------------------------------------------------------

/// The position of the first colon that stands outside braces, where so many
/// braces are open.
pub open spec fn colon_position(value: Seq<char>, open: nat) -> Option<int>
    decreases value.len(),
{
    if value.len() == 0 {
        None
    } else if value[0] == ':' && open == 0 {
        Some(0int)
    } else {
        let inside = if value[0] == '{' {
            open + 1
        } else if value[0] == '}' && open > 0 {
            (open - 1) as nat
        } else {
            open
        };
        match colon_position(value.drop_first(), inside) {
            Some(i) => Some(i + 1),
            None => None,
        }
    }
}

/// What stands in front of and behind the first colon outside braces.
pub open spec fn split_mount(value: Seq<char>) -> Option<(Seq<char>, Seq<char>)> {
    match colon_position(value, 0) {
        Some(i) => Some((value.take(i), value.skip(i + 1))),
        None => None,
    }
}

/// What stands in front of and behind the first colon outside braces.
pub fn split_compose_short_mount(value: &str) -> (parts: Option<(String, String)>)
    ensures
        match parts {
            Some((source, suffix)) => split_mount(value@) == Some((source@, suffix@)),
            None => split_mount(value@) is None,
        },
{
    let chars = text::chars_of(value);
    let mut open: usize = 0;
    assert(chars@.skip(0) =~= chars@);
    for i in 0..chars.len()
        invariant
            chars@ == value@,
            open <= i,
            colon_position(value@, 0) == match colon_position(
                chars@.skip(i as int),
                open as nat,
            ) {
                Some(k) => Some(k + i),
                None => None::<int>,
            },
    {
        let c = chars[i];
        assert(chars@.skip(i as int).drop_first() =~= chars@.skip(i + 1));
        if c == ':' && open == 0 {
            assert(value@.skip(i + 1) =~= chars@.subrange(i + 1, chars@.len() as int));
            assert(value@.take(i as int) =~= chars@.subrange(0, i as int));
            return Some(
                (
                    text::text_between(&chars, 0, i),
                    text::text_between(&chars, i + 1, chars.len()),
                ),
            );
        }
        if c == '{' {
            open = open + 1;
        } else if c == '}' && open > 0 {
            open = open - 1;
        }
    }
    None
}

/// The text begins with a dot.
pub open spec fn begins_with_dot(value: Seq<char>) -> bool {
    value.len() > 0 && value[0] == '.'
}

fn dotted(value: &str) -> (begins: bool)
    ensures
        begins == begins_with_dot(value@),
{
    let chars = text::chars_of(value);
    chars.len() > 0 && chars[0] == '.'
}

/// The source of a mount, if it is a path on the host.
pub open spec fn bind_source(mount: MountModel) -> Option<Seq<char>> {
    match mount {
        MountModel::Long { mount_type, source, target } => match source {
            Some(path) => if mount_type == Some("bind"@) || (mount_type is None
                && path::is_absolute_path(path)) {
                Some(path)
            } else {
                None
            },
            None => None,
        },
        MountModel::Short(value) => match split_mount(value) {
            Some((source, suffix)) => if path::is_absolute_path(source) || begins_with_dot(source) {
                Some(source)
            } else {
                None
            },
            None => None,
        },
    }
}

/// The source of a mount, if it is a path on the host.
pub fn compose_bind_source(mount: &BackupComposeMount) -> (source: Option<String>)
    ensures
        text::held(source) == bind_source(mount_model(*mount)),
{
    match mount {
        BackupComposeMount::Long { mount_type, source, target: _ } => match source {
            Some(path) => if text::is_some_text(mount_type, "bind") || (mount_type.is_none()
                && path::path_is_absolute(path.as_str())) {
                Some(path.clone())
            } else {
                None
            },
            None => None,
        },
        BackupComposeMount::Short(value) => match split_compose_short_mount(value.as_str()) {
            Some((source, _)) => if path::path_is_absolute(source.as_str()) || dotted(
                source.as_str(),
            ) {
                Some(source)
            } else {
                None
            },
            None => None,
        },
    }
}

/// What stands in front of the first colon.
pub open spec fn before_colon(value: Seq<char>) -> Seq<char>
    decreases value.len(),
{
    if value.len() == 0 || value[0] == ':' {
        Seq::empty()
    } else {
        seq![value[0]] + before_colon(value.drop_first())
    }
}

fn until_colon(value: &str) -> (head: String)
    ensures
        head@ == before_colon(value@),
{
    let chars = text::chars_of(value);
    let mut head = String::new();
    let mut i: usize = 0;
    assert(chars@.skip(0) =~= chars@);
    assert(head@ + before_colon(chars@.skip(0)) =~= before_colon(value@));
    while i < chars.len() && chars[i] != ':'
        invariant
            i <= chars@.len(),
            head@ + before_colon(chars@.skip(i as int)) == before_colon(value@),
        decreases chars.len() - i,
    {
        let ghost before = head@;
        assert(chars@.skip(i as int).drop_first() =~= chars@.skip(i + 1));
        head.push(chars[i]);
        assert(before + before_colon(chars@.skip(i as int)) =~= head@ + before_colon(
            chars@.skip(i + 1),
        ));
        i = i + 1;
    }
    assert(before_colon(chars@.skip(i as int)) =~= Seq::<char>::empty());
    assert(head@ + Seq::<char>::empty() =~= head@);
    head
}

/// The path inside the container that a mount is for.
pub open spec fn mount_target(mount: MountModel) -> Option<Seq<char>> {
    match mount {
        MountModel::Long { mount_type, source, target } => target,
        MountModel::Short(value) => match split_mount(value) {
            Some((source, suffix)) => Some(before_colon(suffix)),
            None => None,
        },
    }
}

/// The path inside the container that a mount is for.
pub fn compose_mount_target(mount: &BackupComposeMount) -> (target: Option<String>)
    ensures
        text::held(target) == mount_target(mount_model(*mount)),
{
    match mount {
        BackupComposeMount::Long { mount_type: _, source: _, target } => match target {
            Some(path) => Some(path.clone()),
            None => None,
        },
        BackupComposeMount::Short(value) => match split_compose_short_mount(value.as_str()) {
            Some((_, suffix)) => Some(until_colon(suffix.as_str())),
            None => None,
        },
    }
}

// ---------------------------------------------------------------------------
// The mounts of a deployed stack
// ---------------------------------------------------------------------------

/// The bind sources of the mounts.
pub open spec fn bind_sources(volumes: Seq<BackupComposeMount>) -> Seq<Seq<char>>
    decreases volumes.len(),
{
    if volumes.len() == 0 {
        Seq::empty()
    } else {
        let before = bind_sources(volumes.drop_last());
        match bind_source(mount_model(volumes.last())) {
            Some(source) => before.push(source),
            None => before,
        }
    }
}

/// The bind sources of the services.
pub open spec fn service_sources(services: Seq<BackupComposeService>) -> Seq<Seq<char>>
    decreases services.len(),
{
    if services.len() == 0 {
        Seq::empty()
    } else {
        service_sources(services.drop_last()) + bind_sources(services.last().volumes@)
    }
}

fn sources_of(volumes: &Vec<BackupComposeMount>) -> (sources: Vec<String>)
    ensures
        texts(sources@) == bind_sources(volumes@),
{
    let mut sources: Vec<String> = Vec::new();
    assert(volumes@.take(0) =~= Seq::<BackupComposeMount>::empty());
    assert(texts(sources@) =~= Seq::<Seq<char>>::empty());
    for i in 0..volumes.len()
        invariant
            texts(sources@) == bind_sources(volumes@.take(i as int)),
    {
        let ghost before = texts(sources@);
        assert(volumes@.take(i + 1).drop_last() =~= volumes@.take(i as int));
        assert(volumes@.take(i + 1).last() == volumes@[i as int]);
        match compose_bind_source(&volumes[i]) {
            Some(source) => {
                sources.push(source);
                assert(texts(sources@) =~= before.push(source@));
            },
            None => {},
        }
    }
    assert(volumes@.take(volumes@.len() as int) =~= volumes@);
    sources
}

/// The sources of all bind mounts of a stack, as they are written.
pub fn compose_bind_sources(services: &Vec<BackupComposeService>) -> (sources: Vec<String>)
    ensures
        texts(sources@) == service_sources(services@),
{
    let mut sources: Vec<String> = Vec::new();
    assert(services@.take(0) =~= Seq::<BackupComposeService>::empty());
    assert(texts(sources@) =~= Seq::<Seq<char>>::empty());
    for i in 0..services.len()
        invariant
            texts(sources@) == service_sources(services@.take(i as int)),
    {
        let ghost before = texts(sources@);
        assert(services@.take(i + 1).drop_last() =~= services@.take(i as int));
        assert(services@.take(i + 1).last() == services@[i as int]);
        let mut more = sources_of(&services[i].volumes);
        let ghost added = texts(more@);
        sources.append(&mut more);
        assert(texts(sources@) =~= before + added);
    }
    assert(services@.take(services@.len() as int) =~= services@);
    sources
}

/// The paths on the host that the bind mounts of a stack show; a relative source
/// is seen from the directory of the stack. Nothing is left out yet because it
/// lies below another one.
pub fn compose_bind_paths(services: &Vec<BackupComposeService>, run_directory: &str) -> (paths: Vec<
    String,
>)
    ensures
        paths@.len() == service_sources(services@).len(),
        forall|i: int|
            0 <= i < paths@.len() ==> (#[trigger] paths@[i])@ == path::joined(
                run_directory@,
                service_sources(services@)[i],
            ),
{
    let sources = compose_bind_sources(services);
    let mut paths: Vec<String> = Vec::new();
    for i in 0..sources.len()
        invariant
            paths@.len() == i,
            texts(sources@) == service_sources(services@),
            forall|k: int|
                0 <= k < i ==> (#[trigger] paths@[k])@ == path::joined(
                    run_directory@,
                    texts(sources@)[k],
                ),
    {
        paths.push(path::join(run_directory, sources[i].as_str()));
    }
    assert(texts(sources@).len() == sources@.len());
    paths
}

/// A path and what it is when all links on the way are followed.
#[derive(Clone, Debug, PartialEq, Eq)]
pub struct CanonicalPath {
    pub path: String,
    pub canonical: String,
}

/// The absolute paths that are something else when links are followed.
pub open spec fn alias_pairs(paths: Seq<CanonicalPath>) -> Seq<(Seq<char>, Seq<char>)>
    decreases paths.len(),
{
    if paths.len() == 0 {
        Seq::empty()
    } else {
        let before = alias_pairs(paths.drop_last());
        let last = paths.last();
        if path::is_absolute_path(last.path@) && path::path_of(last.canonical@) != path::path_of(
            last.path@,
        ) {
            before.push((last.path@, last.canonical@))
        } else {
            before
        }
    }
}

/// The pairs over texts.
pub open spec fn pair_models(pairs: Seq<(String, String)>) -> Seq<(Seq<char>, Seq<char>)> {
    Seq::new(pairs.len(), |i: int| (pairs[i].0@, pairs[i].1@))
}

// ---------------------------------------------------------------------------
// Mapping sources
// ---------------------------------------------------------------------------

/// What the last pair with the key gives it.
pub open spec fn looked_up(pairs: Seq<(Seq<char>, Seq<char>)>, key: Seq<char>) -> Option<Seq<char>>
    decreases pairs.len(),
{
    if pairs.len() == 0 {
        None
    } else if pairs.last().0 == key {
        Some(pairs.last().1)
    } else {
        looked_up(pairs.drop_last(), key)
    }
}

fn look_up(pairs: &Vec<(String, String)>, key: &str) -> (value: Option<String>)
    ensures
        text::held(value) == looked_up(pair_models(pairs@), key@),
{
    let ghost all = pair_models(pairs@);
    let mut i: usize = pairs.len();
    assert(all.take(all.len() as int) =~= all);
    while i > 0
        invariant
            i <= pairs@.len(),
            all == pair_models(pairs@),
            looked_up(all, key@) == looked_up(all.take(i as int), key@),
        decreases i,
    {
        assert(all.take(i as int).drop_last() =~= all.take(i - 1));
        assert(all.take(i as int).last() == all[i - 1]);
        i = i - 1;
        if text::same(pairs[i].0.as_str(), key) {
            return Some(pairs[i].1.clone());
        }
    }
    None
}

fn collect_aliases(sources: &Vec<CanonicalPath>) -> (aliases: Vec<(String, String)>)
    ensures
        pair_models(aliases@) == alias_pairs(sources@),
{
    let mut aliases: Vec<(String, String)> = Vec::new();
    assert(sources@.take(0) =~= Seq::<CanonicalPath>::empty());
    assert(pair_models(aliases@) =~= Seq::<(Seq<char>, Seq<char>)>::empty());
    for i in 0..sources.len()
        invariant
            pair_models(aliases@) == alias_pairs(sources@.take(i as int)),
    {
        let ghost before = pair_models(aliases@);
        assert(sources@.take(i + 1).drop_last() =~= sources@.take(i as int));
        assert(sources@.take(i + 1).last() == sources@[i as int]);
        let one = &sources[i];
        if path::path_is_absolute(one.path.as_str()) && !path::same_path(
            one.canonical.as_str(),
            one.path.as_str(),
        ) {
            aliases.push((one.path.clone(), one.canonical.clone()));
            assert(pair_models(aliases@) =~= before.push((one.path@, one.canonical@)));
        }
    }
    assert(sources@.take(sources@.len() as int) =~= sources@);
    aliases
}

/// The first texts of the pairs.
pub open spec fn first_texts(pairs: Seq<(Seq<char>, Seq<char>)>) -> Seq<Seq<char>> {
    Seq::new(pairs.len(), |i: int| pairs[i].0)
}

/// The absolute bind sources that are something else when links are followed, in
/// order. A relative source moves with the directory of the stack and is not
/// told.
pub fn compose_bind_path_aliases(sources: &Vec<CanonicalPath>) -> (aliases: Vec<(String, String)>)
    ensures
        text::strictly_sorted(text::keys_of(aliases@)),
        text::keys_of(aliases@) == in_order(first_texts(alias_pairs(sources@))),
        forall|i: int|
            0 <= i < aliases@.len() ==> looked_up(
                alias_pairs(sources@),
                (#[trigger] aliases@[i]).0@,
            ) == Some(aliases@[i].1@),
{
    let pairs = collect_aliases(sources);
    let ghost all = pair_models(pairs@);
    let mut keys: Vec<String> = Vec::new();
    for i in 0..pairs.len()
        invariant
            all == pair_models(pairs@),
            texts(keys@) == first_texts(all).take(i as int),
    {
        let ghost before = texts(keys@);
        keys.push(pairs[i].0.clone());
        assert(texts(keys@) =~= before.push(pairs@[i as int].0@));
        assert(texts(keys@) =~= first_texts(all).take(i + 1));
    }
    assert(texts(keys@) =~= first_texts(all));
    let sorted = text::sorted_unique(&keys);
    let mut aliases: Vec<(String, String)> = Vec::new();
    for i in 0..sorted.len()
        invariant
            all == pair_models(pairs@),
            aliases@.len() == i,
            texts(sorted@) == in_order(first_texts(all)),
            forall|text: Seq<char>|
                texts(sorted@).contains(text) <==> first_texts(all).contains(text),
            forall|k: int| 0 <= k < i ==> (#[trigger] aliases@[k]).0@ == sorted@[k]@,
            forall|k: int|
                0 <= k < i ==> looked_up(all, (#[trigger] aliases@[k]).0@) == Some(aliases@[k].1@),
    {
        proof {
            assert(texts(sorted@)[i as int] == sorted@[i as int]@);
            assert(first_texts(all).contains(sorted@[i as int]@));
            let k = first_texts(all).index_of(sorted@[i as int]@);
            lemma_looked_up(all, k);
        }
        match look_up(&pairs, sorted[i].as_str()) {
            Some(value) => {
                aliases.push((sorted[i].clone(), value));
            },
            None => {},
        }
    }
    assert(text::keys_of(aliases@) =~= texts(sorted@));
    aliases
}

proof fn lemma_looked_up(pairs: Seq<(Seq<char>, Seq<char>)>, i: int)
    requires
        0 <= i < pairs.len(),
    ensures
        looked_up(pairs, pairs[i].0) is Some,
    decreases pairs.len(),
{
    if pairs.last().0 != pairs[i].0 {
        assert(pairs.drop_last()[i] == pairs[i]);
        lemma_looked_up(pairs.drop_last(), i);
    }
}

/// Where a source goes: with the deepest mapping that it lies below, and of
/// several such ones the last.
pub open spec fn mapped_by(source: Seq<char>, mappings: Seq<(Seq<char>, Seq<char>)>) -> Option<
    (int, Seq<char>),
>
    decreases mappings.len(),
{
    if mappings.len() == 0 {
        None
    } else {
        let before = mapped_by(source, mappings.drop_last());
        let (from, to) = mappings.last();
        match path::stripped(source, from) {
            None => before,
            Some(relative) => {
                let here = (preview::piece_count(from), path::joined(to, relative));
                match before {
                    Some(best) => if best.0 <= here.0 {
                        Some(here)
                    } else {
                        Some(best)
                    },
                    None => Some(here),
                }
            },
        }
    }
}

/// Where an absolute bind source goes, if it is mapped at all. A source that was
/// a link goes where what it led to goes.
pub open spec fn remapped(
    source: Seq<char>,
    mappings: Seq<(Seq<char>, Seq<char>)>,
    aliases: Seq<(Seq<char>, Seq<char>)>,
) -> Option<Seq<char>> {
    let actual = match looked_up(aliases, source) {
        Some(canonical) => canonical,
        None => source,
    };
    if !path::is_absolute_path(actual) {
        None
    } else {
        match mapped_by(actual, mappings) {
            Some(best) => Some(best.1),
            None => None,
        }
    }
}

/// Where an absolute bind source goes, if it is mapped at all.
pub fn remap_absolute_bind_source(
    source: &str,
    mappings: &Vec<(String, String)>,
    path_aliases: &Vec<(String, String)>,
) -> (mapped: Option<String>)
    ensures
        text::held(mapped) == remapped(
            source@,
            pair_models(mappings@),
            pair_models(path_aliases@),
        ),
{
    let actual = match look_up(path_aliases, source) {
        Some(canonical) => canonical,
        None => source.to_owned(),
    };
    if !path::path_is_absolute(actual.as_str()) {
        return None;
    }
    let ghost all = pair_models(mappings@);
    let mut best: Option<(usize, String)> = None;
    assert(all.take(0) =~= Seq::<(Seq<char>, Seq<char>)>::empty());
    for i in 0..mappings.len()
        invariant
            all == pair_models(mappings@),
            match best {
                Some((depth, mapped)) => mapped_by(actual@, all.take(i as int)) == Some(
                    (depth as int, mapped@),
                ),
                None => mapped_by(actual@, all.take(i as int)) is None,
            },
    {
        assert(all.take(i + 1).drop_last() =~= all.take(i as int));
        assert(all.take(i + 1).last() == all[i as int]);
        match path::strip_prefix(actual.as_str(), mappings[i].0.as_str()) {
            None => {},
            Some(relative) => {
                let depth = preview::count_pieces(mappings[i].0.as_str());
                let replace = match &best {
                    Some((deepest, _)) => *deepest <= depth,
                    None => true,
                };
                if replace {
                    best = Some(
                        (depth, path::join(mappings[i].1.as_str(), relative.as_str())),
                    );
                }
            },
        }
    }
    assert(all.take(all.len() as int) =~= all);
    match best {
        Some((_, mapped)) => Some(mapped),
        None => None,
    }
}

// ---------------------------------------------------------------------------
// The volumes of a document
// ---------------------------------------------------------------------------

/// A volume of a document, and the name of the service that it belongs to.
pub struct VolumeModel {
    pub service: Option<Seq<char>>,
    pub volume: YamlModel,
}

/// The volumes that a list holds.
pub open spec fn listed_volumes(service: Option<Seq<char>>, volumes: YamlModel) -> Seq<VolumeModel> {
    match yaml::untagged(volumes) {
        YamlModel::List(list) => Seq::new(
            list.len(),
            |i: int| VolumeModel { service, volume: list[i] },
        ),
        _ => Seq::empty(),
    }
}

/// The volumes of a service.
pub open spec fn volumes_of_service(name: YamlModel, service: YamlModel) -> Seq<VolumeModel> {
    match yaml::field(service, "volumes"@) {
        Some(volumes) => listed_volumes(yaml::text_in(name), volumes),
        None => Seq::empty(),
    }
}

/// The volumes of the services.
pub open spec fn volumes_of_services(entries: Seq<(YamlModel, YamlModel)>) -> Seq<VolumeModel>
    decreases entries.len(),
{
    if entries.len() == 0 {
        Seq::empty()
    } else {
        volumes_of_services(entries.drop_last()) + volumes_of_service(
            entries.last().0,
            entries.last().1,
        )
    }
}

/// The volumes of a document, in order.
pub open spec fn volumes_in(document: YamlModel) -> Seq<VolumeModel> {
    match yaml::field(document, "services"@) {
        Some(services) => match yaml::untagged(services) {
            YamlModel::Mapping(entries) => volumes_of_services(entries),
            _ => Seq::empty(),
        },
        None => Seq::empty(),
    }
}

/// What a field of a volume holds.
#[derive(Clone, Debug, PartialEq, Eq)]
pub enum VolumeField {
    /// The field is not there or is empty.
    Absent,
    Text(String),
    /// The field holds no text.
    Other,
}

/// What a field of a volume holds, over texts.
pub enum FieldModel {
    Absent,
    Text(Seq<char>),
    Other,
}

/// What a field of a volume holds, over texts.
pub open spec fn field_model(field: VolumeField) -> FieldModel {
    match field {
        VolumeField::Absent => FieldModel::Absent,
        VolumeField::Text(text) => FieldModel::Text(text@),
        VolumeField::Other => FieldModel::Other,
    }
}

/// What a field of a volume holds.
pub open spec fn field_of(entries: Seq<(YamlModel, YamlModel)>, key: Seq<char>) -> FieldModel {
    match yaml::position_of_key(entries, key) {
        None => FieldModel::Absent,
        Some(i) => match entries[i].1 {
            YamlModel::Null => FieldModel::Absent,
            YamlModel::Text(text) => FieldModel::Text(text),
            _ => FieldModel::Other,
        },
    }
}

/// The text that a field holds, whatever tag it has.
pub open spec fn text_of_field(entries: Seq<(YamlModel, YamlModel)>, key: Seq<char>) -> Option<
    Seq<char>,
> {
    match yaml::position_of_key(entries, key) {
        None => None,
        Some(i) => yaml::text_in(entries[i].1),
    }
}

/// The form of a volume.
#[derive(Clone, Debug, PartialEq, Eq)]
pub enum VolumeForm {
    Short(String),
    Long {
        mount_type: VolumeField,
        source: VolumeField,
        target: VolumeField,
        /// The text of the type, whatever tag it has.
        type_text: Option<String>,
        /// The text of the source, whatever tag it has.
        source_text: Option<String>,
    },
    /// Neither a text nor a map.
    Other,
}

/// The form of a volume, over texts.
pub enum FormModel {
    Short(Seq<char>),
    Long {
        mount_type: FieldModel,
        source: FieldModel,
        target: FieldModel,
        type_text: Option<Seq<char>>,
        source_text: Option<Seq<char>>,
    },
    Other,
}

/// The form of a volume, over texts.
pub open spec fn form_model(form: VolumeForm) -> FormModel {
    match form {
        VolumeForm::Short(value) => FormModel::Short(value@),
        VolumeForm::Long { mount_type, source, target, type_text, source_text } => FormModel::Long {
            mount_type: field_model(mount_type),
            source: field_model(source),
            target: field_model(target),
            type_text: text::held(type_text),
            source_text: text::held(source_text),
        },
        VolumeForm::Other => FormModel::Other,
    }
}

/// The form of a volume.
pub open spec fn form_of(volume: YamlModel) -> FormModel {
    match volume {
        YamlModel::Text(value) => FormModel::Short(value),
        YamlModel::Mapping(entries) => FormModel::Long {
            mount_type: field_of(entries, "type"@),
            source: field_of(entries, "source"@),
            target: field_of(entries, "target"@),
            type_text: text_of_field(entries, "type"@),
            source_text: text_of_field(entries, "source"@),
        },
        _ => FormModel::Other,
    }
}

fn read_field(entries: &Vec<YamlEntry>, key: &str) -> (field: VolumeField)
    ensures
        field_model(field) == field_of(entry_models(entries@), key@),
{
    match yaml::find_key(entries, key) {
        None => VolumeField::Absent,
        Some(i) => {
            proof {
                yaml::lemma_entry_models(entries@);
                assert(entry_models(entries@)[i as int] == (
                    yaml_model(entries@[i as int].key),
                    yaml_model(entries@[i as int].value),
                ));
            }
            match &entries[i].value {
                Yaml::Null => VolumeField::Absent,
                Yaml::Text(text) => VolumeField::Text(text.clone()),
                _ => VolumeField::Other,
            }
        },
    }
}

fn read_text(entries: &Vec<YamlEntry>, key: &str) -> (text: Option<String>)
    ensures
        text::held(text) == text_of_field(entry_models(entries@), key@),
{
    match yaml::find_key(entries, key) {
        None => None,
        Some(i) => {
            proof {
                yaml::lemma_entry_models(entries@);
                assert(entry_models(entries@)[i as int] == (
                    yaml_model(entries@[i as int].key),
                    yaml_model(entries@[i as int].value),
                ));
            }
            yaml::as_text(&entries[i].value)
        },
    }
}

fn read_form(volume: &Yaml) -> (form: VolumeForm)
    ensures
        form_model(form) == form_of(yaml_model(*volume)),
{
    match volume {
        Yaml::Text(value) => VolumeForm::Short(value.clone()),
        Yaml::Mapping(entries) => VolumeForm::Long {
            mount_type: read_field(entries, "type"),
            source: read_field(entries, "source"),
            target: read_field(entries, "target"),
            type_text: read_text(entries, "type"),
            source_text: read_text(entries, "source"),
        },
        _ => VolumeForm::Other,
    }
}

/// A volume of a document, and the name of the service that it belongs to.
#[derive(Clone, Debug, PartialEq, Eq)]
pub struct ComposeVolume {
    pub service: Option<String>,
    pub form: VolumeForm,
}

/// A volume over texts.
pub struct SeenModel {
    pub service: Option<Seq<char>>,
    pub form: FormModel,
}

/// A volume over texts.
pub open spec fn seen_model(volume: ComposeVolume) -> SeenModel {
    SeenModel { service: text::held(volume.service), form: form_model(volume.form) }
}

/// The volumes over texts.
pub open spec fn seen_models(volumes: Seq<ComposeVolume>) -> Seq<SeenModel> {
    Seq::new(volumes.len(), |i: int| seen_model(volumes[i]))
}

/// What is seen of the volumes.
pub open spec fn seen_as(volumes: Seq<VolumeModel>) -> Seq<SeenModel> {
    Seq::new(
        volumes.len(),
        |i: int| SeenModel { service: volumes[i].service, form: form_of(volumes[i].volume) },
    )
}

fn copy_name(name: &Option<String>) -> (copy: Option<String>)
    ensures
        text::held(copy) == text::held(*name),
{
    match name {
        Some(text) => Some(text.clone()),
        None => None,
    }
}

fn read_service(name: &Yaml, service: &Yaml) -> (volumes: Vec<ComposeVolume>)
    ensures
        seen_models(volumes@) == seen_as(
            volumes_of_service(yaml_model(*name), yaml_model(*service)),
        ),
{
    let mut volumes: Vec<ComposeVolume> = Vec::new();
    let ghost wanted = volumes_of_service(yaml_model(*name), yaml_model(*service));
    assert(seen_models(volumes@) =~= Seq::<SeenModel>::empty());
    let label = yaml::as_text(name);
    match yaml::get(service, "volumes") {
        None => {
            assert(seen_as(wanted) =~= Seq::<SeenModel>::empty());
        },
        Some(value) => match yaml::untag(value) {
            Yaml::List(list) => {
                proof {
                    yaml::lemma_yaml_models(list@);
                    assert(wanted.len() == list@.len());
                }
                for i in 0..list.len()
                    invariant
                        wanted.len() == list@.len(),
                        forall|k: int|
                            0 <= k < list@.len() ==> (#[trigger] wanted[k]).volume == yaml_model(
                                list@[k],
                            ) && wanted[k].service == text::held(label),
                        seen_models(volumes@) == seen_as(wanted).take(i as int),
                {
                    let ghost before = seen_models(volumes@);
                    let one = ComposeVolume {
                        service: copy_name(&label),
                        form: read_form(&list[i]),
                    };
                    volumes.push(one);
                    assert(wanted[i as int].volume == yaml_model(list@[i as int]));
                    assert(seen_models(volumes@) =~= before.push(seen_model(one)));
                    assert(seen_models(volumes@) =~= seen_as(wanted).take(i + 1));
                }
                assert(seen_as(wanted).take(wanted.len() as int) =~= seen_as(wanted));
            },
            _ => {
                assert(seen_as(wanted) =~= Seq::<SeenModel>::empty());
            },
        },
    }
    volumes
}

/// The volumes of a document, in order.
pub fn document_volumes(document: &Yaml) -> (volumes: Vec<ComposeVolume>)
    ensures
        seen_models(volumes@) == seen_as(volumes_in(yaml_model(*document))),
{
    let mut volumes: Vec<ComposeVolume> = Vec::new();
    let ghost wanted = volumes_in(yaml_model(*document));
    assert(seen_models(volumes@) =~= Seq::<SeenModel>::empty());
    match yaml::get(document, "services") {
        None => {
            assert(seen_as(wanted) =~= Seq::<SeenModel>::empty());
        },
        Some(services) => match yaml::untag(services) {
            Yaml::Mapping(entries) => {
                let ghost all = entry_models(entries@);
                proof {
                    yaml::lemma_entry_models(entries@);
                    assert(all.take(0) =~= Seq::<(YamlModel, YamlModel)>::empty());
                    assert(seen_as(volumes_of_services(all.take(0))) =~= Seq::<SeenModel>::empty());
                }
                for i in 0..entries.len()
                    invariant
                        all == entry_models(entries@),
                        all.len() == entries@.len(),
                        forall|k: int|
                            0 <= k < entries@.len() ==> #[trigger] all[k] == (
                                yaml_model(entries@[k].key),
                                yaml_model(entries@[k].value),
                            ),
                        seen_models(volumes@) == seen_as(volumes_of_services(all.take(i as int))),
                {
                    let ghost before = seen_models(volumes@);
                    let mut more = read_service(&entries[i].key, &entries[i].value);
                    let ghost added = seen_models(more@);
                    volumes.append(&mut more);
                    proof {
                        assert(all.take(i + 1).drop_last() =~= all.take(i as int));
                        assert(all.take(i + 1).last() == all[i as int]);
                        assert(seen_models(volumes@) =~= before + added);
                        assert(seen_as(volumes_of_services(all.take(i + 1))) =~= seen_as(
                            volumes_of_services(all.take(i as int)),
                        ) + seen_as(volumes_of_service(all[i as int].0, all[i as int].1)));
                    }
                }
                assert(all.take(all.len() as int) =~= all);
            },
            _ => {
                assert(seen_as(wanted) =~= Seq::<SeenModel>::empty());
            },
        },
    }
    volumes
}

// ---------------------------------------------------------------------------
// Other sources for the volumes of a document
// ---------------------------------------------------------------------------

/// The entries of a long mount with another source.
pub open spec fn with_source(entries: Seq<(YamlModel, YamlModel)>, source: Seq<char>) -> Seq<
    (YamlModel, YamlModel),
> {
    match yaml::position_of_key(entries, "source"@) {
        Some(i) => entries.update(i, (entries[i].0, YamlModel::Text(source))),
        None => entries.push((YamlModel::Text("source"@), YamlModel::Text(source))),
    }
}

/// A volume with another source, if it gets one.
pub open spec fn replaced_volume(volume: YamlModel, source: Option<Seq<char>>) -> YamlModel {
    match source {
        None => volume,
        Some(path) => match volume {
            YamlModel::Text(value) => match split_mount(value) {
                Some((before, suffix)) => YamlModel::Text(path + ":"@ + suffix),
                None => volume,
            },
            YamlModel::Mapping(entries) => YamlModel::Mapping(with_source(entries, path)),
            _ => volume,
        },
    }
}

/// A list of volumes with other sources.
pub open spec fn replaced_list(volumes: YamlModel, sources: Seq<Option<Seq<char>>>) -> YamlModel
    decreases volumes,
{
    match volumes {
        YamlModel::Tagged { tag, value } => YamlModel::Tagged {
            tag,
            value: Box::new(replaced_list(*value, sources)),
        },
        YamlModel::List(list) => YamlModel::List(
            Seq::new(list.len(), |i: int| replaced_volume(list[i], sources[i])),
        ),
        _ => volumes,
    }
}

/// A service whose volumes have other sources.
pub open spec fn replaced_service(service: YamlModel, sources: Seq<Option<Seq<char>>>) -> YamlModel
    decreases service,
{
    match service {
        YamlModel::Tagged { tag, value } => YamlModel::Tagged {
            tag,
            value: Box::new(replaced_service(*value, sources)),
        },
        YamlModel::Mapping(entries) => match yaml::position_of_key(entries, "volumes"@) {
            Some(i) => YamlModel::Mapping(
                entries.update(i, (entries[i].0, replaced_list(entries[i].1, sources))),
            ),
            None => service,
        },
        _ => service,
    }
}

/// The services, whose volumes have other sources.
pub open spec fn replaced_services(
    entries: Seq<(YamlModel, YamlModel)>,
    sources: Seq<Option<Seq<char>>>,
) -> Seq<(YamlModel, YamlModel)>
    decreases entries.len(),
{
    if entries.len() == 0 {
        Seq::empty()
    } else {
        let before = entries.drop_last();
        let (name, service) = entries.last();
        replaced_services(before, sources).push(
            (
                name,
                replaced_service(
                    service,
                    sources.skip(volumes_of_services(before).len() as int),
                ),
            ),
        )
    }
}

/// The map of services, whose volumes have other sources.
pub open spec fn replaced_service_map(services: YamlModel, sources: Seq<Option<Seq<char>>>) -> YamlModel
    decreases services,
{
    match services {
        YamlModel::Tagged { tag, value } => YamlModel::Tagged {
            tag,
            value: Box::new(replaced_service_map(*value, sources)),
        },
        YamlModel::Mapping(entries) => YamlModel::Mapping(replaced_services(entries, sources)),
        _ => services,
    }
}

/// A document whose volumes have other sources.
pub open spec fn replaced_document(document: YamlModel, sources: Seq<Option<Seq<char>>>) -> YamlModel
    decreases document,
{
    match document {
        YamlModel::Tagged { tag, value } => YamlModel::Tagged {
            tag,
            value: Box::new(replaced_document(*value, sources)),
        },
        YamlModel::Mapping(entries) => match yaml::position_of_key(entries, "services"@) {
            Some(i) => YamlModel::Mapping(
                entries.update(i, (entries[i].0, replaced_service_map(entries[i].1, sources))),
            ),
            None => document,
        },
        _ => document,
    }
}

/// The sources over texts.
pub open spec fn held_sources(sources: Seq<Option<String>>) -> Seq<Option<Seq<char>>> {
    Seq::new(sources.len(), |i: int| text::held(sources[i]))
}

fn replace_value(entries: Vec<YamlEntry>, position: usize, value: Yaml) -> (after: Vec<YamlEntry>)
    requires
        position < entries@.len(),
    ensures
        entry_models(after@) == entry_models(entries@).update(
            position as int,
            (entry_models(entries@)[position as int].0, yaml_model(value)),
        ),
{
    let ghost start = entries@;
    let mut after = entries;
    let entry = after.remove(position);
    after.insert(position, YamlEntry { key: entry.key, value });
    proof {
        yaml::lemma_entry_models(start);
        yaml::lemma_entry_models(after@);
        let wanted = entry_models(start).update(
            position as int,
            (entry_models(start)[position as int].0, yaml_model(value)),
        );
        assert forall|i: int| 0 <= i < wanted.len() implies #[trigger] entry_models(after@)[i]
            == wanted[i] by {
            if i != position {
                assert(after@[i] == start[i]);
                assert(entry_models(start)[i] == (
                    yaml_model(start[i].key),
                    yaml_model(start[i].value),
                ));
            } else {
                assert(entry_models(start)[i] == (
                    yaml_model(start[i].key),
                    yaml_model(start[i].value),
                ));
            }
        }
        assert(entry_models(after@) =~= wanted);
    }
    after
}

fn take_value(entries: Vec<YamlEntry>, position: usize) -> (taken: (Vec<YamlEntry>, Yaml))
    requires
        position < entries@.len(),
    ensures
        taken.1 == entries@[position as int].value,
        entry_models(entries@)[position as int].1 == yaml_model(taken.1),
        taken.0@.len() == entries@.len(),
        entry_models(taken.0@) == entry_models(entries@).update(
            position as int,
            (entry_models(entries@)[position as int].0, YamlModel::Null),
        ),
{
    let ghost start = entries@;
    let mut rest = entries;
    let entry = rest.remove(position);
    rest.insert(position, YamlEntry { key: entry.key, value: Yaml::Null });
    proof {
        yaml::lemma_entry_models(start);
        yaml::lemma_entry_models(rest@);
        let blank = entry_models(start).update(
            position as int,
            (entry_models(start)[position as int].0, YamlModel::Null),
        );
        assert forall|k: int| 0 <= k < blank.len() implies #[trigger] entry_models(rest@)[k]
            == blank[k] by {
            assert(entry_models(start)[k] == (yaml_model(start[k].key), yaml_model(start[k].value)));
            if k != position {
                assert(rest@[k] == start[k]);
            }
        }
        assert(entry_models(rest@) =~= blank);
    }
    (rest, entry.value)
}

fn set_source(entries: Vec<YamlEntry>, source: &str) -> (after: Vec<YamlEntry>)
    ensures
        entry_models(after@) == with_source(entry_models(entries@), source@),
{
    match yaml::find_key(&entries, "source") {
        Some(i) => {
            let value = Yaml::Text(source.to_owned());
            assert(yaml_model(value) == YamlModel::Text(source@));
            replace_value(entries, i, value)
        },
        None => {
            let ghost start = entries@;
            let mut after = entries;
            after.push(
                YamlEntry {
                    key: Yaml::Text("source".to_owned()),
                    value: Yaml::Text(source.to_owned()),
                },
            );
            proof {
                assert(after@.drop_last() =~= start);
                assert(yaml_model(after@.last().key) == YamlModel::Text("source"@));
                assert(yaml_model(after@.last().value) == YamlModel::Text(source@));
            }
            after
        },
    }
}

fn replace_volume(volume: Yaml, source: &Option<String>) -> (after: Yaml)
    ensures
        yaml_model(after) == replaced_volume(yaml_model(volume), text::held(*source)),
{
    let path = match source {
        None => {
            return volume;
        },
        Some(path) => path,
    };
    match volume {
        Yaml::Text(value) => match split_compose_short_mount(value.as_str()) {
            Some((_, suffix)) => Yaml::Text(
                text::concat3(path.as_str(), ":", suffix.as_str()),
            ),
            None => Yaml::Text(value),
        },
        Yaml::Mapping(entries) => Yaml::Mapping(set_source(entries, path.as_str())),
        other => other,
    }
}

fn replace_list(volumes: Yaml, sources: &Vec<Option<String>>, offset: usize) -> (after: Yaml)
    requires
        offset + listed_volumes(None, yaml_model(volumes)).len() <= sources@.len(),
    ensures
        yaml_model(after) == replaced_list(
            yaml_model(volumes),
            held_sources(sources@).skip(offset as int),
        ),
    decreases volumes,
{
    match volumes {
        Yaml::Tagged { tag, value } => Yaml::Tagged {
            tag,
            value: Box::new(replace_list(*value, sources, offset)),
        },
        Yaml::List(list) => {
            let ghost all = yaml_models(list@);
            let ghost given = held_sources(sources@).skip(offset as int);
            let ghost start = list@;
            let mut rest = list;
            let count: usize = rest.len();
            let total: usize = sources.len();
            let mut after: Vec<Yaml> = Vec::new();
            proof {
                yaml::lemma_yaml_models(start);
                assert(start.skip(0) =~= start);
            }
            for i in 0..count
                invariant
                    count == start.len(),
                    offset + count <= total,
                    total == sources@.len(),
                    given == held_sources(sources@).skip(offset as int),
                    all.len() == count,
                    forall|k: int|
                        0 <= k < count ==> #[trigger] all[k] == yaml_model(start[k]),
                    rest@ == start.skip(i as int),
                    after@.len() == i,
                    forall|k: int|
                        0 <= k < i ==> yaml_model(#[trigger] after@[k]) == replaced_volume(
                            all[k],
                            given[k],
                        ),
            {
                let volume = rest.remove(0);
                assert(volume == start[i as int]);
                assert(rest@ =~= start.skip(i + 1));
                assert(given[i as int] == text::held(sources@[offset + i]));
                after.push(replace_volume(volume, &sources[offset + i]));
            }
            proof {
                yaml::lemma_yaml_models(after@);
                let wanted = Seq::new(all.len(), |i: int| replaced_volume(all[i], given[i]));
                assert forall|i: int| 0 <= i < wanted.len() implies #[trigger] yaml_models(after@)[i]
                    == wanted[i] by {
                    assert(yaml_models(after@)[i] == yaml_model(after@[i]));
                }
                assert(yaml_models(after@) =~= wanted);
            }
            Yaml::List(after)
        },
        other => other,
    }
}

fn replace_service(service: Yaml, sources: &Vec<Option<String>>, offset: usize) -> (after: Yaml)
    requires
        offset + volumes_of_service(YamlModel::Null, yaml_model(service)).len() <= sources@.len(),
    ensures
        yaml_model(after) == replaced_service(
            yaml_model(service),
            held_sources(sources@).skip(offset as int),
        ),
    decreases service,
{
    match service {
        Yaml::Tagged { tag, value } => Yaml::Tagged {
            tag,
            value: Box::new(replace_service(*value, sources, offset)),
        },
        Yaml::Mapping(entries) => match yaml::find_key(&entries, "volumes") {
            Some(i) => {
                let ghost start = entry_models(entries@);
                proof {
                    yaml::lemma_entry_models(entries@);
                }
                let (rest, inner) = take_value(entries, i);
                let value = replace_list(inner, sources, offset);
                let after = replace_value(rest, i, value);
                assert(entry_models(after@) =~= start.update(
                    i as int,
                    (start[i as int].0, yaml_model(value)),
                ));
                Yaml::Mapping(after)
            },
            None => Yaml::Mapping(entries),
        },
        other => other,
    }
}

fn count_volumes(service: &Yaml) -> (count: usize)
    ensures
        count == volumes_of_service(YamlModel::Null, yaml_model(*service)).len(),
{
    match yaml::get(service, "volumes") {
        None => 0,
        Some(value) => match yaml::untag(value) {
            Yaml::List(list) => {
                proof {
                    yaml::lemma_yaml_models(list@);
                }
                list.len()
            },
            _ => 0,
        },
    }
}

proof fn lemma_fewer_volumes(entries: Seq<(YamlModel, YamlModel)>, n: int)
    requires
        0 <= n <= entries.len(),
    ensures
        volumes_of_services(entries.take(n)).len() <= volumes_of_services(entries).len(),
    decreases entries.len(),
{
    if n == entries.len() {
        assert(entries.take(n) =~= entries);
    } else {
        assert(entries.drop_last().take(n) =~= entries.take(n));
        lemma_fewer_volumes(entries.drop_last(), n);
    }
}

fn replace_services(entries: Vec<YamlEntry>, sources: &Vec<Option<String>>) -> (after: Vec<YamlEntry>)
    requires
        volumes_of_services(entry_models(entries@)).len() <= sources@.len(),
    ensures
        entry_models(after@) == replaced_services(
            entry_models(entries@),
            held_sources(sources@),
        ),
{
    let ghost all = entry_models(entries@);
    let ghost given = held_sources(sources@);
    let ghost start = entries@;
    let mut rest = entries;
    let count: usize = rest.len();
    let total: usize = sources.len();
    let mut after: Vec<YamlEntry> = Vec::new();
    let mut offset: usize = 0;
    proof {
        yaml::lemma_entry_models(start);
        assert(start.skip(0) =~= start);
        assert(all.take(0) =~= Seq::<(YamlModel, YamlModel)>::empty());
        assert(entry_models(after@) =~= Seq::<(YamlModel, YamlModel)>::empty());
    }
    for i in 0..count
        invariant
            count == start.len(),
            all == entry_models(start),
            all.len() == count,
            given == held_sources(sources@),
            volumes_of_services(all).len() <= total,
            total == sources@.len(),
            forall|k: int|
                0 <= k < count ==> #[trigger] all[k] == (
                    yaml_model(start[k].key),
                    yaml_model(start[k].value),
                ),
            rest@ == start.skip(i as int),
            offset == volumes_of_services(all.take(i as int)).len(),
            entry_models(after@) == replaced_services(all.take(i as int), given),
    {
        let entry = rest.remove(0);
        proof {
            assert(entry == start[i as int]);
            assert(rest@ =~= start.skip(i + 1));
            assert(all.take(i + 1).drop_last() =~= all.take(i as int));
            assert(all.take(i + 1).last() == all[i as int]);
            lemma_fewer_volumes(all, i + 1);
            lemma_same_count(all[i as int].0, all[i as int].1);
        }
        let more = count_volumes(&entry.value);
        let ghost before = after@;
        let value = replace_service(entry.value, sources, offset);
        after.push(YamlEntry { key: entry.key, value });
        assert(after@.drop_last() =~= before);
        offset = offset + more;
    }
    assert(all.take(all.len() as int) =~= all);
    after
}

proof fn lemma_same_count(name: YamlModel, service: YamlModel)
    ensures
        volumes_of_service(name, service).len() == volumes_of_service(
            YamlModel::Null,
            service,
        ).len(),
{
}

fn replace_service_map(services: Yaml, sources: &Vec<Option<String>>) -> (after: Yaml)
    requires
        yaml::untagged(yaml_model(services)) matches YamlModel::Mapping(entries)
            ==> volumes_of_services(entries).len() <= sources@.len(),
    ensures
        yaml_model(after) == replaced_service_map(yaml_model(services), held_sources(sources@)),
    decreases services,
{
    match services {
        Yaml::Tagged { tag, value } => Yaml::Tagged {
            tag,
            value: Box::new(replace_service_map(*value, sources)),
        },
        Yaml::Mapping(entries) => Yaml::Mapping(replace_services(entries, sources)),
        other => other,
    }
}

/// Gives the volumes of a document other sources, one for each volume that gets
/// one.
pub fn replace_sources(document: Yaml, sources: &Vec<Option<String>>) -> (after: Yaml)
    requires
        volumes_in(yaml_model(document)).len() <= sources@.len(),
    ensures
        yaml_model(after) == replaced_document(yaml_model(document), held_sources(sources@)),
    decreases document,
{
    match document {
        Yaml::Tagged { tag, value } => Yaml::Tagged {
            tag,
            value: Box::new(replace_sources(*value, sources)),
        },
        Yaml::Mapping(entries) => match yaml::find_key(&entries, "services") {
            Some(i) => {
                let ghost start = entry_models(entries@);
                proof {
                    yaml::lemma_entry_models(entries@);
                }
                let (rest, inner) = take_value(entries, i);
                let value = replace_service_map(inner, sources);
                let after = replace_value(rest, i, value);
                assert(entry_models(after@) =~= start.update(
                    i as int,
                    (start[i as int].0, yaml_model(value)),
                ));
                Yaml::Mapping(after)
            },
            None => Yaml::Mapping(entries),
        },
        other => other,
    }
}

// ---------------------------------------------------------------------------
// The bind mounts of a recovered stack
// ---------------------------------------------------------------------------

/// The mount that a volume is, if it has a form that Compose allows.
pub open spec fn mount_of(form: FormModel) -> Option<MountModel> {
    match form {
        FormModel::Short(value) => Some(MountModel::Short(value)),
        FormModel::Long { mount_type, source, target, type_text, source_text } => if mount_type
            is Other || source is Other || target is Other {
            None
        } else {
            Some(
                MountModel::Long {
                    mount_type: plain_field(mount_type),
                    source: plain_field(source),
                    target: plain_field(target),
                },
            )
        },
        FormModel::Other => None,
    }
}

/// The text of a field, if there is one.
pub open spec fn plain_field(field: FieldModel) -> Option<Seq<char>> {
    match field {
        FieldModel::Text(text) => Some(text),
        _ => None,
    }
}

fn plain(field: &VolumeField) -> (text: Option<String>)
    ensures
        text::held(text) == plain_field(field_model(*field)),
{
    match field {
        VolumeField::Text(text) => Some(text.clone()),
        _ => None,
    }
}

fn is_other(field: &VolumeField) -> (other: bool)
    ensures
        other == (field_model(*field) is Other),
{
    match field {
        VolumeField::Other => true,
        _ => false,
    }
}

fn read_mount(form: &VolumeForm) -> (mount: Option<BackupComposeMount>)
    ensures
        match mount {
            Some(found) => mount_of(form_model(*form)) == Some(mount_model(found)),
            None => mount_of(form_model(*form)) is None,
        },
{
    match form {
        VolumeForm::Short(value) => Some(BackupComposeMount::Short(value.clone())),
        VolumeForm::Long { mount_type, source, target, type_text: _, source_text: _ } => if is_other(
            mount_type,
        ) || is_other(source) || is_other(target) {
            None
        } else {
            Some(
                BackupComposeMount::Long {
                    mount_type: plain(mount_type),
                    source: plain(source),
                    target: plain(target),
                },
            )
        },
        VolumeForm::Other => None,
    }
}

/// The first mount with the target.
pub open spec fn mount_with_target(volumes: Seq<BackupComposeMount>, target: Seq<char>) -> Option<
    MountModel,
>
    decreases volumes.len(),
{
    if volumes.len() == 0 {
        None
    } else if mount_target(mount_model(volumes[0])) == Some(target) {
        Some(mount_model(volumes[0]))
    } else {
        mount_with_target(volumes.drop_first(), target)
    }
}

/// The deployed mount of the service with the target.
pub open spec fn deployed_mount(
    services: Seq<BackupComposeService>,
    service: Seq<char>,
    target: Seq<char>,
) -> Option<MountModel>
    decreases services.len(),
{
    if services.len() == 0 {
        None
    } else if services[0].name@ == service {
        mount_with_target(services[0].volumes@, target)
    } else {
        deployed_mount(services.drop_first(), service, target)
    }
}

fn find_mount<'a>(volumes: &'a Vec<BackupComposeMount>, target: &str) -> (mount: Option<
    &'a BackupComposeMount,
>)
    ensures
        match mount {
            Some(found) => mount_with_target(volumes@, target@) == Some(mount_model(*found)),
            None => mount_with_target(volumes@, target@) is None,
        },
{
    assert(volumes@.skip(0) =~= volumes@);
    for i in 0..volumes.len()
        invariant
            mount_with_target(volumes@, target@) == mount_with_target(
                volumes@.skip(i as int),
                target@,
            ),
    {
        assert(volumes@.skip(i as int)[0] == volumes@[i as int]);
        assert(volumes@.skip(i as int).drop_first() =~= volumes@.skip(i + 1));
        let found = compose_mount_target(&volumes[i]);
        if text::is_some_text(&found, target) {
            return Some(&volumes[i]);
        }
    }
    None
}

fn find_deployed<'a>(services: &'a Vec<BackupComposeService>, service: &str, target: &str) -> (mount:
    Option<&'a BackupComposeMount>)
    ensures
        match mount {
            Some(found) => deployed_mount(services@, service@, target@) == Some(
                mount_model(*found),
            ),
            None => deployed_mount(services@, service@, target@) is None,
        },
{
    assert(services@.skip(0) =~= services@);
    for i in 0..services.len()
        invariant
            deployed_mount(services@, service@, target@) == deployed_mount(
                services@.skip(i as int),
                service@,
                target@,
            ),
    {
        assert(services@.skip(i as int)[0] == services@[i as int]);
        assert(services@.skip(i as int).drop_first() =~= services@.skip(i + 1));
        if text::same(services[i].name.as_str(), service) {
            return find_mount(&services[i].volumes, target);
        }
    }
    None
}

/// The source of a mount that may be a bind mount, as it is written.
pub open spec fn written_source(mount: MountModel) -> Option<Seq<char>> {
    match mount {
        MountModel::Short(value) => match split_mount(value) {
            Some((source, suffix)) => Some(source),
            None => None,
        },
        MountModel::Long { mount_type, source, target } => if mount_type is Some && mount_type
            != Some("bind"@) {
            None
        } else {
            source
        },
    }
}

/// The source is a path that is seen from the directory of the stack.
pub open spec fn is_relative_bind(mount: MountModel, source: Seq<char>) -> bool {
    &&& !path::is_absolute_path(source)
    &&& begins_with_dot(source) || (mount matches MountModel::Long { mount_type, source, target }
        && mount_type == Some("bind"@))
}

/// The source that stands for a volume of a recovered stack: the one that was
/// deployed, where the written one is relative or holds an expression. Neither
/// means the same on another host.
pub open spec fn resolved_source(
    service: Option<Seq<char>>,
    form: FormModel,
    deployed: Option<Seq<BackupComposeService>>,
    mappings: Seq<(Seq<char>, Seq<char>)>,
    aliases: Seq<(Seq<char>, Seq<char>)>,
) -> Result<Option<Seq<char>>, ComposeError> {
    match mount_of(form) {
        None => Err(ComposeError::InvalidMount),
        Some(mount) => match written_source(mount) {
            None => Ok(None),
            Some(source) => {
                let relative = is_relative_bind(mount, source);
                if !relative && !source.contains('$') {
                    Ok(None)
                } else {
                    match mount_target(mount) {
                        None => Err(ComposeError::NoTarget),
                        Some(target) => {
                            let found = match (deployed, service) {
                                (Some(services), Some(name)) => deployed_mount(
                                    services,
                                    name,
                                    target,
                                ),
                                _ => None,
                            };
                            match found {
                                None => Err(ComposeError::NotDeployed),
                                Some(original) => match bind_source(original) {
                                    None => if relative {
                                        Err(ComposeError::NoSource)
                                    } else {
                                        Ok(None)
                                    },
                                    Some(expanded) => if !path::is_absolute_path(expanded) {
                                        Err(ComposeError::NotAbsolute)
                                    } else if remapped(expanded, mappings, aliases) is None {
                                        Ok(None)
                                    } else {
                                        Ok(Some(expanded))
                                    },
                                },
                            }
                        },
                    }
                }
            },
        },
    }
}

/// The deployed services, if there are any.
pub open spec fn deployed_services(deployed: Option<Vec<BackupComposeService>>) -> Option<
    Seq<BackupComposeService>,
> {
    match deployed {
        Some(services) => Some(services@),
        None => None,
    }
}

fn resolve_volume(
    volume: &ComposeVolume,
    deployed: &Option<Vec<BackupComposeService>>,
    mappings: &Vec<(String, String)>,
    aliases: &Vec<(String, String)>,
) -> (source: Result<Option<String>, ComposeError>)
    ensures
        match (
            source,
            resolved_source(
                text::held(volume.service),
                form_model(volume.form),
                deployed_services(*deployed),
                pair_models(mappings@),
                pair_models(aliases@),
            ),
        ) {
            (Ok(a), Ok(b)) => text::held(a) == b,
            (Err(a), Err(b)) => a == b,
            _ => false,
        },
{
    let mount = match read_mount(&volume.form) {
        None => {
            return Err(ComposeError::InvalidMount);
        },
        Some(mount) => mount,
    };
    let source = match &mount {
        BackupComposeMount::Short(value) => match split_compose_short_mount(value.as_str()) {
            Some((source, _)) => source,
            None => {
                return Ok(None);
            },
        },
        BackupComposeMount::Long { mount_type, source, target: _ } => {
            if mount_type.is_some() && !text::is_some_text(mount_type, "bind") {
                return Ok(None);
            }
            match source {
                Some(source) => source.clone(),
                None => {
                    return Ok(None);
                },
            }
        },
    };
    let long_bind = match &mount {
        BackupComposeMount::Long { mount_type, source: _, target: _ } => text::is_some_text(
            mount_type,
            "bind",
        ),
        BackupComposeMount::Short(_) => false,
    };
    let relative = !path::path_is_absolute(source.as_str()) && (dotted(source.as_str())
        || long_bind);
    if !relative && !text::contains_char(source.as_str(), '$') {
        return Ok(None);
    }
    let target = match compose_mount_target(&mount) {
        None => {
            return Err(ComposeError::NoTarget);
        },
        Some(target) => target,
    };
    let found = match (deployed, &volume.service) {
        (Some(services), Some(name)) => find_deployed(services, name.as_str(), target.as_str()),
        _ => None,
    };
    let original = match found {
        None => {
            return Err(ComposeError::NotDeployed);
        },
        Some(original) => original,
    };
    match compose_bind_source(original) {
        None => if relative {
            Err(ComposeError::NoSource)
        } else {
            Ok(None)
        },
        Some(expanded) => if !path::path_is_absolute(expanded.as_str()) {
            Err(ComposeError::NotAbsolute)
        } else if remap_absolute_bind_source(expanded.as_str(), mappings, aliases).is_none() {
            Ok(None)
        } else {
            Ok(Some(expanded))
        },
    }
}

/// The sources that stand for the volumes of a recovered stack.
pub open spec fn resolved_sources(
    volumes: Seq<SeenModel>,
    deployed: Option<Seq<BackupComposeService>>,
    mappings: Seq<(Seq<char>, Seq<char>)>,
    aliases: Seq<(Seq<char>, Seq<char>)>,
) -> Result<Seq<Option<Seq<char>>>, ComposeError>
    decreases volumes.len(),
{
    if volumes.len() == 0 {
        Ok(Seq::empty())
    } else {
        match resolved_sources(volumes.drop_last(), deployed, mappings, aliases) {
            Err(error) => Err(error),
            Ok(before) => match resolved_source(
                volumes.last().service,
                volumes.last().form,
                deployed,
                mappings,
                aliases,
            ) {
                Err(error) => Err(error),
                Ok(source) => Ok(before.push(source)),
            },
        }
    }
}

proof fn lemma_resolved_stop(
    volumes: Seq<SeenModel>,
    n: int,
    deployed: Option<Seq<BackupComposeService>>,
    mappings: Seq<(Seq<char>, Seq<char>)>,
    aliases: Seq<(Seq<char>, Seq<char>)>,
)
    requires
        0 <= n <= volumes.len(),
        resolved_sources(volumes.take(n), deployed, mappings, aliases) is Err,
    ensures
        resolved_sources(volumes, deployed, mappings, aliases) == resolved_sources(
            volumes.take(n),
            deployed,
            mappings,
            aliases,
        ),
    decreases volumes.len(),
{
    if n == volumes.len() {
        assert(volumes.take(n) =~= volumes);
    } else {
        assert(volumes.drop_last().take(n) =~= volumes.take(n));
        lemma_resolved_stop(volumes.drop_last(), n, deployed, mappings, aliases);
    }
}

/// The sources that stand for the volumes of a recovered stack.
pub fn resolve_volumes(
    volumes: &Vec<ComposeVolume>,
    deployed: &Option<Vec<BackupComposeService>>,
    mappings: &Vec<(String, String)>,
    aliases: &Vec<(String, String)>,
) -> (sources: Result<Vec<Option<String>>, ComposeError>)
    ensures
        match (
            sources,
            resolved_sources(
                seen_models(volumes@),
                deployed_services(*deployed),
                pair_models(mappings@),
                pair_models(aliases@),
            ),
        ) {
            (Ok(list), Ok(wanted)) => held_sources(list@) == wanted && list@.len() == volumes@.len(),
            (Err(a), Err(b)) => a == b,
            _ => false,
        },
{
    let ghost all = seen_models(volumes@);
    let ghost services = deployed_services(*deployed);
    let ghost maps = pair_models(mappings@);
    let ghost links = pair_models(aliases@);
    let mut sources: Vec<Option<String>> = Vec::new();
    assert(all.take(0) =~= Seq::<SeenModel>::empty());
    assert(held_sources(sources@) =~= Seq::<Option<Seq<char>>>::empty());
    for i in 0..volumes.len()
        invariant
            all == seen_models(volumes@),
            services == deployed_services(*deployed),
            maps == pair_models(mappings@),
            links == pair_models(aliases@),
            sources@.len() == i,
            resolved_sources(all.take(i as int), services, maps, links) == Ok::<
                Seq<Option<Seq<char>>>,
                ComposeError,
            >(held_sources(sources@)),
    {
        let ghost before = held_sources(sources@);
        proof {
            assert(all.take(i + 1).drop_last() =~= all.take(i as int));
            assert(all.take(i + 1).last() == seen_model(volumes@[i as int]));
            if resolved_sources(all.take(i + 1), services, maps, links) is Err {
                lemma_resolved_stop(all, i + 1, services, maps, links);
            }
        }
        match resolve_volume(&volumes[i], deployed, mappings, aliases) {
            Err(error) => {
                return Err(error);
            },
            Ok(source) => {
                sources.push(source);
                assert(held_sources(sources@) =~= before.push(text::held(source)));
            },
        }
    }
    assert(all.take(all.len() as int) =~= all);
    Ok(sources)
}

/// Puts the deployed sources in place of relative ones and of expressions.
pub fn resolve_recovered_bind_expressions(
    document: Yaml,
    deployed: &Option<Vec<BackupComposeService>>,
    mappings: &Vec<(String, String)>,
    aliases: &Vec<(String, String)>,
) -> (resolved: Result<Yaml, ComposeError>)
    ensures
        match (
            resolved,
            resolved_sources(
                seen_as(volumes_in(yaml_model(document))),
                deployed_services(*deployed),
                pair_models(mappings@),
                pair_models(aliases@),
            ),
        ) {
            (Ok(after), Ok(sources)) => yaml_model(after) == replaced_document(
                yaml_model(document),
                sources,
            ),
            (Err(a), Err(b)) => a == b,
            _ => false,
        },
{
    let volumes = document_volumes(&document);
    assert(seen_models(volumes@).len() == volumes@.len());
    match resolve_volumes(&volumes, deployed, mappings, aliases) {
        Err(error) => Err(error),
        Ok(sources) => {
            assert(seen_as(volumes_in(yaml_model(document))).len() == volumes_in(
                yaml_model(document),
            ).len());
            Ok(replace_sources(document, &sources))
        },
    }
}

/// The source that a volume gets on the recovered host, if its own one is mapped.
pub open spec fn rewritten_source(
    form: FormModel,
    mappings: Seq<(Seq<char>, Seq<char>)>,
    aliases: Seq<(Seq<char>, Seq<char>)>,
) -> Option<Seq<char>> {
    match form {
        FormModel::Short(value) => match split_mount(value) {
            Some((source, suffix)) => remapped(source, mappings, aliases),
            None => None,
        },
        FormModel::Long { mount_type, source, target, type_text, source_text } => match source_text {
            Some(path) => if type_text is Some && type_text != Some("bind"@) {
                None
            } else {
                remapped(path, mappings, aliases)
            },
            None => None,
        },
        FormModel::Other => None,
    }
}

fn rewrite_volume(
    form: &VolumeForm,
    mappings: &Vec<(String, String)>,
    aliases: &Vec<(String, String)>,
) -> (source: Option<String>)
    ensures
        text::held(source) == rewritten_source(
            form_model(*form),
            pair_models(mappings@),
            pair_models(aliases@),
        ),
{
    match form {
        VolumeForm::Short(value) => match split_compose_short_mount(value.as_str()) {
            Some((source, _)) => remap_absolute_bind_source(source.as_str(), mappings, aliases),
            None => None,
        },
        VolumeForm::Long { mount_type: _, source: _, target: _, type_text, source_text } => match source_text {
            Some(path) => if type_text.is_some() && !text::is_some_text(type_text, "bind") {
                None
            } else {
                remap_absolute_bind_source(path.as_str(), mappings, aliases)
            },
            None => None,
        },
        VolumeForm::Other => None,
    }
}

/// The sources that the volumes get on the recovered host.
pub open spec fn rewritten_sources(
    volumes: Seq<SeenModel>,
    mappings: Seq<(Seq<char>, Seq<char>)>,
    aliases: Seq<(Seq<char>, Seq<char>)>,
) -> Seq<Option<Seq<char>>> {
    Seq::new(volumes.len(), |i: int| rewritten_source(volumes[i].form, mappings, aliases))
}

/// How many sources there are.
pub open spec fn given_count(sources: Seq<Option<Seq<char>>>) -> nat
    decreases sources.len(),
{
    if sources.len() == 0 {
        0
    } else {
        given_count(sources.drop_last()) + if sources.last() is Some {
            1nat
        } else {
            0nat
        }
    }
}

/// Gives the bind mounts of a document the sources that they have on the
/// recovered host, and tells how many got one.
pub fn rewrite_compose_bind_mappings(
    document: Yaml,
    mappings: &Vec<(String, String)>,
    path_aliases: &Vec<(String, String)>,
) -> (rewritten: (Yaml, usize))
    ensures
        ({
            let sources = rewritten_sources(
                seen_as(volumes_in(yaml_model(document))),
                pair_models(mappings@),
                pair_models(path_aliases@),
            );
            &&& yaml_model(rewritten.0) == replaced_document(yaml_model(document), sources)
            &&& rewritten.1 == given_count(sources)
        }),
{
    let volumes = document_volumes(&document);
    let ghost all = seen_models(volumes@);
    let ghost wanted = rewritten_sources(
        all,
        pair_models(mappings@),
        pair_models(path_aliases@),
    );
    let mut sources: Vec<Option<String>> = Vec::new();
    let mut count: usize = 0;
    assert(wanted.take(0) =~= Seq::<Option<Seq<char>>>::empty());
    assert(held_sources(sources@) =~= wanted.take(0));
    for i in 0..volumes.len()
        invariant
            all == seen_models(volumes@),
            wanted == rewritten_sources(
                all,
                pair_models(mappings@),
                pair_models(path_aliases@),
            ),
            sources@.len() == i,
            held_sources(sources@) == wanted.take(i as int),
            count == given_count(wanted.take(i as int)),
            count <= i,
    {
        let ghost before = held_sources(sources@);
        let source = rewrite_volume(&volumes[i].form, mappings, path_aliases);
        if source.is_some() {
            count = count + 1;
        }
        sources.push(source);
        proof {
            assert(all[i as int] == seen_model(volumes@[i as int]));
            assert(wanted.take(i + 1).drop_last() =~= wanted.take(i as int));
            assert(wanted.take(i + 1).last() == wanted[i as int]);
            assert(held_sources(sources@) =~= before.push(text::held(source)));
            assert(held_sources(sources@) =~= wanted.take(i + 1));
        }
    }
    assert(wanted.take(wanted.len() as int) =~= wanted);
    assert(seen_as(volumes_in(yaml_model(document))).len() == volumes_in(
        yaml_model(document),
    ).len());
    (replace_sources(document, &sources), count)
}

/// What becomes of a document of a recovered stack: another document, or nothing
/// if none of its bind mounts is mapped.
pub open spec fn recovered_document(
    document: YamlModel,
    deployed: Option<Seq<BackupComposeService>>,
    mappings: Seq<(Seq<char>, Seq<char>)>,
    aliases: Seq<(Seq<char>, Seq<char>)>,
) -> Result<Option<YamlModel>, ComposeError> {
    match resolved_sources(seen_as(volumes_in(document)), deployed, mappings, aliases) {
        Err(error) => Err(error),
        Ok(sources) => {
            let resolved = replaced_document(document, sources);
            let others = rewritten_sources(seen_as(volumes_in(resolved)), mappings, aliases);
            if given_count(others) == 0 {
                Ok(None)
            } else {
                Ok(Some(replaced_document(resolved, others)))
            }
        },
    }
}

/// What becomes of a document of a recovered stack.
pub fn recover_document(
    document: Yaml,
    deployed: &Option<Vec<BackupComposeService>>,
    mappings: &Vec<(String, String)>,
    aliases: &Vec<(String, String)>,
) -> (recovered: Result<Option<Yaml>, ComposeError>)
    ensures
        match (
            recovered,
            recovered_document(
                yaml_model(document),
                deployed_services(*deployed),
                pair_models(mappings@),
                pair_models(aliases@),
            ),
        ) {
            (Ok(Some(a)), Ok(Some(b))) => yaml_model(a) == b,
            (Ok(None), Ok(None)) => true,
            (Err(a), Err(b)) => a == b,
            _ => false,
        },
{
    let resolved = match resolve_recovered_bind_expressions(
        document,
        deployed,
        mappings,
        aliases,
    ) {
        Err(error) => {
            return Err(error);
        },
        Ok(resolved) => resolved,
    };
    let (rewritten, count) = rewrite_compose_bind_mappings(resolved, mappings, aliases);
    if count == 0 {
        Ok(None)
    } else {
        Ok(Some(rewritten))
    }
}

/// The text of a Compose file of a recovered stack, if it changes.
pub open spec fn recovered_text(
    contents: Seq<char>,
    deployed: Option<Seq<BackupComposeService>>,
    mappings: Seq<(Seq<char>, Seq<char>)>,
    aliases: Seq<(Seq<char>, Seq<char>)>,
) -> Result<Option<Seq<char>>, ComposeError> {
    match yaml::yaml_in(contents) {
        None => Err(ComposeError::Parse),
        Some(document) => match recovered_document(document, deployed, mappings, aliases) {
            Err(error) => Err(error),
            Ok(None) => Ok(None),
            Ok(Some(after)) => match yaml::yaml_text_of(after) {
                None => Err(ComposeError::Write),
                Some(written) => Ok(Some(written)),
            },
        },
    }
}

/// Rewrites a Compose file of a recovered stack so that its bind mounts show the
/// recovered files.
pub fn rewrite_recovered_compose_file(
    contents: &str,
    deployed: &Option<Vec<BackupComposeService>>,
    mappings: &Vec<(String, String)>,
    aliases: &Vec<(String, String)>,
) -> (rewritten: Result<Option<String>, ComposeError>)
    ensures
        match (
            rewritten,
            recovered_text(
                contents@,
                deployed_services(*deployed),
                pair_models(mappings@),
                pair_models(aliases@),
            ),
        ) {
            (Ok(a), Ok(b)) => text::held(a) == b,
            (Err(a), Err(b)) => a == b,
            _ => false,
        },
{
    let document = match yaml::parse_yaml(contents) {
        None => {
            return Err(ComposeError::Parse);
        },
        Some(document) => document,
    };
    match recover_document(document, deployed, mappings, aliases) {
        Err(error) => Err(error),
        Ok(None) => Ok(None),
        Ok(Some(after)) => match yaml::write_yaml(after) {
            None => Err(ComposeError::Write),
            Some(written) => Ok(Some(written)),
        },
    }
}

// ---------------------------------------------------------------------------
// Staged files
// ---------------------------------------------------------------------------

/// The position of the first mapping that goes to the directory of the stack.
pub open spec fn run_root(publish: Seq<RestorePublishPath>, run_directory: Seq<char>) -> Option<int>
    decreases publish.len(),
{
    if publish.len() == 0 {
        None
    } else {
        match run_root(publish.drop_last(), run_directory) {
            Some(i) => Some(i),
            None => if path::path_of(publish.last().destination@) == path::path_of(run_directory) {
                Some(publish.len() - 1)
            } else {
                None
            },
        }
    }
}

/// Where a Compose file of a recovered stack is staged.
pub open spec fn staged_file(
    staging: Seq<char>,
    publish: Seq<RestorePublishPath>,
    run_directory: Seq<char>,
    compose_file: Seq<char>,
) -> Result<Seq<char>, ComposeError> {
    match run_root(publish, run_directory) {
        None => Err(ComposeError::NoRunDirectory),
        Some(i) => if preview::is_unsafe(compose_file) {
            Err(ComposeError::UnsafePath)
        } else {
            Ok(
                path::joined(path::joined(staging, publish[i].snapshot_path@), compose_file),
            )
        },
    }
}

/// Where a Compose file of a recovered stack is staged.
pub fn staged_compose_path(
    staging: &str,
    publish: &Vec<RestorePublishPath>,
    run_directory: &str,
    compose_file: &str,
) -> (staged: Result<String, ComposeError>)
    ensures
        match (
            staged,
            staged_file(staging@, publish@, run_directory@, compose_file@),
        ) {
            (Ok(a), Ok(b)) => a@ == b,
            (Err(a), Err(b)) => a == b,
            _ => false,
        },
{
    let mut found: Option<usize> = None;
    assert(publish@.take(0) =~= Seq::<RestorePublishPath>::empty());
    for i in 0..publish.len()
        invariant
            match found {
                Some(k) => k < i && run_root(publish@.take(i as int), run_directory@) == Some(
                    k as int,
                ),
                None => run_root(publish@.take(i as int), run_directory@) is None,
            },
    {
        assert(publish@.take(i + 1).drop_last() =~= publish@.take(i as int));
        assert(publish@.take(i + 1).last() == publish@[i as int]);
        if found.is_none() && path::same_path(publish[i].destination.as_str(), run_directory) {
            found = Some(i);
        }
    }
    assert(publish@.take(publish@.len() as int) =~= publish@);
    match found {
        None => Err(ComposeError::NoRunDirectory),
        Some(i) => {
            if path::path_is_absolute(compose_file) || path::path_goes_up(compose_file) {
                return Err(ComposeError::UnsafePath);
            }
            let root = path::join(staging, publish[i].snapshot_path.as_str());
            Ok(path::join(root.as_str(), compose_file))
        },
    }
}

/// What is found at a staged path, without following a link.
#[derive(Clone, Copy, Debug, PartialEq, Eq, Structural)]
pub enum StagedKind {
    File,
    Directory,
    Other,
}

/// The way leads through real directories to a real file.
pub open spec fn leads_to_file(way: Seq<StagedKind>) -> bool {
    &&& way.len() > 0
    &&& way.last() == StagedKind::File
    &&& forall|i: int| 0 <= i < way.len() - 1 ==> #[trigger] way[i] == StagedKind::Directory
}

/// Whether a staged Compose file may be opened: the staging directory is a real
/// directory, the path lies below it and does not go up, and no link is on the
/// way. The way is what is found at the staging directory and then at each path
/// below it, one for each name, down to the file.
pub fn open_staged_compose_file(staging: &str, staged: &str, way: &Vec<StagedKind>) -> (safe: bool)
    ensures
        safe == (path::stripped(staged@, staging@) matches Some(relative) && !preview::is_unsafe(
            relative,
        ) && !path::begins_with_dot(relative) && way@.len() == path::path_names(relative).len() + 1
            && way@[0] == StagedKind::Directory && leads_to_file(way@)),
{
    let relative = match path::strip_prefix(staged, staging) {
        None => {
            return false;
        },
        Some(relative) => relative,
    };
    let parts = path::parse_path(relative.as_str());
    if parts.absolute || parts.dotted || path::path_goes_up(relative.as_str()) {
        return false;
    }
    if way.len() == 0 || way.len() - 1 != parts.names.len() || way[0] != StagedKind::Directory {
        return false;
    }
    let last: usize = way.len() - 1;
    for i in 0..last
        invariant
            way@.len() == last + 1,
            forall|j: int| 0 <= j < i ==> #[trigger] way@[j] == StagedKind::Directory,
    {
        if way[i] != StagedKind::Directory {
            return false;
        }
    }
    way[last] == StagedKind::File
}

// ---------------------------------------------------------------------------
// Laws
// ---------------------------------------------------------------------------

/// The volumes are the same but for their sources.
pub open spec fn same_but_sources(
    before: Seq<VolumeModel>,
    after: Seq<VolumeModel>,
    sources: Seq<Option<Seq<char>>>,
) -> bool {
    &&& after.len() == before.len()
    &&& forall|i: int|
        0 <= i < before.len() ==> (#[trigger] after[i]).service == before[i].service
            && after[i].volume == replaced_volume(before[i].volume, sources[i])
}

proof fn lemma_list_replaced(
    service: Option<Seq<char>>,
    volumes: YamlModel,
    sources: Seq<Option<Seq<char>>>,
)
    ensures
        same_but_sources(
            listed_volumes(service, volumes),
            listed_volumes(service, replaced_list(volumes, sources)),
            sources,
        ),
    decreases volumes,
{
    match volumes {
        YamlModel::Tagged { tag, value } => {
            lemma_list_replaced(service, *value, sources);
        },
        _ => {},
    }
}

proof fn lemma_field_replaced(service: YamlModel, sources: Seq<Option<Seq<char>>>)
    ensures
        yaml::field(replaced_service(service, sources), "volumes"@) == match yaml::field(
            service,
            "volumes"@,
        ) {
            Some(volumes) => Some(replaced_list(volumes, sources)),
            None => None,
        },
    decreases service,
{
    match service {
        YamlModel::Tagged { tag, value } => {
            lemma_field_replaced(*value, sources);
        },
        YamlModel::Mapping(entries) => match yaml::position_of_key(entries, "volumes"@) {
            Some(i) => {
                yaml::lemma_position(entries, "volumes"@);
                yaml::lemma_position_of_update(
                    entries,
                    i,
                    replaced_list(entries[i].1, sources),
                    "volumes"@,
                );
            },
            None => {},
        },
        _ => {},
    }
}

proof fn lemma_service_replaced(
    name: YamlModel,
    service: YamlModel,
    sources: Seq<Option<Seq<char>>>,
)
    ensures
        same_but_sources(
            volumes_of_service(name, service),
            volumes_of_service(name, replaced_service(service, sources)),
            sources,
        ),
{
    lemma_field_replaced(service, sources);
    match yaml::field(service, "volumes"@) {
        Some(volumes) => {
            lemma_list_replaced(yaml::text_in(name), volumes, sources);
        },
        None => {},
    }
}

proof fn lemma_services_replaced(
    entries: Seq<(YamlModel, YamlModel)>,
    sources: Seq<Option<Seq<char>>>,
)
    requires
        volumes_of_services(entries).len() <= sources.len(),
    ensures
        same_but_sources(
            volumes_of_services(entries),
            volumes_of_services(replaced_services(entries, sources)),
            sources,
        ),
    decreases entries.len(),
{
    if entries.len() > 0 {
        let rest = entries.drop_last();
        let (name, service) = entries.last();
        lemma_services_replaced(rest, sources);
        let offset = volumes_of_services(rest).len() as int;
        let tail = sources.skip(offset);
        lemma_service_replaced(name, service, tail);
        let after = replaced_services(entries, sources);
        assert(after.drop_last() =~= replaced_services(rest, sources));
        let before_volumes = volumes_of_services(entries);
        let after_volumes = volumes_of_services(after);
        assert forall|i: int| 0 <= i < before_volumes.len() implies (
        #[trigger] after_volumes[i]).service == before_volumes[i].service
            && after_volumes[i].volume == replaced_volume(before_volumes[i].volume, sources[i]) by {
            if i < offset {
                let old_list = volumes_of_services(rest);
                let new_list = volumes_of_services(replaced_services(rest, sources));
                assert(before_volumes[i] == old_list[i]);
                assert(after_volumes[i] == new_list[i]);
            } else {
                let old_list = volumes_of_service(name, service);
                let new_list = volumes_of_service(name, replaced_service(service, tail));
                assert(before_volumes[i] == old_list[i - offset]);
                assert(after_volumes[i] == new_list[i - offset]);
                assert(tail[i - offset] == sources[i]);
            }
        }
    }
}

proof fn lemma_service_map_replaced(services: YamlModel, sources: Seq<Option<Seq<char>>>)
    ensures
        match yaml::untagged(services) {
            YamlModel::Mapping(entries) => yaml::untagged(replaced_service_map(services, sources))
                == YamlModel::Mapping(replaced_services(entries, sources)),
            other => yaml::untagged(replaced_service_map(services, sources)) == other,
        },
    decreases services,
{
    match services {
        YamlModel::Tagged { tag, value } => {
            lemma_service_map_replaced(*value, sources);
        },
        _ => {},
    }
}

proof fn lemma_document_field(document: YamlModel, sources: Seq<Option<Seq<char>>>)
    ensures
        yaml::field(replaced_document(document, sources), "services"@) == match yaml::field(
            document,
            "services"@,
        ) {
            Some(services) => Some(replaced_service_map(services, sources)),
            None => None,
        },
    decreases document,
{
    match document {
        YamlModel::Tagged { tag, value } => {
            lemma_document_field(*value, sources);
        },
        YamlModel::Mapping(entries) => match yaml::position_of_key(entries, "services"@) {
            Some(i) => {
                yaml::lemma_position(entries, "services"@);
                yaml::lemma_position_of_update(
                    entries,
                    i,
                    replaced_service_map(entries[i].1, sources),
                    "services"@,
                );
            },
            None => {},
        },
        _ => {},
    }
}

/// Rewriting a Compose file changes the sources of its volumes and nothing else
/// about them: every volume stays with its service and in its place, and one that
/// gets no other source stays as it is.
pub proof fn only_sources_change(document: YamlModel, sources: Seq<Option<Seq<char>>>)
    requires
        volumes_in(document).len() <= sources.len(),
    ensures
        same_but_sources(
            volumes_in(document),
            volumes_in(replaced_document(document, sources)),
            sources,
        ),
{
    lemma_document_field(document, sources);
    match yaml::field(document, "services"@) {
        Some(services) => {
            lemma_service_map_replaced(services, sources);
            match yaml::untagged(services) {
                YamlModel::Mapping(entries) => {
                    lemma_services_replaced(entries, sources);
                },
                _ => {},
            }
        },
        None => {},
    }
}

/// A relative source, or one that holds an expression, is never kept as it is
/// written when the deployed configuration is not known: the file is refused.
pub proof fn unknown_sources_are_refused(
    service: Option<Seq<char>>,
    form: FormModel,
    mappings: Seq<(Seq<char>, Seq<char>)>,
    aliases: Seq<(Seq<char>, Seq<char>)>,
)
    requires
        mount_of(form) is Some,
        written_source(mount_of(form)->Some_0) is Some,
        is_relative_bind(
            mount_of(form)->Some_0,
            written_source(mount_of(form)->Some_0)->Some_0,
        ) || written_source(mount_of(form)->Some_0)->Some_0.contains('$'),
    ensures
        resolved_source(service, form, None, mappings, aliases) is Err,
{
}

/// The text holds neither a colon nor a brace.
pub open spec fn is_simple(value: Seq<char>) -> bool {
    forall|i: int|
        0 <= i < value.len() ==> #[trigger] value[i] != ':' && value[i] != '{' && value[i] != '}'
}

/// The text holds no colon.
pub open spec fn has_no_colon(value: Seq<char>) -> bool {
    forall|i: int| 0 <= i < value.len() ==> #[trigger] value[i] != ':'
}

/// The text holds no brace.
pub open spec fn has_no_brace(value: Seq<char>) -> bool {
    forall|i: int| 0 <= i < value.len() ==> #[trigger] value[i] != '{' && value[i] != '}'
}

proof fn lemma_colon_behind(head: Seq<char>, tail: Seq<char>)
    requires
        is_simple(head),
    ensures
        colon_position(head + tail, 0) == match colon_position(tail, 0) {
            Some(i) => Some(head.len() + i),
            None => None::<int>,
        },
    decreases head.len(),
{
    if head.len() == 0 {
        assert(head + tail =~= tail);
    } else {
        let rest = head.drop_first();
        assert((head + tail).drop_first() =~= rest + tail);
        assert((head + tail)[0] == head[0]);
        assert forall|i: int| 0 <= i < rest.len() implies #[trigger] rest[i] != ':' && rest[i]
            != '{' && rest[i] != '}' by {
            assert(rest[i] == head[i + 1]);
        }
        lemma_colon_behind(rest, tail);
    }
}

proof fn lemma_colon_behind_braces(inner: Seq<char>, tail: Seq<char>)
    requires
        has_no_brace(inner),
    ensures
        colon_position(inner + "}"@ + tail, 1) == match colon_position(tail, 0) {
            Some(i) => Some(inner.len() + 1 + i),
            None => None::<int>,
        },
    decreases inner.len(),
{
    reveal_strlit("}");
    let all = inner + "}"@ + tail;
    if inner.len() == 0 {
        assert(all[0] == '}');
        assert(all.drop_first() =~= tail);
    } else {
        let rest = inner.drop_first();
        assert(all.drop_first() =~= rest + "}"@ + tail);
        assert(all[0] == inner[0]);
        assert forall|i: int| 0 <= i < rest.len() implies #[trigger] rest[i] != '{' && rest[i]
            != '}' by {
            assert(rest[i] == inner[i + 1]);
        }
        lemma_colon_behind_braces(rest, tail);
    }
}

/// A mount in its short form has its source in front of the first colon, and all
/// the rest behind it.
pub proof fn short_mounts_split_at_the_colon(source: Seq<char>, suffix: Seq<char>)
    requires
        is_simple(source),
    ensures
        split_mount(source + ":"@ + suffix) == Some((source, suffix)),
        split_mount(source) is None,
{
    reveal_strlit(":");
    let tail = ":"@ + suffix;
    let value = source + ":"@ + suffix;
    assert(value =~= source + tail);
    assert(tail[0] == ':');
    lemma_colon_behind(source, tail);
    assert(value.take(source.len() as int) =~= source);
    assert(value.skip(source.len() as int + 1) =~= suffix);
    lemma_colon_behind(source, Seq::empty());
    assert(source + Seq::<char>::empty() =~= source);
}

/// A colon inside an expression in braces does not end the source.
pub proof fn expressions_are_not_split(
    before: Seq<char>,
    expression: Seq<char>,
    after: Seq<char>,
    suffix: Seq<char>,
)
    requires
        is_simple(before),
        has_no_brace(expression),
        is_simple(after),
    ensures
        split_mount(before + "{"@ + expression + "}"@ + after + ":"@ + suffix) == Some(
            (before + "{"@ + expression + "}"@ + after, suffix),
        ),
{
    reveal_strlit(":");
    reveal_strlit("{");
    reveal_strlit("}");
    let end = ":"@ + suffix;
    let tail = after + end;
    let inside = expression + "}"@ + tail;
    let opened = "{"@ + inside;
    let source = before + "{"@ + expression + "}"@ + after;
    let value = source + ":"@ + suffix;
    assert(value =~= before + opened);
    assert(end[0] == ':');
    assert(opened[0] == '{');
    assert(opened.drop_first() =~= inside);
    lemma_colon_behind(after, end);
    lemma_colon_behind_braces(expression, tail);
    lemma_colon_behind(before, opened);
    assert(colon_position(value, 0) == Some(source.len() as int));
    assert(value.take(source.len() as int) =~= source);
    assert(value.skip(source.len() as int + 1) =~= suffix);
}

proof fn lemma_before_colon(head: Seq<char>, tail: Seq<char>)
    requires
        has_no_colon(head),
        tail.len() == 0 || tail[0] == ':',
    ensures
        before_colon(head + tail) == head,
    decreases head.len(),
{
    if head.len() == 0 {
        assert(head + tail =~= tail);
    } else {
        let rest = head.drop_first();
        assert((head + tail).drop_first() =~= rest + tail);
        assert((head + tail)[0] == head[0]);
        assert forall|i: int| 0 <= i < rest.len() implies #[trigger] rest[i] != ':' by {
            assert(rest[i] == head[i + 1]);
        }
        lemma_before_colon(rest, tail);
        assert(seq![head[0]] + rest =~= head);
    }
}

/// The target of a mount in its short form stands behind the source, with or
/// without a mode behind it; its source counts as a path on the host exactly when
/// it is absolute or begins with a dot.
pub proof fn short_mounts_tell_source_and_target(
    source: Seq<char>,
    target: Seq<char>,
    mode: Seq<char>,
)
    requires
        is_simple(source),
        has_no_colon(target),
    ensures
        mount_target(MountModel::Short(source + ":"@ + target)) == Some(target),
        mount_target(MountModel::Short(source + ":"@ + (target + ":"@ + mode))) == Some(target),
        bind_source(MountModel::Short(source + ":"@ + target)) == if path::is_absolute_path(source)
            || begins_with_dot(source) {
            Some(source)
        } else {
            None
        },
{
    reveal_strlit(":");
    short_mounts_split_at_the_colon(source, target);
    short_mounts_split_at_the_colon(source, target + ":"@ + mode);
    lemma_before_colon(target, Seq::empty());
    assert(target + Seq::<char>::empty() =~= target);
    lemma_before_colon(target, ":"@ + mode);
    assert(target + ":"@ + mode =~= target + (":"@ + mode));
}

proof fn lemma_mount_with_target(volumes: Seq<BackupComposeMount>, target: Seq<char>)
    ensures
        match mount_with_target(volumes, target) {
            Some(mount) => exists|v: int|
                {
                    &&& 0 <= v < volumes.len()
                    &&& mount == mount_model(#[trigger] volumes[v])
                    &&& mount_target(mount) == Some(target)
                    &&& forall|w: int|
                        0 <= w < v ==> mount_target(mount_model(#[trigger] volumes[w])) != Some(
                            target,
                        )
                },
            None => forall|w: int|
                0 <= w < volumes.len() ==> mount_target(mount_model(#[trigger] volumes[w])) != Some(
                    target,
                ),
        },
    decreases volumes.len(),
{
    if volumes.len() > 0 && mount_target(mount_model(volumes[0])) != Some(target) {
        let rest = volumes.drop_first();
        lemma_mount_with_target(rest, target);
        assert forall|w: int| 0 < w < volumes.len() implies #[trigger] volumes[w] == rest[w
            - 1] by {}
        match mount_with_target(rest, target) {
            Some(mount) => {
                let v = choose|v: int|
                    {
                        &&& 0 <= v < rest.len()
                        &&& mount == mount_model(#[trigger] rest[v])
                        &&& mount_target(mount) == Some(target)
                        &&& forall|w: int|
                            0 <= w < v ==> mount_target(mount_model(#[trigger] rest[w])) != Some(
                                target,
                            )
                    };
                assert(volumes[v + 1] == rest[v]);
                assert forall|w: int| 0 <= w < v + 1 implies mount_target(
                    mount_model(#[trigger] volumes[w]),
                ) != Some(target) by {
                    if w > 0 {
                        assert(volumes[w] == rest[w - 1]);
                    }
                }
            },
            None => {
                assert forall|w: int| 0 <= w < volumes.len() implies mount_target(
                    mount_model(#[trigger] volumes[w]),
                ) != Some(target) by {
                    if w > 0 {
                        assert(volumes[w] == rest[w - 1]);
                    }
                }
            },
        }
    }
}

/// The `v`-th mount of the `s`-th deployed service is the one for the target of
/// the service with the name: the first with this target of the first with this
/// name.
pub open spec fn is_deployed_for(
    services: Seq<BackupComposeService>,
    s: int,
    v: int,
    service: Seq<char>,
    target: Seq<char>,
) -> bool {
    &&& 0 <= s < services.len()
    &&& services[s].name@ == service
    &&& forall|r: int| 0 <= r < s ==> (#[trigger] services[r]).name@ != service
    &&& 0 <= v < services[s].volumes@.len()
    &&& mount_target(mount_model(services[s].volumes@[v])) == Some(target)
    &&& forall|w: int|
        0 <= w < v ==> mount_target(mount_model(#[trigger] services[s].volumes@[w])) != Some(
            target,
        )
}

proof fn lemma_deployed_mount(
    services: Seq<BackupComposeService>,
    service: Seq<char>,
    target: Seq<char>,
)
    ensures
        match deployed_mount(services, service, target) {
            Some(mount) => exists|s: int, v: int|
                #![trigger services[s].volumes@[v]]
                is_deployed_for(services, s, v, service, target) && mount == mount_model(
                    services[s].volumes@[v],
                ),
            None => forall|s: int, v: int|
                !#[trigger] is_deployed_for(services, s, v, service, target),
        },
    decreases services.len(),
{
    if services.len() > 0 {
        if services[0].name@ == service {
            let volumes = services[0].volumes@;
            lemma_mount_with_target(volumes, target);
            match mount_with_target(volumes, target) {
                Some(mount) => {
                    let v = choose|v: int|
                        {
                            &&& 0 <= v < volumes.len()
                            &&& mount == mount_model(#[trigger] volumes[v])
                            &&& mount_target(mount) == Some(target)
                            &&& forall|w: int|
                                0 <= w < v ==> mount_target(mount_model(#[trigger] volumes[w]))
                                    != Some(target)
                        };
                    assert(is_deployed_for(services, 0, v, service, target));
                    assert(mount == mount_model(services[0].volumes@[v]));
                },
                None => {
                    assert forall|s: int, v: int| !#[trigger] is_deployed_for(
                        services,
                        s,
                        v,
                        service,
                        target,
                    ) by {
                        if is_deployed_for(services, s, v, service, target) {
                            assert(s == 0);
                            assert(mount_target(mount_model(volumes[v])) != Some(target));
                        }
                    }
                },
            }
        } else {
            let rest = services.drop_first();
            lemma_deployed_mount(rest, service, target);
            match deployed_mount(rest, service, target) {
                Some(mount) => {
                    let (s, v) = choose|s: int, v: int|
                        #![trigger rest[s].volumes@[v]]
                        is_deployed_for(rest, s, v, service, target) && mount == mount_model(
                            rest[s].volumes@[v],
                        );
                    assert(services[s + 1] == rest[s]);
                    assert forall|r: int| 0 <= r < s + 1 implies (#[trigger] services[r]).name@
                        != service by {
                        if r > 0 {
                            assert(services[r] == rest[r - 1]);
                        }
                    }
                    assert(is_deployed_for(services, s + 1, v, service, target));
                    assert(mount == mount_model(services[s + 1].volumes@[v]));
                },
                None => {
                    assert forall|s: int, v: int| !#[trigger] is_deployed_for(
                        services,
                        s,
                        v,
                        service,
                        target,
                    ) by {
                        if is_deployed_for(services, s, v, service, target) {
                            assert(s > 0);
                            assert(rest[s - 1] == services[s]);
                            assert forall|r: int| 0 <= r < s - 1 implies (
                            #[trigger] rest[r]).name@ != service by {
                                assert(rest[r] == services[r + 1]);
                            }
                            assert(is_deployed_for(rest, s - 1, v, service, target));
                        }
                    }
                },
            }
        }
    }
}

/// The volume has to be resolved: its source is a relative path or holds an
/// expression.
pub open spec fn needs_the_deployed_source(form: FormModel) -> bool {
    &&& mount_of(form) is Some
    &&& written_source(mount_of(form)->Some_0) is Some
    &&& ({
        let mount = mount_of(form)->Some_0;
        let source = written_source(mount)->Some_0;
        is_relative_bind(mount, source) || source.contains('$')
    })
}

/// A source that stands for a volume of a recovered stack is the absolute bind
/// source of a mount that was deployed for the service with the same name and for
/// the same target.
pub proof fn sources_come_from_the_same_service(
    service: Option<Seq<char>>,
    form: FormModel,
    deployed: Option<Seq<BackupComposeService>>,
    mappings: Seq<(Seq<char>, Seq<char>)>,
    aliases: Seq<(Seq<char>, Seq<char>)>,
)
    requires
        resolved_source(service, form, deployed, mappings, aliases) is Ok,
        resolved_source(service, form, deployed, mappings, aliases)->Ok_0 is Some,
    ensures
        needs_the_deployed_source(form),
        mount_target(mount_of(form)->Some_0) is Some,
        service is Some,
        deployed is Some,
        exists|s: int, v: int|
            #![trigger deployed->Some_0[s].volumes@[v]]
            {
                let source = resolved_source(
                    service,
                    form,
                    deployed,
                    mappings,
                    aliases,
                )->Ok_0->Some_0;
                &&& is_deployed_for(
                    deployed->Some_0,
                    s,
                    v,
                    service->Some_0,
                    mount_target(mount_of(form)->Some_0)->Some_0,
                )
                &&& bind_source(mount_model(deployed->Some_0[s].volumes@[v])) == Some(source)
                &&& path::is_absolute_path(source)
                &&& remapped(source, mappings, aliases) is Some
            },
{
    let target = mount_target(mount_of(form)->Some_0)->Some_0;
    lemma_deployed_mount(deployed->Some_0, service->Some_0, target);
    let mount = deployed_mount(deployed->Some_0, service->Some_0, target)->Some_0;
    let (s, v) = choose|s: int, v: int|
        #![trigger deployed->Some_0[s].volumes@[v]]
        is_deployed_for(deployed->Some_0, s, v, service->Some_0, target) && mount == mount_model(
            deployed->Some_0[s].volumes@[v],
        );
    assert(bind_source(mount_model(deployed->Some_0[s].volumes@[v])) is Some);
}

/// A volume that has to be resolved gets the source of the deployed mount of its
/// own service and target, if that one is absolute and mapped.
pub proof fn deployed_sources_are_found(
    service: Seq<char>,
    form: FormModel,
    services: Seq<BackupComposeService>,
    s: int,
    v: int,
    mappings: Seq<(Seq<char>, Seq<char>)>,
    aliases: Seq<(Seq<char>, Seq<char>)>,
    source: Seq<char>,
)
    requires
        needs_the_deployed_source(form),
        mount_target(mount_of(form)->Some_0) is Some,
        is_deployed_for(
            services,
            s,
            v,
            service,
            mount_target(mount_of(form)->Some_0)->Some_0,
        ),
        bind_source(mount_model(services[s].volumes@[v])) == Some(source),
        path::is_absolute_path(source),
        remapped(source, mappings, aliases) is Some,
    ensures
        resolved_source(Some(service), form, Some(services), mappings, aliases) == Ok::<
            Option<Seq<char>>,
            ComposeError,
        >(Some(source)),
{
    let target = mount_target(mount_of(form)->Some_0)->Some_0;
    lemma_deployed_mount(services, service, target);
    assert(is_deployed_for(services, s, v, service, target));
    let mount = deployed_mount(services, service, target)->Some_0;
    let (t, w) = choose|t: int, w: int|
        #![trigger services[t].volumes@[w]]
        is_deployed_for(services, t, w, service, target) && mount == mount_model(
            services[t].volumes@[w],
        );
    assert(s == t);
    assert(v == w);
}

/// A volume that has to be resolved is refused if its service is not deployed
/// under its name, or has no mount with the same target.
pub proof fn undeployed_volumes_are_refused(
    service: Option<Seq<char>>,
    form: FormModel,
    services: Seq<BackupComposeService>,
    mappings: Seq<(Seq<char>, Seq<char>)>,
    aliases: Seq<(Seq<char>, Seq<char>)>,
)
    requires
        needs_the_deployed_source(form),
        service is None || mount_target(mount_of(form)->Some_0) is None || forall|s: int, v: int|
            0 <= s < services.len() && services[s].name@ == service->Some_0 && 0 <= v
                < services[s].volumes@.len() ==> mount_target(
                mount_model(#[trigger] services[s].volumes@[v]),
            ) != mount_target(mount_of(form)->Some_0),
    ensures
        resolved_source(service, form, Some(services), mappings, aliases) is Err,
{
    if service is Some && mount_target(mount_of(form)->Some_0) is Some {
        let target = mount_target(mount_of(form)->Some_0)->Some_0;
        lemma_deployed_mount(services, service->Some_0, target);
        if deployed_mount(services, service->Some_0, target) is Some {
            let mount = deployed_mount(services, service->Some_0, target)->Some_0;
            let (s, v) = choose|s: int, v: int|
                #![trigger services[s].volumes@[v]]
                is_deployed_for(services, s, v, service->Some_0, target) && mount == mount_model(
                    services[s].volumes@[v],
                );
            assert(mount_target(mount_model(services[s].volumes@[v])) == Some(target));
        }
    }
}

/// The source goes with the `j`-th mapping: it lies below it, no other one that it
/// lies below is deeper, and none behind it is as deep.
pub open spec fn goes_with(
    source: Seq<char>,
    mappings: Seq<(Seq<char>, Seq<char>)>,
    j: int,
) -> bool {
    &&& 0 <= j < mappings.len()
    &&& path::stripped(source, mappings[j].0) is Some
    &&& forall|k: int|
        0 <= k < mappings.len() && path::stripped(source, (#[trigger] mappings[k]).0) is Some
            ==> preview::piece_count(mappings[k].0) <= preview::piece_count(mappings[j].0) && (k > j
            ==> preview::piece_count(mappings[k].0) < preview::piece_count(mappings[j].0))
}

proof fn lemma_mapped_by(source: Seq<char>, mappings: Seq<(Seq<char>, Seq<char>)>)
    ensures
        match mapped_by(source, mappings) {
            Some(best) => exists|j: int|
                #![trigger mappings[j]]
                goes_with(source, mappings, j) && best.0 == preview::piece_count(mappings[j].0)
                    && best.1 == path::joined(
                    mappings[j].1,
                    path::stripped(source, mappings[j].0)->Some_0,
                ),
            None => forall|k: int|
                0 <= k < mappings.len() ==> path::stripped(source, (#[trigger] mappings[k]).0)
                    is None,
        },
    decreases mappings.len(),
{
    if mappings.len() > 0 {
        let rest = mappings.drop_last();
        let n = rest.len() as int;
        lemma_mapped_by(source, rest);
        assert forall|k: int| 0 <= k < n implies #[trigger] mappings[k] == rest[k] by {}
        let last = mappings[n];
        match mapped_by(source, rest) {
            Some(best) => {
                let j = choose|j: int|
                    #![trigger rest[j]]
                    goes_with(source, rest, j) && best.0 == preview::piece_count(rest[j].0)
                        && best.1 == path::joined(
                        rest[j].1,
                        path::stripped(source, rest[j].0)->Some_0,
                    );
                assert(mappings[j] == rest[j]);
                assert forall|k: int|
                    0 <= k < n && path::stripped(source, (#[trigger] mappings[k]).0)
                        is Some implies preview::piece_count(mappings[k].0)
                    <= preview::piece_count(mappings[j].0) && (k > j ==> preview::piece_count(
                    mappings[k].0,
                ) < preview::piece_count(mappings[j].0)) by {
                    assert(rest[k] == mappings[k]);
                }
                if path::stripped(source, last.0) is Some && best.0 <= preview::piece_count(
                    last.0,
                ) {
                    assert(goes_with(source, mappings, n));
                } else {
                    assert(goes_with(source, mappings, j));
                }
            },
            None => {
                assert forall|k: int| 0 <= k < n implies path::stripped(
                    source,
                    (#[trigger] mappings[k]).0,
                ) is None by {
                    assert(rest[k] == mappings[k]);
                }
                if path::stripped(source, last.0) is Some {
                    assert(goes_with(source, mappings, n));
                }
            },
        }
    }
}

/// The last pair with the key gives it its value.
pub proof fn later_aliases_win(pairs: Seq<(Seq<char>, Seq<char>)>, key: Seq<char>, j: int)
    requires
        0 <= j < pairs.len(),
        pairs[j].0 == key,
        forall|k: int| j < k < pairs.len() ==> (#[trigger] pairs[k]).0 != key,
    ensures
        looked_up(pairs, key) == Some(pairs[j].1),
    decreases pairs.len(),
{
    if j < pairs.len() - 1 {
        assert(pairs[pairs.len() - 1].0 != key);
        let rest = pairs.drop_last();
        assert forall|k: int| j < k < rest.len() implies (#[trigger] rest[k]).0 != key by {
            assert(rest[k] == pairs[k]);
        }
        later_aliases_win(rest, key, j);
    }
}

/// A key without a pair has no value.
pub proof fn unknown_aliases_have_no_value(pairs: Seq<(Seq<char>, Seq<char>)>, key: Seq<char>)
    requires
        forall|k: int| 0 <= k < pairs.len() ==> (#[trigger] pairs[k]).0 != key,
    ensures
        looked_up(pairs, key) is None,
    decreases pairs.len(),
{
    if pairs.len() > 0 {
        assert(pairs[pairs.len() - 1].0 != key);
        let rest = pairs.drop_last();
        assert forall|k: int| 0 <= k < rest.len() implies (#[trigger] rest[k]).0 != key by {
            assert(rest[k] == pairs[k]);
        }
        unknown_aliases_have_no_value(rest, key);
    }
}

/// A bind source goes where the deepest mapping that it lies below sends it: what
/// lies below the one end of the mapping is found below the other end, under the
/// same names. A source that lies below none is not mapped.
pub proof fn sources_follow_their_deepest_mapping(
    source: Seq<char>,
    mappings: Seq<(Seq<char>, Seq<char>)>,
    aliases: Seq<(Seq<char>, Seq<char>)>,
    j: int,
)
    requires
        path::is_absolute_path(source),
        looked_up(aliases, source) is None,
    ensures
        goes_with(source, mappings, j) ==> remapped(source, mappings, aliases) == Some(
            path::joined(mappings[j].1, path::stripped(source, mappings[j].0)->Some_0),
        ),
        (forall|k: int|
            0 <= k < mappings.len() ==> path::stripped(source, (#[trigger] mappings[k]).0) is None)
            ==> remapped(source, mappings, aliases) is None,
{
    lemma_mapped_by(source, mappings);
    match mapped_by(source, mappings) {
        Some(best) => {
            let i = choose|i: int|
                #![trigger mappings[i]]
                goes_with(source, mappings, i) && best.0 == preview::piece_count(mappings[i].0)
                    && best.1 == path::joined(
                    mappings[i].1,
                    path::stripped(source, mappings[i].0)->Some_0,
                );
            if goes_with(source, mappings, j) {
                assert(path::stripped(source, mappings[i].0) is Some);
                assert(path::stripped(source, mappings[j].0) is Some);
                assert(i == j);
            }
        },
        None => {
            if goes_with(source, mappings, j) {
                assert(path::stripped(source, mappings[j].0) is None);
            }
        },
    }
}

proof fn lemma_resolved_one(
    volumes: Seq<SeenModel>,
    deployed: Option<Seq<BackupComposeService>>,
    mappings: Seq<(Seq<char>, Seq<char>)>,
    aliases: Seq<(Seq<char>, Seq<char>)>,
    i: int,
)
    requires
        0 <= i < volumes.len(),
        resolved_sources(volumes, deployed, mappings, aliases) is Ok,
    ensures
        resolved_sources(volumes, deployed, mappings, aliases)->Ok_0.len() == volumes.len(),
        resolved_source(volumes[i].service, volumes[i].form, deployed, mappings, aliases) == Ok::<
            Option<Seq<char>>,
            ComposeError,
        >(resolved_sources(volumes, deployed, mappings, aliases)->Ok_0[i]),
    decreases volumes.len(),
{
    let rest = volumes.drop_last();
    if i < rest.len() {
        lemma_resolved_one(rest, deployed, mappings, aliases, i);
        assert(rest[i] == volumes[i]);
    } else if rest.len() > 0 {
        lemma_resolved_one(rest, deployed, mappings, aliases, 0);
    }
}

/// In a recovered Compose file, a volume in the short form whose source is
/// relative or holds an expression shows where the files of the mount went that
/// was deployed for its own service and target; all that stands behind the source
/// stays.
pub proof fn recovered_volumes_show_their_own_files(
    document: YamlModel,
    services: Seq<BackupComposeService>,
    mappings: Seq<(Seq<char>, Seq<char>)>,
    aliases: Seq<(Seq<char>, Seq<char>)>,
    i: int,
    service: Seq<char>,
    source: Seq<char>,
    suffix: Seq<char>,
    s: int,
    v: int,
    original: Seq<char>,
)
    requires
        recovered_document(document, Some(services), mappings, aliases) is Ok,
        0 <= i < volumes_in(document).len(),
        volumes_in(document)[i].service == Some(service),
        volumes_in(document)[i].volume == YamlModel::Text(source + ":"@ + suffix),
        is_simple(source),
        !path::is_absolute_path(source) && begins_with_dot(source) || source.contains('$'),
        is_deployed_for(services, s, v, service, before_colon(suffix)),
        bind_source(mount_model(services[s].volumes@[v])) == Some(original),
        path::is_absolute_path(original),
        is_simple(original),
        remapped(original, mappings, aliases) is Some,
    ensures
        recovered_document(document, Some(services), mappings, aliases)->Ok_0 is Some,
        ({
            let after = recovered_document(
                document,
                Some(services),
                mappings,
                aliases,
            )->Ok_0->Some_0;
            &&& volumes_in(after).len() == volumes_in(document).len()
            &&& volumes_in(after)[i].service == Some(service)
            &&& volumes_in(after)[i].volume == YamlModel::Text(
                remapped(original, mappings, aliases)->Some_0 + ":"@ + suffix,
            )
        }),
{
    let seen = seen_as(volumes_in(document));
    let sources = resolved_sources(seen, Some(services), mappings, aliases)->Ok_0;
    let form = form_of(volumes_in(document)[i].volume);
    short_mounts_split_at_the_colon(source, suffix);
    short_mounts_split_at_the_colon(original, suffix);
    lemma_resolved_one(seen, Some(services), mappings, aliases, i);
    assert(seen[i].form == form);
    deployed_sources_are_found(
        service,
        form,
        services,
        s,
        v,
        mappings,
        aliases,
        original,
    );
    assert(sources[i] == Some(original));
    only_sources_change(document, sources);
    let resolved = replaced_document(document, sources);
    assert(volumes_in(resolved)[i].volume == YamlModel::Text(original + ":"@ + suffix));
    let again = seen_as(volumes_in(resolved));
    let others = rewritten_sources(again, mappings, aliases);
    assert(others[i] == rewritten_source(again[i].form, mappings, aliases));
    assert(others[i] == remapped(original, mappings, aliases));
    lemma_given_count(others, i);
    only_sources_change(resolved, others);
    let after = replaced_document(resolved, others);
    assert(volumes_in(after)[i].service == volumes_in(resolved)[i].service);
}

proof fn lemma_given_count(sources: Seq<Option<Seq<char>>>, i: int)
    requires
        0 <= i < sources.len(),
        sources[i] is Some,
    ensures
        given_count(sources) > 0,
    decreases sources.len(),
{
    if i < sources.len() - 1 {
        lemma_given_count(sources.drop_last(), i);
    }
}

/// In a recovered Compose file, a volume in the short form whose source is an
/// absolute path shows where the files at that path went; one that is not mapped
/// stays as it is.
pub proof fn absolute_volumes_follow_their_files(
    document: YamlModel,
    deployed: Option<Seq<BackupComposeService>>,
    mappings: Seq<(Seq<char>, Seq<char>)>,
    aliases: Seq<(Seq<char>, Seq<char>)>,
    i: int,
    source: Seq<char>,
    suffix: Seq<char>,
)
    requires
        recovered_document(document, deployed, mappings, aliases) is Ok,
        0 <= i < volumes_in(document).len(),
        volumes_in(document)[i].volume == YamlModel::Text(source + ":"@ + suffix),
        is_simple(source),
        path::is_absolute_path(source),
        !source.contains('$'),
    ensures
        match remapped(source, mappings, aliases) {
            Some(found) => {
                &&& recovered_document(document, deployed, mappings, aliases)->Ok_0 matches Some(
                    after,
                )
                &&& volumes_in(after)[i].volume == YamlModel::Text(found + ":"@ + suffix)
            },
            None => recovered_document(document, deployed, mappings, aliases)->Ok_0 matches Some(
                after,
            ) ==> volumes_in(after)[i].volume == volumes_in(document)[i].volume,
        },
{
    let seen = seen_as(volumes_in(document));
    let sources = resolved_sources(seen, deployed, mappings, aliases)->Ok_0;
    short_mounts_split_at_the_colon(source, suffix);
    lemma_resolved_one(seen, deployed, mappings, aliases, i);
    assert(seen[i].form == form_of(volumes_in(document)[i].volume));
    assert(sources[i] is None);
    only_sources_change(document, sources);
    let resolved = replaced_document(document, sources);
    assert(volumes_in(resolved)[i].volume == volumes_in(document)[i].volume);
    let again = seen_as(volumes_in(resolved));
    let others = rewritten_sources(again, mappings, aliases);
    assert(others[i] == rewritten_source(again[i].form, mappings, aliases));
    assert(others[i] == remapped(source, mappings, aliases));
    if others[i] is Some {
        lemma_given_count(others, i);
    }
    only_sources_change(resolved, others);
    let after = replaced_document(resolved, others);
    assert(volumes_in(after)[i].service == volumes_in(resolved)[i].service);
}

proof fn lemma_bind_sources(volumes: Seq<BackupComposeMount>, source: Seq<char>)
    ensures
        bind_sources(volumes).contains(source) <==> exists|v: int|
            0 <= v < volumes.len() && bind_source(mount_model(#[trigger] volumes[v])) == Some(
                source,
            ),
    decreases volumes.len(),
{
    let all = bind_sources(volumes);
    if volumes.len() > 0 {
        let rest = volumes.drop_last();
        let before = bind_sources(rest);
        let n = rest.len() as int;
        lemma_bind_sources(rest, source);
        assert forall|v: int| 0 <= v < n implies #[trigger] volumes[v] == rest[v] by {}
        if before.contains(source) {
            let k = before.index_of(source);
            assert(all[k] == source);
            let v = choose|v: int|
                0 <= v < rest.len() && bind_source(mount_model(#[trigger] rest[v])) == Some(source);
            assert(volumes[v] == rest[v]);
        } else if all.contains(source) {
            let k = all.index_of(source);
            if k < before.len() {
                assert(before[k] == source);
            }
            assert(bind_source(mount_model(volumes[n])) == Some(source));
        }
        if exists|v: int|
            0 <= v < volumes.len() && bind_source(mount_model(#[trigger] volumes[v])) == Some(
                source,
            ) {
            let v = choose|v: int|
                0 <= v < volumes.len() && bind_source(mount_model(#[trigger] volumes[v])) == Some(
                    source,
                );
            if v < n {
                assert(rest[v] == volumes[v]);
            } else {
                assert(all[before.len() as int] == source);
            }
        }
    }
}

/// The bind sources of a stack are those of every mount of every service.
pub proof fn all_services_tell_their_bind_sources(
    services: Seq<BackupComposeService>,
    source: Seq<char>,
)
    ensures
        service_sources(services).contains(source) <==> exists|s: int, v: int|
            0 <= s < services.len() && 0 <= v < services[s].volumes@.len() && bind_source(
                mount_model(#[trigger] services[s].volumes@[v]),
            ) == Some(source),
    decreases services.len(),
{
    let all = service_sources(services);
    if services.len() > 0 {
        let rest = services.drop_last();
        let n = rest.len() as int;
        let before = service_sources(rest);
        let last = bind_sources(services[n].volumes@);
        all_services_tell_their_bind_sources(rest, source);
        lemma_bind_sources(services[n].volumes@, source);
        assert(all =~= before + last);
        if before.contains(source) {
            let k = before.index_of(source);
            assert(all[k] == source);
            let (s, v) = choose|s: int, v: int|
                0 <= s < rest.len() && 0 <= v < rest[s].volumes@.len() && bind_source(
                    mount_model(#[trigger] rest[s].volumes@[v]),
                ) == Some(source);
            assert(services[s] == rest[s]);
            assert(bind_source(mount_model(services[s].volumes@[v])) == Some(source));
        }
        if last.contains(source) {
            let k = last.index_of(source);
            assert(all[before.len() + k] == source);
            let v = choose|v: int|
                0 <= v < services[n].volumes@.len() && bind_source(
                    mount_model(#[trigger] services[n].volumes@[v]),
                ) == Some(source);
            assert(bind_source(mount_model(services[n].volumes@[v])) == Some(source));
        }
        if all.contains(source) {
            let k = all.index_of(source);
            if k < before.len() {
                assert(before[k] == source);
            } else {
                assert(last[k - before.len()] == source);
            }
        }
        if exists|s: int, v: int|
            0 <= s < services.len() && 0 <= v < services[s].volumes@.len() && bind_source(
                mount_model(#[trigger] services[s].volumes@[v]),
            ) == Some(source) {
            let (s, v) = choose|s: int, v: int|
                0 <= s < services.len() && 0 <= v < services[s].volumes@.len() && bind_source(
                    mount_model(#[trigger] services[s].volumes@[v]),
                ) == Some(source);
            if s < n {
                assert(rest[s] == services[s]);
                assert(bind_source(mount_model(rest[s].volumes@[v])) == Some(source));
            }
        }
    }
}

} // verus!
