//! Which containers a backup or a restore concerns.
//!
//! While data is copied, the containers that use it are stopped. Containers of
//! the control plane, and those that are marked to be skipped, are never
//! stopped; what belongs to them is refused instead.

use vstd::prelude::*;
use vstd::utf8::encode_utf8;

use crate::docker::container;
use crate::docker::container::label_of;
use crate::docker::container::ContainerListItem;
use crate::docker::container::ContainerStateStatusEnum;
use crate::file_manager::revision;
use crate::outside;
use crate::path;
use crate::text;
use crate::text::in_order;
use crate::text::texts;

verus! {

/// The label that holds the Compose project of a container.
pub const COMPOSE_PROJECT_LABEL: &'static str = "com.docker.compose.project";

/// The label of containers that are never stopped.
pub const SKIP_LABEL: &'static str = "komodo.skip";

/// The label of a volume that was created for a restore.
pub const RESTORE_PLAN_VOLUME_LABEL: &'static str = "komodo.restore-plan";

/// What is backed up or restored.
#[derive(Clone, Debug, PartialEq, Eq)]
pub enum PeripheryBackupTarget {
    /// The stack that is deployed as the Compose project.
    Stack { project_name: String },
    /// The volume.
    Volume { volume_name: String },
}

/// A path that belongs to the control plane, and the container that it is a
/// path of.
#[derive(Clone, Debug, PartialEq, Eq)]
pub struct ProtectedRepositoryPath {
    pub path: String,
    pub core_container_id: String,
}

/// A mount of a container.
#[derive(Clone, Debug, PartialEq, Eq)]
pub struct MountPoint {
    pub typ: Option<String>,
    pub source: Option<String>,
    pub destination: Option<String>,
}

// ---------------------------------------------------------------------------
// Identities
// ---------------------------------------------------------------------------

/// The character is a decimal or a lower-case hexadecimal digit.
pub open spec fn is_id_char(c: char) -> bool {
    ('0' <= c && c <= '9') || ('a' <= c && c <= 'f')
}

/// The text is a short or a long container identity.
pub open spec fn is_container_id(id: Seq<char>) -> bool {
    &&& id.len() == 12 || id.len() == 64
    &&& forall|i: int| 0 <= i < id.len() ==> is_id_char(#[trigger] id[i])
}

/// The container has the identity.
pub open spec fn has_id(container: ContainerListItem, id: Seq<char>) -> bool {
    &&& is_container_id(id)
    &&& text::held(container.id) matches Some(candidate)
    &&& encode_utf8(candidate).len() == 64
    &&& id.is_prefix_of(candidate)
}

/// Whether the container has the identity: a full one or the short form of it.
pub fn container_matches_id(container: &ContainerListItem, id: &str) -> (matches: bool)
    ensures
        matches == has_id(*container, id@),
{
    let chars = text::chars_of(id);
    if chars.len() != 12 && chars.len() != 64 {
        return false;
    }
    for i in 0..chars.len()
        invariant
            chars@ == id@,
            forall|j: int| 0 <= j < i ==> is_id_char(#[trigger] chars@[j]),
    {
        let c = chars[i];
        if !(('0' <= c && c <= '9') || ('a' <= c && c <= 'f')) {
            assert(!is_id_char(id@[i as int]));
            return false;
        }
    }
    match &container.id {
        Some(candidate) => revision::bytes_of_text(candidate.as_str()).len() == 64
            && text::begins_with(candidate.as_str(), id),
        None => false,
    }
}

/// The container has the identity, if there is one.
pub open spec fn has_some_id(container: ContainerListItem, id: Option<Seq<char>>) -> bool {
    id matches Some(own) && has_id(container, own)
}

fn matches_some_id(container: &ContainerListItem, id: &Option<String>) -> (matches: bool)
    ensures
        matches == has_some_id(*container, text::held(*id)),
{
    match id {
        Some(own) => container_matches_id(container, own.as_str()),
        None => false,
    }
}

/// The container belongs to the control plane.
pub open spec fn is_core(
    container: ContainerListItem,
    protected_paths: Seq<ProtectedRepositoryPath>,
) -> bool {
    exists|i: int|
        0 <= i < protected_paths.len() && has_id(
            container,
            (#[trigger] protected_paths[i]).core_container_id@,
        )
}

/// Whether the container belongs to the control plane.
pub fn is_core_container(
    container: &ContainerListItem,
    protected_paths: &Vec<ProtectedRepositoryPath>,
) -> (core: bool)
    ensures
        core == is_core(*container, protected_paths@),
{
    for i in 0..protected_paths.len()
        invariant
            forall|j: int|
                0 <= j < i ==> !has_id(
                    *container,
                    (#[trigger] protected_paths@[j]).core_container_id@,
                ),
    {
        if container_matches_id(container, protected_paths[i].core_container_id.as_str()) {
            return true;
        }
    }
    false
}

/// The container is marked to be left alone.
pub open spec fn is_skipped(container: ContainerListItem) -> bool {
    label_of(container.labels@, SKIP_LABEL@) matches Some(value) && value != "false"@
}

/// Whether the container is marked to be left alone.
pub fn container_backup_is_skipped(container: &ContainerListItem) -> (skipped: bool)
    ensures
        skipped == is_skipped(*container),
{
    match container::label(&container.labels, SKIP_LABEL) {
        Some(value) => !text::same(value, "false"),
        None => false,
    }
}

/// The container uses what is backed up or restored.
pub open spec fn consumes(container: ContainerListItem, target: PeripheryBackupTarget) -> bool {
    match target {
        PeripheryBackupTarget::Stack { project_name } => label_of(
            container.labels@,
            COMPOSE_PROJECT_LABEL@,
        ) == Some(project_name@),
        PeripheryBackupTarget::Volume { volume_name } => texts(container.volumes@).contains(
            volume_name@,
        ),
    }
}

fn consumes_target(container: &ContainerListItem, target: &PeripheryBackupTarget) -> (consuming:
    bool)
    ensures
        consuming == consumes(*container, *target),
{
    match target {
        PeripheryBackupTarget::Stack { project_name } => match container::label(
            &container.labels,
            COMPOSE_PROJECT_LABEL,
        ) {
            Some(value) => text::same(value, project_name.as_str()),
            None => false,
        },
        PeripheryBackupTarget::Volume { volume_name } => text::contains_text(
            &container.volumes,
            volume_name.as_str(),
        ),
    }
}

/// The container is a protected one that uses the target.
pub open spec fn forbids(
    container: ContainerListItem,
    target: PeripheryBackupTarget,
    protected_paths: Seq<ProtectedRepositoryPath>,
) -> bool {
    (is_core(container, protected_paths) || is_skipped(container)) && consumes(container, target)
}

/// The name is that of the first container that forbids the target.
pub open spec fn is_first_forbidding(
    containers: Seq<ContainerListItem>,
    target: PeripheryBackupTarget,
    protected_paths: Seq<ProtectedRepositoryPath>,
    name: Seq<char>,
) -> bool {
    exists|i: int|
        {
            &&& 0 <= i < containers.len()
            &&& forbids(#[trigger] containers[i], target, protected_paths)
            &&& name == containers[i].name@
            &&& forall|j: int|
                0 <= j < i ==> !forbids(#[trigger] containers[j], target, protected_paths)
        }
}

/// Refuses a target that a protected container uses, also a stopped one; the
/// error names the first such container.
pub fn ensure_target_not_control_plane(
    containers: &Vec<ContainerListItem>,
    target: &PeripheryBackupTarget,
    protected_paths: &Vec<ProtectedRepositoryPath>,
) -> (outcome: Result<(), String>)
    ensures
        match outcome {
            Ok(_) => forall|i: int|
                0 <= i < containers@.len() ==> !forbids(
                    #[trigger] containers@[i],
                    *target,
                    protected_paths@,
                ),
            Err(name) => is_first_forbidding(
                containers@,
                *target,
                protected_paths@,
                name@,
            ),
        },
{
    for i in 0..containers.len()
        invariant
            forall|j: int|
                0 <= j < i ==> !forbids(#[trigger] containers@[j], *target, protected_paths@),
    {
        let one = &containers[i];
        if (is_core_container(one, protected_paths) || container_backup_is_skipped(one))
            && consumes_target(one, target) {
            assert(forbids(containers@[i as int], *target, protected_paths@));
            return Err(one.name.clone());
        }
    }
    Ok(())
}

/// The container may be stopped: it runs, is not this program's own one, and is
/// not marked to be left alone.
pub open spec fn may_be_stopped(container: ContainerListItem, own_id: Option<Seq<char>>) -> bool {
    &&& container.state == ContainerStateStatusEnum::Running
    &&& !has_some_id(container, own_id)
    &&& !is_skipped(container)
}

/// Whether the container may be stopped.
pub fn container_is_quiesce_candidate(container: &ContainerListItem, own_id: &Option<String>) -> (candidate:
    bool)
    ensures
        candidate == may_be_stopped(*container, text::held(*own_id)),
{
    container::is_running(container) && !matches_some_id(container, own_id)
        && !container_backup_is_skipped(container)
}

/// The container is stopped because it uses the target.
pub open spec fn is_stopped_for_target(
    container: ContainerListItem,
    target: PeripheryBackupTarget,
    own_id: Option<Seq<char>>,
    protected_paths: Seq<ProtectedRepositoryPath>,
) -> bool {
    may_be_stopped(container, own_id) && !is_core(container, protected_paths) && consumes(
        container,
        target,
    )
}

/// The names of the containers that are stopped because they use the target.
pub open spec fn names_for_target(
    containers: Seq<ContainerListItem>,
    target: PeripheryBackupTarget,
    own_id: Option<Seq<char>>,
    protected_paths: Seq<ProtectedRepositoryPath>,
) -> Seq<Seq<char>>
    decreases containers.len(),
{
    if containers.len() == 0 {
        Seq::empty()
    } else {
        let before = names_for_target(containers.drop_last(), target, own_id, protected_paths);
        if is_stopped_for_target(containers.last(), target, own_id, protected_paths) {
            before.push(containers.last().name@)
        } else {
            before
        }
    }
}

/// The names of the containers that are stopped because they use the target.
pub fn running_containers_for_target(
    containers: &Vec<ContainerListItem>,
    target: &PeripheryBackupTarget,
    own_id: &Option<String>,
    protected_paths: &Vec<ProtectedRepositoryPath>,
) -> (names: Vec<String>)
    ensures
        texts(names@) == names_for_target(
            containers@,
            *target,
            text::held(*own_id),
            protected_paths@,
        ),
{
    let mut names: Vec<String> = Vec::new();
    assert(containers@.take(0) =~= Seq::<ContainerListItem>::empty());
    assert(texts(names@) =~= Seq::<Seq<char>>::empty());
    for i in 0..containers.len()
        invariant
            texts(names@) == names_for_target(
                containers@.take(i as int),
                *target,
                text::held(*own_id),
                protected_paths@,
            ),
    {
        let ghost before = texts(names@);
        let one = &containers[i];
        assert(containers@.take(i + 1).drop_last() =~= containers@.take(i as int));
        assert(containers@.take(i + 1).last() == containers@[i as int]);
        if container_is_quiesce_candidate(one, own_id) && !is_core_container(one, protected_paths)
            && consumes_target(one, target) {
            names.push(one.name.clone());
            assert(texts(names@) =~= before.push(one.name@));
        }
    }
    assert(containers@.take(containers@.len() as int) =~= containers@);
    names
}

// ---------------------------------------------------------------------------
// Mounts
// ---------------------------------------------------------------------------

/// A mount of this type holds files.
pub open spec fn type_holds_files(mount_type: Option<Seq<char>>) -> bool {
    mount_type == Some("bind"@) || mount_type == Some("volume"@)
}

/// Whether a mount of this type holds files.
pub fn mount_type_affects_paths(mount_type: &Option<String>) -> (affects: bool)
    ensures
        affects == type_holds_files(text::held(*mount_type)),
{
    text::is_some_text(mount_type, "bind") || text::is_some_text(mount_type, "volume")
}

/// Where a path is found through a mount.
pub open spec fn through_mount(
    path: Seq<char>,
    mount_destination: Seq<char>,
    mount_source: Seq<char>,
) -> Option<Seq<char>> {
    match path::stripped(path, mount_destination) {
        Some(relative) => Some(path::joined(mount_source, relative)),
        None => if path::is_below(mount_destination, path) {
            Some(mount_source)
        } else {
            None
        },
    }
}

/// Where a path is found through a mount: below the source of a mount that
/// contains it, or at the source of one that it contains.
pub fn map_path_through_mount(
    repository: &str,
    mount_destination: &str,
    mount_source: &str,
) -> (mapped: Option<String>)
    ensures
        text::held(mapped) == through_mount(repository@, mount_destination@, mount_source@),
{
    match path::strip_prefix(repository, mount_destination) {
        Some(relative) => Some(path::join(mount_source, relative.as_str())),
        None => if path::path_is_below(mount_destination, repository) {
            Some(mount_source.to_owned())
        } else {
            None
        },
    }
}

/// Two paths that lead to the same files although their names do not show it.
#[derive(Clone, Debug, PartialEq, Eq)]
pub struct AliasedPaths {
    pub left: String,
    pub right: String,
}

/// The pair is known to lead to the same files.
pub open spec fn is_aliased(left: Seq<char>, right: Seq<char>, aliases: Seq<AliasedPaths>) -> bool {
    exists|i: int|
        0 <= i < aliases.len() && (#[trigger] aliases[i]).left@ == left && aliases[i].right@
            == right
}

/// One path leads into the other, by its names or as it is known.
pub open spec fn overlaps(left: Seq<char>, right: Seq<char>, aliases: Seq<AliasedPaths>) -> bool {
    ||| path::is_below(left, right)
    ||| path::is_below(right, left)
    ||| is_aliased(left, right, aliases)
}

/// Whether one path leads into the other, by its names or as it is known.
pub fn paths_overlap(left: &str, right: &str, aliases: &Vec<AliasedPaths>) -> (overlapping: bool)
    ensures
        overlapping == overlaps(left@, right@, aliases@),
{
    if path::path_is_below(left, right) || path::path_is_below(right, left) {
        return true;
    }
    for i in 0..aliases.len()
        invariant
            !path::is_below(left@, right@),
            !path::is_below(right@, left@),
            forall|j: int|
                0 <= j < i ==> !((#[trigger] aliases@[j]).left@ == left@ && aliases@[j].right@
                    == right@),
    {
        if text::same(aliases[i].left.as_str(), left) && text::same(
            aliases[i].right.as_str(),
            right,
        ) {
            return true;
        }
    }
    false
}

/// The source of a mount under all its names: as Docker tells it, and as this
/// program sees it through its own mounts.
pub open spec fn source_names(source: Seq<char>, own_mounts: Seq<MountPoint>) -> Seq<Seq<char>>
    decreases own_mounts.len(),
{
    if own_mounts.len() == 0 {
        seq![source]
    } else {
        let before = source_names(source, own_mounts.drop_last());
        let mount = own_mounts.last();
        match (text::held(mount.source), text::held(mount.destination)) {
            (Some(host), Some(local)) => match through_mount(source, host, local) {
                Some(alias) => before.push(alias),
                None => before,
            },
            _ => before,
        }
    }
}

/// The names under which the files of a mount are found; none if the mount holds
/// no files.
pub open spec fn mount_names(
    mount_type: Option<Seq<char>>,
    source: Option<Seq<char>>,
    own_mounts: Seq<MountPoint>,
) -> Seq<Seq<char>> {
    if !type_holds_files(mount_type) {
        Seq::empty()
    } else {
        match source {
            Some(path) => source_names(path, own_mounts),
            None => Seq::empty(),
        }
    }
}

/// The names under which the files of a mount are found.
pub fn mount_sources(
    mount_type: &Option<String>,
    source: &Option<String>,
    own_mounts: &Vec<MountPoint>,
) -> (names: Vec<String>)
    ensures
        texts(names@) == mount_names(text::held(*mount_type), text::held(*source), own_mounts@),
{
    let mut names: Vec<String> = Vec::new();
    assert(texts(names@) =~= Seq::<Seq<char>>::empty());
    if !mount_type_affects_paths(mount_type) {
        return names;
    }
    let source = match source {
        None => {
            return names;
        },
        Some(source) => source,
    };
    names.push(source.clone());
    assert(texts(names@) =~= seq![source@]);
    assert(own_mounts@.take(0) =~= Seq::<MountPoint>::empty());
    for i in 0..own_mounts.len()
        invariant
            texts(names@) == source_names(source@, own_mounts@.take(i as int)),
    {
        let ghost before = texts(names@);
        let mount = &own_mounts[i];
        assert(own_mounts@.take(i + 1).drop_last() =~= own_mounts@.take(i as int));
        assert(own_mounts@.take(i + 1).last() == own_mounts@[i as int]);
        match (&mount.source, &mount.destination) {
            (Some(host), Some(local)) => match map_path_through_mount(
                source.as_str(),
                host.as_str(),
                local.as_str(),
            ) {
                Some(alias) => {
                    names.push(alias);
                    assert(texts(names@) =~= before.push(alias@));
                },
                None => {},
            },
            _ => {},
        }
    }
    assert(own_mounts@.take(own_mounts@.len() as int) =~= own_mounts@);
    names
}

/// One of the names leads into one of the paths, or the other way round.
pub open spec fn touches(
    names: Seq<Seq<char>>,
    paths: Seq<Seq<char>>,
    aliases: Seq<AliasedPaths>,
) -> bool {
    exists|i: int, j: int|
        0 <= i < names.len() && 0 <= j < paths.len() && overlaps(
            #[trigger] names[i],
            #[trigger] paths[j],
            aliases,
        )
}

/// Whether a mount shows files at, above or below one of the paths.
pub fn mount_affects_paths(
    mount_type: &Option<String>,
    source: &Option<String>,
    paths: &Vec<String>,
    own_mounts: &Vec<MountPoint>,
    aliases: &Vec<AliasedPaths>,
) -> (affects: bool)
    ensures
        affects == touches(
            mount_names(text::held(*mount_type), text::held(*source), own_mounts@),
            texts(paths@),
            aliases@,
        ),
{
    let names = mount_sources(mount_type, source, own_mounts);
    let ghost all = texts(names@);
    let ghost places = texts(paths@);
    for i in 0..names.len()
        invariant
            all == texts(names@),
            places == texts(paths@),
            all == mount_names(text::held(*mount_type), text::held(*source), own_mounts@),
            forall|k: int, j: int|
                0 <= k < i && 0 <= j < places.len() ==> !overlaps(
                    #[trigger] all[k],
                    #[trigger] places[j],
                    aliases@,
                ),
    {
        for j in 0..paths.len()
            invariant
                i < names@.len(),
                all == texts(names@),
                places == texts(paths@),
                all == mount_names(text::held(*mount_type), text::held(*source), own_mounts@),
                forall|m: int|
                    0 <= m < j ==> !overlaps(all[i as int], #[trigger] places[m], aliases@),
        {
            if paths_overlap(names[i].as_str(), paths[j].as_str(), aliases) {
                assert(overlaps(all[i as int], places[j as int], aliases@));
                return true;
            }
            assert(!overlaps(all[i as int], places[j as int], aliases@));
        }
    }
    false
}

/// One of the mounts shows files at, above or below one of the paths.
pub open spec fn mounts_touch(
    mounts: Seq<MountPoint>,
    paths: Seq<Seq<char>>,
    own_mounts: Seq<MountPoint>,
    aliases: Seq<AliasedPaths>,
) -> bool {
    exists|i: int|
        0 <= i < mounts.len() && touches(
            mount_names(
                text::held((#[trigger] mounts[i]).typ),
                text::held(mounts[i].source),
                own_mounts,
            ),
            paths,
            aliases,
        )
}

fn any_mount_affects(
    mounts: &Vec<MountPoint>,
    paths: &Vec<String>,
    own_mounts: &Vec<MountPoint>,
    aliases: &Vec<AliasedPaths>,
) -> (affects: bool)
    ensures
        affects == mounts_touch(mounts@, texts(paths@), own_mounts@, aliases@),
{
    for i in 0..mounts.len()
        invariant
            forall|j: int|
                0 <= j < i ==> !touches(
                    mount_names(
                        text::held((#[trigger] mounts@[j]).typ),
                        text::held(mounts@[j].source),
                        own_mounts@,
                    ),
                    texts(paths@),
                    aliases@,
                ),
    {
        if mount_affects_paths(&mounts[i].typ, &mounts[i].source, paths, own_mounts, aliases) {
            return true;
        }
    }
    false
}

/// The container is stopped: because it uses the target, or because one of its
/// mounts shows the files.
pub open spec fn is_affected(
    container: ContainerListItem,
    mounts: Seq<MountPoint>,
    target: PeripheryBackupTarget,
    own_id: Option<Seq<char>>,
    own_mounts: Seq<MountPoint>,
    paths: Seq<Seq<char>>,
    protected_paths: Seq<ProtectedRepositoryPath>,
    aliases: Seq<AliasedPaths>,
) -> bool {
    may_be_stopped(container, own_id) && !is_core(container, protected_paths) && (consumes(
        container,
        target,
    ) || mounts_touch(mounts, paths, own_mounts, aliases))
}

/// The names of the containers that are stopped.
pub open spec fn affected_names(
    containers: Seq<ContainerListItem>,
    mounts: Seq<Vec<MountPoint>>,
    target: PeripheryBackupTarget,
    own_id: Option<Seq<char>>,
    own_mounts: Seq<MountPoint>,
    paths: Seq<Seq<char>>,
    protected_paths: Seq<ProtectedRepositoryPath>,
    aliases: Seq<AliasedPaths>,
) -> Seq<Seq<char>>
    decreases containers.len(),
{
    if containers.len() == 0 {
        Seq::empty()
    } else {
        let before = affected_names(
            containers.drop_last(),
            mounts,
            target,
            own_id,
            own_mounts,
            paths,
            protected_paths,
            aliases,
        );
        if is_affected(
            containers.last(),
            mounts[containers.len() - 1]@,
            target,
            own_id,
            own_mounts,
            paths,
            protected_paths,
            aliases,
        ) {
            before.push(containers.last().name@)
        } else {
            before
        }
    }
}

/// The first container with the identity.
pub open spec fn position_of_id(containers: Seq<ContainerListItem>, id: Option<Seq<char>>) -> Option<
    int,
>
    decreases containers.len(),
{
    if containers.len() == 0 {
        None
    } else {
        match position_of_id(containers.drop_last(), id) {
            Some(i) => Some(i),
            None => if has_some_id(containers.last(), id) {
                Some(containers.len() - 1)
            } else {
                None
            },
        }
    }
}

/// The first container with the identity.
pub fn find_own_container(containers: &Vec<ContainerListItem>, own_id: &Option<String>) -> (position:
    Option<usize>)
    ensures
        match position {
            Some(i) => i < containers@.len() && position_of_id(containers@, text::held(*own_id))
                == Some(i as int),
            None => position_of_id(containers@, text::held(*own_id)) is None,
        },
{
    let mut found: Option<usize> = None;
    assert(containers@.take(0) =~= Seq::<ContainerListItem>::empty());
    for i in 0..containers.len()
        invariant
            match found {
                Some(k) => k < i && position_of_id(
                    containers@.take(i as int),
                    text::held(*own_id),
                ) == Some(k as int),
                None => position_of_id(containers@.take(i as int), text::held(*own_id)) is None,
            },
    {
        assert(containers@.take(i + 1).drop_last() =~= containers@.take(i as int));
        assert(containers@.take(i + 1).last() == containers@[i as int]);
        if found.is_none() && matches_some_id(&containers[i], own_id) {
            found = Some(i);
        }
    }
    assert(containers@.take(containers@.len() as int) =~= containers@);
    found
}

/// The mounts of this program's own container; none if it runs in none.
pub open spec fn own_mounts_of(
    containers: Seq<ContainerListItem>,
    mounts: Seq<Vec<MountPoint>>,
    own_id: Option<Seq<char>>,
) -> Seq<MountPoint> {
    match position_of_id(containers, own_id) {
        Some(i) => mounts[i]@,
        None => Seq::empty(),
    }
}

/// The names of the containers that are stopped, in order. A target of a
/// protected container is refused, with the name of the first such one. Each
/// container comes with its mounts.
pub fn affected_running_containers(
    containers: &Vec<ContainerListItem>,
    mounts: &Vec<Vec<MountPoint>>,
    target: &PeripheryBackupTarget,
    own_id: &Option<String>,
    paths: &Vec<String>,
    protected_paths: &Vec<ProtectedRepositoryPath>,
    aliases: &Vec<AliasedPaths>,
) -> (affected: Result<Vec<String>, String>)
    requires
        mounts@.len() == containers@.len(),
    ensures
        match affected {
            Ok(names) => {
                &&& forall|i: int|
                    0 <= i < containers@.len() ==> !forbids(
                        #[trigger] containers@[i],
                        *target,
                        protected_paths@,
                    )
                &&& texts(names@) == in_order(
                    affected_names(
                        containers@,
                        mounts@,
                        *target,
                        text::held(*own_id),
                        own_mounts_of(containers@, mounts@, text::held(*own_id)),
                        texts(paths@),
                        protected_paths@,
                        aliases@,
                    ),
                )
            },
            Err(name) => is_first_forbidding(
                containers@,
                *target,
                protected_paths@,
                name@,
            ),
        },
{
    match ensure_target_not_control_plane(containers, target, protected_paths) {
        Err(name) => {
            return Err(name);
        },
        Ok(_) => {},
    }
    let nothing: Vec<MountPoint> = Vec::new();
    let own_mounts = match find_own_container(containers, own_id) {
        Some(i) => &mounts[i],
        None => &nothing,
    };
    let ghost own = own_mounts_of(containers@, mounts@, text::held(*own_id));
    assert(own_mounts@ =~= own);
    let mut names: Vec<String> = Vec::new();
    assert(containers@.take(0) =~= Seq::<ContainerListItem>::empty());
    assert(texts(names@) =~= Seq::<Seq<char>>::empty());
    for i in 0..containers.len()
        invariant
            mounts@.len() == containers@.len(),
            own_mounts@ == own,
            texts(names@) == affected_names(
                containers@.take(i as int),
                mounts@,
                *target,
                text::held(*own_id),
                own,
                texts(paths@),
                protected_paths@,
                aliases@,
            ),
    {
        let ghost before = texts(names@);
        let one = &containers[i];
        assert(containers@.take(i + 1).drop_last() =~= containers@.take(i as int));
        assert(containers@.take(i + 1).last() == containers@[i as int]);
        if container_is_quiesce_candidate(one, own_id) && !is_core_container(one, protected_paths)
            && (consumes_target(one, target) || any_mount_affects(
            &mounts[i],
            paths,
            own_mounts,
            aliases,
        )) {
            names.push(one.name.clone());
            assert(texts(names@) =~= before.push(one.name@));
        }
    }
    assert(containers@.take(containers@.len() as int) =~= containers@);
    Ok(text::sorted_unique(&names))
}

/// The containers of both lists, in order.
pub fn merge_container_quiesce_sets(existing: &Vec<String>, containers: &Vec<String>) -> (merged: Vec<
    String,
>)
    ensures
        texts(merged@) == in_order(texts(existing@) + texts(containers@)),
{
    let mut all = text::clone_texts(existing);
    let mut more = text::clone_texts(containers);
    all.append(&mut more);
    assert(texts(all@) =~= texts(existing@) + texts(containers@));
    text::sorted_unique(&all)
}

// ---------------------------------------------------------------------------
// Commands
// ---------------------------------------------------------------------------

/// The command that stops or starts a container.
pub fn container_command(command: &str, name: &str) -> (line: String)
    ensures
        line@ == "docker "@ + command@ + " -- "@ + outside::shell_word(name@),
{
    let mut line = text::concat3("docker ", command, " -- ");
    let word = outside::shell_escape(name);
    line.append(word.as_str());
    line
}

/// The command that creates a volume for a restore.
pub fn create_volume_command(volume_name: &str, journal_id: &str) -> (line: String)
    ensures
        line@ == "docker volume create --label "@ + outside::shell_word(
            RESTORE_PLAN_VOLUME_LABEL@ + "="@ + journal_id@,
        ) + " -- "@ + outside::shell_word(volume_name@),
{
    let label = text::concat3(RESTORE_PLAN_VOLUME_LABEL, "=", journal_id);
    let escaped = outside::shell_escape(label.as_str());
    let mut line = text::concat3("docker volume create --label ", escaped.as_str(), " -- ");
    let word = outside::shell_escape(volume_name);
    line.append(word.as_str());
    line
}

/// The command that removes a volume.
pub fn remove_volume_command(volume_name: &str) -> (line: String)
    ensures
        line@ == "docker volume rm -- "@ + outside::shell_word(volume_name@),
{
    let word = outside::shell_escape(volume_name);
    text::concat2("docker volume rm -- ", word.as_str())
}

// ---------------------------------------------------------------------------
// Laws
// ---------------------------------------------------------------------------

proof fn lemma_affected_is_stoppable(
    containers: Seq<ContainerListItem>,
    mounts: Seq<Vec<MountPoint>>,
    target: PeripheryBackupTarget,
    own_id: Option<Seq<char>>,
    own_mounts: Seq<MountPoint>,
    paths: Seq<Seq<char>>,
    protected_paths: Seq<ProtectedRepositoryPath>,
    aliases: Seq<AliasedPaths>,
    name: Seq<char>,
)
    requires
        affected_names(
            containers,
            mounts,
            target,
            own_id,
            own_mounts,
            paths,
            protected_paths,
            aliases,
        ).contains(name),
    ensures
        exists|i: int|
            0 <= i < containers.len() && (#[trigger] containers[i]).name@ == name && is_affected(
                containers[i],
                mounts[i]@,
                target,
                own_id,
                own_mounts,
                paths,
                protected_paths,
                aliases,
            ),
    decreases containers.len(),
{
    let rest = containers.drop_last();
    let before = affected_names(
        rest,
        mounts,
        target,
        own_id,
        own_mounts,
        paths,
        protected_paths,
        aliases,
    );
    if before.contains(name) {
        lemma_affected_is_stoppable(
            rest,
            mounts,
            target,
            own_id,
            own_mounts,
            paths,
            protected_paths,
            aliases,
            name,
        );
        let i = choose|i: int|
            0 <= i < rest.len() && (#[trigger] rest[i]).name@ == name && is_affected(
                rest[i],
                mounts[i]@,
                target,
                own_id,
                own_mounts,
                paths,
                protected_paths,
                aliases,
            );
        assert(containers[i] == rest[i]);
    } else {
        let all = affected_names(
            containers,
            mounts,
            target,
            own_id,
            own_mounts,
            paths,
            protected_paths,
            aliases,
        );
        let k = all.index_of(name);
        assert(all[k] == name);
        if k < before.len() {
            assert(before[k] == name);
        }
        assert(containers[containers.len() - 1].name@ == name);
    }
}

/// Only containers that run are stopped, and never this program's own one, one
/// that is marked to be left alone, or one of the control plane: every name that
/// is told is the name of a container that may be stopped.
pub proof fn protected_containers_keep_running(
    containers: Seq<ContainerListItem>,
    mounts: Seq<Vec<MountPoint>>,
    target: PeripheryBackupTarget,
    own_id: Option<Seq<char>>,
    own_mounts: Seq<MountPoint>,
    paths: Seq<Seq<char>>,
    protected_paths: Seq<ProtectedRepositoryPath>,
    aliases: Seq<AliasedPaths>,
    name: Seq<char>,
)
    requires
        in_order(
            affected_names(
                containers,
                mounts,
                target,
                own_id,
                own_mounts,
                paths,
                protected_paths,
                aliases,
            ),
        ).contains(name),
    ensures
        exists|i: int|
            0 <= i < containers.len() && (#[trigger] containers[i]).name@ == name && may_be_stopped(
                containers[i],
                own_id,
            ) && !is_core(containers[i], protected_paths),
{
    text::lemma_order_exists(
        affected_names(
            containers,
            mounts,
            target,
            own_id,
            own_mounts,
            paths,
            protected_paths,
            aliases,
        ),
    );
    lemma_affected_is_stoppable(
        containers,
        mounts,
        target,
        own_id,
        own_mounts,
        paths,
        protected_paths,
        aliases,
        name,
    );
    let i = choose|i: int|
        0 <= i < containers.len() && (#[trigger] containers[i]).name@ == name && is_affected(
            containers[i],
            mounts[i]@,
            target,
            own_id,
            own_mounts,
            paths,
            protected_paths,
            aliases,
        );
    assert(containers[i].name@ == name);
}

/// No container that was to be restarted is lost when another attempt stops more.
pub proof fn merging_keeps_every_container(
    existing: Seq<Seq<char>>,
    containers: Seq<Seq<char>>,
    name: Seq<char>,
)
    ensures
        in_order(existing + containers).contains(name) <==> existing.contains(name)
            || containers.contains(name),
{
    let all = existing + containers;
    text::lemma_order_exists(all);
    if existing.contains(name) {
        let k = existing.index_of(name);
        assert(all[k] == name);
    }
    if containers.contains(name) {
        let k = containers.index_of(name);
        assert(all[existing.len() + k] == name);
    }
    if all.contains(name) {
        let k = all.index_of(name);
        if k < existing.len() {
            assert(existing[k] == name);
        } else {
            assert(containers[k - existing.len()] == name);
        }
    }
}

/// The container carries the label with this value. Of two labels with the same
/// name the first counts.
pub open spec fn carries_label(
    container: ContainerListItem,
    name: Seq<char>,
    value: Seq<char>,
) -> bool {
    exists|k: int|
        {
            &&& 0 <= k < container.labels@.len()
            &&& (#[trigger] container.labels@[k]).name@ == name
            &&& container.labels@[k].value@ == value
            &&& forall|j: int| 0 <= j < k ==> (#[trigger] container.labels@[j]).name@ != name
        }
}

proof fn lemma_label_of(labels: Seq<container::Label>, name: Seq<char>)
    ensures
        match label_of(labels, name) {
            Some(value) => exists|k: int|
                {
                    &&& 0 <= k < labels.len()
                    &&& (#[trigger] labels[k]).name@ == name
                    &&& labels[k].value@ == value
                    &&& forall|j: int| 0 <= j < k ==> (#[trigger] labels[j]).name@ != name
                },
            None => forall|j: int| 0 <= j < labels.len() ==> (#[trigger] labels[j]).name@ != name,
        },
    decreases labels.len(),
{
    if labels.len() > 0 && labels[0].name@ != name {
        let rest = labels.drop_first();
        lemma_label_of(rest, name);
        match label_of(rest, name) {
            Some(value) => {
                let k = choose|k: int|
                    {
                        &&& 0 <= k < rest.len()
                        &&& (#[trigger] rest[k]).name@ == name
                        &&& rest[k].value@ == value
                        &&& forall|j: int| 0 <= j < k ==> (#[trigger] rest[j]).name@ != name
                    };
                assert(labels[k + 1] == rest[k]);
                assert forall|j: int| 0 <= j < k + 1 implies (#[trigger] labels[j]).name@
                    != name by {
                    if j > 0 {
                        assert(labels[j] == rest[j - 1]);
                    }
                }
            },
            None => {
                assert forall|j: int| 0 <= j < labels.len() implies (#[trigger] labels[j]).name@
                    != name by {
                    if j > 0 {
                        assert(labels[j] == rest[j - 1]);
                    }
                }
            },
        }
    }
}

proof fn lemma_carries_label(container: ContainerListItem, name: Seq<char>, value: Seq<char>)
    ensures
        carries_label(container, name, value) <==> label_of(container.labels@, name) == Some(
            value,
        ),
{
    let labels = container.labels@;
    lemma_label_of(labels, name);
    if carries_label(container, name, value) {
        let k = choose|k: int|
            {
                &&& 0 <= k < labels.len()
                &&& (#[trigger] labels[k]).name@ == name
                &&& labels[k].value@ == value
                &&& forall|j: int| 0 <= j < k ==> (#[trigger] labels[j]).name@ != name
            };
        match label_of(labels, name) {
            Some(found) => {
                let m = choose|m: int|
                    {
                        &&& 0 <= m < labels.len()
                        &&& (#[trigger] labels[m]).name@ == name
                        &&& labels[m].value@ == found
                        &&& forall|j: int| 0 <= j < m ==> (#[trigger] labels[j]).name@ != name
                    };
                assert(m == k);
            },
            None => {},
        }
    }
}

/// The container is one of the project, or uses the volume.
pub open spec fn belongs_to(container: ContainerListItem, target: PeripheryBackupTarget) -> bool {
    match target {
        PeripheryBackupTarget::Stack { project_name } => carries_label(
            container,
            "com.docker.compose.project"@,
            project_name@,
        ),
        PeripheryBackupTarget::Volume { volume_name } => exists|k: int|
            0 <= k < container.volumes@.len() && (#[trigger] container.volumes@[k])@
                == volume_name@,
    }
}

/// The files at the path on the host are found under the name: under the path
/// itself, or where one of this program's own mounts shows them.
pub open spec fn is_seen_as(
    source: Seq<char>,
    name: Seq<char>,
    own_mounts: Seq<MountPoint>,
) -> bool {
    ||| name == source
    ||| exists|k: int|
        {
            &&& 0 <= k < own_mounts.len()
            &&& text::held((#[trigger] own_mounts[k]).source) matches Some(host)
            &&& text::held(own_mounts[k].destination) matches Some(local)
            &&& through_mount(source, host, local) == Some(name)
        }
}

/// One of the mounts is a bind or a volume whose files lie at, above or below one
/// of the paths.
pub open spec fn shows_files_of(
    mounts: Seq<MountPoint>,
    paths: Seq<Seq<char>>,
    own_mounts: Seq<MountPoint>,
    aliases: Seq<AliasedPaths>,
) -> bool {
    exists|m: int, j: int, name: Seq<char>|
        {
            &&& 0 <= m < mounts.len()
            &&& 0 <= j < paths.len()
            &&& text::held((#[trigger] mounts[m]).typ) == Some("bind"@) || text::held(
                mounts[m].typ,
            ) == Some("volume"@)
            &&& mounts[m].source is Some
            &&& #[trigger] is_seen_as(mounts[m].source->Some_0@, name, own_mounts)
            &&& path::is_below(name, #[trigger] paths[j]) || path::is_below(paths[j], name)
                || is_aliased(name, paths[j], aliases)
        }
}

/// The container has to be stopped for the target and the paths: it runs, is
/// neither this program's own one nor marked to be left alone nor one of the
/// control plane, and it belongs to the target or shows files of the paths.
pub open spec fn must_stop(
    container: ContainerListItem,
    mounts: Seq<MountPoint>,
    target: PeripheryBackupTarget,
    own_id: Option<Seq<char>>,
    own_mounts: Seq<MountPoint>,
    paths: Seq<Seq<char>>,
    protected_paths: Seq<ProtectedRepositoryPath>,
    aliases: Seq<AliasedPaths>,
) -> bool {
    &&& container.state == ContainerStateStatusEnum::Running
    &&& own_id matches Some(own) ==> !has_id(container, own)
    &&& forall|value: Seq<char>| #[trigger]
        carries_label(container, "komodo.skip"@, value) ==> value == "false"@
    &&& forall|k: int|
        0 <= k < protected_paths.len() ==> !has_id(
            container,
            (#[trigger] protected_paths[k]).core_container_id@,
        )
    &&& belongs_to(container, target) || shows_files_of(mounts, paths, own_mounts, aliases)
}

proof fn lemma_source_names(source: Seq<char>, own_mounts: Seq<MountPoint>, name: Seq<char>)
    ensures
        source_names(source, own_mounts).contains(name) <==> is_seen_as(source, name, own_mounts),
    decreases own_mounts.len(),
{
    let all = source_names(source, own_mounts);
    if own_mounts.len() == 0 {
        if name == source {
            assert(all[0] == name);
        }
    } else {
        let rest = own_mounts.drop_last();
        let before = source_names(source, rest);
        let last = own_mounts.last();
        lemma_source_names(source, rest, name);
        if before.contains(name) {
            let k = before.index_of(name);
            assert(all[k] == name);
            if name != source {
                let k = choose|k: int|
                    {
                        &&& 0 <= k < rest.len()
                        &&& text::held((#[trigger] rest[k]).source) matches Some(host)
                        &&& text::held(rest[k].destination) matches Some(local)
                        &&& through_mount(source, host, local) == Some(name)
                    };
                assert(own_mounts[k] == rest[k]);
            }
        }
        if all.contains(name) && !before.contains(name) {
            let k = all.index_of(name);
            if k < before.len() {
                assert(before[k] == name);
            }
            assert(own_mounts[own_mounts.len() - 1] == last);
        }
        if is_seen_as(source, name, own_mounts) && !before.contains(name) {
            let k = choose|k: int|
                {
                    &&& 0 <= k < own_mounts.len()
                    &&& text::held((#[trigger] own_mounts[k]).source) matches Some(host)
                    &&& text::held(own_mounts[k].destination) matches Some(local)
                    &&& through_mount(source, host, local) == Some(name)
                };
            if k < rest.len() {
                assert(rest[k] == own_mounts[k]);
            }
            assert(all[before.len() as int] == name);
        }
    }
}

proof fn lemma_mounts_touch(
    mounts: Seq<MountPoint>,
    paths: Seq<Seq<char>>,
    own_mounts: Seq<MountPoint>,
    aliases: Seq<AliasedPaths>,
)
    ensures
        mounts_touch(mounts, paths, own_mounts, aliases) <==> shows_files_of(
            mounts,
            paths,
            own_mounts,
            aliases,
        ),
{
    if mounts_touch(mounts, paths, own_mounts, aliases) {
        let m = choose|m: int|
            0 <= m < mounts.len() && touches(
                mount_names(
                    text::held((#[trigger] mounts[m]).typ),
                    text::held(mounts[m].source),
                    own_mounts,
                ),
                paths,
                aliases,
            );
        let names = mount_names(
            text::held(mounts[m].typ),
            text::held(mounts[m].source),
            own_mounts,
        );
        let (i, j) = choose|i: int, j: int|
            0 <= i < names.len() && 0 <= j < paths.len() && overlaps(
                #[trigger] names[i],
                #[trigger] paths[j],
                aliases,
            );
        assert(names.contains(names[i]));
        lemma_source_names(mounts[m].source->Some_0@, own_mounts, names[i]);
        assert(is_seen_as(mounts[m].source->Some_0@, names[i], own_mounts));
    }
    if shows_files_of(mounts, paths, own_mounts, aliases) {
        let (m, j, name) = choose|m: int, j: int, name: Seq<char>|
            {
                &&& 0 <= m < mounts.len()
                &&& 0 <= j < paths.len()
                &&& text::held((#[trigger] mounts[m]).typ) == Some("bind"@) || text::held(
                    mounts[m].typ,
                ) == Some("volume"@)
                &&& mounts[m].source is Some
                &&& #[trigger] is_seen_as(mounts[m].source->Some_0@, name, own_mounts)
                &&& path::is_below(name, #[trigger] paths[j]) || path::is_below(paths[j], name)
                    || is_aliased(name, paths[j], aliases)
            };
        lemma_source_names(mounts[m].source->Some_0@, own_mounts, name);
        let names = mount_names(
            text::held(mounts[m].typ),
            text::held(mounts[m].source),
            own_mounts,
        );
        let i = names.index_of(name);
        assert(names[i] == name);
        assert(overlaps(names[i], paths[j], aliases));
        assert(touches(names, paths, aliases));
    }
}

proof fn lemma_must_stop(
    container: ContainerListItem,
    mounts: Seq<MountPoint>,
    target: PeripheryBackupTarget,
    own_id: Option<Seq<char>>,
    own_mounts: Seq<MountPoint>,
    paths: Seq<Seq<char>>,
    protected_paths: Seq<ProtectedRepositoryPath>,
    aliases: Seq<AliasedPaths>,
)
    ensures
        is_affected(
            container,
            mounts,
            target,
            own_id,
            own_mounts,
            paths,
            protected_paths,
            aliases,
        ) <==> must_stop(
            container,
            mounts,
            target,
            own_id,
            own_mounts,
            paths,
            protected_paths,
            aliases,
        ),
{
    lemma_mounts_touch(mounts, paths, own_mounts, aliases);
    lemma_belongs_to(container, target);
    assert forall|value: Seq<char>| #[trigger]
        carries_label(container, "komodo.skip"@, value) <==> label_of(
            container.labels@,
            "komodo.skip"@,
        ) == Some(value) by {
        lemma_carries_label(container, "komodo.skip"@, value);
    }
    match label_of(container.labels@, "komodo.skip"@) {
        Some(value) => {
            assert(carries_label(container, "komodo.skip"@, value));
        },
        None => {},
    }
}

proof fn lemma_belongs_to(container: ContainerListItem, target: PeripheryBackupTarget)
    ensures
        consumes(container, target) <==> belongs_to(container, target),
{
    match target {
        PeripheryBackupTarget::Stack { project_name } => {
            lemma_carries_label(container, "com.docker.compose.project"@, project_name@);
        },
        PeripheryBackupTarget::Volume { volume_name } => {
            let volumes = texts(container.volumes@);
            if volumes.contains(volume_name@) {
                let k = volumes.index_of(volume_name@);
                assert(container.volumes@[k]@ == volume_name@);
            }
            if belongs_to(container, target) {
                let k = choose|k: int|
                    0 <= k < container.volumes@.len() && (#[trigger] container.volumes@[k])@
                        == volume_name@;
                assert(volumes[k] == volume_name@);
            }
        },
    }
}

proof fn lemma_affected_are_named(
    containers: Seq<ContainerListItem>,
    mounts: Seq<Vec<MountPoint>>,
    target: PeripheryBackupTarget,
    own_id: Option<Seq<char>>,
    own_mounts: Seq<MountPoint>,
    paths: Seq<Seq<char>>,
    protected_paths: Seq<ProtectedRepositoryPath>,
    aliases: Seq<AliasedPaths>,
    i: int,
)
    requires
        0 <= i < containers.len(),
        is_affected(
            containers[i],
            mounts[i]@,
            target,
            own_id,
            own_mounts,
            paths,
            protected_paths,
            aliases,
        ),
    ensures
        affected_names(
            containers,
            mounts,
            target,
            own_id,
            own_mounts,
            paths,
            protected_paths,
            aliases,
        ).contains(containers[i].name@),
    decreases containers.len(),
{
    let all = affected_names(
        containers,
        mounts,
        target,
        own_id,
        own_mounts,
        paths,
        protected_paths,
        aliases,
    );
    let rest = containers.drop_last();
    let before = affected_names(
        rest,
        mounts,
        target,
        own_id,
        own_mounts,
        paths,
        protected_paths,
        aliases,
    );
    if i < rest.len() {
        lemma_affected_are_named(
            rest,
            mounts,
            target,
            own_id,
            own_mounts,
            paths,
            protected_paths,
            aliases,
            i,
        );
        let k = before.index_of(containers[i].name@);
        assert(all[k] == containers[i].name@);
    } else {
        assert(all[before.len() as int] == containers[i].name@);
    }
}

/// The containers that are told are just those that have to be stopped: every one
/// that belongs to the target or shows files of the paths, for a stack as for a
/// volume, and no other one.
pub proof fn all_affected_containers_are_told(
    containers: Seq<ContainerListItem>,
    mounts: Seq<Vec<MountPoint>>,
    target: PeripheryBackupTarget,
    own_id: Option<Seq<char>>,
    paths: Seq<Seq<char>>,
    protected_paths: Seq<ProtectedRepositoryPath>,
    aliases: Seq<AliasedPaths>,
    name: Seq<char>,
)
    requires
        mounts.len() == containers.len(),
    ensures
        in_order(
            affected_names(
                containers,
                mounts,
                target,
                own_id,
                own_mounts_of(containers, mounts, own_id),
                paths,
                protected_paths,
                aliases,
            ),
        ).contains(name) <==> exists|i: int|
            0 <= i < containers.len() && (#[trigger] containers[i]).name@ == name && must_stop(
                containers[i],
                mounts[i]@,
                target,
                own_id,
                own_mounts_of(containers, mounts, own_id),
                paths,
                protected_paths,
                aliases,
            ),
{
    let own_mounts = own_mounts_of(containers, mounts, own_id);
    let all = affected_names(
        containers,
        mounts,
        target,
        own_id,
        own_mounts,
        paths,
        protected_paths,
        aliases,
    );
    text::lemma_order_exists(all);
    if all.contains(name) {
        lemma_affected_is_stoppable(
            containers,
            mounts,
            target,
            own_id,
            own_mounts,
            paths,
            protected_paths,
            aliases,
            name,
        );
        let i = choose|i: int|
            0 <= i < containers.len() && (#[trigger] containers[i]).name@ == name && is_affected(
                containers[i],
                mounts[i]@,
                target,
                own_id,
                own_mounts,
                paths,
                protected_paths,
                aliases,
            );
        lemma_must_stop(
            containers[i],
            mounts[i]@,
            target,
            own_id,
            own_mounts,
            paths,
            protected_paths,
            aliases,
        );
        assert(containers[i].name@ == name);
    }
    if exists|i: int|
        0 <= i < containers.len() && (#[trigger] containers[i]).name@ == name && must_stop(
            containers[i],
            mounts[i]@,
            target,
            own_id,
            own_mounts,
            paths,
            protected_paths,
            aliases,
        ) {
        let i = choose|i: int|
            0 <= i < containers.len() && (#[trigger] containers[i]).name@ == name && must_stop(
                containers[i],
                mounts[i]@,
                target,
                own_id,
                own_mounts,
                paths,
                protected_paths,
                aliases,
            );
        lemma_must_stop(
            containers[i],
            mounts[i]@,
            target,
            own_id,
            own_mounts,
            paths,
            protected_paths,
            aliases,
        );
        lemma_affected_are_named(
            containers,
            mounts,
            target,
            own_id,
            own_mounts,
            paths,
            protected_paths,
            aliases,
            i,
        );
    }
}

proof fn lemma_position_of_id(containers: Seq<ContainerListItem>, id: Option<Seq<char>>)
    ensures
        match position_of_id(containers, id) {
            Some(i) => 0 <= i < containers.len() && has_some_id(containers[i], id) && forall|j: int|
                0 <= j < i ==> !has_some_id(#[trigger] containers[j], id),
            None => forall|j: int|
                0 <= j < containers.len() ==> !has_some_id(#[trigger] containers[j], id),
        },
    decreases containers.len(),
{
    if containers.len() > 0 {
        let rest = containers.drop_last();
        lemma_position_of_id(rest, id);
        assert forall|j: int| 0 <= j < rest.len() implies rest[j] == #[trigger] containers[j] by {}
    }
}

/// The mounts through which this program sees the host are those of its own
/// container, of the first one that has its identity.
pub proof fn own_mounts_are_those_of_the_own_container(
    containers: Seq<ContainerListItem>,
    mounts: Seq<Vec<MountPoint>>,
    own: Seq<char>,
    i: int,
)
    requires
        0 <= i < containers.len(),
        mounts.len() == containers.len(),
        has_id(containers[i], own),
        forall|j: int| 0 <= j < i ==> !has_id(#[trigger] containers[j], own),
    ensures
        own_mounts_of(containers, mounts, Some(own)) == mounts[i]@,
{
    lemma_position_of_id(containers, Some(own));
    match position_of_id(containers, Some(own)) {
        Some(k) => {
            assert(has_some_id(containers[k], Some(own)));
            if k < i {
                assert(has_id(containers[k], own));
            }
            if i < k {
                assert(!has_some_id(containers[i], Some(own)));
            }
        },
        None => {
            assert(!has_some_id(containers[i], Some(own)));
        },
    }
}

/// The containers that are told for a target alone are just those of it that may
/// be stopped.
pub proof fn all_containers_of_the_target_are_told(
    containers: Seq<ContainerListItem>,
    target: PeripheryBackupTarget,
    own_id: Option<Seq<char>>,
    protected_paths: Seq<ProtectedRepositoryPath>,
    name: Seq<char>,
)
    ensures
        names_for_target(containers, target, own_id, protected_paths).contains(name)
            <==> exists|i: int|
            0 <= i < containers.len() && (#[trigger] containers[i]).name@ == name && belongs_to(
                containers[i],
                target,
            ) && must_stop(
                containers[i],
                Seq::empty(),
                target,
                own_id,
                Seq::empty(),
                Seq::empty(),
                protected_paths,
                Seq::empty(),
            ),
    decreases containers.len(),
{
    let all = names_for_target(containers, target, own_id, protected_paths);
    let nothing: Seq<Seq<char>> = Seq::empty();
    if containers.len() > 0 {
        let rest = containers.drop_last();
        let last = containers.last();
        let before = names_for_target(rest, target, own_id, protected_paths);
        all_containers_of_the_target_are_told(rest, target, own_id, protected_paths, name);
        lemma_must_stop(
            last,
            Seq::empty(),
            target,
            own_id,
            Seq::empty(),
            nothing,
            protected_paths,
            Seq::empty(),
        );
        lemma_belongs_to(last, target);
        assert(containers[containers.len() - 1] == last);
        assert forall|i: int| 0 <= i < rest.len() implies rest[i] == #[trigger] containers[i] by {}
        if before.contains(name) {
            let k = before.index_of(name);
            assert(all[k] == name);
            let i = choose|i: int|
                0 <= i < rest.len() && (#[trigger] rest[i]).name@ == name && belongs_to(
                    rest[i],
                    target,
                ) && must_stop(
                    rest[i],
                    Seq::empty(),
                    target,
                    own_id,
                    Seq::empty(),
                    Seq::empty(),
                    protected_paths,
                    Seq::empty(),
                );
            assert(containers[i].name@ == name);
        } else if all.contains(name) {
            let k = all.index_of(name);
            if k < before.len() {
                assert(before[k] == name);
            }
            assert(containers[containers.len() - 1].name@ == name);
        } else if exists|i: int|
            0 <= i < containers.len() && (#[trigger] containers[i]).name@ == name && belongs_to(
                containers[i],
                target,
            ) && must_stop(
                containers[i],
                Seq::empty(),
                target,
                own_id,
                Seq::empty(),
                Seq::empty(),
                protected_paths,
                Seq::empty(),
            ) {
            let i = choose|i: int|
                0 <= i < containers.len() && (#[trigger] containers[i]).name@ == name
                    && belongs_to(containers[i], target) && must_stop(
                    containers[i],
                    Seq::empty(),
                    target,
                    own_id,
                    Seq::empty(),
                    Seq::empty(),
                    protected_paths,
                    Seq::empty(),
                );
            if i < rest.len() {
                assert(rest[i].name@ == name);
            } else {
                assert(all[before.len() as int] == name);
            }
        }
    }
}

} // verus!
