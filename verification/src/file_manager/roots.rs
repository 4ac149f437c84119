//! The directories that can be managed: where they lie, under which names they
//! are known, and which ones are refused.

use vstd::prelude::*;

use crate::config::PeripheryConfig;
use crate::file_manager::operation::ResolvedRoot;
use crate::file_manager::revision;
use crate::outside;
use crate::path;
use crate::text;

verus! {

/// The repository that a stack is linked to.
#[derive(Clone, Debug)]
pub struct LinkedRepo {
    /// The repository's name, as a directory name.
    pub name: String,
    /// Where the repository is cloned to, if it says so.
    pub path: String,
}

/// What the location of a stack's files depends on.
#[derive(Clone, Debug)]
pub struct StackTarget {
    /// The stack runs on a swarm.
    pub on_swarm: bool,
    /// The stack's name, as a directory name.
    pub name: String,
    pub files_on_host: bool,
    pub run_directory: String,
    pub linked_repo: Option<LinkedRepo>,
    /// The repository that the stack itself names.
    pub repo: String,
    pub clone_path: String,
    /// The first of the stack's compose files.
    pub compose_file: Option<String>,
}

/// A directory that is to be managed.
#[derive(Clone, Debug)]
pub enum FileManagerTarget {
    Stack(StackTarget),
    /// A volume, with the mountpoint that is reported for it.
    Volume { mountpoint: String },
}

/// Why a directory is not managed.
#[derive(Clone, Copy, Debug, PartialEq, Eq, Structural)]
pub enum RootError {
    /// Stacks on a swarm are not managed.
    Swarm,
    /// The compose file has no name.
    NoFileName,
    /// The compose file has no directory.
    NoParent,
    /// The volume has no mountpoint.
    NoMountpoint,
    /// The directory overlaps the journal.
    PrivateJournal,
}

/// Where a directory lies.
#[derive(Clone, Debug, PartialEq, Eq)]
pub struct Location {
    pub path: String,
    pub read_only: bool,
    pub managed_file: Option<String>,
    pub create_if_missing: bool,
}

/// Where a directory lies, over texts.
pub struct LocationModel {
    pub path: Seq<char>,
    pub read_only: bool,
    pub managed_file: Option<Seq<char>>,
    pub create_if_missing: bool,
}

/// A configured path.
pub open spec fn configured(base: Seq<char>, value: Seq<char>) -> Seq<char> {
    path::rendered(
        path::is_absolute_path(path::joined(base, value)),
        path::collapsed(path::path_names(path::joined(base, value))),
    )
}

/// Where a stack runs: the directory, whether it is read-only, and whether its
/// compose file is managed.
pub open spec fn run_directory(stack: StackTarget, config: PeripheryConfig) -> (
    Seq<char>,
    bool,
    bool,
) {
    if stack.files_on_host {
        (
            configured(path::joined(config.stack_dir@, stack.name@), stack.run_directory@),
            false,
            false,
        )
    } else {
        match stack.linked_repo {
            Some(repo) => (
                configured(
                    configured(path::joined(config.repo_dir@, repo.name@), repo.path@),
                    stack.run_directory@,
                ),
                true,
                false,
            ),
            None => if stack.repo@.len() > 0 {
                (
                    configured(
                        configured(
                            path::joined(config.stack_dir@, stack.name@),
                            stack.clone_path@,
                        ),
                        stack.run_directory@,
                    ),
                    true,
                    false,
                )
            } else {
                (path::joined(config.stack_dir@, stack.name@), false, true)
            },
        }
    }
}

/// The path of a stack's compose file.
pub open spec fn compose_path(stack: StackTarget, config: PeripheryConfig) -> Seq<char> {
    configured(
        run_directory(stack, config).0,
        match stack.compose_file {
            Some(file) => file@,
            None => "compose.yaml"@,
        },
    )
}

/// Where a directory that is to be managed lies.
pub open spec fn located(target: FileManagerTarget, config: PeripheryConfig) -> Result<
    LocationModel,
    RootError,
> {
    match target {
        FileManagerTarget::Stack(stack) => if stack.on_swarm {
            Err(RootError::Swarm)
        } else {
            let (_, read_only, managed) = run_directory(stack, config);
            let compose = compose_path(stack, config);
            match path::last_name(compose) {
                None => Err(RootError::NoFileName),
                Some(name) => match path::parent_of(compose) {
                    None => Err(RootError::NoParent),
                    Some(directory) => Ok(
                        LocationModel {
                            path: directory,
                            read_only,
                            managed_file: if managed {
                                Some(name)
                            } else {
                                None
                            },
                            create_if_missing: managed,
                        },
                    ),
                },
            }
        },
        FileManagerTarget::Volume { mountpoint } => if mountpoint@.len() == 0 {
            Err(RootError::NoMountpoint)
        } else {
            Ok(
                LocationModel {
                    path: mountpoint@,
                    read_only: false,
                    managed_file: None,
                    create_if_missing: false,
                },
            )
        },
    }
}

/// The location is the one of the model.
pub open spec fn is_located(
    location: Result<Location, RootError>,
    model: Result<LocationModel, RootError>,
) -> bool {
    match (location, model) {
        (Ok(found), Ok(expected)) => found.path@ == expected.path && found.read_only
            == expected.read_only && text::held(found.managed_file) == expected.managed_file
            && found.create_if_missing == expected.create_if_missing,
        (Err(a), Err(b)) => a == b,
        _ => false,
    }
}

fn is_empty(value: &str) -> (empty: bool)
    ensures
        empty == (value@.len() == 0),
{
    text::chars_of(value).len() == 0
}

fn run_directory_of(stack: &StackTarget, config: &PeripheryConfig) -> (run: (String, bool, bool))
    ensures
        (run.0@, run.1, run.2) == run_directory(*stack, *config),
{
    let own = path::join(config.stack_dir.as_str(), stack.name.as_str());
    if stack.files_on_host {
        return (
            path::configured_path(own.as_str(), stack.run_directory.as_str()),
            false,
            false,
        );
    }
    match &stack.linked_repo {
        Some(repo) => {
            let base = path::join(config.repo_dir.as_str(), repo.name.as_str());
            let clone = path::configured_path(base.as_str(), repo.path.as_str());
            (
                path::configured_path(clone.as_str(), stack.run_directory.as_str()),
                true,
                false,
            )
        },
        None => if !is_empty(stack.repo.as_str()) {
            let clone = path::configured_path(own.as_str(), stack.clone_path.as_str());
            (
                path::configured_path(clone.as_str(), stack.run_directory.as_str()),
                true,
                false,
            )
        } else {
            (own, false, true)
        },
    }
}

/// Where a directory that is to be managed lies.
pub fn locate_root(target: &FileManagerTarget, config: &PeripheryConfig) -> (location: Result<
    Location,
    RootError,
>)
    ensures
        is_located(location, located(*target, *config)),
{
    match target {
        FileManagerTarget::Stack(stack) => {
            if stack.on_swarm {
                return Err(RootError::Swarm);
            }
            let (run, read_only, managed) = run_directory_of(stack, config);
            let compose = match &stack.compose_file {
                Some(file) => path::configured_path(run.as_str(), file.as_str()),
                None => path::configured_path(run.as_str(), "compose.yaml"),
            };
            let name = match path::file_name(compose.as_str()) {
                None => {
                    return Err(RootError::NoFileName);
                },
                Some(name) => name,
            };
            let directory = match path::parent(compose.as_str()) {
                None => {
                    return Err(RootError::NoParent);
                },
                Some(directory) => directory,
            };
            Ok(
                Location {
                    path: directory,
                    read_only,
                    managed_file: if managed {
                        Some(name)
                    } else {
                        None
                    },
                    create_if_missing: managed,
                },
            )
        },
        FileManagerTarget::Volume { mountpoint } => {
            if is_empty(mountpoint.as_str()) {
                return Err(RootError::NoMountpoint);
            }
            Ok(
                Location {
                    path: mountpoint.clone(),
                    read_only: false,
                    managed_file: None,
                    create_if_missing: false,
                },
            )
        },
    }
}

/// The key of a root: the digest of its path.
pub open spec fn root_key(path: Seq<char>) -> Seq<char> {
    revision::digest_text(vstd::utf8::encode_utf8(path))
}

/// The managed directory at a location that lies outside the journal.
pub fn resolve_root(location: Location) -> (root: ResolvedRoot)
    ensures
        root.path == location.path,
        root.key@ == root_key(location.path@),
        root.read_only == location.read_only,
        root.managed_file == location.managed_file,
        root.create_if_missing == location.create_if_missing,
{
    let mut digest = revision::TreeDigest::start();
    digest.add_text(location.path.as_str());
    let key = digest.finish().id;
    proof {
        assert(Seq::<u8>::empty() + vstd::utf8::encode_utf8(location.path@)
            =~= vstd::utf8::encode_utf8(location.path@));
    }
    ResolvedRoot {
        path: location.path,
        key,
        read_only: location.read_only,
        managed_file: location.managed_file,
        create_if_missing: location.create_if_missing,
    }
}

/// Only a stack that keeps its compose file in this system has a managed file,
/// and such a stack is never read-only.
pub proof fn managed_files_are_writable(target: FileManagerTarget, config: PeripheryConfig)
    ensures
        located(target, config) matches Ok(location) ==> (location.managed_file is Some
            <==> location.create_if_missing) && (location.managed_file is Some
            ==> !location.read_only),
{
}

// ---------------------------------------------------------------------------
// The journal's own directory
// ---------------------------------------------------------------------------

/// Where the journals are kept.
pub fn journal_root(config: &PeripheryConfig) -> (path: String)
    ensures
        path@ == path::joined(config.root_directory@, "file-manager-journal"@),
{
    path::join(config.root_directory.as_str(), "file-manager-journal")
}

/// Where the transactions over managed files are kept.
pub fn managed_transaction_root(config: &PeripheryConfig) -> (path: String)
    ensures
        path@ == path::joined(
            path::joined(config.root_directory@, "file-manager-journal"@),
            "managed-transactions"@,
        ),
{
    let journals = journal_root(config);
    path::join(journals.as_str(), "managed-transactions")
}

/// Where a transaction is kept whose identity reads as the given UUID.
pub fn transaction_file(config: &PeripheryConfig, id: &str) -> (path: String)
    ensures
        path@ == path::joined(
            path::joined(
                path::joined(config.root_directory@, "file-manager-journal"@),
                "managed-transactions"@,
            ),
            id@ + ".json"@,
        ),
{
    let directory = managed_transaction_root(config);
    let name = text::concat2(id, ".json");
    path::join(directory.as_str(), name.as_str())
}

/// Where a transaction is kept; nothing if its identity is no UUID.
pub fn managed_transaction_path(config: &PeripheryConfig, operation_id: &str) -> (path: Option<String>)
    ensures
        match (path, outside::uuid_of(operation_id@)) {
            (Some(file), Some(id)) => file@ == path::joined(
                path::joined(
                    path::joined(config.root_directory@, "file-manager-journal"@),
                    "managed-transactions"@,
                ),
                id + ".json"@,
            ),
            (None, None) => true,
            _ => false,
        },
{
    match outside::parse_uuid(operation_id) {
        Some(id) => Some(transaction_file(config, id.as_str())),
        None => None,
    }
}

/// What tells a file or directory apart from others; nothing where nothing is.
pub type Identity = Option<(u64, u64)>;

/// Whether a path leads to one of the directories above another one, or to that
/// one itself. `identity` is what is found at the path, `ancestors` what is found
/// at the other path and the directories above it.
pub fn path_matches_ancestor(identity: Identity, ancestors: &Vec<Identity>) -> (matches: bool)
    ensures
        matches == (identity is Some && ancestors@.contains(identity)),
{
    let (device, inode) = match identity {
        None => {
            return false;
        },
        Some(pair) => pair,
    };
    for i in 0..ancestors.len()
        invariant
            identity == Some((device, inode)),
            forall|k: int| 0 <= k < i ==> ancestors@[k] != identity,
    {
        match ancestors[i] {
            Some((other_device, other_inode)) => {
                if other_device == device && other_inode == inode {
                    assert(ancestors@[i as int] == identity);
                    return true;
                }
            },
            None => {},
        }
    }
    false
}

/// A path with what is found at it and at the directories above it.
#[derive(Clone, Debug, PartialEq, Eq)]
pub struct SeenPath {
    pub path: String,
    pub identity: Identity,
    /// What is found at the path and at each directory above it.
    pub ancestors: Vec<Identity>,
}

/// One of the paths leads into the directory of the other one, by its names or
/// by what is found there.
pub open spec fn overlap(left: SeenPath, right: SeenPath) -> bool {
    ||| path::is_below(left.path@, right.path@)
    ||| path::is_below(right.path@, left.path@)
    ||| left.identity is Some && right.ancestors@.contains(left.identity)
    ||| right.identity is Some && left.ancestors@.contains(right.identity)
}

/// Whether one of the paths leads into the directory of the other one.
pub fn paths_overlap(left: &SeenPath, right: &SeenPath) -> (overlapping: bool)
    ensures
        overlapping == overlap(*left, *right),
{
    if path::path_is_below(left.path.as_str(), right.path.as_str()) || path::path_is_below(
        right.path.as_str(),
        left.path.as_str(),
    ) {
        return true;
    }
    path_matches_ancestor(left.identity, &right.ancestors) || path_matches_ancestor(
        right.identity,
        &left.ancestors,
    )
}

/// Refuses a directory that overlaps the journal.
pub fn ensure_outside_private_journal(path: &SeenPath, private_journal: &SeenPath) -> (outcome: Result<
    (),
    RootError,
>)
    ensures
        outcome == if overlap(*path, *private_journal) {
            Err(RootError::PrivateJournal)
        } else {
            Ok(())
        },
{
    if paths_overlap(path, private_journal) {
        return Err(RootError::PrivateJournal);
    }
    Ok(())
}

/// Overlapping does not depend on the order of the paths.
pub proof fn overlap_is_symmetric(left: SeenPath, right: SeenPath)
    ensures
        overlap(left, right) == overlap(right, left),
{
}

/// An admitted directory neither lies in the journal nor holds it.
pub proof fn admitted_roots_keep_away_from_the_journal(path: SeenPath, journal: SeenPath)
    requires
        !overlap(path, journal),
    ensures
        !path::is_below(path.path@, journal.path@),
        !path::is_below(journal.path@, path.path@),
        path.identity is Some ==> !journal.ancestors@.contains(path.identity),
        journal.identity is Some ==> !path.ancestors@.contains(journal.identity),
{
}

// ---------------------------------------------------------------------------
// Capabilities
// ---------------------------------------------------------------------------

/// What can be done with a directory.
#[derive(Clone, Debug, PartialEq, Eq)]
pub struct FileManagerCapabilities {
    pub available: bool,
    pub read_only: bool,
    pub reason: Option<String>,
    pub managed_file: Option<String>,
}

/// Why a volume that is not there cannot be managed.
pub const VOLUME_REASON: &'static str = "Docker reported a volume path that Periphery cannot access. When Periphery runs in a container, mount the Docker volume root into it read/write at the identical path (PERIPHERY_DOCKER_VOLUME_ROOT).";

/// Why any other directory that is not there cannot be managed.
pub const ROOT_REASON: &'static str = "File Manager root is not an accessible directory";

/// What can be done with a directory that was resolved. One that is created when
/// needed need not be there.
pub fn capabilities(root: ResolvedRoot, is_volume: bool, is_dir: bool, exists: bool) -> (can:
    FileManagerCapabilities)
    ensures
        is_dir || (root.create_if_missing && !exists) ==> can.available && can.read_only
            == root.read_only && can.reason is None && can.managed_file == root.managed_file,
        !is_dir && !(root.create_if_missing && !exists) ==> !can.available && can.read_only
            && can.managed_file is None && text::held(can.reason) == Some(
            if is_volume {
                VOLUME_REASON@
            } else {
                ROOT_REASON@
            },
        ),
{
    if is_dir || (root.create_if_missing && !exists) {
        return FileManagerCapabilities {
            available: true,
            read_only: root.read_only,
            reason: None,
            managed_file: root.managed_file,
        };
    }
    FileManagerCapabilities {
        available: false,
        read_only: true,
        reason: Some(
            if is_volume {
                VOLUME_REASON.to_owned()
            } else {
                ROOT_REASON.to_owned()
            },
        ),
        managed_file: None,
    }
}

/// The root of a stack is the directory of its compose file, which is found in the
/// directory that the stack runs in. A stack from a repository can only be read. The
/// compose file is managed, and the directory made, where the stack is neither from a
/// repository nor kept on the host.
pub proof fn stack_roots_hold_their_compose_file(stack: StackTarget, config: PeripheryConfig)
    ensures
        located(FileManagerTarget::Stack(stack), config) matches Ok(location) ==> {
            let from_repo = stack.linked_repo is Some || stack.repo@.len() > 0;
            let compose = compose_path(stack, config);
            &&& !stack.on_swarm
            &&& location.read_only <==> !stack.files_on_host && from_repo
            &&& location.create_if_missing <==> !stack.files_on_host && !from_repo
            &&& location.managed_file is Some <==> !stack.files_on_host && !from_repo
            &&& location.managed_file matches Some(name) ==> name == path::path_names(compose).last()
            &&& path::path_names(location.path) == path::path_names(compose).drop_last()
        },
        located(FileManagerTarget::Stack(stack), config) is Err ==> stack.on_swarm
            || path::path_names(compose_path(stack, config)).len() == 0,
{
    let compose = compose_path(stack, config);
    if path::path_names(compose).len() > 0 {
        path::parents_lack_the_last_name(compose);
        let base = run_directory(stack, config).0;
        let file = match stack.compose_file {
            Some(file) => file@,
            None => "compose.yaml"@,
        };
        let both = path::joined(base, file);
        path::configured_paths_lead_where_they_say(base, file);
        path::collapsed_names_were_there(
            path::path_names(both),
            path::collapsed(path::path_names(both)).len() - 1,
        );
    }
}

/// A stack runs below its own directory: that of its repository, where it has one,
/// and otherwise the one that is named after it.
pub proof fn stacks_run_in_their_own_directory(stack: StackTarget, config: PeripheryConfig)
    ensures
        !stack.files_on_host && stack.linked_repo is None && stack.repo@.len() == 0
            ==> run_directory(stack, config).0 == path::joined(config.stack_dir@, stack.name@),
        stack.files_on_host ==> path::path_names(run_directory(stack, config).0)
            == path::collapsed(
            path::path_names(
                path::joined(
                    path::joined(config.stack_dir@, stack.name@),
                    stack.run_directory@,
                ),
            ),
        ),
        !stack.files_on_host && stack.linked_repo is Some ==> path::path_names(
            run_directory(stack, config).0,
        ) == path::collapsed(
            path::path_names(
                path::joined(
                    configured(
                        path::joined(config.repo_dir@, stack.linked_repo->Some_0.name@),
                        stack.linked_repo->Some_0.path@,
                    ),
                    stack.run_directory@,
                ),
            ),
        ),
        !stack.files_on_host && stack.linked_repo is None && stack.repo@.len() > 0
            ==> path::path_names(run_directory(stack, config).0) == path::collapsed(
            path::path_names(
                path::joined(
                    configured(
                        path::joined(config.stack_dir@, stack.name@),
                        stack.clone_path@,
                    ),
                    stack.run_directory@,
                ),
            ),
        ),
{
    let own = path::joined(config.stack_dir@, stack.name@);
    path::configured_paths_lead_where_they_say(own, stack.run_directory@);
    path::configured_paths_lead_where_they_say(
        configured(own, stack.clone_path@),
        stack.run_directory@,
    );
    if stack.linked_repo is Some {
        let repo = stack.linked_repo->Some_0;
        path::configured_paths_lead_where_they_say(
            configured(path::joined(config.repo_dir@, repo.name@), repo.path@),
            stack.run_directory@,
        );
    }
}

/// The root of a volume is its mountpoint and can be written; a volume without one
/// has no root.
pub proof fn volume_roots_are_their_mountpoints(mountpoint: String, config: PeripheryConfig)
    ensures
        match located(FileManagerTarget::Volume { mountpoint }, config) {
            Ok(location) => location.path == mountpoint@ && mountpoint@.len() > 0
                && !location.read_only && location.managed_file is None
                && !location.create_if_missing,
            Err(error) => error == RootError::NoMountpoint && mountpoint@.len() == 0,
        },
{
}

} // verus!
