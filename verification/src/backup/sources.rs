//! What is backed up, and where a restore may write.

use vstd::prelude::*;

use crate::backup::compose;
use crate::backup::compose::BackupComposeService;
use crate::backup::containers;
use crate::backup::containers::has_id;
use crate::backup::containers::is_core;
use crate::backup::containers::is_skipped;
use crate::backup::containers::overlaps;
use crate::backup::containers::through_mount;
use crate::backup::containers::type_holds_files;
use crate::backup::containers::AliasedPaths;
use crate::backup::containers::MountPoint;
use crate::backup::containers::PeripheryBackupTarget;
use crate::backup::containers::ProtectedRepositoryPath;
use crate::backup::preview::Standing;
use crate::backup::publication::RestorePublishPath;
use crate::docker::container;
use crate::docker::container::label_of;
use crate::docker::container::ContainerListItem;
use crate::docker::container::Label;
use crate::path;
use crate::text;
use crate::text::in_order;
use crate::text::texts;

verus! {

/// Why something is not backed up, or nothing is restored there.
#[derive(Clone, Copy, Debug, PartialEq, Eq, Structural)]
pub enum SourceError {
    /// A path is not absolute.
    Relative,
    /// A bind mount does not tell its source.
    NoBindSource,
    /// A path leads nowhere.
    Unavailable,
    /// The bind mount contains the directory of the stack.
    ContainsRunDirectory,
    /// The bind mount leads into the directory of the stack in another way.
    AliasesRunDirectory,
    /// Two bind mounts lead to the same files.
    OverlappingBinds,
    /// The path overlaps the state of backups and restores.
    InternalStorage,
    /// The path overlaps what belongs to the control plane.
    Protected,
    /// Stacks of a swarm are not backed up.
    Swarm,
    /// The volume has no name.
    EmptyVolumeName,
    /// The volume is not a local one.
    NotLocal,
    /// The volume stands for something that is mounted.
    MountBacked,
    /// Volumes without a name of their own are left out.
    Anonymous,
    /// The destination is not absolute or goes up.
    NotNormalized,
    /// The destination is outside the root that was confirmed.
    OutsideRoot,
    /// There is a link or a file on the way to the destination.
    Traversal,
    /// Two destinations lead to the same files.
    OverlappingDestinations,
    /// It is not known which container this program runs in.
    UnknownOwnContainer,
    /// The container that this program runs in is not listed.
    OwnContainerNotListed,
}

/// The source is left out on purpose, and the backup of other sources goes on.
pub open spec fn is_exclusion(error: SourceError) -> bool {
    error == SourceError::InternalStorage || error == SourceError::Protected || error
        == SourceError::MountBacked
}

/// Whether the source is left out on purpose.
pub fn is_excluded_source(error: SourceError) -> (excluded: bool)
    ensures
        excluded == is_exclusion(error),
{
    match error {
        SourceError::InternalStorage => true,
        SourceError::Protected => true,
        SourceError::MountBacked => true,
        _ => false,
    }
}

/// What is left out of a backup.
#[derive(Clone, Debug, PartialEq, Eq)]
pub struct BackupSourceFilters {
    pub bind_mount_include_patterns: Vec<String>,
    pub bind_mount_exclude_patterns: Vec<String>,
    pub include_cross_filesystem_mounts: bool,
    pub include_anonymous_volumes: bool,
}

/// Nothing is left out.
pub fn unfiltered_source_filters() -> (filters: BackupSourceFilters)
    ensures
        filters.bind_mount_include_patterns@.len() == 0,
        filters.bind_mount_exclude_patterns@.len() == 0,
        filters.include_cross_filesystem_mounts,
        filters.include_anonymous_volumes,
{
    BackupSourceFilters {
        bind_mount_include_patterns: Vec::new(),
        bind_mount_exclude_patterns: Vec::new(),
        include_cross_filesystem_mounts: true,
        include_anonymous_volumes: true,
    }
}

/// A source has to be named by an absolute path.
pub fn validate_source_path(path: &str) -> (outcome: Result<(), SourceError>)
    ensures
        outcome == if path::is_absolute_path(path@) {
            Ok(())
        } else {
            Err(SourceError::Relative)
        },
{
    if path::path_is_absolute(path) {
        Ok(())
    } else {
        Err(SourceError::Relative)
    }
}

// ---------------------------------------------------------------------------
// Paths in order
// ---------------------------------------------------------------------------

/// The path with its slashes as the lowest of all characters, so that texts are
/// ordered as the names along the paths are.
pub open spec fn path_key(path: Seq<char>) -> Seq<char> {
    path.map_values(|c: char| if c == '/' { '\0' } else { c })
}

/// The path that a key stands for.
pub open spec fn key_path(key: Seq<char>) -> Seq<char> {
    key.map_values(|c: char| if c == '\0' { '/' } else { c })
}

/// The paths in the order of the names along them, each one once.
pub open spec fn paths_in_order(paths: Seq<Seq<char>>) -> Seq<Seq<char>> {
    in_order(paths.map_values(|path: Seq<char>| path_key(path))).map_values(
        |key: Seq<char>| key_path(key),
    )
}

fn exchange(text: &str, from: char, to: char) -> (exchanged: String)
    ensures
        exchanged@ == text@.map_values(|c: char| if c == from { to } else { c }),
{
    let chars = text::chars_of(text);
    let mut exchanged = String::new();
    let ghost whole = text@.map_values(|c: char| if c == from { to } else { c });
    for i in 0..chars.len()
        invariant
            chars@ == text@,
            whole == text@.map_values(|c: char| if c == from { to } else { c }),
            exchanged@ == whole.take(i as int),
    {
        let c = if chars[i] == from {
            to
        } else {
            chars[i]
        };
        exchanged.push(c);
        assert(exchanged@ =~= whole.take(i + 1));
    }
    assert(whole.take(whole.len() as int) =~= whole);
    exchanged
}

/// Puts paths in the order of the names along them.
pub fn order_paths(paths: &Vec<String>) -> (ordered: Vec<String>)
    ensures
        texts(ordered@) == paths_in_order(texts(paths@)),
{
    let mut keys: Vec<String> = Vec::new();
    let ghost wanted = texts(paths@).map_values(|path: Seq<char>| path_key(path));
    for i in 0..paths.len()
        invariant
            wanted == texts(paths@).map_values(|path: Seq<char>| path_key(path)),
            texts(keys@) == wanted.take(i as int),
    {
        let ghost before = texts(keys@);
        let key = exchange(paths[i].as_str(), '/', '\0');
        assert(key@ =~= path_key(paths@[i as int]@));
        keys.push(key);
        assert(texts(keys@) =~= before.push(key@));
        assert(texts(keys@) =~= wanted.take(i + 1));
    }
    assert(wanted.take(wanted.len() as int) =~= wanted);
    let sorted = text::sorted_unique(&keys);
    let mut ordered: Vec<String> = Vec::new();
    let ghost goal = texts(sorted@).map_values(|key: Seq<char>| key_path(key));
    for i in 0..sorted.len()
        invariant
            goal == texts(sorted@).map_values(|key: Seq<char>| key_path(key)),
            texts(ordered@) == goal.take(i as int),
    {
        let ghost before = texts(ordered@);
        let path = exchange(sorted[i].as_str(), '\0', '/');
        assert(path@ =~= key_path(sorted@[i as int]@));
        ordered.push(path);
        assert(texts(ordered@) =~= before.push(path@));
        assert(texts(ordered@) =~= goal.take(i + 1));
    }
    assert(goal.take(goal.len() as int) =~= goal);
    ordered
}

// ---------------------------------------------------------------------------
// Bind mounts
// ---------------------------------------------------------------------------

/// What becomes of a further bind mount.
#[derive(Clone, Copy, Debug, PartialEq, Eq, Structural)]
pub enum BindFate {
    /// What is backed up already holds it.
    Covered,
    /// It is backed up, in place of those that lie below it.
    Added,
}

/// Some of the roots is the bind mount or lies above it.
pub open spec fn is_covered(bind: Seq<char>, roots: Seq<Seq<char>>) -> bool {
    exists|i: int| 0 <= i < roots.len() && path::is_below(bind, #[trigger] roots[i])
}

/// Some of the roots that do not lie below the bind mount overlaps it.
pub open spec fn clashes(bind: Seq<char>, roots: Seq<Seq<char>>, aliases: Seq<AliasedPaths>) -> bool {
    exists|i: int|
        0 <= i < roots.len() && !path::is_below(#[trigger] roots[i], bind) && overlaps(
            roots[i],
            bind,
            aliases,
        )
}

/// What becomes of a further bind mount.
pub open spec fn bind_fate(
    roots: Seq<Seq<char>>,
    run_directory: Seq<char>,
    bind: Seq<char>,
    aliases: Seq<AliasedPaths>,
) -> Result<BindFate, SourceError> {
    if path::is_below(bind, run_directory) {
        Ok(BindFate::Covered)
    } else if path::is_below(run_directory, bind) {
        Err(SourceError::ContainsRunDirectory)
    } else if overlaps(run_directory, bind, aliases) {
        Err(SourceError::AliasesRunDirectory)
    } else if is_covered(bind, roots) {
        Ok(BindFate::Covered)
    } else if clashes(bind, roots, aliases) {
        Err(SourceError::OverlappingBinds)
    } else {
        Ok(BindFate::Added)
    }
}

/// The roots without those that lie below the bind mount, and with it.
pub open spec fn with_bind(roots: Seq<Seq<char>>, bind: Seq<char>) -> Seq<Seq<char>> {
    roots.filter(|root: Seq<char>| !path::is_below(root, bind)).push(bind)
}

/// The roots after a further bind mount.
pub open spec fn after_bind(
    roots: Seq<Seq<char>>,
    run_directory: Seq<char>,
    bind: Seq<char>,
    aliases: Seq<AliasedPaths>,
) -> Result<Seq<Seq<char>>, SourceError> {
    match bind_fate(roots, run_directory, bind, aliases) {
        Err(error) => Err(error),
        Ok(BindFate::Covered) => Ok(roots),
        Ok(BindFate::Added) => Ok(with_bind(roots, bind)),
    }
}

/// Adds a bind mount to what is backed up, so that no root lies below another.
pub fn insert_bind_backup_root(
    bind_paths: &mut Vec<String>,
    run_directory: &str,
    bind: &str,
    aliases: &Vec<AliasedPaths>,
) -> (outcome: Result<(), SourceError>)
    ensures
        match (
            outcome,
            after_bind(texts(old(bind_paths)@), run_directory@, bind@, aliases@),
        ) {
            (Ok(_), Ok(after)) => texts(final(bind_paths)@) == after,
            (Err(a), Err(b)) => a == b && final(bind_paths)@ == old(bind_paths)@,
            _ => false,
        },
{
    if path::path_is_below(bind, run_directory) {
        return Ok(());
    }
    if path::path_is_below(run_directory, bind) {
        return Err(SourceError::ContainsRunDirectory);
    }
    if containers::paths_overlap(run_directory, bind, aliases) {
        return Err(SourceError::AliasesRunDirectory);
    }
    let ghost roots = texts(bind_paths@);
    let mut covered = false;
    for i in 0..bind_paths.len()
        invariant
            roots == texts(bind_paths@),
            covered == exists|j: int|
                0 <= j < i && path::is_below(bind@, #[trigger] roots[j]),
    {
        assert(roots[i as int] == bind_paths@[i as int]@);
        if path::path_is_below(bind, bind_paths[i].as_str()) {
            covered = true;
        }
    }
    if covered {
        return Ok(());
    }
    let mut clash = false;
    for i in 0..bind_paths.len()
        invariant
            roots == texts(bind_paths@),
            clash == exists|j: int|
                0 <= j < i && !path::is_below(#[trigger] roots[j], bind@) && overlaps(
                    roots[j],
                    bind@,
                    aliases@,
                ),
    {
        assert(roots[i as int] == bind_paths@[i as int]@);
        if !path::path_is_below(bind_paths[i].as_str(), bind) && containers::paths_overlap(
            bind_paths[i].as_str(),
            bind,
            aliases,
        ) {
            clash = true;
        }
    }
    if clash {
        return Err(SourceError::OverlappingBinds);
    }
    let mut kept: Vec<String> = Vec::new();
    proof {
        reveal(Seq::filter);
        assert(roots.take(0) =~= Seq::<Seq<char>>::empty());
        assert(texts(kept@) =~= Seq::<Seq<char>>::empty());
    }
    for i in 0..bind_paths.len()
        invariant
            roots == texts(bind_paths@),
            texts(kept@) == roots.take(i as int).filter(
                |root: Seq<char>| !path::is_below(root, bind@),
            ),
    {
        let ghost before = texts(kept@);
        proof {
            reveal(Seq::filter);
            assert(roots.take(i + 1).drop_last() =~= roots.take(i as int));
            assert(roots.take(i + 1).last() == bind_paths@[i as int]@);
        }
        if !path::path_is_below(bind_paths[i].as_str(), bind) {
            kept.push(bind_paths[i].clone());
            assert(texts(kept@) =~= before.push(bind_paths@[i as int]@));
        }
    }
    assert(roots.take(roots.len() as int) =~= roots);
    let ghost rest = texts(kept@);
    kept.push(bind.to_owned());
    assert(texts(kept@) =~= rest.push(bind@));
    *bind_paths = kept;
    Ok(())
}

/// The paths, behind others that are known.
pub open spec fn put_behind(
    known: Seq<Seq<char>>,
    paths: Result<Seq<Seq<char>>, SourceError>,
) -> Result<Seq<Seq<char>>, SourceError> {
    match paths {
        Err(error) => Err(error),
        Ok(more) => Ok(known + more),
    }
}

/// A path that may be backed up: an absolute one.
pub open spec fn absolute_source(path: Seq<char>) -> Result<Seq<Seq<char>>, SourceError> {
    if path::is_absolute_path(path) {
        Ok(seq![path])
    } else {
        Err(SourceError::Relative)
    }
}

/// The paths, up to the first that is not absolute.
pub open spec fn absolute_sources(paths: Seq<Seq<char>>) -> Result<Seq<Seq<char>>, SourceError>
    decreases paths.len(),
{
    if paths.len() == 0 {
        Ok(Seq::empty())
    } else {
        match absolute_source(paths[0]) {
            Err(error) => Err(error),
            Ok(one) => put_behind(one, absolute_sources(paths.drop_first())),
        }
    }
}

/// What a mount shows of the host, if it is a bind mount.
pub open spec fn mount_source(mount: MountPoint) -> Result<Seq<Seq<char>>, SourceError> {
    if text::held(mount.typ) != Some("bind"@) {
        Ok(Seq::empty())
    } else {
        match mount.source {
            None => Err(SourceError::NoBindSource),
            Some(source) => absolute_source(source@),
        }
    }
}

/// What the bind mounts of a container show of the host.
pub open spec fn mount_sources(mounts: Seq<MountPoint>) -> Result<Seq<Seq<char>>, SourceError>
    decreases mounts.len(),
{
    if mounts.len() == 0 {
        Ok(Seq::empty())
    } else {
        match mount_source(mounts[0]) {
            Err(error) => Err(error),
            Ok(one) => put_behind(one, mount_sources(mounts.drop_first())),
        }
    }
}

/// What the bind mounts of the containers of a project show of the host. Each
/// container comes with its mounts.
pub open spec fn project_sources(
    project_name: Seq<char>,
    containers: Seq<ContainerListItem>,
    mounts: Seq<Vec<MountPoint>>,
) -> Result<Seq<Seq<char>>, SourceError>
    decreases containers.len(),
{
    if containers.len() == 0 {
        Ok(Seq::empty())
    } else {
        let rest = project_sources(project_name, containers.drop_first(), mounts.drop_first());
        if label_of(containers[0].labels@, containers::COMPOSE_PROJECT_LABEL@) == Some(
            project_name,
        ) {
            match mount_sources(mounts[0]@) {
                Err(error) => Err(error),
                Ok(some) => put_behind(some, rest),
            }
        } else {
            rest
        }
    }
}

/// The paths that the bind mounts of a stack name: those of its services, seen
/// from its directory, and those of its containers.
pub open spec fn named_binds(
    project_name: Seq<char>,
    containers: Seq<ContainerListItem>,
    mounts: Seq<Vec<MountPoint>>,
    services: Seq<BackupComposeService>,
    run_directory: Seq<char>,
) -> Result<Seq<Seq<char>>, SourceError> {
    match absolute_sources(
        compose::service_sources(services).map_values(
            |source: Seq<char>| path::joined(run_directory, source),
        ),
    ) {
        Err(error) => Err(error),
        Ok(written) => put_behind(written, project_sources(project_name, containers, mounts)),
    }
}

proof fn lemma_put_behind(
    known: Seq<Seq<char>>,
    more: Seq<Seq<char>>,
    paths: Result<Seq<Seq<char>>, SourceError>,
)
    ensures
        put_behind(known, put_behind(more, paths)) == put_behind(known + more, paths),
        put_behind(Seq::empty(), paths) == paths,
{
    match paths {
        Ok(rest) => {
            assert(known + (more + rest) =~= known + more + rest);
            assert(Seq::<Seq<char>>::empty() + rest =~= rest);
        },
        Err(_) => {},
    }
}

fn add_absolute(paths: &mut Vec<String>, path: String) -> (outcome: Result<(), SourceError>)
    ensures
        match (outcome, absolute_source(path@)) {
            (Ok(()), Ok(one)) => texts(final(paths)@) == texts(old(paths)@) + one,
            (Err(a), Err(b)) => a == b,
            _ => false,
        },
{
    match validate_source_path(path.as_str()) {
        Err(error) => Err(error),
        Ok(()) => {
            let ghost before = texts(paths@);
            let ghost added = path@;
            paths.push(path);
            assert(texts(paths@) =~= before + seq![added]);
            Ok(())
        },
    }
}

fn add_mounts(paths: &mut Vec<String>, mounts: &Vec<MountPoint>) -> (outcome: Result<
    (),
    SourceError,
>)
    ensures
        match (outcome, put_behind(texts(old(paths)@), mount_sources(mounts@))) {
            (Ok(()), Ok(all)) => texts(final(paths)@) == all,
            (Err(a), Err(b)) => a == b,
            _ => false,
        },
{
    let ghost goal = put_behind(texts(paths@), mount_sources(mounts@));
    assert(mounts@.skip(0) =~= mounts@);
    for i in 0..mounts.len()
        invariant
            goal == put_behind(texts(old(paths)@), mount_sources(mounts@)),
            goal == put_behind(texts(paths@), mount_sources(mounts@.skip(i as int))),
    {
        let ghost known = texts(paths@);
        let ghost rest = mount_sources(mounts@.skip(i + 1));
        let mount = &mounts[i];
        proof {
            assert(mounts@.skip(i as int)[0] == mounts@[i as int]);
            assert(mounts@.skip(i as int).drop_first() =~= mounts@.skip(i + 1));
            lemma_put_behind(known, mount_source(mounts@[i as int])->Ok_0, rest);
            assert(known + Seq::<Seq<char>>::empty() =~= known);
        }
        if text::is_some_text(&mount.typ, "bind") {
            match &mount.source {
                None => {
                    return Err(SourceError::NoBindSource);
                },
                Some(source) => match add_absolute(paths, source.clone()) {
                    Err(error) => {
                        return Err(error);
                    },
                    Ok(()) => {},
                },
            }
        }
    }
    proof {
        assert(mounts@.skip(mounts@.len() as int) =~= Seq::<MountPoint>::empty());
        assert(texts(paths@) + Seq::<Seq<char>>::empty() =~= texts(paths@));
    }
    Ok(())
}

/// The paths that the bind mounts of a stack name, in the order of the names along
/// them, each one once: those of the services of its Compose configuration, and
/// those of its containers. Each container comes with its mounts.
pub fn stack_binds(
    project_name: &str,
    containers: &Vec<ContainerListItem>,
    mounts: &Vec<Vec<MountPoint>>,
    services: &Vec<BackupComposeService>,
    run_directory: &str,
) -> (binds: Result<Vec<String>, SourceError>)
    requires
        mounts@.len() == containers@.len(),
    ensures
        match (
            binds,
            named_binds(project_name@, containers@, mounts@, services@, run_directory@),
        ) {
            (Ok(list), Ok(all)) => texts(list@) == paths_in_order(all),
            (Err(a), Err(b)) => a == b,
            _ => false,
        },
{
    let written = compose::compose_bind_paths(services, run_directory);
    let ghost wanted = compose::service_sources(services@).map_values(
        |source: Seq<char>| path::joined(run_directory@, source),
    );
    let mut paths: Vec<String> = Vec::new();
    assert(texts(written@) =~= wanted);
    assert(texts(paths@) =~= Seq::<Seq<char>>::empty());
    assert(wanted.skip(0) =~= wanted);
    proof {
        lemma_put_behind(Seq::empty(), Seq::empty(), absolute_sources(wanted));
    }
    for i in 0..written.len()
        invariant
            wanted == texts(written@),
            wanted == compose::service_sources(services@).map_values(
                |source: Seq<char>| path::joined(run_directory@, source),
            ),
            absolute_sources(wanted) == put_behind(
                texts(paths@),
                absolute_sources(wanted.skip(i as int)),
            ),
    {
        let ghost known = texts(paths@);
        proof {
            assert(wanted.skip(i as int)[0] == written@[i as int]@);
            assert(wanted.skip(i as int).drop_first() =~= wanted.skip(i + 1));
            lemma_put_behind(
                known,
                seq![written@[i as int]@],
                absolute_sources(wanted.skip(i + 1)),
            );
        }
        match add_absolute(&mut paths, written[i].clone()) {
            Err(error) => {
                return Err(error);
            },
            Ok(()) => {},
        }
    }
    let ghost first = texts(paths@);
    proof {
        assert(wanted.skip(wanted.len() as int) =~= Seq::<Seq<char>>::empty());
        assert(first + Seq::<Seq<char>>::empty() =~= first);
        assert(containers@.skip(0) =~= containers@);
        assert(mounts@.skip(0) =~= mounts@);
    }
    let ghost goal = put_behind(first, project_sources(project_name@, containers@, mounts@));
    for i in 0..containers.len()
        invariant
            mounts@.len() == containers@.len(),
            goal == put_behind(
                texts(paths@),
                project_sources(
                    project_name@,
                    containers@.skip(i as int),
                    mounts@.skip(i as int),
                ),
            ),
            goal == named_binds(
                project_name@,
                containers@,
                mounts@,
                services@,
                run_directory@,
            ),
    {
        let ghost known = texts(paths@);
        proof {
            assert(containers@.skip(i as int)[0] == containers@[i as int]);
            assert(mounts@.skip(i as int)[0] == mounts@[i as int]);
            assert(containers@.skip(i as int).drop_first() =~= containers@.skip(i + 1));
            assert(mounts@.skip(i as int).drop_first() =~= mounts@.skip(i + 1));
            lemma_put_behind(
                known,
                mount_sources(mounts@[i as int]@)->Ok_0,
                project_sources(project_name@, containers@.skip(i + 1), mounts@.skip(i + 1)),
            );
        }
        let of_project = match container::label(
            &containers[i].labels,
            containers::COMPOSE_PROJECT_LABEL,
        ) {
            Some(value) => text::same(value, project_name),
            None => false,
        };
        if of_project {
            match add_mounts(&mut paths, &mounts[i]) {
                Err(error) => {
                    return Err(error);
                },
                Ok(()) => {},
            }
        }
    }
    proof {
        assert(containers@.skip(containers@.len() as int) =~= Seq::<ContainerListItem>::empty());
        assert(texts(paths@) + Seq::<Seq<char>>::empty() =~= texts(paths@));
    }
    Ok(order_paths(&paths))
}

/// The paths that were found, up to the first that leads nowhere.
pub open spec fn found_paths(paths: Seq<Option<String>>) -> Result<Seq<Seq<char>>, SourceError>
    decreases paths.len(),
{
    if paths.len() == 0 {
        Ok(Seq::empty())
    } else {
        match paths[0] {
            None => Err(SourceError::Unavailable),
            Some(path) => put_behind(seq![path@], found_paths(paths.drop_first())),
        }
    }
}

/// The bind mounts of a stack, by where their paths lead: in the order of the
/// names along them, each one once.
pub fn resolved_binds(resolved: &Vec<Option<String>>) -> (binds: Result<Vec<String>, SourceError>)
    ensures
        match (binds, found_paths(resolved@)) {
            (Ok(list), Ok(all)) => texts(list@) == paths_in_order(all),
            (Err(a), Err(b)) => a == b,
            _ => false,
        },
{
    let mut paths: Vec<String> = Vec::new();
    let ghost goal = found_paths(resolved@);
    proof {
        assert(texts(paths@) =~= Seq::<Seq<char>>::empty());
        assert(resolved@.skip(0) =~= resolved@);
        lemma_put_behind(Seq::empty(), Seq::empty(), goal);
    }
    for i in 0..resolved.len()
        invariant
            goal == found_paths(resolved@),
            goal == put_behind(texts(paths@), found_paths(resolved@.skip(i as int))),
    {
        let ghost known = texts(paths@);
        proof {
            assert(resolved@.skip(i as int)[0] == resolved@[i as int]);
            assert(resolved@.skip(i as int).drop_first() =~= resolved@.skip(i + 1));
        }
        match &resolved[i] {
            None => {
                return Err(SourceError::Unavailable);
            },
            Some(path) => {
                proof {
                    lemma_put_behind(known, seq![path@], found_paths(resolved@.skip(i + 1)));
                }
                paths.push(path.clone());
                assert(texts(paths@) =~= known + seq![path@]);
            },
        }
    }
    proof {
        assert(resolved@.skip(resolved@.len() as int) =~= Seq::<Option<String>>::empty());
        assert(texts(paths@) + Seq::<Seq<char>>::empty() =~= texts(paths@));
    }
    Ok(order_paths(&paths))
}

/// A bind mount, and what the filters and its filesystem say of it.
#[derive(Clone, Debug, PartialEq, Eq)]
pub struct SeenBind {
    pub path: String,
    /// An include pattern names it.
    pub included: bool,
    /// An exclude pattern names it.
    pub excluded: bool,
    /// The filesystem that it is on.
    pub device: u64,
}

/// The filters let the bind mount through.
pub open spec fn is_selected(bind: SeenBind, filters: BackupSourceFilters, run_device: u64) -> bool {
    &&& filters.bind_mount_include_patterns@.len() == 0 || bind.included
    &&& !bind.excluded
    &&& filters.include_cross_filesystem_mounts || bind.device == run_device
}

/// The roots that the bind mounts make.
pub open spec fn bind_roots(
    binds: Seq<SeenBind>,
    run_directory: Seq<char>,
    run_device: u64,
    filters: BackupSourceFilters,
    aliases: Seq<AliasedPaths>,
) -> Result<Seq<Seq<char>>, SourceError>
    decreases binds.len(),
{
    if binds.len() == 0 {
        Ok(Seq::empty())
    } else {
        match bind_roots(binds.drop_last(), run_directory, run_device, filters, aliases) {
            Err(error) => Err(error),
            Ok(roots) => if is_selected(binds.last(), filters, run_device) {
                after_bind(roots, run_directory, binds.last().path@, aliases)
            } else {
                Ok(roots)
            },
        }
    }
}

proof fn lemma_roots_stop(
    binds: Seq<SeenBind>,
    n: int,
    run_directory: Seq<char>,
    run_device: u64,
    filters: BackupSourceFilters,
    aliases: Seq<AliasedPaths>,
)
    requires
        0 <= n <= binds.len(),
        bind_roots(binds.take(n), run_directory, run_device, filters, aliases) is Err,
    ensures
        bind_roots(binds, run_directory, run_device, filters, aliases) == bind_roots(
            binds.take(n),
            run_directory,
            run_device,
            filters,
            aliases,
        ),
    decreases binds.len(),
{
    if n == binds.len() {
        assert(binds.take(n) =~= binds);
    } else {
        assert(binds.drop_last().take(n) =~= binds.take(n));
        lemma_roots_stop(binds.drop_last(), n, run_directory, run_device, filters, aliases);
    }
}

/// The bind mounts that are backed up with a stack. The filters come before
/// nested roots are put together.
pub fn select_bind_backup_roots(
    binds: &Vec<SeenBind>,
    run_directory: &str,
    run_device: u64,
    filters: &BackupSourceFilters,
    aliases: &Vec<AliasedPaths>,
) -> (roots: Result<Vec<String>, SourceError>)
    ensures
        match (
            roots,
            bind_roots(binds@, run_directory@, run_device, *filters, aliases@),
        ) {
            (Ok(list), Ok(wanted)) => texts(list@) == paths_in_order(wanted),
            (Err(a), Err(b)) => a == b,
            _ => false,
        },
{
    let mut selected: Vec<String> = Vec::new();
    assert(binds@.take(0) =~= Seq::<SeenBind>::empty());
    assert(texts(selected@) =~= Seq::<Seq<char>>::empty());
    for i in 0..binds.len()
        invariant
            bind_roots(binds@.take(i as int), run_directory@, run_device, *filters, aliases@)
                == Ok::<Seq<Seq<char>>, SourceError>(texts(selected@)),
    {
        proof {
            let more = binds@.take(i + 1);
            assert(more.drop_last() =~= binds@.take(i as int));
            assert(more.last() == binds@[i as int]);
            if bind_roots(more, run_directory@, run_device, *filters, aliases@) is Err {
                lemma_roots_stop(
                    binds@,
                    i + 1,
                    run_directory@,
                    run_device,
                    *filters,
                    aliases@,
                );
            }
        }
        let bind = &binds[i];
        if (filters.bind_mount_include_patterns.len() == 0 || bind.included) && !bind.excluded && (
        filters.include_cross_filesystem_mounts || bind.device == run_device) {
            match insert_bind_backup_root(
                &mut selected,
                run_directory,
                bind.path.as_str(),
                aliases,
            ) {
                Ok(_) => {},
                Err(error) => {
                    return Err(error);
                },
            }
        }
    }
    assert(binds@.take(binds@.len() as int) =~= binds@);
    Ok(order_paths(&selected))
}

// ---------------------------------------------------------------------------
// Volumes
// ---------------------------------------------------------------------------

/// The option is given and not empty.
pub open spec fn is_given(options: Seq<Label>, name: Seq<char>) -> bool {
    label_of(options, name) matches Some(value) && value.len() > 0
}

/// Refuses a volume that stands for something that is mounted.
pub fn validate_local_volume_mount_options(options: &Vec<Label>) -> (outcome: Result<
    (),
    SourceError,
>)
    ensures
        outcome == if is_given(options@, "type"@) || is_given(options@, "device"@) {
            Err(SourceError::MountBacked)
        } else {
            Ok(())
        },
{
    if option_given(options, "type") || option_given(options, "device") {
        Err(SourceError::MountBacked)
    } else {
        Ok(())
    }
}

fn option_given(options: &Vec<Label>, name: &str) -> (given: bool)
    ensures
        given == is_given(options@, name@),
{
    match container::label(options, name) {
        Some(value) => text::chars_of(value).len() > 0,
        None => false,
    }
}

/// A volume as Docker describes it.
#[derive(Clone, Debug, PartialEq, Eq)]
pub struct SeenVolume {
    pub driver: String,
    /// The volume is known on this machine only.
    pub local_scope: bool,
    pub options: Vec<Label>,
    /// The volume has no name of its own.
    pub anonymous: bool,
    pub mountpoint: String,
}

/// Whether the volume is backed up or restored.
pub fn admit_volume(volume: &SeenVolume, filters: &BackupSourceFilters) -> (outcome: Result<
    (),
    SourceError,
>)
    ensures
        outcome == if volume.driver@ != "local"@ || !volume.local_scope {
            Err(SourceError::NotLocal)
        } else if is_given(volume.options@, "type"@) || is_given(volume.options@, "device"@) {
            Err(SourceError::MountBacked)
        } else if volume.anonymous && !filters.include_anonymous_volumes {
            Err(SourceError::Anonymous)
        } else if !path::is_absolute_path(volume.mountpoint@) {
            Err(SourceError::Relative)
        } else {
            Ok(())
        },
{
    if !text::same(volume.driver.as_str(), "local") || !volume.local_scope {
        return Err(SourceError::NotLocal);
    }
    match validate_local_volume_mount_options(&volume.options) {
        Err(error) => {
            return Err(error);
        },
        Ok(_) => {},
    }
    if !filters.include_anonymous_volumes && volume.anonymous {
        return Err(SourceError::Anonymous);
    }
    validate_source_path(volume.mountpoint.as_str())
}

// ---------------------------------------------------------------------------
// Protected paths
// ---------------------------------------------------------------------------

/// Refuses a path that overlaps the state of backups and restores.
pub fn validate_path_outside_internal_storage(
    path: &str,
    internal_storage: &str,
    aliases: &Vec<AliasedPaths>,
) -> (outcome: Result<(), SourceError>)
    ensures
        outcome == if overlaps(path@, internal_storage@, aliases@) {
            Err(SourceError::InternalStorage)
        } else {
            Ok(())
        },
{
    if containers::paths_overlap(path, internal_storage, aliases) {
        Err(SourceError::InternalStorage)
    } else {
        Ok(())
    }
}

/// The path overlaps one of the protected ones.
pub open spec fn touches_protected(
    path: Seq<char>,
    protected: Seq<Seq<char>>,
    aliases: Seq<AliasedPaths>,
) -> bool {
    exists|i: int| 0 <= i < protected.len() && overlaps(path, #[trigger] protected[i], aliases)
}

/// Refuses a path that overlaps what belongs to the control plane.
pub fn validate_path_outside_protected_repositories(
    path: &str,
    protected_repository_sources: &Vec<String>,
    aliases: &Vec<AliasedPaths>,
) -> (outcome: Result<(), SourceError>)
    ensures
        outcome == if touches_protected(path@, texts(protected_repository_sources@), aliases@) {
            Err(SourceError::Protected)
        } else {
            Ok(())
        },
{
    let ghost all = texts(protected_repository_sources@);
    for i in 0..protected_repository_sources.len()
        invariant
            all == texts(protected_repository_sources@),
            forall|j: int| 0 <= j < i ==> !overlaps(path@, #[trigger] all[j], aliases@),
    {
        assert(all[i as int] == protected_repository_sources@[i as int]@);
        if containers::paths_overlap(path, protected_repository_sources[i].as_str(), aliases) {
            return Err(SourceError::Protected);
        }
    }
    Ok(())
}

/// The mounts of a container whose whole source is protected: it is marked to be
/// left alone and does not belong to the control plane.
pub open spec fn protects_whole_mounts(
    container: ContainerListItem,
    protected_paths: Seq<ProtectedRepositoryPath>,
) -> bool {
    is_skipped(container) && !is_core(container, protected_paths)
}

/// The protected paths of the container that a mount shows, on the host.
pub open spec fn mapped_paths(
    container: ContainerListItem,
    protected_paths: Seq<ProtectedRepositoryPath>,
    destination: Seq<char>,
    source: Seq<char>,
) -> Seq<Seq<char>>
    decreases protected_paths.len(),
{
    if protected_paths.len() == 0 {
        Seq::empty()
    } else {
        let before = mapped_paths(container, protected_paths.drop_last(), destination, source);
        let last = protected_paths.last();
        if has_id(container, last.core_container_id@) {
            match through_mount(last.path@, destination, source) {
                Some(mapped) => before.push(mapped),
                None => before,
            }
        } else {
            before
        }
    }
}

/// What a mount of a container adds to the protected paths.
pub open spec fn protected_by_mount(
    container: ContainerListItem,
    mount: MountPoint,
    protected_paths: Seq<ProtectedRepositoryPath>,
) -> Seq<Seq<char>> {
    if !type_holds_files(text::held(mount.typ)) {
        Seq::empty()
    } else {
        match (text::held(mount.destination), text::held(mount.source)) {
            (Some(destination), Some(source)) => if protects_whole_mounts(
                container,
                protected_paths,
            ) {
                seq![source]
            } else {
                mapped_paths(container, protected_paths, destination, source)
            },
            _ => Seq::empty(),
        }
    }
}

fn mount_protection(
    container: &ContainerListItem,
    mount: &MountPoint,
    protected_paths: &Vec<ProtectedRepositoryPath>,
) -> (paths: Vec<String>)
    ensures
        texts(paths@) == protected_by_mount(*container, *mount, protected_paths@),
{
    let mut paths: Vec<String> = Vec::new();
    assert(texts(paths@) =~= Seq::<Seq<char>>::empty());
    if !containers::mount_type_affects_paths(&mount.typ) {
        return paths;
    }
    let (destination, source) = match (&mount.destination, &mount.source) {
        (Some(destination), Some(source)) => (destination, source),
        _ => {
            return paths;
        },
    };
    if containers::container_backup_is_skipped(container) && !containers::is_core_container(
        container,
        protected_paths,
    ) {
        paths.push(source.clone());
        assert(texts(paths@) =~= seq![source@]);
        return paths;
    }
    assert(protected_paths@.take(0) =~= Seq::<ProtectedRepositoryPath>::empty());
    for i in 0..protected_paths.len()
        invariant
            texts(paths@) == mapped_paths(
                *container,
                protected_paths@.take(i as int),
                destination@,
                source@,
            ),
    {
        let ghost before = texts(paths@);
        assert(protected_paths@.take(i + 1).drop_last() =~= protected_paths@.take(i as int));
        assert(protected_paths@.take(i + 1).last() == protected_paths@[i as int]);
        if containers::container_matches_id(
            container,
            protected_paths[i].core_container_id.as_str(),
        ) {
            match containers::map_path_through_mount(
                protected_paths[i].path.as_str(),
                destination.as_str(),
                source.as_str(),
            ) {
                Some(mapped) => {
                    paths.push(mapped);
                    assert(texts(paths@) =~= before.push(mapped@));
                },
                None => {},
            }
        }
    }
    assert(protected_paths@.take(protected_paths@.len() as int) =~= protected_paths@);
    paths
}

/// What the mounts of a container add to the protected paths.
pub open spec fn protected_by_mounts(
    container: ContainerListItem,
    mounts: Seq<MountPoint>,
    protected_paths: Seq<ProtectedRepositoryPath>,
) -> Seq<Seq<char>>
    decreases mounts.len(),
{
    if mounts.len() == 0 {
        Seq::empty()
    } else {
        protected_by_mounts(container, mounts.drop_last(), protected_paths) + protected_by_mount(
            container,
            mounts.last(),
            protected_paths,
        )
    }
}

fn mounts_protection(
    container: &ContainerListItem,
    mounts: &Vec<MountPoint>,
    protected_paths: &Vec<ProtectedRepositoryPath>,
) -> (paths: Vec<String>)
    ensures
        texts(paths@) == protected_by_mounts(*container, mounts@, protected_paths@),
{
    let mut paths: Vec<String> = Vec::new();
    assert(mounts@.take(0) =~= Seq::<MountPoint>::empty());
    assert(texts(paths@) =~= Seq::<Seq<char>>::empty());
    for i in 0..mounts.len()
        invariant
            texts(paths@) == protected_by_mounts(
                *container,
                mounts@.take(i as int),
                protected_paths@,
            ),
    {
        let ghost before = texts(paths@);
        assert(mounts@.take(i + 1).drop_last() =~= mounts@.take(i as int));
        assert(mounts@.take(i + 1).last() == mounts@[i as int]);
        let mut more = mount_protection(container, &mounts[i], protected_paths);
        let ghost added = texts(more@);
        paths.append(&mut more);
        assert(texts(paths@) =~= before + added);
    }
    assert(mounts@.take(mounts@.len() as int) =~= mounts@);
    paths
}

/// The mounts of the container are looked at: it belongs to the control plane,
/// or is marked to be left alone and is not this program's own one.
pub open spec fn is_guarded(
    container: ContainerListItem,
    protected_paths: Seq<ProtectedRepositoryPath>,
    skipped_too: bool,
    own_id: Option<Seq<char>>,
) -> bool {
    is_core(container, protected_paths) || (skipped_too && is_skipped(container)
        && !containers::has_some_id(container, own_id))
}

/// The protected paths on the host.
pub open spec fn host_sources(
    containers: Seq<ContainerListItem>,
    mounts: Seq<Vec<MountPoint>>,
    protected_paths: Seq<ProtectedRepositoryPath>,
    skipped_too: bool,
    own_id: Option<Seq<char>>,
) -> Seq<Seq<char>>
    decreases containers.len(),
{
    if containers.len() == 0 {
        Seq::empty()
    } else {
        let before = host_sources(
            containers.drop_last(),
            mounts,
            protected_paths,
            skipped_too,
            own_id,
        );
        if is_guarded(containers.last(), protected_paths, skipped_too, own_id) {
            before + protected_by_mounts(
                containers.last(),
                mounts[containers.len() - 1]@,
                protected_paths,
            )
        } else {
            before
        }
    }
}

/// The protected paths on the host: what the mounts of the control plane show of
/// its protected paths, and the mounts of containers that are left alone. Each
/// container comes with its mounts.
pub fn resolve_protected_repository_sources(
    containers: &Vec<ContainerListItem>,
    mounts: &Vec<Vec<MountPoint>>,
    protected_paths: &Vec<ProtectedRepositoryPath>,
    skipped_too: bool,
    own_id: &Option<String>,
) -> (sources: Vec<String>)
    requires
        mounts@.len() == containers@.len(),
    ensures
        texts(sources@) == host_sources(
            containers@,
            mounts@,
            protected_paths@,
            skipped_too,
            text::held(*own_id),
        ),
{
    let mut sources: Vec<String> = Vec::new();
    assert(containers@.take(0) =~= Seq::<ContainerListItem>::empty());
    assert(texts(sources@) =~= Seq::<Seq<char>>::empty());
    for i in 0..containers.len()
        invariant
            mounts@.len() == containers@.len(),
            texts(sources@) == host_sources(
                containers@.take(i as int),
                mounts@,
                protected_paths@,
                skipped_too,
                text::held(*own_id),
            ),
    {
        let ghost before = texts(sources@);
        assert(containers@.take(i + 1).drop_last() =~= containers@.take(i as int));
        assert(containers@.take(i + 1).last() == containers@[i as int]);
        let one = &containers[i];
        let own = match own_id {
            Some(id) => containers::container_matches_id(one, id.as_str()),
            None => false,
        };
        if containers::is_core_container(one, protected_paths) || (skipped_too
            && containers::container_backup_is_skipped(one) && !own) {
            let mut more = mounts_protection(one, &mounts[i], protected_paths);
            let ghost added = texts(more@);
            sources.append(&mut more);
            assert(texts(sources@) =~= before + added);
        }
    }
    assert(containers@.take(containers@.len() as int) =~= containers@);
    sources
}

/// The paths as they are found through a mount of this program's own container.
pub open spec fn aliases_through(sources: Seq<Seq<char>>, host: Seq<char>, local: Seq<char>) -> Seq<
    Seq<char>,
>
    decreases sources.len(),
{
    if sources.len() == 0 {
        Seq::empty()
    } else {
        let before = aliases_through(sources.drop_last(), host, local);
        match through_mount(sources.last(), host, local) {
            Some(alias) => before.push(alias),
            None => before,
        }
    }
}

/// The paths as they are found through the mounts of this program's own
/// container.
pub open spec fn own_aliases(sources: Seq<Seq<char>>, own_mounts: Seq<MountPoint>) -> Seq<Seq<char>>
    decreases own_mounts.len(),
{
    if own_mounts.len() == 0 {
        Seq::empty()
    } else {
        let before = own_aliases(sources, own_mounts.drop_last());
        let mount = own_mounts.last();
        match (text::held(mount.source), text::held(mount.destination)) {
            (Some(host), Some(local)) => before + aliases_through(sources, host, local),
            _ => before,
        }
    }
}

fn through_own_mount(sources: &Vec<String>, host: &str, local: &str) -> (aliases: Vec<String>)
    ensures
        texts(aliases@) == aliases_through(texts(sources@), host@, local@),
{
    let ghost all = texts(sources@);
    let mut aliases: Vec<String> = Vec::new();
    assert(all.take(0) =~= Seq::<Seq<char>>::empty());
    assert(texts(aliases@) =~= Seq::<Seq<char>>::empty());
    for i in 0..sources.len()
        invariant
            all == texts(sources@),
            texts(aliases@) == aliases_through(all.take(i as int), host@, local@),
    {
        let ghost before = texts(aliases@);
        assert(all.take(i + 1).drop_last() =~= all.take(i as int));
        assert(all.take(i + 1).last() == sources@[i as int]@);
        match containers::map_path_through_mount(sources[i].as_str(), host, local) {
            Some(alias) => {
                aliases.push(alias);
                assert(texts(aliases@) =~= before.push(alias@));
            },
            None => {},
        }
    }
    assert(all.take(all.len() as int) =~= all);
    aliases
}

/// The protected paths as this program sees them through its own mounts. If
/// there are any, the program has to know the container that it runs in.
pub fn protected_aliases(
    sources: &Vec<String>,
    containers: &Vec<ContainerListItem>,
    own_id: &Option<String>,
    own_mounts: &Vec<MountPoint>,
) -> (aliases: Result<Vec<String>, SourceError>)
    ensures
        match aliases {
            Ok(list) => if sources@.len() == 0 {
                list@.len() == 0
            } else {
                containers::position_of_id(containers@, text::held(*own_id)) is Some && texts(
                    list@,
                ) == own_aliases(texts(sources@), own_mounts@)
            },
            Err(error) => sources@.len() > 0 && error == if own_id is None {
                SourceError::UnknownOwnContainer
            } else {
                SourceError::OwnContainerNotListed
            } && containers::position_of_id(containers@, text::held(*own_id)) is None,
        },
{
    let mut aliases: Vec<String> = Vec::new();
    if sources.len() == 0 {
        return Ok(aliases);
    }
    match containers::find_own_container(containers, own_id) {
        None => {
            return Err(
                if own_id.is_none() {
                    SourceError::UnknownOwnContainer
                } else {
                    SourceError::OwnContainerNotListed
                },
            );
        },
        Some(_) => {},
    }
    assert(own_mounts@.take(0) =~= Seq::<MountPoint>::empty());
    assert(texts(aliases@) =~= Seq::<Seq<char>>::empty());
    for i in 0..own_mounts.len()
        invariant
            texts(aliases@) == own_aliases(texts(sources@), own_mounts@.take(i as int)),
    {
        let ghost before = texts(aliases@);
        assert(own_mounts@.take(i + 1).drop_last() =~= own_mounts@.take(i as int));
        assert(own_mounts@.take(i + 1).last() == own_mounts@[i as int]);
        match (&own_mounts[i].source, &own_mounts[i].destination) {
            (Some(host), Some(local)) => {
                let mut more = through_own_mount(sources, host.as_str(), local.as_str());
                let ghost added = texts(more@);
                aliases.append(&mut more);
                assert(texts(aliases@) =~= before + added);
            },
            _ => {},
        }
    }
    assert(own_mounts@.take(own_mounts@.len() as int) =~= own_mounts@);
    Ok(aliases)
}

/// The protected paths of the container that this program runs in itself.
pub open spec fn own_protected(
    own: ContainerListItem,
    protected_paths: Seq<ProtectedRepositoryPath>,
) -> Seq<Seq<char>>
    decreases protected_paths.len(),
{
    if protected_paths.len() == 0 {
        Seq::empty()
    } else {
        let before = own_protected(own, protected_paths.drop_last());
        if has_id(own, protected_paths.last().core_container_id@) {
            before.push(protected_paths.last().path@)
        } else {
            before
        }
    }
}

/// The protected paths of the container that this program runs in itself, where
/// it shares one with the control plane.
pub fn own_protected_paths(
    own: &ContainerListItem,
    protected_paths: &Vec<ProtectedRepositoryPath>,
) -> (paths: Vec<String>)
    ensures
        texts(paths@) == own_protected(*own, protected_paths@),
{
    let mut paths: Vec<String> = Vec::new();
    assert(protected_paths@.take(0) =~= Seq::<ProtectedRepositoryPath>::empty());
    assert(texts(paths@) =~= Seq::<Seq<char>>::empty());
    for i in 0..protected_paths.len()
        invariant
            texts(paths@) == own_protected(*own, protected_paths@.take(i as int)),
    {
        let ghost before = texts(paths@);
        assert(protected_paths@.take(i + 1).drop_last() =~= protected_paths@.take(i as int));
        assert(protected_paths@.take(i + 1).last() == protected_paths@[i as int]);
        if containers::container_matches_id(own, protected_paths[i].core_container_id.as_str()) {
            paths.push(protected_paths[i].path.clone());
            assert(texts(paths@) =~= before.push(protected_paths@[i as int].path@));
        }
    }
    assert(protected_paths@.take(protected_paths@.len() as int) =~= protected_paths@);
    paths
}

// ---------------------------------------------------------------------------
// Discovery
// ---------------------------------------------------------------------------

/// Why a path is not backed up: it overlaps the program's own state, or what
/// belongs to the control plane.
pub open spec fn path_refusal(
    path: Seq<char>,
    internal_storage: Seq<char>,
    protected: Seq<Seq<char>>,
    aliases: Seq<AliasedPaths>,
) -> Option<SourceError> {
    if overlaps(path, internal_storage, aliases) {
        Some(SourceError::InternalStorage)
    } else if touches_protected(path, protected, aliases) {
        Some(SourceError::Protected)
    } else {
        None
    }
}

/// Whether a path may be backed up.
pub fn admit_source(
    path: &str,
    internal_storage: &str,
    protected: &Vec<String>,
    aliases: &Vec<AliasedPaths>,
) -> (outcome: Result<(), SourceError>)
    ensures
        match outcome {
            Ok(_) => path_refusal(path@, internal_storage@, texts(protected@), aliases@) is None,
            Err(error) => path_refusal(path@, internal_storage@, texts(protected@), aliases@)
                == Some(error),
        },
{
    match validate_path_outside_internal_storage(path, internal_storage, aliases) {
        Err(error) => {
            return Err(error);
        },
        Ok(_) => {},
    }
    validate_path_outside_protected_repositories(path, protected, aliases)
}

/// Why one of the paths is not backed up, if one is not: the first such path
/// counts.
pub open spec fn first_refusal(
    paths: Seq<Seq<char>>,
    internal_storage: Seq<char>,
    protected: Seq<Seq<char>>,
    aliases: Seq<AliasedPaths>,
) -> Option<SourceError>
    decreases paths.len(),
{
    if paths.len() == 0 {
        None
    } else {
        match path_refusal(paths[0], internal_storage, protected, aliases) {
            Some(error) => Some(error),
            None => first_refusal(paths.drop_first(), internal_storage, protected, aliases),
        }
    }
}

/// What is backed up of a stack: its directory and the bind mounts that are not
/// in it.
pub open spec fn stack_sources(
    run_directory: Seq<char>,
    binds: Seq<SeenBind>,
    run_device: u64,
    filters: BackupSourceFilters,
    internal_storage: Seq<char>,
    protected: Seq<Seq<char>>,
    aliases: Seq<AliasedPaths>,
) -> Result<Seq<Seq<char>>, SourceError> {
    match bind_roots(binds, run_directory, run_device, filters, aliases) {
        Err(error) => Err(error),
        Ok(roots) => {
            let all = seq![run_directory] + paths_in_order(roots);
            match first_refusal(all, internal_storage, protected, aliases) {
                Some(error) => Err(error),
                None => Ok(all),
            }
        },
    }
}

/// What is backed up of a stack.
pub fn discover_stack_source(
    run_directory: &str,
    binds: &Vec<SeenBind>,
    run_device: u64,
    filters: &BackupSourceFilters,
    internal_storage: &str,
    protected: &Vec<String>,
    aliases: &Vec<AliasedPaths>,
) -> (paths: Result<Vec<String>, SourceError>)
    ensures
        match (
            paths,
            stack_sources(
                run_directory@,
                binds@,
                run_device,
                *filters,
                internal_storage@,
                texts(protected@),
                aliases@,
            ),
        ) {
            (Ok(list), Ok(wanted)) => texts(list@) == wanted,
            (Err(a), Err(b)) => a == b,
            _ => false,
        },
{
    let mut roots = match select_bind_backup_roots(
        binds,
        run_directory,
        run_device,
        filters,
        aliases,
    ) {
        Ok(roots) => roots,
        Err(error) => {
            return Err(error);
        },
    };
    let mut paths: Vec<String> = Vec::new();
    paths.push(run_directory.to_owned());
    let ghost ordered = texts(roots@);
    paths.append(&mut roots);
    let ghost all = texts(paths@);
    assert(all =~= seq![run_directory@] + ordered);
    assert(all.skip(0) =~= all);
    for i in 0..paths.len()
        invariant
            all == texts(paths@),
            bind_roots(binds@, run_directory@, run_device, *filters, aliases@) is Ok,
            all == seq![run_directory@] + paths_in_order(
                bind_roots(binds@, run_directory@, run_device, *filters, aliases@)->Ok_0,
            ),
            first_refusal(all, internal_storage@, texts(protected@), aliases@) == first_refusal(
                all.skip(i as int),
                internal_storage@,
                texts(protected@),
                aliases@,
            ),
    {
        assert(all.skip(i as int)[0] == paths@[i as int]@);
        assert(all.skip(i as int).drop_first() =~= all.skip(i + 1));
        match admit_source(paths[i].as_str(), internal_storage, protected, aliases) {
            Ok(_) => {},
            Err(error) => {
                return Err(error);
            },
        }
    }
    Ok(paths)
}

/// What is backed up, as it was found.
#[derive(Clone, Debug, PartialEq, Eq)]
pub enum SourceSeen {
    Stack {
        project_name: String,
        /// The stack is deployed in a swarm.
        swarm: bool,
        run_directory: String,
        binds: Vec<SeenBind>,
        /// The filesystem that the directory of the stack is on.
        run_device: u64,
    },
    Volume { volume_name: String, volume: SeenVolume },
}

/// What is backed up, and the containers that use it.
#[derive(Clone, Debug, PartialEq, Eq)]
pub struct DiscoverBackupSourceResponse {
    pub paths: Vec<String>,
    pub running_containers: Vec<String>,
}

/// Why nothing is backed up.
#[derive(Clone, Debug, PartialEq, Eq)]
pub enum DiscoverError {
    Source(SourceError),
    /// A container of the control plane, or one that is left alone, uses what is
    /// asked for.
    ProtectedContainer(String),
}

/// The Docker daemon as it was found: its containers, the mounts of each, and
/// which of them is this program's own one.
#[derive(Clone, Debug, PartialEq, Eq)]
pub struct DockerSeen {
    pub containers: Vec<ContainerListItem>,
    pub mounts: Vec<Vec<MountPoint>>,
    pub own_id: Option<String>,
}

/// The target that a source belongs to.
pub open spec fn target_of(seen: SourceSeen) -> PeripheryBackupTarget {
    match seen {
        SourceSeen::Stack { project_name, swarm, run_directory, binds, run_device } => (
        PeripheryBackupTarget::Stack { project_name }),
        SourceSeen::Volume { volume_name, volume } => (PeripheryBackupTarget::Volume {
            volume_name,
        }),
    }
}

/// What a volume is refused for.
pub open spec fn volume_refusal(volume: SeenVolume, filters: BackupSourceFilters) -> Option<
    SourceError,
> {
    if volume.driver@ != "local"@ || !volume.local_scope {
        Some(SourceError::NotLocal)
    } else if is_given(volume.options@, "type"@) || is_given(volume.options@, "device"@) {
        Some(SourceError::MountBacked)
    } else if volume.anonymous && !filters.include_anonymous_volumes {
        Some(SourceError::Anonymous)
    } else if !path::is_absolute_path(volume.mountpoint@) {
        Some(SourceError::Relative)
    } else {
        None
    }
}

/// A text holds white space alone.
pub open spec fn is_blank_text(text: Seq<char>) -> bool {
    forall|i: int| 0 <= i < text.len() ==> text::is_white_space(#[trigger] text[i])
}

/// Whether a text holds white space alone.
pub fn is_blank(text: &str) -> (blank: bool)
    ensures
        blank == is_blank_text(text@),
{
    let chars = text::chars_of(text);
    for i in 0..chars.len()
        invariant
            chars@ == text@,
            forall|k: int| 0 <= k < i ==> text::is_white_space(#[trigger] text@[k]),
    {
        if !text::white_space(chars[i]) {
            return false;
        }
    }
    true
}

/// A volume is asked for by a blank name.
pub open spec fn is_unnamed(seen: SourceSeen) -> bool {
    seen matches SourceSeen::Volume { volume_name, volume } && is_blank_text(volume_name@)
}

/// The paths that are backed up, or why none are.
pub open spec fn source_paths(
    seen: SourceSeen,
    unnamed: bool,
    filters: BackupSourceFilters,
    internal_storage: Seq<char>,
    protected: Seq<Seq<char>>,
    aliases: Seq<AliasedPaths>,
) -> Result<Seq<Seq<char>>, SourceError> {
    match seen {
        SourceSeen::Stack { project_name, swarm, run_directory, binds, run_device } => if swarm {
            Err(SourceError::Swarm)
        } else if !path::is_absolute_path(run_directory@) {
            Err(SourceError::Relative)
        } else {
            stack_sources(
                run_directory@,
                binds@,
                run_device,
                filters,
                internal_storage,
                protected,
                aliases,
            )
        },
        SourceSeen::Volume { volume_name, volume } => if unnamed {
            Err(SourceError::EmptyVolumeName)
        } else {
            match volume_refusal(volume, filters) {
                Some(error) => Err(error),
                None => match path_refusal(
                    volume.mountpoint@,
                    internal_storage,
                    protected,
                    aliases,
                ) {
                    Some(error) => Err(error),
                    None => Ok(seq![volume.mountpoint@]),
                },
            }
        },
    }
}

/// The paths that are backed up, or why none are. `unnamed` tells whether a volume
/// is asked for by a blank name.
pub fn discover_paths(
    seen: &SourceSeen,
    unnamed: bool,
    filters: &BackupSourceFilters,
    internal_storage: &str,
    protected: &Vec<String>,
    aliases: &Vec<AliasedPaths>,
) -> (paths: Result<Vec<String>, SourceError>)
    ensures
        match (
            paths,
            source_paths(*seen, unnamed, *filters, internal_storage@, texts(protected@), aliases@),
        ) {
            (Ok(list), Ok(wanted)) => texts(list@) == wanted,
            (Err(a), Err(b)) => a == b,
            _ => false,
        },
{
    match seen {
        SourceSeen::Stack { project_name: _, swarm, run_directory, binds, run_device } => {
            if *swarm {
                return Err(SourceError::Swarm);
            }
            match validate_source_path(run_directory.as_str()) {
                Err(error) => {
                    return Err(error);
                },
                Ok(_) => {},
            }
            discover_stack_source(
                run_directory.as_str(),
                binds,
                *run_device,
                filters,
                internal_storage,
                protected,
                aliases,
            )
        },
        SourceSeen::Volume { volume_name: _, volume } => {
            if unnamed {
                return Err(SourceError::EmptyVolumeName);
            }
            match admit_volume(volume, filters) {
                Err(error) => {
                    return Err(error);
                },
                Ok(_) => {},
            }
            match admit_source(
                volume.mountpoint.as_str(),
                internal_storage,
                protected,
                aliases,
            ) {
                Err(error) => {
                    return Err(error);
                },
                Ok(_) => {},
            }
            let mut paths: Vec<String> = Vec::new();
            paths.push(volume.mountpoint.clone());
            assert(texts(paths@) =~= seq![volume.mountpoint@]);
            Ok(paths)
        },
    }
}

/// What is backed up, and the containers that use it.
pub fn discover_source(
    seen: &SourceSeen,
    docker: &DockerSeen,
    filters: &BackupSourceFilters,
    internal_storage: &str,
    protected_paths: &Vec<ProtectedRepositoryPath>,
    protected: &Vec<String>,
    aliases: &Vec<AliasedPaths>,
) -> (discovered: Result<DiscoverBackupSourceResponse, DiscoverError>)
    requires
        docker.mounts@.len() == docker.containers@.len(),
    ensures
        match source_paths(
            *seen,
            is_unnamed(*seen),
            *filters,
            internal_storage@,
            texts(protected@),
            aliases@,
        ) {
            Err(error) => discovered matches Err(DiscoverError::Source(found)) && found == error,
            Ok(paths) => match discovered {
                Ok(response) => {
                    &&& texts(response.paths@) == paths
                    &&& forall|i: int|
                        0 <= i < docker.containers@.len() ==> !containers::forbids(
                            #[trigger] docker.containers@[i],
                            target_of(*seen),
                            protected_paths@,
                        )
                    &&& texts(response.running_containers@) == in_order(
                        containers::affected_names(
                            docker.containers@,
                            docker.mounts@,
                            target_of(*seen),
                            text::held(docker.own_id),
                            containers::own_mounts_of(
                                docker.containers@,
                                docker.mounts@,
                                text::held(docker.own_id),
                            ),
                            paths,
                            protected_paths@,
                            aliases@,
                        ),
                    )
                },
                Err(DiscoverError::ProtectedContainer(name)) => containers::is_first_forbidding(
                    docker.containers@,
                    target_of(*seen),
                    protected_paths@,
                    name@,
                ),
                Err(DiscoverError::Source(_)) => false,
            },
        },
{
    let (target, unnamed) = match seen {
        SourceSeen::Stack { project_name, swarm: _, run_directory: _, binds: _, run_device: _ } => (
            PeripheryBackupTarget::Stack { project_name: project_name.clone() },
            false,
        ),
        SourceSeen::Volume { volume_name, volume: _ } => (
            PeripheryBackupTarget::Volume { volume_name: volume_name.clone() },
            is_blank(volume_name.as_str()),
        ),
    };
    let paths = match discover_paths(
        seen,
        unnamed,
        filters,
        internal_storage,
        protected,
        aliases,
    ) {
        Err(error) => {
            return Err(DiscoverError::Source(error));
        },
        Ok(paths) => paths,
    };
    match containers::affected_running_containers(
        &docker.containers,
        &docker.mounts,
        &target,
        &docker.own_id,
        &paths,
        protected_paths,
        aliases,
    ) {
        Err(name) => Err(DiscoverError::ProtectedContainer(name)),
        Ok(running_containers) => Ok(DiscoverBackupSourceResponse { paths, running_containers }),
    }
}

// ---------------------------------------------------------------------------
// Destinations
// ---------------------------------------------------------------------------

/// The path is absolute and does not go up.
pub open spec fn is_normalized(path: Seq<char>) -> bool {
    path::is_absolute_path(path) && !path::goes_up(path)
}

/// What a destination is refused for by its names alone.
pub open spec fn destination_refusal(destination: Seq<char>, root: Option<Seq<char>>) -> Option<
    SourceError,
> {
    if !is_normalized(destination) {
        Some(SourceError::NotNormalized)
    } else {
        match root {
            Some(confirmed) => if is_normalized(confirmed) && path::is_below(
                destination,
                confirmed,
            ) {
                None
            } else {
                Some(SourceError::OutsideRoot)
            },
            None => None,
        }
    }
}

/// There is a link or a file on the way: the first entry that is not a directory
/// is there.
pub open spec fn is_blocked(way: Seq<Standing>) -> bool
    decreases way.len(),
{
    if way.len() == 0 {
        false
    } else {
        match way[0] {
            Standing::Missing => false,
            Standing::Other => true,
            Standing::Directory => is_blocked(way.drop_first()),
        }
    }
}

/// Whether a restore may write to the destination. The way is what stands at
/// each directory above it, from the root of the filesystem on, not followed if
/// it is a link; the destination itself may be one.
pub fn validate_restore_destination_ancestors(item: &RestorePublishPath, way: &Vec<Standing>) -> (outcome:
    Result<(), SourceError>)
    ensures
        outcome == match destination_refusal(
            item.destination@,
            text::held(item.destination_root),
        ) {
            Some(error) => Err(error),
            None => if is_blocked(way@) {
                Err(SourceError::Traversal)
            } else {
                Ok(())
            },
        },
{
    if !path::path_is_absolute(item.destination.as_str()) || path::path_goes_up(
        item.destination.as_str(),
    ) {
        return Err(SourceError::NotNormalized);
    }
    match &item.destination_root {
        Some(root) => {
            if !path::path_is_absolute(root.as_str()) || path::path_goes_up(root.as_str())
                || !path::path_is_below(item.destination.as_str(), root.as_str()) {
                return Err(SourceError::OutsideRoot);
            }
        },
        None => {},
    }
    assert(way@.skip(0) =~= way@);
    for i in 0..way.len()
        invariant
            destination_refusal(item.destination@, text::held(item.destination_root)) is None,
            is_blocked(way@) == is_blocked(way@.skip(i as int)),
    {
        assert(way@.skip(i as int)[0] == way@[i as int]);
        assert(way@.skip(i as int).drop_first() =~= way@.skip(i + 1));
        match way[i] {
            Standing::Missing => {
                return Ok(());
            },
            Standing::Other => {
                return Err(SourceError::Traversal);
            },
            Standing::Directory => {},
        }
    }
    Ok(())
}

/// Two of the destinations overlap.
pub open spec fn any_two_overlap(publish: Seq<RestorePublishPath>, aliases: Seq<AliasedPaths>) -> bool {
    exists|i: int, j: int|
        0 <= i < j < publish.len() && overlaps(
            (#[trigger] publish[i]).destination@,
            (#[trigger] publish[j]).destination@,
            aliases,
        )
}

/// Why the destinations of a restore are refused, one after the other: by what
/// stands on the way, or by the program's own state.
pub open spec fn refused_destination(
    publish: Seq<RestorePublishPath>,
    ways: Seq<Vec<Standing>>,
    internal_storage: Seq<char>,
    aliases: Seq<AliasedPaths>,
) -> Option<SourceError>
    decreases publish.len(),
{
    if publish.len() == 0 {
        None
    } else {
        match refused_destination(publish.drop_last(), ways, internal_storage, aliases) {
            Some(error) => Some(error),
            None => {
                let item = publish.last();
                match destination_refusal(item.destination@, text::held(item.destination_root)) {
                    Some(error) => Some(error),
                    None => if is_blocked(ways[publish.len() - 1]@) {
                        Some(SourceError::Traversal)
                    } else if overlaps(item.destination@, internal_storage, aliases) {
                        Some(SourceError::InternalStorage)
                    } else {
                        None
                    },
                }
            },
        }
    }
}

proof fn lemma_refused_stays(
    publish: Seq<RestorePublishPath>,
    n: int,
    ways: Seq<Vec<Standing>>,
    internal_storage: Seq<char>,
    aliases: Seq<AliasedPaths>,
)
    requires
        0 <= n <= publish.len(),
        refused_destination(publish.take(n), ways, internal_storage, aliases) is Some,
    ensures
        refused_destination(publish, ways, internal_storage, aliases) == refused_destination(
            publish.take(n),
            ways,
            internal_storage,
            aliases,
        ),
    decreases publish.len(),
{
    if n == publish.len() {
        assert(publish.take(n) =~= publish);
    } else {
        assert(publish.drop_last().take(n) =~= publish.take(n));
        lemma_refused_stays(publish.drop_last(), n, ways, internal_storage, aliases);
    }
}

/// Whether a restore may write to its destinations. Each destination comes with
/// what stands on the way to it.
pub fn validate_resolved_restore_destinations(
    publish: &Vec<RestorePublishPath>,
    ways: &Vec<Vec<Standing>>,
    internal_storage: &str,
    aliases: &Vec<AliasedPaths>,
) -> (outcome: Result<(), SourceError>)
    requires
        ways@.len() == publish@.len(),
    ensures
        outcome == match refused_destination(publish@, ways@, internal_storage@, aliases@) {
            Some(error) => Err(error),
            None => if any_two_overlap(publish@, aliases@) {
                Err(SourceError::OverlappingDestinations)
            } else {
                Ok(())
            },
        },
{
    assert(publish@.take(0) =~= Seq::<RestorePublishPath>::empty());
    for i in 0..publish.len()
        invariant
            ways@.len() == publish@.len(),
            refused_destination(
                publish@.take(i as int),
                ways@,
                internal_storage@,
                aliases@,
            ) is None,
    {
        proof {
            let more = publish@.take(i + 1);
            assert(more.drop_last() =~= publish@.take(i as int));
            assert(more.last() == publish@[i as int]);
            if refused_destination(more, ways@, internal_storage@, aliases@) is Some {
                lemma_refused_stays(publish@, i + 1, ways@, internal_storage@, aliases@);
            }
        }
        match validate_restore_destination_ancestors(&publish[i], &ways[i]) {
            Err(error) => {
                return Err(error);
            },
            Ok(_) => {},
        }
        if containers::paths_overlap(publish[i].destination.as_str(), internal_storage, aliases) {
            return Err(SourceError::InternalStorage);
        }
    }
    assert(publish@.take(publish@.len() as int) =~= publish@);
    for i in 0..publish.len()
        invariant
            refused_destination(publish@, ways@, internal_storage@, aliases@) is None,
            forall|a: int, b: int|
                0 <= a < i && a < b < publish@.len() ==> !overlaps(
                    (#[trigger] publish@[a]).destination@,
                    (#[trigger] publish@[b]).destination@,
                    aliases@,
                ),
    {
        for j in i + 1..publish.len()
            invariant
                i < publish@.len(),
                refused_destination(publish@, ways@, internal_storage@, aliases@) is None,
                forall|b: int|
                    i < b < j ==> !overlaps(
                        publish@[i as int].destination@,
                        (#[trigger] publish@[b]).destination@,
                        aliases@,
                    ),
        {
            if containers::paths_overlap(
                publish[i].destination.as_str(),
                publish[j].destination.as_str(),
                aliases,
            ) {
                return Err(SourceError::OverlappingDestinations);
            }
        }
    }
    Ok(())
}

/// One of the destinations overlaps what belongs to the control plane.
pub open spec fn any_protected(
    publish: Seq<RestorePublishPath>,
    protected: Seq<Seq<char>>,
    aliases: Seq<AliasedPaths>,
) -> bool {
    exists|i: int|
        0 <= i < publish.len() && touches_protected(
            (#[trigger] publish[i]).destination@,
            protected,
            aliases,
        )
}

/// Whether a restore keeps away from what belongs to the control plane.
pub fn validate_restore_destinations(
    publish: &Vec<RestorePublishPath>,
    protected: &Vec<String>,
    aliases: &Vec<AliasedPaths>,
) -> (outcome: Result<(), SourceError>)
    ensures
        outcome == if any_protected(publish@, texts(protected@), aliases@) {
            Err(SourceError::Protected)
        } else {
            Ok(())
        },
{
    for i in 0..publish.len()
        invariant
            forall|j: int|
                0 <= j < i ==> !touches_protected(
                    (#[trigger] publish@[j]).destination@,
                    texts(protected@),
                    aliases@,
                ),
    {
        match validate_path_outside_protected_repositories(
            publish[i].destination.as_str(),
            protected,
            aliases,
        ) {
            Err(error) => {
                return Err(error);
            },
            Ok(_) => {},
        }
    }
    Ok(())
}

// ---------------------------------------------------------------------------
// Laws
// ---------------------------------------------------------------------------

/// No root lies below another one or overlaps the directory of the stack.
pub open spec fn roots_are_apart(
    roots: Seq<Seq<char>>,
    run_directory: Seq<char>,
    aliases: Seq<AliasedPaths>,
) -> bool {
    &&& forall|i: int, j: int|
        0 <= i < roots.len() && 0 <= j < roots.len() && i != j ==> !path::is_below(
            #[trigger] roots[i],
            #[trigger] roots[j],
        )
    &&& forall|i: int|
        0 <= i < roots.len() ==> !overlaps(run_directory, #[trigger] roots[i], aliases)
}

proof fn lemma_filtered(roots: Seq<Seq<char>>, bind: Seq<char>)
    ensures
        ({
            let kept = roots.filter(|root: Seq<char>| !path::is_below(root, bind));
            &&& forall|i: int|
                0 <= i < kept.len() ==> exists|k: int|
                    0 <= k < roots.len() && roots[k] == #[trigger] kept[i] && !path::is_below(
                        kept[i],
                        bind,
                    )
            &&& forall|i: int, j: int|
                #![trigger kept[i], kept[j]]
                0 <= i < j < kept.len() ==> exists|k: int, m: int|
                    0 <= k < m < roots.len() && roots[k] == kept[i] && roots[m] == kept[j]
            &&& forall|k: int|
                0 <= k < roots.len() && !path::is_below(roots[k], bind) ==> kept.contains(
                    #[trigger] roots[k],
                )
        }),
    decreases roots.len(),
{
    reveal(Seq::filter);
    let pred = |root: Seq<char>| !path::is_below(root, bind);
    let kept = roots.filter(pred);
    if roots.len() > 0 {
        let rest = roots.drop_last();
        lemma_filtered(rest, bind);
        let before = rest.filter(pred);
        assert forall|i: int| 0 <= i < kept.len() implies exists|k: int|
            0 <= k < roots.len() && roots[k] == #[trigger] kept[i] && !path::is_below(
                kept[i],
                bind,
            ) by {
            if i < before.len() {
                assert(kept[i] == before[i]);
                let k = choose|k: int|
                    0 <= k < rest.len() && rest[k] == before[i] && !path::is_below(
                        before[i],
                        bind,
                    );
                assert(roots[k] == kept[i]);
            } else {
                assert(roots[roots.len() - 1] == kept[i]);
            }
        }
        assert forall|i: int, j: int|
            #![trigger kept[i], kept[j]]
            0 <= i < j < kept.len() implies exists|k: int, m: int|
            0 <= k < m < roots.len() && roots[k] == kept[i] && roots[m] == kept[j] by {
            assert(kept[i] == before[i]);
            if j < before.len() {
                assert(kept[j] == before[j]);
                let (k, m) = choose|k: int, m: int|
                    0 <= k < m < rest.len() && rest[k] == before[i] && rest[m] == before[j];
                assert(roots[k] == kept[i] && roots[m] == kept[j]);
            } else {
                let k = choose|k: int|
                    0 <= k < rest.len() && rest[k] == before[i] && !path::is_below(
                        before[i],
                        bind,
                    );
                assert(roots[k] == kept[i] && roots[roots.len() - 1] == kept[j]);
            }
        }
        assert forall|k: int|
            0 <= k < roots.len() && !path::is_below(roots[k], bind) implies kept.contains(
            #[trigger] roots[k],
        ) by {
            if k < rest.len() {
                assert(roots[k] == rest[k]);
                assert(before.contains(rest[k]));
                let i = before.index_of(rest[k]);
                assert(kept[i] == before[i]);
            } else {
                assert(kept[kept.len() - 1] == roots[k]);
            }
        }
    }
}

proof fn lemma_bind_keeps_apart(
    roots: Seq<Seq<char>>,
    run_directory: Seq<char>,
    bind: Seq<char>,
    aliases: Seq<AliasedPaths>,
)
    requires
        roots_are_apart(roots, run_directory, aliases),
        after_bind(roots, run_directory, bind, aliases) is Ok,
    ensures
        roots_are_apart(
            after_bind(roots, run_directory, bind, aliases)->Ok_0,
            run_directory,
            aliases,
        ),
{
    if bind_fate(roots, run_directory, bind, aliases) == Ok::<BindFate, SourceError>(
        BindFate::Added,
    ) {
        let kept = roots.filter(|root: Seq<char>| !path::is_below(root, bind));
        let after = with_bind(roots, bind);
        lemma_filtered(roots, bind);
        assert(after =~= kept.push(bind));
        assert forall|i: int, j: int|
            0 <= i < after.len() && 0 <= j < after.len() && i != j implies !path::is_below(
            #[trigger] after[i],
            #[trigger] after[j],
        ) by {
            if i < kept.len() && j < kept.len() {
                assert(after[i] == kept[i] && after[j] == kept[j]);
                let (lo, hi) = if i < j {
                    (i, j)
                } else {
                    (j, i)
                };
                let (k, m) = choose|k: int, m: int|
                    0 <= k < m < roots.len() && roots[k] == kept[lo] && roots[m] == kept[hi];
                assert(!path::is_below(roots[k], roots[m]));
                assert(!path::is_below(roots[m], roots[k]));
            } else if i < kept.len() {
                assert(after[i] == kept[i] && after[j] == bind);
            } else {
                assert(after[i] == bind && after[j] == kept[j]);
                let k = choose|k: int|
                    0 <= k < roots.len() && roots[k] == kept[j] && !path::is_below(kept[j], bind);
                assert(!path::is_below(bind, roots[k]));
            }
        }
        assert forall|i: int| 0 <= i < after.len() implies !overlaps(
            run_directory,
            #[trigger] after[i],
            aliases,
        ) by {
            if i < kept.len() {
                assert(after[i] == kept[i]);
                let k = choose|k: int|
                    0 <= k < roots.len() && roots[k] == kept[i] && !path::is_below(kept[i], bind);
                assert(!overlaps(run_directory, roots[k], aliases));
            }
        }
    }
}

/// What is backed up of a stack can be restored in one go: no root lies below
/// another one, and none overlaps the directory of the stack.
pub proof fn bind_roots_do_not_nest(
    binds: Seq<SeenBind>,
    run_directory: Seq<char>,
    run_device: u64,
    filters: BackupSourceFilters,
    aliases: Seq<AliasedPaths>,
)
    requires
        bind_roots(binds, run_directory, run_device, filters, aliases) is Ok,
    ensures
        roots_are_apart(
            bind_roots(binds, run_directory, run_device, filters, aliases)->Ok_0,
            run_directory,
            aliases,
        ),
    decreases binds.len(),
{
    if binds.len() > 0 {
        let rest = binds.drop_last();
        bind_roots_do_not_nest(rest, run_directory, run_device, filters, aliases);
        let roots = bind_roots(rest, run_directory, run_device, filters, aliases)->Ok_0;
        if is_selected(binds.last(), filters, run_device) {
            lemma_bind_keeps_apart(roots, run_directory, binds.last().path@, aliases);
        }
    }
}

/// The path is backed up: with the directory of the stack or with a root.
pub open spec fn is_backed_up(
    path: Seq<char>,
    run_directory: Seq<char>,
    roots: Seq<Seq<char>>,
) -> bool {
    path::is_below(path, run_directory) || is_covered(path, roots)
}

proof fn lemma_bind_keeps_backed_up(
    roots: Seq<Seq<char>>,
    run_directory: Seq<char>,
    bind: Seq<char>,
    aliases: Seq<AliasedPaths>,
    path: Seq<char>,
)
    requires
        after_bind(roots, run_directory, bind, aliases) is Ok,
    ensures
        is_backed_up(path, run_directory, roots) ==> is_backed_up(
            path,
            run_directory,
            after_bind(roots, run_directory, bind, aliases)->Ok_0,
        ),
        is_backed_up(
            bind,
            run_directory,
            after_bind(roots, run_directory, bind, aliases)->Ok_0,
        ),
{
    if bind_fate(roots, run_directory, bind, aliases) == Ok::<BindFate, SourceError>(
        BindFate::Added,
    ) {
        let kept = roots.filter(|root: Seq<char>| !path::is_below(root, bind));
        let after = with_bind(roots, bind);
        lemma_filtered(roots, bind);
        assert(after =~= kept.push(bind));
        assert(after[after.len() - 1] == bind);
        path::lemma_below_itself(bind);
        if is_covered(path, roots) {
            let i = choose|i: int| 0 <= i < roots.len() && path::is_below(path, #[trigger] roots[i]);
            if path::is_below(roots[i], bind) {
                path::lemma_below_transitive(path, roots[i], bind);
            } else {
                assert(kept.contains(roots[i]));
                let k = kept.index_of(roots[i]);
                assert(after[k] == roots[i]);
            }
        }
    }
}

/// Nothing that was selected is left out: each selected bind mount lies in the
/// directory of the stack or in one of the roots.
pub proof fn selected_binds_are_backed_up(
    binds: Seq<SeenBind>,
    run_directory: Seq<char>,
    run_device: u64,
    filters: BackupSourceFilters,
    aliases: Seq<AliasedPaths>,
    i: int,
)
    requires
        bind_roots(binds, run_directory, run_device, filters, aliases) is Ok,
        0 <= i < binds.len(),
        is_selected(binds[i], filters, run_device),
    ensures
        is_backed_up(
            binds[i].path@,
            run_directory,
            bind_roots(binds, run_directory, run_device, filters, aliases)->Ok_0,
        ),
    decreases binds.len(),
{
    let rest = binds.drop_last();
    let roots = bind_roots(rest, run_directory, run_device, filters, aliases)->Ok_0;
    if i < rest.len() {
        selected_binds_are_backed_up(rest, run_directory, run_device, filters, aliases, i);
        if is_selected(binds.last(), filters, run_device) {
            lemma_bind_keeps_backed_up(
                roots,
                run_directory,
                binds.last().path@,
                aliases,
                binds[i].path@,
            );
        }
    } else {
        lemma_bind_keeps_backed_up(
            roots,
            run_directory,
            binds.last().path@,
            aliases,
            binds[i].path@,
        );
    }
}

/// What is backed up of a stack never overlaps the program's own state or what
/// belongs to the control plane.
pub proof fn discovered_sources_keep_away(
    run_directory: Seq<char>,
    binds: Seq<SeenBind>,
    run_device: u64,
    filters: BackupSourceFilters,
    internal_storage: Seq<char>,
    protected: Seq<Seq<char>>,
    aliases: Seq<AliasedPaths>,
    i: int,
)
    requires
        stack_sources(
            run_directory,
            binds,
            run_device,
            filters,
            internal_storage,
            protected,
            aliases,
        ) is Ok,
        0 <= i < stack_sources(
            run_directory,
            binds,
            run_device,
            filters,
            internal_storage,
            protected,
            aliases,
        )->Ok_0.len(),
    ensures
        ({
            let source = stack_sources(
                run_directory,
                binds,
                run_device,
                filters,
                internal_storage,
                protected,
                aliases,
            )->Ok_0[i];
            !overlaps(source, internal_storage, aliases) && !touches_protected(
                source,
                protected,
                aliases,
            )
        }),
{
    let all = stack_sources(
        run_directory,
        binds,
        run_device,
        filters,
        internal_storage,
        protected,
        aliases,
    )->Ok_0;
    lemma_none_refused(all, internal_storage, protected, aliases, i);
}

proof fn lemma_none_refused(
    paths: Seq<Seq<char>>,
    internal_storage: Seq<char>,
    protected: Seq<Seq<char>>,
    aliases: Seq<AliasedPaths>,
    i: int,
)
    requires
        first_refusal(paths, internal_storage, protected, aliases) is None,
        0 <= i < paths.len(),
    ensures
        path_refusal(paths[i], internal_storage, protected, aliases) is None,
    decreases paths.len(),
{
    if i > 0 {
        lemma_none_refused(paths.drop_first(), internal_storage, protected, aliases, i - 1);
    }
}

/// The bind mount passes the filters: no exclude pattern names it, an include
/// pattern does if there are any, and it lies on the filesystem of the stack unless
/// others are asked for.
pub open spec fn passes_the_filters(
    bind: SeenBind,
    filters: BackupSourceFilters,
    run_device: u64,
) -> bool {
    &&& !bind.excluded
    &&& filters.bind_mount_include_patterns@.len() > 0 ==> bind.included
    &&& !filters.include_cross_filesystem_mounts ==> bind.device == run_device
}

/// What is backed up besides the directory of a stack are bind mounts of it that
/// pass the filters, and every one that does is backed up, by itself or with what
/// lies above it.
pub proof fn just_the_filtered_binds_are_backed_up(
    binds: Seq<SeenBind>,
    run_directory: Seq<char>,
    run_device: u64,
    filters: BackupSourceFilters,
    aliases: Seq<AliasedPaths>,
)
    requires
        bind_roots(binds, run_directory, run_device, filters, aliases) is Ok,
    ensures
        ({
            let roots = bind_roots(binds, run_directory, run_device, filters, aliases)->Ok_0;
            &&& forall|k: int|
                0 <= k < roots.len() ==> exists|i: int|
                    0 <= i < binds.len() && (#[trigger] binds[i]).path@ == #[trigger] roots[k]
                        && passes_the_filters(binds[i], filters, run_device)
            &&& forall|i: int|
                0 <= i < binds.len() && passes_the_filters(
                    #[trigger] binds[i],
                    filters,
                    run_device,
                ) ==> path::is_below(binds[i].path@, run_directory) || exists|k: int|
                    0 <= k < roots.len() && path::is_below(binds[i].path@, #[trigger] roots[k])
        }),
    decreases binds.len(),
{
    let roots = bind_roots(binds, run_directory, run_device, filters, aliases)->Ok_0;
    assert forall|i: int|
        0 <= i < binds.len() && passes_the_filters(
            #[trigger] binds[i],
            filters,
            run_device,
        ) implies path::is_below(binds[i].path@, run_directory) || exists|k: int|
        0 <= k < roots.len() && path::is_below(binds[i].path@, #[trigger] roots[k]) by {
        selected_binds_are_backed_up(binds, run_directory, run_device, filters, aliases, i);
    }
    if binds.len() > 0 {
        let rest = binds.drop_last();
        let n = rest.len() as int;
        let before = bind_roots(rest, run_directory, run_device, filters, aliases)->Ok_0;
        just_the_filtered_binds_are_backed_up(rest, run_directory, run_device, filters, aliases);
        assert forall|k: int| 0 <= k < roots.len() implies exists|i: int|
            0 <= i < binds.len() && (#[trigger] binds[i]).path@ == #[trigger] roots[k]
                && passes_the_filters(binds[i], filters, run_device) by {
            if before.contains(roots[k]) {
                let m = before.index_of(roots[k]);
                assert(before[m] == roots[k]);
                let i = choose|i: int|
                    0 <= i < rest.len() && (#[trigger] rest[i]).path@ == before[m]
                        && passes_the_filters(rest[i], filters, run_device);
                assert(binds[i] == rest[i]);
            } else {
                let keep = |root: Seq<char>| !path::is_below(root, binds.last().path@);
                if is_selected(binds.last(), filters, run_device) && roots != before {
                    let kept = before.filter(keep);
                    assert(roots == kept.push(binds.last().path@));
                    if k < kept.len() {
                        before.filter_lemma(keep);
                        assert(kept[k] == roots[k]);
                        assert(before.contains(kept[k])) by {
                            before.lemma_filter_contains_rev(keep, kept[k]);
                        }
                    }
                    assert(binds[n].path@ == roots[k]);
                } else {
                    assert(roots == before);
                    assert(before[k] == roots[k]);
                }
            }
        }
    }
}

/// The sources of a stack begin with its directory; behind it come its other roots
/// and nothing else.
pub proof fn stacks_are_backed_up_with_their_directory(
    run_directory: Seq<char>,
    binds: Seq<SeenBind>,
    run_device: u64,
    filters: BackupSourceFilters,
    internal_storage: Seq<char>,
    protected: Seq<Seq<char>>,
    aliases: Seq<AliasedPaths>,
)
    requires
        stack_sources(
            run_directory,
            binds,
            run_device,
            filters,
            internal_storage,
            protected,
            aliases,
        ) is Ok,
    ensures
        ({
            let sources = stack_sources(
                run_directory,
                binds,
                run_device,
                filters,
                internal_storage,
                protected,
                aliases,
            )->Ok_0;
            &&& sources.len() > 0
            &&& sources[0] == run_directory
            &&& bind_roots(binds, run_directory, run_device, filters, aliases) is Ok
            &&& sources.skip(1) == paths_in_order(
                bind_roots(binds, run_directory, run_device, filters, aliases)->Ok_0,
            )
        }),
{
    let roots = bind_roots(binds, run_directory, run_device, filters, aliases)->Ok_0;
    let all = seq![run_directory] + paths_in_order(roots);
    assert(all.skip(1) =~= paths_in_order(roots));
}

proof fn lemma_no_refusal(
    paths: Seq<Seq<char>>,
    internal_storage: Seq<char>,
    protected: Seq<Seq<char>>,
    aliases: Seq<AliasedPaths>,
)
    ensures
        first_refusal(paths, internal_storage, protected, aliases) is None <==> forall|i: int|
            0 <= i < paths.len() ==> path_refusal(
                #[trigger] paths[i],
                internal_storage,
                protected,
                aliases,
            ) is None,
    decreases paths.len(),
{
    if paths.len() > 0 {
        let rest = paths.drop_first();
        lemma_no_refusal(rest, internal_storage, protected, aliases);
        if first_refusal(paths, internal_storage, protected, aliases) is None {
            assert forall|i: int| 0 <= i < paths.len() implies path_refusal(
                #[trigger] paths[i],
                internal_storage,
                protected,
                aliases,
            ) is None by {
                if i > 0 {
                    assert(rest[i - 1] == paths[i]);
                }
            }
        } else if forall|i: int|
            0 <= i < paths.len() ==> path_refusal(
                #[trigger] paths[i],
                internal_storage,
                protected,
                aliases,
            ) is None {
            assert(path_refusal(paths[0], internal_storage, protected, aliases) is None);
            assert forall|i: int| 0 <= i < rest.len() implies path_refusal(
                #[trigger] rest[i],
                internal_storage,
                protected,
                aliases,
            ) is None by {
                assert(rest[i] == paths[i + 1]);
            }
        }
    }
}

/// A stack whose directory and roots keep away from the state of backups and from
/// what is protected is not refused.
pub proof fn harmless_stacks_are_backed_up(
    run_directory: Seq<char>,
    binds: Seq<SeenBind>,
    run_device: u64,
    filters: BackupSourceFilters,
    internal_storage: Seq<char>,
    protected: Seq<Seq<char>>,
    aliases: Seq<AliasedPaths>,
)
    requires
        bind_roots(binds, run_directory, run_device, filters, aliases) is Ok,
        forall|path: Seq<char>|
            path == run_directory || paths_in_order(
                bind_roots(binds, run_directory, run_device, filters, aliases)->Ok_0,
            ).contains(path) ==> !(#[trigger] overlaps(path, internal_storage, aliases)),
        forall|path: Seq<char>, k: int|
            (path == run_directory || paths_in_order(
                bind_roots(binds, run_directory, run_device, filters, aliases)->Ok_0,
            ).contains(path)) && 0 <= k < protected.len() ==> !(#[trigger] overlaps(
                path,
                protected[k],
                aliases,
            )),
    ensures
        stack_sources(
            run_directory,
            binds,
            run_device,
            filters,
            internal_storage,
            protected,
            aliases,
        ) is Ok,
{
    let ordered = paths_in_order(
        bind_roots(binds, run_directory, run_device, filters, aliases)->Ok_0,
    );
    let all = seq![run_directory] + ordered;
    lemma_no_refusal(all, internal_storage, protected, aliases);
    assert forall|i: int| 0 <= i < all.len() implies path_refusal(
        #[trigger] all[i],
        internal_storage,
        protected,
        aliases,
    ) is None by {
        if i > 0 {
            assert(ordered[i - 1] == all[i]);
            assert(ordered.contains(all[i]));
        }
        assert(!overlaps(all[i], internal_storage, aliases));
    }
}

/// The text holds no separator of keys.
pub open spec fn is_plain_path(path: Seq<char>) -> bool {
    forall|i: int| 0 <= i < path.len() ==> #[trigger] path[i] != '\0'
}

proof fn lemma_key_and_back(path: Seq<char>)
    requires
        is_plain_path(path),
    ensures
        key_path(path_key(path)) == path,
{
    assert(key_path(path_key(path)) =~= path);
}

/// Putting paths in order keeps just the paths that are there, each once.
pub proof fn ordering_keeps_the_paths(paths: Seq<Seq<char>>, path: Seq<char>)
    requires
        forall|i: int| 0 <= i < paths.len() ==> is_plain_path(#[trigger] paths[i]),
    ensures
        paths_in_order(paths).contains(path) <==> paths.contains(path),
        paths_in_order(paths).no_duplicates(),
{
    let keys = paths.map_values(|path: Seq<char>| path_key(path));
    let sorted = in_order(keys);
    let ordered = paths_in_order(paths);
    text::lemma_order_exists(keys);
    assert forall|k: int| 0 <= k < sorted.len() implies exists|i: int|
        0 <= i < paths.len() && #[trigger] paths[i] == ordered[k] && path_key(paths[i])
            == #[trigger] sorted[k] by {
        assert(keys.contains(sorted[k]));
        let i = keys.index_of(sorted[k]);
        lemma_key_and_back(paths[i]);
        assert(paths[i] == ordered[k]);
    }
    if ordered.contains(path) {
        let k = ordered.index_of(path);
        assert(sorted[k] == sorted[k]);
        let i = choose|i: int|
            0 <= i < paths.len() && #[trigger] paths[i] == ordered[k] && path_key(paths[i])
                == sorted[k];
        assert(paths[i] == path);
    }
    if paths.contains(path) {
        let i = paths.index_of(path);
        assert(keys[i] == path_key(path));
        assert(keys.contains(path_key(path)));
        assert(sorted.contains(path_key(path)));
        let k = sorted.index_of(path_key(path));
        lemma_key_and_back(path);
        assert(ordered[k] == path);
    }
    assert forall|a: int, b: int| 0 <= a < ordered.len() && 0 <= b < ordered.len() && a
        != b implies ordered[a] != ordered[b] by {
        assert(sorted[a] == sorted[a] && sorted[b] == sorted[b]);
        let i = choose|i: int|
            0 <= i < paths.len() && #[trigger] paths[i] == ordered[a] && path_key(paths[i])
                == sorted[a];
        let j = choose|j: int|
            0 <= j < paths.len() && #[trigger] paths[j] == ordered[b] && path_key(paths[j])
                == sorted[b];
        if ordered[a] == ordered[b] {
            assert(paths[i] == paths[j]);
            if a < b {
                assert(text::text_less(sorted[a], sorted[b]));
                text::lemma_text_order(sorted[a], sorted[b]);
            } else {
                assert(text::text_less(sorted[b], sorted[a]));
                text::lemma_text_order(sorted[b], sorted[a]);
            }
        }
    }
}

proof fn lemma_absolute_sources(paths: Seq<Seq<char>>)
    ensures
        absolute_sources(paths) is Ok <==> forall|i: int|
            0 <= i < paths.len() ==> path::is_absolute_path(#[trigger] paths[i]),
        absolute_sources(paths) matches Ok(all) ==> all == paths,
    decreases paths.len(),
{
    if paths.len() > 0 {
        let rest = paths.drop_first();
        lemma_absolute_sources(rest);
        assert(seq![paths[0]] + rest =~= paths);
        if absolute_sources(paths) is Ok {
            assert forall|i: int| 0 <= i < paths.len() implies path::is_absolute_path(
                #[trigger] paths[i],
            ) by {
                if i > 0 {
                    assert(rest[i - 1] == paths[i]);
                }
            }
        } else if forall|i: int|
            0 <= i < paths.len() ==> path::is_absolute_path(#[trigger] paths[i]) {
            assert(path::is_absolute_path(paths[0]));
            assert forall|i: int| 0 <= i < rest.len() implies path::is_absolute_path(
                #[trigger] rest[i],
            ) by {
                assert(rest[i] == paths[i + 1]);
            }
        }
    } else {
        assert(paths =~= Seq::<Seq<char>>::empty());
    }
}

/// The mount is a bind mount of the path.
pub open spec fn binds_path(mount: MountPoint, path: Seq<char>) -> bool {
    text::held(mount.typ) == Some("bind"@) && text::held(mount.source) == Some(path)
}

proof fn lemma_mount_sources(mounts: Seq<MountPoint>, path: Seq<char>)
    requires
        mount_sources(mounts) is Ok,
    ensures
        mount_sources(mounts)->Ok_0.contains(path) <==> exists|m: int|
            0 <= m < mounts.len() && binds_path(#[trigger] mounts[m], path),
    decreases mounts.len(),
{
    let all = mount_sources(mounts)->Ok_0;
    if mounts.len() > 0 {
        let rest = mounts.drop_first();
        let one = mount_source(mounts[0])->Ok_0;
        let more = mount_sources(rest)->Ok_0;
        lemma_mount_sources(rest, path);
        assert(all == one + more);
        assert(one.contains(path) <==> binds_path(mounts[0], path)) by {
            if binds_path(mounts[0], path) {
                assert(one[0] == path);
            }
        }
        if one.contains(path) {
            let k = one.index_of(path);
            assert(all[k] == path);
        }
        if more.contains(path) {
            let k = more.index_of(path);
            assert(all[one.len() + k] == path);
            let m = choose|m: int| 0 <= m < rest.len() && binds_path(#[trigger] rest[m], path);
            assert(mounts[m + 1] == rest[m]);
        }
        if all.contains(path) {
            let k = all.index_of(path);
            if k < one.len() {
                assert(one[k] == path);
            } else {
                assert(more[k - one.len()] == path);
            }
        }
        if exists|m: int| 0 <= m < mounts.len() && binds_path(#[trigger] mounts[m], path) {
            let m = choose|m: int|
                0 <= m < mounts.len() && binds_path(#[trigger] mounts[m], path);
            if m > 0 {
                assert(rest[m - 1] == mounts[m]);
            }
        }
    }
}

/// One of the containers of the project has a bind mount of the path.
pub open spec fn is_bound_in_project(
    project_name: Seq<char>,
    containers: Seq<ContainerListItem>,
    mounts: Seq<Vec<MountPoint>>,
    path: Seq<char>,
) -> bool {
    exists|c: int, m: int|
        0 <= c < containers.len() && label_of(
            containers[c].labels@,
            "com.docker.compose.project"@,
        ) == Some(project_name) && 0 <= m < mounts[c]@.len() && binds_path(
            #[trigger] mounts[c]@[m],
            path,
        )
}

proof fn lemma_project_sources(
    project_name: Seq<char>,
    containers: Seq<ContainerListItem>,
    mounts: Seq<Vec<MountPoint>>,
    path: Seq<char>,
)
    requires
        mounts.len() == containers.len(),
        project_sources(project_name, containers, mounts) is Ok,
    ensures
        project_sources(project_name, containers, mounts)->Ok_0.contains(path)
            <==> is_bound_in_project(project_name, containers, mounts, path),
    decreases containers.len(),
{
    let all = project_sources(project_name, containers, mounts)->Ok_0;
    if containers.len() > 0 {
        let rest = containers.drop_first();
        let others = mounts.drop_first();
        let more = project_sources(project_name, rest, others)->Ok_0;
        lemma_project_sources(project_name, rest, others, path);
        let own = label_of(containers[0].labels@, "com.docker.compose.project"@) == Some(
            project_name,
        );
        if is_bound_in_project(project_name, rest, others, path) {
            let (c, m) = choose|c: int, m: int|
                0 <= c < rest.len() && label_of(
                    rest[c].labels@,
                    "com.docker.compose.project"@,
                ) == Some(project_name) && 0 <= m < others[c]@.len() && binds_path(
                    #[trigger] others[c]@[m],
                    path,
                );
            assert(containers[c + 1] == rest[c]);
            assert(binds_path(mounts[c + 1]@[m], path));
        }
        if is_bound_in_project(project_name, containers, mounts, path) {
            let (c, m) = choose|c: int, m: int|
                0 <= c < containers.len() && label_of(
                    containers[c].labels@,
                    "com.docker.compose.project"@,
                ) == Some(project_name) && 0 <= m < mounts[c]@.len() && binds_path(
                    #[trigger] mounts[c]@[m],
                    path,
                );
            if c > 0 {
                assert(rest[c - 1] == containers[c]);
                assert(binds_path(others[c - 1]@[m], path));
            }
        }
        if own {
            let some = mount_sources(mounts[0]@)->Ok_0;
            lemma_mount_sources(mounts[0]@, path);
            assert(all == some + more);
            if some.contains(path) {
                let k = some.index_of(path);
                assert(all[k] == path);
                let m = choose|m: int|
                    0 <= m < mounts[0]@.len() && binds_path(#[trigger] mounts[0]@[m], path);
                assert(binds_path(mounts[0]@[m], path));
            }
            if more.contains(path) {
                let k = more.index_of(path);
                assert(all[some.len() + k] == path);
            }
            if all.contains(path) {
                let k = all.index_of(path);
                if k < some.len() {
                    assert(some[k] == path);
                } else {
                    assert(more[k - some.len()] == path);
                }
            }
        }
    }
}

/// The binds of a stack are those that its services name, seen from its directory,
/// and those that its containers really have: all of both, and no others.
pub proof fn stacks_name_all_their_binds(
    project_name: Seq<char>,
    containers: Seq<ContainerListItem>,
    mounts: Seq<Vec<MountPoint>>,
    services: Seq<BackupComposeService>,
    run_directory: Seq<char>,
    path: Seq<char>,
)
    requires
        mounts.len() == containers.len(),
        named_binds(project_name, containers, mounts, services, run_directory) is Ok,
    ensures
        named_binds(project_name, containers, mounts, services, run_directory)->Ok_0.contains(path)
            <==> is_bound_in_project(project_name, containers, mounts, path) || exists|k: int|
            0 <= k < compose::service_sources(services).len() && path::joined(
                run_directory,
                #[trigger] compose::service_sources(services)[k],
            ) == path,
{
    let sources = compose::service_sources(services);
    let written = sources.map_values(|source: Seq<char>| path::joined(run_directory, source));
    let held = project_sources(project_name, containers, mounts)->Ok_0;
    let all = named_binds(project_name, containers, mounts, services, run_directory)->Ok_0;
    lemma_absolute_sources(written);
    lemma_project_sources(project_name, containers, mounts, path);
    assert(all == written + held);
    if written.contains(path) {
        let k = written.index_of(path);
        assert(all[k] == path);
        assert(path::joined(run_directory, sources[k]) == path);
    }
    if exists|k: int|
        0 <= k < sources.len() && path::joined(run_directory, #[trigger] sources[k]) == path {
        let k = choose|k: int|
            0 <= k < sources.len() && path::joined(run_directory, #[trigger] sources[k]) == path;
        assert(written[k] == path);
        assert(all[k] == path);
    }
    if held.contains(path) {
        let k = held.index_of(path);
        assert(all[written.len() + k] == path);
    }
    if all.contains(path) {
        let k = all.index_of(path);
        if k < written.len() {
            assert(written[k] == path);
        } else {
            assert(held[k - written.len()] == path);
        }
    }
}

proof fn lemma_mapped_paths(
    container: ContainerListItem,
    protected_paths: Seq<ProtectedRepositoryPath>,
    destination: Seq<char>,
    source: Seq<char>,
    k: int,
)
    requires
        0 <= k < protected_paths.len(),
        has_id(container, protected_paths[k].core_container_id@),
        through_mount(protected_paths[k].path@, destination, source) is Some,
    ensures
        mapped_paths(container, protected_paths, destination, source).contains(
            through_mount(protected_paths[k].path@, destination, source)->Some_0,
        ),
    decreases protected_paths.len(),
{
    let rest = protected_paths.drop_last();
    let all = mapped_paths(container, protected_paths, destination, source);
    let before = mapped_paths(container, rest, destination, source);
    let found = through_mount(protected_paths[k].path@, destination, source)->Some_0;
    if k < rest.len() {
        lemma_mapped_paths(container, rest, destination, source, k);
        let j = before.index_of(found);
        assert(all[j] == found);
    } else {
        assert(all[before.len() as int] == found);
    }
}

proof fn lemma_protected_by_mounts(
    container: ContainerListItem,
    mounts: Seq<MountPoint>,
    protected_paths: Seq<ProtectedRepositoryPath>,
    m: int,
    path: Seq<char>,
)
    requires
        0 <= m < mounts.len(),
        protected_by_mount(container, mounts[m], protected_paths).contains(path),
    ensures
        protected_by_mounts(container, mounts, protected_paths).contains(path),
    decreases mounts.len(),
{
    let rest = mounts.drop_last();
    let all = protected_by_mounts(container, mounts, protected_paths);
    let before = protected_by_mounts(container, rest, protected_paths);
    if m < rest.len() {
        lemma_protected_by_mounts(container, rest, protected_paths, m, path);
        let j = before.index_of(path);
        assert(all[j] == path);
    } else {
        let last = protected_by_mount(container, mounts[m], protected_paths);
        let j = last.index_of(path);
        assert(all[before.len() + j] == path);
    }
}

proof fn lemma_host_sources(
    containers: Seq<ContainerListItem>,
    mounts: Seq<Vec<MountPoint>>,
    protected_paths: Seq<ProtectedRepositoryPath>,
    skipped_too: bool,
    own_id: Option<Seq<char>>,
    c: int,
    path: Seq<char>,
)
    requires
        0 <= c < containers.len(),
        is_guarded(containers[c], protected_paths, skipped_too, own_id),
        protected_by_mounts(containers[c], mounts[c]@, protected_paths).contains(path),
    ensures
        host_sources(containers, mounts, protected_paths, skipped_too, own_id).contains(path),
    decreases containers.len(),
{
    let rest = containers.drop_last();
    let all = host_sources(containers, mounts, protected_paths, skipped_too, own_id);
    let before = host_sources(rest, mounts, protected_paths, skipped_too, own_id);
    if c < rest.len() {
        lemma_host_sources(rest, mounts, protected_paths, skipped_too, own_id, c, path);
        let j = before.index_of(path);
        assert(all[j] == path);
    } else {
        let last = protected_by_mounts(containers[c], mounts[c]@, protected_paths);
        let j = last.index_of(path);
        assert(all[before.len() + j] == path);
    }
}

/// What belongs to the control plane is protected wherever the host keeps it: for
/// every protected path, and every bind or volume mount of its container through
/// which it is found, the place on the host is protected.
pub proof fn protected_paths_are_protected_on_the_host(
    containers: Seq<ContainerListItem>,
    mounts: Seq<Vec<MountPoint>>,
    protected_paths: Seq<ProtectedRepositoryPath>,
    skipped_too: bool,
    own_id: Option<Seq<char>>,
    c: int,
    m: int,
    k: int,
)
    requires
        0 <= c < containers.len(),
        0 <= m < mounts[c]@.len(),
        0 <= k < protected_paths.len(),
        has_id(containers[c], protected_paths[k].core_container_id@),
        text::held(mounts[c]@[m].typ) == Some("bind"@) || text::held(mounts[c]@[m].typ) == Some(
            "volume"@,
        ),
        mounts[c]@[m].source is Some,
        mounts[c]@[m].destination is Some,
        through_mount(
            protected_paths[k].path@,
            mounts[c]@[m].destination->Some_0@,
            mounts[c]@[m].source->Some_0@,
        ) is Some,
    ensures
        host_sources(containers, mounts, protected_paths, skipped_too, own_id).contains(
            through_mount(
                protected_paths[k].path@,
                mounts[c]@[m].destination->Some_0@,
                mounts[c]@[m].source->Some_0@,
            )->Some_0,
        ),
{
    let mount = mounts[c]@[m];
    let destination = mount.destination->Some_0@;
    let source = mount.source->Some_0@;
    let found = through_mount(protected_paths[k].path@, destination, source)->Some_0;
    assert(is_core(containers[c], protected_paths));
    lemma_mapped_paths(containers[c], protected_paths, destination, source, k);
    assert(protected_by_mount(containers[c], mount, protected_paths).contains(found));
    lemma_protected_by_mounts(containers[c], mounts[c]@, protected_paths, m, found);
    lemma_host_sources(containers, mounts, protected_paths, skipped_too, own_id, c, found);
}

/// All files of a container that is marked to be left alone are protected, where
/// such containers count.
pub proof fn mounts_of_skipped_containers_are_protected(
    containers: Seq<ContainerListItem>,
    mounts: Seq<Vec<MountPoint>>,
    protected_paths: Seq<ProtectedRepositoryPath>,
    own_id: Option<Seq<char>>,
    c: int,
    m: int,
)
    requires
        0 <= c < containers.len(),
        0 <= m < mounts[c]@.len(),
        is_skipped(containers[c]),
        !is_core(containers[c], protected_paths),
        own_id matches Some(own) ==> !has_id(containers[c], own),
        text::held(mounts[c]@[m].typ) == Some("bind"@) || text::held(mounts[c]@[m].typ) == Some(
            "volume"@,
        ),
        mounts[c]@[m].source is Some,
        mounts[c]@[m].destination is Some,
    ensures
        host_sources(containers, mounts, protected_paths, true, own_id).contains(
            mounts[c]@[m].source->Some_0@,
        ),
{
    let mount = mounts[c]@[m];
    let source = mount.source->Some_0@;
    let protection = protected_by_mount(containers[c], mount, protected_paths);
    assert(protection[0] == source);
    lemma_protected_by_mounts(containers[c], mounts[c]@, protected_paths, m, source);
    lemma_host_sources(containers, mounts, protected_paths, true, own_id, c, source);
}

/// A destination of a restore may be written: it is a normalized absolute path
/// inside the root that was confirmed, only directories stand on the way to it, and
/// it keeps away from the state of backups.
pub open spec fn may_be_written(
    item: RestorePublishPath,
    way: Seq<Standing>,
    internal_storage: Seq<char>,
    aliases: Seq<AliasedPaths>,
) -> bool {
    &&& path::is_absolute_path(item.destination@) && !path::goes_up(item.destination@)
    &&& item.destination_root matches Some(root) ==> path::is_absolute_path(root@)
        && !path::goes_up(root@) && path::is_below(item.destination@, root@)
    &&& !is_blocked(way)
    &&& !overlaps(item.destination@, internal_storage, aliases)
}

/// A way is blocked exactly when what stands first on it, behind nothing but
/// directories, is something else than a directory.
pub proof fn ways_are_blocked_by_what_stands_on_them(way: Seq<Standing>, i: int)
    requires
        0 <= i <= way.len(),
        forall|j: int| 0 <= j < i ==> #[trigger] way[j] == Standing::Directory,
        i < way.len() ==> way[i] != Standing::Directory,
    ensures
        is_blocked(way) <==> i < way.len() && way[i] == Standing::Other,
    decreases way.len(),
{
    if i > 0 {
        let rest = way.drop_first();
        assert(way[0] == Standing::Directory);
        assert forall|j: int| 0 <= j < i - 1 implies #[trigger] rest[j] == Standing::Directory by {
            assert(rest[j] == way[j + 1]);
        }
        ways_are_blocked_by_what_stands_on_them(rest, i - 1);
    }
}

/// The destinations of a restore are accepted exactly when every one of them may be
/// written.
pub proof fn every_destination_is_looked_at(
    publish: Seq<RestorePublishPath>,
    ways: Seq<Vec<Standing>>,
    internal_storage: Seq<char>,
    aliases: Seq<AliasedPaths>,
)
    ensures
        refused_destination(publish, ways, internal_storage, aliases) is None <==> forall|i: int|
            0 <= i < publish.len() ==> may_be_written(
                #[trigger] publish[i],
                ways[i]@,
                internal_storage,
                aliases,
            ),
    decreases publish.len(),
{
    if publish.len() > 0 {
        let rest = publish.drop_last();
        let n = rest.len() as int;
        every_destination_is_looked_at(rest, ways, internal_storage, aliases);
        assert forall|i: int| 0 <= i < n implies #[trigger] publish[i] == rest[i] by {}
        if refused_destination(publish, ways, internal_storage, aliases) is None {
            assert forall|i: int| 0 <= i < publish.len() implies may_be_written(
                #[trigger] publish[i],
                ways[i]@,
                internal_storage,
                aliases,
            ) by {
                if i < n {
                    assert(rest[i] == publish[i]);
                }
            }
        } else if forall|i: int|
            0 <= i < publish.len() ==> may_be_written(
                #[trigger] publish[i],
                ways[i]@,
                internal_storage,
                aliases,
            ) {
            assert(may_be_written(publish[n], ways[n]@, internal_storage, aliases));
            assert forall|i: int| 0 <= i < rest.len() implies may_be_written(
                #[trigger] rest[i],
                ways[i]@,
                internal_storage,
                aliases,
            ) by {
                assert(rest[i] == publish[i]);
            }
        }
    }
}

} // verus!
