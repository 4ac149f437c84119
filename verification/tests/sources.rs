//! What is backed up, and which containers use it.

use periphery::backup::compose::BackupComposeService;
use periphery::backup::compose::BackupComposeMount;
use periphery::backup::sources::resolved_binds;
use periphery::backup::sources::stack_binds;
use periphery::backup::containers::affected_running_containers;
use periphery::backup::containers::container_command;
use periphery::backup::containers::container_is_quiesce_candidate;
use periphery::backup::containers::container_matches_id;
use periphery::backup::containers::create_volume_command;
use periphery::backup::containers::ensure_target_not_control_plane;
use periphery::backup::containers::map_path_through_mount;
use periphery::backup::containers::merge_container_quiesce_sets;
use periphery::backup::containers::mount_affects_paths;
use periphery::backup::containers::mount_type_affects_paths;
use periphery::backup::containers::paths_overlap;
use periphery::backup::containers::remove_volume_command;
use periphery::backup::containers::running_containers_for_target;
use periphery::backup::containers::AliasedPaths;
use periphery::backup::containers::MountPoint;
use periphery::backup::containers::PeripheryBackupTarget;
use periphery::backup::containers::ProtectedRepositoryPath;
use periphery::backup::containers::COMPOSE_PROJECT_LABEL;
use periphery::backup::preview::Standing;
use periphery::backup::publication::RestorePublishPath;
use periphery::backup::sources::admit_volume;
use periphery::backup::sources::discover_paths;
use periphery::backup::sources::discover_source;
use periphery::backup::sources::insert_bind_backup_root;
use periphery::backup::sources::is_blank;
use periphery::backup::sources::is_excluded_source;
use periphery::backup::sources::own_protected_paths;
use periphery::backup::sources::protected_aliases;
use periphery::backup::sources::resolve_protected_repository_sources;
use periphery::backup::sources::select_bind_backup_roots;
use periphery::backup::sources::unfiltered_source_filters;
use periphery::backup::sources::validate_local_volume_mount_options;
use periphery::backup::sources::validate_path_outside_internal_storage;
use periphery::backup::sources::validate_path_outside_protected_repositories;
use periphery::backup::sources::validate_resolved_restore_destinations;
use periphery::backup::sources::validate_restore_destination_ancestors;
use periphery::backup::sources::validate_restore_destinations;
use periphery::backup::sources::validate_source_path;
use periphery::backup::sources::BackupSourceFilters;
use periphery::backup::sources::DiscoverError;
use periphery::backup::sources::DockerSeen;
use periphery::backup::sources::SeenBind;
use periphery::backup::sources::SeenVolume;
use periphery::backup::sources::SourceError;
use periphery::backup::sources::SourceSeen;
use periphery::docker::container::ContainerListItem;
use periphery::docker::container::ContainerStateStatusEnum;
use periphery::docker::container::Label;

fn texts(list: &[&str]) -> Vec<String> {
    list.iter().map(|text| text.to_string()).collect()
}

fn label(name: &str, value: &str) -> Label {
    Label {
        name: name.to_string(),
        value: value.to_string(),
    }
}

fn plain_container(name: &str, state: ContainerStateStatusEnum) -> ContainerListItem {
    ContainerListItem {
        id: None,
        name: name.to_string(),
        state,
        network_mode: None,
        networks: Vec::new(),
        volumes: Vec::new(),
        labels: Vec::new(),
    }
}

fn container(
    name: &str,
    state: ContainerStateStatusEnum,
    project: Option<&str>,
    volumes: &[&str],
) -> ContainerListItem {
    let mut labels: Vec<Label> = Vec::new();
    if let Some(project) = project {
        labels.push(label(COMPOSE_PROJECT_LABEL, project));
    }
    ContainerListItem {
        volumes: texts(volumes),
        labels,
        ..plain_container(name, state)
    }
}

fn volume_target(name: &str) -> PeripheryBackupTarget {
    PeripheryBackupTarget::Volume {
        volume_name: name.to_string(),
    }
}

fn text(value: &str) -> Option<String> {
    Some(value.to_string())
}

fn no_aliases() -> Vec<AliasedPaths> {
    Vec::new()
}

fn aliased(left: &str, right: &str) -> AliasedPaths {
    AliasedPaths {
        left: left.to_string(),
        right: right.to_string(),
    }
}

fn publish(destination: &str) -> RestorePublishPath {
    RestorePublishPath {
        snapshot_path: "source/root".to_string(),
        destination: destination.to_string(),
        destination_root: None,
    }
}

fn bind(path: &str, included: bool, excluded: bool) -> SeenBind {
    SeenBind {
        path: path.to_string(),
        included,
        excluded,
        device: 1,
    }
}

fn local_volume() -> SeenVolume {
    SeenVolume {
        driver: "local".to_string(),
        local_scope: true,
        options: Vec::new(),
        anonymous: false,
        mountpoint: "/var/lib/docker/volumes/data/_data".to_string(),
    }
}

#[test]
fn backup_sources_cannot_capture_internal_backup_storage() {
    assert!(
        validate_path_outside_internal_storage("/srv", "/srv/.komodo-vykar", &no_aliases())
            .is_err()
    );
    validate_path_outside_internal_storage("/srv/stack", "/srv/.komodo-vykar", &no_aliases())
        .unwrap();
}

#[test]
fn backup_sources_cannot_capture_core_repository_mounts() {
    let repository = texts(&["/srv/core-repository"]);
    assert!(
        validate_path_outside_protected_repositories("/srv", &repository, &no_aliases()).is_err()
    );
    assert!(validate_path_outside_protected_repositories(
        "/srv/core-repository/packs",
        &repository,
        &no_aliases()
    )
    .is_err());
    validate_path_outside_protected_repositories("/srv/application", &repository, &no_aliases())
        .unwrap();
}

#[test]
fn restore_destinations_cannot_replace_core_repository_mounts() {
    let aliases = vec![aliased(
        "/srv/repository-alias/packs",
        "/srv/core-repository",
    )];
    assert!(validate_path_outside_protected_repositories(
        "/srv/repository-alias/packs",
        &texts(&["/srv/core-repository"]),
        &aliases
    )
    .is_err());
}

#[test]
fn protected_repository_mapping_preserves_the_mount_subpath() {
    assert_eq!(
        map_path_through_mount(
            "/data/backups/vykar",
            "/data",
            "/var/lib/docker/volumes/komodo_data/_data",
        ),
        text("/var/lib/docker/volumes/komodo_data/_data/backups/vykar")
    );
    assert_eq!(
        map_path_through_mount("/data/backups", "/data/backups/vykar", "/repository-volume"),
        text("/repository-volume")
    );
    let mapped = map_path_through_mount("/data/backups/vykar", "/data", "/host/data").unwrap();
    assert!(!paths_overlap("/host/data/stacks", &mapped, &no_aliases()));
}

#[test]
fn core_and_skipped_database_targets_are_refused_even_when_stopped() {
    let core_id = "a".repeat(64);
    let protected = vec![ProtectedRepositoryPath {
        path: "/core-secrets".to_string(),
        core_container_id: core_id.clone(),
    }];
    let core = ContainerListItem {
        id: Some(core_id),
        ..container(
            "custom-core-name",
            ContainerStateStatusEnum::Exited,
            Some("control-plane"),
            &["private-secrets"],
        )
    };
    let database = ContainerListItem {
        labels: vec![label("komodo.skip", "true")],
        ..container(
            "database",
            ContainerStateStatusEnum::Exited,
            None,
            &["database-data"],
        )
    };
    let containers = vec![core, database];
    for volume_name in ["private-secrets", "database-data"] {
        assert!(ensure_target_not_control_plane(
            &containers,
            &volume_target(volume_name),
            &protected
        )
        .is_err());
    }
    assert!(ensure_target_not_control_plane(
        &containers,
        &PeripheryBackupTarget::Stack {
            project_name: "control-plane".to_string()
        },
        &protected
    )
    .is_err());
    ensure_target_not_control_plane(&containers, &volume_target("application-data"), &protected)
        .unwrap();
}

#[test]
fn quiescing_keeps_core_and_skip_label_containers_running() {
    let protected = vec![ProtectedRepositoryPath {
        path: "/core-secrets".to_string(),
        core_container_id: "a".repeat(64),
    }];
    let core = ContainerListItem {
        id: Some("a".repeat(64)),
        ..container("core", ContainerStateStatusEnum::Running, None, &["shared"])
    };
    let database = ContainerListItem {
        id: Some("b".repeat(64)),
        name: "database".to_string(),
        labels: vec![label("komodo.skip", "true")],
        ..core.clone()
    };
    let application = ContainerListItem {
        id: Some("c".repeat(64)),
        name: "application".to_string(),
        labels: vec![label("komodo.skip", "false")],
        ..core.clone()
    };
    assert_eq!(
        running_containers_for_target(
            &vec![core, database, application],
            &volume_target("shared"),
            &Some("d".repeat(64)),
            &protected
        ),
        vec!["application"]
    );
}

#[test]
fn repository_aliases_require_the_actual_core_container_identity() {
    let core = ContainerListItem {
        id: Some("a".repeat(64)),
        ..plain_container("", ContainerStateStatusEnum::Empty)
    };
    let mut unrelated = core.clone();
    unrelated.id = Some("b".repeat(64));
    unrelated.name = "komodo".to_string();
    assert!(container_matches_id(&core, &"a".repeat(64)));
    assert!(container_matches_id(&core, &"a".repeat(12)));
    assert!(!container_matches_id(&unrelated, &"a".repeat(64)));
    assert!(!container_matches_id(&unrelated, "komodo"));
    assert!(!container_matches_id(&core, ""));
    assert_eq!(
        map_path_through_mount("/host/core/backups/vykar", "/host/core", "/periphery/data"),
        text("/periphery/data/backups/vykar")
    );
    assert_eq!(
        map_path_through_mount("/host/core/backups/vykar", "/srv/app", "/data"),
        None
    );
}

#[test]
fn bind_root_filters_use_vykar_path_rules() {
    let filters = BackupSourceFilters {
        bind_mount_include_patterns: texts(&["/srv/binds/**"]),
        bind_mount_exclude_patterns: texts(&["**/cache"]),
        ..unfiltered_source_filters()
    };
    let selected = select_bind_backup_roots(
        &vec![
            bind("/srv/binds/application", true, false),
            bind("/srv/binds/cache", true, true),
            bind("/srv/other/data", false, false),
        ],
        "/srv/run",
        1,
        &filters,
        &no_aliases(),
    )
    .unwrap();
    assert_eq!(selected, vec!["/srv/binds/application"]);
}

#[test]
fn bind_candidates_are_filtered_before_nested_roots_are_coalesced() {
    let candidates = |parent_included: bool| {
        vec![
            bind("/srv/data", parent_included, false),
            bind("/srv/data/selected", true, false),
        ]
    };
    let filters = BackupSourceFilters {
        bind_mount_include_patterns: texts(&["/srv/data/selected"]),
        ..unfiltered_source_filters()
    };
    assert_eq!(
        select_bind_backup_roots(&candidates(false), "/srv/run", 1, &filters, &no_aliases())
            .unwrap(),
        vec!["/srv/data/selected"]
    );
    assert_eq!(
        select_bind_backup_roots(
            &candidates(true),
            "/srv/run",
            1,
            &unfiltered_source_filters(),
            &no_aliases()
        )
        .unwrap(),
        vec!["/srv/data"]
    );
}

#[test]
fn options_backed_volumes_are_excluded_without_rejecting_quotas() {
    for options in [
        vec![label("type", "nfs")],
        vec![label("device", "/srv/data"), label("o", "bind")],
    ] {
        let error = validate_local_volume_mount_options(&options).unwrap_err();
        assert!(is_excluded_source(error));
    }
    validate_local_volume_mount_options(&Vec::new()).unwrap();
    validate_local_volume_mount_options(&vec![label("size", "10G")]).unwrap();
}

#[test]
fn stack_restore_stops_the_whole_running_deployed_project() {
    let target = PeripheryBackupTarget::Stack {
        project_name: "deployed-project-name".to_string(),
    };
    let containers = vec![
        container(
            "web",
            ContainerStateStatusEnum::Running,
            Some("deployed-project-name"),
            &[],
        ),
        container(
            "worker",
            ContainerStateStatusEnum::Running,
            Some("deployed-project-name"),
            &[],
        ),
        container(
            "already-stopped",
            ContainerStateStatusEnum::Exited,
            Some("deployed-project-name"),
            &[],
        ),
        container(
            "unrelated",
            ContainerStateStatusEnum::Running,
            Some("other-project"),
            &[],
        ),
    ];
    assert_eq!(
        running_containers_for_target(&containers, &target, &None, &Vec::new()),
        ["web", "worker"]
    );
}

#[test]
fn volume_restore_stops_every_running_container_with_access() {
    let containers = vec![
        container(
            "stack-a-web",
            ContainerStateStatusEnum::Running,
            Some("stack-a"),
            &["shared-data"],
        ),
        container(
            "stack-b-worker",
            ContainerStateStatusEnum::Running,
            Some("stack-b"),
            &["shared-data", "other-data"],
        ),
        container(
            "already-stopped",
            ContainerStateStatusEnum::Exited,
            Some("stack-c"),
            &["shared-data"],
        ),
        container(
            "unrelated",
            ContainerStateStatusEnum::Running,
            None,
            &["other-data"],
        ),
    ];
    assert_eq!(
        running_containers_for_target(
            &containers,
            &volume_target("shared-data"),
            &None,
            &Vec::new()
        ),
        ["stack-a-web", "stack-b-worker"]
    );
}

#[test]
fn source_validation_rejects_relative_paths() {
    assert!(validate_source_path("relative/path").is_err());
    assert!(validate_source_path("/absolute/path").is_ok());
}

#[test]
fn restore_destinations_reject_overlap_through_symlinks() {
    let items = vec![publish("/real/app"), publish("/alias/app/data")];
    let ways = vec![
        vec![Standing::Directory, Standing::Directory],
        vec![Standing::Directory, Standing::Directory],
    ];
    let aliases = vec![aliased("/real/app", "/alias/app/data")];
    assert_eq!(
        validate_resolved_restore_destinations(&items, &ways, "/private", &aliases),
        Err(SourceError::OverlappingDestinations)
    );
}

#[test]
fn restore_destinations_cannot_replace_internal_backup_storage() {
    assert!(validate_resolved_restore_destinations(
        &vec![publish("/srv")],
        &vec![vec![Standing::Directory]],
        "/srv/.komodo-vykar",
        &no_aliases()
    )
    .is_err());
}

#[test]
fn distinct_symlink_leaf_destinations_can_replace_entries_sharing_a_target() {
    validate_resolved_restore_destinations(
        &vec![publish("/srv/first"), publish("/srv/second")],
        &vec![
            vec![Standing::Directory, Standing::Directory],
            vec![Standing::Directory, Standing::Directory],
        ],
        "/srv/private",
        &no_aliases(),
    )
    .unwrap();
}

#[test]
fn full_restore_rejects_linked_parents_but_can_replace_the_leaf() {
    assert!(validate_restore_destination_ancestors(
        &publish("/srv/link/config"),
        &vec![Standing::Directory, Standing::Directory, Standing::Other]
    )
    .is_err());
    validate_restore_destination_ancestors(
        &publish("/srv/link"),
        &vec![Standing::Directory, Standing::Directory],
    )
    .unwrap();
    validate_restore_destination_ancestors(
        &publish("/srv/missing/child"),
        &vec![Standing::Directory, Standing::Directory, Standing::Missing],
    )
    .unwrap();
    assert!(validate_restore_destination_ancestors(&publish("relative/path"), &Vec::new()).is_err());
}

#[test]
fn selected_restore_rejects_symlink_ancestors_but_can_replace_the_leaf() {
    let item = |root: &str, destination: &str| RestorePublishPath {
        destination_root: Some(root.to_string()),
        ..publish(destination)
    };
    assert!(validate_restore_destination_ancestors(
        &item("/srv", "/srv/link/config"),
        &vec![Standing::Directory, Standing::Directory, Standing::Other]
    )
    .is_err());
    validate_restore_destination_ancestors(
        &item("/srv", "/srv/link"),
        &vec![Standing::Directory, Standing::Directory],
    )
    .unwrap();
    assert_eq!(
        validate_restore_destination_ancestors(
            &item("/srv", "/outside/config"),
            &vec![Standing::Directory, Standing::Directory]
        ),
        Err(SourceError::OutsideRoot)
    );
}

#[test]
fn nested_stack_bind_roots_collapse_to_the_ancestor() {
    let mut paths: Vec<String> = Vec::new();
    insert_bind_backup_root(&mut paths, "/run-directory", "/binds/cache", &no_aliases()).unwrap();
    insert_bind_backup_root(&mut paths, "/run-directory", "/binds", &no_aliases()).unwrap();
    assert_eq!(paths, vec!["/binds"]);
    insert_bind_backup_root(&mut paths, "/run-directory", "/binds/cache", &no_aliases()).unwrap();
    assert_eq!(paths.len(), 1);
}

#[test]
fn repeated_quiesce_attempts_preserve_every_pending_container() {
    assert_eq!(
        merge_container_quiesce_sets(
            &texts(&["original", "shared"]),
            &texts(&["retry", "shared"]),
        ),
        vec![
            "original".to_string(),
            "retry".to_string(),
            "shared".to_string(),
        ]
    );
}

#[test]
fn backup_and_restore_quiescing_include_named_volume_mounts() {
    assert!(mount_type_affects_paths(&text("bind")));
    assert!(mount_type_affects_paths(&text("volume")));
    assert!(!mount_type_affects_paths(&text("tmpfs")));
    assert!(!mount_type_affects_paths(&None));
}

#[test]
fn volume_quiescing_includes_bind_sources_above_at_and_below_storage() {
    let paths = texts(&["/docker-data/volumes/data/_data"]);
    for source in [
        "/docker-data/volumes/data/_data",
        "/docker-data/volumes/data/_data/database",
        "/docker-data/volumes/data",
    ] {
        for mount_type in ["bind", "volume"] {
            assert!(mount_affects_paths(
                &text(mount_type),
                &text(source),
                &paths,
                &Vec::new(),
                &no_aliases(),
            ));
        }
    }
    for source in [
        "/docker-data/volumes/other/_data",
        "/docker-data/volumes/data/_data-other",
    ] {
        assert!(!mount_affects_paths(
            &text("bind"),
            &text(source),
            &paths,
            &Vec::new(),
            &no_aliases(),
        ));
    }
    assert!(!mount_affects_paths(
        &text("tmpfs"),
        &text("/docker-data"),
        &paths,
        &Vec::new(),
        &no_aliases(),
    ));
    assert!(!mount_affects_paths(
        &text("bind"),
        &None,
        &paths,
        &Vec::new(),
        &no_aliases()
    ));
}

#[test]
fn quiesce_translates_docker_paths_through_the_verified_worker_mounts() {
    let mounts = vec![MountPoint {
        typ: None,
        source: text("/host/docker/volumes/stacks/_data"),
        destination: text("/worker/stacks"),
    }];
    assert!(mount_affects_paths(
        &text("volume"),
        &text("/host/docker/volumes/stacks/_data"),
        &texts(&["/worker/stacks/app"]),
        &mounts,
        &no_aliases()
    ));
}

#[test]
fn quiescing_excludes_only_the_current_worker_identity() {
    let worker = ContainerListItem {
        id: Some("a".repeat(64)),
        ..plain_container("", ContainerStateStatusEnum::Running)
    };
    assert!(!container_is_quiesce_candidate(
        &worker,
        &Some("a".repeat(64))
    ));
    assert!(container_is_quiesce_candidate(
        &worker,
        &Some("b".repeat(64))
    ));
    assert!(container_is_quiesce_candidate(&worker, &None));
    assert!(container_is_quiesce_candidate(&worker, &text("periphery")));
    let stopped = ContainerListItem {
        state: ContainerStateStatusEnum::Exited,
        ..worker
    };
    assert!(!container_is_quiesce_candidate(&stopped, &None));
}

#[test]
fn commands_quote_what_they_name() {
    assert_eq!(container_command("stop", "web"), "docker stop -- web");
    assert_eq!(
        container_command("start", "we b; rm"),
        "docker start -- 'we b; rm'"
    );
    assert!(create_volume_command("da ta", "plan").contains("'da ta'"));
    assert!(create_volume_command("data", "plan").contains("komodo.restore-plan=plan"));
    assert!(remove_volume_command("da ta").ends_with("'da ta'"));
}

#[test]
fn sources_are_discovered_with_their_containers() {
    let volume = SourceSeen::Volume {
        volume_name: "data".to_string(),
        volume: local_volume(),
    };
    let docker = DockerSeen {
        containers: vec![
            container("web", ContainerStateStatusEnum::Running, None, &["data"]),
            container("other", ContainerStateStatusEnum::Running, None, &[]),
        ],
        mounts: vec![Vec::new(), Vec::new()],
        own_id: None,
    };
    let found = discover_source(
        &volume,
        &docker,
        &unfiltered_source_filters(),
        "/srv/.komodo-vykar",
        &Vec::new(),
        &Vec::new(),
        &no_aliases(),
    )
    .unwrap();
    assert_eq!(found.paths, vec!["/var/lib/docker/volumes/data/_data"]);
    assert_eq!(found.running_containers, vec!["web"]);
    assert_eq!(
        affected_running_containers(
            &docker.containers,
            &docker.mounts,
            &volume_target("data"),
            &None,
            &found.paths,
            &Vec::new(),
            &no_aliases(),
        ),
        Ok(texts(&["web"]))
    );
    let blank = SourceSeen::Volume {
        volume_name: "\t\n\u{b}\u{c}\r \u{85}\u{a0}\u{1680}\u{2000}\u{200a}\u{2028}\u{2029}\u{202f}\u{205f}\u{3000}"
            .to_string(),
        volume: local_volume(),
    };
    assert_eq!(
        discover_source(
            &blank,
            &docker,
            &unfiltered_source_filters(),
            "/srv/.komodo-vykar",
            &Vec::new(),
            &Vec::new(),
            &no_aliases(),
        ),
        Err(DiscoverError::Source(SourceError::EmptyVolumeName))
    );
    let unseen = SourceSeen::Volume {
        volume_name: "\u{200b}\u{180e}".to_string(),
        volume: local_volume(),
    };
    assert!(discover_source(
        &unseen,
        &docker,
        &unfiltered_source_filters(),
        "/srv/.komodo-vykar",
        &Vec::new(),
        &Vec::new(),
        &no_aliases(),
    )
    .is_ok());
    assert!(is_blank(""));
    assert!(!is_blank(" a "));
    let skipped = DockerSeen {
        containers: vec![ContainerListItem {
            labels: vec![label("komodo.skip", "true")],
            ..container("db", ContainerStateStatusEnum::Exited, None, &["data"])
        }],
        mounts: vec![Vec::new()],
        own_id: None,
    };
    assert_eq!(
        discover_source(
            &volume,
            &skipped,
            &unfiltered_source_filters(),
            "/srv/.komodo-vykar",
            &Vec::new(),
            &Vec::new(),
            &no_aliases(),
        ),
        Err(DiscoverError::ProtectedContainer("db".to_string()))
    );
}

#[test]
fn stacks_are_backed_up_with_their_binds() {
    let stack = |swarm: bool, run_directory: &str| SourceSeen::Stack {
        project_name: "demo".to_string(),
        swarm,
        run_directory: run_directory.to_string(),
        binds: vec![bind("/srv/data", true, false)],
        run_device: 1,
    };
    let discover = |seen: &SourceSeen, protected: &[&str]| {
        discover_paths(
            seen,
            false,
            &unfiltered_source_filters(),
            "/srv/.komodo-vykar",
            &texts(protected),
            &no_aliases(),
        )
    };
    let mut paths = discover(&stack(false, "/etc/stacks/demo"), &[]).unwrap();
    paths.sort();
    assert_eq!(paths, vec!["/etc/stacks/demo", "/srv/data"]);
    assert_eq!(
        discover(&stack(true, "/etc/stacks/demo"), &[]),
        Err(SourceError::Swarm)
    );
    assert_eq!(
        discover(&stack(false, "stacks/demo"), &[]),
        Err(SourceError::Relative)
    );
    assert_eq!(
        discover(&stack(false, "/etc/stacks/demo"), &["/srv/data/core"]),
        Err(SourceError::Protected)
    );
}

#[test]
fn refused_volumes_are_told_why() {
    let filters = unfiltered_source_filters();
    assert_eq!(admit_volume(&local_volume(), &filters), Ok(()));
    let remote = SeenVolume {
        driver: "nfs".to_string(),
        ..local_volume()
    };
    assert_eq!(admit_volume(&remote, &filters), Err(SourceError::NotLocal));
    let backed = SeenVolume {
        options: vec![label("device", "/srv")],
        ..local_volume()
    };
    assert_eq!(
        admit_volume(&backed, &filters),
        Err(SourceError::MountBacked)
    );
    let anonymous = SeenVolume {
        anonymous: true,
        ..local_volume()
    };
    let without = BackupSourceFilters {
        include_anonymous_volumes: false,
        ..unfiltered_source_filters()
    };
    assert_eq!(
        admit_volume(&anonymous, &without),
        Err(SourceError::Anonymous)
    );
    let relative = SeenVolume {
        mountpoint: "data".to_string(),
        ..local_volume()
    };
    assert_eq!(
        admit_volume(&relative, &filters),
        Err(SourceError::Relative)
    );
}

#[test]
fn protected_paths_are_found_through_the_core_container() {
    let core = ContainerListItem {
        id: Some("a".repeat(64)),
        ..plain_container("core", ContainerStateStatusEnum::Running)
    };
    let own = core.clone();
    let mounts = vec![vec![MountPoint {
        typ: text("bind"),
        source: text("/host/core"),
        destination: text("/data"),
    }]];
    let protected = vec![ProtectedRepositoryPath {
        path: "/data/vykar".to_string(),
        core_container_id: "a".repeat(64),
    }];
    assert_eq!(own_protected_paths(&own, &protected), vec!["/data/vykar"]);
    assert!(own_protected_paths(
        &plain_container("other", ContainerStateStatusEnum::Running),
        &protected
    )
    .is_empty());
    let sources =
        resolve_protected_repository_sources(&vec![core], &mounts, &protected, false, &None);
    assert!(sources.contains(&"/host/core/vykar".to_string()));
    assert_eq!(
        protected_aliases(&sources, &Vec::new(), &None, &Vec::new()),
        Err(SourceError::UnknownOwnContainer)
    );
    assert_eq!(
        validate_restore_destinations(
            &vec![publish("/host/core/vykar/data")],
            &sources,
            &no_aliases()
        ),
        Err(SourceError::Protected)
    );
    assert_eq!(
        validate_restore_destinations(&vec![publish("/srv/app")], &sources, &no_aliases()),
        Ok(())
    );
}

#[test]
fn binds_of_a_stack_are_gathered_from_services_and_containers() {
    let bind = |source: Option<&str>| MountPoint {
        typ: Some("bind".to_string()),
        source: source.map(|path| path.to_string()),
        destination: Some("/data".to_string()),
    };
    let volume = MountPoint {
        typ: Some("volume".to_string()),
        source: None,
        destination: None,
    };
    let services = vec![BackupComposeService {
        name: "app".to_string(),
        volumes: vec![
            BackupComposeMount::Short("./data:/data".to_string()),
            BackupComposeMount::Short("/srv/b:/b".to_string()),
            BackupComposeMount::Short("named:/n".to_string()),
        ],
    }];
    let state = ContainerStateStatusEnum::Running;
    let containers = vec![
        container("web", state, Some("demo"), &[]),
        container("other", state, Some("else"), &[]),
    ];
    let mounts = vec![
        vec![bind(Some("/srv/b")), volume.clone(), bind(Some("/srv/a"))],
        vec![bind(None)],
    ];
    assert_eq!(
        stack_binds("demo", &containers, &mounts, &services, "/stack"),
        Ok(texts(&["/srv/a", "/srv/b", "/stack/./data"]))
    );
    assert_eq!(
        stack_binds("else", &containers, &mounts, &services, "/stack"),
        Err(SourceError::NoBindSource)
    );
    let relative = vec![vec![bind(Some("srv"))], Vec::new()];
    assert_eq!(
        stack_binds("demo", &containers, &relative, &Vec::new(), "/stack"),
        Err(SourceError::Relative)
    );
    assert_eq!(
        resolved_binds(&vec![
            Some("/real/b".to_string()),
            Some("/real/a".to_string()),
            Some("/real/b".to_string()),
        ]),
        Ok(texts(&["/real/a", "/real/b"]))
    );
    assert_eq!(
        resolved_binds(&vec![Some("/real".to_string()), None]),
        Err(SourceError::Unavailable)
    );
}
