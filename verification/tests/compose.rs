//! Bind mounts of Compose files, and what a recovery makes of them.

use std::path::Path;

use periphery::backup::compose::compose_bind_path_aliases;
use periphery::backup::compose::compose_bind_paths;
use periphery::backup::compose::compose_bind_source;
use periphery::backup::compose::compose_mount_target;
use periphery::backup::compose::document_volumes;
use periphery::backup::compose::open_staged_compose_file;
use periphery::backup::compose::remap_absolute_bind_source;
use periphery::backup::compose::resolve_recovered_bind_expressions;
use periphery::backup::compose::rewrite_compose_bind_mappings;
use periphery::backup::compose::rewrite_recovered_compose_file;
use periphery::backup::compose::split_compose_short_mount;
use periphery::backup::compose::staged_compose_path;
use periphery::backup::compose::BackupComposeMount;
use periphery::backup::compose::BackupComposeService;
use periphery::backup::compose::CanonicalPath;
use periphery::backup::compose::ComposeError;
use periphery::backup::compose::StagedKind;
use periphery::backup::publication::RestorePublishPath;
use periphery::backup::yaml::as_text;
use periphery::backup::yaml::get;
use periphery::backup::yaml::Yaml;
use periphery::backup::yaml::YamlEntry;

fn converted(value: &serde_yaml_ng::Value) -> Yaml {
    match value {
        serde_yaml_ng::Value::Null => Yaml::Null,
        serde_yaml_ng::Value::String(text) => Yaml::Text(text.clone()),
        serde_yaml_ng::Value::Sequence(items) => Yaml::List(items.iter().map(converted).collect()),
        serde_yaml_ng::Value::Mapping(entries) => Yaml::Mapping(
            entries
                .iter()
                .map(|(key, value)| YamlEntry {
                    key: converted(key),
                    value: converted(value),
                })
                .collect(),
        ),
        other => Yaml::Other(other.clone()),
    }
}

fn document(text: &str) -> Yaml {
    let value: serde_yaml_ng::Value = serde_yaml_ng::from_str(text).unwrap();
    converted(&value)
}

/// All texts of a document.
fn told(yaml: &Yaml) -> String {
    match yaml {
        Yaml::Text(text) => format!("{text}\n"),
        Yaml::List(items) => items.iter().map(told).collect(),
        Yaml::Mapping(entries) => entries
            .iter()
            .map(|entry| format!("{}{}", told(&entry.key), told(&entry.value)))
            .collect(),
        _ => String::new(),
    }
}

fn pairs(list: &[(&str, &str)]) -> Vec<(String, String)> {
    list.iter()
        .map(|(from, to)| (from.to_string(), to.to_string()))
        .collect()
}

fn long(mount_type: &str, source: &str, target: &str) -> BackupComposeMount {
    BackupComposeMount::Long {
        mount_type: Some(mount_type.to_string()),
        source: Some(source.to_string()),
        target: Some(target.to_string()),
    }
}

fn app(volumes: Vec<BackupComposeMount>) -> Vec<BackupComposeService> {
    vec![BackupComposeService {
        name: "app".to_string(),
        volumes,
    }]
}

fn volumes(yaml: &Yaml) -> &Vec<Yaml> {
    let services = get(yaml, "services").unwrap();
    let service = get(services, "app").unwrap();
    match get(service, "volumes").unwrap() {
        Yaml::List(items) => items,
        _ => panic!("no list"),
    }
}

#[test]
fn deployed_compose_config_discovers_bind_roots_without_containers() {
    let services = app(vec![long("bind", "/srv/binds", "/data")]);
    assert_eq!(
        compose_bind_paths(&services, "/srv/run"),
        vec!["/srv/binds"]
    );
}

#[test]
fn recovered_compose_rewrites_long_and_short_absolute_binds() {
    let text = "services:\n  app:\n    volumes:\n      - type: bind\n        source: /srv/old/data\n        target: /data\n      - /srv/old/cache:/cache:ro\n      - named-data:/named\n";
    let mappings = pairs(&[("/srv/old", "/srv/recovered")]);
    let (rewritten, count) =
        rewrite_compose_bind_mappings(document(text), &mappings, &Vec::new());
    assert_eq!(count, 2);
    let rewritten = told(&rewritten);
    assert!(rewritten.contains("/srv/recovered/data"));
    assert!(rewritten.contains("/srv/recovered/cache:/cache:ro"));
    assert!(rewritten.contains("named-data:/named"));
    assert!(!rewritten.contains("/srv/old"));

    let file = rewrite_recovered_compose_file(text, &None, &mappings, &Vec::new())
        .unwrap()
        .unwrap();
    assert!(file.contains("/srv/recovered/data"));
    assert!(file.contains("/srv/recovered/cache:/cache:ro"));
    assert!(file.contains("named-data:/named"));
    assert!(!file.contains("/srv/old"));
}

#[test]
fn recovered_compose_rewrites_a_recorded_symlink_alias() {
    let text = "services:\n  app:\n    volumes:\n      - /srv/link/cache:/cache:ro\n";
    let mappings = pairs(&[("/srv/real", "/srv/recovered")]);
    let aliases = pairs(&[("/srv/link/cache", "/srv/real/cache")]);
    let (rewritten, count) = rewrite_compose_bind_mappings(document(text), &mappings, &aliases);
    assert_eq!(count, 1);
    let rewritten = told(&rewritten);
    assert!(rewritten.contains("/srv/recovered/cache:/cache:ro"));
    assert!(!rewritten.contains("/srv/link"));
}

#[test]
fn recovered_compose_resolves_bind_expressions_from_snapshot_metadata() {
    let text = "services:\n  app:\n    volumes:\n      - ${DATA_ROOT:-/fallback}/cache:/cache:ro\n      - type: bind\n        source: ${DATA_ROOT}/data\n        target: /data\n      - ${VOLUME_NAME}:/named\n";
    let deployed = Some(app(vec![
        long("bind", "/srv/link/cache", "/cache"),
        long("bind", "/srv/old/data", "/data"),
        long("volume", "named-data", "/named"),
    ]));
    let mappings = pairs(&[("/srv/old", "/srv/recovered")]);
    let aliases = pairs(&[("/srv/link/cache", "/srv/old/cache")]);
    let resolved =
        resolve_recovered_bind_expressions(document(text), &deployed, &mappings, &aliases)
            .unwrap();
    let (rewritten, count) = rewrite_compose_bind_mappings(resolved, &mappings, &aliases);
    assert_eq!(count, 2);
    let rewritten = told(&rewritten);
    assert!(rewritten.contains("/srv/recovered/cache:/cache:ro"));
    assert!(rewritten.contains("/srv/recovered/data"));
    assert!(rewritten.contains("${VOLUME_NAME}:/named"));
    assert!(!rewritten.contains("${DATA_ROOT"));
}

#[test]
fn recovered_bind_expressions_fail_closed_without_deployment_metadata() {
    let text = "services:\n  app:\n    volumes:\n      - ${DATA_ROOT}/cache:/cache\n";
    assert!(resolve_recovered_bind_expressions(
        document(text),
        &None,
        &Vec::new(),
        &Vec::new()
    )
    .is_err());
}

#[test]
fn recovered_relative_binds_use_original_deployment_and_alias_metadata() {
    let text = "services:\n  app:\n    volumes:\n      - ../data:/data:ro\n      - type: bind\n        source: ../link\n        target: /cache\n      - ./config:/config\n      - named-data:/named\n";
    let deployed = Some(app(vec![
        long("bind", "/original/data", "/data"),
        long("bind", "/original/link", "/cache"),
        long("bind", "/original/run/config", "/config"),
    ]));
    let mappings = pairs(&[
        ("/original/data", "/recovery/data"),
        ("/original/real", "/recovery/cache"),
        ("/original/run", "/recovery/run"),
    ]);
    let aliases = pairs(&[("/original/link", "/original/real")]);
    let resolved =
        resolve_recovered_bind_expressions(document(text), &deployed, &mappings, &aliases)
            .unwrap();
    let (rewritten, count) = rewrite_compose_bind_mappings(resolved, &mappings, &aliases);
    assert_eq!(count, 3);
    let found = volumes(&rewritten);
    for (index, expected_source, expected_target) in [
        (0usize, "/recovery/data", "/data:ro"),
        (2usize, "/recovery/run/config", "/config"),
        (3usize, "named-data", "/named"),
    ] {
        let (source, target) =
            split_compose_short_mount(&as_text(&found[index]).unwrap()).unwrap();
        assert_eq!(Path::new(&source), Path::new(expected_source));
        assert_eq!(target, expected_target);
    }
    let mount = &found[1];
    assert_eq!(as_text(get(mount, "type").unwrap()).unwrap(), "bind");
    assert_eq!(
        Path::new(&as_text(get(mount, "source").unwrap()).unwrap()),
        Path::new("/recovery/cache")
    );
    assert_eq!(as_text(get(mount, "target").unwrap()).unwrap(), "/cache");
}

#[test]
fn relative_binds_fail_closed_without_absolute_original_metadata() {
    for deployed in [None, Some(app(vec![long("bind", "../data", "/data")]))] {
        let text = "services:\n  app:\n    volumes:\n      - ../data:/data\n";
        assert!(resolve_recovered_bind_expressions(
            document(text),
            &deployed,
            &Vec::new(),
            &Vec::new()
        )
        .is_err());
    }
}

#[test]
fn recovered_compose_rewrite_rejects_leaf_and_parent_symlinks() {
    assert!(!open_staged_compose_file(
        "/stage",
        "/stage/compose.yaml",
        &vec![StagedKind::Directory, StagedKind::Other]
    ));
    assert!(!open_staged_compose_file(
        "/stage",
        "/stage/linked-directory/compose.yaml",
        &vec![StagedKind::Directory, StagedKind::Other, StagedKind::File]
    ));
    assert!(open_staged_compose_file(
        "/stage",
        "/stage/regular.yaml",
        &vec![StagedKind::Directory, StagedKind::File]
    ));
    assert!(!open_staged_compose_file(
        "/stage",
        "/elsewhere/regular.yaml",
        &vec![StagedKind::Directory, StagedKind::File]
    ));
}

#[test]
fn staged_files_are_reached_from_a_real_staging_directory() {
    assert!(!open_staged_compose_file(
        "/stage",
        "/stage/regular.yaml",
        &vec![StagedKind::Other, StagedKind::File]
    ));
    assert!(!open_staged_compose_file(
        "/stage",
        "/stage/regular.yaml",
        &vec![StagedKind::File]
    ));
    assert!(!open_staged_compose_file(
        "/stage",
        "/stage/nested/regular.yaml",
        &vec![StagedKind::Directory, StagedKind::File]
    ));
    assert!(open_staged_compose_file(
        "/stage",
        "/stage/nested/regular.yaml",
        &vec![StagedKind::Directory, StagedKind::Directory, StagedKind::File]
    ));
    assert!(!open_staged_compose_file(
        "/stage",
        "/stage/../regular.yaml",
        &vec![StagedKind::Directory, StagedKind::Directory, StagedKind::File]
    ));
    assert!(!open_staged_compose_file(
        "/stage",
        "/stage",
        &vec![StagedKind::Directory]
    ));
}

#[test]
fn mounts_are_read_in_both_forms() {
    let short = BackupComposeMount::Short("/srv/data:/data:ro".to_string());
    assert_eq!(compose_bind_source(&short).as_deref(), Some("/srv/data"));
    assert_eq!(compose_mount_target(&short).as_deref(), Some("/data"));
    let named = BackupComposeMount::Short("data:/data".to_string());
    assert_eq!(compose_bind_source(&named), None);
    assert_eq!(
        compose_bind_source(&long("volume", "data", "/data")),
        None
    );
    assert_eq!(
        compose_bind_path_aliases(&vec![
            CanonicalPath {
                path: "/srv/link".to_string(),
                canonical: "/srv/real".to_string(),
            },
            CanonicalPath {
                path: "/srv/same".to_string(),
                canonical: "/srv/same".to_string(),
            },
        ]),
        pairs(&[("/srv/link", "/srv/real")])
    );
}

#[test]
fn sources_go_with_the_mapping_that_holds_them() {
    let mappings = pairs(&[("/srv", "/new"), ("/srv/data", "/mnt/data")]);
    assert_eq!(
        remap_absolute_bind_source("/srv/data/db", &mappings, &Vec::new()).as_deref(),
        Some("/mnt/data/db")
    );
    assert_eq!(
        remap_absolute_bind_source("/etc/app", &mappings, &Vec::new()),
        None
    );
}

#[test]
fn documents_without_binds_stay_as_they_are() {
    let text = "services:\n  app:\n    image: demo\n";
    assert_eq!(document_volumes(&document(text)).len(), 0);
    assert_eq!(
        rewrite_recovered_compose_file(text, &None, &pairs(&[("/a", "/b")]), &Vec::new()),
        Ok(None)
    );
    assert_eq!(
        rewrite_recovered_compose_file("a: [", &None, &Vec::new(), &Vec::new()),
        Err(ComposeError::Parse)
    );
}

#[test]
fn compose_files_are_staged_below_the_run_directory() {
    let publish = vec![RestorePublishPath {
        snapshot_path: "root".to_string(),
        destination: "/srv/run".to_string(),
        destination_root: None,
    }];
    assert_eq!(
        staged_compose_path("/stage", &publish, "/srv/run", "compose.yaml").unwrap(),
        "/stage/root/compose.yaml"
    );
    assert_eq!(
        staged_compose_path("/stage", &publish, "/srv/run", "../compose.yaml"),
        Err(ComposeError::UnsafePath)
    );
    assert_eq!(
        staged_compose_path("/stage", &publish, "/srv/other", "compose.yaml"),
        Err(ComposeError::NoRunDirectory)
    );
}
