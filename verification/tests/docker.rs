//! What networks, images and volumes use.

use periphery::docker::container::is_running;
use periphery::docker::container::label;
use periphery::docker::container::ContainerListItem;
use periphery::docker::container::ContainerStateStatusEnum;
use periphery::docker::container::Label;
use periphery::docker::network_usage::calculate_network_usage;
use periphery::docker::network_usage::calculate_one_network;
use periphery::docker::network_usage::keep_samples;
use periphery::docker::network_usage::network_counters;
use periphery::docker::network_usage::network_usage;
use periphery::docker::network_usage::previous_samples;
use periphery::docker::network_usage::sample_target;
use periphery::docker::network_usage::store_poll_failure;
use periphery::docker::network_usage::ContainerTrafficSample;
use periphery::docker::network_usage::CounterError;
use periphery::docker::network_usage::DockerMetricStatus;
use periphery::docker::network_usage::DockerNetworkUsage;
use periphery::docker::network_usage::InterfaceCounters;
use periphery::docker::network_usage::SampleTarget;
use periphery::docker::usage::image_disk_usage;
use periphery::docker::usage::image_usage;
use periphery::docker::usage::parse_disk_usage;
use periphery::docker::usage::store_snapshot_result;
use periphery::docker::usage::summarize_volumes;
use periphery::docker::usage::volume_disk_usage;
use periphery::docker::usage::DockerDiskUsageSnapshot;
use periphery::docker::usage::ImageDiskUsage;
use periphery::docker::usage::VolumeDiskUsage;
use periphery::docker::usage::VolumeEntry;
use periphery::registry::Registry;

fn container(id: &str, networks: &[&str]) -> ContainerListItem {
    ContainerListItem {
        id: Some(id.to_string()),
        name: id.to_string(),
        state: ContainerStateStatusEnum::Running,
        network_mode: None,
        networks: networks.iter().map(|name| name.to_string()).collect(),
        volumes: Vec::new(),
        labels: Vec::new(),
    }
}

fn traffic(network: &str, ingress: u64, egress: u64, measured_at: i64) -> ContainerTrafficSample {
    ContainerTrafficSample {
        network: network.to_string(),
        ingress_bytes: ingress,
        egress_bytes: egress,
        measured_at,
    }
}

fn current(
    samples: Vec<(&str, ContainerTrafficSample)>,
) -> Registry<Result<ContainerTrafficSample, String>> {
    let mut registry = Registry::new();
    for (id, sample) in samples {
        registry.insert(id.to_string(), Ok(sample));
    }
    registry
}

fn previous(samples: Vec<(&str, ContainerTrafficSample)>) -> Registry<ContainerTrafficSample> {
    let mut registry = Registry::new();
    for (id, sample) in samples {
        registry.insert(id.to_string(), sample);
    }
    registry
}

fn rates(usage: &DockerNetworkUsage) -> Option<(f64, f64)> {
    usage.rate_shares.as_ref().map(|shares| {
        let mut ingress: f64 = 0.0;
        let mut egress: f64 = 0.0;
        for share in shares {
            let seconds: f64 = share.elapsed_ms as f64 / 1_000.0;
            ingress += share.ingress_bytes as f64 / seconds;
            egress += share.egress_bytes as f64 / seconds;
        }
        (ingress, egress)
    })
}

#[test]
fn attributes_complete_single_network_totals_and_rates() {
    let containers = vec![container("one", &["sites"]), container("two", &["sites"])];
    let usage = calculate_one_network(
        "sites",
        &containers,
        &current(vec![
            ("one", traffic("sites", 300, 500, 2_000)),
            ("two", traffic("sites", 700, 900, 2_000)),
        ]),
        &previous(vec![
            ("one", traffic("sites", 100, 200, 1_000)),
            ("two", traffic("sites", 400, 500, 1_000)),
        ]),
        2_000,
        60_000,
    );
    assert_eq!(usage.status, DockerMetricStatus::Available);
    assert_eq!(usage.ingress_bytes, Some(1_000));
    assert_eq!(usage.egress_bytes, Some(1_400));
    assert_eq!(rates(&usage), Some((500.0, 700.0)));
}

#[test]
fn rejects_multi_network_attribution() {
    let containers = vec![container("one", &["sites", "database"])];
    let usage = calculate_one_network(
        "sites",
        &containers,
        &current(Vec::new()),
        &previous(Vec::new()),
        2_000,
        60_000,
    );
    assert_eq!(usage.status, DockerMetricStatus::Unavailable);
    assert!(usage.unavailable_reason.unwrap().contains("multiple"));
}

#[test]
fn rejects_missing_and_stale_samples() {
    let containers = vec![container("one", &["sites"])];
    let missing = calculate_one_network(
        "sites",
        &containers,
        &current(Vec::new()),
        &previous(Vec::new()),
        100_000,
        60_000,
    );
    assert!(missing.unavailable_reason.unwrap().contains("no current"));

    let stale = calculate_one_network(
        "sites",
        &containers,
        &current(vec![("one", traffic("sites", 1, 1, 1_000))]),
        &previous(Vec::new()),
        100_000,
        60_000,
    );
    assert!(stale.unavailable_reason.unwrap().contains("stale"));
}

#[test]
fn counter_reset_and_membership_change_suppress_rates() {
    let containers = vec![container("one", &["sites"])];
    let reset = calculate_one_network(
        "sites",
        &containers,
        &current(vec![("one", traffic("sites", 10, 10, 2_000))]),
        &previous(vec![("one", traffic("sites", 20, 20, 1_000))]),
        2_000,
        60_000,
    );
    assert_eq!(reset.status, DockerMetricStatus::Available);
    assert_eq!(reset.rate_status, DockerMetricStatus::Unavailable);
    assert!(reset.rate_unavailable_reason.unwrap().contains("reset"));

    let changed = calculate_one_network(
        "sites",
        &containers,
        &current(vec![("one", traffic("sites", 10, 10, 2_000))]),
        &previous(vec![("one", traffic("old", 1, 1, 1_000))]),
        2_000,
        60_000,
    );
    assert!(changed
        .rate_unavailable_reason
        .unwrap()
        .contains("membership"));

    let changed_during_poll = calculate_one_network(
        "sites",
        &containers,
        &current(vec![("one", traffic("old", 10, 10, 2_000))]),
        &previous(Vec::new()),
        2_000,
        60_000,
    );
    assert_eq!(changed_during_poll.status, DockerMetricStatus::Unavailable);
    assert!(changed_during_poll
        .unavailable_reason
        .unwrap()
        .contains("during measurement"));
}

#[test]
fn interfaces_add_up() {
    let both = InterfaceCounters {
        rx_bytes: Some(3),
        tx_bytes: Some(4),
    };
    assert_eq!(
        network_counters(&Some(vec![both.clone(), both.clone()])),
        Ok((6, 8))
    );
    assert_eq!(network_counters(&None), Err(CounterError::Omitted));
    assert_eq!(network_counters(&Some(Vec::new())), Err(CounterError::Empty));
    assert_eq!(
        network_counters(&Some(vec![InterfaceCounters {
            rx_bytes: None,
            tx_bytes: Some(1),
        }])),
        Err(CounterError::NoIngress)
    );
    assert_eq!(
        network_counters(&Some(vec![InterfaceCounters {
            rx_bytes: Some(1),
            tx_bytes: None,
        }])),
        Err(CounterError::NoEgress)
    );
    let most = InterfaceCounters {
        rx_bytes: Some(u64::MAX),
        tx_bytes: Some(0),
    };
    assert_eq!(
        network_counters(&Some(vec![most, both.clone()])),
        Err(CounterError::IngressOverflow)
    );
    let sent = InterfaceCounters {
        rx_bytes: Some(0),
        tx_bytes: Some(u64::MAX),
    };
    assert_eq!(
        network_counters(&Some(vec![sent, both])),
        Err(CounterError::EgressOverflow)
    );
}

#[test]
fn only_running_containers_of_one_network_are_read() {
    let mut stopped = container("one", &["sites"]);
    stopped.state = ContainerStateStatusEnum::Exited;
    assert!(!is_running(&stopped));
    assert_eq!(sample_target(&stopped), SampleTarget::Skip);
    assert_eq!(
        sample_target(&container("one", &["sites"])),
        SampleTarget::Read {
            id: "one".to_string(),
            network: "sites".to_string(),
        }
    );
    let samples = current(vec![("one", traffic("sites", 1, 2, 3))]);
    assert_eq!(keep_samples(&samples).get("one").unwrap().ingress_bytes, 1);
    assert_eq!(previous_samples().len(), 0);
}

#[test]
fn failed_polls_leave_no_old_numbers() {
    let usage = calculate_network_usage(
        &vec!["sites".to_string()],
        &vec![container("one", &["sites"])],
        &current(vec![("one", traffic("sites", 300, 500, 2_000))]),
        &previous(Vec::new()),
        2_000,
        60_000,
    );
    assert_eq!(
        usage.get("sites").unwrap().status,
        DockerMetricStatus::Available
    );
    let failed = store_poll_failure(&usage, "Docker is unavailable", 3_000);
    let told = failed.get("sites").unwrap();
    assert_eq!(told.status, DockerMetricStatus::Unavailable);
    assert_eq!(
        told.unavailable_reason.as_deref(),
        Some("Docker is unavailable")
    );
    assert_eq!(told.measured_at, Some(3_000));
}

#[test]
fn labels_are_found_by_name() {
    let labels = vec![Label {
        name: "a".to_string(),
        value: "1".to_string(),
    }];
    assert_eq!(label(&labels, "a"), Some("1"));
    assert_eq!(label(&labels, "b"), None);
}

#[test]
fn maps_image_total_shared_and_unique_usage() {
    let image = r#"{
        "Id": "sha256:one",
        "ParentId": "",
        "RepoTags": [],
        "RepoDigests": [],
        "Created": 1,
        "Size": 1000,
        "SharedSize": 400,
        "Labels": {},
        "Containers": 0
    }"#;
    let snapshot = parse_disk_usage(&Some(vec![image.to_string()]), &Some(Vec::new()), 123);
    assert_eq!(
        snapshot.images.get("sha256:one").unwrap(),
        &ImageDiskUsage {
            status: DockerMetricStatus::Available,
            total_bytes: Some(1000),
            shared_bytes: Some(400),
            unique_bytes: Some(600),
            measured_at: Some(123),
            unavailable_reason: None,
        }
    );
}

#[test]
fn marks_unsupported_volume_driver_unavailable() {
    let volume = r#"{
        "Name": "remote",
        "Driver": "nfs",
        "Mountpoint": "/mnt/remote",
        "Scope": "local",
        "Labels": {},
        "Options": {},
        "UsageData": { "Size": 10, "RefCount": 0 }
    }"#;
    let snapshot = parse_disk_usage(&Some(Vec::new()), &Some(vec![volume.to_string()]), 456);
    let usage = snapshot.volumes.get("remote").unwrap();
    assert_eq!(usage.status, DockerMetricStatus::Unavailable);
    assert_eq!(usage.measured_at, Some(456));
    assert!(usage.unavailable_reason.as_deref().unwrap().contains("nfs"));
}

#[test]
fn keeps_volume_usage_when_image_usage_is_missing() {
    let volume = r#"{
        "Name": "data",
        "Driver": "local",
        "Mountpoint": "/var/lib/docker/volumes/data/_data",
        "Scope": "local",
        "Labels": {},
        "Options": {},
        "UsageData": { "Size": 42, "RefCount": 1 }
    }"#;
    let snapshot = parse_disk_usage(&None, &Some(vec![volume.to_string()]), 789);
    assert_eq!(
        snapshot.volumes.get("data").unwrap(),
        &VolumeDiskUsage {
            status: DockerMetricStatus::Available,
            used_bytes: Some(42),
            measured_at: Some(789),
            unavailable_reason: None,
        }
    );
    assert!(snapshot.image_unavailable_reason.is_some());
    assert!(snapshot.volume_unavailable_reason.is_none());
}

#[test]
fn failed_refresh_retains_last_successful_snapshot() {
    let mut target = DockerDiskUsageSnapshot::new();
    target.measured_at = 123;
    let known = ImageDiskUsage {
        status: DockerMetricStatus::Available,
        total_bytes: Some(10),
        shared_bytes: None,
        unique_bytes: None,
        measured_at: None,
        unavailable_reason: None,
    };
    target.images.insert("sha256:one".to_string(), known.clone());
    let failed: Result<DockerDiskUsageSnapshot, String> = Err("transient Docker error".to_string());
    assert!(store_snapshot_result(&mut target, failed, 200).is_err());
    assert_eq!(target.measured_at, 123);
    assert_eq!(target.images.len(), 1);
    assert_eq!(target.images.get("sha256:one"), Some(&known));
    assert_eq!(target.volumes.len(), 0);
    assert!(target.image_unavailable_reason.is_none());
    assert!(target.volume_unavailable_reason.is_none());
}

#[test]
fn failed_initial_refresh_stops_reporting_pending() {
    let mut target = DockerDiskUsageSnapshot::new();
    let failed: Result<DockerDiskUsageSnapshot, String> = Err("Docker request failed".to_string());
    assert!(store_snapshot_result(&mut target, failed, 200).is_err());
    assert_ne!(target.measured_at, 0);
    assert!(target.image_unavailable_reason.is_some());
    assert!(target.volume_unavailable_reason.is_some());
    assert_ne!(
        image_disk_usage(&target, "sha256:any").status,
        DockerMetricStatus::Pending
    );
    assert_ne!(
        volume_disk_usage(&target, "any", "local").status,
        DockerMetricStatus::Pending
    );
}

#[test]
fn shared_and_unique_make_up_an_image() {
    let usage = image_usage(1_000, 250, 7);
    assert_eq!(usage.shared_bytes, Some(250));
    assert_eq!(usage.unique_bytes, Some(750));
    assert_eq!(
        image_usage(-1, 0, 7).status,
        DockerMetricStatus::Unavailable
    );
}

#[test]
fn unreadable_entries_are_told() {
    let snapshot = parse_disk_usage(
        &Some(vec!["not json".to_string()]),
        &Some(vec!["{".to_string()]),
        5,
    );
    assert_eq!(snapshot.images.len(), 0);
    assert!(snapshot.image_unavailable_reason.is_some());
    let (volumes, reason) = summarize_volumes(
        &vec![
            None,
            Some(VolumeEntry {
                name: "v".to_string(),
                driver: "local".to_string(),
                used_bytes: Some(3),
            }),
        ],
        5,
    );
    assert_eq!(volumes.get("v").unwrap().used_bytes, Some(3));
    assert!(reason.is_some());
}

#[test]
fn networks_are_pending_until_they_are_measured() {
    let mut snapshot: Registry<DockerNetworkUsage> = Registry::new();
    let pending = network_usage(&snapshot, "app");
    assert_eq!(pending.status, DockerMetricStatus::Pending);
    assert_eq!(pending.rate_status, DockerMetricStatus::Pending);
    assert_eq!(pending.measured_at, None);
    let measured = calculate_one_network(
        "app",
        &vec![container("a", &["app"])],
        &current(vec![("a", traffic("app", 10, 20, 2_000))]),
        &previous_samples(),
        2_000,
        10_000,
    );
    snapshot.insert("app".to_string(), measured.clone());
    assert_eq!(network_usage(&snapshot, "app"), measured);
    assert_eq!(network_usage(&snapshot, "other").status, DockerMetricStatus::Pending);
}
