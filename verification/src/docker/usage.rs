//! How much disk space images and volumes use.

use vstd::prelude::*;

use crate::docker::network_usage::DockerMetricStatus;
use crate::outside;
use crate::registry::Registry;
use crate::text;

verus! {

/// The disk space of an image.
#[derive(Clone, Debug, PartialEq, Eq)]
pub struct ImageDiskUsage {
    pub status: DockerMetricStatus,
    pub total_bytes: Option<i64>,
    pub shared_bytes: Option<i64>,
    pub unique_bytes: Option<i64>,
    pub measured_at: Option<i64>,
    pub unavailable_reason: Option<String>,
}

/// The disk space of a volume.
#[derive(Clone, Debug, PartialEq, Eq)]
pub struct VolumeDiskUsage {
    pub status: DockerMetricStatus,
    pub used_bytes: Option<i64>,
    pub measured_at: Option<i64>,
    pub unavailable_reason: Option<String>,
}

/// What is known of the disk space; nothing has been measured at time zero.
pub struct DockerDiskUsageSnapshot {
    pub measured_at: i64,
    pub images: Registry<ImageDiskUsage>,
    pub volumes: Registry<VolumeDiskUsage>,
    pub image_unavailable_reason: Option<String>,
    pub volume_unavailable_reason: Option<String>,
}

impl DockerDiskUsageSnapshot {
    /// No image and no volume occurs twice.
    pub open spec fn well_formed(self) -> bool {
        self.images.well_formed() && self.volumes.well_formed()
    }

    /// Nothing has been measured.
    pub fn new() -> (snapshot: Self)
        ensures
            snapshot.well_formed(),
            snapshot.measured_at == 0,
            snapshot.images@ == Map::<Seq<char>, ImageDiskUsage>::empty(),
            snapshot.volumes@ == Map::<Seq<char>, VolumeDiskUsage>::empty(),
            snapshot.image_unavailable_reason is None,
            snapshot.volume_unavailable_reason is None,
    {
        DockerDiskUsageSnapshot {
            measured_at: 0,
            images: Registry::new(),
            volumes: Registry::new(),
            image_unavailable_reason: None,
            volume_unavailable_reason: None,
        }
    }
}

/// An image as Docker describes it.
#[derive(Clone, Debug, PartialEq, Eq)]
pub struct ImageEntry {
    pub id: String,
    pub size: i64,
    pub shared_size: i64,
}

/// A volume as Docker describes it.
#[derive(Clone, Debug, PartialEq, Eq)]
pub struct VolumeEntry {
    pub name: String,
    pub driver: String,
    pub used_bytes: Option<i64>,
}

// ---------------------------------------------------------------------------
// Images
// ---------------------------------------------------------------------------

/// Why the disk space of an image is not known.
pub open spec fn image_refusal(size: i64, shared_size: i64) -> Option<Seq<char>> {
    if size < 0 || shared_size < 0 {
        Some("Docker did not report complete image layer usage"@)
    } else if shared_size > size {
        Some("Docker reported shared image usage larger than total usage"@)
    } else {
        None
    }
}

/// The usage says that nothing is known, and why.
pub open spec fn image_is_unavailable(
    usage: ImageDiskUsage,
    measured_at: i64,
    reason: Seq<char>,
) -> bool {
    &&& usage.status == DockerMetricStatus::Unavailable
    &&& usage.total_bytes is None
    &&& usage.shared_bytes is None
    &&& usage.unique_bytes is None
    &&& usage.measured_at == Some(measured_at)
    &&& text::held(usage.unavailable_reason) == Some(reason)
}

/// The usage tells the disk space of an image of the given sizes.
pub open spec fn tells_image(
    usage: ImageDiskUsage,
    size: i64,
    shared_size: i64,
    measured_at: i64,
) -> bool {
    match image_refusal(size, shared_size) {
        Some(reason) => image_is_unavailable(usage, measured_at, reason),
        None => {
            &&& usage.status == DockerMetricStatus::Available
            &&& usage.total_bytes == Some(size)
            &&& usage.shared_bytes == Some(shared_size)
            &&& usage.unique_bytes == Some((size - shared_size) as i64)
            &&& usage.measured_at == Some(measured_at)
            &&& usage.unavailable_reason is None
        },
    }
}

/// The disk space of an image of which nothing is known.
pub fn unavailable_image(measured_at: i64, reason: &str) -> (usage: ImageDiskUsage)
    ensures
        image_is_unavailable(usage, measured_at, reason@),
{
    ImageDiskUsage {
        status: DockerMetricStatus::Unavailable,
        total_bytes: None,
        shared_bytes: None,
        unique_bytes: None,
        measured_at: Some(measured_at),
        unavailable_reason: Some(reason.to_owned()),
    }
}

/// The disk space of an image of the given sizes.
pub fn image_usage(size: i64, shared_size: i64, measured_at: i64) -> (usage: ImageDiskUsage)
    ensures
        tells_image(usage, size, shared_size, measured_at),
{
    if size < 0 || shared_size < 0 {
        unavailable_image(measured_at, "Docker did not report complete image layer usage")
    } else if shared_size > size {
        unavailable_image(
            measured_at,
            "Docker reported shared image usage larger than total usage",
        )
    } else {
        ImageDiskUsage {
            status: DockerMetricStatus::Available,
            total_bytes: Some(size),
            shared_bytes: Some(shared_size),
            unique_bytes: Some(size - shared_size),
            measured_at: Some(measured_at),
            unavailable_reason: None,
        }
    }
}

/// An image over texts, if it could be read.
pub open spec fn image_model(entry: Option<ImageEntry>) -> Option<(Seq<char>, i64, i64)> {
    match entry {
        Some(image) => Some((image.id@, image.size, image.shared_size)),
        None => None,
    }
}

/// The sizes of the images that could be read; the last description of an image
/// counts.
pub open spec fn image_sizes(entries: Seq<Option<(Seq<char>, i64, i64)>>) -> Map<
    Seq<char>,
    (i64, i64),
>
    decreases entries.len(),
{
    if entries.len() == 0 {
        Map::empty()
    } else {
        match entries.last() {
            Some((id, size, shared_size)) => image_sizes(entries.drop_last()).insert(
                id,
                (size, shared_size),
            ),
            None => image_sizes(entries.drop_last()),
        }
    }
}

/// The usages tell the disk space of the images that could be read.
pub open spec fn tells_images(
    usages: Map<Seq<char>, ImageDiskUsage>,
    entries: Seq<Option<(Seq<char>, i64, i64)>>,
    measured_at: i64,
) -> bool {
    &&& usages.dom() == image_sizes(entries).dom()
    &&& forall|id: Seq<char>| #[trigger]
        usages.dom().contains(id) ==> tells_image(
            usages[id],
            image_sizes(entries)[id].0,
            image_sizes(entries)[id].1,
            measured_at,
        )
}

/// Why an image may be missing: an entry could not be read.
pub open spec fn image_gap(entries: Seq<Option<(Seq<char>, i64, i64)>>) -> Option<Seq<char>> {
    if entries.contains(None) {
        Some("Docker returned an invalid image disk usage entry"@)
    } else {
        None
    }
}

/// The models of the entries.
pub open spec fn image_models(entries: Seq<Option<ImageEntry>>) -> Seq<
    Option<(Seq<char>, i64, i64)>,
> {
    Seq::new(entries.len(), |i: int| image_model(entries[i]))
}

/// The disk space of the images, from entries that were read.
pub fn summarize_images(entries: &Vec<Option<ImageEntry>>, measured_at: i64) -> (summary: (
    Registry<ImageDiskUsage>,
    Option<String>,
))
    ensures
        summary.0.well_formed(),
        tells_images(summary.0@, image_models(entries@), measured_at),
        text::held(summary.1) == image_gap(image_models(entries@)),
{
    let ghost models = image_models(entries@);
    let mut images: Registry<ImageDiskUsage> = Registry::new();
    let mut invalid = false;
    assert(models.take(0) =~= Seq::<Option<(Seq<char>, i64, i64)>>::empty());
    assert(images@.dom() =~= image_sizes(models.take(0)).dom());
    for i in 0..entries.len()
        invariant
            models == image_models(entries@),
            images.well_formed(),
            tells_images(images@, models.take(i as int), measured_at),
            invalid == models.take(i as int).contains(None),
    {
        let ghost prefix = models.take(i as int);
        let ghost more = models.take(i + 1);
        proof {
            assert(more.drop_last() =~= prefix);
            assert(more.last() == image_model(entries@[i as int]));
            assert(prefix.contains(None) ==> more.contains(None)) by {
                if prefix.contains(None) {
                    let k = prefix.index_of(None);
                    assert(more[k] == prefix[k]);
                }
            }
        }
        match &entries[i] {
            None => {
                invalid = true;
                assert(more[i as int] == None::<(Seq<char>, i64, i64)>);
            },
            Some(image) => {
                images.insert(
                    image.id.clone(),
                    image_usage(image.size, image.shared_size, measured_at),
                );
                assert(images@.dom() =~= image_sizes(more).dom());
                assert(more.contains(None) ==> prefix.contains(None)) by {
                    if more.contains(None) {
                        let k = more.index_of(None);
                        assert(prefix[k] == more[k]);
                    }
                }
            },
        }
    }
    assert(models.take(models.len() as int) =~= models);
    let reason = if invalid {
        Some("Docker returned an invalid image disk usage entry".to_owned())
    } else {
        None
    };
    (images, reason)
}

/// What the JSON texts describe.
pub open spec fn described_images(items: Seq<String>) -> Seq<Option<(Seq<char>, i64, i64)>> {
    Seq::new(items.len(), |i: int| outside::image_entry_of(items[i]@))
}

/// The disk space of the images that the JSON texts describe.
pub fn parse_image_usage(items: &Vec<String>, measured_at: i64) -> (summary: (
    Registry<ImageDiskUsage>,
    Option<String>,
))
    ensures
        summary.0.well_formed(),
        tells_images(summary.0@, described_images(items@), measured_at),
        text::held(summary.1) == image_gap(described_images(items@)),
{
    let mut entries: Vec<Option<ImageEntry>> = Vec::new();
    for i in 0..items.len()
        invariant
            entries@.len() == i,
            forall|k: int|
                0 <= k < i ==> image_model(#[trigger] entries@[k]) == outside::image_entry_of(
                    items@[k]@,
                ),
    {
        entries.push(
            match outside::decode_image_entry(items[i].as_str()) {
                Some((id, size, shared_size)) => Some(ImageEntry { id, size, shared_size }),
                None => None,
            },
        );
    }
    assert(image_models(entries@) =~= described_images(items@));
    summarize_images(&entries, measured_at)
}

// ---------------------------------------------------------------------------
// Volumes
// ---------------------------------------------------------------------------

/// The disk space of a volume, or why it is not known.
pub open spec fn volume_known(driver: Seq<char>, used_bytes: Option<i64>) -> Result<i64, Seq<char>> {
    if driver != "local"@ {
        Err("The "@ + driver + " volume driver does not report local disk usage"@)
    } else {
        match used_bytes {
            Some(bytes) => if bytes >= 0 {
                Ok(bytes)
            } else {
                Err("Docker did not report usage for this local volume"@)
            },
            None => Err("Docker did not report usage for this local volume"@),
        }
    }
}

/// The usage tells what is known of a volume.
pub open spec fn tells_volume(
    usage: VolumeDiskUsage,
    known: Result<i64, Seq<char>>,
    measured_at: i64,
) -> bool {
    &&& usage.measured_at == Some(measured_at)
    &&& match known {
        Ok(bytes) => {
            &&& usage.status == DockerMetricStatus::Available
            &&& usage.used_bytes == Some(bytes)
            &&& usage.unavailable_reason is None
        },
        Err(reason) => {
            &&& usage.status == DockerMetricStatus::Unavailable
            &&& usage.used_bytes is None
            &&& text::held(usage.unavailable_reason) == Some(reason)
        },
    }
}

fn unavailable_volume(measured_at: i64, reason: String) -> (usage: VolumeDiskUsage)
    ensures
        tells_volume(usage, Err(reason@), measured_at),
{
    VolumeDiskUsage {
        status: DockerMetricStatus::Unavailable,
        used_bytes: None,
        measured_at: Some(measured_at),
        unavailable_reason: Some(reason),
    }
}

/// The disk space of a volume: only the local driver reports it.
pub fn volume_usage(driver: &str, used_bytes: Option<i64>, measured_at: i64) -> (usage:
    VolumeDiskUsage)
    ensures
        tells_volume(usage, volume_known(driver@, used_bytes), measured_at),
{
    if !text::same(driver, "local") {
        return unavailable_volume(
            measured_at,
            text::concat3("The ", driver, " volume driver does not report local disk usage"),
        );
    }
    match used_bytes {
        Some(bytes) => if bytes >= 0 {
            VolumeDiskUsage {
                status: DockerMetricStatus::Available,
                used_bytes: Some(bytes),
                measured_at: Some(measured_at),
                unavailable_reason: None,
            }
        } else {
            unavailable_volume(
                measured_at,
                "Docker did not report usage for this local volume".to_owned(),
            )
        },
        None => unavailable_volume(
            measured_at,
            "Docker did not report usage for this local volume".to_owned(),
        ),
    }
}

/// A volume over texts, if it could be read.
pub open spec fn volume_model(entry: Option<VolumeEntry>) -> Option<
    (Seq<char>, Seq<char>, Option<i64>),
> {
    match entry {
        Some(volume) => Some((volume.name@, volume.driver@, volume.used_bytes)),
        None => None,
    }
}

/// What is known of the volumes that could be read; the last description of a
/// volume counts.
pub open spec fn volumes_known(entries: Seq<Option<(Seq<char>, Seq<char>, Option<i64>)>>) -> Map<
    Seq<char>,
    Result<i64, Seq<char>>,
>
    decreases entries.len(),
{
    if entries.len() == 0 {
        Map::empty()
    } else {
        match entries.last() {
            Some((name, driver, used_bytes)) => volumes_known(entries.drop_last()).insert(
                name,
                volume_known(driver, used_bytes),
            ),
            None => volumes_known(entries.drop_last()),
        }
    }
}

/// The usages tell the disk space of the volumes that could be read.
pub open spec fn tells_volumes(
    usages: Map<Seq<char>, VolumeDiskUsage>,
    entries: Seq<Option<(Seq<char>, Seq<char>, Option<i64>)>>,
    measured_at: i64,
) -> bool {
    &&& usages.dom() == volumes_known(entries).dom()
    &&& forall|name: Seq<char>| #[trigger]
        usages.dom().contains(name) ==> tells_volume(
            usages[name],
            volumes_known(entries)[name],
            measured_at,
        )
}

/// Why a volume may be missing: an entry could not be read.
pub open spec fn volume_gap(entries: Seq<Option<(Seq<char>, Seq<char>, Option<i64>)>>) -> Option<
    Seq<char>,
> {
    if entries.contains(None) {
        Some("Docker returned an invalid volume disk usage entry"@)
    } else {
        None
    }
}

/// The models of the entries.
pub open spec fn volume_models(entries: Seq<Option<VolumeEntry>>) -> Seq<
    Option<(Seq<char>, Seq<char>, Option<i64>)>,
> {
    Seq::new(entries.len(), |i: int| volume_model(entries[i]))
}

/// The disk space of the volumes, from entries that were read.
pub fn summarize_volumes(entries: &Vec<Option<VolumeEntry>>, measured_at: i64) -> (summary: (
    Registry<VolumeDiskUsage>,
    Option<String>,
))
    ensures
        summary.0.well_formed(),
        tells_volumes(summary.0@, volume_models(entries@), measured_at),
        text::held(summary.1) == volume_gap(volume_models(entries@)),
{
    let ghost models = volume_models(entries@);
    let mut volumes: Registry<VolumeDiskUsage> = Registry::new();
    let mut invalid = false;
    assert(models.take(0) =~= Seq::<Option<(Seq<char>, Seq<char>, Option<i64>)>>::empty());
    assert(volumes@.dom() =~= volumes_known(models.take(0)).dom());
    for i in 0..entries.len()
        invariant
            models == volume_models(entries@),
            volumes.well_formed(),
            tells_volumes(volumes@, models.take(i as int), measured_at),
            invalid == models.take(i as int).contains(None),
    {
        let ghost prefix = models.take(i as int);
        let ghost more = models.take(i + 1);
        proof {
            assert(more.drop_last() =~= prefix);
            assert(more.last() == volume_model(entries@[i as int]));
            assert(prefix.contains(None) ==> more.contains(None)) by {
                if prefix.contains(None) {
                    let k = prefix.index_of(None);
                    assert(more[k] == prefix[k]);
                }
            }
        }
        match &entries[i] {
            None => {
                invalid = true;
                assert(more[i as int] == None::<(Seq<char>, Seq<char>, Option<i64>)>);
            },
            Some(volume) => {
                volumes.insert(
                    volume.name.clone(),
                    volume_usage(volume.driver.as_str(), volume.used_bytes, measured_at),
                );
                assert(volumes@.dom() =~= volumes_known(more).dom());
                assert(more.contains(None) ==> prefix.contains(None)) by {
                    if more.contains(None) {
                        let k = more.index_of(None);
                        assert(prefix[k] == more[k]);
                    }
                }
            },
        }
    }
    assert(models.take(models.len() as int) =~= models);
    let reason = if invalid {
        Some("Docker returned an invalid volume disk usage entry".to_owned())
    } else {
        None
    };
    (volumes, reason)
}

/// What the JSON texts describe.
pub open spec fn described_volumes(items: Seq<String>) -> Seq<
    Option<(Seq<char>, Seq<char>, Option<i64>)>,
> {
    Seq::new(items.len(), |i: int| outside::volume_entry_of(items[i]@))
}

/// The disk space of the volumes that the JSON texts describe.
pub fn parse_volume_usage(items: &Vec<String>, measured_at: i64) -> (summary: (
    Registry<VolumeDiskUsage>,
    Option<String>,
))
    ensures
        summary.0.well_formed(),
        tells_volumes(summary.0@, described_volumes(items@), measured_at),
        text::held(summary.1) == volume_gap(described_volumes(items@)),
{
    let mut entries: Vec<Option<VolumeEntry>> = Vec::new();
    for i in 0..items.len()
        invariant
            entries@.len() == i,
            forall|k: int|
                0 <= k < i ==> volume_model(#[trigger] entries@[k]) == outside::volume_entry_of(
                    items@[k]@,
                ),
    {
        entries.push(
            match outside::decode_volume_entry(items[i].as_str()) {
                Some((name, driver, used_bytes)) => Some(VolumeEntry { name, driver, used_bytes }),
                None => None,
            },
        );
    }
    assert(volume_models(entries@) =~= described_volumes(items@));
    summarize_volumes(&entries, measured_at)
}

// ---------------------------------------------------------------------------
// Snapshots
// ---------------------------------------------------------------------------

/// The disk space that a response of Docker tells. Its items are JSON texts; a
/// kind of which the response has no items is left out.
pub fn parse_disk_usage(
    image_items: &Option<Vec<String>>,
    volume_items: &Option<Vec<String>>,
    measured_at: i64,
) -> (snapshot: DockerDiskUsageSnapshot)
    ensures
        snapshot.well_formed(),
        snapshot.measured_at == measured_at,
        match *image_items {
            Some(items) => tells_images(
                snapshot.images@,
                described_images(items@),
                measured_at,
            ) && text::held(snapshot.image_unavailable_reason) == image_gap(
                described_images(items@),
            ),
            None => snapshot.images@ == Map::<Seq<char>, ImageDiskUsage>::empty() && text::held(
                snapshot.image_unavailable_reason,
            ) == Some("Docker omitted image disk usage"@),
        },
        match *volume_items {
            Some(items) => tells_volumes(
                snapshot.volumes@,
                described_volumes(items@),
                measured_at,
            ) && text::held(snapshot.volume_unavailable_reason) == volume_gap(
                described_volumes(items@),
            ),
            None => snapshot.volumes@ == Map::<Seq<char>, VolumeDiskUsage>::empty() && text::held(
                snapshot.volume_unavailable_reason,
            ) == Some("Docker omitted volume disk usage"@),
        },
{
    let (images, image_unavailable_reason) = match image_items {
        Some(items) => parse_image_usage(items, measured_at),
        None => (Registry::new(), Some("Docker omitted image disk usage".to_owned())),
    };
    let (volumes, volume_unavailable_reason) = match volume_items {
        Some(items) => parse_volume_usage(items, measured_at),
        None => (Registry::new(), Some("Docker omitted volume disk usage".to_owned())),
    };
    DockerDiskUsageSnapshot {
        measured_at,
        images,
        volumes,
        image_unavailable_reason,
        volume_unavailable_reason,
    }
}

/// The snapshot says that the first measurement failed, and why.
pub open spec fn says_failed(
    snapshot: DockerDiskUsageSnapshot,
    reason: Seq<char>,
    now: i64,
) -> bool {
    &&& snapshot.well_formed()
    &&& snapshot.measured_at == now
    &&& snapshot.images@ == Map::<Seq<char>, ImageDiskUsage>::empty()
    &&& snapshot.volumes@ == Map::<Seq<char>, VolumeDiskUsage>::empty()
    &&& text::held(snapshot.image_unavailable_reason) == Some(reason)
    &&& text::held(snapshot.volume_unavailable_reason) == Some(reason)
}

/// Notes a failure, unless something has been measured before.
pub fn store_initial_failure(target: &mut DockerDiskUsageSnapshot, reason: &str, now: i64)
    ensures
        if old(target).measured_at != 0 {
            *final(target) == *old(target)
        } else {
            says_failed(*final(target), reason@, now)
        },
{
    if target.measured_at != 0 {
        return;
    }
    *target = DockerDiskUsageSnapshot {
        measured_at: now,
        images: Registry::new(),
        volumes: Registry::new(),
        image_unavailable_reason: Some(reason.to_owned()),
        volume_unavailable_reason: Some(reason.to_owned()),
    };
}

/// Keeps a new measurement. A failed one does not replace one that succeeded
/// before, and its error is handed back.
pub fn store_snapshot_result<E>(
    target: &mut DockerDiskUsageSnapshot,
    result: Result<DockerDiskUsageSnapshot, E>,
    now: i64,
) -> (stored: Result<(), E>)
    ensures
        match result {
            Ok(snapshot) => stored is Ok && *final(target) == snapshot,
            Err(error) => stored == Err::<(), E>(error) && if old(target).measured_at != 0 {
                *final(target) == *old(target)
            } else {
                says_failed(
                    *final(target),
                    "The initial Docker disk usage measurement failed"@,
                    now,
                )
            },
        },
{
    match result {
        Ok(snapshot) => {
            *target = snapshot;
            Ok(())
        },
        Err(error) => {
            store_initial_failure(
                target,
                "The initial Docker disk usage measurement failed",
                now,
            );
            Err(error)
        },
    }
}

fn copy_opt(text: &Option<String>) -> (copy: Option<String>)
    ensures
        copy == *text,
{
    match text {
        Some(value) => Some(value.clone()),
        None => None,
    }
}

/// The answer to a question about an image.
pub open spec fn answers_image(
    snapshot: DockerDiskUsageSnapshot,
    image_id: Seq<char>,
    usage: ImageDiskUsage,
) -> bool {
    if snapshot.measured_at == 0 {
        usage == ImageDiskUsage {
            status: DockerMetricStatus::Pending,
            total_bytes: None,
            shared_bytes: None,
            unique_bytes: None,
            measured_at: None,
            unavailable_reason: None,
        }
    } else if snapshot.images@.dom().contains(image_id) {
        usage == snapshot.images@[image_id]
    } else {
        image_is_unavailable(
            usage,
            snapshot.measured_at,
            match text::held(snapshot.image_unavailable_reason) {
                Some(reason) => reason,
                None => "Image was not present in the latest Docker disk usage snapshot"@,
            },
        )
    }
}

/// The disk space of an image, as far as it is known.
pub fn image_disk_usage(snapshot: &DockerDiskUsageSnapshot, image_id: &str) -> (usage:
    ImageDiskUsage)
    requires
        snapshot.well_formed(),
    ensures
        answers_image(*snapshot, image_id@, usage),
{
    if snapshot.measured_at == 0 {
        return ImageDiskUsage {
            status: DockerMetricStatus::Pending,
            total_bytes: None,
            shared_bytes: None,
            unique_bytes: None,
            measured_at: None,
            unavailable_reason: None,
        };
    }
    match snapshot.images.get(image_id) {
        Some(usage) => ImageDiskUsage {
            status: usage.status,
            total_bytes: usage.total_bytes,
            shared_bytes: usage.shared_bytes,
            unique_bytes: usage.unique_bytes,
            measured_at: usage.measured_at,
            unavailable_reason: copy_opt(&usage.unavailable_reason),
        },
        None => match &snapshot.image_unavailable_reason {
            Some(reason) => unavailable_image(snapshot.measured_at, reason.as_str()),
            None => unavailable_image(
                snapshot.measured_at,
                "Image was not present in the latest Docker disk usage snapshot",
            ),
        },
    }
}

/// The answer to a question about a volume.
pub open spec fn answers_volume(
    snapshot: DockerDiskUsageSnapshot,
    volume_name: Seq<char>,
    driver: Seq<char>,
    usage: VolumeDiskUsage,
) -> bool {
    if snapshot.measured_at == 0 {
        usage == VolumeDiskUsage {
            status: DockerMetricStatus::Pending,
            used_bytes: None,
            measured_at: None,
            unavailable_reason: None,
        }
    } else if snapshot.volumes@.dom().contains(volume_name) {
        usage == snapshot.volumes@[volume_name]
    } else {
        tells_volume(
            usage,
            match text::held(snapshot.volume_unavailable_reason) {
                Some(reason) => Err(reason),
                None => volume_known(driver, None),
            },
            snapshot.measured_at,
        )
    }
}

/// The disk space of a volume, as far as it is known.
pub fn volume_disk_usage(
    snapshot: &DockerDiskUsageSnapshot,
    volume_name: &str,
    driver: &str,
) -> (usage: VolumeDiskUsage)
    requires
        snapshot.well_formed(),
    ensures
        answers_volume(*snapshot, volume_name@, driver@, usage),
{
    if snapshot.measured_at == 0 {
        return VolumeDiskUsage {
            status: DockerMetricStatus::Pending,
            used_bytes: None,
            measured_at: None,
            unavailable_reason: None,
        };
    }
    match snapshot.volumes.get(volume_name) {
        Some(usage) => VolumeDiskUsage {
            status: usage.status,
            used_bytes: usage.used_bytes,
            measured_at: usage.measured_at,
            unavailable_reason: copy_opt(&usage.unavailable_reason),
        },
        None => match &snapshot.volume_unavailable_reason {
            Some(reason) => unavailable_volume(snapshot.measured_at, reason.clone()),
            None => volume_usage(driver, None, snapshot.measured_at),
        },
    }
}

// ---------------------------------------------------------------------------
// Laws
// ---------------------------------------------------------------------------

/// What an image shares and what it has alone make up all that it uses, and
/// neither is negative.
pub proof fn shared_and_unique_make_up_the_total(
    usage: ImageDiskUsage,
    size: i64,
    shared_size: i64,
    measured_at: i64,
)
    requires
        tells_image(usage, size, shared_size, measured_at),
        usage.status == DockerMetricStatus::Available,
    ensures
        usage.shared_bytes->Some_0 >= 0,
        usage.unique_bytes->Some_0 >= 0,
        usage.shared_bytes->Some_0 + usage.unique_bytes->Some_0 == usage.total_bytes->Some_0,
{
}

/// Once Docker has been asked, no answer about an image is pending any more:
/// not after a measurement, and not after the first one failed.
pub proof fn measured_images_are_not_pending(
    snapshot: DockerDiskUsageSnapshot,
    entries: Seq<Option<(Seq<char>, i64, i64)>>,
    image_id: Seq<char>,
    usage: ImageDiskUsage,
)
    requires
        snapshot.measured_at != 0,
        tells_images(snapshot.images@, entries, snapshot.measured_at),
        answers_image(snapshot, image_id, usage),
    ensures
        usage.status != DockerMetricStatus::Pending,
        usage.status == DockerMetricStatus::Available ==> image_sizes(entries).dom().contains(
            image_id,
        ),
{
}

/// Once Docker has been asked, no answer about a volume is pending any more, and
/// only volumes that Docker described are told to be available.
pub proof fn measured_volumes_are_not_pending(
    snapshot: DockerDiskUsageSnapshot,
    entries: Seq<Option<(Seq<char>, Seq<char>, Option<i64>)>>,
    volume_name: Seq<char>,
    driver: Seq<char>,
    usage: VolumeDiskUsage,
)
    requires
        snapshot.measured_at != 0,
        tells_volumes(snapshot.volumes@, entries, snapshot.measured_at),
        answers_volume(snapshot, volume_name, driver, usage),
    ensures
        usage.status != DockerMetricStatus::Pending,
        usage.status == DockerMetricStatus::Available ==> volumes_known(entries).dom().contains(
            volume_name,
        ),
{
}

/// The last description of an image that could be read counts.
pub proof fn last_descriptions_of_images_count(
    entries: Seq<Option<(Seq<char>, i64, i64)>>,
    id: Seq<char>,
    size: i64,
    shared_size: i64,
    k: int,
)
    requires
        0 <= k < entries.len(),
        entries[k] == Some((id, size, shared_size)),
        forall|j: int|
            k < j < entries.len() ==> (#[trigger] entries[j] matches Some(later) ==> later.0 != id),
    ensures
        image_sizes(entries).dom().contains(id),
        image_sizes(entries)[id] == (size, shared_size),
    decreases entries.len(),
{
    if k < entries.len() - 1 {
        let rest = entries.drop_last();
        assert forall|j: int| k < j < rest.len() implies (#[trigger] rest[j] matches Some(later)
            ==> later.0 != id) by {
            assert(rest[j] == entries[j]);
        }
        last_descriptions_of_images_count(rest, id, size, shared_size, k);
        assert(entries[entries.len() - 1] matches Some(later) ==> later.0 != id);
    }
}

/// An image that Docker measured is told with what Docker said of it: its size,
/// what it shares, and the difference. Sizes that cannot be right are not told.
pub proof fn images_are_told_as_described(
    usages: Map<Seq<char>, ImageDiskUsage>,
    entries: Seq<Option<(Seq<char>, i64, i64)>>,
    measured_at: i64,
    id: Seq<char>,
    size: i64,
    shared_size: i64,
    k: int,
)
    requires
        tells_images(usages, entries, measured_at),
        0 <= k < entries.len(),
        entries[k] == Some((id, size, shared_size)),
        forall|j: int|
            k < j < entries.len() ==> (#[trigger] entries[j] matches Some(later) ==> later.0 != id),
    ensures
        usages.dom().contains(id),
        usages[id].measured_at == Some(measured_at),
        0 <= shared_size <= size ==> {
            &&& usages[id].status == DockerMetricStatus::Available
            &&& usages[id].total_bytes == Some(size)
            &&& usages[id].shared_bytes == Some(shared_size)
            &&& usages[id].unique_bytes matches Some(unique) && unique + shared_size == size
            &&& usages[id].unavailable_reason is None
        },
        !(0 <= shared_size <= size) ==> {
            &&& usages[id].status == DockerMetricStatus::Unavailable
            &&& usages[id].total_bytes is None
            &&& usages[id].shared_bytes is None
            &&& usages[id].unique_bytes is None
            &&& usages[id].unavailable_reason is Some
        },
{
    last_descriptions_of_images_count(entries, id, size, shared_size, k);
    assert(usages.dom().contains(id));
}

proof fn lemma_known_images(entries: Seq<Option<(Seq<char>, i64, i64)>>, id: Seq<char>)
    ensures
        image_sizes(entries).dom().contains(id) ==> exists|k: int|
            0 <= k < entries.len() && (#[trigger] entries[k] matches Some(one) && one.0 == id),
    decreases entries.len(),
{
    if entries.len() > 0 && image_sizes(entries).dom().contains(id) {
        let rest = entries.drop_last();
        lemma_known_images(rest, id);
        if image_sizes(rest).dom().contains(id) {
            let k = choose|k: int|
                0 <= k < rest.len() && (#[trigger] rest[k] matches Some(one) && one.0 == id);
            assert(entries[k] == rest[k]);
        } else {
            assert(entries[entries.len() - 1] matches Some(one) && one.0 == id);
        }
    }
}

/// Only images that Docker described are told.
pub proof fn no_image_is_made_up(
    usages: Map<Seq<char>, ImageDiskUsage>,
    entries: Seq<Option<(Seq<char>, i64, i64)>>,
    measured_at: i64,
    id: Seq<char>,
)
    requires
        tells_images(usages, entries, measured_at),
        usages.dom().contains(id),
    ensures
        exists|k: int|
            0 <= k < entries.len() && (#[trigger] entries[k] matches Some(one) && one.0 == id),
{
    lemma_known_images(entries, id);
}

/// The last description of a volume that could be read counts.
pub proof fn last_descriptions_of_volumes_count(
    entries: Seq<Option<(Seq<char>, Seq<char>, Option<i64>)>>,
    name: Seq<char>,
    driver: Seq<char>,
    used_bytes: Option<i64>,
    k: int,
)
    requires
        0 <= k < entries.len(),
        entries[k] == Some((name, driver, used_bytes)),
        forall|j: int|
            k < j < entries.len() ==> (#[trigger] entries[j] matches Some(later) ==> later.0
                != name),
    ensures
        volumes_known(entries).dom().contains(name),
        volumes_known(entries)[name] == volume_known(driver, used_bytes),
    decreases entries.len(),
{
    if k < entries.len() - 1 {
        let rest = entries.drop_last();
        assert forall|j: int| k < j < rest.len() implies (#[trigger] rest[j] matches Some(later)
            ==> later.0 != name) by {
            assert(rest[j] == entries[j]);
        }
        last_descriptions_of_volumes_count(rest, name, driver, used_bytes, k);
        assert(entries[entries.len() - 1] matches Some(later) ==> later.0 != name);
    }
}

/// A local volume that Docker measured is told with what Docker said of it; of a
/// volume of another driver, or one that was not measured, nothing is told.
pub proof fn volumes_are_told_as_described(
    usages: Map<Seq<char>, VolumeDiskUsage>,
    entries: Seq<Option<(Seq<char>, Seq<char>, Option<i64>)>>,
    measured_at: i64,
    name: Seq<char>,
    driver: Seq<char>,
    used_bytes: Option<i64>,
    k: int,
)
    requires
        tells_volumes(usages, entries, measured_at),
        0 <= k < entries.len(),
        entries[k] == Some((name, driver, used_bytes)),
        forall|j: int|
            k < j < entries.len() ==> (#[trigger] entries[j] matches Some(later) ==> later.0
                != name),
    ensures
        usages.dom().contains(name),
        usages[name].measured_at == Some(measured_at),
        driver == "local"@ && used_bytes is Some && used_bytes->Some_0 >= 0 ==> {
            &&& usages[name].status == DockerMetricStatus::Available
            &&& usages[name].used_bytes == used_bytes
            &&& usages[name].unavailable_reason is None
        },
        driver != "local"@ || used_bytes is None || used_bytes->Some_0 < 0 ==> {
            &&& usages[name].status == DockerMetricStatus::Unavailable
            &&& usages[name].used_bytes is None
            &&& usages[name].unavailable_reason is Some
        },
{
    last_descriptions_of_volumes_count(entries, name, driver, used_bytes, k);
    assert(usages.dom().contains(name));
}

/// A snapshot answers with what it holds: about an image or a volume that was
/// measured, the answer is the measurement itself, and about any other one it is
/// that nothing is known. Before the first measurement everything is pending.
pub proof fn snapshots_answer_with_what_they_hold(
    snapshot: DockerDiskUsageSnapshot,
    image_id: Seq<char>,
    image: ImageDiskUsage,
    volume_name: Seq<char>,
    driver: Seq<char>,
    volume: VolumeDiskUsage,
)
    requires
        answers_image(snapshot, image_id, image),
        answers_volume(snapshot, volume_name, driver, volume),
    ensures
        snapshot.measured_at == 0 ==> image.status == DockerMetricStatus::Pending && volume.status
            == DockerMetricStatus::Pending && image.total_bytes is None && volume.used_bytes
            is None,
        snapshot.measured_at != 0 && snapshot.images@.dom().contains(image_id) ==> image
            == snapshot.images@[image_id],
        snapshot.measured_at != 0 && snapshot.volumes@.dom().contains(volume_name) ==> volume
            == snapshot.volumes@[volume_name],
        snapshot.measured_at != 0 && !snapshot.images@.dom().contains(image_id) ==> image.status
            == DockerMetricStatus::Unavailable && image.total_bytes is None
            && image.unavailable_reason is Some && image.measured_at == Some(snapshot.measured_at),
        snapshot.measured_at != 0 && !snapshot.volumes@.dom().contains(volume_name)
            ==> volume.status == DockerMetricStatus::Unavailable && volume.used_bytes is None
            && volume.unavailable_reason is Some && volume.measured_at == Some(
            snapshot.measured_at,
        ),
{
}

} // verus!
