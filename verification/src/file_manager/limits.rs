//! Limits on what a file operation may touch, read and fill.

use vstd::prelude::*;

use crate::config::PeripheryConfig;
use crate::path;

verus! {

/// The largest file that can be edited as text.
pub const MAX_TEXT_BYTES: u64 = 4194304;

/// Zero: the size of an expanded archive is bounded by capacity alone.
pub const MAX_ARCHIVE_EXPANDED_BYTES: u64 = 0;

/// How much larger than the archive its contents may be.
pub const MAX_ARCHIVE_EXPANSION_RATIO: u64 = 1000;

/// What has to stay free on every filesystem that is written to.
pub const MINIMUM_FREE_BYTES: u64 = 268435456;

/// Why a limit stops an operation.
#[derive(Clone, Copy, Debug, PartialEq, Eq, Structural)]
pub enum LimitError {
    /// More entries than allowed.
    TooManyEntries { maximum: u64 },
    /// The file is larger than allowed.
    TooLarge,
    /// The archive's contents are too large for the archive.
    ExpansionRatio,
    /// Less space is free than needed.
    InsufficientSpace { required: u64, available: u64 },
    /// The tree is too deep.
    TooDeep,
}

/// The limits that are made known to callers.
#[derive(Clone, Copy, Debug, PartialEq, Eq, Structural)]
pub struct FileManagerLimits {
    pub max_text_bytes: u64,
    pub max_entries: u64,
    pub max_depth: u64,
    pub max_archive_expanded_bytes: u64,
    pub max_archive_expansion_ratio: u64,
    pub minimum_free_bytes: u64,
}

/// The limits in force.
pub fn limits(config: &PeripheryConfig) -> (limits: FileManagerLimits)
    ensures
        limits == (FileManagerLimits {
            max_text_bytes: MAX_TEXT_BYTES,
            max_entries: config.file_manager_max_entries,
            max_depth: path::MAX_DEPTH as u64,
            max_archive_expanded_bytes: MAX_ARCHIVE_EXPANDED_BYTES,
            max_archive_expansion_ratio: MAX_ARCHIVE_EXPANSION_RATIO,
            minimum_free_bytes: MINIMUM_FREE_BYTES,
        }),
{
    FileManagerLimits {
        max_text_bytes: MAX_TEXT_BYTES,
        max_entries: max_entries(config),
        max_depth: path::MAX_DEPTH as u64,
        max_archive_expanded_bytes: MAX_ARCHIVE_EXPANDED_BYTES,
        max_archive_expansion_ratio: MAX_ARCHIVE_EXPANSION_RATIO,
        minimum_free_bytes: MINIMUM_FREE_BYTES,
    }
}

/// How many entries one operation may touch.
pub fn max_entries(config: &PeripheryConfig) -> (maximum: u64)
    ensures
        maximum == config.file_manager_max_entries,
{
    config.file_manager_max_entries
}

/// Whether an operation may touch this many entries.
pub fn ensure_entry_limit(entries: u64, config: &PeripheryConfig) -> (outcome: Result<
    (),
    LimitError,
>)
    ensures
        outcome == within_entries(entries, config.file_manager_max_entries),
{
    ensure_entry_limit_with_max(entries, max_entries(config))
}

/// An operation may touch up to `maximum` entries.
pub open spec fn within_entries(entries: u64, maximum: u64) -> Result<(), LimitError> {
    if entries > maximum {
        Err(LimitError::TooManyEntries { maximum })
    } else {
        Ok(())
    }
}

/// Whether this many entries are within the maximum.
pub fn ensure_entry_limit_with_max(entries: u64, maximum: u64) -> (outcome: Result<(), LimitError>)
    ensures
        outcome == within_entries(entries, maximum),
{
    if entries > maximum {
        return Err(LimitError::TooManyEntries { maximum });
    }
    Ok(())
}

/// The sum, or the largest number where the sum does not fit.
pub open spec fn saturating_sum(a: u64, b: u64) -> u64 {
    if a + b > u64::MAX {
        u64::MAX
    } else {
        (a + b) as u64
    }
}

/// The product, or the largest number where the product does not fit.
pub open spec fn saturating_product(a: u64, b: u64) -> u64 {
    if a * b > u64::MAX {
        u64::MAX
    } else {
        (a * b) as u64
    }
}

pub fn saturating_mul(a: u64, b: u64) -> (product: u64)
    ensures
        product == saturating_product(a, b),
{
    match a.checked_mul(b) {
        Some(product) => product,
        None => u64::MAX,
    }
}

/// How much of a file is read to learn that it is too large.
pub fn read_allowance(maximum: u64) -> (bytes: u64)
    ensures
        bytes == saturating_sum(maximum, 1),
{
    maximum.saturating_add(1)
}

/// The bytes that were read of a file, unless they are more than allowed. A
/// file that grew while it was read is noticed by the one byte beyond the
/// maximum.
pub fn read_bounded(bytes: Vec<u8>, maximum: u64) -> (contents: Result<Vec<u8>, LimitError>)
    ensures
        match contents {
            Ok(held) => held == bytes && bytes@.len() <= maximum,
            Err(error) => error == LimitError::TooLarge && bytes@.len() > maximum,
        },
{
    if bytes.len() as u64 > maximum {
        return Err(LimitError::TooLarge);
    }
    Ok(bytes)
}

/// The contents are not too large for the archive: at most a thousand times
/// its size, an empty archive counting as one byte.
pub open spec fn expansion_allowed(expanded: u64, compressed: u64) -> bool {
    expanded <= saturating_product(
        if compressed > 1 {
            compressed
        } else {
            1
        },
        MAX_ARCHIVE_EXPANSION_RATIO,
    )
}

/// Whether an archive may expand to this size.
pub fn enforce_expansion_limits(expanded: u64, compressed: u64) -> (outcome: Result<(), LimitError>)
    ensures
        outcome is Ok <==> expansion_allowed(expanded, compressed),
        outcome matches Err(error) ==> error == LimitError::ExpansionRatio,
{
    let base: u64 = if compressed > 1 {
        compressed
    } else {
        1
    };
    if expanded > saturating_mul(base, MAX_ARCHIVE_EXPANSION_RATIO) {
        return Err(LimitError::ExpansionRatio);
    }
    Ok(())
}

/// Work that an operation has to do.
#[derive(Clone, Copy, Debug, PartialEq, Eq, Structural)]
pub struct WorkTotal {
    pub entries: u64,
    pub bytes: u64,
}

/// Both parts of the work, each up to the largest number.
pub open spec fn work_sum(a: WorkTotal, b: WorkTotal) -> WorkTotal {
    WorkTotal {
        entries: saturating_sum(a.entries, b.entries),
        bytes: saturating_sum(a.bytes, b.bytes),
    }
}

impl WorkTotal {
    /// No work.
    pub fn zero() -> (work: WorkTotal)
        ensures
            work == (WorkTotal { entries: 0, bytes: 0 }),
    {
        WorkTotal { entries: 0, bytes: 0 }
    }

    /// Adds more work.
    pub fn add(&mut self, other: WorkTotal)
        ensures
            *final(self) == work_sum(*old(self), other),
    {
        self.entries = self.entries.saturating_add(other.entries);
        self.bytes = self.bytes.saturating_add(other.bytes);
    }
}

/// The space that an operation needs.
#[derive(Clone, Copy, Debug, PartialEq, Eq, Structural)]
pub struct SpaceRequirements {
    /// For the snapshot in the journal.
    pub journal_bytes: u64,
    /// For what the operation writes.
    pub target_bytes: u64,
}

/// What has to be free for the journal and, where it lies on another
/// filesystem and is written to, for the target.
pub open spec fn thresholds(requirements: SpaceRequirements, shared_filesystem: bool) -> (
    u64,
    Option<u64>,
) {
    if shared_filesystem {
        (
            saturating_sum(
                saturating_sum(requirements.journal_bytes, requirements.target_bytes),
                MINIMUM_FREE_BYTES,
            ),
            None,
        )
    } else {
        (
            saturating_sum(requirements.journal_bytes, MINIMUM_FREE_BYTES),
            if requirements.target_bytes > 0 {
                Some(saturating_sum(requirements.target_bytes, MINIMUM_FREE_BYTES))
            } else {
                None
            },
        )
    }
}

/// What has to be free for the journal and, where it lies on another
/// filesystem and is written to, for the target.
pub fn capacity_thresholds(requirements: SpaceRequirements, shared_filesystem: bool) -> (required: (
    u64,
    Option<u64>,
))
    ensures
        required == thresholds(requirements, shared_filesystem),
{
    if shared_filesystem {
        (
            requirements.journal_bytes.saturating_add(requirements.target_bytes).saturating_add(
                MINIMUM_FREE_BYTES,
            ),
            None,
        )
    } else {
        (
            requirements.journal_bytes.saturating_add(MINIMUM_FREE_BYTES),
            if requirements.target_bytes > 0 {
                Some(requirements.target_bytes.saturating_add(MINIMUM_FREE_BYTES))
            } else {
                None
            },
        )
    }
}

/// Enough is free, or how much is and should be.
pub open spec fn space_verdict(available: u64, required: u64) -> Result<(), LimitError> {
    if available < required {
        Err(LimitError::InsufficientSpace { required, available })
    } else {
        Ok(())
    }
}

/// Whether enough is free.
pub fn validate_free_space(available: u64, required: u64) -> (outcome: Result<(), LimitError>)
    ensures
        outcome == space_verdict(available, required),
{
    if available < required {
        return Err(LimitError::InsufficientSpace { required, available });
    }
    Ok(())
}

/// What a filesystem reports of its free space.
#[derive(Clone, Copy, Debug, PartialEq, Eq, Structural)]
pub struct FreeSpace {
    /// Blocks that are free for use.
    pub blocks: u64,
    /// The size of a block.
    pub block_size: u64,
}

/// The free bytes.
pub open spec fn free_bytes(space: FreeSpace) -> u64 {
    saturating_product(space.blocks, space.block_size)
}

/// Whether a filesystem has enough free space.
pub fn ensure_free_space(space: FreeSpace, required: u64) -> (outcome: Result<(), LimitError>)
    ensures
        outcome == space_verdict(free_bytes(space), required),
{
    validate_free_space(saturating_mul(space.blocks, space.block_size), required)
}

/// Whether the journal's and the target's filesystems have enough free space.
pub fn ensure_capacity_requirements(
    requirements: SpaceRequirements,
    shared_filesystem: bool,
    journal: FreeSpace,
    target: FreeSpace,
) -> (outcome: Result<(), LimitError>)
    ensures
        ({
            let (journal_required, target_required) = thresholds(requirements, shared_filesystem);
            let journal_verdict = space_verdict(free_bytes(journal), journal_required);
            outcome == (if journal_verdict is Err || target_required is None {
                journal_verdict
            } else {
                space_verdict(free_bytes(target), target_required->Some_0)
            })
        }),
{
    let (journal_required, target_required) = capacity_thresholds(requirements, shared_filesystem);
    match ensure_free_space(journal, journal_required) {
        Err(error) => {
            return Err(error);
        },
        Ok(()) => {},
    }
    match target_required {
        Some(required) => ensure_free_space(target, required),
        None => Ok(()),
    }
}

/// An operation whose capacity was accepted leaves the reserve free: on a
/// shared filesystem behind both what it journals and what it writes, and
/// otherwise on each filesystem behind what it puts there.
pub proof fn accepted_operations_preserve_the_reserve(
    requirements: SpaceRequirements,
    shared_filesystem: bool,
    journal: FreeSpace,
    target: FreeSpace,
)
    requires
        requirements.journal_bytes + requirements.target_bytes + MINIMUM_FREE_BYTES <= u64::MAX,
        ({
            let (journal_required, target_required) = thresholds(requirements, shared_filesystem);
            &&& space_verdict(free_bytes(journal), journal_required) is Ok
            &&& target_required matches Some(required) ==> space_verdict(
                free_bytes(target),
                required,
            ) is Ok
        }),
    ensures
        shared_filesystem ==> free_bytes(journal) - requirements.journal_bytes
            - requirements.target_bytes >= MINIMUM_FREE_BYTES,
        !shared_filesystem ==> free_bytes(journal) - requirements.journal_bytes
            >= MINIMUM_FREE_BYTES,
        !shared_filesystem && requirements.target_bytes > 0 ==> free_bytes(target)
            - requirements.target_bytes >= MINIMUM_FREE_BYTES,
{
}

/// A requirement beyond all numbers is only met by a filesystem that reports
/// the largest free space there is: sums never wrap around to a small number.
pub proof fn saturated_requirements_are_not_small(
    requirements: SpaceRequirements,
    shared_filesystem: bool,
)
    ensures
        thresholds(requirements, shared_filesystem).0 >= MINIMUM_FREE_BYTES,
        thresholds(requirements, shared_filesystem).0 >= requirements.journal_bytes,
        shared_filesystem ==> thresholds(requirements, shared_filesystem).0
            >= requirements.target_bytes,
        thresholds(requirements, shared_filesystem).1 matches Some(required) ==> required
            >= requirements.target_bytes && required >= MINIMUM_FREE_BYTES,
{
}

/// An operation is let through when, and only when, the reserve stays free beside
/// what it needs: on one file system beside both the journal and the target, and
/// otherwise beside each of them on its own, a target that nothing is written to
/// needing nothing.
pub proof fn enough_space_is_accepted(
    requirements: SpaceRequirements,
    shared_filesystem: bool,
    journal: FreeSpace,
    target: FreeSpace,
)
    requires
        requirements.journal_bytes + requirements.target_bytes + MINIMUM_FREE_BYTES <= u64::MAX,
        journal.blocks * journal.block_size <= u64::MAX,
        target.blocks * target.block_size <= u64::MAX,
    ensures
        ({
            let (journal_required, target_required) = thresholds(requirements, shared_filesystem);
            let accepted = space_verdict(free_bytes(journal), journal_required) is Ok && (
            target_required is Some ==> space_verdict(
                free_bytes(target),
                target_required->Some_0,
            ) is Ok);
            let reserve = 256 * 1024 * 1024;
            accepted <==> if shared_filesystem {
                journal.blocks * journal.block_size >= requirements.journal_bytes
                    + requirements.target_bytes + reserve
            } else {
                &&& journal.blocks * journal.block_size >= requirements.journal_bytes + reserve
                &&& requirements.target_bytes > 0 ==> target.blocks * target.block_size
                    >= requirements.target_bytes + reserve
            }
        }),
{
}

/// An archive may hold up to a thousand times its own size, and an empty one as much
/// as one of a single byte.
pub proof fn archives_expand_a_thousandfold_at_most(expanded: u64, compressed: u64)
    requires
        1000 * compressed <= u64::MAX,
    ensures
        compressed > 0 ==> (expansion_allowed(expanded, compressed) <==> expanded <= 1000
            * compressed),
        compressed == 0 ==> (expansion_allowed(expanded, compressed) <==> expanded <= 1000),
{
}

/// Work adds up, as far as it can be counted.
pub proof fn work_adds_up(a: WorkTotal, b: WorkTotal)
    ensures
        a.entries + b.entries <= u64::MAX ==> work_sum(a, b).entries == a.entries + b.entries,
        a.bytes + b.bytes <= u64::MAX ==> work_sum(a, b).bytes == a.bytes + b.bytes,
        a.entries + b.entries > u64::MAX ==> work_sum(a, b).entries == u64::MAX,
        a.bytes + b.bytes > u64::MAX ==> work_sum(a, b).bytes == u64::MAX,
{
}

} // verus!
