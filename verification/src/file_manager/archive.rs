//! Archives: which ones are read, what they may hold, and what goes into new
//! ones.

use vstd::prelude::*;

use crate::file_manager::conflict;
use crate::file_manager::conflict::Destination;
use crate::file_manager::conflict::FileManagerConflictDecision;
use crate::file_manager::limits;
use crate::file_manager::limits::LimitError;
use crate::file_manager::limits::WorkTotal;
use crate::file_manager::tree;
use crate::file_manager::tree::Entry;
use crate::file_manager::tree::LeafKind;
use crate::path;
use crate::path::PathError;
use crate::text;
use crate::text::texts;

verus! {

/// Why an archive or one of its entries is refused.
#[derive(Clone, Copy, Debug, PartialEq, Eq, Structural)]
pub enum ArchiveError {
    /// The signature is not one of an archive that is read.
    Unsupported,
    /// RAR archives are not read.
    Rar,
    /// The archive is encrypted.
    Encrypted,
    /// The name of an entry cannot be used.
    UnsafeName,
    /// The name of an entry is absolute.
    AbsoluteName,
    /// The name of an entry leaves the archive.
    Traversal,
    /// The name of an entry is empty or too deep.
    Depth,
    /// An entry is neither a file nor a directory.
    SpecialEntry,
    /// An entry removes something.
    AntiItem,
    /// The size cannot be counted.
    SizeOverflow,
    /// A limit is exceeded.
    Limit(LimitError),
    /// Nothing is selected.
    EmptySelection,
    /// The name of an entry is no text.
    NotText,
    /// A symbolic link would go into the archive.
    Symlink,
    /// Something that is neither a file nor a directory would go into the
    /// archive.
    Special,
    /// An entry had another size than it announced.
    SizeChanged,
    /// A path is refused.
    Path(PathError),
    /// Something stands where the archive is written, and nobody decided about
    /// it.
    DestinationExists,
    /// A selected entry is not there.
    MissingSource,
}

/// An archive that was recognised.
#[derive(Clone, Copy, Debug, PartialEq, Eq, Structural)]
pub enum DetectedArchive {
    Zip,
    Tar,
    TarGz,
    SevenZip,
    Rar,
}

/// The bytes stand at the position.
pub open spec fn stands_at(header: Seq<u8>, position: int, bytes: Seq<u8>) -> bool {
    header.len() >= position + bytes.len() && header.subrange(
        position,
        position + bytes.len(),
    ) == bytes
}

/// The archive whose contents begin with the header.
pub open spec fn detected(header: Seq<u8>) -> Result<DetectedArchive, ArchiveError> {
    if stands_at(header, 0, seq![0x37u8, 0x7a, 0xbc, 0xaf, 0x27, 0x1c]) {
        Ok(DetectedArchive::SevenZip)
    } else if header.len() >= 4 && stands_at(header, 0, seq![0x50u8, 0x4b]) {
        Ok(DetectedArchive::Zip)
    } else if stands_at(header, 0, seq![0x1fu8, 0x8b]) {
        Ok(DetectedArchive::TarGz)
    } else if stands_at(header, 0, seq![0x52u8, 0x61, 0x72, 0x21, 0x1a, 0x07, 0x00]) || stands_at(
        header,
        0,
        seq![0x52u8, 0x61, 0x72, 0x21, 0x1a, 0x07, 0x01, 0x00],
    ) {
        Ok(DetectedArchive::Rar)
    } else if stands_at(header, 257, seq![0x75u8, 0x73, 0x74, 0x61, 0x72]) {
        Ok(DetectedArchive::Tar)
    } else {
        Err(ArchiveError::Unsupported)
    }
}

fn bytes_stand_at(header: &Vec<u8>, position: usize, bytes: &Vec<u8>) -> (stand: bool)
    requires
        position + bytes@.len() <= usize::MAX,
    ensures
        stand == stands_at(header@, position as int, bytes@),
{
    if header.len() < position + bytes.len() {
        return false;
    }
    let ghost part = header@.subrange(position as int, position + bytes@.len());
    for i in 0..bytes.len()
        invariant
            position + bytes.len() <= header.len(),
            part == header@.subrange(position as int, position + bytes@.len()),
            forall|k: int| 0 <= k < i ==> part[k] == bytes@[k],
    {
        if header[position + i] != bytes[i] {
            assert(part[i as int] != bytes@[i as int]);
            return false;
        }
    }
    assert(part =~= bytes@);
    true
}

/// The archive whose contents begin with the header. At most 512 bytes of it
/// are looked at.
pub fn detect_format(header: &Vec<u8>) -> (archive: Result<DetectedArchive, ArchiveError>)
    ensures
        archive == detected(header@),
{
    if bytes_stand_at(header, 0, &vec![0x37u8, 0x7a, 0xbc, 0xaf, 0x27, 0x1c]) {
        Ok(DetectedArchive::SevenZip)
    } else if header.len() >= 4 && bytes_stand_at(header, 0, &vec![0x50u8, 0x4b]) {
        Ok(DetectedArchive::Zip)
    } else if bytes_stand_at(header, 0, &vec![0x1fu8, 0x8b]) {
        Ok(DetectedArchive::TarGz)
    } else if bytes_stand_at(
        header,
        0,
        &vec![0x52u8, 0x61, 0x72, 0x21, 0x1a, 0x07, 0x00],
    ) || bytes_stand_at(header, 0, &vec![0x52u8, 0x61, 0x72, 0x21, 0x1a, 0x07, 0x01, 0x00]) {
        Ok(DetectedArchive::Rar)
    } else if bytes_stand_at(header, 257, &vec![0x75u8, 0x73, 0x74, 0x61, 0x72]) {
        Ok(DetectedArchive::Tar)
    } else {
        Err(ArchiveError::Unsupported)
    }
}

// ---------------------------------------------------------------------------
// Names of entries
// ---------------------------------------------------------------------------

/// The name begins with a drive letter.
pub open spec fn has_drive(name: Seq<char>) -> bool {
    name.len() >= 2 && name[0] <= '\u{7f}' && name[1] == ':'
}

/// Where the entry with the name goes, below the directory that the archive is
/// extracted to.
pub open spec fn entry_place(name: Seq<char>) -> Result<Seq<char>, ArchiveError> {
    let names = path::path_names(name);
    if name.len() == 0 || name.contains('\0') || name.contains('\\') {
        Err(ArchiveError::UnsafeName)
    } else if path::is_absolute_path(name) || has_drive(name) {
        Err(ArchiveError::AbsoluteName)
    } else if names.contains(path::dot_dot()) {
        Err(ArchiveError::Traversal)
    } else if names.len() == 0 || names.len() > path::MAX_DEPTH {
        Err(ArchiveError::Depth)
    } else {
        Ok(path::slashed(names))
    }
}

/// The result names the place.
pub open spec fn places(result: Result<String, ArchiveError>, model: Result<Seq<char>, ArchiveError>) -> bool {
    match (result, model) {
        (Ok(text), Ok(place)) => text@ == place,
        (Err(a), Err(b)) => a == b,
        _ => false,
    }
}

/// Where the entry with the name goes, below the directory that the archive is
/// extracted to.
pub fn archive_relative(name: &str) -> (place: Result<String, ArchiveError>)
    ensures
        places(place, entry_place(name@)),
{
    let chars = text::chars_of(name);
    if chars.len() == 0 || text::contains_char(name, '\0') || text::contains_char(name, '\\') {
        return Err(ArchiveError::UnsafeName);
    }
    let drive = chars.len() >= 2 && chars[0] <= '\u{7f}' && chars[1] == ':';
    if path::path_is_absolute(name) || drive {
        return Err(ArchiveError::AbsoluteName);
    }
    if path::path_goes_up(name) {
        return Err(ArchiveError::Traversal);
    }
    let parts = path::parse_path(name);
    if parts.names.len() == 0 || parts.names.len() > path::MAX_DEPTH {
        return Err(ArchiveError::Depth);
    }
    Ok(path::slash_join(&parts.names))
}

/// Whether the entry with the name may be extracted.
pub fn validate_archive_name(name: &str) -> (outcome: Result<(), ArchiveError>)
    ensures
        outcome == match entry_place(name@) {
            Ok(_) => Ok(()),
            Err(error) => Err(error),
        },
{
    match archive_relative(name) {
        Ok(_) => Ok(()),
        Err(error) => Err(error),
    }
}

/// An accepted name never leaves the directory that the archive is extracted
/// to: it is relative, goes up nowhere and names something.
pub proof fn accepted_entries_stay_inside(name: Seq<char>)
    requires
        entry_place(name) is Ok,
    ensures
        !path::is_absolute_path(name),
        !path::goes_up(name),
        0 < path::path_names(name).len() <= path::MAX_DEPTH,
        entry_place(name) == Ok::<Seq<char>, ArchiveError>(
            path::slashed(path::path_names(name)),
        ),
{
}

// ---------------------------------------------------------------------------
// Extracting
// ---------------------------------------------------------------------------

/// What an archive says about one of its entries.
#[derive(Clone, Debug, PartialEq, Eq)]
pub struct EntryHeader {
    pub name: String,
    pub size: u64,
    pub directory: bool,
    /// The contents are encrypted.
    pub encrypted: bool,
    /// The mode bits of the entry, if there are any.
    pub mode: Option<u32>,
    /// The entry removes something.
    pub anti_item: bool,
    /// The entry is a file or a directory.
    pub plain: bool,
}

/// Where an entry goes, and the bytes of all entries up to it.
#[derive(Clone, Debug, PartialEq, Eq)]
pub struct Admitted {
    pub place: String,
    pub expanded: u64,
}

/// The mode bits are those of a file, of a directory, or do not say.
pub open spec fn plain_mode(mode: u32) -> bool {
    let kind = mode & 0o170000;
    kind == 0 || kind == 0o100000 || kind == 0o040000
}

fn is_plain_mode(mode: u32) -> (plain: bool)
    ensures
        plain == plain_mode(mode),
{
    let kind: u32 = mode & 0o170000;
    kind == 0 || kind == 0o100000 || kind == 0o040000
}

/// The bytes of all entries together with one more of the given size, if the
/// archive may hold them.
pub open spec fn expanded_by(expanded: u64, size: u64, compressed: u64) -> Result<u64, ArchiveError> {
    if expanded + size > u64::MAX {
        Err(ArchiveError::SizeOverflow)
    } else if !limits::expansion_allowed((expanded + size) as u64, compressed) {
        Err(ArchiveError::Limit(LimitError::ExpansionRatio))
    } else {
        Ok((expanded + size) as u64)
    }
}

fn expand(expanded: u64, size: u64, compressed: u64) -> (sum: Result<u64, ArchiveError>)
    ensures
        sum == expanded_by(expanded, size, compressed),
{
    let sum = match expanded.checked_add(size) {
        Some(sum) => sum,
        None => {
            return Err(ArchiveError::SizeOverflow);
        },
    };
    match limits::enforce_expansion_limits(sum, compressed) {
        Ok(()) => Ok(sum),
        Err(error) => Err(ArchiveError::Limit(error)),
    }
}

/// An entry is admitted as the model says.
pub open spec fn admits(
    result: Result<Admitted, ArchiveError>,
    model: Result<(Seq<char>, u64), ArchiveError>,
) -> bool {
    match (result, model) {
        (Ok(admitted), Ok((place, expanded))) => admitted.place@ == place && admitted.expanded
            == expanded,
        (Err(a), Err(b)) => a == b,
        _ => false,
    }
}

/// What becomes of an entry of a ZIP archive.
pub open spec fn zip_entry(header: EntryHeader, expanded: u64, compressed: u64) -> Result<
    (Seq<char>, u64),
    ArchiveError,
> {
    if header.encrypted {
        Err(ArchiveError::Encrypted)
    } else {
        match entry_place(header.name@) {
            Err(error) => Err(error),
            Ok(place) => match expanded_by(expanded, header.size, compressed) {
                Err(error) => Err(error),
                Ok(sum) => if header.mode matches Some(mode) && !plain_mode(mode) {
                    Err(ArchiveError::SpecialEntry)
                } else {
                    Ok((place, sum))
                },
            },
        }
    }
}

/// Admits an entry of a ZIP archive.
pub fn admit_zip_entry(header: &EntryHeader, expanded: u64, compressed: u64) -> (admitted: Result<
    Admitted,
    ArchiveError,
>)
    ensures
        admits(admitted, zip_entry(*header, expanded, compressed)),
{
    if header.encrypted {
        return Err(ArchiveError::Encrypted);
    }
    let place = match archive_relative(header.name.as_str()) {
        Ok(place) => place,
        Err(error) => {
            return Err(error);
        },
    };
    let sum = match expand(expanded, header.size, compressed) {
        Ok(sum) => sum,
        Err(error) => {
            return Err(error);
        },
    };
    match header.mode {
        Some(mode) => {
            if !is_plain_mode(mode) {
                return Err(ArchiveError::SpecialEntry);
            }
        },
        None => {},
    }
    Ok(Admitted { place, expanded: sum })
}

/// What becomes of the entry of a TAR archive that `count` entries precede.
pub open spec fn tar_entry(
    header: EntryHeader,
    count: u64,
    expanded: u64,
    compressed: u64,
    maximum: u64,
) -> Result<(Seq<char>, u64), ArchiveError> {
    if count >= maximum {
        Err(ArchiveError::Limit(LimitError::TooManyEntries { maximum }))
    } else if !header.plain {
        Err(ArchiveError::SpecialEntry)
    } else {
        match entry_place(header.name@) {
            Err(error) => Err(error),
            Ok(place) => match expanded_by(expanded, header.size, compressed) {
                Err(error) => Err(error),
                Ok(sum) => Ok((place, sum)),
            },
        }
    }
}

/// Admits the entry of a TAR archive that `count` entries precede.
pub fn admit_tar_entry(
    header: &EntryHeader,
    count: u64,
    expanded: u64,
    compressed: u64,
    maximum: u64,
) -> (admitted: Result<Admitted, ArchiveError>)
    ensures
        admits(admitted, tar_entry(*header, count, expanded, compressed, maximum)),
{
    if count >= maximum {
        return Err(ArchiveError::Limit(LimitError::TooManyEntries { maximum }));
    }
    if !header.plain {
        return Err(ArchiveError::SpecialEntry);
    }
    match archive_relative(header.name.as_str()) {
        Err(error) => Err(error),
        Ok(place) => match expand(expanded, header.size, compressed) {
            Err(error) => Err(error),
            Ok(sum) => Ok(Admitted { place, expanded: sum }),
        },
    }
}

/// What becomes of the entry of a 7z archive that `count` entries precede. Its
/// mode bits are the upper half of its attributes.
pub open spec fn seven_zip_entry(
    header: EntryHeader,
    attributes: u32,
    count: u64,
    expanded: u64,
    compressed: u64,
    maximum: u64,
) -> Result<(Seq<char>, u64), ArchiveError> {
    if count >= maximum {
        Err(ArchiveError::Limit(LimitError::TooManyEntries { maximum }))
    } else {
        match entry_place(header.name@) {
            Err(error) => Err(error),
            Ok(place) => if header.anti_item {
                Err(ArchiveError::AntiItem)
            } else if !plain_mode(attributes >> 16) {
                Err(ArchiveError::SpecialEntry)
            } else {
                match expanded_by(expanded, header.size, compressed) {
                    Err(error) => Err(error),
                    Ok(sum) => Ok((place, sum)),
                }
            },
        }
    }
}

/// Admits the entry of a 7z archive that `count` entries precede.
pub fn admit_seven_zip_entry(
    header: &EntryHeader,
    attributes: u32,
    count: u64,
    expanded: u64,
    compressed: u64,
    maximum: u64,
) -> (admitted: Result<Admitted, ArchiveError>)
    ensures
        admits(
            admitted,
            seven_zip_entry(*header, attributes, count, expanded, compressed, maximum),
        ),
{
    if count >= maximum {
        return Err(ArchiveError::Limit(LimitError::TooManyEntries { maximum }));
    }
    let place = match archive_relative(header.name.as_str()) {
        Ok(place) => place,
        Err(error) => {
            return Err(error);
        },
    };
    if header.anti_item {
        return Err(ArchiveError::AntiItem);
    }
    if !is_plain_mode(attributes >> 16) {
        return Err(ArchiveError::SpecialEntry);
    }
    match expand(expanded, header.size, compressed) {
        Err(error) => Err(error),
        Ok(sum) => Ok(Admitted { place, expanded: sum }),
    }
}

/// Whether an entry had the size that it announced.
pub fn check_extracted(copied: u64, announced: u64) -> (outcome: Result<(), ArchiveError>)
    ensures
        outcome == if copied == announced {
            Ok(())
        } else {
            Err(ArchiveError::SizeChanged)
        },
{
    if copied == announced {
        Ok(())
    } else {
        Err(ArchiveError::SizeChanged)
    }
}

/// Whatever is extracted stays within the expansion ratio: the bytes of all
/// admitted entries do.
pub proof fn admitted_entries_respect_the_ratio(
    header: EntryHeader,
    attributes: u32,
    count: u64,
    expanded: u64,
    compressed: u64,
    maximum: u64,
)
    ensures
        zip_entry(header, expanded, compressed) matches Ok((_, sum)) ==> sum == expanded
            + header.size && limits::expansion_allowed(sum, compressed),
        tar_entry(header, count, expanded, compressed, maximum) matches Ok((_, sum)) ==> sum
            == expanded + header.size && limits::expansion_allowed(sum, compressed) && count
            < maximum,
        seven_zip_entry(header, attributes, count, expanded, compressed, maximum) matches Ok(
            (_, sum),
        ) ==> sum == expanded + header.size && limits::expansion_allowed(sum, compressed) && count
            < maximum,
{
}

/// The sum of the sizes, if it can be counted.
pub open spec fn total_size(sizes: Seq<u64>) -> nat
    decreases sizes.len(),
{
    if sizes.len() == 0 {
        0
    } else {
        total_size(sizes.drop_last()) + sizes.last() as nat
    }
}

proof fn lemma_total_grows(sizes: Seq<u64>, n: int)
    requires
        0 <= n <= sizes.len(),
    ensures
        total_size(sizes.take(n)) <= total_size(sizes),
    decreases sizes.len() - n,
{
    if n < sizes.len() {
        assert(sizes.take(n + 1).drop_last() =~= sizes.take(n));
        lemma_total_grows(sizes, n + 1);
    } else {
        assert(sizes.take(n) =~= sizes);
    }
}

/// The work of extracting an archive of `source_bytes` bytes whose entries have
/// the given sizes. The entries of TAR archives are not known beforehand.
pub open spec fn work_of_extraction(
    format: DetectedArchive,
    source_bytes: u64,
    sizes: Seq<u64>,
    maximum: u64,
) -> Result<WorkTotal, ArchiveError> {
    match format {
        DetectedArchive::Rar => Err(ArchiveError::Rar),
        DetectedArchive::Tar => Ok(WorkTotal { entries: 0, bytes: source_bytes }),
        DetectedArchive::TarGz => Ok(WorkTotal { entries: 0, bytes: source_bytes }),
        _ => if sizes.len() > maximum {
            Err(ArchiveError::Limit(LimitError::TooManyEntries { maximum }))
        } else if total_size(sizes) > u64::MAX {
            Err(ArchiveError::SizeOverflow)
        } else if !limits::expansion_allowed(
            total_size(sizes) as u64,
            if source_bytes > 1 {
                source_bytes
            } else {
                1
            },
        ) {
            Err(ArchiveError::Limit(LimitError::ExpansionRatio))
        } else {
            Ok(WorkTotal { entries: sizes.len() as u64, bytes: total_size(sizes) as u64 })
        },
    }
}

/// The work of extracting an archive.
pub fn extraction_work(
    format: DetectedArchive,
    source_bytes: u64,
    sizes: &Vec<u64>,
    maximum: u64,
) -> (work: Result<WorkTotal, ArchiveError>)
    ensures
        work == work_of_extraction(format, source_bytes, sizes@, maximum),
{
    match format {
        DetectedArchive::Rar => {
            return Err(ArchiveError::Rar);
        },
        DetectedArchive::Tar | DetectedArchive::TarGz => {
            return Ok(WorkTotal { entries: 0, bytes: source_bytes });
        },
        _ => {},
    }
    if sizes.len() as u64 > maximum {
        return Err(ArchiveError::Limit(LimitError::TooManyEntries { maximum }));
    }
    let mut bytes: u64 = 0;
    for i in 0..sizes.len()
        invariant
            bytes == total_size(sizes@.take(i as int)),
            format is Zip || format is SevenZip,
            sizes@.len() <= maximum,
    {
        assert(sizes@.take(i + 1).drop_last() =~= sizes@.take(i as int));
        match bytes.checked_add(sizes[i]) {
            Some(sum) => {
                bytes = sum;
            },
            None => {
                proof {
                    lemma_total_grows(sizes@, i + 1);
                }
                return Err(ArchiveError::SizeOverflow);
            },
        }
    }
    assert(sizes@.take(sizes@.len() as int) =~= sizes@);
    let compressed: u64 = if source_bytes > 1 {
        source_bytes
    } else {
        1
    };
    match limits::enforce_expansion_limits(bytes, compressed) {
        Err(error) => Err(ArchiveError::Limit(error)),
        Ok(()) => Ok(WorkTotal { entries: sizes.len() as u64, bytes }),
    }
}

/// The bytes that extracting an archive may take.
pub open spec fn capacity_of_extraction(
    format: DetectedArchive,
    source_bytes: u64,
    sizes: Seq<u64>,
    maximum: u64,
) -> Result<u64, ArchiveError> {
    match format {
        DetectedArchive::Rar => Err(ArchiveError::Rar),
        DetectedArchive::Tar => Ok(
            limits::saturating_product(source_bytes, limits::MAX_ARCHIVE_EXPANSION_RATIO),
        ),
        DetectedArchive::TarGz => Ok(
            limits::saturating_product(source_bytes, limits::MAX_ARCHIVE_EXPANSION_RATIO),
        ),
        _ => match work_of_extraction(format, source_bytes, sizes, maximum) {
            Ok(work) => Ok(work.bytes),
            Err(error) => Err(error),
        },
    }
}

/// The bytes that extracting an archive may take: as many as its entries have,
/// or, where these are not known, as many as the expansion ratio allows.
pub fn extraction_capacity_bytes(
    format: DetectedArchive,
    source_bytes: u64,
    sizes: &Vec<u64>,
    maximum: u64,
) -> (bytes: Result<u64, ArchiveError>)
    ensures
        bytes == capacity_of_extraction(format, source_bytes, sizes@, maximum),
{
    match format {
        DetectedArchive::Rar => Err(ArchiveError::Rar),
        DetectedArchive::Tar | DetectedArchive::TarGz => Ok(
            limits::saturating_mul(source_bytes, limits::MAX_ARCHIVE_EXPANSION_RATIO),
        ),
        _ => match extraction_work(format, source_bytes, sizes, maximum) {
            Ok(work) => Ok(work.bytes),
            Err(error) => Err(error),
        },
    }
}

// ---------------------------------------------------------------------------
// Checking what was extracted
// ---------------------------------------------------------------------------

/// The number of entries once those of the list have been counted behind
/// `count` others, if all of them are files or directories.
pub open spec fn counted(children: Seq<Entry>, count: u64, maximum: u64) -> Result<u64, ArchiveError>
    decreases children, 1nat,
{
    if children.len() == 0 {
        Ok(count)
    } else {
        match counted(children.drop_last(), count, maximum) {
            Err(error) => Err(error),
            Ok(before) => counted_entry(children.last(), before, maximum),
        }
    }
}

/// The number of entries once the tree has been counted behind `count` others.
pub open spec fn counted_entry(entry: Entry, count: u64, maximum: u64) -> Result<u64, ArchiveError>
    decreases entry, 0nat,
{
    if count >= maximum {
        Err(ArchiveError::Limit(LimitError::TooManyEntries { maximum }))
    } else {
        match entry {
            Entry::Leaf { kind, .. } => if kind == LeafKind::File {
                Ok((count + 1) as u64)
            } else {
                Err(ArchiveError::SpecialEntry)
            },
            Entry::Directory { children, .. } => counted(children@, (count + 1) as u64, maximum),
        }
    }
}

proof fn lemma_count_stops(children: Seq<Entry>, n: int, count: u64, maximum: u64)
    requires
        0 <= n <= children.len(),
        counted(children.take(n), count, maximum) is Err,
    ensures
        counted(children, count, maximum) == counted(children.take(n), count, maximum),
    decreases children.len(),
{
    if n == children.len() {
        assert(children.take(n) =~= children);
    } else {
        assert(children.drop_last().take(n) =~= children.take(n));
        lemma_count_stops(children.drop_last(), n, count, maximum);
    }
}

/// Whether everything that was extracted is a file or a directory, and not too
/// much: the number of entries, with `count` others before them.
#[verifier::loop_isolation(false)]
pub fn validate_staged_tree(children: &Vec<Entry>, count: u64, maximum: u64) -> (outcome: Result<
    u64,
    ArchiveError,
>)
    ensures
        outcome == counted(children@, count, maximum),
    decreases children,
{
    let mut total: u64 = count;
    assert(children@.take(0) =~= Seq::<Entry>::empty());
    for i in 0..children.len()
        invariant
            counted(children@.take(i as int), count, maximum) == Ok::<u64, ArchiveError>(total),
    {
        proof {
            assert(children@.take(i + 1).drop_last() =~= children@.take(i as int));
            assert(children@.take(i + 1).last() == children@[i as int]);
            assert(counted(children@.take(i + 1), count, maximum) == counted_entry(
                children@[i as int],
                total,
                maximum,
            ));
        }
        if total >= maximum {
            proof {
                lemma_count_stops(children@, i + 1, count, maximum);
            }
            return Err(ArchiveError::Limit(LimitError::TooManyEntries { maximum }));
        }
        match &children[i] {
            Entry::Leaf { kind, .. } => {
                match kind {
                    LeafKind::File => {
                        total = total + 1;
                    },
                    _ => {
                        proof {
                            lemma_count_stops(children@, i + 1, count, maximum);
                        }
                        return Err(ArchiveError::SpecialEntry);
                    },
                }
            },
            Entry::Directory { children: below, .. } => {
                proof {
                    assert(decreases_to!(children => children@));
                    assert(decreases_to!(children@ => children@[i as int]));
                }
                match validate_staged_tree(below, total + 1, maximum) {
                    Ok(sum) => {
                        total = sum;
                    },
                    Err(error) => {
                        proof {
                            lemma_count_stops(children@, i + 1, count, maximum);
                        }
                        return Err(error);
                    },
                }
            },
        }
    }
    assert(children@.take(children@.len() as int) =~= children@);
    Ok(total)
}

/// The bytes of the files of a tree.
pub open spec fn bytes_of(entry: Entry) -> u64
    decreases entry, 0nat,
{
    match entry {
        Entry::Leaf { kind, metadata, .. } => if kind == LeafKind::File {
            metadata.len
        } else {
            0
        },
        Entry::Directory { children, .. } => bytes_of_all(children@),
    }
}

/// The bytes of the files of the trees.
pub open spec fn bytes_of_all(children: Seq<Entry>) -> u64
    decreases children, 1nat,
{
    if children.len() == 0 {
        0
    } else {
        limits::saturating_sum(bytes_of_all(children.drop_last()), bytes_of(children.last()))
    }
}

/// The bytes of the files of a tree.
pub fn host_bytes(entry: &Entry) -> (bytes: u64)
    ensures
        bytes == bytes_of(*entry),
    decreases entry,
{
    match entry {
        Entry::Leaf { kind, metadata, .. } => match kind {
            LeafKind::File => metadata.len,
            _ => 0,
        },
        Entry::Directory { children, .. } => {
            let mut total: u64 = 0;
            assert(children@.take(0) =~= Seq::<Entry>::empty());
            for i in 0..children.len()
                invariant
                    decreases_to!(entry => children),
                    total == bytes_of_all(children@.take(i as int)),
            {
                assert(children@.take(i + 1).drop_last() =~= children@.take(i as int));
                total = total.saturating_add(host_bytes(&children[i]));
            }
            assert(children@.take(children@.len() as int) =~= children@);
            total
        },
    }
}

// ---------------------------------------------------------------------------
// Writing archives
// ---------------------------------------------------------------------------

/// What goes into an archive.
#[derive(Clone, Debug, PartialEq, Eq)]
pub struct ArchiveItem {
    /// The name in the archive. It is the entry's path, too.
    pub name: String,
    pub directory: bool,
    pub size: u64,
}

/// What goes into an archive, over texts.
pub struct ItemModel {
    pub name: Seq<char>,
    pub directory: bool,
    pub size: u64,
}

/// What the items are.
pub open spec fn items_of(items: Seq<ArchiveItem>) -> Seq<ItemModel> {
    items.map_values(
        |item: ArchiveItem|
            ItemModel { name: item.name@, directory: item.directory, size: item.size },
    )
}

/// The items of a tree under the name, a directory before its entries, when
/// `count` others precede them.
pub open spec fn archived(entry: Entry, name: Seq<char>, count: nat, maximum: u64) -> Result<
    Seq<ItemModel>,
    ArchiveError,
>
    decreases entry, 0nat,
{
    if count >= maximum {
        Err(ArchiveError::Limit(LimitError::TooManyEntries { maximum }))
    } else {
        match entry {
            Entry::Leaf { kind, metadata, .. } => match kind {
                LeafKind::File => Ok(
                    seq![ItemModel { name, directory: false, size: metadata.len }],
                ),
                LeafKind::Symlink => Err(ArchiveError::Symlink),
                LeafKind::Special => Err(ArchiveError::Special),
            },
            Entry::Directory { children, .. } => match archived_children(
                children@,
                name,
                count + 1,
                maximum,
            ) {
                Err(error) => Err(error),
                Ok(below) => Ok(seq![ItemModel { name, directory: true, size: 0 }] + below),
            },
        }
    }
}

/// The items of the entries of a directory.
pub open spec fn archived_children(
    children: Seq<Entry>,
    name: Seq<char>,
    count: nat,
    maximum: u64,
) -> Result<Seq<ItemModel>, ArchiveError>
    decreases children, 1nat,
{
    if children.len() == 0 {
        Ok(Seq::empty())
    } else {
        match archived_children(children.drop_last(), name, count, maximum) {
            Err(error) => Err(error),
            Ok(before) => if !children.last().is_text() {
                Err(ArchiveError::NotText)
            } else {
                match archived(
                    children.last(),
                    name + "/"@ + children.last().entry_text(),
                    count + before.len(),
                    maximum,
                ) {
                    Err(error) => Err(error),
                    Ok(items) => Ok(before + items),
                }
            },
        }
    }
}

proof fn lemma_archive_stops(children: Seq<Entry>, n: int, name: Seq<char>, count: nat, maximum: u64)
    requires
        0 <= n <= children.len(),
        archived_children(children.take(n), name, count, maximum) is Err,
    ensures
        archived_children(children, name, count, maximum) == archived_children(
            children.take(n),
            name,
            count,
            maximum,
        ),
    decreases children.len(),
{
    if n == children.len() {
        assert(children.take(n) =~= children);
    } else {
        assert(children.drop_last().take(n) =~= children.take(n));
        lemma_archive_stops(children.drop_last(), n, name, count, maximum);
    }
}

/// Adds the items of a tree under the name to those of an archive. There may be
/// no more than `maximum` in all.
#[verifier::loop_isolation(false)]
pub fn add_archive_entry(entry: &Entry, name: &str, items: &mut Vec<ArchiveItem>, maximum: u64) -> (outcome:
    Result<(), ArchiveError>)
    ensures
        match (outcome, archived(*entry, name@, old(items)@.len(), maximum)) {
            (Ok(()), Ok(added)) => items_of(final(items)@) == items_of(old(items)@) + added,
            (Err(a), Err(b)) => a == b,
            _ => false,
        },
    decreases entry,
{
    let ghost before = items_of(items@);
    if items.len() as u64 >= maximum {
        return Err(ArchiveError::Limit(LimitError::TooManyEntries { maximum }));
    }
    match entry {
        Entry::Leaf { kind, metadata, .. } => match kind {
            LeafKind::File => {
                items.push(
                    ArchiveItem { name: name.to_owned(), directory: false, size: metadata.len },
                );
                assert(items_of(items@) =~= before + seq![
                    ItemModel { name: name@, directory: false, size: metadata.len },
                ]);
                Ok(())
            },
            LeafKind::Symlink => Err(ArchiveError::Symlink),
            LeafKind::Special => Err(ArchiveError::Special),
        },
        Entry::Directory { children, .. } => {
            items.push(ArchiveItem { name: name.to_owned(), directory: true, size: 0 });
            let ghost start = before + seq![ItemModel { name: name@, directory: true, size: 0 }];
            let ghost count = before.len() + 1;
            assert(items_of(items@) =~= start);
            assert(children@.take(0) =~= Seq::<Entry>::empty());
            let ghost mut below: Seq<ItemModel> = Seq::empty();
            assert(start + below =~= start);
            for i in 0..children.len()
                invariant
                    decreases_to!(entry => children),
                    archived_children(children@.take(i as int), name@, count, maximum) == Ok::<
                        Seq<ItemModel>,
                        ArchiveError,
                    >(below),
                    items_of(items@) == start + below,
                    items@.len() == count + below.len(),
            {
                assert(children@.take(i + 1).drop_last() =~= children@.take(i as int));
                let held = match children[i].text() {
                    None => {
                        proof {
                            lemma_archive_stops(children@, i + 1, name@, count, maximum);
                        }
                        return Err(ArchiveError::NotText);
                    },
                    Some(held) => held,
                };
                let child_name = text::concat3(name, "/", held.as_str());
                match add_archive_entry(&children[i], child_name.as_str(), items, maximum) {
                    Ok(()) => {
                        proof {
                            let added = archived(
                                children@[i as int],
                                child_name@,
                                count + below.len(),
                                maximum,
                            )->Ok_0;
                            assert(items_of(items@) =~= start + (below + added));
                            assert(items@.len() == items_of(items@).len());
                            below = below + added;
                        }
                    },
                    Err(error) => {
                        proof {
                            lemma_archive_stops(children@, i + 1, name@, count, maximum);
                        }
                        return Err(error);
                    },
                }
            }
            proof {
                assert(children@.take(children@.len() as int) =~= children@);
                assert(items_of(items@) =~= before + (seq![
                    ItemModel { name: name@, directory: true, size: 0 },
                ] + below));
            }
            Ok(())
        },
    }
}

/// The name under which a directory goes into a ZIP or TAR archive.
pub fn directory_name(name: &str) -> (named: String)
    ensures
        named@ == name@ + "/"@,
{
    text::concat2(name, "/")
}

/// What goes into an archive of the selected entries, each under its path.
pub open spec fn selected_items(
    paths: Seq<Seq<char>>,
    selected: Seq<Option<Entry>>,
    maximum: u64,
) -> Result<Seq<ItemModel>, ArchiveError>
    decreases paths.len(),
{
    if paths.len() == 0 {
        Ok(Seq::empty())
    } else {
        match selected_items(paths.drop_last(), selected.drop_last(), maximum) {
            Err(error) => Err(error),
            Ok(before) => match path::relative_path_outcome(paths.last(), false) {
                Some(error) => Err(ArchiveError::Path(error)),
                None => match selected.last() {
                    None => Err(ArchiveError::MissingSource),
                    Some(entry) => match archived(entry, paths.last(), before.len(), maximum) {
                        Err(error) => Err(error),
                        Ok(items) => Ok(before + items),
                    },
                },
            },
        }
    }
}

proof fn lemma_selection_stops(
    paths: Seq<Seq<char>>,
    selected: Seq<Option<Entry>>,
    n: int,
    maximum: u64,
)
    requires
        0 <= n <= paths.len(),
        paths.len() == selected.len(),
        selected_items(paths.take(n), selected.take(n), maximum) is Err,
    ensures
        selected_items(paths, selected, maximum) == selected_items(
            paths.take(n),
            selected.take(n),
            maximum,
        ),
    decreases paths.len(),
{
    if n == paths.len() {
        assert(paths.take(n) =~= paths);
        assert(selected.take(n) =~= selected);
    } else {
        assert(paths.drop_last().take(n) =~= paths.take(n));
        assert(selected.drop_last().take(n) =~= selected.take(n));
        lemma_selection_stops(paths.drop_last(), selected.drop_last(), n, maximum);
    }
}

/// Lists what goes into an archive of the selected entries.
fn list_selected(paths: &Vec<String>, selected: &Vec<Option<Entry>>, maximum: u64) -> (listed: Result<
    Vec<ArchiveItem>,
    ArchiveError,
>)
    requires
        selected@.len() == paths@.len(),
    ensures
        match (listed, selected_items(texts(paths@), selected@, maximum)) {
            (Ok(items), Ok(wanted)) => items_of(items@) == wanted,
            (Err(a), Err(b)) => a == b,
            _ => false,
        },
{
    let mut items: Vec<ArchiveItem> = Vec::new();
    assert(items_of(items@) =~= Seq::<ItemModel>::empty());
    for i in 0..paths.len()
        invariant
            selected@.len() == paths@.len(),
            selected_items(texts(paths@).take(i as int), selected@.take(i as int), maximum)
                == Ok::<Seq<ItemModel>, ArchiveError>(items_of(items@)),
    {
        let ghost before = items_of(items@);
        proof {
            assert(texts(paths@).take(i + 1).drop_last() =~= texts(paths@).take(i as int));
            assert(selected@.take(i + 1).drop_last() =~= selected@.take(i as int));
            assert(texts(paths@).take(i + 1).last() == paths@[i as int]@);
            assert(selected@.take(i + 1).last() == selected@[i as int]);
            assert(before.len() == items@.len());
        }
        match path::relative_path(paths[i].as_str(), false) {
            Ok(_) => {},
            Err(error) => {
                proof {
                    lemma_selection_stops(texts(paths@), selected@, i + 1, maximum);
                }
                return Err(ArchiveError::Path(error));
            },
        }
        match &selected[i] {
            None => {
                proof {
                    lemma_selection_stops(texts(paths@), selected@, i + 1, maximum);
                }
                return Err(ArchiveError::MissingSource);
            },
            Some(entry) => {
                match add_archive_entry(entry, paths[i].as_str(), &mut items, maximum) {
                    Ok(()) => {},
                    Err(error) => {
                        proof {
                            lemma_selection_stops(texts(paths@), selected@, i + 1, maximum);
                        }
                        return Err(error);
                    },
                }
            },
        }
    }
    proof {
        assert(texts(paths@).take(paths@.len() as int) =~= texts(paths@));
        assert(selected@.take(paths@.len() as int) =~= selected@);
    }
    Ok(items)
}

/// How an archive is written.
#[derive(Clone, Debug, PartialEq, Eq)]
pub enum ArchivePlan {
    /// What stands at its place is kept, and nothing is written.
    Skip,
    /// The items are written beside the place and then moved there. What stands
    /// at it is removed before, if `replace` says so.
    Write { replace: bool, items: Vec<ArchiveItem> },
}

/// Plans an archive of the selected entries. `occupied` says whether something
/// stands at its destination; `selected` are the trees at the paths.
pub fn create(
    paths: &Vec<String>,
    selected: &Vec<Option<Entry>>,
    destination: &str,
    occupied: bool,
    decisions: &Vec<FileManagerConflictDecision>,
    maximum: u64,
) -> (plan: Result<ArchivePlan, ArchiveError>)
    requires
        selected@.len() == paths@.len(),
    ensures
        ({
            let verdict = conflict::destination_verdict(
                occupied,
                conflict::decision_at(destination@, decisions@),
            );
            if paths@.len() == 0 {
                plan == Err::<ArchivePlan, ArchiveError>(ArchiveError::EmptySelection)
            } else if path::relative_path_outcome(destination@, false) is Some {
                plan == Err::<ArchivePlan, ArchiveError>(
                    ArchiveError::Path(path::relative_path_outcome(destination@, false)->Some_0),
                )
            } else if verdict is Keep {
                plan == Ok::<ArchivePlan, ArchiveError>(ArchivePlan::Skip)
            } else if verdict is Undecided {
                plan == Err::<ArchivePlan, ArchiveError>(ArchiveError::DestinationExists)
            } else {
                match (plan, selected_items(texts(paths@), selected@, maximum)) {
                    (Ok(ArchivePlan::Write { replace, items }), Ok(wanted)) => {
                        &&& items_of(items@) == wanted
                        &&& replace == (verdict is Replace)
                    },
                    (Err(a), Err(b)) => a == b,
                    _ => false,
                }
            }
        }),
{
    if paths.len() == 0 {
        return Err(ArchiveError::EmptySelection);
    }
    match path::relative_path(destination, false) {
        Ok(_) => {},
        Err(error) => {
            return Err(ArchiveError::Path(error));
        },
    }
    let replace = match conflict::judge_destination(occupied, destination, decisions) {
        Destination::Keep => {
            return Ok(ArchivePlan::Skip);
        },
        Destination::Undecided => {
            return Err(ArchiveError::DestinationExists);
        },
        Destination::Replace => true,
        Destination::Free => false,
    };
    match list_selected(paths, selected, maximum) {
        Ok(items) => Ok(ArchivePlan::Write { replace, items }),
        Err(error) => Err(error),
    }
}

/// Lists what goes into the archive of a download.
pub fn create_download_zip(paths: &Vec<String>, selected: &Vec<Option<Entry>>, maximum: u64) -> (listed: Result<
    Vec<ArchiveItem>,
    ArchiveError,
>)
    requires
        selected@.len() == paths@.len(),
    ensures
        if paths@.len() == 0 {
            listed == Err::<Vec<ArchiveItem>, ArchiveError>(ArchiveError::EmptySelection)
        } else {
            match (listed, selected_items(texts(paths@), selected@, maximum)) {
                (Ok(items), Ok(wanted)) => items_of(items@) == wanted,
                (Err(a), Err(b)) => a == b,
                _ => false,
            }
        },
{
    if paths.len() == 0 {
        return Err(ArchiveError::EmptySelection);
    }
    list_selected(paths, selected, maximum)
}

/// The name is the path or lies below it.
pub open spec fn lies_under(name: Seq<char>, path: Seq<char>) -> bool {
    exists|rest: Seq<char>| name == #[trigger] (path + rest) && (rest.len() == 0 || rest[0] == '/')
}

proof fn lemma_archived_below(entry: Entry, name: Seq<char>, count: nat, maximum: u64)
    requires
        archived(entry, name, count, maximum) is Ok,
    ensures
        ({
            let items = archived(entry, name, count, maximum)->Ok_0;
            &&& items.len() > 0
            &&& items[0].name == name
            &&& count + items.len() <= maximum
            &&& forall|k: int| 0 <= k < items.len() ==> lies_under((#[trigger] items[k]).name, name)
        }),
    decreases entry, 0nat,
{
    let items = archived(entry, name, count, maximum)->Ok_0;
    assert(name == name + Seq::<char>::empty());
    assert(lies_under(name, name));
    match entry {
        Entry::Leaf { .. } => {},
        Entry::Directory { children, .. } => {
            lemma_archived_children_below(children@, name, count + 1, maximum);
            let below = archived_children(children@, name, count + 1, maximum)->Ok_0;
            assert forall|k: int| 0 <= k < items.len() implies lies_under(
                (#[trigger] items[k]).name,
                name,
            ) by {
                if k > 0 {
                    assert(items[k] == below[k - 1]);
                }
            }
        },
    }
}

proof fn lemma_archived_children_below(
    children: Seq<Entry>,
    name: Seq<char>,
    count: nat,
    maximum: u64,
)
    requires
        count <= maximum,
        archived_children(children, name, count, maximum) is Ok,
    ensures
        ({
            let items = archived_children(children, name, count, maximum)->Ok_0;
            &&& count + items.len() <= maximum
            &&& forall|k: int| 0 <= k < items.len() ==> lies_under((#[trigger] items[k]).name, name)
        }),
    decreases children, 1nat,
{
    if children.len() > 0 {
        let before = archived_children(children.drop_last(), name, count, maximum)->Ok_0;
        let child = name + "/"@ + children.last().entry_text();
        lemma_archived_children_below(children.drop_last(), name, count, maximum);
        lemma_archived_below(children.last(), child, count + before.len(), maximum);
        let last = archived(children.last(), child, count + before.len(), maximum)->Ok_0;
        let items = before + last;
        reveal_strlit("/");
        assert forall|k: int| 0 <= k < items.len() implies lies_under(
            (#[trigger] items[k]).name,
            name,
        ) by {
            if k >= before.len() {
                assert(items[k] == last[k - before.len()]);
                let rest = choose|rest: Seq<char>|
                    items[k].name == #[trigger] (child + rest) && (rest.len() == 0 || rest[0]
                        == '/');
                let tail = "/"@ + children.last().entry_text() + rest;
                assert(child + rest =~= name + tail);
                assert(tail[0] == '/');
            } else {
                assert(items[k] == before[k]);
            }
        }
    }
}

/// One of the items has the name.
pub open spec fn holds_name(items: Seq<ItemModel>, name: Seq<char>) -> bool {
    exists|k: int| 0 <= k < items.len() && (#[trigger] items[k]).name == name
}

/// The name is one of the paths or lies below one.
pub open spec fn lies_under_one(name: Seq<char>, paths: Seq<Seq<char>>) -> bool {
    exists|i: int| 0 <= i < paths.len() && lies_under(name, #[trigger] paths[i])
}

/// An archive holds every selected entry under its path, nothing that is not
/// selected or below a selected entry, and no more than is allowed.
pub proof fn archives_hold_the_selection(
    paths: Seq<Seq<char>>,
    selected: Seq<Option<Entry>>,
    maximum: u64,
)
    requires
        paths.len() == selected.len(),
        selected_items(paths, selected, maximum) is Ok,
    ensures
        ({
            let items = selected_items(paths, selected, maximum)->Ok_0;
            &&& items.len() <= maximum
            &&& forall|i: int| 0 <= i < paths.len() ==> holds_name(items, #[trigger] paths[i])
            &&& forall|k: int|
                0 <= k < items.len() ==> lies_under_one((#[trigger] items[k]).name, paths)
        }),
    decreases paths.len(),
{
    if paths.len() > 0 {
        let earlier = paths.drop_last();
        archives_hold_the_selection(earlier, selected.drop_last(), maximum);
        let before = selected_items(earlier, selected.drop_last(), maximum)->Ok_0;
        let entry = selected.last()->Some_0;
        lemma_archived_below(entry, paths.last(), before.len(), maximum);
        let last = archived(entry, paths.last(), before.len(), maximum)->Ok_0;
        let items = before + last;
        assert forall|i: int| 0 <= i < paths.len() implies holds_name(
            items,
            #[trigger] paths[i],
        ) by {
            if i + 1 == paths.len() {
                assert(items[before.len() as int] == last[0]);
            } else {
                assert(holds_name(before, earlier[i]));
                let k = choose|k: int|
                    0 <= k < before.len() && (#[trigger] before[k]).name == earlier[i];
                assert(items[k] == before[k]);
            }
        }
        assert forall|k: int| 0 <= k < items.len() implies lies_under_one(
            (#[trigger] items[k]).name,
            paths,
        ) by {
            if k >= before.len() {
                assert(items[k] == last[k - before.len()]);
                assert(lies_under(items[k].name, paths[paths.len() - 1]));
            } else {
                assert(items[k] == before[k]);
                assert(lies_under_one(before[k].name, earlier));
                let i = choose|i: int|
                    0 <= i < earlier.len() && lies_under(before[k].name, #[trigger] earlier[i]);
                assert(paths[i] == earlier[i]);
            }
        }
    }
}

/// The item that an entry goes into an archive as.
pub open spec fn item_for(entry: Entry, name: Seq<char>) -> ItemModel {
    ItemModel {
        name,
        directory: entry is Directory,
        size: if entry is Directory {
            0
        } else {
            entry.entry_metadata().len
        },
    }
}

/// The entry may go into an archive: it is a file or a directory.
pub open spec fn is_plain(entry: Entry) -> bool {
    entry is Directory || entry->Leaf_kind == LeafKind::File
}

/// Everything that a way leads to may go into an archive, under a name that is a
/// text.
pub open spec fn is_all_plain(entry: Entry) -> bool {
    forall|way: Seq<int>| #[trigger]
        tree::leads(entry, way) ==> is_plain(tree::entry_along(entry, way)) && (way.len() > 0
            ==> tree::entry_along(entry, way).is_text())
}

proof fn lemma_archived_counts(entry: Entry, name: Seq<char>, count: nat, maximum: u64)
    requires
        archived(entry, name, count, maximum) is Ok,
    ensures
        archived(entry, name, count, maximum)->Ok_0.len() == tree::entry_count(entry),
    decreases entry, 0nat,
{
    match entry {
        Entry::Leaf { .. } => {},
        Entry::Directory { children, .. } => {
            lemma_archived_children_count(children@, name, count + 1, maximum);
        },
    }
}

proof fn lemma_archived_children_count(
    children: Seq<Entry>,
    name: Seq<char>,
    count: nat,
    maximum: u64,
)
    requires
        archived_children(children, name, count, maximum) is Ok,
    ensures
        archived_children(children, name, count, maximum)->Ok_0.len() == tree::all_count(children),
    decreases children, 1nat,
{
    if children.len() > 0 {
        let before = archived_children(children.drop_last(), name, count, maximum)->Ok_0;
        lemma_archived_children_count(children.drop_last(), name, count, maximum);
        lemma_archived_counts(
            children.last(),
            name + "/"@ + children.last().entry_text(),
            count + before.len(),
            maximum,
        );
    }
}

/// The items of the `i`-th entry of a directory stand among those of the
/// directory.
proof fn lemma_archived_child(
    children: Seq<Entry>,
    name: Seq<char>,
    count: nat,
    maximum: u64,
    i: int,
) -> (at: nat)
    requires
        0 <= i < children.len(),
        archived_children(children, name, count, maximum) is Ok,
    ensures
        at == tree::all_count(children.take(i)),
        children[i].is_text(),
        archived(
            children[i],
            name + "/"@ + children[i].entry_text(),
            count + at,
            maximum,
        ) is Ok,
        ({
            let items = archived_children(children, name, count, maximum)->Ok_0;
            let part = archived(
                children[i],
                name + "/"@ + children[i].entry_text(),
                count + at,
                maximum,
            )->Ok_0;
            at + part.len() <= items.len() && items.subrange(at as int, (at + part.len()) as int) == part
        }),
    decreases children.len(),
{
    let rest = children.drop_last();
    let before = archived_children(rest, name, count, maximum)->Ok_0;
    let items = archived_children(children, name, count, maximum)->Ok_0;
    if i < rest.len() {
        let at = lemma_archived_child(rest, name, count, maximum, i);
        assert(rest.take(i) =~= children.take(i));
        let part = archived(
            children[i],
            name + "/"@ + children[i].entry_text(),
            count + at,
            maximum,
        )->Ok_0;
        assert(items.subrange(at as int, (at + part.len()) as int) =~= before.subrange(
            at as int,
            (at + part.len()) as int,
        ));
        at
    } else {
        lemma_archived_children_count(rest, name, count, maximum);
        assert(children.take(i) =~= rest);
        let part = archived(
            children[i],
            name + "/"@ + children[i].entry_text(),
            count + before.len(),
            maximum,
        )->Ok_0;
        assert(items.subrange(before.len() as int, (before.len() + part.len()) as int) =~= part);
        before.len()
    }
}

/// Every entry of a tree goes into the archive: for each way through the tree,
/// whatever it leads to stands there under the names on the way, as what it is
/// and, if it is a file, with its size.
pub proof fn archives_hold_whole_trees(
    entry: Entry,
    name: Seq<char>,
    count: nat,
    maximum: u64,
    way: Seq<int>,
) -> (k: int)
    requires
        archived(entry, name, count, maximum) is Ok,
        tree::leads(entry, way),
    ensures
        0 <= k < archived(entry, name, count, maximum)->Ok_0.len(),
        archived(entry, name, count, maximum)->Ok_0[k] == item_for(
            tree::entry_along(entry, way),
            tree::path_along(entry, name, way),
        ),
        is_plain(tree::entry_along(entry, way)),
        way.len() > 0 ==> tree::entry_along(entry, way).is_text() && k > 0,
        way.len() == 0 ==> k == 0,
        archived(entry, name, count, maximum)->Ok_0.len() == tree::entry_count(entry),
    decreases way.len(),
{
    lemma_archived_counts(entry, name, count, maximum);
    if way.len() == 0 {
        0
    } else {
        let children = entry.entries();
        let items = archived(entry, name, count, maximum)->Ok_0;
        let below = archived_children(children, name, count + 1, maximum)->Ok_0;
        let at = lemma_archived_child(children, name, count + 1, maximum, way[0]);
        let next = children[way[0]];
        let inner = name + "/"@ + next.entry_text();
        let part = archived(next, inner, count + 1 + at, maximum)->Ok_0;
        let k = archives_hold_whole_trees(next, inner, count + 1 + at, maximum, way.drop_first());
        assert(below.subrange(at as int, (at + part.len()) as int)[k] == part[k]);
        assert(items[1 + at + k] == below[at + k]);
        if way.len() == 1 {
            assert(tree::entry_along(entry, way) == next);
        }
        1 + at + k
    }
}

/// The entries of an archive of a selection are all those that lie below the
/// selected ones, and nothing else: each way through a selected tree leads to one
/// of them, and there are as many as there are entries.
pub proof fn archives_hold_all_below_the_selection(
    paths: Seq<Seq<char>>,
    selected: Seq<Option<Entry>>,
    maximum: u64,
    i: int,
    way: Seq<int>,
) -> (k: int)
    requires
        paths.len() == selected.len(),
        selected_items(paths, selected, maximum) is Ok,
        0 <= i < paths.len(),
        selected[i] is Some,
        tree::leads(selected[i]->Some_0, way),
    ensures
        0 <= k < selected_items(paths, selected, maximum)->Ok_0.len(),
        selected_items(paths, selected, maximum)->Ok_0[k] == item_for(
            tree::entry_along(selected[i]->Some_0, way),
            tree::path_along(selected[i]->Some_0, paths[i], way),
        ),
    decreases paths.len(),
{
    let rest = paths.drop_last();
    let before = selected_items(rest, selected.drop_last(), maximum)->Ok_0;
    let items = selected_items(paths, selected, maximum)->Ok_0;
    if i < rest.len() {
        let k = archives_hold_all_below_the_selection(
            rest,
            selected.drop_last(),
            maximum,
            i,
            way,
        );
        assert(items[k] == before[k]);
        k
    } else {
        let entry = selected.last()->Some_0;
        let last = archived(entry, paths.last(), before.len(), maximum)->Ok_0;
        let k = archives_hold_whole_trees(entry, paths.last(), before.len(), maximum, way);
        assert(items[before.len() + k] == last[k]);
        before.len() + k
    }
}

/// An archive has as many items as there are entries in the selected trees, and
/// none of these is missing.
pub proof fn archives_hold_nothing_twice(
    paths: Seq<Seq<char>>,
    selected: Seq<Option<Entry>>,
    maximum: u64,
)
    requires
        paths.len() == selected.len(),
        selected_items(paths, selected, maximum) is Ok,
    ensures
        selected_items(paths, selected, maximum)->Ok_0.len() == tree::present_count(selected),
        forall|i: int| 0 <= i < selected.len() ==> #[trigger] selected[i] is Some,
    decreases paths.len(),
{
    if paths.len() > 0 {
        let before = selected_items(paths.drop_last(), selected.drop_last(), maximum)->Ok_0;
        archives_hold_nothing_twice(paths.drop_last(), selected.drop_last(), maximum);
        lemma_archived_counts(selected.last()->Some_0, paths.last(), before.len(), maximum);
        assert forall|i: int| 0 <= i < selected.len() implies #[trigger] selected[i] is Some by {
            if i < selected.len() - 1 {
                assert(selected.drop_last()[i] == selected[i]);
            }
        }
    }
}

proof fn lemma_plain_child(entry: Entry, i: int)
    requires
        is_all_plain(entry),
        0 <= i < entry.entries().len(),
    ensures
        is_all_plain(entry.entries()[i]),
        entry.entries()[i].is_text(),
{
    let here: Seq<int> = Seq::empty();
    let child = entry.entries()[i];
    assert(tree::leads(child, here));
    tree::lemma_step(entry, i, here);
    assert(tree::leads(entry, seq![i] + here));
    assert forall|way: Seq<int>| #[trigger] tree::leads(child, way) implies is_plain(
        tree::entry_along(child, way),
    ) && (way.len() > 0 ==> tree::entry_along(child, way).is_text()) by {
        tree::lemma_step(entry, i, way);
        assert(tree::leads(entry, seq![i] + way));
    }
}

proof fn lemma_children_go_in(
    entry: Entry,
    n: int,
    name: Seq<char>,
    count: nat,
    maximum: u64,
)
    requires
        entry is Directory,
        0 <= n <= entry.entries().len(),
        is_all_plain(entry),
        count + tree::all_count(entry.entries().take(n)) <= maximum,
    ensures
        archived_children(entry.entries().take(n), name, count, maximum) is Ok,
    decreases entry, 0nat, n,
{
    let children = entry.entries();
    let part = children.take(n);
    if n > 0 {
        assert(part.drop_last() =~= children.take(n - 1));
        assert(part.last() == children[n - 1]);
        lemma_children_go_in(entry, n - 1, name, count, maximum);
        lemma_archived_children_count(children.take(n - 1), name, count, maximum);
        lemma_plain_child(entry, n - 1);
        assert(decreases_to!(entry => children[n - 1])) by {
            match entry {
                Entry::Leaf { .. } => {},
                Entry::Directory { children: held, .. } => {
                    assert(decreases_to!(entry => held));
                    assert(decreases_to!(held => held@));
                    assert(decreases_to!(held@ => held@[n - 1]));
                },
            }
        }
        plain_trees_can_be_archived(
            children[n - 1],
            name + "/"@ + children[n - 1].entry_text(),
            count + tree::all_count(children.take(n - 1)),
            maximum,
        );
    }
}

/// A tree of files and directories whose names are texts can be archived, unless
/// it is too large.
pub proof fn plain_trees_can_be_archived(entry: Entry, name: Seq<char>, count: nat, maximum: u64)
    requires
        is_all_plain(entry),
        count + tree::entry_count(entry) <= maximum,
    ensures
        archived(entry, name, count, maximum) is Ok,
    decreases entry, 1nat, 0int,
{
    let here: Seq<int> = Seq::empty();
    assert(tree::leads(entry, here));
    match entry {
        Entry::Leaf { .. } => {
            assert(is_plain(tree::entry_along(entry, here)));
        },
        Entry::Directory { children, .. } => {
            assert(children@.take(children@.len() as int) =~= children@);
            lemma_children_go_in(entry, children@.len() as int, name, count + 1, maximum);
        },
    }
}

proof fn lemma_counted_entry(entry: Entry, count: u64, maximum: u64)
    ensures
        counted_entry(entry, count, maximum) matches Ok(total) ==> total == count
            + tree::entry_count(entry) && total <= maximum,
    decreases entry, 0nat,
{
    match entry {
        Entry::Leaf { .. } => {},
        Entry::Directory { children, .. } => {
            if count < maximum {
                lemma_counted(children@, (count + 1) as u64, maximum);
            }
        },
    }
}

proof fn lemma_counted(children: Seq<Entry>, count: u64, maximum: u64)
    requires
        count <= maximum,
    ensures
        counted(children, count, maximum) matches Ok(total) ==> total == count + tree::all_count(
            children,
        ) && total <= maximum,
    decreases children, 1nat,
{
    if children.len() > 0 {
        lemma_counted(children.drop_last(), count, maximum);
        match counted(children.drop_last(), count, maximum) {
            Ok(before) => {
                lemma_counted_entry(children.last(), before, maximum);
            },
            Err(_) => {},
        }
    }
}

proof fn lemma_counted_child(children: Seq<Entry>, count: u64, maximum: u64, i: int)
    requires
        0 <= i < children.len(),
        counted(children, count, maximum) is Ok,
    ensures
        exists|before: u64| #[trigger] counted_entry(children[i], before, maximum) is Ok,
    decreases children.len(),
{
    if i < children.len() - 1 {
        lemma_counted_child(children.drop_last(), count, maximum, i);
    } else {
        let before = counted(children.drop_last(), count, maximum)->Ok_0;
        assert(counted_entry(children[i], before, maximum) is Ok);
    }
}

proof fn lemma_counted_way(entry: Entry, count: u64, maximum: u64, way: Seq<int>)
    requires
        counted_entry(entry, count, maximum) is Ok,
        tree::leads(entry, way),
    ensures
        is_plain(tree::entry_along(entry, way)),
    decreases way.len(),
{
    if way.len() > 0 {
        lemma_counted_child(entry.entries(), (count + 1) as u64, maximum, way[0]);
        let before = choose|before: u64| #[trigger]
            counted_entry(entry.entries()[way[0]], before, maximum) is Ok;
        lemma_counted_way(entry.entries()[way[0]], before, maximum, way.drop_first());
    }
}

/// What was extracted is accepted only if every entry of it is a file or a
/// directory, wherever it lies, and every one of them is counted.
pub proof fn accepted_extractions_are_plain(
    children: Seq<Entry>,
    count: u64,
    maximum: u64,
    i: int,
    way: Seq<int>,
)
    requires
        count <= maximum,
        counted(children, count, maximum) is Ok,
        0 <= i < children.len(),
        tree::leads(children[i], way),
    ensures
        is_plain(tree::entry_along(children[i], way)),
        counted(children, count, maximum)->Ok_0 == count + tree::all_count(children),
        count + tree::all_count(children) <= maximum,
{
    lemma_counted(children, count, maximum);
    lemma_counted_child(children, count, maximum, i);
    let before = choose|before: u64| #[trigger] counted_entry(children[i], before, maximum) is Ok;
    lemma_counted_way(children[i], before, maximum, way);
}

proof fn lemma_bytes_of_all(children: Seq<Entry>)
    ensures
        bytes_of_all(children) == tree::as_far_as_held(tree::all_file_bytes(children)),
    decreases children, 1nat,
{
    if children.len() > 0 {
        lemma_bytes_of_all(children.drop_last());
        tree_bytes_add_up(children.last());
    }
}

/// The bytes of a tree are those of all files in it, as far as they can be held.
pub proof fn tree_bytes_add_up(entry: Entry)
    ensures
        bytes_of(entry) == tree::as_far_as_held(tree::file_bytes(entry)),
    decreases entry, 0nat,
{
    match entry {
        Entry::Leaf { .. } => {},
        Entry::Directory { children, .. } => {
            lemma_bytes_of_all(children@);
        },
    }
}

/// The place of an archive's entry has the names of its name, no more and no fewer,
/// and is told for every name that stays inside the archive and is not too deep.
pub proof fn good_entry_names_have_their_place(name: Seq<char>)
    ensures
        entry_place(name) is Ok <==> {
            &&& name.len() > 0
            &&& forall|i: int| 0 <= i < name.len() ==> #[trigger] name[i] != '\0' && name[i] != '\\'
            &&& name[0] != '/'
            &&& !(name.len() >= 2 && name[0] <= '\u{7f}' && name[1] == ':')
            &&& forall|i: int|
                0 <= i < path::path_names(name).len() ==> #[trigger] path::path_names(name)[i]
                    != path::dot_dot()
            &&& 0 < path::path_names(name).len() <= path::MAX_DEPTH
        },
        entry_place(name) matches Ok(place) ==> path::path_names(place) == path::path_names(name)
            && !path::is_absolute_path(place),
{
    let names = path::path_names(name);
    if name.contains('\0') {
        let i = name.index_of('\0');
        assert(name[i] == '\0');
    }
    if name.contains('\\') {
        let i = name.index_of('\\');
        assert(name[i] == '\\');
    }
    if names.contains(path::dot_dot()) {
        let i = names.index_of(path::dot_dot());
        assert(names[i] == path::dot_dot());
    }
    assert forall|i: int| 0 <= i < names.len() implies path::is_name(#[trigger] names[i]) by {
        path::paths_are_made_of_names(name, i);
    }
    path::written_names_are_read_back(false, names);
}

/// An entry of an archive is unpacked when, and only when, its name has a place, it
/// is a plain file or directory, the contents so far are not too large and, where
/// entries are counted one by one, there are not too many. An encrypted entry of a
/// Zip archive is not, nor one of a 7z archive that removes something.
pub proof fn good_entries_are_unpacked(
    header: EntryHeader,
    attributes: u32,
    count: u64,
    expanded: u64,
    compressed: u64,
    maximum: u64,
)
    ensures
        ({
            let fits = expanded + header.size <= u64::MAX && limits::expansion_allowed(
                (expanded + header.size) as u64,
                compressed,
            );
            let named = entry_place(header.name@) is Ok;
            let kind = (attributes >> 16) & 0o170000;
            &&& zip_entry(header, expanded, compressed) is Ok <==> named && fits
                && !header.encrypted && (header.mode is Some ==> {
                let bits = header.mode->Some_0 & 0o170000;
                bits == 0 || bits == 0o100000 || bits == 0o040000
            })
            &&& tar_entry(header, count, expanded, compressed, maximum) is Ok <==> named && fits
                && header.plain && count < maximum
            &&& seven_zip_entry(
                header,
                attributes,
                count,
                expanded,
                compressed,
                maximum,
            ) is Ok <==> named && fits && !header.anti_item && count < maximum && (kind == 0
                || kind == 0o100000 || kind == 0o040000)
        }),
        zip_entry(header, expanded, compressed) matches Ok((place, _)) ==> Ok::<
            Seq<char>,
            ArchiveError,
        >(place) == entry_place(header.name@),
        tar_entry(header, count, expanded, compressed, maximum) matches Ok((place, _)) ==> Ok::<
            Seq<char>,
            ArchiveError,
        >(place) == entry_place(header.name@),
        seven_zip_entry(header, attributes, count, expanded, compressed, maximum) matches Ok(
            (place, _),
        ) ==> Ok::<Seq<char>, ArchiveError>(place) == entry_place(header.name@),
{
}

/// Archives are told apart by how they begin, whatever follows; only a tape archive is
/// told by what stands further on.
pub proof fn archives_are_told_by_their_beginning(header: Seq<u8>, rest: Seq<u8>)
    requires
        detected(header) is Ok,
        !(detected(header)->Ok_0 is Tar),
    ensures
        detected(header + rest) == detected(header),
        ({
            let format = detected(header)->Ok_0;
            &&& header.len() >= 2
            &&& format is Zip ==> header[0] == 0x50 && header[1] == 0x4b && header.len() >= 4
            &&& format is TarGz ==> header[0] == 0x1f && header[1] == 0x8b
            &&& format is SevenZip ==> header[0] == 0x37 && header[1] == 0x7a && header.len() >= 6
            &&& format is Rar ==> header[0] == 0x52 && header[1] == 0x61 && header.len() >= 7
        }),
{
    let all = header + rest;
    let seven: Seq<u8> = seq![0x37u8, 0x7a, 0xbc, 0xaf, 0x27, 0x1c];
    let zip: Seq<u8> = seq![0x50u8, 0x4b];
    let gzip: Seq<u8> = seq![0x1fu8, 0x8b];
    let rar: Seq<u8> = seq![0x52u8, 0x61, 0x72, 0x21, 0x1a, 0x07, 0x00];
    let rar_later: Seq<u8> = seq![0x52u8, 0x61, 0x72, 0x21, 0x1a, 0x07, 0x01, 0x00];
    lemma_stands_first(header, rest, seven);
    lemma_stands_first(header, rest, zip);
    lemma_stands_first(header, rest, gzip);
    lemma_stands_first(header, rest, rar);
    lemma_stands_first(header, rest, rar_later);
    assert(all.len() >= 2 ==> all[0] == header[0] && all[1] == header[1]);
}

proof fn lemma_stands_first(header: Seq<u8>, rest: Seq<u8>, bytes: Seq<u8>)
    requires
        bytes.len() >= 2,
    ensures
        stands_at(header, 0, bytes) ==> stands_at(header + rest, 0, bytes) && header[0] == bytes[0]
            && header[1] == bytes[1],
        stands_at(header + rest, 0, bytes) ==> (header + rest)[0] == bytes[0] && (header + rest)[1]
            == bytes[1],
{
    let all = header + rest;
    let n = bytes.len() as int;
    if stands_at(header, 0, bytes) {
        assert(all.subrange(0, n) =~= header.subrange(0, n));
        assert(header.subrange(0, n)[0] == header[0]);
        assert(header.subrange(0, n)[1] == header[1]);
    }
    if stands_at(all, 0, bytes) {
        assert(all.subrange(0, n)[0] == all[0]);
        assert(all.subrange(0, n)[1] == all[1]);
    }
}

/// What is to be unpacked is measured before: every entry of an archive that lists
/// them, and their sizes in all. One that lists too many, or too much for its size, is
/// refused, and so is every RAR archive.
pub proof fn extractions_are_measured(
    format: DetectedArchive,
    source_bytes: u64,
    sizes: Seq<u64>,
    maximum: u64,
)
    ensures
        format is Rar ==> work_of_extraction(format, source_bytes, sizes, maximum) is Err,
        (format is Zip || format is SevenZip) ==> match work_of_extraction(
            format,
            source_bytes,
            sizes,
            maximum,
        ) {
            Ok(work) => {
                &&& work.entries == sizes.len()
                &&& sizes.len() <= maximum
                &&& work.bytes == total_size(sizes)
                &&& capacity_of_extraction(format, source_bytes, sizes, maximum) == Ok::<
                    u64,
                    ArchiveError,
                >(work.bytes)
            },
            Err(_) => sizes.len() > maximum || total_size(sizes) > u64::MAX
                || !limits::expansion_allowed(total_size(sizes) as u64, source_bytes),
        },
        (format is Tar || format is TarGz) && 1000 * source_bytes <= u64::MAX
            ==> capacity_of_extraction(format, source_bytes, sizes, maximum) == Ok::<
            u64,
            ArchiveError,
        >((1000 * source_bytes) as u64),
{
}

} // verus!
