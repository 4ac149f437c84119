//! Where copies go, and the paths that a planned operation touches.

use vstd::prelude::*;

use crate::file_manager::operation;
use crate::file_manager::operation::FileManagerEntryKind;
use crate::file_manager::operation::FileManagerOperation;
use crate::file_manager::operation::OperationError;
use crate::path;
use crate::text;
use crate::text::texts;

verus! {

/// A source and the place that it is copied to.
#[derive(Clone, Debug, PartialEq, Eq)]
pub struct CopyTarget {
    pub source: String,
    pub destination: String,
}

/// The destinations of the targets.
pub open spec fn destinations(targets: Seq<CopyTarget>) -> Seq<Seq<char>> {
    targets.map_values(|target: CopyTarget| target.destination@)
}

// ---------------------------------------------------------------------------
// Names of duplicates
// ---------------------------------------------------------------------------

/// The position of the last dot, unless it is the first character or there is
/// none; then the end of the name.
pub open spec fn last_dot(name: Seq<char>, end: int) -> int
    decreases end,
{
    if end <= 1 {
        name.len() as int
    } else if name[end - 1] == '.' {
        end - 1
    } else {
        last_dot(name, end - 1)
    }
}

/// Where the extension of a file name begins.
pub open spec fn extension_start(name: Seq<char>) -> int {
    if operation::ends_ignoring_case(name, ".tar.gz"@) {
        name.len() - 7
    } else if operation::ends_ignoring_case(name, ".tar.bz2"@) {
        name.len() - 8
    } else if operation::ends_ignoring_case(name, ".tar.xz"@) {
        name.len() - 7
    } else if operation::ends_ignoring_case(name, ".tar.zst"@) {
        name.len() - 8
    } else {
        last_dot(name, name.len() as int)
    }
}

/// Where the number of a duplicate is put into its name.
pub open spec fn number_position(name: Seq<char>, preserve_extension: bool) -> int {
    if preserve_extension {
        extension_start(name)
    } else {
        name.len() as int
    }
}

/// The name of a duplicate.
pub open spec fn duplicated(name: Seq<char>, index: nat, preserve_extension: bool) -> Seq<char> {
    let split = number_position(name, preserve_extension);
    name.take(split) + " ("@ + text::decimal_digits(index) + ")"@ + name.skip(split)
}

proof fn lemma_extension_start(name: Seq<char>)
    ensures
        0 <= extension_start(name) <= name.len(),
{
    reveal_strlit(".tar.gz");
    reveal_strlit(".tar.bz2");
    reveal_strlit(".tar.xz");
    reveal_strlit(".tar.zst");
    lemma_last_dot(name, name.len() as int);
}

proof fn lemma_last_dot(name: Seq<char>, end: int)
    requires
        end <= name.len(),
    ensures
        0 <= last_dot(name, end) <= name.len(),
    decreases end,
{
    if end > 1 && name[end - 1] != '.' {
        lemma_last_dot(name, end - 1);
    }
}

fn find_extension(name: &str, chars: &Vec<char>) -> (start: usize)
    requires
        chars@ == name@,
    ensures
        start == extension_start(name@),
        start <= chars@.len(),
{
    proof {
        lemma_extension_start(name@);
        reveal_strlit(".tar.gz");
        reveal_strlit(".tar.bz2");
        reveal_strlit(".tar.xz");
        reveal_strlit(".tar.zst");
    }
    if operation::finishes_ignoring_case(name, ".tar.gz") {
        return chars.len() - 7;
    }
    if operation::finishes_ignoring_case(name, ".tar.bz2") {
        return chars.len() - 8;
    }
    if operation::finishes_ignoring_case(name, ".tar.xz") {
        return chars.len() - 7;
    }
    if operation::finishes_ignoring_case(name, ".tar.zst") {
        return chars.len() - 8;
    }
    let mut end: usize = chars.len();
    while end > 1
        invariant
            chars@ == name@,
            end <= chars@.len(),
            extension_start(name@) == last_dot(name@, end as int),
        decreases end,
    {
        if chars[end - 1] == '.' {
            return end - 1;
        }
        end = end - 1;
    }
    chars.len()
}

/// The name of the duplicate with the given number: ` (1)` is put in front of
/// the extension of a file, and behind the name of a directory.
pub fn duplicate_name(name: &str, index: usize, preserve_extension: bool) -> (duplicate: String)
    ensures
        duplicate@ == duplicated(name@, index as nat, preserve_extension),
{
    let chars = text::chars_of(name);
    let split: usize = if preserve_extension {
        find_extension(name, &chars)
    } else {
        chars.len()
    };
    let stem = text::text_between(&chars, 0, split);
    let extension = text::text_between(&chars, split, chars.len());
    assert(stem@ =~= name@.take(split as int));
    assert(extension@ =~= name@.skip(split as int));
    let numbered = text::concat3(stem.as_str(), " (", text::decimal(index as u64).as_str());
    text::concat3(numbered.as_str(), ")", extension.as_str())
}

/// Duplicates with different numbers have different names.
pub proof fn duplicate_names_differ(
    name: Seq<char>,
    first: nat,
    second: nat,
    preserve_extension: bool,
)
    requires
        first != second,
    ensures
        duplicated(name, first, preserve_extension) != duplicated(name, second, preserve_extension),
{
    let split = number_position(name, preserve_extension);
    lemma_extension_start(name);
    reveal_strlit(" (");
    reveal_strlit(")");
    let a = duplicated(name, first, preserve_extension);
    let b = duplicated(name, second, preserve_extension);
    let x = text::decimal_digits(first);
    let y = text::decimal_digits(second);
    let tail = ")"@ + name.skip(split);
    let head = name.take(split) + " ("@;
    text::lemma_decimal_value(first);
    text::lemma_decimal_value(second);
    if a == b {
        assert(a.len() == head.len() + x.len() + tail.len());
        assert(b.len() == head.len() + y.len() + tail.len());
        assert(x =~= a.subrange(head.len() as int, (head.len() + x.len()) as int));
        assert(y =~= b.subrange(head.len() as int, (head.len() + y.len()) as int));
    }
}

// ---------------------------------------------------------------------------
// Planning copies
// ---------------------------------------------------------------------------

/// Why copies cannot be planned.
#[derive(Clone, Copy, Debug, PartialEq, Eq, Structural)]
pub enum CopyError {
    /// The operation is refused.
    Operation(OperationError),
    /// The root cannot be looked into.
    Unavailable,
    /// A source is not there.
    MissingSource,
}

/// What is known of one source.
#[derive(Clone, Copy, Debug, PartialEq, Eq, Structural)]
pub enum SourceState {
    /// The root cannot be looked into.
    Unavailable,
    Missing,
    Present(FileManagerEntryKind),
}

/// The source would be copied to the directory that it stands in.
pub open spec fn stays_in_place(source: Seq<char>, destination: Seq<char>) -> bool {
    path::path_of(operation::directory_of(source)) == path::path_of(destination)
}

/// The candidate for a duplicate with the given number.
pub open spec fn candidate(
    destination: Seq<char>,
    source: Seq<char>,
    index: nat,
    preserve_extension: bool,
) -> Seq<char> {
    path::joined(
        destination,
        duplicated(path::last_name(source)->Some_0, index, preserve_extension),
    )
}

/// The candidate is free.
pub open spec fn is_free(
    path: Seq<char>,
    reserved: Seq<Seq<char>>,
    existing: Seq<Seq<char>>,
) -> bool {
    !reserved.contains(path) && !existing.contains(path)
}

/// The path is the candidate with the smallest number that is free.
pub open spec fn is_first_free(
    path: Seq<char>,
    destination: Seq<char>,
    source: Seq<char>,
    preserve_extension: bool,
    reserved: Seq<Seq<char>>,
    existing: Seq<Seq<char>>,
) -> bool {
    exists|index: nat| #[trigger]
        is_first_free_index(
            index,
            path,
            destination,
            source,
            preserve_extension,
            reserved,
            existing,
        )
}

/// The number is the smallest one whose candidate is free.
pub open spec fn is_first_free_index(
    index: nat,
    path: Seq<char>,
    destination: Seq<char>,
    source: Seq<char>,
    preserve_extension: bool,
    reserved: Seq<Seq<char>>,
    existing: Seq<Seq<char>>,
) -> bool {
    &&& index >= 1
    &&& path == candidate(destination, source, index, preserve_extension)
    &&& is_free(path, reserved, existing)
    &&& forall|smaller: nat|
        1 <= smaller < index ==> !is_free(
            #[trigger] candidate(destination, source, smaller, preserve_extension),
            reserved,
            existing,
        )
}

proof fn lemma_candidates_differ(
    destination: Seq<char>,
    source: Seq<char>,
    first: nat,
    second: nat,
    preserve_extension: bool,
)
    requires
        first != second,
        path::last_name(source) is Some,
        path::last_name(source)->Some_0.len() > 0,
        path::last_name(source)->Some_0[0] != '/',
    ensures
        candidate(destination, source, first, preserve_extension) != candidate(
            destination,
            source,
            second,
            preserve_extension,
        ),
{
    let name = path::last_name(source)->Some_0;
    duplicate_names_differ(name, first, second, preserve_extension);
    lemma_duplicate_is_relative(name, first, preserve_extension);
    lemma_duplicate_is_relative(name, second, preserve_extension);
    let a = duplicated(name, first, preserve_extension);
    let b = duplicated(name, second, preserve_extension);
    let base = if destination.len() == 0 || destination.last() == '/' {
        destination
    } else {
        destination.push('/')
    };
    let x = candidate(destination, source, first, preserve_extension);
    let y = candidate(destination, source, second, preserve_extension);
    assert(x == base + a);
    assert(y == base + b);
    if x == y {
        assert(a =~= x.skip(base.len() as int));
        assert(b =~= y.skip(base.len() as int));
    }
}

proof fn lemma_duplicate_is_relative(name: Seq<char>, index: nat, preserve_extension: bool)
    requires
        name.len() > 0,
        name[0] != '/',
    ensures
        !path::is_absolute_path(duplicated(name, index, preserve_extension)),
{
    lemma_extension_start(name);
    reveal_strlit(" (");
    let split = number_position(name, preserve_extension);
    let whole = duplicated(name, index, preserve_extension);
    if split > 0 {
        assert(whole[0] == name[0]);
    } else {
        assert(whole[0] == " ("@[0]);
    }
}

proof fn lemma_name_of_path(path: Seq<char>, i: int)
    requires
        0 <= i < path::path_names(path).len(),
    ensures
        path::path_names(path)[i].len() > 0,
        path::path_names(path)[i][0] != '/',
    decreases path.len(),
{
    let rest = path::trim_front(path);
    path::lemma_trim_front(path);
    path::lemma_piece_len(rest);
    if i > 0 {
        lemma_name_of_path(rest.skip(path::piece_len(rest) as int), i - 1);
    }
}

/// As many different candidates as there are numbers up to `count`: they cannot
/// all be taken when fewer paths are taken.
proof fn lemma_taken_bound(
    destination: Seq<char>,
    source: Seq<char>,
    preserve_extension: bool,
    taken: Seq<Seq<char>>,
    count: nat,
)
    requires
        path::last_name(source) is Some,
        path::last_name(source)->Some_0.len() > 0,
        path::last_name(source)->Some_0[0] != '/',
        forall|index: nat|
            1 <= index <= count ==> taken.contains(
                #[trigger] candidate(destination, source, index, preserve_extension),
            ),
    ensures
        count <= taken.len(),
{
    let list = Seq::new(
        count,
        |i: int| candidate(destination, source, (i + 1) as nat, preserve_extension),
    );
    assert(list.no_duplicates()) by {
        assert forall|i: int, j: int|
            0 <= i < list.len() && 0 <= j < list.len() && i != j implies list[i] != list[j] by {
            lemma_candidates_differ(
                destination,
                source,
                (i + 1) as nat,
                (j + 1) as nat,
                preserve_extension,
            );
        }
    }
    list.unique_seq_to_set();
    assert(list.to_set().subset_of(taken.to_set())) by {
        assert forall|path: Seq<char>| list.to_set().contains(path) implies taken.to_set().contains(
            path,
        ) by {
            let i = choose|i: int| 0 <= i < list.len() && list[i] == path;
            assert(taken.contains(
                candidate(destination, source, (i + 1) as nat, preserve_extension),
            ));
        }
    }
    vstd::seq_lib::seq_to_set_is_finite(taken);
    vstd::set_lib::lemma_len_subset(list.to_set(), taken.to_set());
    taken.lemma_cardinality_of_set();
}

fn first_free(
    destination: &str,
    source: &str,
    name: &str,
    preserve_extension: bool,
    reserved: &Vec<String>,
    existing: &Vec<String>,
) -> (path: String)
    requires
        path::last_name(source@) == Some(name@),
        reserved@.len() + existing@.len() < usize::MAX - 1,
    ensures
        is_first_free(
            path@,
            destination@,
            source@,
            preserve_extension,
            texts(reserved@),
            texts(existing@),
        ),
{
    let ghost taken = texts(reserved@) + texts(existing@);
    let mut index: usize = 1;
    proof {
        lemma_name_of_path(source@, path::path_names(source@).len() - 1);
    }
    loop
        invariant
            path::last_name(source@) == Some(name@),
            name@.len() > 0,
            name@[0] != '/',
            reserved@.len() + existing@.len() < usize::MAX - 1,
            taken == texts(reserved@) + texts(existing@),
            1 <= index <= taken.len() + 1,
            forall|smaller: nat|
                1 <= smaller < index ==> !is_free(
                    #[trigger] candidate(destination@, source@, smaller, preserve_extension),
                    texts(reserved@),
                    texts(existing@),
                ),
        decreases taken.len() + 2 - index,
    {
        let duplicate = duplicate_name(name, index, preserve_extension);
        let path = path::join(destination, duplicate.as_str());
        if !text::contains_text(reserved, path.as_str()) && !text::contains_text(
            existing,
            path.as_str(),
        ) {
            proof {
                assert(is_first_free_index(
                    index as nat,
                    path@,
                    destination@,
                    source@,
                    preserve_extension,
                    texts(reserved@),
                    texts(existing@),
                ));
            }
            return path;
        }
        proof {
            assert forall|smaller: nat| 1 <= smaller <= index implies taken.contains(
                #[trigger] candidate(destination@, source@, smaller, preserve_extension),
            ) by {
                let c = candidate(destination@, source@, smaller, preserve_extension);
                assert(!is_free(c, texts(reserved@), texts(existing@)));
                if texts(reserved@).contains(c) {
                    let k = choose|k: int| 0 <= k < texts(reserved@).len() && texts(reserved@)[k] == c;
                    assert(taken[k] == c);
                } else {
                    let k = choose|k: int| 0 <= k < texts(existing@).len() && texts(existing@)[k] == c;
                    assert(taken[texts(reserved@).len() + k] == c);
                }
            }
            lemma_taken_bound(destination@, source@, preserve_extension, taken, index as nat);
        }
        index = index + 1;
    }
}

/// The places of those of the first `count` sources that come from elsewhere.
pub open spec fn places_from_elsewhere(
    sources: Seq<Seq<char>>,
    destination: Seq<char>,
    count: nat,
) -> Seq<Seq<char>>
    decreases count,
{
    if count == 0 {
        Seq::empty()
    } else {
        let before = places_from_elsewhere(sources, destination, (count - 1) as nat);
        let source = sources[count - 1];
        if stays_in_place(source, destination) {
            before
        } else {
            before.push(path::joined(destination, path::last_name(source)->Some_0))
        }
    }
}

/// The places that duplicates have been given among the first `count` sources.
pub open spec fn places_of_duplicates(
    sources: Seq<Seq<char>>,
    destination: Seq<char>,
    targets: Seq<CopyTarget>,
    count: nat,
) -> Seq<Seq<char>>
    decreases count,
{
    if count == 0 {
        Seq::empty()
    } else {
        let before = places_of_duplicates(sources, destination, targets, (count - 1) as nat);
        if stays_in_place(sources[count - 1], destination) {
            before.push(targets[count - 1].destination@)
        } else {
            before
        }
    }
}

/// The places that are spoken for when the source at `i` is planned.
pub open spec fn places_spoken_for(
    sources: Seq<Seq<char>>,
    destination: Seq<char>,
    targets: Seq<CopyTarget>,
    i: nat,
) -> Seq<Seq<char>> {
    places_from_elsewhere(sources, destination, sources.len()) + places_of_duplicates(
        sources,
        destination,
        targets,
        i,
    )
}

/// The target is the one that the source at `i` gets.
pub open spec fn is_target(
    sources: Seq<Seq<char>>,
    destination: Seq<char>,
    states: Seq<SourceState>,
    existing: Seq<Seq<char>>,
    targets: Seq<CopyTarget>,
    i: int,
) -> bool {
    &&& targets[i].source@ == sources[i]
    &&& if stays_in_place(sources[i], destination) {
        &&& states[i] is Present
        &&& is_first_free(
            targets[i].destination@,
            destination,
            sources[i],
            states[i]->Present_0 != FileManagerEntryKind::Directory,
            places_spoken_for(sources, destination, targets, i as nat),
            existing,
        )
    } else {
        targets[i].destination@ == path::joined(destination, path::last_name(sources[i])->Some_0)
    }
}

/// Why the first of `count` sources that cannot be duplicated cannot be.
pub open spec fn duplicate_refusal(
    sources: Seq<Seq<char>>,
    destination: Seq<char>,
    states: Seq<SourceState>,
    count: nat,
) -> Option<CopyError>
    decreases count,
{
    if count == 0 {
        None
    } else {
        match duplicate_refusal(sources, destination, states, (count - 1) as nat) {
            Some(error) => Some(error),
            None => if !stays_in_place(sources[count - 1], destination) {
                None
            } else {
                match states[count - 1] {
                    SourceState::Unavailable => Some(CopyError::Unavailable),
                    SourceState::Missing => Some(CopyError::MissingSource),
                    SourceState::Present(_) => None,
                }
            },
        }
    }
}

/// Why copies cannot be planned.
pub open spec fn copy_refusal(
    sources: Seq<Seq<char>>,
    destination: Seq<char>,
    states: Seq<SourceState>,
) -> Option<CopyError> {
    match path::relative_path_outcome(destination, true) {
        Some(error) => Some(CopyError::Operation(OperationError::Path(error))),
        None => match operation::targets_in(destination, sources) {
            Err(error) => Some(CopyError::Operation(error)),
            Ok(_) => duplicate_refusal(sources, destination, states, sources.len()),
        },
    }
}

proof fn lemma_targets_ok(destination: Seq<char>, sources: Seq<Seq<char>>, i: int)
    requires
        operation::targets_in(destination, sources) is Ok,
        0 <= i < sources.len(),
    ensures
        operation::target_in(destination, sources[i]) is Ok,
        path::last_name(sources[i]) is Some,
        operation::targets_in(destination, sources)->Ok_0.len() == sources.len(),
        operation::targets_in(destination, sources)->Ok_0[i] == path::joined(
            destination,
            path::last_name(sources[i])->Some_0,
        ),
    decreases sources.len(),
{
    if i < sources.len() - 1 {
        lemma_targets_ok(destination, sources.drop_last(), i);
    } else if sources.len() > 1 {
        lemma_targets_ok(destination, sources.drop_last(), 0);
    } else {
        assert(operation::targets_in(destination, sources.drop_last())->Ok_0 =~= Seq::<
            Seq<char>,
        >::empty());
    }
}

proof fn lemma_duplicate_error(
    sources: Seq<Seq<char>>,
    destination: Seq<char>,
    states: Seq<SourceState>,
    count: nat,
)
    requires
        count <= sources.len(),
        duplicate_refusal(sources, destination, states, count) is Some,
    ensures
        duplicate_refusal(sources, destination, states, sources.len()) == duplicate_refusal(
            sources,
            destination,
            states,
            count,
        ),
    decreases sources.len() - count,
{
    if count < sources.len() {
        lemma_duplicate_error(sources, destination, states, count + 1);
    }
}

proof fn lemma_duplicates_prefix(
    sources: Seq<Seq<char>>,
    destination: Seq<char>,
    targets: Seq<CopyTarget>,
    longer: Seq<CopyTarget>,
    count: nat,
)
    requires
        count <= targets.len() <= longer.len(),
        forall|i: int| 0 <= i < targets.len() ==> #[trigger] longer[i] == targets[i],
    ensures
        places_of_duplicates(sources, destination, targets, count) == places_of_duplicates(
            sources,
            destination,
            longer,
            count,
        ),
    decreases count,
{
    if count > 0 {
        lemma_duplicates_prefix(sources, destination, targets, longer, (count - 1) as nat);
        assert(longer[count - 1] == targets[count - 1]);
    }
}

/// Plans where each source is copied to. A source from elsewhere keeps its
/// name; one that already stands in the destination becomes a duplicate with
/// the first free number. `states` says what is known of each source, and
/// `existing` names the entries that the destination holds.
pub fn resolve_copy_targets(
    operation: &FileManagerOperation,
    states: &Vec<SourceState>,
    existing: &Vec<String>,
) -> (targets: Result<Vec<CopyTarget>, CopyError>)
    requires
        operation matches FileManagerOperation::Copy { paths, .. } ==> states@.len() == paths@.len()
            && 2 * paths@.len() + existing@.len() < usize::MAX - 1,
    ensures
        match operation {
            FileManagerOperation::Copy { paths, destination } => match targets {
                Ok(list) => {
                    &&& copy_refusal(texts(paths@), destination@, states@) is None
                    &&& list@.len() == paths@.len()
                    &&& forall|i: int|
                        0 <= i < list@.len() ==> #[trigger] is_target(
                            texts(paths@),
                            destination@,
                            states@,
                            texts(existing@),
                            list@,
                            i,
                        )
                },
                Err(error) => copy_refusal(texts(paths@), destination@, states@) == Some(error),
            },
            _ => targets matches Ok(list) && list@.len() == 0,
        },
{
    let (paths, destination) = match operation {
        FileManagerOperation::Copy { paths, destination } => (paths, destination),
        _ => {
            return Ok(Vec::new());
        },
    };
    match path::relative_path(destination.as_str(), true) {
        Err(error) => {
            return Err(CopyError::Operation(OperationError::Path(error)));
        },
        Ok(_) => {},
    }
    let defaults = match operation::watched_paths(operation) {
        Err(error) => {
            return Err(CopyError::Operation(error));
        },
        Ok(defaults) => defaults,
    };
    let ghost sources = texts(paths@);
    let mut reserved: Vec<String> = Vec::new();
    assert(texts(reserved@) =~= Seq::<Seq<char>>::empty());
    for i in 0..paths.len()
        invariant
            sources == texts(paths@),
            operation::targets_in(destination@, sources) == Ok::<Seq<Seq<char>>, OperationError>(
                texts(defaults@),
            ),
            texts(reserved@) == places_from_elsewhere(sources, destination@, i as nat),
            reserved@.len() <= i,
    {
        proof {
            lemma_targets_ok(destination@, sources, i as int);
            assert(sources[i as int] == paths@[i as int]@);
            assert(texts(defaults@)[i as int] == defaults@[i as int]@);
        }
        let parent = operation::directory(paths[i].as_str());
        if !path::same_path(parent.as_str(), destination.as_str()) {
            let ghost before = texts(reserved@);
            reserved.push(defaults[i].clone());
            assert(texts(reserved@) =~= before.push(defaults@[i as int]@));
        }
    }
    let mut targets: Vec<CopyTarget> = Vec::new();
    proof {
        assert(texts(reserved@) =~= places_spoken_for(sources, destination@, targets@, 0));
    }
    for i in 0..paths.len()
        invariant
            *operation == (FileManagerOperation::Copy { paths: *paths, destination: *destination }),
            sources == texts(paths@),
            states@.len() == paths@.len(),
            2 * paths@.len() + existing@.len() < usize::MAX - 1,
            path::relative_path_outcome(destination@, true) is None,
            operation::targets_in(destination@, sources) == Ok::<Seq<Seq<char>>, OperationError>(
                texts(defaults@),
            ),
            targets@.len() == i,
            reserved@.len() <= paths@.len() + i,
            texts(reserved@) == places_spoken_for(sources, destination@, targets@, i as nat),
            duplicate_refusal(sources, destination@, states@, i as nat) is None,
            forall|k: int|
                0 <= k < i ==> #[trigger] is_target(
                    sources,
                    destination@,
                    states@,
                    texts(existing@),
                    targets@,
                    k,
                ),
    {
        proof {
            lemma_targets_ok(destination@, sources, i as int);
            assert(sources[i as int] == paths@[i as int]@);
            assert(texts(defaults@)[i as int] == defaults@[i as int]@);
        }
        let source = paths[i].as_str();
        let parent = operation::directory(source);
        let in_place = path::same_path(parent.as_str(), destination.as_str());
        let ghost before = targets@;
        let ghost spoken = texts(reserved@);
        let target = if in_place {
            let kind = match states[i] {
                SourceState::Unavailable => {
                    proof {
                        lemma_duplicate_error(sources, destination@, states@, (i + 1) as nat);
                    }
                    return Err(CopyError::Unavailable);
                },
                SourceState::Missing => {
                    proof {
                        lemma_duplicate_error(sources, destination@, states@, (i + 1) as nat);
                    }
                    return Err(CopyError::MissingSource);
                },
                SourceState::Present(kind) => kind,
            };
            let preserve_extension = match kind {
                FileManagerEntryKind::Directory => false,
                _ => true,
            };
            let name = match path::file_name(source) {
                Some(name) => name,
                None => {
                    return Err(CopyError::Operation(OperationError::NoFileName));
                },
            };
            let free = first_free(
                destination.as_str(),
                source,
                name.as_str(),
                preserve_extension,
                &reserved,
                existing,
            );
            reserved.push(free.clone());
            assert(texts(reserved@) =~= spoken.push(free@));
            free
        } else {
            defaults[i].clone()
        };
        targets.push(CopyTarget { source: paths[i].clone(), destination: target });
        proof {
            lemma_duplicates_prefix(sources, destination@, before, targets@, i as nat);
            assert(targets@[i as int].destination@ == target@);
            let elsewhere = places_from_elsewhere(sources, destination@, sources.len());
            if in_place {
                assert(texts(reserved@) =~= elsewhere + places_of_duplicates(
                    sources,
                    destination@,
                    targets@,
                    (i + 1) as nat,
                ));
            }
            assert forall|k: int| 0 <= k < i + 1 implies #[trigger] is_target(
                sources,
                destination@,
                states@,
                texts(existing@),
                targets@,
                k,
            ) by {
                if k < i {
                    assert(is_target(
                        sources,
                        destination@,
                        states@,
                        texts(existing@),
                        before,
                        k,
                    ));
                    assert(targets@[k] == before[k]);
                    lemma_duplicates_prefix(sources, destination@, before, targets@, k as nat);
                }
            }
        }
    }
    Ok(targets)
}

/// A planned duplicate replaces nothing: its place is not taken by an existing
/// entry, by a source from elsewhere, or by another duplicate.
pub proof fn duplicates_take_free_places(
    sources: Seq<Seq<char>>,
    destination: Seq<char>,
    states: Seq<SourceState>,
    existing: Seq<Seq<char>>,
    targets: Seq<CopyTarget>,
    i: int,
    j: int,
)
    requires
        targets.len() == sources.len(),
        forall|k: int|
            0 <= k < targets.len() ==> #[trigger] is_target(
                sources,
                destination,
                states,
                existing,
                targets,
                k,
            ),
        0 <= i < targets.len(),
        0 <= j < targets.len(),
        i != j,
        stays_in_place(sources[i], destination),
    ensures
        !existing.contains(targets[i].destination@),
        targets[i].destination@ != targets[j].destination@,
{
    assert(is_target(sources, destination, states, existing, targets, i));
    assert(is_target(sources, destination, states, existing, targets, j));
    if stays_in_place(sources[j], destination) {
        if j < i {
            lemma_duplicate_spoken_for(sources, destination, targets, i as nat, j);
        } else {
            lemma_duplicate_spoken_for(sources, destination, targets, j as nat, i);
        }
    } else {
        lemma_elsewhere_spoken_for(sources, destination, sources.len(), j);
        let elsewhere = places_from_elsewhere(sources, destination, sources.len());
        let spoken = places_spoken_for(sources, destination, targets, i as nat);
        let k = choose|k: int| 0 <= k < elsewhere.len() && elsewhere[k] == targets[j].destination@;
        assert(spoken[k] == targets[j].destination@);
    }
}

proof fn lemma_duplicate_spoken_for(
    sources: Seq<Seq<char>>,
    destination: Seq<char>,
    targets: Seq<CopyTarget>,
    count: nat,
    j: int,
)
    requires
        0 <= j < count,
        stays_in_place(sources[j], destination),
    ensures
        places_spoken_for(sources, destination, targets, count).contains(targets[j].destination@),
{
    lemma_duplicate_listed(sources, destination, targets, count, j);
    let list = places_of_duplicates(sources, destination, targets, count);
    let elsewhere = places_from_elsewhere(sources, destination, sources.len());
    let k = choose|k: int| 0 <= k < list.len() && list[k] == targets[j].destination@;
    assert((elsewhere + list)[elsewhere.len() + k] == targets[j].destination@);
}

proof fn lemma_duplicate_listed(
    sources: Seq<Seq<char>>,
    destination: Seq<char>,
    targets: Seq<CopyTarget>,
    count: nat,
    j: int,
)
    requires
        0 <= j < count,
        stays_in_place(sources[j], destination),
    ensures
        places_of_duplicates(sources, destination, targets, count).contains(targets[j].destination@),
    decreases count,
{
    let list = places_of_duplicates(sources, destination, targets, count);
    let before = places_of_duplicates(sources, destination, targets, (count - 1) as nat);
    if j == count - 1 {
        assert(list.last() == targets[j].destination@);
    } else {
        lemma_duplicate_listed(sources, destination, targets, (count - 1) as nat, j);
        let k = choose|k: int| 0 <= k < before.len() && before[k] == targets[j].destination@;
        assert(list[k] == targets[j].destination@);
    }
}

proof fn lemma_elsewhere_spoken_for(
    sources: Seq<Seq<char>>,
    destination: Seq<char>,
    count: nat,
    j: int,
)
    requires
        0 <= j < count,
        !stays_in_place(sources[j], destination),
    ensures
        places_from_elsewhere(sources, destination, count).contains(
            path::joined(destination, path::last_name(sources[j])->Some_0),
        ),
    decreases count,
{
    let place = path::joined(destination, path::last_name(sources[j])->Some_0);
    let list = places_from_elsewhere(sources, destination, count);
    let before = places_from_elsewhere(sources, destination, (count - 1) as nat);
    if j == count - 1 {
        assert(list.last() == place);
    } else {
        lemma_elsewhere_spoken_for(sources, destination, (count - 1) as nat, j);
        let k = choose|k: int| 0 <= k < before.len() && before[k] == place;
        assert(list[k] == place);
    }
}

// ---------------------------------------------------------------------------
// The paths of a planned operation
// ---------------------------------------------------------------------------

/// The paths that a planned operation changes.
pub open spec fn watched_as_planned(
    operation: FileManagerOperation,
    targets: Seq<CopyTarget>,
) -> Result<Seq<Seq<char>>, OperationError> {
    if operation is Copy {
        Ok(destinations(targets))
    } else {
        operation::watched(operation)
    }
}

fn destinations_of(targets: &Vec<CopyTarget>) -> (list: Vec<String>)
    ensures
        texts(list@) == destinations(targets@),
{
    let mut list: Vec<String> = Vec::new();
    for i in 0..targets.len()
        invariant
            list@.len() == i,
            forall|k: int| 0 <= k < i ==> (#[trigger] list@[k])@ == targets@[k].destination@,
    {
        list.push(targets[i].destination.clone());
    }
    assert(texts(list@) =~= destinations(targets@));
    list
}

/// The paths that a planned operation changes.
pub fn watched_paths_planned(operation: &FileManagerOperation, copy_targets: &Vec<CopyTarget>) -> (paths:
    Result<Vec<String>, OperationError>)
    ensures
        operation::agrees_with(paths, watched_as_planned(*operation, copy_targets@)),
{
    match operation {
        FileManagerOperation::Copy { .. } => Ok(destinations_of(copy_targets)),
        _ => operation::watched_paths(operation),
    }
}

/// The paths that are snapshotted before a planned operation.
pub fn journal_paths_planned(operation: &FileManagerOperation, copy_targets: &Vec<CopyTarget>) -> (paths:
    Result<Vec<String>, OperationError>)
    ensures
        operation::agrees_with(paths, watched_as_planned(*operation, copy_targets@)),
{
    watched_paths_planned(operation, copy_targets)
}

/// The paths that an operation reads without changing them.
pub open spec fn only_read(operation: FileManagerOperation) -> Seq<Seq<char>> {
    match operation {
        FileManagerOperation::Copy { paths, .. } => texts(paths@),
        FileManagerOperation::CreateArchive { paths, .. } => texts(paths@),
        FileManagerOperation::ExtractArchive { path, .. } => seq![path@],
        _ => Seq::empty(),
    }
}

/// The paths whose state must not change between planning and execution: those
/// that the operation changes, and those that it reads.
pub open spec fn revisions_as_planned(
    operation: FileManagerOperation,
    targets: Seq<CopyTarget>,
) -> Result<Seq<Seq<char>>, OperationError> {
    match watched_as_planned(operation, targets) {
        Ok(changed) => Ok(changed + only_read(operation)),
        Err(error) => Err(error),
    }
}

/// The paths whose state must not change between planning and execution.
pub fn revision_paths_planned(operation: &FileManagerOperation, copy_targets: &Vec<CopyTarget>) -> (paths:
    Result<Vec<String>, OperationError>)
    ensures
        operation::agrees_with(paths, revisions_as_planned(*operation, copy_targets@)),
{
    match watched_paths_planned(operation, copy_targets) {
        Err(error) => Err(error),
        Ok(paths) => {
            let mut list = paths;
            let mut more: Vec<String> = match operation {
                FileManagerOperation::Copy { paths: sources, .. }
                | FileManagerOperation::CreateArchive { paths: sources, .. } => text::clone_texts(
                    sources,
                ),
                FileManagerOperation::ExtractArchive { path, .. } => {
                    let mut one: Vec<String> = Vec::new();
                    one.push(path.clone());
                    assert(texts(one@) =~= seq![path@]);
                    one
                },
                _ => {
                    let none: Vec<String> = Vec::new();
                    assert(texts(none@) =~= Seq::<Seq<char>>::empty());
                    none
                },
            };
            let ghost sum = texts(list@) + texts(more@);
            list.append(&mut more);
            assert(texts(list@) =~= sum);
            Ok(list)
        },
    }
}

/// The paths that are reported as changed: the planned destinations of a copy,
/// and what the operation itself names for anything else.
pub open spec fn affected_as_planned(
    operation: FileManagerOperation,
    targets: Seq<CopyTarget>,
    named: Seq<Seq<char>>,
) -> Seq<Seq<char>> {
    if operation is Copy {
        destinations(targets)
    } else {
        named
    }
}

/// The paths that are reported as changed.
pub fn affected_paths_planned(
    operation: &FileManagerOperation,
    copy_targets: &Vec<CopyTarget>,
    named: Vec<String>,
) -> (paths: Vec<String>)
    ensures
        texts(paths@) == affected_as_planned(*operation, copy_targets@, texts(named@)),
{
    match operation {
        FileManagerOperation::Copy { .. } => destinations_of(copy_targets),
        _ => named,
    }
}

proof fn lemma_dot_is_last(name: Seq<char>, end: int, dot: int)
    requires
        1 <= dot < end <= name.len(),
        name[dot] == '.',
        forall|i: int| dot < i < end ==> #[trigger] name[i] != '.',
    ensures
        last_dot(name, end) == dot,
    decreases end,
{
    if end - 1 != dot {
        assert(name[end - 1] != '.');
        lemma_dot_is_last(name, end - 1, dot);
    }
}

proof fn lemma_no_dot(name: Seq<char>, end: int)
    requires
        0 <= end <= name.len(),
        forall|i: int| 1 <= i < end ==> #[trigger] name[i] != '.',
    ensures
        last_dot(name, end) == name.len(),
    decreases end,
{
    if end > 1 {
        assert(name[end - 1] != '.');
        lemma_no_dot(name, end - 1);
    }
}

/// The name is that of a compressed tape archive.
pub open spec fn has_double_extension(name: Seq<char>) -> bool {
    ||| operation::ends_ignoring_case(name, ".tar.gz"@)
    ||| operation::ends_ignoring_case(name, ".tar.bz2"@)
    ||| operation::ends_ignoring_case(name, ".tar.xz"@)
    ||| operation::ends_ignoring_case(name, ".tar.zst"@)
}

/// A duplicate is numbered in brackets behind the stem, and keeps the extension:
/// what stands behind the last dot. A dot at the start begins no extension.
pub proof fn duplicates_keep_the_extension(stem: Seq<char>, extension: Seq<char>, index: nat)
    requires
        stem.len() > 0,
        forall|i: int| 0 <= i < extension.len() ==> #[trigger] extension[i] != '.',
        !has_double_extension(stem + "."@ + extension),
    ensures
        duplicated(stem + "."@ + extension, index, true) == stem + " ("@ + text::decimal_digits(
            index,
        ) + ")."@ + extension,
{
    reveal_strlit(".");
    reveal_strlit(")");
    reveal_strlit(").");
    let name = stem + "."@ + extension;
    let dot = stem.len() as int;
    assert(name[dot] == '.');
    assert forall|i: int| dot < i < name.len() implies #[trigger] name[i] != '.' by {
        assert(name[i] == extension[i - dot - 1]);
    }
    lemma_dot_is_last(name, name.len() as int, dot);
    assert(name.take(dot) =~= stem);
    assert(name.skip(dot) =~= "."@ + extension);
    assert(duplicated(name, index, true) =~= stem + " ("@ + text::decimal_digits(index) + ")."@
        + extension);
}

/// A name without an extension is numbered at its end, and so is every name whose
/// extension does not count, as that of a directory.
pub proof fn plain_names_are_numbered_at_the_end(name: Seq<char>, index: nat)
    ensures
        duplicated(name, index, false) == name + " ("@ + text::decimal_digits(index) + ")"@,
        !has_double_extension(name) && (forall|i: int|
            1 <= i < name.len() ==> #[trigger] name[i] != '.') ==> duplicated(name, index, true)
            == name + " ("@ + text::decimal_digits(index) + ")"@,
{
    let whole = name.len() as int;
    assert(name.take(whole) =~= name);
    assert(name.skip(whole) =~= Seq::<char>::empty());
    assert(name + " ("@ + text::decimal_digits(index) + ")"@ + Seq::<char>::empty() =~= name
        + " ("@ + text::decimal_digits(index) + ")"@);
    if !has_double_extension(name) && forall|i: int|
        1 <= i < name.len() ==> #[trigger] name[i] != '.' {
        lemma_no_dot(name, whole);
    }
}

/// The double extension of a compressed tape archive is kept whole.
pub proof fn duplicates_keep_double_extensions(stem: Seq<char>, extension: Seq<char>, index: nat)
    requires
        extension == ".tar.gz"@ || extension == ".tar.bz2"@ || extension == ".tar.xz"@ || extension
            == ".tar.zst"@,
    ensures
        duplicated(stem + extension, index, true) == stem + " ("@ + text::decimal_digits(index)
            + ")"@ + extension,
{
    reveal_strlit(".tar.gz");
    reveal_strlit(".tar.bz2");
    reveal_strlit(".tar.xz");
    reveal_strlit(".tar.zst");
    let name = stem + extension;
    let dot = stem.len() as int;
    assert(name.take(dot) =~= stem);
    assert(name.skip(dot) =~= extension);
    assert(operation::ends_ignoring_case(name, extension));
    let seven = name.skip(name.len() - 7);
    assert(seven[6] == extension[extension.len() - 1]);
    assert(seven[5] == extension[extension.len() - 2]);
    if name.len() >= 8 {
        let eight = name.skip(name.len() - 8);
        assert(eight[7] == extension[extension.len() - 1]);
        assert(eight[6] == extension[extension.len() - 2]);
    }
}

/// A copy to another directory keeps its name, and one beside its source gets a new
/// one; every copy is of the source that was asked for.
pub proof fn copies_go_to_the_destination(
    sources: Seq<Seq<char>>,
    destination: Seq<char>,
    states: Seq<SourceState>,
    existing: Seq<Seq<char>>,
    targets: Seq<CopyTarget>,
    i: int,
)
    requires
        0 <= i < targets.len(),
        is_target(sources, destination, states, existing, targets, i),
    ensures
        targets[i].source@ == sources[i],
        !stays_in_place(sources[i], destination) ==> targets[i].destination@ == path::joined(
            destination,
            path::last_name(sources[i])->Some_0,
        ),
        stays_in_place(sources[i], destination) ==> exists|index: nat|
            #![trigger text::decimal_digits(index)]
            index >= 1 && targets[i].destination@ == path::joined(
                destination,
                if states[i]->Present_0 == FileManagerEntryKind::Directory {
                    duplicated(path::last_name(sources[i])->Some_0, index, false)
                } else {
                    duplicated(path::last_name(sources[i])->Some_0, index, true)
                },
            ),
{
    if stays_in_place(sources[i], destination) {
        let keeps = states[i]->Present_0 != FileManagerEntryKind::Directory;
        let spoken_for = places_spoken_for(sources, destination, targets, i as nat);
        assert(is_first_free(
            targets[i].destination@,
            destination,
            sources[i],
            keeps,
            spoken_for,
            existing,
        ));
        let index = choose|index: nat| #[trigger]
            is_first_free_index(
                index,
                targets[i].destination@,
                destination,
                sources[i],
                keeps,
                spoken_for,
                existing,
            );
        let name = path::last_name(sources[i])->Some_0;
        assert(targets[i].destination@ == candidate(destination, sources[i], index, keeps));
        assert(targets[i].destination@ == path::joined(
            destination,
            duplicated(name, index, keeps),
        ));
        let digits = text::decimal_digits(index);
    }
}

/// A copy beside its source is refused where the source is not there or cannot be
/// looked at: the first such source counts. Copies to elsewhere ask nothing of it.
pub proof fn missing_sources_are_told(
    sources: Seq<Seq<char>>,
    destination: Seq<char>,
    states: Seq<SourceState>,
    count: nat,
)
    requires
        count <= sources.len(),
    ensures
        duplicate_refusal(sources, destination, states, count) is None <==> forall|i: int|
            0 <= i < count && stays_in_place(#[trigger] sources[i], destination) ==> states[i]
                is Present,
        duplicate_refusal(sources, destination, states, count) matches Some(error) ==> exists|
            i: int,
        |
            {
                &&& 0 <= i < count
                &&& stays_in_place(#[trigger] sources[i], destination)
                &&& states[i] is Missing ==> error == CopyError::MissingSource
                &&& states[i] is Unavailable ==> error == CopyError::Unavailable
                &&& states[i] !is Present
                &&& forall|j: int|
                    0 <= j < i && stays_in_place(#[trigger] sources[j], destination) ==> states[j]
                        is Present
            },
    decreases count,
{
    if count > 0 {
        missing_sources_are_told(sources, destination, states, (count - 1) as nat);
        let last = sources[count - 1];
        assert(stays_in_place(last, destination) || !stays_in_place(last, destination));
    }
}

} // verus!
