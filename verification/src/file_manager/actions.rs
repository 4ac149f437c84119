//! Operations that change names only: which actions they consist of, and how
//! these are undone, redone and rolled back.

use vstd::prelude::*;

use crate::file_manager::conflict;
use crate::file_manager::conflict::Destination;
use crate::file_manager::conflict::FileManagerConflictDecision;
use crate::file_manager::copying::CopyTarget;
use crate::file_manager::journal::JournalAction;
use crate::file_manager::journal::JournalActionKind;
use crate::file_manager::journal::JournalActionState;
use crate::file_manager::journal::JournalRecord;
use crate::file_manager::limits::WorkTotal;
use crate::file_manager::namespace;
use crate::file_manager::operation;
use crate::file_manager::operation::FileManagerOperation;
use crate::file_manager::operation::OperationError;
use crate::path;
use crate::path::PathError;
use crate::text;
use crate::text::texts;

verus! {

/// Why an action is refused.
#[derive(Clone, Copy, Debug, PartialEq, Eq, Structural)]
pub enum ActionError {
    /// The operation's paths are refused.
    Operation(OperationError),
    /// Something stands at the destination and nobody decided about it.
    DestinationExists,
    /// The operation does more than change names.
    NotByName,
    /// Undoing or redoing would replace an entry.
    Occupied,
    /// An entry that the operation names is not there.
    Missing,
}

/// What a journal action changes, over texts.
pub enum KindModel {
    Quarantine { path: Seq<char>, name: Seq<char> },
    Relocate { from: Seq<char>, to: Seq<char> },
    Created { path: Seq<char>, name: Seq<char> },
}

/// What the action changes.
pub open spec fn kind_of(kind: JournalActionKind) -> KindModel {
    match kind {
        JournalActionKind::Quarantine { path, quarantine_name } => KindModel::Quarantine {
            path: path@,
            name: quarantine_name@,
        },
        JournalActionKind::Relocate { from, to } => KindModel::Relocate { from: from@, to: to@ },
        JournalActionKind::Created { path, quarantine_name } => KindModel::Created {
            path: path@,
            name: quarantine_name@,
        },
    }
}

/// What the actions change.
pub open spec fn kinds_of(list: Seq<JournalActionKind>) -> Seq<KindModel> {
    list.map_values(|kind: JournalActionKind| kind_of(kind))
}

/// The quarantine name of an entry that is moved away as the action at `index`.
pub open spec fn quarantine_name(index: nat) -> Seq<char> {
    text::decimal_digits(index)
}

/// The quarantine name of an entry that is created as the action at `index`.
pub open spec fn created_name(index: nat) -> Seq<char> {
    "created-"@ + text::decimal_digits(index)
}

fn quarantine_action(path: &str, index: u64) -> (kind: JournalActionKind)
    ensures
        kind_of(kind) == (KindModel::Quarantine { path: path@, name: quarantine_name(index as nat) }),
{
    JournalActionKind::Quarantine { path: path.to_owned(), quarantine_name: text::decimal(index) }
}

fn created_action(path: &str, index: u64) -> (kind: JournalActionKind)
    ensures
        kind_of(kind) == (KindModel::Created { path: path@, name: created_name(index as nat) }),
{
    let digits = text::decimal(index);
    JournalActionKind::Created {
        path: path.to_owned(),
        quarantine_name: text::concat2("created-", digits.as_str()),
    }
}

fn relocate_action(from: &str, to: &str) -> (kind: JournalActionKind)
    ensures
        kind_of(kind) == (KindModel::Relocate { from: from@, to: to@ }),
{
    JournalActionKind::Relocate { from: from.to_owned(), to: to.to_owned() }
}

// ---------------------------------------------------------------------------
// The actions of an operation
// ---------------------------------------------------------------------------

/// The number of items of an operation.
pub open spec fn items_of(operation: FileManagerOperation, targets: Seq<CopyTarget>) -> nat {
    match operation {
        FileManagerOperation::Move { paths, .. } => paths@.len(),
        FileManagerOperation::Delete { paths } => paths@.len(),
        FileManagerOperation::Copy { .. } => targets.len(),
        _ => 1,
    }
}

/// The number of items of an operation.
pub fn item_count(operation: &FileManagerOperation, targets: &Vec<CopyTarget>) -> (count: usize)
    ensures
        count == items_of(*operation, targets@),
{
    match operation {
        FileManagerOperation::Move { paths, .. } => paths.len(),
        FileManagerOperation::Delete { paths } => paths.len(),
        FileManagerOperation::Copy { .. } => targets.len(),
        _ => 1,
    }
}

/// Why a path of a copy is refused.
pub open spec fn copy_refusal(target: CopyTarget) -> Option<PathError> {
    match path::relative_path_outcome(target.source@, false) {
        Some(error) => Some(error),
        None => path::relative_path_outcome(target.destination@, false),
    }
}

/// Why a path of a copy is refused.
pub fn refuse_copy(target: &CopyTarget) -> (refusal: Option<PathError>)
    ensures
        refusal == copy_refusal(*target),
{
    match path::relative_path(target.source.as_str(), false) {
        Err(error) => Some(error),
        Ok(_) => match path::relative_path(target.destination.as_str(), false) {
            Err(error) => Some(error),
            Ok(_) => None,
        },
    }
}

/// A path that is acted on, or why it is refused.
pub open spec fn checked_path(path: Seq<char>) -> Result<Seq<char>, ActionError> {
    match path::relative_path_outcome(path, false) {
        Some(error) => Err(ActionError::Operation(OperationError::Path(error))),
        None => Ok(path),
    }
}

/// A path that is acted on, or why it is refused.
pub fn check_path(path: &str) -> (checked: Result<String, ActionError>)
    ensures
        match (checked, checked_path(path@)) {
            (Ok(a), Ok(b)) => a@ == b,
            (Err(a), Err(b)) => a == b,
            _ => false,
        },
{
    match path::relative_path(path, false) {
        Err(error) => Err(ActionError::Operation(OperationError::Path(error))),
        Ok(checked) => Ok(checked),
    }
}

/// Where the item at `index` is put, if that place may be occupied.
pub open spec fn place_of(operation: FileManagerOperation, index: int) -> Result<
    Option<Seq<char>>,
    ActionError,
> {
    match operation {
        FileManagerOperation::CreateFile { path } => match checked_path(path@) {
            Err(error) => Err(error),
            Ok(place) => Ok(Some(place)),
        },
        FileManagerOperation::CreateDirectory { path } => match checked_path(path@) {
            Err(error) => Err(error),
            Ok(place) => Ok(Some(place)),
        },
        FileManagerOperation::Rename { path, new_name } => match path::relative_path_outcome(
            path@,
            false,
        ) {
            Some(error) => Err(ActionError::Operation(OperationError::Path(error))),
            None => match path::single_name_outcome(new_name@) {
                Err(error) => Err(ActionError::Operation(OperationError::Path(error))),
                Ok(name) => Ok(Some(operation::renamed_to(path@, name))),
            },
        },
        FileManagerOperation::Move { paths, destination } => match path::relative_path_outcome(
            destination@,
            true,
        ) {
            Some(error) => Err(ActionError::Operation(OperationError::Path(error))),
            None => match operation::target_in(destination@, paths@[index]@) {
                Err(error) => Err(ActionError::Operation(error)),
                Ok(target) => Ok(Some(target)),
            },
        },
        FileManagerOperation::Copy { .. } => Ok(None),
        FileManagerOperation::Delete { paths } => match checked_path(paths@[index]@) {
            Err(error) => Err(error),
            Ok(_) => Ok(None),
        },
        _ => Err(ActionError::NotByName),
    }
}

/// Where the item at `index` is put, if that place may be occupied.
pub fn item_place(operation: &FileManagerOperation, index: usize) -> (place: Result<
    Option<String>,
    ActionError,
>)
    requires
        operation matches FileManagerOperation::Move { paths, .. } ==> index < paths@.len(),
        operation matches FileManagerOperation::Delete { paths } ==> index < paths@.len(),
    ensures
        match (place, place_of(*operation, index as int)) {
            (Ok(Some(a)), Ok(Some(b))) => a@ == b,
            (Ok(None), Ok(None)) => true,
            (Err(a), Err(b)) => a == b,
            _ => false,
        },
{
    match operation {
        FileManagerOperation::CreateFile { path } => match check_path(path.as_str()) {
            Err(error) => Err(error),
            Ok(place) => Ok(Some(place)),
        },
        FileManagerOperation::CreateDirectory { path } => match check_path(path.as_str()) {
            Err(error) => Err(error),
            Ok(place) => Ok(Some(place)),
        },
        FileManagerOperation::Rename { path, new_name } => match path::relative_path(
            path.as_str(),
            false,
        ) {
            Err(error) => Err(ActionError::Operation(OperationError::Path(error))),
            Ok(_) => match path::single_name(new_name.as_str()) {
                Err(error) => Err(ActionError::Operation(OperationError::Path(error))),
                Ok(name) => {
                    let parent = operation::directory(path.as_str());
                    Ok(Some(path::join(parent.as_str(), name.as_str())))
                },
            },
        },
        FileManagerOperation::Move { paths, destination } => match path::relative_path(
            destination.as_str(),
            true,
        ) {
            Err(error) => Err(ActionError::Operation(OperationError::Path(error))),
            Ok(_) => match operation::target_of(destination.as_str(), paths[index].as_str()) {
                Err(error) => Err(ActionError::Operation(error)),
                Ok(target) => Ok(Some(target)),
            },
        },
        FileManagerOperation::Copy { .. } => Ok(None),
        FileManagerOperation::Delete { paths } => match check_path(paths[index].as_str()) {
            Err(error) => Err(error),
            Ok(_) => Ok(None),
        },
        _ => Err(ActionError::NotByName),
    }
}

/// What is done for an item that is put at a place: an entry that stands there
/// is moved away first, or the item is left alone.
pub open spec fn placed(
    verdict: Destination,
    place: Seq<char>,
    recorded: nat,
    put: spec_fn(nat) -> KindModel,
) -> Result<Seq<KindModel>, ActionError> {
    match verdict {
        Destination::Free => Ok(seq![put(recorded)]),
        Destination::Keep => Ok(Seq::empty()),
        Destination::Replace => Ok(
            seq![
                KindModel::Quarantine { path: place, name: quarantine_name(recorded) },
                put(recorded + 1),
            ],
        ),
        Destination::Undecided => Err(ActionError::DestinationExists),
    }
}

/// The actions for the item at `index` of an operation, when `recorded` actions
/// are in its journal already and the item's place is `occupied` or not.
pub open spec fn item_kinds(
    operation: FileManagerOperation,
    targets: Seq<CopyTarget>,
    decisions: Seq<FileManagerConflictDecision>,
    index: int,
    recorded: nat,
    occupied: bool,
) -> Result<Seq<KindModel>, ActionError> {
    match place_of(operation, index) {
        Err(error) => Err(error),
        Ok(Some(place)) => {
            let verdict = conflict::destination_verdict(
                occupied,
                conflict::decision_at(place, decisions),
            );
            match operation {
                FileManagerOperation::Rename { path, .. } => placed(
                    verdict,
                    place,
                    recorded,
                    |n: nat| KindModel::Relocate { from: path@, to: place },
                ),
                FileManagerOperation::Move { paths, .. } => placed(
                    verdict,
                    place,
                    recorded,
                    |n: nat| KindModel::Relocate { from: paths@[index]@, to: place },
                ),
                _ => placed(
                    verdict,
                    place,
                    recorded,
                    |n: nat| KindModel::Created { path: place, name: created_name(n) },
                ),
            }
        },
        Ok(None) => match operation {
            FileManagerOperation::Delete { paths } => Ok(
                seq![
                    KindModel::Quarantine {
                        path: paths@[index]@,
                        name: quarantine_name(recorded),
                    },
                ],
            ),
            _ => match copy_refusal(targets[index]) {
                Some(error) => Err(ActionError::Operation(OperationError::Path(error))),
                None => Ok(
                    seq![
                        KindModel::Created {
                            path: targets[index].destination@,
                            name: created_name(recorded),
                        },
                    ],
                ),
            },
        },
    }
}

/// The outcome of planning agrees with its model.
pub open spec fn plans(
    planned: Result<Vec<JournalActionKind>, ActionError>,
    model: Result<Seq<KindModel>, ActionError>,
) -> bool {
    match (planned, model) {
        (Ok(list), Ok(expected)) => kinds_of(list@) == expected,
        (Err(a), Err(b)) => a == b,
        _ => false,
    }
}

fn plan_placed(
    verdict: Destination,
    place: &str,
    from: Option<&str>,
    recorded: u64,
) -> (planned: Result<Vec<JournalActionKind>, ActionError>)
    requires
        recorded < u64::MAX,
    ensures
        match from {
            Some(source) => plans(
                planned,
                placed(
                    verdict,
                    place@,
                    recorded as nat,
                    |n: nat| KindModel::Relocate { from: source@, to: place@ },
                ),
            ),
            None => plans(
                planned,
                placed(
                    verdict,
                    place@,
                    recorded as nat,
                    |n: nat| KindModel::Created { path: place@, name: created_name(n) },
                ),
            ),
        },
{
    let mut list: Vec<JournalActionKind> = Vec::new();
    match verdict {
        Destination::Undecided => {
            return Err(ActionError::DestinationExists);
        },
        Destination::Keep => {
            assert(kinds_of(list@) =~= Seq::<KindModel>::empty());
            return Ok(list);
        },
        Destination::Replace => {
            list.push(quarantine_action(place, recorded));
        },
        Destination::Free => {},
    }
    let index: u64 = if list.len() == 1 {
        recorded + 1
    } else {
        recorded
    };
    match from {
        Some(source) => {
            list.push(relocate_action(source, place));
            let ghost put = |n: nat| KindModel::Relocate { from: source@, to: place@ };
            assert(kinds_of(list@) =~= placed(verdict, place@, recorded as nat, put)->Ok_0);
        },
        None => {
            list.push(created_action(place, index));
            let ghost put = |n: nat|
                KindModel::Created { path: place@, name: created_name(n) };
            assert(kinds_of(list@) =~= placed(verdict, place@, recorded as nat, put)->Ok_0);
        },
    }
    Ok(list)
}

/// The actions for the item at `index` of an operation that changes names only.
/// `recorded` actions are in its journal already; `occupied` says whether
/// something stands at the item's place.
pub fn apply_action_operation(
    operation: &FileManagerOperation,
    targets: &Vec<CopyTarget>,
    decisions: &Vec<FileManagerConflictDecision>,
    index: usize,
    recorded: u64,
    occupied: bool,
) -> (planned: Result<Vec<JournalActionKind>, ActionError>)
    requires
        index < items_of(*operation, targets@),
        recorded < u64::MAX,
    ensures
        plans(
            planned,
            item_kinds(
                *operation,
                targets@,
                decisions@,
                index as int,
                recorded as nat,
                occupied,
            ),
        ),
{
    match item_place(operation, index) {
        Err(error) => Err(error),
        Ok(Some(place)) => {
            let verdict = conflict::judge_destination(occupied, place.as_str(), decisions);
            match operation {
                FileManagerOperation::Rename { path, .. } => plan_placed(
                    verdict,
                    place.as_str(),
                    Some(path.as_str()),
                    recorded,
                ),
                FileManagerOperation::Move { paths, .. } => plan_placed(
                    verdict,
                    place.as_str(),
                    Some(paths[index].as_str()),
                    recorded,
                ),
                _ => plan_placed(verdict, place.as_str(), None, recorded),
            }
        },
        Ok(None) => {
            let mut list: Vec<JournalActionKind> = Vec::new();
            match operation {
                FileManagerOperation::Delete { paths } => {
                    list.push(quarantine_action(paths[index].as_str(), recorded));
                    assert(kinds_of(list@) =~= seq![
                        KindModel::Quarantine {
                            path: paths@[index as int]@,
                            name: quarantine_name(recorded as nat),
                        },
                    ]);
                },
                _ => {
                    match refuse_copy(&targets[index]) {
                        Some(error) => {
                            return Err(ActionError::Operation(OperationError::Path(error)));
                        },
                        None => {},
                    }
                    list.push(created_action(targets[index].destination.as_str(), recorded));
                    assert(kinds_of(list@) =~= seq![
                        KindModel::Created {
                            path: targets@[index as int].destination@,
                            name: created_name(recorded as nat),
                        },
                    ]);
                },
            }
            Ok(list)
        },
    }
}

/// The name under which the copy of the item at `index` is prepared.
pub fn staging_name(index: u64) -> (name: String)
    ensures
        name@ == "copy-"@ + text::decimal_digits(index as nat),
{
    let digits = text::decimal(index);
    text::concat2("copy-", digits.as_str())
}

/// The work of an operation that changes names only: one entry for each
/// selected path.
pub fn action_operation_work(operation: &FileManagerOperation) -> (work: WorkTotal)
    ensures
        work.bytes == 0,
        work.entries == match *operation {
            FileManagerOperation::Delete { paths } => paths@.len(),
            FileManagerOperation::Move { paths, .. } => paths@.len(),
            FileManagerOperation::Copy { paths, .. } => paths@.len(),
            _ => 1,
        },
{
    let entries: u64 = match operation {
        FileManagerOperation::Delete { paths } => paths.len() as u64,
        FileManagerOperation::Move { paths, .. } => paths.len() as u64,
        FileManagerOperation::Copy { paths, .. } => paths.len() as u64,
        _ => 1,
    };
    WorkTotal { entries, bytes: 0 }
}

// ---------------------------------------------------------------------------
// The journal of the actions
// ---------------------------------------------------------------------------

/// Writes an action into the journal before it is carried out, and tells its
/// position.
pub fn append_action(record: &mut JournalRecord, kind: JournalActionKind) -> (index: usize)
    ensures
        index == old(record).actions@.len(),
        final(record).actions@ == old(record).actions@.push(
            (JournalAction { state: JournalActionState::Prepared, kind }),
        ),
        *final(record) == (JournalRecord { actions: final(record).actions, ..*old(record) }),
{
    let index: usize = record.actions.len();
    record.actions.push(JournalAction { state: JournalActionState::Prepared, kind });
    index
}

/// Notes in the journal that an action has been carried out.
pub fn mark_action_applied(record: &mut JournalRecord, index: usize)
    requires
        index < old(record).actions@.len(),
    ensures
        final(record).actions@ == old(record).actions@.update(
            index as int,
            (JournalAction {
                state: JournalActionState::Applied,
                kind: old(record).actions@[index as int].kind,
            }),
        ),
        *final(record) == (JournalRecord { actions: final(record).actions, ..*old(record) }),
{
    let ghost before = record.actions@;
    let kind = record.actions.remove(index).kind;
    record.actions.insert(index, JournalAction { state: JournalActionState::Applied, kind });
    assert(record.actions@ =~= before.update(
        index as int,
        JournalAction { state: JournalActionState::Applied, kind: before[index as int].kind },
    ));
}

/// The action names the path.
pub open spec fn names_path(kind: KindModel, path: Seq<char>) -> bool {
    match kind {
        KindModel::Quarantine { path: named, .. } => named == path,
        KindModel::Relocate { from, to } => from == path || to == path,
        KindModel::Created { path: named, .. } => named == path,
    }
}

/// The paths that the journal's actions name, in ascending order and each once.
pub fn action_paths(record: &JournalRecord) -> (paths: Vec<String>)
    ensures
        text::strictly_sorted(texts(paths@)),
        forall|path: Seq<char>|
            texts(paths@).contains(path) <==> exists|i: int|
                0 <= i < record.actions@.len() && names_path(
                    kind_of((#[trigger] record.actions@[i]).kind),
                    path,
                ),
{
    let mut paths: Vec<String> = Vec::new();
    for i in 0..record.actions.len()
        invariant
            text::strictly_sorted(texts(paths@)),
            forall|path: Seq<char>|
                texts(paths@).contains(path) <==> exists|k: int|
                    0 <= k < i && names_path(kind_of((#[trigger] record.actions@[k]).kind), path),
    {
        let ghost before = texts(paths@);
        match &record.actions[i].kind {
            JournalActionKind::Quarantine { path, .. } => {
                text::insert_sorted(&mut paths, path.clone());
            },
            JournalActionKind::Relocate { from, to } => {
                text::insert_sorted(&mut paths, from.clone());
                text::insert_sorted(&mut paths, to.clone());
            },
            JournalActionKind::Created { path, .. } => {
                text::insert_sorted(&mut paths, path.clone());
            },
        }
        proof {
            let kind = kind_of(record.actions@[i as int].kind);
            assert forall|path: Seq<char>| texts(paths@).contains(path) <==> exists|k: int|
                0 <= k < i + 1 && names_path(
                    kind_of((#[trigger] record.actions@[k]).kind),
                    path,
                ) by {
                assert(texts(paths@).contains(path) <==> before.contains(path) || names_path(
                    kind,
                    path,
                ));
                if before.contains(path) {
                    let k = choose|k: int|
                        0 <= k < i && names_path(
                            kind_of((#[trigger] record.actions@[k]).kind),
                            path,
                        );
                    assert(0 <= k < i + 1);
                }
            }
        }
    }
    paths
}

// ---------------------------------------------------------------------------
// Undo, redo and rollback
// ---------------------------------------------------------------------------

/// A change of names.
#[derive(Clone, Debug, PartialEq, Eq)]
pub enum NameStep {
    /// Nothing is to be done.
    Nothing,
    /// The entry at the path is moved into the quarantine.
    PutAway { path: String, name: String },
    /// The entry in the quarantine is moved to the path.
    BringBack { name: String, path: String },
    /// The entry is renamed.
    Rename { from: String, to: String },
    /// The entry is deleted.
    Remove { path: String },
}

/// A change of names, over texts.
pub enum StepModel {
    Nothing,
    PutAway { path: Seq<char>, name: Seq<char> },
    BringBack { name: Seq<char>, path: Seq<char> },
    Rename { from: Seq<char>, to: Seq<char> },
    Remove { path: Seq<char> },
}

/// What the step changes.
pub open spec fn step_of(step: NameStep) -> StepModel {
    match step {
        NameStep::Nothing => StepModel::Nothing,
        NameStep::PutAway { path, name } => StepModel::PutAway { path: path@, name: name@ },
        NameStep::BringBack { name, path } => StepModel::BringBack { name: name@, path: path@ },
        NameStep::Rename { from, to } => StepModel::Rename { from: from@, to: to@ },
        NameStep::Remove { path } => StepModel::Remove { path: path@ },
    }
}

/// What undoes an action.
pub open spec fn undoing(kind: KindModel) -> StepModel {
    match kind {
        KindModel::Quarantine { path, name } => StepModel::BringBack { name, path },
        KindModel::Relocate { from, to } => StepModel::Rename { from: to, to: from },
        KindModel::Created { path, name } => StepModel::PutAway { path, name },
    }
}

/// What redoes an action.
pub open spec fn redoing(kind: KindModel) -> StepModel {
    match kind {
        KindModel::Quarantine { path, name } => StepModel::PutAway { path, name },
        KindModel::Relocate { from, to } => StepModel::Rename { from, to },
        KindModel::Created { path, name } => StepModel::BringBack { name, path },
    }
}

/// Where the step puts an entry that must not replace another.
pub open spec fn needs_free(step: StepModel) -> Option<Seq<char>> {
    match step {
        StepModel::BringBack { path, .. } => Some(path),
        StepModel::Rename { to, .. } => Some(to),
        _ => None,
    }
}

/// What undoes an action. `occupied` says whether something stands where the
/// step puts an entry.
pub fn undo_step(kind: &JournalActionKind, occupied: bool) -> (step: Result<NameStep, ActionError>)
    ensures
        match step {
            Ok(taken) => step_of(taken) == undoing(kind_of(*kind)) && (needs_free(
                undoing(kind_of(*kind)),
            ) is Some ==> !occupied),
            Err(error) => error == ActionError::Occupied && occupied && needs_free(
                undoing(kind_of(*kind)),
            ) is Some,
        },
{
    match kind {
        JournalActionKind::Quarantine { path, quarantine_name } => if occupied {
            Err(ActionError::Occupied)
        } else {
            Ok(NameStep::BringBack { name: quarantine_name.clone(), path: path.clone() })
        },
        JournalActionKind::Relocate { from, to } => if occupied {
            Err(ActionError::Occupied)
        } else {
            Ok(NameStep::Rename { from: to.clone(), to: from.clone() })
        },
        JournalActionKind::Created { path, quarantine_name } => Ok(
            NameStep::PutAway { path: path.clone(), name: quarantine_name.clone() },
        ),
    }
}

/// What redoes an action. `occupied` says whether something stands where the
/// step puts an entry.
pub fn redo_step(kind: &JournalActionKind, occupied: bool) -> (step: Result<NameStep, ActionError>)
    ensures
        match step {
            Ok(taken) => step_of(taken) == redoing(kind_of(*kind)) && (needs_free(
                redoing(kind_of(*kind)),
            ) is Some ==> !occupied),
            Err(error) => error == ActionError::Occupied && occupied && needs_free(
                redoing(kind_of(*kind)),
            ) is Some,
        },
{
    match kind {
        JournalActionKind::Quarantine { path, quarantine_name } => Ok(
            NameStep::PutAway { path: path.clone(), name: quarantine_name.clone() },
        ),
        JournalActionKind::Relocate { from, to } => if occupied {
            Err(ActionError::Occupied)
        } else {
            Ok(NameStep::Rename { from: from.clone(), to: to.clone() })
        },
        JournalActionKind::Created { path, quarantine_name } => if occupied {
            Err(ActionError::Occupied)
        } else {
            Ok(NameStep::BringBack { name: quarantine_name.clone(), path: path.clone() })
        },
    }
}

/// What is seen of an action's paths.
#[derive(Clone, Copy, Debug, PartialEq, Eq, Structural)]
pub struct ActionSeen {
    /// Something stands at the path, or at the one that an entry leaves.
    pub source: bool,
    /// Something stands at the path that an entry is renamed to.
    pub target: bool,
    /// The quarantine holds the action's entry.
    pub quarantined: bool,
}

/// The action has been carried out, as far as its state or what is seen tells.
pub open spec fn was_applied(state: JournalActionState, kind: KindModel, seen: ActionSeen) -> bool {
    state == JournalActionState::Applied || match kind {
        KindModel::Quarantine { .. } => !seen.source && seen.quarantined,
        KindModel::Relocate { .. } => !seen.source && seen.target,
        KindModel::Created { .. } => seen.source,
    }
}

/// Whether an action has been carried out. One that is only prepared is judged
/// by what stands at its paths.
pub fn action_was_applied(action: &JournalAction, seen: ActionSeen) -> (applied: bool)
    ensures
        applied == was_applied(action.state, kind_of(action.kind), seen),
{
    match action.state {
        JournalActionState::Applied => {
            return true;
        },
        JournalActionState::Prepared => {},
    }
    match &action.kind {
        JournalActionKind::Quarantine { .. } => !seen.source && seen.quarantined,
        JournalActionKind::Relocate { .. } => !seen.source && seen.target,
        JournalActionKind::Created { .. } => seen.source,
    }
}

/// What rolls an action back: nothing if it was not carried out. A created
/// entry is deleted.
pub open spec fn rolling_back(state: JournalActionState, kind: KindModel, seen: ActionSeen) -> StepModel {
    if !was_applied(state, kind, seen) {
        StepModel::Nothing
    } else {
        match kind {
            KindModel::Quarantine { path, name } => StepModel::BringBack { name, path },
            KindModel::Relocate { from, to } => StepModel::Rename { from: to, to: from },
            KindModel::Created { path, .. } => if seen.source {
                StepModel::Remove { path }
            } else {
                StepModel::Nothing
            },
        }
    }
}

/// What rolls an action back.
pub fn rollback_step(action: &JournalAction, seen: ActionSeen) -> (step: NameStep)
    ensures
        step_of(step) == rolling_back(action.state, kind_of(action.kind), seen),
{
    if !action_was_applied(action, seen) {
        return NameStep::Nothing;
    }
    match &action.kind {
        JournalActionKind::Quarantine { path, quarantine_name } => NameStep::BringBack {
            name: quarantine_name.clone(),
            path: path.clone(),
        },
        JournalActionKind::Relocate { from, to } => NameStep::Rename {
            from: to.clone(),
            to: from.clone(),
        },
        JournalActionKind::Created { path, .. } => if seen.source {
            NameStep::Remove { path: path.clone() }
        } else {
            NameStep::Nothing
        },
    }
}

// ---------------------------------------------------------------------------
// What the steps do to the names of a root
// ---------------------------------------------------------------------------

/// The entries of a root, and those in the quarantine of an operation.
#[verifier::ext_equal]
pub struct Space {
    pub visible: namespace::Tree,
    pub quarantine: Map<Seq<char>, namespace::Tree>,
}

/// The entry at the path, with what it holds.
pub open spec fn entry_at(space: Space, path: Seq<char>) -> namespace::Tree {
    namespace::part(space.visible, path::path_names(path))
}

/// Something stands at the path.
pub open spec fn stands_at(space: Space, path: Seq<char>) -> bool {
    space.visible.contains_key(path::path_names(path))
}

/// Nothing stands at the path or below it.
pub open spec fn is_free(space: Space, path: Seq<char>) -> bool {
    namespace::absent(space.visible, path::path_names(path))
}

/// The root after a step.
pub open spec fn after_step(space: Space, step: StepModel) -> Space {
    match step {
        StepModel::Nothing => space,
        StepModel::PutAway { path, name } => Space {
            visible: namespace::cut(space.visible, path::path_names(path)),
            quarantine: space.quarantine.insert(name, entry_at(space, path)),
        },
        StepModel::BringBack { name, path } => Space {
            visible: namespace::graft(
                space.visible,
                path::path_names(path),
                space.quarantine[name],
            ),
            quarantine: space.quarantine.remove(name),
        },
        StepModel::Rename { from, to } => Space {
            visible: namespace::graft(
                namespace::cut(space.visible, path::path_names(from)),
                path::path_names(to),
                entry_at(space, from),
            ),
            quarantine: space.quarantine,
        },
        StepModel::Remove { path } => Space {
            visible: namespace::cut(space.visible, path::path_names(path)),
            quarantine: space.quarantine,
        },
    }
}

/// An action together with what it creates.
pub struct Deed {
    pub kind: KindModel,
    pub creates: namespace::Tree,
}

/// The root after an action.
pub open spec fn after_deed(space: Space, deed: Deed) -> Space {
    match deed.kind {
        KindModel::Created { path, .. } => Space {
            visible: namespace::graft(space.visible, path::path_names(path), deed.creates),
            quarantine: space.quarantine,
        },
        kind => after_step(space, redoing(kind)),
    }
}

/// The action can be carried out: what it moves is there, and it replaces
/// nothing.
pub open spec fn can_be_done(space: Space, deed: Deed) -> bool {
    match deed.kind {
        KindModel::Quarantine { path, name } => stands_at(space, path)
            && !space.quarantine.contains_key(name),
        KindModel::Relocate { from, to } => stands_at(space, from) && is_free(space, to),
        KindModel::Created { path, name } => is_free(space, path)
            && !space.quarantine.contains_key(name) && deed.creates.contains_key(Seq::empty()),
    }
}

/// The root after a list of actions.
pub open spec fn after_deeds(space: Space, deeds: Seq<Deed>) -> Space
    decreases deeds.len(),
{
    if deeds.len() == 0 {
        space
    } else {
        after_deed(after_deeds(space, deeds.drop_last()), deeds.last())
    }
}

/// The actions can be carried out one after the other.
pub open spec fn can_all_be_done(space: Space, deeds: Seq<Deed>) -> bool
    decreases deeds.len(),
{
    deeds.len() > 0 ==> can_all_be_done(space, deeds.drop_last()) && can_be_done(
        after_deeds(space, deeds.drop_last()),
        deeds.last(),
    )
}

/// The root after the actions have been undone, the last one first.
pub open spec fn after_undo(space: Space, deeds: Seq<Deed>) -> Space
    decreases deeds.len(),
{
    if deeds.len() == 0 {
        space
    } else {
        after_undo(after_step(space, undoing(deeds.last().kind)), deeds.drop_last())
    }
}

/// No step of the undo finds its place occupied.
pub open spec fn undo_goes_through(space: Space, deeds: Seq<Deed>) -> bool
    decreases deeds.len(),
{
    deeds.len() > 0 ==> (needs_free(undoing(deeds.last().kind)) matches Some(path) ==> !stands_at(
        space,
        path,
    )) && undo_goes_through(after_step(space, undoing(deeds.last().kind)), deeds.drop_last())
}

/// The root after the actions have been redone, the first one first.
pub open spec fn after_redo(space: Space, deeds: Seq<Deed>) -> Space
    decreases deeds.len(),
{
    if deeds.len() == 0 {
        space
    } else {
        after_step(after_redo(space, deeds.drop_last()), redoing(deeds.last().kind))
    }
}

/// No step of the redo finds its place occupied.
pub open spec fn redo_goes_through(space: Space, deeds: Seq<Deed>) -> bool
    decreases deeds.len(),
{
    deeds.len() > 0 ==> redo_goes_through(space, deeds.drop_last()) && (needs_free(
        redoing(deeds.last().kind),
    ) matches Some(path) ==> !stands_at(after_redo(space, deeds.drop_last()), path))
}

/// What is seen of an action's paths in a root.
pub open spec fn seen_in(space: Space, kind: KindModel) -> ActionSeen {
    match kind {
        KindModel::Quarantine { path, name } => ActionSeen {
            source: stands_at(space, path),
            target: false,
            quarantined: space.quarantine.contains_key(name),
        },
        KindModel::Relocate { from, to } => ActionSeen {
            source: stands_at(space, from),
            target: stands_at(space, to),
            quarantined: false,
        },
        KindModel::Created { path, name } => ActionSeen {
            source: stands_at(space, path),
            target: false,
            quarantined: space.quarantine.contains_key(name),
        },
    }
}

/// The root after the actions have been rolled back, the last one first. The
/// last action has the given state, all others have been carried out.
pub open spec fn after_rollback(space: Space, deeds: Seq<Deed>, last: JournalActionState) -> Space
    decreases deeds.len(),
{
    if deeds.len() == 0 {
        space
    } else {
        let kind = deeds.last().kind;
        after_rollback(
            after_step(space, rolling_back(last, kind, seen_in(space, kind))),
            deeds.drop_last(),
            JournalActionState::Applied,
        )
    }
}

/// The quarantine name of an action.
pub open spec fn held_name(kind: KindModel) -> Option<Seq<char>> {
    match kind {
        KindModel::Quarantine { name, .. } => Some(name),
        KindModel::Relocate { .. } => None,
        KindModel::Created { name, .. } => Some(name),
    }
}

/// No two actions use the same quarantine name.
pub open spec fn names_differ(deeds: Seq<Deed>) -> bool {
    forall|i: int, j: int|
        0 <= i < j < deeds.len() && held_name((#[trigger] deeds[i]).kind) is Some ==> held_name(
            deeds[i].kind,
        ) != held_name((#[trigger] deeds[j]).kind)
}

/// The quarantine holds everything that the other one holds.
spec fn holds_all(more: Map<Seq<char>, namespace::Tree>, less: Map<Seq<char>, namespace::Tree>) -> bool {
    forall|name: Seq<char>| #[trigger]
        less.contains_key(name) ==> more.contains_key(name) && more[name] == less[name]
}

/// The quarantine holds what the actions from `from` on created.
spec fn holds_created(quarantine: Map<Seq<char>, namespace::Tree>, deeds: Seq<Deed>, from: int) -> bool {
    forall|i: int|
        from <= i < deeds.len() ==> ((#[trigger] deeds[i]).kind matches KindModel::Created {
            name,
            ..
        } ==> quarantine.contains_key(name) && quarantine[name] == deeds[i].creates)
}

proof fn lemma_undo_one(before: Space, now: Space, deed: Deed)
    requires
        can_be_done(before, deed),
        now.visible == after_deed(before, deed).visible,
        holds_all(now.quarantine, after_deed(before, deed).quarantine),
    ensures
        after_step(now, undoing(deed.kind)).visible == before.visible,
        holds_all(after_step(now, undoing(deed.kind)).quarantine, before.quarantine),
        needs_free(undoing(deed.kind)) matches Some(path) ==> !stands_at(now, path),
        deed.kind matches KindModel::Created { name, .. } ==> after_step(
            now,
            undoing(deed.kind),
        ).quarantine == now.quarantine.insert(name, deed.creates),
        deed.kind matches KindModel::Relocate { .. } ==> after_step(
            now,
            undoing(deed.kind),
        ).quarantine == now.quarantine,
        deed.kind matches KindModel::Quarantine { name, .. } ==> after_step(
            now,
            undoing(deed.kind),
        ).quarantine == now.quarantine.remove(name),
{
    let done = after_deed(before, deed);
    match deed.kind {
        KindModel::Quarantine { path, name } => {
            let place = path::path_names(path);
            namespace::lemma_graft_back(before.visible, place);
            assert(done.quarantine.contains_key(name));
            assert forall|other: Seq<char>| #[trigger]
                before.quarantine.contains_key(other) implies now.quarantine.contains_key(other)
                && now.quarantine[other] == before.quarantine[other] && other != name by {
                assert(done.quarantine.contains_key(other));
            }
            if stands_at(now, path) {
                lemma_self_below(place);
            }
        },
        KindModel::Relocate { from, to } => {
            let source = path::path_names(from);
            let target = path::path_names(to);
            let rest = namespace::cut(before.visible, source);
            let moved = namespace::part(before.visible, source);
            namespace::lemma_graft_back(before.visible, source);
            namespace::lemma_cut_graft(rest, target, moved);
            assert(done.visible == namespace::graft(rest, target, moved));
            if stands_at(now, from) {
                lemma_self_below(source);
                assert(rest.contains_key(source) || namespace::at_or_below(source, target));
            }
        },
        KindModel::Created { path, name } => {
            let place = path::path_names(path);
            namespace::lemma_cut_graft(before.visible, place, deed.creates);
        },
    }
}

proof fn lemma_self_below(place: namespace::Place)
    ensures
        namespace::at_or_below(place, place),
{
    assert(place.take(place.len() as int) =~= place);
}

proof fn lemma_undo(start: Space, now: Space, deeds: Seq<Deed>, all: Seq<Deed>)
    requires
        deeds.len() <= all.len(),
        deeds == all.take(deeds.len() as int),
        names_differ(all),
        can_all_be_done(start, deeds),
        now.visible == after_deeds(start, deeds).visible,
        holds_all(now.quarantine, after_deeds(start, deeds).quarantine),
        holds_created(now.quarantine, all, deeds.len() as int),
    ensures
        after_undo(now, deeds).visible == start.visible,
        holds_all(after_undo(now, deeds).quarantine, start.quarantine),
        holds_created(after_undo(now, deeds).quarantine, all, 0),
        undo_goes_through(now, deeds),
    decreases deeds.len(),
{
    if deeds.len() > 0 {
        let last = deeds.len() - 1;
        let deed = deeds.last();
        let before = after_deeds(start, deeds.drop_last());
        let undone = after_step(now, undoing(deed.kind));
        lemma_undo_one(before, now, deed);
        assert(deed == all[last]);
        assert(holds_created(undone.quarantine, all, last)) by {
            assert forall|i: int| last <= i < all.len() implies ((
            #[trigger] all[i]).kind matches KindModel::Created { name, .. } ==> undone.quarantine.contains_key(
                name,
            ) && undone.quarantine[name] == all[i].creates) by {
                if i > last {
                    assert(held_name(all[last].kind) is Some ==> held_name(all[last].kind)
                        != held_name(all[i].kind));
                }
            }
        }
        assert(deeds.drop_last() =~= all.take(last));
        lemma_undo(start, undone, deeds.drop_last(), all);
    }
}

proof fn lemma_redo_one(before: Space, now: Space, deed: Deed)
    requires
        can_be_done(before, deed),
        now.visible == before.visible,
        holds_all(now.quarantine, before.quarantine),
        deed.kind matches KindModel::Created { name, .. } ==> now.quarantine.contains_key(name)
            && now.quarantine[name] == deed.creates,
    ensures
        after_step(now, redoing(deed.kind)).visible == after_deed(before, deed).visible,
        holds_all(
            after_step(now, redoing(deed.kind)).quarantine,
            after_deed(before, deed).quarantine,
        ),
        needs_free(redoing(deed.kind)) matches Some(path) ==> !stands_at(now, path),
{
    match deed.kind {
        KindModel::Quarantine { path, name } => {},
        KindModel::Relocate { from, to } => {
            let target = path::path_names(to);
            if stands_at(now, to) {
                lemma_self_below(target);
            }
        },
        KindModel::Created { path, name } => {
            if stands_at(now, path) {
                lemma_self_below(path::path_names(path));
            }
        },
    }
}

proof fn lemma_redo(start: Space, now: Space, deeds: Seq<Deed>, all: Seq<Deed>)
    requires
        deeds.len() <= all.len(),
        deeds == all.take(deeds.len() as int),
        names_differ(all),
        can_all_be_done(start, deeds),
        now.visible == start.visible,
        holds_all(now.quarantine, start.quarantine),
        holds_created(now.quarantine, all, 0),
    ensures
        after_redo(now, deeds).visible == after_deeds(start, deeds).visible,
        holds_all(after_redo(now, deeds).quarantine, after_deeds(start, deeds).quarantine),
        holds_created(after_redo(now, deeds).quarantine, all, deeds.len() as int),
        redo_goes_through(now, deeds),
    decreases deeds.len(),
{
    if deeds.len() > 0 {
        let last = deeds.len() - 1;
        let deed = deeds.last();
        assert(deeds.drop_last() =~= all.take(last));
        lemma_redo(start, now, deeds.drop_last(), all);
        let before = after_deeds(start, deeds.drop_last());
        let reached = after_redo(now, deeds.drop_last());
        assert(deed == all[last]);
        lemma_redo_one(before, reached, deed);
        let redone = after_step(reached, redoing(deed.kind));
        assert(holds_created(redone.quarantine, all, last + 1)) by {
            assert forall|i: int| last + 1 <= i < all.len() implies ((
            #[trigger] all[i]).kind matches KindModel::Created { name, .. } ==> redone.quarantine.contains_key(
                name,
            ) && redone.quarantine[name] == all[i].creates) by {
                assert(held_name(all[last].kind) is Some ==> held_name(all[last].kind)
                    != held_name(all[i].kind));
            }
        }
    }
}

proof fn lemma_rollback_one(before: Space, now: Space, deed: Deed, state: JournalActionState)
    requires
        can_be_done(before, deed),
        now.visible == after_deed(before, deed).visible,
        holds_all(now.quarantine, after_deed(before, deed).quarantine),
    ensures
        ({
            let back = after_step(now, rolling_back(state, deed.kind, seen_in(now, deed.kind)));
            back.visible == before.visible && holds_all(back.quarantine, before.quarantine)
        }),
{
    lemma_undo_one(before, now, deed);
    let done = after_deed(before, deed);
    match deed.kind {
        KindModel::Quarantine { path, name } => {
            assert(done.quarantine.contains_key(name));
        },
        KindModel::Relocate { from, to } => {
            let source = path::path_names(from);
            let target = path::path_names(to);
            namespace::lemma_graft_top(before.visible, source, before.visible);
            namespace::lemma_graft_top(
                namespace::cut(before.visible, source),
                target,
                namespace::part(before.visible, source),
            );
            assert(stands_at(now, to));
        },
        KindModel::Created { path, name } => {
            namespace::lemma_graft_top(before.visible, path::path_names(path), deed.creates);
            assert(stands_at(now, path));
        },
    }
}

proof fn lemma_rollback(start: Space, now: Space, deeds: Seq<Deed>, last: JournalActionState)
    requires
        can_all_be_done(start, deeds),
        now.visible == after_deeds(start, deeds).visible,
        holds_all(now.quarantine, after_deeds(start, deeds).quarantine),
    ensures
        after_rollback(now, deeds, last).visible == start.visible,
    decreases deeds.len(),
{
    if deeds.len() > 0 {
        let deed = deeds.last();
        let before = after_deeds(start, deeds.drop_last());
        lemma_rollback_one(before, now, deed, last);
        lemma_rollback(
            start,
            after_step(now, rolling_back(last, deed.kind, seen_in(now, deed.kind))),
            deeds.drop_last(),
            JournalActionState::Applied,
        );
    }
}

proof fn lemma_first_digit(n: nat)
    ensures
        text::decimal_digits(n).len() > 0,
        '0' <= text::decimal_digits(n)[0] <= '9',
    decreases n,
{
    if n >= 10 {
        lemma_first_digit(n / 10);
    }
}

proof fn lemma_quarantine_names(i: nat, j: nat)
    ensures
        quarantine_name(i) != created_name(j),
        created_name(i) != quarantine_name(j),
        i != j ==> quarantine_name(i) != quarantine_name(j),
        i != j ==> created_name(i) != created_name(j),
{
    reveal_strlit("created-");
    lemma_first_digit(i);
    lemma_first_digit(j);
    assert(created_name(i)[0] == 'c' && created_name(j)[0] == 'c');
    text::lemma_decimal_value(i);
    text::lemma_decimal_value(j);
    let prefix = "created-"@;
    assert(created_name(i).skip(prefix.len() as int) =~= text::decimal_digits(i));
    assert(created_name(j).skip(prefix.len() as int) =~= text::decimal_digits(j));
}

/// The action uses the quarantine name of its position in the journal.
pub open spec fn named_by_position(kind: KindModel, position: nat) -> bool {
    match kind {
        KindModel::Quarantine { name, .. } => name == quarantine_name(position),
        KindModel::Relocate { .. } => true,
        KindModel::Created { name, .. } => name == created_name(position),
    }
}

/// Actions that are named by their position in the journal never share a
/// quarantine name.
pub proof fn positions_give_different_names(deeds: Seq<Deed>)
    requires
        forall|i: int|
            0 <= i < deeds.len() ==> named_by_position((#[trigger] deeds[i]).kind, i as nat),
    ensures
        names_differ(deeds),
{
    assert forall|i: int, j: int|
        0 <= i < j < deeds.len() && held_name((#[trigger] deeds[i]).kind) is Some implies held_name(
        deeds[i].kind,
    ) != held_name((#[trigger] deeds[j]).kind) by {
        lemma_quarantine_names(i as nat, j as nat);
    }
}

/// The actions that are planned for an item are named by their position behind
/// those that the journal holds already.
pub proof fn planned_actions_are_named_by_position(
    operation: FileManagerOperation,
    targets: Seq<CopyTarget>,
    decisions: Seq<FileManagerConflictDecision>,
    index: int,
    recorded: nat,
    occupied: bool,
)
    ensures
        item_kinds(operation, targets, decisions, index, recorded, occupied) matches Ok(kinds)
            ==> forall|i: int|
            0 <= i < kinds.len() ==> named_by_position(#[trigger] kinds[i], recorded + i as nat),
{
}

/// Undoing the actions of an operation gives the root back as it was, and finds
/// no place occupied.
pub proof fn undo_restores_the_root(start: Space, deeds: Seq<Deed>)
    requires
        names_differ(deeds),
        can_all_be_done(start, deeds),
    ensures
        after_undo(after_deeds(start, deeds), deeds).visible == start.visible,
        undo_goes_through(after_deeds(start, deeds), deeds),
{
    assert(deeds.take(deeds.len() as int) =~= deeds);
    lemma_undo(start, after_deeds(start, deeds), deeds, deeds);
}

/// Redoing an undone operation gives what the operation gave, and finds no place
/// occupied.
pub proof fn redo_repeats_the_operation(start: Space, deeds: Seq<Deed>)
    requires
        names_differ(deeds),
        can_all_be_done(start, deeds),
    ensures
        ({
            let done = after_deeds(start, deeds);
            let undone = after_undo(done, deeds);
            after_redo(undone, deeds).visible == done.visible && redo_goes_through(undone, deeds)
        }),
{
    assert(deeds.take(deeds.len() as int) =~= deeds);
    let done = after_deeds(start, deeds);
    lemma_undo(start, done, deeds, deeds);
    lemma_redo(start, after_undo(done, deeds), deeds, deeds);
}

/// Rolling back an operation that was interrupted gives the root back as it
/// was, wherever the interruption came: before an action was noted, after it was
/// noted as prepared and not yet carried out, after it was carried out and not
/// yet noted as applied, or after that.
pub proof fn rollback_restores_the_root(start: Space, deeds: Seq<Deed>, next: Deed)
    requires
        can_all_be_done(start, deeds),
        can_be_done(after_deeds(start, deeds), next),
    ensures
        after_rollback(
            after_deeds(start, deeds),
            deeds,
            JournalActionState::Applied,
        ).visible == start.visible,
        after_rollback(
            after_deeds(start, deeds),
            deeds.push(next),
            JournalActionState::Prepared,
        ).visible == start.visible,
        after_rollback(
            after_deeds(start, deeds.push(next)),
            deeds.push(next),
            JournalActionState::Prepared,
        ).visible == start.visible,
        after_rollback(
            after_deeds(start, deeds.push(next)),
            deeds.push(next),
            JournalActionState::Applied,
        ).visible == start.visible,
{
    let done = after_deeds(start, deeds);
    let more = deeds.push(next);
    assert(more.drop_last() =~= deeds);
    lemma_rollback(start, done, deeds, JournalActionState::Applied);
    lemma_rollback(start, after_deeds(start, more), more, JournalActionState::Prepared);
    lemma_rollback(start, after_deeds(start, more), more, JournalActionState::Applied);
    assert(rolling_back(JournalActionState::Prepared, next.kind, seen_in(done, next.kind))
        is Nothing) by {
        match next.kind {
            KindModel::Created { path, .. } => {
                if stands_at(done, path) {
                    lemma_self_below(path::path_names(path));
                }
            },
            _ => {},
        }
    }
}

/// The actions that are planned for an item can be carried out: the item's
/// place is free or cleared first.
pub proof fn planned_actions_can_be_done(
    operation: FileManagerOperation,
    targets: Seq<CopyTarget>,
    decisions: Seq<FileManagerConflictDecision>,
    index: int,
    recorded: nat,
    space: Space,
    creates: namespace::Tree,
)
    requires
        0 <= index < items_of(operation, targets),
        creates.contains_key(Seq::empty()),
        forall|i: nat| i >= recorded ==> !space.quarantine.contains_key(#[trigger] quarantine_name(i)),
        forall|i: nat| i >= recorded ==> !space.quarantine.contains_key(#[trigger] created_name(i)),
        operation matches FileManagerOperation::Delete { paths } ==> stands_at(
            space,
            paths[index]@,
        ),
        operation matches FileManagerOperation::Copy { .. } ==> is_free(
            space,
            targets[index].destination@,
        ),
        place_of(operation, index) matches Ok(Some(place)) ==> {
            &&& stands_at(space, place) || is_free(space, place)
            &&& operation matches FileManagerOperation::Rename { path, .. } ==> stands_at(
                space,
                path@,
            ) && !namespace::at_or_below(path::path_names(path@), path::path_names(place))
            &&& operation matches FileManagerOperation::Move { paths, .. } ==> stands_at(
                space,
                paths[index]@,
            ) && !namespace::at_or_below(
                path::path_names(paths[index]@),
                path::path_names(place),
            )
        },
    ensures
        ({
            let occupied = place_of(operation, index) matches Ok(Some(place)) && stands_at(
                space,
                place,
            );
            match item_kinds(operation, targets, decisions, index, recorded, occupied) {
                Ok(kinds) => can_all_be_done(
                    space,
                    kinds.map_values(|kind: KindModel| Deed { kind, creates }),
                ),
                Err(_) => true,
            }
        }),
{
    lemma_quarantine_names(recorded, recorded + 1);
    reveal_with_fuel(can_all_be_done, 3);
    reveal_with_fuel(after_deeds, 3);
    let occupied = place_of(operation, index) matches Ok(Some(place)) && stands_at(space, place);
    match item_kinds(operation, targets, decisions, index, recorded, occupied) {
        Ok(kinds) => {
            let deeds = kinds.map_values(|kind: KindModel| Deed { kind, creates });
            match place_of(operation, index) {
                Ok(Some(place)) => {
                    let names = path::path_names(place);
                    if deeds.len() == 2 {
                        let first = deeds[0];
                        let cleared = after_deed(space, first);
                        namespace::lemma_graft_back(space.visible, names);
                        assert(deeds.drop_last() =~= seq![first]);
                        assert(deeds.drop_last().drop_last() =~= Seq::<Deed>::empty());
                        assert(is_free(cleared, place));
                    } else if deeds.len() == 1 {
                        if stands_at(space, place) {
                            lemma_self_below(names);
                        }
                        assert(deeds.drop_last() =~= Seq::<Deed>::empty());
                    }
                },
                _ => {
                    assert(deeds.drop_last() =~= Seq::<Deed>::empty());
                },
            }
        },
        Err(_) => {},
    }
}

/// The actions of an item do what was asked for, and touch what stands at its place
/// only if so decided. A deletion puts the path away. A copy creates its target. A
/// move or renaming brings the entry from its path to its place, and a creation
/// creates there; what stands there is put away just before if it was decided to go,
/// and the item is left out if it was decided to stay.
pub proof fn planned_actions_do_what_was_asked(
    operation: FileManagerOperation,
    targets: Seq<CopyTarget>,
    decisions: Seq<FileManagerConflictDecision>,
    index: int,
    recorded: nat,
    occupied: bool,
)
    requires
        item_kinds(operation, targets, decisions, index, recorded, occupied) is Ok,
    ensures
        ({
            let kinds = item_kinds(
                operation,
                targets,
                decisions,
                index,
                recorded,
                occupied,
            )->Ok_0;
            match operation {
                FileManagerOperation::Delete { paths } => kinds.len() == 1 && (
                kinds[0] matches KindModel::Quarantine { path, .. } && path == paths@[index]@),
                FileManagerOperation::Copy { .. } => kinds.len() == 1 && (
                kinds[0] matches KindModel::Created { path, .. } && path
                    == targets[index].destination@),
                _ => {
                    let place = match operation {
                        FileManagerOperation::CreateFile { path } => path@,
                        FileManagerOperation::CreateDirectory { path } => path@,
                        FileManagerOperation::Rename { path, new_name } => path::joined(
                            operation::directory_of(path@),
                            path::path_names(new_name@)[0],
                        ),
                        FileManagerOperation::Move { paths, destination } => path::joined(
                            destination@,
                            path::last_name(paths@[index]@)->Some_0,
                        ),
                        _ => Seq::empty(),
                    };
                    let decision = conflict::decision_at(place, decisions);
                    let skipped = occupied && decision == Some(
                        conflict::FileManagerConflictAction::Skip,
                    );
                    &&& occupied ==> decision is Some
                    &&& kinds.len() == if skipped {
                        0int
                    } else if occupied {
                        2
                    } else {
                        1
                    }
                    &&& occupied && !skipped ==> (kinds[0] matches KindModel::Quarantine {
                        path,
                        ..
                    } && path == place)
                    &&& !skipped ==> match kinds[kinds.len() - 1] {
                        KindModel::Relocate { from, to } => {
                            &&& to == place
                            &&& operation matches FileManagerOperation::Rename { path, .. } ==> from
                                == path@
                            &&& operation matches FileManagerOperation::Move { paths, .. } ==> from
                                == paths@[index]@
                            &&& operation is Rename || operation is Move
                        },
                        KindModel::Created { path, .. } => path == place && (operation
                            is CreateFile || operation is CreateDirectory),
                        KindModel::Quarantine { .. } => false,
                    }
                },
            }
        }),
{
}

/// Undoing an action and redoing it are each other's opposites: what one puts away
/// the other brings back from the same name, and a renaming goes back and forth.
pub proof fn undoing_and_redoing_are_opposites(kind: KindModel)
    ensures
        match kind {
            KindModel::Relocate { from, to } => undoing(kind) == (StepModel::Rename {
                from: to,
                to: from,
            }) && redoing(kind) == (StepModel::Rename { from, to }),
            KindModel::Quarantine { path, name } => redoing(kind) == (StepModel::PutAway {
                path,
                name,
            }) && undoing(kind) == (StepModel::BringBack { name, path }),
            KindModel::Created { path, name } => undoing(kind) == (StepModel::PutAway {
                path,
                name,
            }) && redoing(kind) == (StepModel::BringBack { name, path }),
        },
{
}

} // verus!
