//! Comparing a restored tree with its copy.

use vstd::prelude::*;
use vstd::utf8::encode_utf8;

use crate::backup::restore_run::restore_verification_len;
use crate::file_manager::revision;
use crate::file_manager::revision::le_bytes;
use crate::order;
use crate::outside;
use crate::outside::StreamDigest;

verus! {

/// An extended attribute.
#[derive(Clone, Debug, PartialEq, Eq)]
pub struct Attribute {
    pub name: Vec<u8>,
    pub value: Option<Vec<u8>>,
}

/// What is compared of an entry besides its name and contents.
#[derive(Clone, Debug, PartialEq, Eq)]
pub struct EntryFacts {
    pub mode: u32,
    pub len: u64,
    pub uid: u32,
    pub gid: u32,
    pub modified_seconds: i64,
    pub modified_nanoseconds: i64,
    /// The extended attributes, in the order in which they were read.
    pub attributes: Vec<Attribute>,
}

/// An entry of a tree that is compared. Names and targets are bytes, as the
/// filesystem holds them.
#[derive(Debug)]
pub enum ComparedEntry {
    /// A link and where it leads.
    Symlink { name: Vec<u8>, facts: EntryFacts, target: Vec<u8> },
    /// A directory and its entries, in the order in which they were read.
    Directory { name: Vec<u8>, facts: EntryFacts, children: Vec<ComparedEntry> },
    File { name: Vec<u8>, facts: EntryFacts },
    /// Something else.
    Special { name: Vec<u8>, facts: EntryFacts },
}

impl ComparedEntry {
    /// The name of the entry.
    pub open spec fn entry_name(self) -> Seq<u8> {
        match self {
            ComparedEntry::Symlink { name, facts, target } => name@,
            ComparedEntry::Directory { name, facts, children } => name@,
            ComparedEntry::File { name, facts } => name@,
            ComparedEntry::Special { name, facts } => name@,
        }
    }
}

/// A part of what the digest of a tree is made from.
#[derive(Clone, Debug, PartialEq, Eq)]
pub enum DigestPart {
    Bytes(Vec<u8>),
    /// The contents of the file at the path inside the tree.
    Contents { path: Vec<u8> },
}

/// A part over sequences.
pub enum PartModel {
    Bytes(Seq<u8>),
    Contents { path: Seq<u8> },
}

/// The parts over sequences.
pub open spec fn part_models(parts: Seq<DigestPart>) -> Seq<PartModel> {
    parts.map_values(
        |part: DigestPart|
            match part {
                DigestPart::Bytes(bytes) => PartModel::Bytes(bytes@),
                DigestPart::Contents { path } => PartModel::Contents { path: path@ },
            },
    )
}

/// The bytes of an attribute: its name, and its value if it has one.
pub open spec fn bytes_of_attribute(attribute: Attribute) -> Seq<u8> {
    attribute.name@ + (match attribute.value {
        Some(value) => value@,
        None => Seq::empty(),
    })
}

/// The attributes by their names.
pub open spec fn attribute_blocks(attributes: Seq<Attribute>) -> Seq<(Seq<u8>, Seq<u8>)> {
    attributes.map_values(
        |attribute: Attribute| (attribute.name@, bytes_of_attribute(attribute)),
    )
}

/// The bytes of the attributes, in ascending order of their names.
pub open spec fn attribute_bytes(attributes: Seq<Attribute>) -> Seq<u8> {
    order::run_together(order::arranged(attribute_blocks(attributes)))
}

/// The bytes that stand for an entry, besides its contents.
pub open spec fn fact_bytes(relative: Seq<u8>, facts: EntryFacts, is_directory: bool) -> Seq<u8> {
    encode_utf8(outside::lossy_text_of(relative)) + le_bytes(facts.mode as nat, 4) + le_bytes(
        if is_directory {
            0
        } else {
            facts.len as nat
        },
        8,
    ) + le_bytes(facts.uid as nat, 4) + le_bytes(facts.gid as nat, 4) + le_bytes(
        facts.modified_seconds as u64 as nat,
        8,
    ) + le_bytes(facts.modified_nanoseconds as u64 as nat, 8) + attribute_bytes(facts.attributes@)
}

/// The blocks over sequences.
spec fn byte_blocks(blocks: Seq<(Vec<u8>, Vec<u8>)>) -> Seq<(Seq<u8>, Seq<u8>)> {
    blocks.map_values(|block: (Vec<u8>, Vec<u8>)| (block.0@, block.1@))
}

fn push_attributes(bytes: &mut Vec<u8>, attributes: &Vec<Attribute>)
    ensures
        final(bytes)@ == old(bytes)@ + attribute_bytes(attributes@),
{
    let mut blocks: Vec<(Vec<u8>, Vec<u8>)> = Vec::new();
    let ghost wanted = attribute_blocks(attributes@);
    assert(wanted.take(0) =~= Seq::<(Seq<u8>, Seq<u8>)>::empty());
    assert(byte_blocks(blocks@) =~= Seq::<(Seq<u8>, Seq<u8>)>::empty());
    for i in 0..attributes.len()
        invariant
            wanted == attribute_blocks(attributes@),
            byte_blocks(blocks@) == order::arranged(wanted.take(i as int)),
    {
        let attribute = &attributes[i];
        let mut block = order::copy_bytes(&attribute.name);
        match &attribute.value {
            Some(value) => {
                order::push_bytes(&mut block, value);
            },
            None => {
                assert(block@ =~= attribute.name@ + Seq::<u8>::empty());
            },
        }
        let at = order::find_place(&blocks, &attribute.name);
        proof {
            let before = byte_blocks(blocks@);
            assert(order::names_of(before) =~= blocks@.map_values(
                |item: (Vec<u8>, Vec<u8>)| item.0@,
            ));
            assert(wanted.take(i + 1).drop_last() =~= wanted.take(i as int));
            assert(wanted.take(i + 1).last() == (attribute.name@, block@));
        }
        let ghost before = byte_blocks(blocks@);
        let name = order::copy_bytes(&attribute.name);
        let ghost item = (name@, block@);
        blocks.insert(at, (name, block));
        assert(byte_blocks(blocks@) =~= before.insert(at as int, item));
    }
    assert(wanted.take(attributes@.len() as int) =~= wanted);
    let ghost start = bytes@;
    let ghost all = byte_blocks(blocks@);
    assert(all.take(0) =~= Seq::<(Seq<u8>, Seq<u8>)>::empty());
    assert(start + order::run_together(all.take(0)) =~= start);
    for i in 0..blocks.len()
        invariant
            all == byte_blocks(blocks@),
            bytes@ == start + order::run_together(all.take(i as int)),
    {
        order::push_bytes(bytes, &blocks[i].1);
        proof {
            assert(all.take(i + 1).drop_last() =~= all.take(i as int));
            let before = order::run_together(all.take(i as int));
            let more = blocks@[i as int].1@;
            assert(start + before + more =~= start + (before + more));
        }
    }
    assert(all.take(blocks@.len() as int) =~= all);
}

fn describe(relative: &Vec<u8>, facts: &EntryFacts, is_directory: bool) -> (bytes: Vec<u8>)
    ensures
        bytes@ == fact_bytes(relative@, *facts, is_directory),
{
    let shown = outside::lossy_text(relative);
    let mut bytes = revision::bytes_of_text(shown.as_str());
    revision::push_le(&mut bytes, facts.mode as u64, 4);
    revision::push_le(&mut bytes, restore_verification_len(is_directory, facts.len), 8);
    revision::push_le(&mut bytes, facts.uid as u64, 4);
    revision::push_le(&mut bytes, facts.gid as u64, 4);
    revision::push_le(&mut bytes, facts.modified_seconds as u64, 8);
    revision::push_le(&mut bytes, facts.modified_nanoseconds as u64, 8);
    push_attributes(&mut bytes, &facts.attributes);
    bytes
}

/// What the digest of a tree is made from, where the tree stands at a path. The
/// entries of a directory come in ascending order of their names.
pub open spec fn tree_parts(entry: ComparedEntry, relative: Seq<u8>) -> Seq<PartModel>
    decreases entry, 0nat,
{
    match entry {
        ComparedEntry::Symlink { name, facts, target } => seq![
            PartModel::Bytes(fact_bytes(relative, facts, false)),
            PartModel::Bytes(encode_utf8("symlink"@)),
            PartModel::Bytes(encode_utf8(outside::lossy_text_of(target@))),
        ],
        ComparedEntry::Directory { name, facts, children } => seq![
            PartModel::Bytes(fact_bytes(relative, facts, true)),
            PartModel::Bytes(encode_utf8("directory"@)),
        ] + order::run_together(order::arranged(child_blocks(children@, relative))),
        ComparedEntry::File { name, facts } => seq![
            PartModel::Bytes(fact_bytes(relative, facts, false)),
            PartModel::Bytes(encode_utf8("file"@)),
            PartModel::Contents { path: relative },
        ],
        ComparedEntry::Special { name, facts } => seq![
            PartModel::Bytes(fact_bytes(relative, facts, false)),
        ],
    }
}

/// The entries of the directory at a path, each with what its digest is made
/// from.
pub open spec fn child_blocks(children: Seq<ComparedEntry>, relative: Seq<u8>) -> Seq<
    (Seq<u8>, Seq<PartModel>),
>
    decreases children, 1nat,
{
    if children.len() == 0 {
        Seq::empty()
    } else {
        child_blocks(children.drop_last(), relative).push(
            (
                children.last().entry_name(),
                tree_parts(children.last(), order::below(relative, children.last().entry_name())),
            ),
        )
    }
}

fn push_part(parts: &mut Vec<DigestPart>, bytes: Vec<u8>)
    ensures
        part_models(final(parts)@) == part_models(old(parts)@).push(PartModel::Bytes(bytes@)),
{
    let ghost start = part_models(parts@);
    parts.push(DigestPart::Bytes(bytes));
    assert(part_models(parts@) =~= start.push(PartModel::Bytes(bytes@)));
}

/// The blocks over sequences.
spec fn part_blocks(blocks: Seq<(Vec<u8>, Vec<DigestPart>)>) -> Seq<(Seq<u8>, Seq<PartModel>)> {
    blocks.map_values(|block: (Vec<u8>, Vec<DigestPart>)| (block.0@, part_models(block.1@)))
}

fn place_block(
    blocks: &mut Vec<(Vec<u8>, Vec<DigestPart>)>,
    name: &Vec<u8>,
    parts: Vec<DigestPart>,
)
    ensures
        part_blocks(final(blocks)@) == order::placed(
            part_blocks(old(blocks)@),
            (name@, part_models(parts@)),
        ),
{
    let at = order::find_place(&*blocks, name);
    let ghost before = part_blocks(blocks@);
    assert(order::names_of(before) =~= blocks@.map_values(
        |item: (Vec<u8>, Vec<DigestPart>)| item.0@,
    ));
    let ghost item = (name@, part_models(parts@));
    blocks.insert(at, (order::copy_bytes(name), parts));
    assert(part_blocks(blocks@) =~= before.insert(at as int, item));
}

fn push_blocks(parts: &mut Vec<DigestPart>, blocks: Vec<(Vec<u8>, Vec<DigestPart>)>)
    ensures
        part_models(final(parts)@) == part_models(old(parts)@) + order::run_together(
            part_blocks(blocks@),
        ),
{
    let ghost start = part_models(parts@);
    let ghost all = part_blocks(blocks@);
    let mut rest = blocks;
    let mut i: usize = 0;
    let count: usize = rest.len();
    assert(all.take(0) =~= Seq::<(Seq<u8>, Seq<PartModel>)>::empty());
    assert(start + order::run_together(all.take(0)) =~= start);
    assert(all.skip(0) =~= all);
    while i < count
        invariant
            i <= count,
            count == all.len(),
            part_blocks(rest@) == all.skip(i as int),
            part_models(parts@) == start + order::run_together(all.take(i as int)),
        decreases count - i,
    {
        let ghost left = rest@;
        assert(part_blocks(left).len() == left.len());
        assert(part_blocks(left)[0] == all[i as int]);
        let mut block = rest.remove(0);
        let ghost before = part_models(parts@);
        let ghost done = order::run_together(all.take(i as int));
        let ghost more = part_models(block.1@);
        parts.append(&mut block.1);
        assert(part_models(parts@) =~= before + more);
        assert forall|k: int| 0 <= k < rest@.len() implies #[trigger] part_blocks(rest@)[k]
            == all.skip(i + 1)[k] by {
            assert(part_blocks(left)[k + 1] == all.skip(i as int)[k + 1]);
        }
        assert(part_blocks(rest@) =~= all.skip(i + 1));
        assert(all.take(i + 1).drop_last() =~= all.take(i as int));
        assert(start + done + more =~= start + (done + more));
        i = i + 1;
    }
    assert(all.take(count as int) =~= all);
}

fn digest_entry(entry: &ComparedEntry, relative: &Vec<u8>) -> (parts: Vec<DigestPart>)
    ensures
        part_models(parts@) == tree_parts(*entry, relative@),
    decreases entry,
{
    let mut parts: Vec<DigestPart> = Vec::new();
    match entry {
        ComparedEntry::Symlink { name: _, facts, target } => {
            push_part(&mut parts, describe(relative, facts, false));
            push_part(&mut parts, revision::bytes_of_text("symlink"));
            let shown = outside::lossy_text(target);
            push_part(&mut parts, revision::bytes_of_text(shown.as_str()));
            assert(part_models(parts@) =~= tree_parts(*entry, relative@));
        },
        ComparedEntry::File { name: _, facts } => {
            push_part(&mut parts, describe(relative, facts, false));
            push_part(&mut parts, revision::bytes_of_text("file"));
            let ghost before = part_models(parts@);
            parts.push(DigestPart::Contents { path: order::copy_bytes(relative) });
            assert(part_models(parts@) =~= before.push(PartModel::Contents { path: relative@ }));
            assert(part_models(parts@) =~= tree_parts(*entry, relative@));
        },
        ComparedEntry::Special { name: _, facts } => {
            push_part(&mut parts, describe(relative, facts, false));
            assert(part_models(parts@) =~= tree_parts(*entry, relative@));
        },
        ComparedEntry::Directory { name: _, facts, children } => {
            push_part(&mut parts, describe(relative, facts, true));
            push_part(&mut parts, revision::bytes_of_text("directory"));
            let mut blocks: Vec<(Vec<u8>, Vec<DigestPart>)> = Vec::new();
            assert(children@.take(0) =~= Seq::<ComparedEntry>::empty());
            assert(part_blocks(blocks@) =~= Seq::<(Seq<u8>, Seq<PartModel>)>::empty());
            for i in 0..children.len()
                invariant
                    decreases_to!(entry => children),
                    part_blocks(blocks@) == order::arranged(
                        child_blocks(children@.take(i as int), relative@),
                    ),
            {
                assert(children@.take(i + 1).drop_last() =~= children@.take(i as int));
                assert(children@.take(i + 1).last() == children@[i as int]);
                let name = match &children[i] {
                    ComparedEntry::Symlink { name, facts: _, target: _ } => name,
                    ComparedEntry::Directory { name, facts: _, children: _ } => name,
                    ComparedEntry::File { name, facts: _ } => name,
                    ComparedEntry::Special { name, facts: _ } => name,
                };
                let path = order::path_below(relative, name);
                let more = digest_entry(&children[i], &path);
                proof {
                    let next = child_blocks(children@.take(i + 1), relative@);
                    assert(next.drop_last() =~= child_blocks(children@.take(i as int), relative@));
                    assert(next.last() == (name@, part_models(more@)));
                }
                place_block(&mut blocks, name, more);
            }
            assert(children@.take(children@.len() as int) =~= children@);
            push_blocks(&mut parts, blocks);
            assert(part_models(parts@) =~= tree_parts(*entry, relative@));
        },
    }
    parts
}

/// What the digest of a tree is made from, part by part.
pub fn tree_digest(root: &ComparedEntry) -> (parts: Vec<DigestPart>)
    ensures
        part_models(parts@) == tree_parts(*root, Seq::empty()),
{
    let relative: Vec<u8> = Vec::new();
    assert(relative@ =~= Seq::<u8>::empty());
    digest_entry(root, &relative)
}

/// How large a directory is on its filesystem does not count when trees are
/// compared; how large a file is does.
pub proof fn directory_sizes_do_not_count(relative: Seq<u8>, facts: EntryFacts, other: EntryFacts)
    requires
        other == (EntryFacts { len: other.len, ..facts }),
    ensures
        fact_bytes(relative, facts, true) == fact_bytes(relative, other, true),
{
}

/// The facts are the same, but for the order in which the attributes, no two of
/// one name, were read.
pub open spec fn same_facts(a: EntryFacts, b: EntryFacts) -> bool {
    &&& a == (EntryFacts { attributes: a.attributes, ..b })
    &&& order::names_differ(attribute_blocks(a.attributes@))
    &&& order::names_differ(attribute_blocks(b.attributes@))
    &&& order::same_items(attribute_blocks(a.attributes@), attribute_blocks(b.attributes@))
}

/// No two entries have one name.
pub open spec fn entries_differ(children: Seq<ComparedEntry>) -> bool {
    forall|i: int, j: int|
        0 <= i < j < children.len() ==> (#[trigger] children[i]).entry_name() != (
        #[trigger] children[j]).entry_name()
}

/// The entries are the same, but for the order in which the attributes and the
/// entries of directories, no two of one name, were read.
pub open spec fn same_but_for_order(a: ComparedEntry, b: ComparedEntry) -> bool
    decreases a, 0nat,
{
    match (a, b) {
        (
            ComparedEntry::Symlink { name: _, facts, target },
            ComparedEntry::Symlink { name: _, facts: others, target: other },
        ) => same_facts(facts, others) && target@ == other@,
        (
            ComparedEntry::Directory { name: _, facts, children },
            ComparedEntry::Directory { name: _, facts: others, children: found },
        ) => {
            &&& same_facts(facts, others)
            &&& entries_differ(children@)
            &&& entries_differ(found@)
            &&& forall|i: int|
                0 <= i < children@.len() ==> is_among(#[trigger] children@[i], found@)
            &&& forall|j: int|
                0 <= j < found@.len() ==> holds_one_like(children@, #[trigger] found@[j])
        },
        (
            ComparedEntry::File { name: _, facts },
            ComparedEntry::File { name: _, facts: others },
        ) => same_facts(facts, others),
        (
            ComparedEntry::Special { name: _, facts },
            ComparedEntry::Special { name: _, facts: others },
        ) => same_facts(facts, others),
        _ => false,
    }
}

/// The entry is among those that were found, but for the order of reading.
#[verifier::opaque]
pub open spec fn is_among(entry: ComparedEntry, found: Seq<ComparedEntry>) -> bool
    decreases entry, 1nat,
{
    exists|j: int|
        0 <= j < found.len() && (#[trigger] found[j]).entry_name() == entry.entry_name()
            && same_but_for_order(entry, found[j])
}

/// One of the entries is the one that was found, but for the order of reading.
#[verifier::opaque]
pub open spec fn holds_one_like(entries: Seq<ComparedEntry>, found: ComparedEntry) -> bool
    decreases entries, 1nat,
{
    exists|i: int|
        0 <= i < entries.len() && (#[trigger] entries[i]).entry_name() == found.entry_name()
            && same_but_for_order(entries[i], found)
}

proof fn lemma_child_blocks(children: Seq<ComparedEntry>, relative: Seq<u8>)
    ensures
        child_blocks(children, relative).len() == children.len(),
        forall|i: int|
            0 <= i < children.len() ==> #[trigger] child_blocks(children, relative)[i] == (
                children[i].entry_name(),
                tree_parts(children[i], order::below(relative, children[i].entry_name())),
            ),
    decreases children.len(),
{
    if children.len() > 0 {
        let rest = children.drop_last();
        lemma_child_blocks(rest, relative);
        assert forall|i: int| 0 <= i < children.len() implies #[trigger] child_blocks(
            children,
            relative,
        )[i] == (
            children[i].entry_name(),
            tree_parts(children[i], order::below(relative, children[i].entry_name())),
        ) by {
            if i < rest.len() {
                assert(child_blocks(children, relative)[i] == child_blocks(rest, relative)[i]);
                assert(rest[i] == children[i]);
            }
        }
    }
}

spec fn same_digest(a: ComparedEntry, b: ComparedEntry, relative: Seq<u8>) -> bool {
    &&& a.entry_name() == b.entry_name()
    &&& tree_parts(a, order::below(relative, a.entry_name())) == tree_parts(
        b,
        order::below(relative, b.entry_name()),
    )
}

spec fn has_digest_among(
    entry: ComparedEntry,
    found: Seq<ComparedEntry>,
    relative: Seq<u8>,
) -> bool {
    exists|j: int| 0 <= j < found.len() && same_digest(entry, #[trigger] found[j], relative)
}

proof fn lemma_blocks_within(
    children: Seq<ComparedEntry>,
    found: Seq<ComparedEntry>,
    relative: Seq<u8>,
)
    requires
        forall|i: int|
            0 <= i < children.len() ==> #[trigger] has_digest_among(children[i], found, relative),
    ensures
        forall|item: (Seq<u8>, Seq<PartModel>)| #![auto]
            child_blocks(children, relative).contains(item) ==> child_blocks(
                found,
                relative,
            ).contains(item),
{
    let left = child_blocks(children, relative);
    let right = child_blocks(found, relative);
    lemma_child_blocks(children, relative);
    lemma_child_blocks(found, relative);
    assert forall|item: (Seq<u8>, Seq<PartModel>)| #![auto] left.contains(item) implies right.contains(
        item,
    ) by {
        let i = choose|i: int| 0 <= i < left.len() && left[i] == item;
        assert(has_digest_among(children[i], found, relative));
        let j = choose|j: int|
            0 <= j < found.len() && same_digest(children[i], #[trigger] found[j], relative);
        assert(right[j] == item);
    }
}

proof fn lemma_blocks_differ(children: Seq<ComparedEntry>, relative: Seq<u8>)
    requires
        entries_differ(children),
    ensures
        order::names_differ(child_blocks(children, relative)),
{
    lemma_child_blocks(children, relative);
}

proof fn lemma_same_facts(relative: Seq<u8>, a: EntryFacts, b: EntryFacts, is_directory: bool)
    requires
        same_facts(a, b),
    ensures
        fact_bytes(relative, a, is_directory) == fact_bytes(relative, b, is_directory),
{
    order::arranging_forgets_the_order(
        attribute_blocks(a.attributes@),
        attribute_blocks(b.attributes@),
    );
}

/// The digest of a tree does not depend on the order in which the entries of its
/// directories and the attributes of its entries were read.
pub proof fn digests_forget_the_order_of_reading(
    a: ComparedEntry,
    b: ComparedEntry,
    relative: Seq<u8>,
)
    requires
        same_but_for_order(a, b),
    ensures
        tree_parts(a, relative) == tree_parts(b, relative),
    decreases a,
{
    match (a, b) {
        (
            ComparedEntry::Symlink { name: _, facts, target },
            ComparedEntry::Symlink { name: _, facts: others, target: other },
        ) => {
            lemma_same_facts(relative, facts, others, false);
        },
        (
            ComparedEntry::File { name: _, facts },
            ComparedEntry::File { name: _, facts: others },
        ) => {
            lemma_same_facts(relative, facts, others, false);
        },
        (
            ComparedEntry::Special { name: _, facts },
            ComparedEntry::Special { name: _, facts: others },
        ) => {
            lemma_same_facts(relative, facts, others, false);
        },
        (
            ComparedEntry::Directory { name: _, facts, children },
            ComparedEntry::Directory { name: _, facts: others, children: found },
        ) => {
            lemma_same_facts(relative, facts, others, true);
            assert forall|i: int| 0 <= i < children@.len() implies #[trigger] has_digest_among(
                children@[i],
                found@,
                relative,
            ) by {
                reveal(is_among);
                let j = choose|j: int|
                    0 <= j < found@.len() && (#[trigger] found@[j]).entry_name()
                        == children@[i].entry_name() && same_but_for_order(children@[i], found@[j]);
                digests_forget_the_order_of_reading(
                    children@[i],
                    found@[j],
                    order::below(relative, children@[i].entry_name()),
                );
                assert(same_digest(children@[i], found@[j], relative));
            }
            assert forall|j: int| 0 <= j < found@.len() implies #[trigger] has_digest_among(
                found@[j],
                children@,
                relative,
            ) by {
                reveal(holds_one_like);
                let i = choose|i: int|
                    0 <= i < children@.len() && (#[trigger] children@[i]).entry_name()
                        == found@[j].entry_name() && same_but_for_order(children@[i], found@[j]);
                digests_forget_the_order_of_reading(
                    children@[i],
                    found@[j],
                    order::below(relative, children@[i].entry_name()),
                );
                assert(same_digest(found@[j], children@[i], relative));
            }
            lemma_blocks_within(children@, found@, relative);
            lemma_blocks_within(found@, children@, relative);
            lemma_blocks_differ(children@, relative);
            lemma_blocks_differ(found@, relative);
            order::arranging_forgets_the_order(
                child_blocks(children@, relative),
                child_blocks(found@, relative),
            );
        },
        _ => {},
    }
}

// ---------------------------------------------------------------------------
// Digests of trees
// ---------------------------------------------------------------------------

/// What is digested for the parts, where the files hold these contents.
pub open spec fn digested(parts: Seq<PartModel>, contents: Map<Seq<u8>, Seq<u8>>) -> Seq<u8>
    decreases parts.len(),
{
    if parts.len() == 0 {
        Seq::empty()
    } else {
        (match parts[0] {
            PartModel::Bytes(bytes) => bytes,
            PartModel::Contents { path } => contents[path],
        }) + digested(parts.drop_first(), contents)
    }
}

/// The digest of a tree whose files hold these contents.
pub open spec fn digest_of(root: ComparedEntry, contents: Map<Seq<u8>, Seq<u8>>) -> Seq<u8> {
    outside::sha256_of(digested(tree_parts(root, Seq::empty()), contents))
}

/// The first file among the parts.
pub open spec fn first_file(parts: Seq<PartModel>) -> Option<Seq<u8>>
    decreases parts.len(),
{
    if parts.len() == 0 {
        None
    } else {
        match parts[0] {
            PartModel::Bytes(bytes) => first_file(parts.drop_first()),
            PartModel::Contents { path } => Some(path),
        }
    }
}

/// What comes before the first file.
pub open spec fn before_file(parts: Seq<PartModel>) -> Seq<u8>
    decreases parts.len(),
{
    if parts.len() == 0 {
        Seq::empty()
    } else {
        match parts[0] {
            PartModel::Bytes(bytes) => bytes + before_file(parts.drop_first()),
            PartModel::Contents { path } => Seq::empty(),
        }
    }
}

/// The parts behind the first file.
pub open spec fn past_file(parts: Seq<PartModel>) -> Seq<PartModel>
    decreases parts.len(),
{
    if parts.len() == 0 {
        Seq::empty()
    } else {
        match parts[0] {
            PartModel::Bytes(bytes) => past_file(parts.drop_first()),
            PartModel::Contents { path } => parts.drop_first(),
        }
    }
}

/// The digest of a tree under way. The contents of its files come in pieces.
pub struct ComparedDigest {
    parts: Vec<DigestPart>,
    at: usize,
    digest: StreamDigest,
}

impl ComparedDigest {
    /// What has been digested.
    pub closed spec fn bytes(self) -> Seq<u8> {
        outside::absorbed(self.digest)
    }

    /// The parts that are left.
    pub closed spec fn left(self) -> Seq<PartModel> {
        part_models(self.parts@).skip(self.at as int)
    }

    /// No more parts have been digested than there are.
    pub closed spec fn well_formed(self) -> bool {
        self.at <= self.parts@.len()
    }

    /// The digest of a tree, with everything left to do.
    pub fn start(root: &ComparedEntry) -> (digest: ComparedDigest)
        ensures
            digest.well_formed(),
            digest.bytes() == Seq::<u8>::empty(),
            digest.left() == tree_parts(*root, Seq::empty()),
    {
        let parts = tree_digest(root);
        assert(part_models(parts@).skip(0) =~= part_models(parts@));
        ComparedDigest { parts, at: 0, digest: StreamDigest::start() }
    }

    /// Digests what comes before the next file, and tells its path. Its contents
    /// come next; there is nothing left where no path comes back.
    pub fn next_file(&mut self) -> (wanted: Option<Vec<u8>>)
        requires
            old(self).well_formed(),
        ensures
            final(self).well_formed(),
            final(self).bytes() == old(self).bytes() + before_file(old(self).left()),
            final(self).left() == past_file(old(self).left()),
            match wanted {
                Some(path) => first_file(old(self).left()) == Some(path@),
                None => first_file(old(self).left()) is None,
            },
    {
        let ghost all = part_models(self.parts@);
        let ghost start = self.bytes();
        let ghost left = self.left();
        assert(start + before_file(left) =~= self.bytes() + before_file(left));
        while self.at < self.parts.len()
            invariant
                self.well_formed(),
                all == part_models(self.parts@),
                start == old(self).bytes(),
                left == old(self).left(),
                start + before_file(left) == self.bytes() + before_file(self.left()),
                past_file(left) == past_file(self.left()),
                first_file(left) == first_file(self.left()),
            decreases self.parts@.len() - self.at,
        {
            let ghost rest = self.left();
            let ghost done = self.bytes();
            let at: usize = self.at;
            assert(rest[0] == all[at as int]);
            assert(rest.drop_first() =~= all.skip(at + 1));
            self.at = at + 1;
            match &self.parts[at] {
                DigestPart::Bytes(bytes) => {
                    self.digest.update(bytes);
                    assert(done + (bytes@ + before_file(rest.drop_first())) =~= done + bytes@
                        + before_file(rest.drop_first()));
                },
                DigestPart::Contents { path } => {
                    let wanted = order::copy_bytes(path);
                    assert(start + before_file(left) =~= done);
                    return Some(wanted);
                },
            }
        }
        assert(self.left() =~= Seq::<PartModel>::empty());
        assert(start + before_file(left) =~= self.bytes());
        None
    }

    /// A piece of the contents of the file comes.
    pub fn add_contents(&mut self, piece: &Vec<u8>)
        requires
            old(self).well_formed(),
        ensures
            final(self).well_formed(),
            final(self).bytes() == old(self).bytes() + piece@,
            final(self).left() == old(self).left(),
    {
        self.digest.update(piece);
    }

    /// The digest of everything that was digested.
    pub fn finish(self) -> (digest: Vec<u8>)
        ensures
            digest@ == outside::sha256_of(self.bytes()),
            digest@.len() == 32,
    {
        self.digest.finish()
    }
}

/// Whether the digests of two trees are the same.
pub fn same_tree(a: &Vec<u8>, b: &Vec<u8>) -> (same: bool)
    ensures
        same == (a@ == b@),
{
    order::same_bytes(a, b)
}

/// Digesting a tree goes from file to file: what comes before the next file, its
/// contents, and then what is left. So once each file has been given its
/// contents, the digest is that of the tree.
pub proof fn digests_go_from_file_to_file(
    parts: Seq<PartModel>,
    contents: Map<Seq<u8>, Seq<u8>>,
)
    ensures
        digested(parts, contents) == before_file(parts) + (match first_file(parts) {
            Some(path) => contents[path] + digested(past_file(parts), contents),
            None => Seq::empty(),
        }),
        past_file(parts).len() <= parts.len(),
        first_file(parts) is Some ==> past_file(parts).len() < parts.len(),
    decreases parts.len(),
{
    if parts.len() > 0 {
        match parts[0] {
            PartModel::Bytes(bytes) => {
                let rest = parts.drop_first();
                digests_go_from_file_to_file(rest, contents);
                let tail = match first_file(rest) {
                    Some(path) => contents[path] + digested(past_file(rest), contents),
                    None => Seq::empty(),
                };
                assert(bytes + (before_file(rest) + tail) =~= (bytes + before_file(rest)) + tail);
            },
            PartModel::Contents { path } => {
                let tail = contents[path] + digested(parts.drop_first(), contents);
                assert(Seq::<u8>::empty() + tail =~= tail);
            },
        }
    } else {
        assert(Seq::<u8>::empty() + Seq::<u8>::empty() =~= Seq::<u8>::empty());
    }
}

/// The files hold the same contents at every path of the parts.
pub open spec fn same_contents(
    parts: Seq<PartModel>,
    contents: Map<Seq<u8>, Seq<u8>>,
    others: Map<Seq<u8>, Seq<u8>>,
) -> bool {
    forall|i: int|
        0 <= i < parts.len() ==> (#[trigger] parts[i] matches PartModel::Contents { path }
            ==> contents[path] == others[path])
}

proof fn lemma_same_contents(
    parts: Seq<PartModel>,
    contents: Map<Seq<u8>, Seq<u8>>,
    others: Map<Seq<u8>, Seq<u8>>,
)
    requires
        same_contents(parts, contents, others),
    ensures
        digested(parts, contents) == digested(parts, others),
    decreases parts.len(),
{
    if parts.len() > 0 {
        let rest = parts.drop_first();
        assert(parts[0] == parts[0]);
        assert forall|i: int| 0 <= i < rest.len() implies (#[trigger] rest[i] matches
            PartModel::Contents { path } ==> contents[path] == others[path]) by {
            assert(rest[i] == parts[i + 1]);
        }
        lemma_same_contents(rest, contents, others);
    }
}

/// Trees that are the same but for the order of reading, and whose files hold the
/// same contents, have the same digest.
pub proof fn same_trees_have_the_same_digest(
    a: ComparedEntry,
    b: ComparedEntry,
    contents: Map<Seq<u8>, Seq<u8>>,
    others: Map<Seq<u8>, Seq<u8>>,
)
    requires
        same_but_for_order(a, b),
        same_contents(tree_parts(a, Seq::empty()), contents, others),
    ensures
        digest_of(a, contents) == digest_of(b, others),
{
    digests_forget_the_order_of_reading(a, b, Seq::empty());
    lemma_same_contents(tree_parts(a, Seq::empty()), contents, others);
}

impl ComparedEntry {
    /// The entries of a directory.
    pub open spec fn entries(self) -> Seq<ComparedEntry> {
        match self {
            ComparedEntry::Directory { name, facts, children } => children@,
            _ => Seq::empty(),
        }
    }

    /// What is known of the entry.
    pub open spec fn entry_facts(self) -> EntryFacts {
        match self {
            ComparedEntry::Symlink { name, facts, target } => facts,
            ComparedEntry::Directory { name, facts, children } => facts,
            ComparedEntry::File { name, facts } => facts,
            ComparedEntry::Special { name, facts } => facts,
        }
    }
}

/// The way leads to an entry of the tree. Each number on it is the position of an
/// entry among those of the directory before it.
pub open spec fn leads(entry: ComparedEntry, way: Seq<int>) -> bool
    decreases way.len(),
{
    way.len() == 0 || (0 <= way[0] < entry.entries().len() && leads(
        entry.entries()[way[0]],
        way.drop_first(),
    ))
}

/// The entry that the way leads to.
pub open spec fn entry_along(entry: ComparedEntry, way: Seq<int>) -> ComparedEntry
    decreases way.len(),
{
    if way.len() == 0 {
        entry
    } else {
        entry_along(entry.entries()[way[0]], way.drop_first())
    }
}

/// The path inside the tree that the way leads to.
pub open spec fn path_along(entry: ComparedEntry, relative: Seq<u8>, way: Seq<int>) -> Seq<u8>
    decreases way.len(),
{
    if way.len() == 0 {
        relative
    } else {
        let next = entry.entries()[way[0]];
        path_along(next, order::below(relative, next.entry_name()), way.drop_first())
    }
}

proof fn lemma_parts_below(entry: ComparedEntry, relative: Seq<u8>, i: int, part: PartModel)
    requires
        0 <= i < entry.entries().len(),
        tree_parts(
            entry.entries()[i],
            order::below(relative, entry.entries()[i].entry_name()),
        ).contains(part),
    ensures
        tree_parts(entry, relative).contains(part),
{
    let children = entry.entries();
    let blocks = child_blocks(children, relative);
    let arranged = order::arranged(blocks);
    lemma_child_blocks(children, relative);
    order::arranging_keeps_every_item(blocks, blocks[i]);
    assert(blocks.contains(blocks[i]));
    let k = arranged.index_of(blocks[i]);
    order::all_items_run_together(arranged, k, part);
    let below = order::run_together(arranged);
    let all = tree_parts(entry, relative);
    let at = below.index_of(part);
    assert(all[2 + at] == part);
}

/// Every entry of a tree goes into its digest, wherever it lies: what is known of
/// it, under its path; the contents of a file; and where a link leads.
pub proof fn digests_hold_whole_trees(entry: ComparedEntry, relative: Seq<u8>, way: Seq<int>)
    requires
        leads(entry, way),
    ensures
        ({
            let parts = tree_parts(entry, relative);
            let found = entry_along(entry, way);
            let path = path_along(entry, relative, way);
            &&& parts.contains(
                PartModel::Bytes(fact_bytes(path, found.entry_facts(), found is Directory)),
            )
            &&& found is File ==> parts.contains(PartModel::Contents { path })
            &&& found matches ComparedEntry::Symlink { name, facts, target } ==> parts.contains(
                PartModel::Bytes(encode_utf8(outside::lossy_text_of(target@))),
            )
        }),
    decreases way.len(),
{
    let parts = tree_parts(entry, relative);
    let found = entry_along(entry, way);
    let path = path_along(entry, relative, way);
    let known = PartModel::Bytes(fact_bytes(path, found.entry_facts(), found is Directory));
    if way.len() == 0 {
        assert(parts[0] == known);
        match found {
            ComparedEntry::File { name, facts } => {
                assert(parts[2] == PartModel::Contents { path });
            },
            ComparedEntry::Symlink { name, facts, target } => {
                assert(parts[2] == PartModel::Bytes(
                    encode_utf8(outside::lossy_text_of(target@)),
                ));
            },
            _ => {},
        }
    } else {
        let next = entry.entries()[way[0]];
        let inner = order::below(relative, next.entry_name());
        digests_hold_whole_trees(next, inner, way.drop_first());
        lemma_parts_below(entry, relative, way[0], known);
        match found {
            ComparedEntry::File { name, facts } => {
                lemma_parts_below(entry, relative, way[0], PartModel::Contents { path });
            },
            ComparedEntry::Symlink { name, facts, target } => {
                lemma_parts_below(
                    entry,
                    relative,
                    way[0],
                    PartModel::Bytes(encode_utf8(outside::lossy_text_of(target@))),
                );
            },
            _ => {},
        }
    }
}

/// Two entries at the same path go into a digest with the same bytes only if they
/// agree in mode, size, owner, group and time; the size of a directory does not
/// count.
pub proof fn facts_are_told_apart(
    relative: Seq<u8>,
    a: EntryFacts,
    b: EntryFacts,
    is_directory: bool,
)
    requires
        fact_bytes(relative, a, is_directory) == fact_bytes(relative, b, is_directory),
    ensures
        a.mode == b.mode,
        !is_directory ==> a.len == b.len,
        a.uid == b.uid,
        a.gid == b.gid,
        a.modified_seconds as u64 == b.modified_seconds as u64,
        a.modified_nanoseconds as u64 == b.modified_nanoseconds as u64,
        attribute_bytes(a.attributes@) == attribute_bytes(b.attributes@),
{
    reveal_with_fuel(revision::pow256, 9);
    lemma_fact_parts(relative, a, is_directory);
    lemma_fact_parts(relative, b, is_directory);
    let la = if is_directory {
        0
    } else {
        a.len as nat
    };
    let lb = if is_directory {
        0
    } else {
        b.len as nat
    };
    revision::lemma_le_bytes(a.mode as nat, b.mode as nat, 4);
    revision::lemma_le_bytes(la, lb, 8);
    revision::lemma_le_bytes(a.uid as nat, b.uid as nat, 4);
    revision::lemma_le_bytes(a.gid as nat, b.gid as nat, 4);
    revision::lemma_le_bytes(
        a.modified_seconds as u64 as nat,
        b.modified_seconds as u64 as nat,
        8,
    );
    revision::lemma_le_bytes(
        a.modified_nanoseconds as u64 as nat,
        b.modified_nanoseconds as u64 as nat,
        8,
    );
}

proof fn lemma_fact_parts(relative: Seq<u8>, facts: EntryFacts, is_directory: bool)
    ensures
        ({
            let x = fact_bytes(relative, facts, is_directory);
            let n = encode_utf8(outside::lossy_text_of(relative)).len() as int;
            &&& x.len() >= n + 36
            &&& x.subrange(n, n + 4) == le_bytes(facts.mode as nat, 4)
            &&& x.subrange(n + 4, n + 12) == le_bytes(
                if is_directory {
                    0
                } else {
                    facts.len as nat
                },
                8,
            )
            &&& x.subrange(n + 12, n + 16) == le_bytes(facts.uid as nat, 4)
            &&& x.subrange(n + 16, n + 20) == le_bytes(facts.gid as nat, 4)
            &&& x.subrange(n + 20, n + 28) == le_bytes(facts.modified_seconds as u64 as nat, 8)
            &&& x.subrange(n + 28, n + 36) == le_bytes(facts.modified_nanoseconds as u64 as nat, 8)
            &&& x.skip(n + 36) == attribute_bytes(facts.attributes@)
        }),
{
    let x = fact_bytes(relative, facts, is_directory);
    let n = encode_utf8(outside::lossy_text_of(relative)).len() as int;
    let size = if is_directory {
        0
    } else {
        facts.len as nat
    };
    revision::lemma_le_len(facts.mode as nat, 4);
    revision::lemma_le_len(size, 8);
    revision::lemma_le_len(facts.uid as nat, 4);
    revision::lemma_le_len(facts.gid as nat, 4);
    revision::lemma_le_len(facts.modified_seconds as u64 as nat, 8);
    revision::lemma_le_len(facts.modified_nanoseconds as u64 as nat, 8);
    assert(x.subrange(n, n + 4) =~= le_bytes(facts.mode as nat, 4));
    assert(x.subrange(n + 4, n + 12) =~= le_bytes(size, 8));
    assert(x.subrange(n + 12, n + 16) =~= le_bytes(facts.uid as nat, 4));
    assert(x.subrange(n + 16, n + 20) =~= le_bytes(facts.gid as nat, 4));
    assert(x.subrange(n + 20, n + 28) =~= le_bytes(facts.modified_seconds as u64 as nat, 8));
    assert(x.subrange(n + 28, n + 36) =~= le_bytes(facts.modified_nanoseconds as u64 as nat, 8));
    assert(x.skip(n + 36) =~= attribute_bytes(facts.attributes@));
}

} // verus!
