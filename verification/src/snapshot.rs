use vstd::prelude::*;
use crate::codec::zlib_compressed;
use crate::digits::digit_byte;
use crate::error::StoreError;
use crate::frame::{frame, gen_objects, object_id};
use crate::hash::{id_bytes, is_id_text, lemma_hash_reads_back, sha1_digest, spec_sha1_hash};
use crate::order::{bytes_le, lex_le};
use crate::scan::{copy_bytes, same_bytes};
use crate::store::{location, write_obj, Location, ObjectStore};
use crate::tree::{entry_models, serialize_tree, tree_payload, EntryModel, TreeEntry};

verus! {

/// What a directory entry is.
pub enum NodeKind {
    /// A regular file, with its contents and its permission bits.
    File { content: Vec<u8>, permissions: u32 },
    /// A directory, with what it lists.
    Directory { children: Vec<DirNode> },
    /// Anything else: a link, a device, a socket.
    Other,
}

/// One entry of a directory listing.
pub struct DirNode {
    pub name: Vec<u8>,
    pub kind: NodeKind,
}

/// The mode of a directory entry in a tree.
pub const DIRECTORY_FLAG: u16 = 0x4000;

/// The flag that marks a regular file in a mode.
pub const FILE_FLAG: u16 = 0x8000;

/// The mode of a regular file: the file flag over the low nine permission
/// bits.
pub open spec fn file_mode(permissions: u32) -> u16 {
    (0x8000 + permissions % 512) as u16
}

/// The mode of a regular file with the given permission bits.
pub fn file_mode_of(permissions: u32) -> (mode: u16)
    ensures
        mode == file_mode(permissions),
        mode == FILE_FLAG | (permissions & 0x1ff) as u16,
{
    let low: u32 = permissions & 0x1ff;
    assert(low == permissions % 512 && low < 512) by (bit_vector)
        requires
            low == permissions & 0x1ff,
    ;
    let low16: u16 = low as u16;
    assert(0x8000u16 | low16 == 0x8000u16 + low16) by (bit_vector)
        requires
            low16 < 512,
    ;
    FILE_FLAG | low16
}

/// A mode as six octal digits, with leading zeros.
pub open spec fn octal6(mode: u16) -> Seq<u8> {
    seq![
        digit_byte((mode / 32768 % 8) as nat),
        digit_byte((mode / 4096 % 8) as nat),
        digit_byte((mode / 512 % 8) as nat),
        digit_byte((mode / 64 % 8) as nat),
        digit_byte((mode / 8 % 8) as nat),
        digit_byte((mode % 8) as nat),
    ]
}

/// Renders a mode as six octal digits.
pub fn mode_digits(mode: u16) -> (out: Vec<u8>)
    ensures
        out@ == octal6(mode),
{
    let mut out: Vec<u8> = Vec::new();
    out.push(0x30u8 + (mode / 32768 % 8) as u8);
    out.push(0x30u8 + (mode / 4096 % 8) as u8);
    out.push(0x30u8 + (mode / 512 % 8) as u8);
    out.push(0x30u8 + (mode / 64 % 8) as u8);
    out.push(0x30u8 + (mode / 8 % 8) as u8);
    out.push(0x30u8 + (mode % 8) as u8);
    assert(out@ =~= octal6(mode));
    out
}

/// Whether `name` is one of the excluded names.
pub open spec fn is_excluded(excluded: Seq<Vec<u8>>, name: Seq<u8>) -> bool {
    exists|i: int| 0 <= i < excluded.len() && (#[trigger] excluded[i])@ == name
}

/// Whether `name` is one of the excluded names.
pub fn excludes(excluded: &Vec<Vec<u8>>, name: &Vec<u8>) -> (r: bool)
    ensures
        r == is_excluded(excluded@, name@),
{
    let mut i: usize = 0;
    while i < excluded.len()
        invariant
            i <= excluded.len(),
            forall|j: int| 0 <= j < i ==> (#[trigger] excluded@[j])@ != name@,
        decreases excluded.len() - i,
    {
        if same_bytes(&excluded[i], name) {
            return true;
        }
        i += 1;
    }
    false
}

/// A sorted list with one more entry: `e` stands behind every entry whose
/// name comes no later than its own, and before the others.
pub open spec fn insert_entry(sorted: Seq<EntryModel>, e: EntryModel) -> Seq<EntryModel>
    decreases sorted.len(),
{
    if sorted.len() == 0 {
        seq![e]
    } else if lex_le(sorted.last().name, e.name) {
        sorted.push(e)
    } else {
        insert_entry(sorted.drop_last(), e).push(sorted.last())
    }
}

/// `insert_entry` puts the entry at the index behind which every name comes
/// later than its own, and before which the name does not.
proof fn lemma_insert_at(sorted: Seq<EntryModel>, e: EntryModel, i: int)
    requires
        0 <= i <= sorted.len(),
        forall|j: int| i <= j < sorted.len() ==> !lex_le(sorted[j].name, e.name),
        i > 0 ==> lex_le(sorted[i - 1].name, e.name),
    ensures
        insert_entry(sorted, e) == sorted.insert(i, e),
    decreases sorted.len(),
{
    if sorted.len() == 0 {
        assert(sorted.insert(i, e) =~= seq![e]);
    } else if i == sorted.len() {
        assert(sorted.insert(i, e) =~= sorted.push(e));
    } else {
        lemma_insert_at(sorted.drop_last(), e, i);
        assert(sorted.insert(i, e) =~= sorted.drop_last().insert(i, e).push(sorted.last()));
    }
}

/// Puts `entry` into a list kept in order of name.
fn insert_sorted(entries: &mut Vec<TreeEntry>, entry: TreeEntry)
    ensures
        entry_models(final(entries)@) == insert_entry(entry_models(old(entries)@), entry@),
{
    let mut i: usize = entries.len();
    while i > 0 && !bytes_le(&entries[i - 1].name, &entry.name)
        invariant
            i <= entries.len(),
            forall|j: int| i <= j < entries.len() ==> !lex_le(entries@[j].name@, entry.name@),
        decreases i,
    {
        i -= 1;
    }
    proof {
        lemma_insert_at(entry_models(entries@), entry@, i as int);
        assert(entry_models(entries@.insert(i as int, entry)) =~= entry_models(entries@).insert(
            i as int,
            entry@,
        ));
    }
    entries.insert(i, entry);
}

/// The tree entry that stands for a directory entry: none for an excluded
/// name and for what is neither file nor directory. A file's id is the
/// digest of its blob, a directory's the digest of its own tree.
pub open spec fn node_entry(node: DirNode, excluded: Seq<Vec<u8>>) -> Option<EntryModel>
    decreases node, 0nat,
{
    if is_excluded(excluded, node.name@) {
        None
    } else {
        match node.kind {
            NodeKind::File { content, permissions } => Some(
                EntryModel {
                    mode: octal6(file_mode(permissions)),
                    name: node.name@,
                    id: sha1_digest(frame("blob"@, content@)),
                },
            ),
            NodeKind::Directory { children } => Some(
                EntryModel {
                    mode: octal6(DIRECTORY_FLAG),
                    name: node.name@,
                    id: sha1_digest(
                        frame(
                            "tree"@,
                            tree_payload(dir_entries(children@, children@.len(), excluded)),
                        ),
                    ),
                },
            ),
            NodeKind::Other => None,
        }
    }
}

/// The tree entries of the first `k` entries of a listing, in order of name.
pub open spec fn dir_entries(children: Seq<DirNode>, k: nat, excluded: Seq<Vec<u8>>) -> Seq<
    EntryModel,
>
    decreases children, k,
{
    if k == 0 || k > children.len() {
        Seq::<EntryModel>::empty()
    } else {
        let before = dir_entries(children, (k - 1) as nat, excluded);
        match node_entry(children[k - 1], excluded) {
            Some(e) => insert_entry(before, e),
            None => before,
        }
    }
}

/// The payload of the tree object of a listing.
pub open spec fn listing_payload(children: Seq<DirNode>, excluded: Seq<Vec<u8>>) -> Seq<u8> {
    tree_payload(dir_entries(children, children.len(), excluded))
}

/// The id of the tree object of a listing.
pub open spec fn tree_id(children: Seq<DirNode>, excluded: Seq<Vec<u8>>) -> Seq<char> {
    object_id("tree"@, listing_payload(children, excluded))
}

/// An object ready to be stored: its id and its frame.
pub type ObjectModel = (Seq<char>, Seq<u8>);

/// The objects that one directory entry gives rise to: a file's blob; for a
/// directory, the objects of what it lists, then its own tree.
pub open spec fn node_objects(node: DirNode, excluded: Seq<Vec<u8>>) -> Seq<ObjectModel>
    decreases node, 0nat,
{
    if is_excluded(excluded, node.name@) {
        Seq::<ObjectModel>::empty()
    } else {
        match node.kind {
            NodeKind::File { content, permissions } => seq![
                (object_id("blob"@, content@), frame("blob"@, content@)),
            ],
            NodeKind::Directory { children } => dir_objects(children@, children@.len(), excluded).push(
                (tree_id(children@, excluded), frame("tree"@, listing_payload(children@, excluded))),
            ),
            NodeKind::Other => Seq::<ObjectModel>::empty(),
        }
    }
}

/// The objects of the first `k` entries of a listing, in the listing's order.
pub open spec fn dir_objects(children: Seq<DirNode>, k: nat, excluded: Seq<Vec<u8>>) -> Seq<
    ObjectModel,
>
    decreases children, k,
{
    if k == 0 || k > children.len() {
        Seq::<ObjectModel>::empty()
    } else {
        dir_objects(children, (k - 1) as nat, excluded) + node_objects(children[k - 1], excluded)
    }
}

/// All the objects of a listing: those of its entries, then its own tree.
pub open spec fn tree_objects(children: Seq<DirNode>, excluded: Seq<Vec<u8>>) -> Seq<ObjectModel> {
    dir_objects(children, children.len(), excluded).push(
        (tree_id(children, excluded), frame("tree"@, listing_payload(children, excluded))),
    )
}

/// A list of objects as plain values.
pub open spec fn object_models(objects: Seq<(String, Vec<u8>)>) -> Seq<ObjectModel> {
    objects.map_values(|o: (String, Vec<u8>)| (o.0@, o.1@))
}

/// The raw digest that an id made by `gen_objects` stands for.
fn digest_of(id: &String, Ghost(framed): Ghost<Seq<u8>>) -> (raw: Vec<u8>)
    requires
        id@ == spec_sha1_hash(framed),
    ensures
        raw@ == sha1_digest(framed),
{
    proof {
        lemma_hash_reads_back(framed);
    }
    id_bytes(id.as_str()).unwrap()
}

/// Walks a listing and makes its objects: one blob for each file, one tree
/// for each directory, the listing's own tree last. The objects are appended
/// to `objects`; the id of the listing's tree is returned. Entries with an
/// excluded name and entries that are neither file nor directory are passed
/// over. The entries of each tree stand in byte-wise order of name.
pub fn snapshot_tree(
    children: &Vec<DirNode>,
    excluded: &Vec<Vec<u8>>,
    objects: &mut Vec<(String, Vec<u8>)>,
) -> (id: String)
    ensures
        id@ == tree_id(children@, excluded@),
        is_id_text(id@),
        object_models(final(objects)@) == object_models(old(objects)@) + tree_objects(
            children@,
            excluded@,
        ),
    decreases children,
{
    let ghost given = object_models(objects@);
    let mut entries: Vec<TreeEntry> = Vec::new();
    let mut i: usize = 0;
    while i < children.len()
        invariant
            i <= children.len(),
            entry_models(entries@) == dir_entries(children@, i as nat, excluded@),
            object_models(objects@) == given + dir_objects(children@, i as nat, excluded@),
        decreases children.len() - i,
    {
        let node = &children[i];
        let ghost objects_before = object_models(objects@);
        let ghost entries_before = entry_models(entries@);
        proof {
            reveal_with_fuel(node_entry, 2);
            reveal_with_fuel(dir_entries, 2);
            reveal_with_fuel(node_objects, 2);
            reveal_with_fuel(dir_objects, 2);
            assert(children@[i as int] == *node);
        }
        if !excludes(excluded, &node.name) {
            match &node.kind {
                NodeKind::File { content, permissions } => {
                    let mode = file_mode_of(*permissions);
                    let (id, framed) = gen_objects("blob".to_owned(), content);
                    let raw = digest_of(&id, Ghost(framed@));
                    let entry = TreeEntry {
                        mode: mode_digits(mode),
                        name: copy_bytes(&node.name),
                        id: raw,
                    };
                    proof {
                        assert(node_entry(*node, excluded@) == Some(entry@));
                        assert(node_objects(*node, excluded@) =~= seq![(id@, framed@)]);
                    }
                    insert_sorted(&mut entries, entry);
                    let ghost pushed = objects@.push((id, framed));
                    objects.push((id, framed));
                    proof {
                        assert(object_models(pushed) =~= objects_before.push((id@, framed@)));
                        assert(object_models(objects@) =~= objects_before + node_objects(
                            *node,
                            excluded@,
                        ));
                    }
                },
                NodeKind::Directory { children: listed } => {
                    let id = snapshot_tree(listed, excluded, objects);
                    let raw = digest_of(&id, Ghost(frame("tree"@, listing_payload(listed@, excluded@))));
                    let entry = TreeEntry {
                        mode: mode_digits(DIRECTORY_FLAG),
                        name: copy_bytes(&node.name),
                        id: raw,
                    };
                    proof {
                        assert(node_entry(*node, excluded@) == Some(entry@));
                        assert(node_objects(*node, excluded@) =~= tree_objects(listed@, excluded@));
                    }
                    insert_sorted(&mut entries, entry);
                },
                NodeKind::Other => {
                    proof {
                        assert(node_entry(*node, excluded@) is None);
                        assert(node_objects(*node, excluded@) =~= Seq::<ObjectModel>::empty());
                    }
                },
            }
        } else {
            proof {
                assert(node_entry(*node, excluded@) is None);
                assert(node_objects(*node, excluded@) =~= Seq::<ObjectModel>::empty());
            }
        }
        i += 1;
        proof {
            assert(object_models(objects@) =~= objects_before + node_objects(*node, excluded@));
            assert(object_models(objects@) =~= given + dir_objects(
                children@,
                i as nat,
                excluded@,
            ));
        }
    }
    let payload = serialize_tree(&entries);
    let (id, framed) = gen_objects("tree".to_owned(), &payload);
    let stored_id = id.clone();
    let ghost listed = object_models(objects@);
    let ghost pushed = objects@.push((stored_id, framed));
    objects.push((stored_id, framed));
    proof {
        assert(object_models(pushed) =~= listed.push((id@, framed@)));
        assert(object_models(objects@) =~= given + tree_objects(children@, excluded@));
    }
    id
}

/// The store after a list of objects has been written to it in order, each
/// compressed and at the location that its id names; `None` where the
/// compressor fails on one of them.
pub open spec fn stored_all(store: Map<Location, Seq<u8>>, objects: Seq<ObjectModel>) -> Option<
    Map<Location, Seq<u8>>,
>
    decreases objects.len(),
{
    if objects.len() == 0 {
        Some(store)
    } else {
        match stored_all(store, objects.drop_last()) {
            None => None,
            Some(written) => match zlib_compressed(objects.last().1) {
                None => None,
                Some(record) => Some(written.insert(location(objects.last().0), record)),
            },
        }
    }
}

/// Where the compressor fails on one object of a list, it fails on the list.
proof fn lemma_stored_all_fails(store: Map<Location, Seq<u8>>, objects: Seq<ObjectModel>, k: int)
    requires
        0 <= k < objects.len(),
        zlib_compressed(objects[k].1) is None,
    ensures
        stored_all(store, objects) is None,
    decreases objects.len(),
{
    if k < objects.len() - 1 {
        lemma_stored_all_fails(store, objects.drop_last(), k);
    }
}

/// Writes a list of objects to the store, in order. Fails with `Io` exactly
/// where the compressor fails on one of them; the objects before the first
/// such one are then written, the others are not.
pub fn store_all(store: &mut ObjectStore, objects: &Vec<(String, Vec<u8>)>) -> (r: Result<
    (),
    StoreError,
>)
    ensures
        r is Ok <==> stored_all(old(store)@, object_models(objects@)) is Some,
        r is Ok ==> Some(final(store)@) == stored_all(old(store)@, object_models(objects@)),
        r matches Err(e) ==> e == StoreError::Io && exists|k: int|
            0 <= k < objects@.len() && zlib_compressed(object_models(objects@)[k].1) is None
                && Some(final(store)@) == #[trigger] stored_all(
                old(store)@,
                object_models(objects@).take(k),
            ),
{
    let ghost models = object_models(objects@);
    let mut i: usize = 0;
    while i < objects.len()
        invariant
            i <= objects.len(),
            models == object_models(objects@),
            Some(store@) == stored_all(old(store)@, models.take(i as int)),
        decreases objects.len() - i,
    {
        let id = objects[i].0.clone();
        proof {
            assert(models.take(i + 1).drop_last() =~= models.take(i as int));
            assert(models.take(i + 1).last() == models[i as int]);
        }
        match write_obj(store, id, &objects[i].1) {
            Ok(()) => {},
            Err(e) => {
                proof {
                    lemma_stored_all_fails(old(store)@, models, i as int);
                }
                return Err(e);
            },
        }
        i += 1;
    }
    assert(models.take(i as int) =~= models);
    Ok(())
}

/// Snapshots a listing into the store: makes the objects of the listing and
/// writes them, and returns the id of the listing's tree. The id depends on
/// the listing and the excluded names alone. Fails with `Io` exactly where
/// the compressor fails on one of the objects; those before the first such
/// one are then written, the others are not.
pub fn build_tree(store: &mut ObjectStore, children: &Vec<DirNode>, excluded: &Vec<Vec<u8>>) -> (r:
    Result<String, StoreError>)
    ensures
        r is Ok <==> stored_all(old(store)@, tree_objects(children@, excluded@)) is Some,
        r matches Ok(id) ==> id@ == tree_id(children@, excluded@) && is_id_text(id@) && Some(
            final(store)@,
        ) == stored_all(old(store)@, tree_objects(children@, excluded@)),
        r matches Err(e) ==> e == StoreError::Io && exists|k: int|
            0 <= k < tree_objects(children@, excluded@).len() && zlib_compressed(
                tree_objects(children@, excluded@)[k].1,
            ) is None && Some(final(store)@) == #[trigger] stored_all(
                old(store)@,
                tree_objects(children@, excluded@).take(k),
            ),
{
    let mut objects: Vec<(String, Vec<u8>)> = Vec::new();
    let id = snapshot_tree(children, excluded, &mut objects);
    assert(object_models(objects@) =~= tree_objects(children@, excluded@));
    match store_all(store, &objects) {
        Ok(()) => Ok(id),
        Err(e) => Err(e),
    }
}

} // verus!
