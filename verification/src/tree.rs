use vstd::prelude::*;
use crate::error::StoreError;
use crate::scan::{copy_bytes, copy_range, find_byte, lemma_find_byte_is, scan_to};
use crate::store::{read_object, read_result, Location, ObjectStore};

verus! {

/// One line of a tree object, as plain values.
pub struct EntryModel {
    pub mode: Seq<u8>,
    pub name: Seq<u8>,
    pub id: Seq<u8>,
}

/// One line of a tree object: the mode as octal ASCII digits, the name of the
/// child, and the twenty raw bytes of the child's hash.
#[derive(Debug)]
pub struct TreeEntry {
    pub mode: Vec<u8>,
    pub name: Vec<u8>,
    pub id: Vec<u8>,
}

impl View for TreeEntry {
    type V = EntryModel;

    open spec fn view(&self) -> EntryModel {
        EntryModel { mode: self.mode@, name: self.name@, id: self.id@ }
    }
}

/// The entries of a list, each as plain values.
pub open spec fn entry_models(entries: Seq<TreeEntry>) -> Seq<EntryModel> {
    entries.map_values(|e: TreeEntry| e@)
}

/// The bytes of one entry: mode, a space, name, a NUL, the raw hash.
pub open spec fn entry_bytes(e: EntryModel) -> Seq<u8> {
    e.mode + seq![0x20u8] + e.name + seq![0u8] + e.id
}

/// The payload of a tree object: its entries' bytes, one after another.
pub open spec fn tree_payload(entries: Seq<EntryModel>) -> Seq<u8>
    decreases entries.len(),
{
    if entries.len() == 0 {
        Seq::<u8>::empty()
    } else {
        tree_payload(entries.drop_last()) + entry_bytes(entries.last())
    }
}

/// Writes a list of entries out as a tree payload.
pub fn serialize_tree(entries: &Vec<TreeEntry>) -> (payload: Vec<u8>)
    ensures
        payload@ == tree_payload(entry_models(entries@)),
{
    let mut payload: Vec<u8> = Vec::new();
    let mut i: usize = 0;
    while i < entries.len()
        invariant
            i <= entries.len(),
            payload@ == tree_payload(entry_models(entries@).take(i as int)),
        decreases entries.len() - i,
    {
        let ghost before = payload@;
        let e = &entries[i];
        payload.extend_from_slice(e.mode.as_slice());
        payload.push(0x20u8);
        payload.extend_from_slice(e.name.as_slice());
        payload.push(0u8);
        payload.extend_from_slice(e.id.as_slice());
        i += 1;
        proof {
            let models = entry_models(entries@);
            assert(models.take(i as int).drop_last() =~= models.take(i - 1));
            assert(models.take(i as int).last() == e@);
            assert(payload@ =~= before + entry_bytes(e@));
        }
    }
    assert(entry_models(entries@).take(i as int) =~= entry_models(entries@));
    payload
}

/// The entries that a payload holds from index `pos` on. Each is read as the
/// bytes up to the next space, the bytes up to the next NUL, and twenty bytes
/// more. `None` where a delimiter is missing or fewer than twenty bytes are
/// left for a hash.
pub open spec fn parsed_entries(payload: Seq<u8>, pos: int) -> Option<Seq<EntryModel>>
    decreases payload.len() - pos,
{
    if pos < 0 || pos >= payload.len() {
        Some(Seq::<EntryModel>::empty())
    } else {
        let sp = find_byte(payload, 0x20u8, pos);
        let nul = find_byte(payload, 0u8, sp + 1);
        if sp < pos || sp >= payload.len() || nul <= sp || nul >= payload.len() || nul + 21
            > payload.len() {
            None
        } else {
            match parsed_entries(payload, nul + 21) {
                None => None,
                Some(rest) => Some(
                    seq![
                        EntryModel {
                            mode: payload.subrange(pos, sp),
                            name: payload.subrange(sp + 1, nul),
                            id: payload.subrange(nul + 1, nul + 21),
                        },
                    ] + rest,
                ),
            }
        }
    }
}

/// Reads a tree payload into its entries, in the order in which they stand.
/// Fails with `CorruptObject` exactly where an entry lacks its space or its
/// NUL, or has fewer than twenty bytes after the NUL.
pub fn parse_tree(payload: &Vec<u8>) -> (r: Result<Vec<TreeEntry>, StoreError>)
    ensures
        r is Ok <==> parsed_entries(payload@, 0) is Some,
        r matches Ok(entries) ==> Some(entry_models(entries@)) == parsed_entries(payload@, 0),
        r matches Err(e) ==> e == StoreError::CorruptObject,
{
    let mut entries: Vec<TreeEntry> = Vec::new();
    let mut pos: usize = 0;
    while pos < payload.len()
        invariant
            parsed_entries(payload@, 0) == match parsed_entries(payload@, pos as int) {
                None => None::<Seq<EntryModel>>,
                Some(rest) => Some(entry_models(entries@) + rest),
            },
        decreases payload.len() - pos,
    {
        let sp = scan_to(payload, pos, 0x20u8);
        if sp >= payload.len() {
            return Err(StoreError::CorruptObject);
        }
        let nul = scan_to(payload, sp + 1, 0u8);
        if nul >= payload.len() || payload.len() - nul < 21 {
            return Err(StoreError::CorruptObject);
        }
        let entry = TreeEntry {
            mode: copy_range(payload, pos, sp),
            name: copy_range(payload, sp + 1, nul),
            id: copy_range(payload, nul + 1, nul + 21),
        };
        proof {
            let before = entry_models(entries@);
            let after = entry_models(entries@.push(entry));
            assert(after =~= before.push(entry@));
            match parsed_entries(payload@, nul + 21) {
                None => {},
                Some(rest) => {
                    assert(before + (seq![entry@] + rest) =~= after + rest);
                },
            }
        }
        entries.push(entry);
        pos = nul + 21;
    }
    assert(entry_models(entries@) + Seq::<EntryModel>::empty() =~= entry_models(entries@));
    Ok(entries)
}

/// Whether an entry can be read back from its bytes: no space in the mode,
/// no NUL in the name, and a hash of twenty bytes.
pub open spec fn entry_reads_back(e: EntryModel) -> bool {
    &&& forall|i: int| 0 <= i < e.mode.len() ==> e.mode[i] != 0x20u8
    &&& forall|i: int| 0 <= i < e.name.len() ==> e.name[i] != 0u8
    &&& e.id.len() == 20
}

/// The payload of a list is the bytes of its first entry, then the payload
/// of the others.
proof fn lemma_payload_from_front(entries: Seq<EntryModel>)
    requires
        entries.len() >= 1,
    ensures
        tree_payload(entries) == entry_bytes(entries[0]) + tree_payload(entries.drop_first()),
    decreases entries.len(),
{
    if entries.len() == 1 {
        assert(entries.drop_last() =~= Seq::<EntryModel>::empty());
        assert(entries.drop_first() =~= Seq::<EntryModel>::empty());
        assert(tree_payload(entries) =~= entry_bytes(entries[0]) + tree_payload(
            entries.drop_first(),
        ));
    } else {
        lemma_payload_from_front(entries.drop_last());
        assert(entries.drop_last().drop_first() =~= entries.drop_first().drop_last());
        assert(entries.drop_last()[0] == entries[0]);
        assert(entries.drop_first().last() == entries.last());
        assert(tree_payload(entries) =~= entry_bytes(entries[0]) + tree_payload(
            entries.drop_first(),
        ));
    }
}

/// Where what stands in `payload` from `pos` on is the payload of a list of
/// entries that read back, reading from `pos` gives that list.
proof fn lemma_parse_from(payload: Seq<u8>, pos: int, entries: Seq<EntryModel>)
    requires
        0 <= pos <= payload.len(),
        payload.subrange(pos, payload.len() as int) == tree_payload(entries),
        forall|i: int| 0 <= i < entries.len() ==> entry_reads_back(#[trigger] entries[i]),
    ensures
        parsed_entries(payload, pos) == Some(entries),
    decreases entries.len(),
{
    let tail = payload.subrange(pos, payload.len() as int);
    if entries.len() == 0 {
        assert(tail.len() == 0);
        assert(entries =~= Seq::<EntryModel>::empty());
    } else {
        let e = entries[0];
        let rest = entries.drop_first();
        lemma_payload_from_front(entries);
        assert(entry_reads_back(e));
        let bytes = entry_bytes(e);
        let sp = pos + e.mode.len();
        let nul = sp + 1 + e.name.len();
        assert(bytes.len() == e.mode.len() + e.name.len() + 22);
        assert(tail.len() == bytes.len() + tree_payload(rest).len());
        assert forall|j: int| 0 <= j < bytes.len() implies payload[pos + j] == bytes[j] by {
            assert(tail[j] == bytes[j]);
        }
        assert forall|j: int| pos <= j < sp implies payload[j] != 0x20u8 by {
            assert(payload[j] == bytes[j - pos]);
            assert(bytes[j - pos] == e.mode[j - pos]);
        }
        assert(payload[sp] == 0x20u8) by {
            assert(payload[sp] == bytes[sp - pos]);
        }
        assert forall|j: int| sp + 1 <= j < nul implies payload[j] != 0u8 by {
            assert(payload[j] == bytes[j - pos]);
            assert(bytes[j - pos] == e.name[j - sp - 1]);
        }
        assert(payload[nul] == 0u8) by {
            assert(payload[nul] == bytes[nul - pos]);
        }
        lemma_find_byte_is(payload, 0x20u8, pos, sp);
        lemma_find_byte_is(payload, 0u8, sp + 1, nul);
        assert(payload.subrange(pos, sp) =~= e.mode) by {
            assert forall|j: int| 0 <= j < e.mode.len() implies payload[pos + j] == e.mode[j] by {
                assert(bytes[j] == e.mode[j]);
            }
        }
        assert(payload.subrange(sp + 1, nul) =~= e.name) by {
            assert forall|j: int| 0 <= j < e.name.len() implies payload[sp + 1 + j] == e.name[j] by {
                assert(bytes[sp + 1 + j - pos] == e.name[j]);
            }
        }
        assert(payload.subrange(nul + 1, nul + 21) =~= e.id) by {
            assert forall|j: int| 0 <= j < 20 implies payload[nul + 1 + j] == e.id[j] by {
                assert(bytes[nul + 1 + j - pos] == e.id[j]);
            }
        }
        assert(payload.subrange(nul + 21, payload.len() as int) =~= tree_payload(rest)) by {
            assert forall|j: int| 0 <= j < tree_payload(rest).len() implies payload[nul + 21 + j]
                == tree_payload(rest)[j] by {
                assert(tail[bytes.len() + j] == tree_payload(rest)[j]);
            }
        }
        assert forall|i: int| 0 <= i < rest.len() implies entry_reads_back(#[trigger] rest[i]) by {
            assert(rest[i] == entries[i + 1]);
        }
        lemma_parse_from(payload, nul + 21, rest);
        assert(seq![e] + rest =~= entries);
    }
}

/// A tree payload reads back into the entries that it was written from,
/// where each of them can be read back.
pub proof fn lemma_tree_round_trip(entries: Seq<EntryModel>)
    requires
        forall|i: int| 0 <= i < entries.len() ==> entry_reads_back(#[trigger] entries[i]),
    ensures
        parsed_entries(tree_payload(entries), 0) == Some(entries),
{
    let payload = tree_payload(entries);
    assert(payload.subrange(0, payload.len() as int) =~= payload);
    lemma_parse_from(payload, 0, entries);
}

/// The names of a list of entries, in order.
pub open spec fn entry_names(entries: Seq<EntryModel>) -> Seq<Seq<u8>> {
    entries.map_values(|e: EntryModel| e.name)
}

/// What listing the tree object `id` gives: the names of its entries in the
/// order in which they are stored.
pub open spec fn listed_names(store: Map<Location, Seq<u8>>, id: Seq<char>) -> Result<
    Seq<Seq<u8>>,
    StoreError,
> {
    match read_result(store, id) {
        Err(e) => Err(e),
        Ok((_kind, payload)) => match parsed_entries(payload, 0) {
            None => Err(StoreError::CorruptObject),
            Some(entries) => Ok(entry_names(entries)),
        },
    }
}

/// A list of names, each as plain bytes.
pub open spec fn name_models(names: Seq<Vec<u8>>) -> Seq<Seq<u8>> {
    names.map_values(|n: Vec<u8>| n@)
}

/// Lists the names in the tree object that `id` names. Fails as reading the
/// object does, and with `CorruptObject` where its payload is no list of
/// entries.
pub fn ls_tree(store: &ObjectStore, id: &str) -> (r: Result<Vec<Vec<u8>>, StoreError>)
    ensures
        match r {
            Ok(names) => listed_names(store@, id@) == Ok::<Seq<Seq<u8>>, StoreError>(
                name_models(names@),
            ),
            Err(e) => listed_names(store@, id@) == Err::<Seq<Seq<u8>>, StoreError>(e),
        },
{
    let (_kind, payload) = match read_object(store, id) {
        Ok(object) => object,
        Err(e) => {
            return Err(e);
        },
    };
    let entries = match parse_tree(&payload) {
        Ok(entries) => entries,
        Err(e) => {
            return Err(e);
        },
    };
    let ghost models = entry_models(entries@);
    let mut names: Vec<Vec<u8>> = Vec::new();
    let mut i: usize = 0;
    while i < entries.len()
        invariant
            i <= entries.len(),
            models == entry_models(entries@),
            name_models(names@) == entry_names(models.take(i as int)),
        decreases entries.len() - i,
    {
        let name = copy_bytes(&entries[i].name);
        proof {
            assert(name_models(names@.push(name)) =~= name_models(names@).push(name@));
            assert(entry_names(models.take(i + 1)) =~= entry_names(models.take(i as int)).push(
                models[i as int].name,
            ));
        }
        names.push(name);
        i += 1;
    }
    assert(models.take(i as int) =~= models);
    Ok(names)
}

} // verus!
