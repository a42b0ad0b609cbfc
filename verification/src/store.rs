use vstd::prelude::*;
use crate::codec::{compress, decompress, zlib_compressed, zlib_decompressed};
use crate::error::StoreError;
use crate::hash::is_id_text;
use crate::frame::{frame, framed_kind, framed_payload, gen_objects, header_end, is_kind_word};
use crate::frame::{lemma_frame_parses, object_id, parse_header, well_framed};
use crate::scan::{copy_range, lemma_find_byte, same_bytes};

verus! {

/// Where a record lies: the shard directory and the file's name in it.
pub type Location = (Seq<char>, Seq<char>);

/// The location that an id names: its first two characters are the shard,
/// the rest is the file's name. A shorter id is all shard.
pub open spec fn location(id: Seq<char>) -> Location {
    if id.len() <= 2 {
        (id, Seq::<char>::empty())
    } else {
        (id.take(2), id.skip(2))
    }
}

/// One compressed record and its location.
pub struct StoredRecord {
    pub shard: String,
    pub file: String,
    pub data: Vec<u8>,
}

impl StoredRecord {
    /// The location of this record.
    pub open spec fn key(&self) -> Location {
        (self.shard@, self.file@)
    }
}

/// What a log of writes holds: at each location, the record written there
/// last.
pub open spec fn records_map(log: Seq<StoredRecord>) -> Map<Location, Seq<u8>>
    decreases log.len(),
{
    if log.len() == 0 {
        Map::empty()
    } else {
        records_map(log.drop_last()).insert(log.last().key(), log.last().data@)
    }
}

/// A location at which nothing later in the log matches is held by the log
/// exactly where some record matches, with the bytes of the last match.
proof fn lemma_records_map(log: Seq<StoredRecord>, key: Location, i: int)
    requires
        -1 <= i < log.len(),
        forall|j: int| i < j < log.len() ==> log[j].key() != key,
        i >= 0 ==> log[i].key() == key,
    ensures
        records_map(log).contains_key(key) <==> i >= 0,
        i >= 0 ==> records_map(log)[key] == log[i].data@,
    decreases log.len(),
{
    if log.len() > 0 && i < log.len() - 1 {
        lemma_records_map(log.drop_last(), key, i);
    }
}

/// An object store in memory: compressed records by location.
pub struct ObjectStore {
    records: Vec<StoredRecord>,
}

impl View for ObjectStore {
    type V = Map<Location, Seq<u8>>;

    closed spec fn view(&self) -> Map<Location, Seq<u8>> {
        records_map(self.records@)
    }
}

/// Splits an id into shard and file name.
pub fn locate(id: &str) -> (r: (String, String))
    ensures
        (r.0@, r.1@) == location(id@),
{
    let n = id.unicode_len();
    if n <= 2 {
        (id.to_owned(), String::new())
    } else {
        (id.substring_char(0, 2).to_owned(), id.substring_char(2, n).to_owned())
    }
}

impl ObjectStore {
    /// A store that holds nothing.
    pub fn new() -> (store: ObjectStore)
        ensures
            store@ == Map::<Location, Seq<u8>>::empty(),
    {
        ObjectStore { records: Vec::new() }
    }

    /// The index of the record written last at a location.
    fn find(&self, shard: &String, file: &String) -> (r: Option<usize>)
        ensures
            r is Some <==> self@.contains_key((shard@, file@)),
            r matches Some(i) ==> i < self.records@.len() && self.records@[i as int].data@
                == self@[(shard@, file@)],
    {
        let mut i: usize = self.records.len();
        while i > 0
            invariant
                i <= self.records@.len(),
                forall|j: int| i <= j < self.records@.len() ==> self.records@[j].key() != (shard@, file@),
            decreases i,
        {
            i -= 1;
            if self.records[i].shard == *shard && self.records[i].file == *file {
                proof {
                    lemma_records_map(self.records@, (shard@, file@), i as int);
                }
                return Some(i);
            }
        }
        proof {
            lemma_records_map(self.records@, (shard@, file@), -1);
        }
        None
    }

    /// Writes a record at a location, in place of what was there.
    pub fn insert(&mut self, shard: String, file: String, data: Vec<u8>)
        ensures
            final(self)@ == old(self)@.insert((shard@, file@), data@),
    {
        match self.find(&shard, &file) {
            Some(i) => {
                if same_bytes(&self.records[i].data, &data) {
                    assert(old(self)@.insert((shard@, file@), data@) =~= old(self)@);
                    return ;
                }
            },
            None => {},
        }
        let ghost before = self.records@;
        self.records.push(StoredRecord { shard, file, data });
        assert(self.records@.drop_last() =~= before);
    }

    /// The record at a location, where there is one.
    pub fn lookup(&self, shard: &String, file: &String) -> (r: Option<&Vec<u8>>)
        ensures
            r is Some <==> self@.contains_key((shard@, file@)),
            r matches Some(data) ==> data@ == self@[(shard@, file@)],
    {
        match self.find(shard, file) {
            Some(i) => Some(&self.records[i].data),
            None => None,
        }
    }

    /// The number of writes that the store keeps.
    pub fn len(&self) -> (n: usize)
        ensures
            n == self.log().len(),
    {
        self.records.len()
    }

    /// The writes that the store keeps, oldest first. A location's record is
    /// the last one written there.
    pub closed spec fn log(&self) -> Seq<StoredRecord> {
        self.records@
    }

    /// The store holds what its log of writes holds.
    pub proof fn lemma_view_is_log(&self)
        ensures
            self@ == records_map(self.log()),
    {
    }

    /// One of the writes that the store keeps.
    pub fn record(&self, i: usize) -> (r: &StoredRecord)
        requires
            i < self.log().len(),
        ensures
            *r == self.log()[i as int],
    {
        &self.records[i]
    }
}

/// Compresses a frame and writes it where `hash` names, in place of what was
/// there. Fails with `Io`, and leaves the store as it was, exactly where the
/// compressor fails.
pub fn write_obj(store: &mut ObjectStore, hash: String, obj_content: &Vec<u8>) -> (r: Result<
    (),
    StoreError,
>)
    ensures
        r is Ok <==> zlib_compressed(obj_content@) is Some,
        r is Ok ==> final(store)@ == old(store)@.insert(
            location(hash@),
            zlib_compressed(obj_content@)->0,
        ) && zlib_decompressed(final(store)@[location(hash@)]) == Some(obj_content@),
        r matches Err(e) ==> e == StoreError::Io && final(store)@ == old(store)@,
{
    match compress(obj_content) {
        Some(record) => {
            let (shard, file) = locate(hash.as_str());
            store.insert(shard, file, record);
            Ok(())
        },
        None => Err(StoreError::Io),
    }
}

/// The frame stored under an id: `NotFound` where nothing lies at the id's
/// location, `CorruptObject` where the record there does not decompress.
pub open spec fn stored_frame(store: Map<Location, Seq<u8>>, id: Seq<char>) -> Result<
    Seq<u8>,
    StoreError,
> {
    if !store.contains_key(location(id)) {
        Err(StoreError::NotFound)
    } else {
        match zlib_decompressed(store[location(id)]) {
            Some(framed) => Ok(framed),
            None => Err(StoreError::CorruptObject),
        }
    }
}

/// Fetches and decompresses the record that `id` names exactly.
pub fn read_frame(store: &ObjectStore, id: &str) -> (r: Result<Vec<u8>, StoreError>)
    ensures
        match r {
            Ok(framed) => stored_frame(store@, id@) == Ok::<Seq<u8>, StoreError>(framed@),
            Err(e) => stored_frame(store@, id@) == Err::<Seq<u8>, StoreError>(e),
        },
{
    let (shard, file) = locate(id);
    match store.lookup(&shard, &file) {
        None => Err(StoreError::NotFound),
        Some(record) => match decompress(record) {
            Some(framed) => Ok(framed),
            None => Err(StoreError::CorruptObject),
        },
    }
}

/// What a frame parses into: its kind and payload, or `CorruptObject` where
/// it is not well framed.
pub open spec fn parsed_frame(framed: Seq<u8>) -> Result<(Seq<char>, Seq<u8>), StoreError> {
    if well_framed(framed) {
        Ok((framed_kind(framed), framed_payload(framed)))
    } else {
        Err(StoreError::CorruptObject)
    }
}

/// What reading an id from a store gives.
pub open spec fn read_result(store: Map<Location, Seq<u8>>, id: Seq<char>) -> Result<
    (Seq<char>, Seq<u8>),
    StoreError,
> {
    match stored_frame(store, id) {
        Ok(framed) => parsed_frame(framed),
        Err(e) => Err(e),
    }
}

/// Parses a frame into its kind and payload.
pub fn split_frame(framed: &Vec<u8>) -> (r: Result<(String, Vec<u8>), StoreError>)
    ensures
        match r {
            Ok((kind, payload)) => parsed_frame(framed@) == Ok::<(Seq<char>, Seq<u8>), StoreError>(
                (kind@, payload@),
            ),
            Err(e) => parsed_frame(framed@) == Err::<(Seq<char>, Seq<u8>), StoreError>(e),
        },
{
    match parse_header(framed) {
        Ok((kind, _declared, start)) => {
            let payload = copy_range(framed, start, framed.len());
            Ok((kind, payload))
        },
        Err(e) => Err(e),
    }
}

/// Reads the object that `id` names: its kind and payload. Fails with
/// `NotFound` where the store has nothing at the id's location, and with
/// `CorruptObject` where the record does not decompress or is not well framed.
pub fn read_object(store: &ObjectStore, id: &str) -> (r: Result<(String, Vec<u8>), StoreError>)
    ensures
        match r {
            Ok((kind, payload)) => read_result(store@, id@) == Ok::<
                (Seq<char>, Seq<u8>),
                StoreError,
            >((kind@, payload@)),
            Err(e) => read_result(store@, id@) == Err::<(Seq<char>, Seq<u8>), StoreError>(e),
        },
{
    match read_frame(store, id) {
        Ok(framed) => split_frame(&framed),
        Err(e) => Err(e),
    }
}

/// Frames, hashes and stores `content` as an object of kind `kind`, and
/// returns its id. Fails with `Io`, and leaves the store as it was, exactly
/// where the compressor fails. The id depends on the kind and the content
/// alone; and an object of a kind that is a word reads back from the store
/// as it went in.
pub fn add_object(store: &mut ObjectStore, kind: String, content: &Vec<u8>) -> (r: Result<
    String,
    StoreError,
>)
    ensures
        r is Ok <==> zlib_compressed(frame(kind@, content@)) is Some,
        r matches Ok(id) ==> {
            &&& id@ == object_id(kind@, content@)
            &&& is_id_text(id@)
            &&& final(store)@ == old(store)@.insert(
                location(id@),
                zlib_compressed(frame(kind@, content@))->0,
            )
            &&& stored_frame(final(store)@, id@) == Ok::<Seq<u8>, StoreError>(
                frame(kind@, content@),
            )
            &&& is_kind_word(kind@) ==> read_result(final(store)@, id@) == Ok::<
                (Seq<char>, Seq<u8>),
                StoreError,
            >((kind@, content@))
        },
        r matches Err(e) ==> e == StoreError::Io && final(store)@ == old(store)@,
{
    let ghost kind_text = kind@;
    let (id, framed) = gen_objects(kind, content);
    match write_obj(store, id.clone(), &framed) {
        Ok(()) => {
            proof {
                if is_kind_word(kind_text) {
                    lemma_frame_parses(kind_text, content@);
                }
            }
            Ok(id)
        },
        Err(e) => Err(e),
    }
}

/// Nothing reads from an empty store: every id is `NotFound`.
pub proof fn lemma_empty_store_has_nothing(id: Seq<char>)
    ensures
        read_result(Map::<Location, Seq<u8>>::empty(), id) == Err::<
            (Seq<char>, Seq<u8>),
            StoreError,
        >(StoreError::NotFound),
{
}

/// A record whose decompressed bytes hold no NUL reads as `CorruptObject`.
pub proof fn lemma_no_nul_is_corrupt(store: Map<Location, Seq<u8>>, id: Seq<char>, framed: Seq<u8>)
    requires
        store.contains_key(location(id)),
        zlib_decompressed(store[location(id)]) == Some(framed),
        forall|i: int| 0 <= i < framed.len() ==> framed[i] != 0u8,
    ensures
        read_result(store, id) == Err::<(Seq<char>, Seq<u8>), StoreError>(
            StoreError::CorruptObject,
        ),
{
    lemma_find_byte(framed, 0u8, 0);
    assert(header_end(framed) == framed.len());
}

/// A record that decompresses to the frame of an object reads back as that
/// object, whatever else the store holds.
pub proof fn lemma_stored_object_reads_back(
    store: Map<Location, Seq<u8>>,
    id: Seq<char>,
    record: Seq<u8>,
    kind: Seq<char>,
    content: Seq<u8>,
)
    requires
        is_kind_word(kind),
        zlib_decompressed(record) == Some(frame(kind, content)),
    ensures
        read_result(store.insert(location(id), record), id) == Ok::<
            (Seq<char>, Seq<u8>),
            StoreError,
        >((kind, content)),
{
    lemma_frame_parses(kind, content);
}

/// Writing the same record twice at one location leaves the store as after
/// the first write.
pub proof fn lemma_write_twice(store: Map<Location, Seq<u8>>, id: Seq<char>, record: Seq<u8>)
    ensures
        store.insert(location(id), record).insert(location(id), record) == store.insert(
            location(id),
            record,
        ),
{
    assert(store.insert(location(id), record).insert(location(id), record) =~= store.insert(
        location(id),
        record,
    ));
}

} // verus!
