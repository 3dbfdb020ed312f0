//! The two-level indexed archive format: a central key file that maps every
//! resource name to a numbered data archive and a position inside it, and the
//! extraction of a resource's bytes from that data archive.
use vstd::prelude::*;
use vstd::string::StringSliceAdditionalSpecFns;

use crate::bytes::{
    bytes_eq, nul_terminated_at, read_nul_terminated, read_range, read_u16, read_u32,
    trim_nul, trim_nul_bytes, u16_at, u32_at,
};
use crate::catalog::{extension_of, make_qualified_name, qualified_name, resource_extension};
use crate::error::Error;

verus! {

/// Number of distinct positions inside one data archive.
pub const POSITION_LIMIT: u32 = 0x100000;

/// Size in bytes of one key record in the key file.
pub const KEY_RECORD_SIZE: u64 = 22;

/// Size in bytes of one archive descriptor in the key file's file table.
pub const FILE_RECORD_SIZE: u64 = 12;

/// Offset of the first resource location record in a data archive.
pub const ARCHIVE_TABLE_START: u64 = 24;

/// Size in bytes of one resource location record in a data archive.
pub const ARCHIVE_RECORD_SIZE: u64 = 16;

/// A resource identifier: the index of its data archive in the high 12 bits
/// and its position inside that archive in the low 20 bits.
#[derive(Clone, Copy, Debug, PartialEq, Eq, Structural)]
pub struct PackedId {
    pub archive_index: u32,
    pub position: u32,
}

/// The parts of a packed identifier.
pub open spec fn unpack(id: u32) -> PackedId {
    PackedId { archive_index: (id / 0x100000) as u32, position: (id % 0x100000) as u32 }
}

impl PackedId {
    /// Both parts fit their bit fields.
    pub open spec fn wf(self) -> bool {
        self.archive_index < 0x1000 && self.position < 0x100000
    }

    /// The identifier these parts stand for.
    pub open spec fn packed(self) -> int {
        self.archive_index * 0x100000 + self.position
    }

    /// Splits a packed identifier into its archive index and position.
    pub fn decode(id: u32) -> (r: PackedId)
        ensures
            r == unpack(id),
            r.wf(),
            r.packed() == id,
    {
        PackedId { archive_index: id / POSITION_LIMIT, position: id % POSITION_LIMIT }
    }

    /// Packs the parts into one identifier, or `None` when a part does not
    /// fit its bit field.
    pub fn encode(self) -> (r: Option<u32>)
        ensures
            r is Some <==> self.wf(),
            r matches Some(v) ==> v == self.packed() && unpack(v) == self,
    {
        if self.archive_index < 0x1000 && self.position < POSITION_LIMIT {
            Some(self.archive_index * POSITION_LIMIT + self.position)
        } else {
            None
        }
    }
}

/// Every identifier is its archive index times 2^20 plus its position.
pub proof fn lemma_packed_id_parts(id: u32)
    ensures
        unpack(id).archive_index * 0x100000 + unpack(id).position == id,
        unpack(id).position < 0x100000,
{
}

/// The fixed header of the key file.
#[derive(Clone, Copy, Debug, PartialEq, Eq, Structural)]
pub struct ChitinHeader {
    pub bif_count: u32,
    pub key_count: u32,
    pub offset_filetable: u32,
    pub offset_keytable: u32,
}

/// Whether the data starts with the key file's magic `"KEY "`.
pub open spec fn key_magic_ok(d: Seq<u8>) -> bool {
    d.len() >= 4 && d[0] == 0x4B && d[1] == 0x45 && d[2] == 0x59 && d[3] == 0x20
}

/// The header fields stored at byte offset 8.
pub open spec fn chitin_header_of(d: Seq<u8>) -> ChitinHeader {
    ChitinHeader {
        bif_count: u32_at(d, 8),
        key_count: u32_at(d, 12),
        offset_filetable: u32_at(d, 16),
        offset_keytable: u32_at(d, 20),
    }
}

/// One record of the key table.
#[derive(Debug)]
pub struct KeyEntry {
    pub reference: Vec<u8>,
    pub type_id: u16,
    pub id: u32,
}

/// Byte offset of key record `idx`.
pub open spec fn key_record_pos(h: ChitinHeader, idx: int) -> int {
    h.offset_keytable + idx * 22
}

/// The on-disk name of data archive `archive_index`: the NUL-terminated
/// string that follows the name span declared by its file-table descriptor.
pub open spec fn archive_name_spec(d: Seq<u8>, h: ChitinHeader, archive_index: u32) -> Option<
    Seq<u8>,
> {
    let p = h.offset_filetable + archive_index * 12;
    if p + 10 > d.len() {
        None
    } else {
        nul_terminated_at(d, u32_at(d, p + 4) + u16_at(d, p + 8))
    }
}

/// Where a resource lives inside its data archive, and what it is.
#[derive(Clone, Copy, Debug)]
pub struct BIFResource {
    pub idx: u32,
    pub type_id: u16,
    pub resource_type: &'static str,
}

/// The lookup key of an index entry: archive file name and `name.ext`.
pub type IndexKey = (Seq<u8>, Seq<u8>);

/// The bytes of an optional type filter.
pub open spec fn filter_bytes(f: Option<&str>) -> Option<Seq<u8>> {
    match f {
        Some(t) => Some(t.spec_bytes()),
        None => None,
    }
}

/// The index and the list of skipped key records after key record `idx` has
/// been taken into account.
#[verifier::opaque]
pub open spec fn index_step(
    d: Seq<u8>,
    h: ChitinHeader,
    idx: int,
    ix: Option<u32>,
    ty: Option<Seq<u8>>,
    acc: (Map<IndexKey, BIFResource>, Seq<u32>),
) -> Result<(Map<IndexKey, BIFResource>, Seq<u32>), Error> {
    let p = key_record_pos(h, idx);
    if p + 22 > d.len() {
        Err(Error::ShortRead)
    } else {
        let reference = trim_nul(d.subrange(p, p + 16));
        let type_id = u16_at(d, p + 16);
        let id = u32_at(d, p + 18);
        let ai = unpack(id).archive_index;
        match extension_of(type_id) {
            None => Ok((acc.0, acc.1.push(idx as u32))),
            Some(ext) => {
                if (ix matches Some(f) && ai != f) || (ty matches Some(t) && ext.spec_bytes()
                    != t) {
                    Ok(acc)
                } else {
                    match archive_name_spec(d, h, ai) {
                        None => Err(Error::ShortRead),
                        Some(a) => Ok(
                            (
                                acc.0.insert(
                                    (a, qualified_name(reference, ext)),
                                    BIFResource {
                                        idx: unpack(id).position,
                                        type_id,
                                        resource_type: ext,
                                    },
                                ),
                                acc.1,
                            ),
                        ),
                    }
                }
            },
        }
    }
}

/// The index built from the first `n` key records.
pub open spec fn index_upto(
    d: Seq<u8>,
    h: ChitinHeader,
    n: nat,
    ix: Option<u32>,
    ty: Option<Seq<u8>>,
) -> Result<(Map<IndexKey, BIFResource>, Seq<u32>), Error>
    decreases n,
{
    if n == 0 {
        Ok((Map::empty(), Seq::empty()))
    } else {
        match index_upto(d, h, (n - 1) as nat, ix, ty) {
            Ok(acc) => index_step(d, h, n - 1, ix, ty, acc),
            Err(e) => Err(e),
        }
    }
}

/// The index that a key file describes, with the records that were skipped
/// because their type is not in the catalog.
pub open spec fn chitin_index(d: Seq<u8>, ix: Option<u32>, ty: Option<Seq<u8>>) -> Result<
    (Map<IndexKey, BIFResource>, Seq<u32>),
    Error,
> {
    if !key_magic_ok(d) {
        Err(Error::MissingHeader)
    } else if d.len() < 24 {
        Err(Error::ShortRead)
    } else {
        index_upto(d, chitin_header_of(d), chitin_header_of(d).key_count as nat, ix, ty)
    }
}

proof fn lemma_index_error_persists(
    d: Seq<u8>,
    h: ChitinHeader,
    n: nat,
    m: nat,
    ix: Option<u32>,
    ty: Option<Seq<u8>>,
)
    requires
        n <= m,
        index_upto(d, h, n, ix, ty) is Err,
    ensures
        index_upto(d, h, m, ix, ty) == index_upto(d, h, n, ix, ty),
    decreases m - n,
{
    if n < m {
        lemma_index_error_persists(d, h, n, (m - 1) as nat, ix, ty);
    }
}

/// Key record `idx` lies inside the data, holds packed identifier `id`
/// whose archive index names data archive `archive`, and `id` is that
/// archive index times 2^20 plus `position`.
pub open spec fn entry_from_record(
    d: Seq<u8>,
    h: ChitinHeader,
    idx: int,
    archive: Seq<u8>,
    position: u32,
) -> bool {
    let p = key_record_pos(h, idx);
    let id = u32_at(d, p + 18);
    &&& p + 22 <= d.len()
    &&& unpack(id).archive_index * 0x100000 + position == id
    &&& archive_name_spec(d, h, unpack(id).archive_index) == Some(archive)
}

/// Every entry of a parsed index comes from a key record whose packed
/// identifier is the entry's archive index times 2^20 plus the entry's
/// position, and whose archive index names the entry's data archive.
pub proof fn lemma_index_entries_unpack(
    d: Seq<u8>,
    h: ChitinHeader,
    n: nat,
    ix: Option<u32>,
    ty: Option<Seq<u8>>,
    m: Map<IndexKey, BIFResource>,
    skipped: Seq<u32>,
    key: IndexKey,
)
    requires
        index_upto(d, h, n, ix, ty) == Ok::<(Map<IndexKey, BIFResource>, Seq<u32>), Error>(
            (m, skipped),
        ),
        m.contains_key(key),
    ensures
        exists|idx: int| 0 <= idx < n && entry_from_record(d, h, idx, key.0, m[key].idx),
    decreases n,
{
    reveal(index_step);
    if n == 0 {
        assert(m == Map::<IndexKey, BIFResource>::empty());
    } else {
        let prev = index_upto(d, h, (n - 1) as nat, ix, ty);
        let (pm, ps) = prev->Ok_0;
        let idx = n - 1;
        let p = key_record_pos(h, idx);
        let id = u32_at(d, p + 18);
        if m == pm && pm.contains_key(key) {
            lemma_index_entries_unpack(d, h, (n - 1) as nat, ix, ty, pm, ps, key);
            let w = choose|w: int| 0 <= w < n - 1 && entry_from_record(d, h, w, key.0, pm[key].idx);
            assert(0 <= w < n && entry_from_record(d, h, w, key.0, m[key].idx));
        } else {
            let ext = extension_of(u16_at(d, p + 16)).unwrap();
            let a = archive_name_spec(d, h, unpack(id).archive_index).unwrap();
            let new_key = (a, qualified_name(trim_nul(d.subrange(p, p + 16)), ext));
            if key == new_key {
                lemma_packed_id_parts(id);
                assert(entry_from_record(d, h, idx, key.0, m[key].idx));
            } else {
                assert(pm.contains_key(key));
                lemma_index_entries_unpack(d, h, (n - 1) as nat, ix, ty, pm, ps, key);
                let w = choose|w: int|
                    0 <= w < n - 1 && entry_from_record(d, h, w, key.0, pm[key].idx);
                assert(0 <= w < n && entry_from_record(d, h, w, key.0, m[key].idx));
            }
        }
    }
}

/// One entry of the archive index.
#[derive(Debug)]
pub struct IndexedResource {
    pub archive: Vec<u8>,
    pub name: Vec<u8>,
    pub resource: BIFResource,
}

pub open spec fn entry_key(e: IndexedResource) -> IndexKey {
    (e.archive@, e.name@)
}

/// No two entries share a lookup key.
pub open spec fn keys_unique(s: Seq<IndexedResource>) -> bool {
    forall|i: int, j: int|
        0 <= i < s.len() && 0 <= j < s.len() && i != j ==> entry_key(s[i]) != entry_key(s[j])
}

/// The mapping that a list of entries with unique keys stands for.
pub open spec fn entries_map(s: Seq<IndexedResource>) -> Map<IndexKey, BIFResource> {
    Map::new(
        |k: IndexKey| exists|i: int| 0 <= i < s.len() && entry_key(s[i]) == k,
        |k: IndexKey| s[choose|i: int| 0 <= i < s.len() && entry_key(s[i]) == k].resource,
    )
}

proof fn lemma_entries_map_at(s: Seq<IndexedResource>, i: int)
    requires
        keys_unique(s),
        0 <= i < s.len(),
    ensures
        entries_map(s).contains_key(entry_key(s[i])),
        entries_map(s)[entry_key(s[i])] == s[i].resource,
{
    let k = entry_key(s[i]);
    assert(exists|j: int| 0 <= j < s.len() && entry_key(s[j]) == k);
    let j = choose|j: int| 0 <= j < s.len() && entry_key(s[j]) == k;
    assert(j == i);
}

proof fn lemma_entries_map_push(s: Seq<IndexedResource>, e: IndexedResource)
    requires
        keys_unique(s),
        forall|i: int| 0 <= i < s.len() ==> entry_key(s[i]) != entry_key(e),
    ensures
        keys_unique(s.push(e)),
        entries_map(s.push(e)) == entries_map(s).insert(entry_key(e), e.resource),
{
    let t = s.push(e);
    assert(keys_unique(t));
    let m = entries_map(s).insert(entry_key(e), e.resource);
    assert forall|k: IndexKey| #[trigger] entries_map(t).contains_key(k) <==> m.contains_key(k) by {
        if m.contains_key(k) && k != entry_key(e) {
            let i = choose|i: int| 0 <= i < s.len() && entry_key(s[i]) == k;
            assert(t[i] == s[i]);
        }
        if k == entry_key(e) {
            assert(t[s.len() as int] == e);
        }
    }
    assert forall|k: IndexKey| #[trigger] entries_map(t).contains_key(k) implies entries_map(t)[k]
        == m[k] by {
        let i = choose|i: int| 0 <= i < t.len() && entry_key(t[i]) == k;
        lemma_entries_map_at(t, i);
        if i < s.len() {
            assert(t[i] == s[i]);
            lemma_entries_map_at(s, i);
        }
    }
    assert(entries_map(t) =~= m);
}

proof fn lemma_entries_map_update(s: Seq<IndexedResource>, i: int, e: IndexedResource)
    requires
        keys_unique(s),
        0 <= i < s.len(),
        entry_key(s[i]) == entry_key(e),
    ensures
        keys_unique(s.update(i, e)),
        entries_map(s.update(i, e)) == entries_map(s).insert(entry_key(e), e.resource),
{
    let t = s.update(i, e);
    assert(keys_unique(t));
    let m = entries_map(s).insert(entry_key(e), e.resource);
    assert forall|k: IndexKey| #[trigger] entries_map(t).contains_key(k) <==> m.contains_key(k) by {
        if entries_map(t).contains_key(k) {
            let j = choose|j: int| 0 <= j < t.len() && entry_key(t[j]) == k;
            if j != i {
                assert(t[j] == s[j]);
            }
        }
        if m.contains_key(k) && k != entry_key(e) {
            let j = choose|j: int| 0 <= j < s.len() && entry_key(s[j]) == k;
            assert(t[j] == s[j]);
        }
        if k == entry_key(e) {
            assert(t[i] == e);
        }
    }
    assert forall|k: IndexKey| #[trigger] entries_map(t).contains_key(k) implies entries_map(t)[k]
        == m[k] by {
        let j = choose|j: int| 0 <= j < t.len() && entry_key(t[j]) == k;
        lemma_entries_map_at(t, j);
        if j != i {
            assert(t[j] == s[j]);
            lemma_entries_map_at(s, j);
        }
    }
    assert(entries_map(t) =~= m);
}

/// Position of the entry with the given key.
fn find_entry(entries: &Vec<IndexedResource>, archive: &[u8], name: &[u8]) -> (r: Option<usize>)
    ensures
        match r {
            Some(i) => i < entries@.len() && entry_key(entries@[i as int]) == (archive@, name@),
            None => forall|i: int|
                0 <= i < entries@.len() ==> entry_key(entries@[i]) != (archive@, name@),
        },
{
    let mut i: usize = 0;
    while i < entries.len()
        invariant
            i <= entries@.len(),
            forall|j: int| 0 <= j < i ==> entry_key(entries@[j]) != (archive@, name@),
        decreases entries@.len() - i,
    {
        if bytes_eq(entries[i].archive.as_slice(), archive) && bytes_eq(
            entries[i].name.as_slice(),
            name,
        ) {
            return Some(i);
        }
        i += 1;
    }
    None
}

/// Adds an entry, replacing the one with the same key if there is one.
fn insert_entry(entries: &mut Vec<IndexedResource>, e: IndexedResource)
    requires
        keys_unique(old(entries)@),
    ensures
        keys_unique(final(entries)@),
        entries_map(final(entries)@) == entries_map(old(entries)@).insert(entry_key(e), e.resource),
{
    match find_entry(entries, e.archive.as_slice(), e.name.as_slice()) {
        Some(i) => {
            proof {
                lemma_entries_map_update(entries@, i as int, e);
            }
            entries.set(i, e);
        },
        None => {
            proof {
                lemma_entries_map_push(entries@, e);
            }
            entries.push(e);
        },
    }
}

/// Reads key record `idx`, or `None` when it runs past the end.
fn read_key_entry(data: &[u8], h: &ChitinHeader, idx: u32) -> (r: Option<KeyEntry>)
    ensures
        match r {
            Some(e) => {
                let p = key_record_pos(*h, idx as int);
                &&& p + 22 <= data@.len()
                &&& e.reference@ == trim_nul(data@.subrange(p, p + 16))
                &&& e.type_id == u16_at(data@, p + 16)
                &&& e.id == u32_at(data@, p + 18)
            },
            None => key_record_pos(*h, idx as int) + 22 > data@.len(),
        },
{
    let pos: u64 = h.offset_keytable as u64 + idx as u64 * KEY_RECORD_SIZE;
    let raw = match read_range(data, pos, 16) {
        Some(raw) => raw,
        None => return None,
    };
    let type_id = match read_u16(data, pos + 16) {
        Some(t) => t,
        None => return None,
    };
    let id = match read_u32(data, pos + 18) {
        Some(v) => v,
        None => return None,
    };
    Some(KeyEntry { reference: trim_nul_bytes(raw.as_slice()), type_id, id })
}

/// Takes key record `idx` into account: skips it, filters it out or adds it
/// to the index.
fn key_record_step(
    data: &[u8],
    headers: &ChitinHeader,
    idx: u32,
    bif_ix_filter: Option<u32>,
    bif_type_filter: Option<&str>,
    bifs: &mut Vec<IndexedResource>,
    skipped: &mut Vec<u32>,
) -> (r: Result<(), Error>)
    requires
        keys_unique(old(bifs)@),
    ensures
        match index_step(
            data@,
            *headers,
            idx as int,
            bif_ix_filter,
            filter_bytes(bif_type_filter),
            (entries_map(old(bifs)@), old(skipped)@),
        ) {
            Ok((m, sk)) => r is Ok && keys_unique(final(bifs)@) && entries_map(final(bifs)@) == m
                && final(skipped)@ == sk,
            Err(e) => r == Err::<(), Error>(e),
        },
{
    reveal(index_step);
    let resource = match read_key_entry(data, headers, idx) {
        Some(e) => e,
        None => return Err(Error::ShortRead),
    };
    let packed = PackedId::decode(resource.id);
    match resource_extension(resource.type_id) {
        None => {
            skipped.push(idx);
            Ok(())
        },
        Some(resource_type) => {
            let index_ok = match bif_ix_filter {
                Some(f) => packed.archive_index == f,
                None => true,
            };
            let type_ok = match bif_type_filter {
                Some(t) => bytes_eq(resource_type.as_bytes(), t.as_bytes()),
                None => true,
            };
            if !(index_ok && type_ok) {
                return Ok(());
            }
            let archive = match read_archive_name(data, headers, packed.archive_index) {
                Some(a) => a,
                None => return Err(Error::ShortRead),
            };
            let name = make_qualified_name(resource.reference.as_slice(), resource_type);
            let entry = IndexedResource {
                archive,
                name,
                resource: BIFResource { idx: packed.position, type_id: resource.type_id, resource_type },
            };
            insert_entry(bifs, entry);
            Ok(())
        },
    }
}

/// Reads the file name of data archive `archive_index` from the file table.
fn read_archive_name(data: &[u8], h: &ChitinHeader, archive_index: u32) -> (r: Option<Vec<u8>>)
    ensures
        match r {
            Some(v) => archive_name_spec(data@, *h, archive_index) == Some(v@),
            None => archive_name_spec(data@, *h, archive_index) is None,
        },
{
    let pos: u64 = h.offset_filetable as u64 + archive_index as u64 * FILE_RECORD_SIZE;
    let total = data.len() as u64;
    if pos > total || total - pos < 10 {
        return None;
    }
    let name_offset = match read_u32(data, pos + 4) {
        Some(v) => v,
        None => return None,
    };
    let name_size = match read_u16(data, pos + 8) {
        Some(v) => v,
        None => return None,
    };
    read_nul_terminated(data, name_offset as u64 + name_size as u64)
}

/// The bytes of the resource that `res` locates inside a data archive.
pub open spec fn archive_resource(archive: Seq<u8>, res: BIFResource) -> Result<Seq<u8>, Error> {
    let p = 24 + 16 * res.idx;
    if p + 8 > archive.len() {
        Err(Error::ShortRead)
    } else {
        let off = u32_at(archive, p);
        let size = u32_at(archive, p + 4);
        if off + size > archive.len() {
            Err(Error::ShortRead)
        } else {
            Ok(archive.subrange(off as int, off + size))
        }
    }
}

/// The declared size of the resource that `res` locates inside a data archive.
pub open spec fn archive_resource_size(archive: Seq<u8>, res: BIFResource) -> u32 {
    u32_at(archive, 24 + 16 * res.idx + 4)
}

/// The index of a key file: which resource lives in which data archive.
#[derive(Debug)]
pub struct Bif {
    /// The installation directory the data archives live in.
    pub path: String,
    /// One entry per `(archive file name, name.ext)` pair.
    pub bifs: Vec<IndexedResource>,
    /// Key records skipped because their type is not in the catalog.
    pub skipped: Vec<u32>,
}

impl Bif {
    /// Entries have unique keys.
    pub open spec fn wf(&self) -> bool {
        keys_unique(self.bifs@)
    }

    /// The index as a mapping from `(archive file name, name.ext)`.
    pub open spec fn index(&self) -> Map<IndexKey, BIFResource> {
        entries_map(self.bifs@)
    }

    /// Builds the index of the key file `key_file` of the installation at
    /// `installation_path`, keeping only entries of archive `bif_ix_filter`
    /// and of extension `bif_type_filter` where those are given.
    pub fn new(
        installation_path: &str,
        key_file: &[u8],
        bif_ix_filter: Option<u32>,
        bif_type_filter: Option<&str>,
    ) -> (r: Result<Bif, Error>)
        ensures
            match chitin_index(key_file@, bif_ix_filter, filter_bytes(bif_type_filter)) {
                Ok((m, skipped)) => r matches Ok(b) && b.wf() && b.index() == m && b.skipped@
                    == skipped && b.path@ == installation_path@,
                Err(e) => r == Err::<Bif, Error>(e),
            },
    {
        let headers = match Self::validate_and_parse_chitin(key_file) {
            Ok(h) => h,
            Err(e) => return Err(e),
        };
        Self::parse_chitin_key_body(
            key_file,
            headers,
            bif_ix_filter,
            bif_type_filter,
            installation_path,
        )
    }

    /// Checks the key file's magic and reads its fixed header.
    pub fn validate_and_parse_chitin(data: &[u8]) -> (r: Result<ChitinHeader, Error>)
        ensures
            !key_magic_ok(data@) ==> r == Err::<ChitinHeader, Error>(Error::MissingHeader),
            key_magic_ok(data@) && data@.len() < 24 ==> r == Err::<ChitinHeader, Error>(
                Error::ShortRead,
            ),
            key_magic_ok(data@) && data@.len() >= 24 ==> r == Ok::<ChitinHeader, Error>(
                chitin_header_of(data@),
            ),
    {
        if data.len() < 4 || data[0] != 0x4B || data[1] != 0x45 || data[2] != 0x59 || data[3]
            != 0x20 {
            return Err(Error::MissingHeader);
        }
        if data.len() < 24 {
            return Err(Error::ShortRead);
        }
        let bif_count = read_u32(data, 8).unwrap();
        let key_count = read_u32(data, 12).unwrap();
        let offset_filetable = read_u32(data, 16).unwrap();
        let offset_keytable = read_u32(data, 20).unwrap();
        Ok(ChitinHeader { bif_count, key_count, offset_filetable, offset_keytable })
    }

    /// Reads every key record named by `headers` and builds the index.
    pub fn parse_chitin_key_body(
        data: &[u8],
        headers: ChitinHeader,
        bif_ix_filter: Option<u32>,
        bif_type_filter: Option<&str>,
        registered_path: &str,
    ) -> (r: Result<Bif, Error>)
        ensures
            match index_upto(
                data@,
                headers,
                headers.key_count as nat,
                bif_ix_filter,
                filter_bytes(bif_type_filter),
            ) {
                Ok((m, skipped)) => r matches Ok(b) && b.wf() && b.index() == m && b.skipped@
                    == skipped && b.path@ == registered_path@,
                Err(e) => r == Err::<Bif, Error>(e),
            },
    {
        let ghost ty = filter_bytes(bif_type_filter);
        let mut bifs: Vec<IndexedResource> = Vec::new();
        let mut skipped: Vec<u32> = Vec::new();
        let mut idx: u32 = 0;
        proof {
            assert(entries_map(bifs@) =~= Map::empty());
        }
        while idx < headers.key_count
            invariant
                idx <= headers.key_count,
                ty == filter_bytes(bif_type_filter),
                keys_unique(bifs@),
                index_upto(data@, headers, idx as nat, bif_ix_filter, ty) == Ok::<
                    (Map<IndexKey, BIFResource>, Seq<u32>),
                    Error,
                >((entries_map(bifs@), skipped@)),
            decreases headers.key_count - idx,
        {
            let ghost acc = (entries_map(bifs@), skipped@);
            proof {
                assert(index_upto(data@, headers, (idx + 1) as nat, bif_ix_filter, ty)
                    == index_step(data@, headers, idx as int, bif_ix_filter, ty, acc));
            }
            let step = key_record_step(
                data,
                &headers,
                idx,
                bif_ix_filter,
                bif_type_filter,
                &mut bifs,
                &mut skipped,
            );
            if let Err(e) = step {
                proof {
                    lemma_index_error_persists(
                        data@,
                        headers,
                        (idx + 1) as nat,
                        headers.key_count as nat,
                        bif_ix_filter,
                        ty,
                    );
                }
                return Err(e);
            }
            idx += 1;
        }
        Ok(Bif { path: registered_path.to_owned(), bifs, skipped })
    }

    /// The location of `resource_name` inside archive `bif_name`, if indexed.
    pub fn open_resource_file(&self, bif_name: &str, resource_name: &str) -> (r: Option<
        BIFResource,
    >)
        requires
            self.wf(),
        ensures
            r == self.index().get((bif_name.spec_bytes(), resource_name.spec_bytes())),
    {
        match find_entry(&self.bifs, bif_name.as_bytes(), resource_name.as_bytes()) {
            Some(i) => {
                proof {
                    lemma_entries_map_at(self.bifs@, i as int);
                }
                Some(self.bifs[i].resource)
            },
            None => {
                proof {
                    assert(!self.index().contains_key(
                        (bif_name.spec_bytes(), resource_name.spec_bytes()),
                    ));
                }
                None
            },
        }
    }

    /// The bytes of `resource_name` taken from `archive`, the contents of data
    /// archive `bif_name`.
    pub fn get_resource(&self, bif_name: &str, resource_name: &str, archive: &[u8]) -> (r: Result<
        Vec<u8>,
        Error,
    >)
        requires
            self.wf(),
        ensures
            match self.index().get((bif_name.spec_bytes(), resource_name.spec_bytes())) {
                None => r == Err::<Vec<u8>, Error>(Error::ResourceNotFound),
                Some(res) => match archive_resource(archive@, res) {
                    Ok(b) => r matches Ok(v) && v@ == b && v@.len() == archive_resource_size(
                        archive@,
                        res,
                    ),
                    Err(e) => r == Err::<Vec<u8>, Error>(e),
                },
            },
    {
        let resource = match self.open_resource_file(bif_name, resource_name) {
            Some(res) => res,
            None => return Err(Error::ResourceNotFound),
        };
        let pos: u64 = ARCHIVE_TABLE_START + ARCHIVE_RECORD_SIZE * resource.idx as u64;
        let offset = match read_u32(archive, pos) {
            Some(v) => v,
            None => return Err(Error::ShortRead),
        };
        let size = match read_u32(archive, pos + 4) {
            Some(v) => v,
            None => return Err(Error::ShortRead),
        };
        match read_range(archive, offset as u64, size as u64) {
            Some(bytes) => Ok(bytes),
            None => Err(Error::ShortRead),
        }
    }
}

} // verus!
