//! The self-contained resource pack format: decoding of its header, localized
//! strings, key list and resource list; lookups over its resources; loading of
//! resource bytes; and the layout recomputation and re-encoding after change.
use vstd::prelude::*;
use vstd::string::StringSliceAdditionalSpecFns;

use crate::bytes::{
    bytes_eq, copy_range, pad_nul, push_bytes, push_u32, push_zeros, read_range, read_u32, trim_nul,
    trim_nul_bytes, u32_at, u32_le, zeros,
};
use crate::catalog::{extension_of, make_qualified_name, qualified_name, resource_extension};
use crate::error::Error;

verus! {

/// Size in bytes of the magic, the version tag and the metadata block.
pub const ERF_HEADER_SIZE: u64 = 44;

/// Size in bytes of one entry of the resource list.
pub const RESOURCE_ENTRY_SIZE: u64 = 8;

/// The metadata block that follows the magic and the version tag.
#[derive(Clone, Copy, Debug, PartialEq, Eq, Structural)]
pub struct ErfMetadata {
    pub localized_string_count: u32,
    pub localized_string_size: u32,
    pub entry_count: u32,
    pub offset_to_localized_string: u32,
    pub offset_to_key_list: u32,
    pub offset_to_resource_list: u32,
    pub build_year: u32,
    pub build_day: u32,
    pub description_str_ref: u32,
}

/// Whether the data starts with the pack magic `"ERF "`.
pub open spec fn erf_magic_ok(d: Seq<u8>) -> bool {
    d.len() >= 4 && d[0] == 0x45 && d[1] == 0x52 && d[2] == 0x46 && d[3] == 0x20
}

/// The metadata block stored at byte offset 8.
pub open spec fn erf_metadata_of(d: Seq<u8>) -> ErfMetadata {
    ErfMetadata {
        localized_string_count: u32_at(d, 8),
        localized_string_size: u32_at(d, 12),
        entry_count: u32_at(d, 16),
        offset_to_localized_string: u32_at(d, 20),
        offset_to_key_list: u32_at(d, 24),
        offset_to_resource_list: u32_at(d, 28),
        build_year: u32_at(d, 32),
        build_day: u32_at(d, 36),
        description_str_ref: u32_at(d, 40),
    }
}

/// Width in bytes of a key's name field: 16 when the version tag ends in
/// `'0'` (version 1.0), 32 otherwise.
pub open spec fn key_name_width(version: Seq<u8>) -> nat {
    if version[3] == 48 {
        16
    } else {
        32
    }
}

/// A key's name field is 16 bytes wide exactly when the version tag ends in
/// `'0'` (version 1.0), and 32 bytes wide for every other version.
pub proof fn lemma_key_width_by_version(version: Seq<u8>)
    requires
        version.len() == 4,
    ensures
        key_name_width(version) == 16 <==> version[3] == 48,
        version[3] != 48 ==> key_name_width(version) == 32,
{
}

/// The width of a key's name field under `version`.
pub fn key_width(version: &[u8; 4]) -> (w: u64)
    ensures
        w == key_name_width(version@),
{
    if version[3] == 48 {
        16
    } else {
        32
    }
}

/// Size in bytes of one key record: the name field, the id and the type.
pub open spec fn key_record_size(version: Seq<u8>) -> nat {
    key_name_width(version) + 8
}

/// A localized string: a language identifier and its text.
#[derive(Debug)]
pub struct LocalizedString {
    pub language_id: u32,
    pub string: Vec<u8>,
}

/// The language identifiers and texts of a list of localized strings.
pub open spec fn strings_view(s: Seq<LocalizedString>) -> Seq<(u32, Seq<u8>)> {
    s.map_values(|x: LocalizedString| (x.language_id, x.string@))
}

/// The `n` localized strings stored from byte offset `p` on, each framed as
/// a language identifier and a length followed by that many bytes.
pub open spec fn loc_strings_from(d: Seq<u8>, p: int, n: nat) -> Option<Seq<(u32, Seq<u8>)>>
    decreases n,
{
    if n == 0 {
        Some(Seq::empty())
    } else if p < 0 || p + 8 > d.len() {
        None
    } else {
        let size = u32_at(d, p + 4);
        if p + 8 + size > d.len() {
            None
        } else {
            match loc_strings_from(d, p + 8 + size, (n - 1) as nat) {
                Some(rest) => Some(seq![(u32_at(d, p), d.subrange(p + 8, p + 8 + size))] + rest),
                None => None,
            }
        }
    }
}

impl LocalizedString {
    /// The text without its trailing NUL bytes.
    pub fn resolve_string(&self) -> (r: Vec<u8>)
        ensures
            r@ == trim_nul(self.string@),
    {
        trim_nul_bytes(self.string.as_slice())
    }
}

/// Where a resource's bytes are in the pack, and where they will be after a
/// rewrite.
#[derive(Clone, Copy, Debug, PartialEq, Eq, Structural)]
pub struct ResourceMetadata {
    pub offset: u32,
    pub size: u32,
    pub new_offset: Option<u32>,
    pub new_size: Option<u32>,
}

/// One resource of a pack: its key, its location, and its bytes once loaded
/// or replaced.
#[derive(Debug)]
pub struct ErfResource {
    pub reference: Vec<u8>,
    pub id: u32,
    pub type_id: u32,
    pub metadata: ResourceMetadata,
    pub data: Option<Vec<u8>>,
    pub new_data: Option<Vec<u8>>,
    pub is_new: bool,
}

/// The extension registered for a pack resource's 32-bit type identifier.
pub open spec fn erf_type_extension(type_id: u32) -> Option<&'static str> {
    if type_id < 0x10000 {
        extension_of(type_id as u16)
    } else {
        None
    }
}

impl ErfResource {
    /// The file extension of this resource's type.
    pub fn get_resource_type(&self) -> (r: Result<&'static str, Error>)
        ensures
            match erf_type_extension(self.type_id) {
                Some(ext) => r == Ok::<&'static str, Error>(ext),
                None => r == Err::<&'static str, Error>(Error::UnknownResourceType),
            },
    {
        if self.type_id >= 0x10000 {
            return Err(Error::UnknownResourceType);
        }
        match resource_extension(self.type_id as u16) {
            Some(ext) => Ok(ext),
            None => Err(Error::UnknownResourceType),
        }
    }
}

/// Byte offset of key record `i`.
pub open spec fn key_pos(m: ErfMetadata, version: Seq<u8>, i: int) -> int {
    m.offset_to_key_list + i * key_record_size(version)
}

/// The identifier stored in key record `i`.
pub open spec fn key_id(d: Seq<u8>, m: ErfMetadata, version: Seq<u8>, i: int) -> u32 {
    u32_at(d, key_pos(m, version, i) + key_name_width(version))
}

/// Byte offset of the resource list entry of identifier `id`.
pub open spec fn entry_pos(m: ErfMetadata, id: u32) -> int {
    m.offset_to_resource_list + id * 8
}

/// Key record `i` and the resource list entry it addresses lie inside the data.
pub open spec fn key_in_bounds(d: Seq<u8>, m: ErfMetadata, version: Seq<u8>, i: int) -> bool {
    &&& key_pos(m, version, i) + key_record_size(version) <= d.len()
    &&& entry_pos(m, key_id(d, m, version, i)) + 8 <= d.len()
}

/// `r` is what key record `i` and the resource list entry it addresses hold.
pub open spec fn decoded_resource(
    r: ErfResource,
    d: Seq<u8>,
    m: ErfMetadata,
    version: Seq<u8>,
    i: int,
) -> bool {
    let kp = key_pos(m, version, i);
    let w = key_name_width(version);
    let id = key_id(d, m, version, i);
    &&& r.reference@ == trim_nul(d.subrange(kp, kp + w))
    &&& r.id == id
    &&& r.type_id == u32_at(d, kp + w + 4)
    &&& r.metadata == ResourceMetadata {
        offset: u32_at(d, entry_pos(m, id)),
        size: u32_at(d, entry_pos(m, id) + 4),
        new_offset: None,
        new_size: None,
    }
    &&& r.data is None
    &&& r.new_data is None
    &&& !r.is_new
}

/// Everything the header declares lies inside the data.
pub open spec fn erf_body_ok(d: Seq<u8>) -> bool {
    let m = erf_metadata_of(d);
    let v = d.subrange(4, 8);
    &&& loc_strings_from(d, m.offset_to_localized_string as int, m.localized_string_count as nat)
        is Some
    &&& forall|i: int| 0 <= i < m.entry_count ==> key_in_bounds(d, m, v, i)
}

/// A decoded resource pack.
#[derive(Debug)]
pub struct Erf {
    pub version: [u8; 4],
    pub metadata: ErfMetadata,
    pub localised_strings: Vec<LocalizedString>,
    pub resources: Vec<ErfResource>,
}

impl Erf {
    /// `self` is exactly what the pack `d` holds.
    pub open spec fn decoded_from(&self, d: Seq<u8>) -> bool {
        let m = erf_metadata_of(d);
        &&& self.version@ == d.subrange(4, 8)
        &&& self.metadata == m
        &&& loc_strings_from(d, m.offset_to_localized_string as int, m.localized_string_count as nat)
            == Some(strings_view(self.localised_strings@))
        &&& self.resources@.len() == m.entry_count
        &&& forall|i: int|
            0 <= i < self.resources@.len() ==> decoded_resource(
                #[trigger] self.resources@[i],
                d,
                m,
                self.version@,
                i,
            )
    }

    /// Decodes the pack `data`.
    pub fn new(data: &[u8]) -> (r: Result<Erf, Error>)
        ensures
            !erf_magic_ok(data@) ==> r == Err::<Erf, Error>(Error::MissingHeader),
            erf_magic_ok(data@) && (data@.len() < 44 || !erf_body_ok(data@)) ==> r == Err::<
                Erf,
                Error,
            >(Error::ShortRead),
            erf_magic_ok(data@) && data@.len() >= 44 && erf_body_ok(data@) ==> (r matches Ok(
                e,
            ) && e.decoded_from(data@)),
    {
        if data.len() < 4 || data[0] != 0x45 || data[1] != 0x52 || data[2] != 0x46 || data[3]
            != 0x20 {
            return Err(Error::MissingHeader);
        }
        if (data.len() as u64) < ERF_HEADER_SIZE {
            return Err(Error::ShortRead);
        }
        let version: [u8; 4] = [data[4], data[5], data[6], data[7]];
        proof {
            assert(version@ =~= data@.subrange(4, 8));
        }
        let metadata = ErfMetadata {
            localized_string_count: read_u32(data, 8).unwrap(),
            localized_string_size: read_u32(data, 12).unwrap(),
            entry_count: read_u32(data, 16).unwrap(),
            offset_to_localized_string: read_u32(data, 20).unwrap(),
            offset_to_key_list: read_u32(data, 24).unwrap(),
            offset_to_resource_list: read_u32(data, 28).unwrap(),
            build_year: read_u32(data, 32).unwrap(),
            build_day: read_u32(data, 36).unwrap(),
            description_str_ref: read_u32(data, 40).unwrap(),
        };
        let localised_strings = match read_localized_strings(
            data,
            metadata.offset_to_localized_string as u64,
            metadata.localized_string_count,
        ) {
            Some(s) => s,
            None => return Err(Error::ShortRead),
        };
        let resources = match read_resources(data, &metadata, &version) {
            Some(r) => r,
            None => return Err(Error::ShortRead),
        };
        Ok(Erf { version, metadata, localised_strings, resources })
    }
}

/// `r` has a catalogued type whose extension is `t`.
pub open spec fn has_type(r: ErfResource, t: Seq<u8>) -> bool {
    erf_type_extension(r.type_id) matches Some(ext) && ext.spec_bytes() == t
}

/// `r` has a catalogued type and its fully qualified name is `n`.
pub open spec fn has_name(r: ErfResource, n: Seq<u8>) -> bool {
    erf_type_extension(r.type_id) matches Some(ext) && qualified_name(r.reference@, ext) == n
}

/// The identifiers of the resources of extension `t`, in list order.
pub open spec fn ids_of_type(rs: Seq<ErfResource>, t: Seq<u8>) -> Seq<u32>
    decreases rs.len(),
{
    if rs.len() == 0 {
        Seq::empty()
    } else if has_type(rs.last(), t) {
        ids_of_type(rs.drop_last(), t).push(rs.last().id)
    } else {
        ids_of_type(rs.drop_last(), t)
    }
}

/// `i` is the first position in `rs` whose resource satisfies `p`.
pub open spec fn first_with(rs: Seq<ErfResource>, i: int, p: spec_fn(ErfResource) -> bool) -> bool {
    &&& 0 <= i < rs.len()
    &&& p(rs[i])
    &&& forall|j: int| 0 <= j < i ==> !p(#[trigger] rs[j])
}

/// The resource's bytes lie inside the pack data `src`.
pub open spec fn in_source(r: ErfResource, src: Seq<u8>) -> bool {
    r.metadata.offset + r.metadata.size <= src.len()
}

/// The bytes of `r` inside the pack data `src`.
pub open spec fn source_bytes(r: ErfResource, src: Seq<u8>) -> Seq<u8> {
    src.subrange(r.metadata.offset as int, r.metadata.offset + r.metadata.size)
}

/// `new` is `old` with its bytes loaded from the pack data `src`.
pub open spec fn loaded_from(new: ErfResource, old: ErfResource, src: Seq<u8>) -> bool {
    &&& new.reference == old.reference
    &&& new.id == old.id
    &&& new.type_id == old.type_id
    &&& new.metadata == old.metadata
    &&& new.new_data == old.new_data
    &&& new.data matches Some(b) && b@ == source_bytes(old, src)
    &&& !new.is_new
}

fn has_type_exec(r: &ErfResource, t: &str) -> (b: bool)
    ensures
        b == has_type(*r, t.spec_bytes()),
{
    match r.get_resource_type() {
        Ok(ext) => bytes_eq(ext.as_bytes(), t.as_bytes()),
        Err(_) => false,
    }
}

fn has_name_exec(r: &ErfResource, n: &str) -> (b: bool)
    ensures
        b == has_name(*r, n.spec_bytes()),
{
    match r.get_resource_type() {
        Ok(ext) => {
            let name = make_qualified_name(r.reference.as_slice(), ext);
            bytes_eq(name.as_slice(), n.as_bytes())
        },
        Err(_) => false,
    }
}

impl ErfResource {
    /// The resource's bytes: those already loaded, or else those read from the
    /// pack data `source`, which are then kept.
    pub fn fetch_data(&mut self, source: &[u8]) -> (r: Result<Vec<u8>, Error>)
        ensures
            match old(self).data {
                Some(b) => r matches Ok(v) && v@ == b@ && *final(self) == *old(self),
                None => if in_source(*old(self), source@) {
                    &&& r matches Ok(v) && v@ == source_bytes(*old(self), source@)
                    &&& final(self).data matches Some(b) && b@ == source_bytes(
                        *old(self),
                        source@,
                    )
                    &&& final(self).reference == old(self).reference
                    &&& final(self).id == old(self).id
                    &&& final(self).type_id == old(self).type_id
                    &&& final(self).metadata == old(self).metadata
                    &&& final(self).new_data == old(self).new_data
                    &&& final(self).is_new == old(self).is_new
                } else {
                    r == Err::<Vec<u8>, Error>(Error::ShortRead) && *final(self) == *old(self)
                },
            },
    {
        match &self.data {
            Some(b) => {
                return Ok(copy_range(b.as_slice(), 0, b.len()));
            },
            None => {},
        }
        match read_range(source, self.metadata.offset as u64, self.metadata.size as u64) {
            Some(bytes) => {
                let kept = copy_range(bytes.as_slice(), 0, bytes.len());
                self.data = Some(kept);
                Ok(bytes)
            },
            None => Err(Error::ShortRead),
        }
    }
}

impl Erf {
    /// The identifiers of the resources whose extension is `resource_type`,
    /// in list order.
    pub fn get_resources_by_type(&self, resource_type: &str) -> (r: Vec<u32>)
        ensures
            r@ == ids_of_type(self.resources@, resource_type.spec_bytes()),
    {
        let mut out: Vec<u32> = Vec::new();
        let mut i: usize = 0;
        while i < self.resources.len()
            invariant
                i <= self.resources@.len(),
                out@ == ids_of_type(self.resources@.subrange(0, i as int), resource_type.spec_bytes()),
            decreases self.resources@.len() - i,
        {
            let ghost t = resource_type.spec_bytes();
            proof {
                let s = self.resources@.subrange(0, i + 1);
                assert(s.drop_last() =~= self.resources@.subrange(0, i as int));
                assert(s.last() == self.resources@[i as int]);
            }
            if has_type_exec(&self.resources[i], resource_type) {
                out.push(self.resources[i].id);
            }
            i += 1;
        }
        proof {
            assert(self.resources@.subrange(0, self.resources@.len() as int) =~= self.resources@);
        }
        out
    }

    /// The identifier of the first resource whose fully qualified name is
    /// `resource_name`.
    pub fn get_resource_id_by_name(&self, resource_name: &str) -> (r: Option<u32>)
        ensures
            match r {
                Some(id) => exists|i: int|
                    first_with(
                        self.resources@,
                        i,
                        |x: ErfResource| has_name(x, resource_name.spec_bytes()),
                    ) && #[trigger] self.resources@[i].id == id,
                None => forall|i: int|
                    0 <= i < self.resources@.len() ==> !has_name(
                        #[trigger] self.resources@[i],
                        resource_name.spec_bytes(),
                    ),
            },
    {
        let mut i: usize = 0;
        while i < self.resources.len()
            invariant
                i <= self.resources@.len(),
                forall|j: int|
                    0 <= j < i ==> !has_name(#[trigger] self.resources@[j], resource_name.spec_bytes()),
            decreases self.resources@.len() - i,
        {
            if has_name_exec(&self.resources[i], resource_name) {
                proof {
                    assert(first_with(
                        self.resources@,
                        i as int,
                        |x: ErfResource| has_name(x, resource_name.spec_bytes()),
                    ));
                }
                return Some(self.resources[i].id);
            }
            i += 1;
        }
        None
    }

    /// The identifier of the first resource whose extension is
    /// `resource_type`.
    pub fn get_resource_id_by_type(&self, resource_type: &str) -> (r: Option<u32>)
        ensures
            match r {
                Some(id) => exists|i: int|
                    first_with(
                        self.resources@,
                        i,
                        |x: ErfResource| has_type(x, resource_type.spec_bytes()),
                    ) && #[trigger] self.resources@[i].id == id,
                None => forall|i: int|
                    0 <= i < self.resources@.len() ==> !has_type(
                        #[trigger] self.resources@[i],
                        resource_type.spec_bytes(),
                    ),
            },
    {
        let mut i: usize = 0;
        while i < self.resources.len()
            invariant
                i <= self.resources@.len(),
                forall|j: int|
                    0 <= j < i ==> !has_type(#[trigger] self.resources@[j], resource_type.spec_bytes()),
            decreases self.resources@.len() - i,
        {
            if has_type_exec(&self.resources[i], resource_type) {
                proof {
                    assert(first_with(
                        self.resources@,
                        i as int,
                        |x: ErfResource| has_type(x, resource_type.spec_bytes()),
                    ));
                }
                return Some(self.resources[i].id);
            }
            i += 1;
        }
        None
    }

    /// The first resource whose identifier is `resource_id`.
    pub fn get_resource_by_id(&self, resource_id: u32) -> (r: Option<&ErfResource>)
        ensures
            match r {
                Some(res) => exists|i: int|
                    first_with(self.resources@, i, |x: ErfResource| x.id == resource_id)
                        && #[trigger] self.resources@[i] == *res,
                None => forall|i: int|
                    0 <= i < self.resources@.len() ==> #[trigger] self.resources@[i].id
                        != resource_id,
            },
    {
        let mut i: usize = 0;
        while i < self.resources.len()
            invariant
                i <= self.resources@.len(),
                forall|j: int| 0 <= j < i ==> #[trigger] self.resources@[j].id != resource_id,
            decreases self.resources@.len() - i,
        {
            if self.resources[i].id == resource_id {
                proof {
                    assert(first_with(self.resources@, i as int, |x: ErfResource| x.id == resource_id));
                }
                return Some(&self.resources[i]);
            }
            i += 1;
        }
        None
    }

    /// Loads every resource's bytes from the pack data `source`. Fails, and
    /// changes nothing, when some resource lies outside it.
    pub fn load_file(&mut self, source: &[u8]) -> (r: Result<(), Error>)
        ensures
            (forall|i: int|
                0 <= i < old(self).resources@.len() ==> in_source(
                    #[trigger] old(self).resources@[i],
                    source@,
                )) ==> {
                &&& r is Ok
                &&& final(self).version == old(self).version
                &&& final(self).metadata == old(self).metadata
                &&& final(self).localised_strings == old(self).localised_strings
                &&& final(self).resources@.len() == old(self).resources@.len()
                &&& forall|i: int|
                    0 <= i < old(self).resources@.len() ==> loaded_from(
                        #[trigger] final(self).resources@[i],
                        old(self).resources@[i],
                        source@,
                    )
            },
            !(forall|i: int|
                0 <= i < old(self).resources@.len() ==> in_source(
                    #[trigger] old(self).resources@[i],
                    source@,
                )) ==> r == Err::<(), Error>(Error::ShortRead) && *final(self) == *old(self),
    {
        let mut i: usize = 0;
        while i < self.resources.len()
            invariant
                i <= self.resources@.len(),
                forall|j: int| 0 <= j < i ==> in_source(#[trigger] self.resources@[j], source@),
            decreases self.resources@.len() - i,
        {
            let m = self.resources[i].metadata;
            if m.offset as u64 + m.size as u64 > source.len() as u64 {
                return Err(Error::ShortRead);
            }
            i += 1;
        }
        let ghost before = self.resources@;
        let mut i: usize = 0;
        while i < self.resources.len()
            invariant
                i <= self.resources@.len(),
                self.resources@.len() == before.len(),
                self.version == old(self).version,
                self.metadata == old(self).metadata,
                self.localised_strings == old(self).localised_strings,
                forall|j: int| 0 <= j < before.len() ==> in_source(#[trigger] before[j], source@),
                forall|j: int|
                    0 <= j < i ==> loaded_from(#[trigger] self.resources@[j], before[j], source@),
                forall|j: int| i <= j < before.len() ==> #[trigger] self.resources@[j] == before[j],
            decreases self.resources@.len() - i,
        {
            proof {
                assert(self.resources@[i as int] == before[i as int]);
                assert(in_source(before[i as int], source@));
            }
            let m = self.resources[i].metadata;
            let total: usize = source.len();
            assert(m.offset + m.size <= total);
            let bytes = copy_range(
                source,
                m.offset as usize,
                (m.offset as u64 + m.size as u64) as usize,
            );
            self.resources[i].data = Some(bytes);
            self.resources[i].is_new = false;
            proof {
                assert(loaded_from(self.resources@[i as int], before[i as int], source@));
            }
            i += 1;
        }
        Ok(())
    }

    /// Gives resource `index` replacement bytes, to be written by the next
    /// rewrite.
    pub fn replace_resource_data(&mut self, index: usize, bytes: Vec<u8>)
        requires
            index < old(self).resources@.len(),
        ensures
            final(self).version == old(self).version,
            final(self).metadata == old(self).metadata,
            final(self).localised_strings == old(self).localised_strings,
            final(self).resources@.len() == old(self).resources@.len(),
            final(self).resources@[index as int].new_data == Some(bytes),
            final(self).resources@[index as int].reference == old(self).resources@[index as int].reference,
            final(self).resources@[index as int].id == old(self).resources@[index as int].id,
            final(self).resources@[index as int].type_id == old(self).resources@[index as int].type_id,
            final(self).resources@[index as int].metadata == old(self).resources@[index as int].metadata,
            final(self).resources@[index as int].data == old(self).resources@[index as int].data,
            final(self).resources@[index as int].is_new == old(self).resources@[index as int].is_new,
            forall|j: int|
                0 <= j < old(self).resources@.len() && j != index ==> #[trigger] final(self).resources@[j]
                    == old(self).resources@[j],
    {
        self.resources[index].new_data = Some(bytes);
    }
}

/// Reads `count` localized strings starting at byte offset `start`.
fn read_localized_strings(data: &[u8], start: u64, count: u32) -> (r: Option<
    Vec<LocalizedString>,
>)
    requires
        start < 0x1_0000_0000,
    ensures
        match r {
            Some(v) => loc_strings_from(data@, start as int, count as nat) == Some(
                strings_view(v@),
            ),
            None => loc_strings_from(data@, start as int, count as nat) is None,
        },
{
    let mut out: Vec<LocalizedString> = Vec::new();
    let mut pos: u64 = start;
    let mut k: u32 = 0;
    proof {
        assert(strings_view(out@) + loc_strings_from(data@, start as int, count as nat).unwrap()
            =~= loc_strings_from(data@, start as int, count as nat).unwrap());
    }
    while k < count
        invariant
            k <= count,
            pos < 0x1_0000_0000 || pos <= data@.len(),
            loc_strings_from(data@, start as int, count as nat) == match loc_strings_from(
                data@,
                pos as int,
                (count - k) as nat,
            ) {
                Some(rest) => Some(strings_view(out@) + rest),
                None => None,
            },
        decreases count - k,
    {
        if pos > data.len() as u64 || data.len() as u64 - pos < 8 {
            return None;
        }
        let language_id = match read_u32(data, pos) {
            Some(v) => v,
            None => return None,
        };
        let size = match read_u32(data, pos + 4) {
            Some(v) => v,
            None => return None,
        };
        let string = match read_range(data, pos + 8, size as u64) {
            Some(s) => s,
            None => return None,
        };
        let ghost rest = loc_strings_from(
            data@,
            pos + 8 + size,
            (count - k - 1) as nat,
        );
        let ghost before = out@;
        out.push(LocalizedString { language_id, string });
        proof {
            assert(strings_view(out@) =~= strings_view(before).push((language_id, string@)));
            if rest is Some {
                assert(strings_view(out@) + rest.unwrap() =~= strings_view(before) + (seq![
                    (language_id, string@),
                ] + rest.unwrap()));
            }
        }
        pos = pos + 8 + size as u64;
        k += 1;
    }
    proof {
        assert(strings_view(out@) + Seq::<(u32, Seq<u8>)>::empty() =~= strings_view(out@));
    }
    Some(out)
}

/// Reads the key record `i` and the resource list entry it addresses.
fn read_resource(data: &[u8], m: &ErfMetadata, version: &[u8; 4], i: u32) -> (r: Option<
    ErfResource,
>)
    ensures
        match r {
            Some(res) => key_in_bounds(data@, *m, version@, i as int) && decoded_resource(
                res,
                data@,
                *m,
                version@,
                i as int,
            ),
            None => !key_in_bounds(data@, *m, version@, i as int),
        },
{
    let width = key_width(version);
    assert(i as u64 * (width + 8) <= 0xFFFF_FFFFu64 * 40) by (nonlinear_arith)
        requires
            width + 8 <= 40,
            i <= 0xFFFF_FFFFu32,
    ;
    let kp: u64 = m.offset_to_key_list as u64 + i as u64 * (width + 8);
    let total = data.len() as u64;
    if kp > total || total - kp < width + 8 {
        return None;
    }
    let raw = match read_range(data, kp, width) {
        Some(raw) => raw,
        None => return None,
    };
    let id = match read_u32(data, kp + width) {
        Some(v) => v,
        None => return None,
    };
    let type_id = match read_u32(data, kp + width + 4) {
        Some(v) => v,
        None => return None,
    };
    let ep: u64 = m.offset_to_resource_list as u64 + id as u64 * RESOURCE_ENTRY_SIZE;
    let offset = match read_u32(data, ep) {
        Some(v) => v,
        None => return None,
    };
    let size = match read_u32(data, ep + 4) {
        Some(v) => v,
        None => return None,
    };
    Some(
        ErfResource {
            reference: trim_nul_bytes(raw.as_slice()),
            id,
            type_id,
            metadata: ResourceMetadata { offset, size, new_offset: None, new_size: None },
            data: None,
            new_data: None,
            is_new: false,
        },
    )
}

/// Reads every key record that the metadata declares.
fn read_resources(data: &[u8], m: &ErfMetadata, version: &[u8; 4]) -> (r: Option<
    Vec<ErfResource>,
>)
    ensures
        match r {
            Some(v) => {
                &&& v@.len() == m.entry_count
                &&& forall|i: int|
                    0 <= i < v@.len() ==> #[trigger] key_in_bounds(data@, *m, version@, i)
                &&& forall|i: int|
                    0 <= i < v@.len() ==> decoded_resource(
                        #[trigger] v@[i],
                        data@,
                        *m,
                        version@,
                        i,
                    )
            },
            None => exists|i: int|
                0 <= i < m.entry_count && !key_in_bounds(data@, *m, version@, i),
        },
{
    let mut out: Vec<ErfResource> = Vec::new();
    let mut i: u32 = 0;
    while i < m.entry_count
        invariant
            i <= m.entry_count,
            out@.len() == i,
            forall|j: int| 0 <= j < i ==> #[trigger] key_in_bounds(data@, *m, version@, j),
            forall|j: int|
                0 <= j < i ==> decoded_resource(
                    #[trigger] out@[j],
                    data@,
                    *m,
                    version@,
                    j,
                ),
        decreases m.entry_count - i,
    {
        match read_resource(data, m, version, i) {
            Some(res) => {
                out.push(res);
                assert(decoded_resource(out@[i as int], data@, *m, version@, i as int));
            },
            None => return None,
        }
        i += 1;
    }
    Some(out)
}


/// The number of bytes a resource occupies after a rewrite: its replacement
/// bytes, else its loaded bytes, else its declared size.
pub open spec fn pending_size(r: ErfResource) -> nat {
    match r.new_data {
        Some(b) => b@.len(),
        None => match r.data {
            Some(b) => b@.len(),
            None => r.metadata.size as nat,
        },
    }
}

/// Size of the localized string block: each string's 8 framing bytes and
/// its text.
pub open spec fn strings_size(s: Seq<LocalizedString>) -> nat
    decreases s.len(),
{
    if s.len() == 0 {
        0
    } else {
        strings_size(s.drop_last()) + 8 + s.last().string@.len()
    }
}

/// Total pending size of a list of resources.
pub open spec fn sizes_sum(rs: Seq<ErfResource>) -> nat
    decreases rs.len(),
{
    if rs.len() == 0 {
        0
    } else {
        sizes_sum(rs.drop_last()) + pending_size(rs.last())
    }
}

/// Where the key list starts after a rewrite.
pub open spec fn key_list_offset(e: Erf) -> int {
    e.metadata.offset_to_localized_string + strings_size(e.localised_strings@)
}

/// Where the resource list starts after a rewrite.
pub open spec fn resource_list_offset(e: Erf) -> int {
    key_list_offset(e) + e.resources@.len() * key_record_size(e.version@)
}

/// Where the resource bytes start after a rewrite.
pub open spec fn data_offset(e: Erf) -> int {
    resource_list_offset(e) + e.resources@.len() * 8
}

/// Where resource `i` starts after a rewrite.
pub open spec fn layout_offset(e: Erf, i: int) -> int {
    data_offset(e) + sizes_sum(e.resources@.subrange(0, i))
}

/// Where the rewritten pack ends.
pub open spec fn layout_end(e: Erf) -> int {
    data_offset(e) + sizes_sum(e.resources@)
}

/// Every offset of the rewritten pack fits the format's 32-bit fields.
pub open spec fn layout_fits(e: Erf) -> bool {
    layout_end(e) <= 0xFFFF_FFFF
}

/// The metadata block that a rewrite of `e` declares.
pub open spec fn recomputed_metadata(e: Erf) -> ErfMetadata {
    ErfMetadata {
        localized_string_count: e.localised_strings@.len() as u32,
        localized_string_size: strings_size(e.localised_strings@) as u32,
        entry_count: e.resources@.len() as u32,
        offset_to_key_list: key_list_offset(e) as u32,
        offset_to_resource_list: resource_list_offset(e) as u32,
        ..e.metadata
    }
}

/// `new` is `old` with the layout of a rewrite stamped on it.
pub open spec fn restamped(new: ErfResource, old: ErfResource, offset: int) -> bool {
    &&& new.reference == old.reference
    &&& new.id == old.id
    &&& new.type_id == old.type_id
    &&& new.metadata.offset == old.metadata.offset
    &&& new.metadata.size == old.metadata.size
    &&& new.metadata.new_offset == Some(offset as u32)
    &&& new.metadata.new_size == Some(pending_size(old) as u32)
    &&& new.data == old.data
    &&& new.new_data == old.new_data
    &&& new.is_new == old.is_new
}

/// `new` is `old` after the layout recomputation of a rewrite.
pub open spec fn recomputed(new: Erf, old: Erf) -> bool {
    &&& new.metadata == recomputed_metadata(old)
    &&& relaid(new, old)
}

/// `new` holds the resources of `old`, each with its rewritten position
/// stamped on it.
pub open spec fn relaid(new: Erf, old: Erf) -> bool {
    &&& new.version == old.version
    &&& new.localised_strings == old.localised_strings
    &&& new.resources@.len() == old.resources@.len()
    &&& forall|i: int|
        0 <= i < old.resources@.len() ==> restamped(
            #[trigger] new.resources@[i],
            old.resources@[i],
            layout_offset(old, i),
        )
}

/// The localized string block is at least as large as any one string and
/// its framing.
pub proof fn lemma_strings_size_ge_elem(s: Seq<LocalizedString>, i: int)
    requires
        0 <= i < s.len(),
    ensures
        strings_size(s) >= 8 + s[i].string@.len(),
    decreases s.len(),
{
    if i < s.len() - 1 {
        lemma_strings_size_ge_elem(s.drop_last(), i);
    }
}

/// The localized string block takes at least 8 bytes per string.
pub proof fn lemma_strings_size_ge(s: Seq<LocalizedString>)
    ensures
        strings_size(s) >= 8 * s.len(),
    decreases s.len(),
{
    if s.len() > 0 {
        lemma_strings_size_ge(s.drop_last());
    }
}

/// A longer prefix of the resources takes at least as many bytes.
pub proof fn lemma_sizes_sum_mono(rs: Seq<ErfResource>, i: int, j: int)
    requires
        0 <= i <= j <= rs.len(),
    ensures
        sizes_sum(rs.subrange(0, i)) <= sizes_sum(rs.subrange(0, j)),
    decreases j - i,
{
    if i < j {
        assert(rs.subrange(0, j).drop_last() =~= rs.subrange(0, j - 1));
        lemma_sizes_sum_mono(rs, i, j - 1);
    }
}

/// A resource's pending size adds to the sum of those before it.
pub proof fn lemma_sizes_sum_step(rs: Seq<ErfResource>, i: int)
    requires
        0 <= i < rs.len(),
    ensures
        sizes_sum(rs.subrange(0, i + 1)) == sizes_sum(rs.subrange(0, i)) + pending_size(rs[i]),
{
    assert(rs.subrange(0, i + 1).drop_last() =~= rs.subrange(0, i));
}

/// A string's framing and text add to the size of those before it.
pub proof fn lemma_strings_size_step(s: Seq<LocalizedString>, i: int)
    requires
        0 <= i < s.len(),
    ensures
        strings_size(s.subrange(0, i + 1)) == strings_size(s.subrange(0, i)) + 8
            + s[i].string@.len(),
{
    assert(s.subrange(0, i + 1).drop_last() =~= s.subrange(0, i));
}

fn pending_size_exec(r: &ErfResource) -> (n: u64)
    ensures
        n == pending_size(*r),
{
    match &r.new_data {
        Some(b) => b.len() as u64,
        None => match &r.data {
            Some(b) => b.len() as u64,
            None => r.metadata.size as u64,
        },
    }
}

impl Erf {
    /// Recomputes every count, size and offset of the header and every
    /// resource's position for a rewrite, keeping the resources in order.
    /// Fails, and changes nothing, when the layout does not fit 32-bit
    /// offsets.
    pub fn recalculate_sizing(&mut self) -> (r: Result<(), Error>)
        ensures
            layout_fits(*old(self)) ==> r is Ok && recomputed(*final(self), *old(self)),
            !layout_fits(*old(self)) ==> r == Err::<(), Error>(Error::InvalidLayout)
                && *final(self) == *old(self),
    {
        let ghost e = *self;
        let limit: u64 = 0xFFFF_FFFF;
        let mut total: u64 = self.metadata.offset_to_localized_string as u64;
        let mut i: usize = 0;
        proof {
            assert(self.localised_strings@.subrange(0, 0) =~= Seq::<LocalizedString>::empty());
        }
        while i < self.localised_strings.len()
            invariant
                *self == e,
                i <= self.localised_strings@.len(),
                total == e.metadata.offset_to_localized_string + strings_size(
                    self.localised_strings@.subrange(0, i as int),
                ),
                total <= limit,
                limit == 0xFFFF_FFFF,
            decreases self.localised_strings@.len() - i,
        {
            proof {
                lemma_strings_size_step(self.localised_strings@, i as int);
            }
            let len = self.localised_strings[i].string.len();
            if len as u64 > limit - total || limit - total - (len as u64) < 8 {
                proof {
                    self.lemma_layout_bound_strings((i + 1) as int);
                    assert(strings_size(self.localised_strings@.subrange(0, i + 1)) == strings_size(
                        self.localised_strings@.subrange(0, i as int),
                    ) + 8 + len);
                    assert(layout_end(e) >= e.metadata.offset_to_localized_string + strings_size(
                        self.localised_strings@.subrange(0, i + 1),
                    ));
                    assert(layout_end(e) > 0xFFFF_FFFF);
                }
                return Err(Error::InvalidLayout);
            }
            total = total + 8 + len as u64;
            i += 1;
        }
        proof {
            assert(self.localised_strings@.subrange(0, i as int) =~= self.localised_strings@);
            self.lemma_layout_bound_strings(self.localised_strings@.len() as int);
        }
        let key_list = total;
        let n = self.resources.len();
        let width = key_width(&self.version);
        proof {
            lemma_strings_size_ge(self.localised_strings@);
            if n <= limit {
                assert(n * (width + 16) <= 0xFFFF_FFFF * 48) by (nonlinear_arith)
                    requires
                        n <= 0xFFFF_FFFF,
                        width + 16 <= 48,
                ;
            }
        }
        if n as u64 > limit || (n as u64) * (width + 16) > limit - total {
            proof {
                lemma_sizes_sum_mono(self.resources@, 0, 0);
                assert(self.resources@.subrange(0, 0) =~= Seq::<ErfResource>::empty());
                assert(n * (width + 16) > limit - total ==> layout_end(e) > limit) by (nonlinear_arith)
                    requires
                        layout_end(e) >= total + n * (width + 16),
                ;
                assert(n > limit ==> n * (width + 16) > limit) by (nonlinear_arith)
                    requires
                        width + 16 >= 1,
                ;
            }
            return Err(Error::InvalidLayout);
        }
        proof {
            assert(n * (width + 8) <= n * (width + 16)) by (nonlinear_arith);
            assert(n * (width + 8) + n * 8 == n * (width + 16)) by (nonlinear_arith);
            assert(width == key_name_width(e.version@));
        }
        let resource_list = key_list + (n as u64) * (width + 8);
        let data_start = resource_list + (n as u64) * 8;
        total = data_start;
        let mut i: usize = 0;
        proof {
            assert(self.resources@.subrange(0, 0) =~= Seq::<ErfResource>::empty());
        }
        while i < self.resources.len()
            invariant
                *self == e,
                i <= self.resources@.len(),
                data_start == data_offset(e),
                total == layout_offset(e, i as int),
                total <= limit,
                limit == 0xFFFF_FFFF,
            decreases self.resources@.len() - i,
        {
            proof {
                lemma_sizes_sum_step(self.resources@, i as int);
                lemma_sizes_sum_mono(self.resources@, i + 1, self.resources@.len() as int);
                assert(self.resources@.subrange(0, self.resources@.len() as int) =~= self.resources@);
            }
            let size = pending_size_exec(&self.resources[i]);
            if size > limit - total {
                proof {
                    assert(sizes_sum(e.resources@.subrange(0, i + 1)) == sizes_sum(
                        e.resources@.subrange(0, i as int),
                    ) + size);
                    assert(sizes_sum(e.resources@.subrange(0, i + 1)) <= sizes_sum(e.resources@));
                    assert(layout_end(e) > 0xFFFF_FFFF);
                }
                return Err(Error::InvalidLayout);
            }
            total = total + size;
            i += 1;
        }
        proof {
            assert(self.resources@.subrange(0, i as int) =~= self.resources@);
        }
        self.metadata.localized_string_count = self.localised_strings.len() as u32;
        self.metadata.localized_string_size = (key_list - self.metadata.offset_to_localized_string as u64) as u32;
        self.metadata.entry_count = n as u32;
        self.metadata.offset_to_key_list = key_list as u32;
        self.metadata.offset_to_resource_list = resource_list as u32;
        let mut next: u64 = data_start;
        let mut i: usize = 0;
        while i < self.resources.len()
            invariant
                self.version == e.version,
                self.localised_strings == e.localised_strings,
                self.metadata == recomputed_metadata(e),
                self.resources@.len() == e.resources@.len(),
                i <= self.resources@.len(),
                layout_fits(e),
                next == layout_offset(e, i as int),
                forall|j: int|
                    0 <= j < i ==> restamped(
                        #[trigger] self.resources@[j],
                        e.resources@[j],
                        layout_offset(e, j),
                    ),
                forall|j: int|
                    i <= j < e.resources@.len() ==> #[trigger] self.resources@[j]
                        == e.resources@[j],
            decreases self.resources@.len() - i,
        {
            proof {
                lemma_sizes_sum_step(e.resources@, i as int);
                lemma_sizes_sum_mono(e.resources@, i + 1, e.resources@.len() as int);
                assert(e.resources@.subrange(0, e.resources@.len() as int) =~= e.resources@);
                assert(self.resources@[i as int] == e.resources@[i as int]);
            }
            let size = pending_size_exec(&self.resources[i]);
            self.resources[i].metadata.new_offset = Some(next as u32);
            self.resources[i].metadata.new_size = Some(size as u32);
            proof {
                assert(restamped(self.resources@[i as int], e.resources@[i as int], layout_offset(e, i as int)));
            }
            next = next + size;
            i += 1;
        }
        Ok(())
    }

    proof fn lemma_layout_bound_strings(&self, i: int)
        requires
            0 <= i <= self.localised_strings@.len(),
        ensures
            layout_end(*self) >= self.metadata.offset_to_localized_string + strings_size(
                self.localised_strings@.subrange(0, i),
            ),
            i == self.localised_strings@.len() ==> layout_end(*self) >= key_list_offset(*self)
                + self.resources@.len() * (key_name_width(self.version@) + 16),
        decreases self.localised_strings@.len() - i,
    {
        if i < self.localised_strings@.len() {
            lemma_strings_size_step(self.localised_strings@, i);
            self.lemma_layout_bound_strings(i + 1);
        } else {
            assert(self.localised_strings@.subrange(0, i) =~= self.localised_strings@);
            assert(self.resources@.len() * (key_name_width(self.version@) + 16)
                == self.resources@.len() * key_record_size(self.version@) + self.resources@.len() * 8)
                by (nonlinear_arith);
        }
    }
}


/// After a layout recomputation, the resources' byte ranges are pairwise
/// disjoint and follow one another in list order: each one ends where or
/// before the next one starts, and one that holds bytes starts strictly
/// before every later one.
pub proof fn lemma_recomputed_ranges_disjoint(new: Erf, old: Erf, i: int, j: int)
    requires
        recomputed(new, old),
        layout_fits(old),
        0 <= i < j < old.resources@.len(),
    ensures
        new.resources@[i].metadata.new_offset matches Some(oi) && new.resources@[i].metadata.new_size
            matches Some(si) && new.resources@[j].metadata.new_offset matches Some(oj) && oi + si
            <= oj && (si > 0 ==> oi < oj),
{
    let rs = old.resources@;
    lemma_sizes_sum_step(rs, i);
    lemma_sizes_sum_mono(rs, i + 1, j);
    lemma_sizes_sum_mono(rs, j, rs.len() as int);
    assert(rs.subrange(0, rs.len() as int) =~= rs);
    assert(restamped(new.resources@[i], rs[i], layout_offset(old, i)));
    assert(restamped(new.resources@[j], rs[j], layout_offset(old, j)));
}

proof fn lemma_sizes_sum_shift(a: Seq<ErfResource>, b: Seq<ErfResource>, k: int, i: int)
    requires
        a.len() == b.len(),
        0 <= k < a.len(),
        0 <= i <= a.len(),
        forall|j: int| 0 <= j < a.len() && j != k ==> a[j] == b[j],
    ensures
        i <= k ==> sizes_sum(b.subrange(0, i)) == sizes_sum(a.subrange(0, i)),
        i > k ==> sizes_sum(b.subrange(0, i)) == sizes_sum(a.subrange(0, i)) + pending_size(b[k])
            - pending_size(a[k]),
    decreases i,
{
    if i > 0 {
        lemma_sizes_sum_shift(a, b, k, i - 1);
        lemma_sizes_sum_step(a, i - 1);
        lemma_sizes_sum_step(b, i - 1);
    } else {
        assert(a.subrange(0, 0) =~= b.subrange(0, 0));
    }
}

/// Giving one resource replacement bytes of another length shifts the
/// rewritten offsets of every later resource by exactly the size difference
/// and leaves every earlier one, and its own, where it was.
pub proof fn lemma_replacement_shifts_later(a: Erf, b: Erf, k: int)
    requires
        a.version == b.version,
        a.metadata == b.metadata,
        a.localised_strings == b.localised_strings,
        a.resources@.len() == b.resources@.len(),
        0 <= k < a.resources@.len(),
        forall|j: int| 0 <= j < a.resources@.len() && j != k ==> a.resources@[j] == b.resources@[j],
        b.resources@[k].new_data is Some,
    ensures
        forall|i: int| 0 <= i <= k ==> layout_offset(b, i) == layout_offset(a, i),
        forall|i: int|
            k < i < a.resources@.len() ==> layout_offset(b, i) == layout_offset(a, i)
                + b.resources@[k].new_data.unwrap()@.len() - pending_size(a.resources@[k]),
{
    assert forall|i: int| 0 <= i <= k implies layout_offset(b, i) == layout_offset(a, i) by {
        lemma_sizes_sum_shift(a.resources@, b.resources@, k, i);
    }
    assert forall|i: int| k < i < a.resources@.len() implies layout_offset(b, i) == layout_offset(
        a,
        i,
    ) + b.resources@[k].new_data.unwrap()@.len() - pending_size(a.resources@[k]) by {
        lemma_sizes_sum_shift(a.resources@, b.resources@, k, i);
    }
}


/// The rewritten offset stamped on a resource.
pub open spec fn new_offset_of(r: ErfResource) -> u32 {
    match r.metadata.new_offset {
        Some(v) => v,
        None => 0,
    }
}

/// The rewritten size stamped on a resource.
pub open spec fn new_size_of(r: ErfResource) -> u32 {
    match r.metadata.new_size {
        Some(v) => v,
        None => 0,
    }
}

/// The magic, the version tag and the nine metadata fields: eleven
/// four-byte pieces.
pub open spec fn header_pieces(e: Erf) -> Seq<Seq<u8>> {
    let m = e.metadata;
    seq![
        seq![0x45u8, 0x52u8, 0x46u8, 0x20u8],
        e.version@,
        u32_le(m.localized_string_count),
        u32_le(m.localized_string_size),
        u32_le(m.entry_count),
        u32_le(m.offset_to_localized_string),
        u32_le(m.offset_to_key_list),
        u32_le(m.offset_to_resource_list),
        u32_le(m.build_year),
        u32_le(m.build_day),
        u32_le(m.description_str_ref),
    ]
}

/// The magic, the version tag and the metadata block.
pub open spec fn header_bytes(e: Erf) -> Seq<u8> {
    header_pieces(e).flatten()
}

/// One localized string as stored: language identifier, length, text.
pub open spec fn string_record(x: LocalizedString) -> Seq<u8> {
    u32_le(x.language_id) + u32_le(x.string@.len() as u32) + x.string@
}

/// The localized string block.
pub open spec fn strings_bytes(s: Seq<LocalizedString>) -> Seq<u8> {
    s.map_values(|x: LocalizedString| string_record(x)).flatten()
}

/// One key record: the NUL-padded name, the identifier and the type.
pub open spec fn key_record(r: ErfResource, width: nat) -> Seq<u8> {
    pad_nul(r.reference@, width) + u32_le(r.id) + u32_le(r.type_id)
}

/// The key list.
pub open spec fn keys_bytes(rs: Seq<ErfResource>, width: nat) -> Seq<u8> {
    rs.map_values(|r: ErfResource| key_record(r, width)).flatten()
}

/// Entry `j` of the resource list: the rewritten offset and size of the
/// resource whose identifier is `j`.
pub open spec fn list_entry(rs: Seq<ErfResource>, j: int) -> Seq<u8> {
    if exists|i: int| 0 <= i < rs.len() && rs[i].id == j {
        let i = choose|i: int| 0 <= i < rs.len() && rs[i].id == j;
        u32_le(new_offset_of(rs[i])) + u32_le(new_size_of(rs[i]))
    } else {
        zeros(8)
    }
}

/// The resource list, indexed by identifier.
pub open spec fn list_bytes(rs: Seq<ErfResource>) -> Seq<u8> {
    Seq::new(rs.len(), |j: int| list_entry(rs, j)).flatten()
}

/// The bytes written for a resource: its replacement bytes, else its loaded
/// bytes, else its bytes in the pack data `src`.
pub open spec fn resource_bytes(r: ErfResource, src: Seq<u8>) -> Seq<u8> {
    match r.new_data {
        Some(b) => b@,
        None => match r.data {
            Some(b) => b@,
            None => source_bytes(r, src),
        },
    }
}

/// The resource data block.
pub open spec fn data_bytes(rs: Seq<ErfResource>, src: Seq<u8>) -> Seq<u8> {
    rs.map_values(|r: ErfResource| resource_bytes(r, src)).flatten()
}

/// The encoding of `e`, with the bytes of resources not loaded taken from
/// the pack data `src`.
pub open spec fn erf_bytes(e: Erf, src: Seq<u8>) -> Seq<u8> {
    header_bytes(e) + zeros((e.metadata.offset_to_localized_string - 44) as nat) + strings_bytes(
        e.localised_strings@,
    ) + keys_bytes(e.resources@, key_name_width(e.version@)) + list_bytes(e.resources@)
        + data_bytes(e.resources@, src)
}

/// The pack can be written: the localized strings start after the header,
/// every name fits its field, and the identifiers are distinct positions of
/// the resource list.
pub open spec fn rewrite_ok(e: Erf) -> bool {
    &&& e.metadata.offset_to_localized_string >= 44
    &&& forall|i: int|
        0 <= i < e.resources@.len() ==> (#[trigger] e.resources@[i]).reference@.len()
            <= key_name_width(e.version@) && e.resources@[i].id < e.resources@.len()
    &&& forall|i: int, j: int|
        0 <= i < e.resources@.len() && 0 <= j < e.resources@.len() && i != j
            ==> #[trigger] e.resources@[i].id != #[trigger] e.resources@[j].id
}

/// Every resource's bytes are loaded, replaced, or inside the pack data `src`.
pub open spec fn bytes_available(e: Erf, src: Seq<u8>) -> bool {
    forall|i: int|
        0 <= i < e.resources@.len() ==> (#[trigger] e.resources@[i]).new_data is Some
            || e.resources@[i].data is Some || in_source(e.resources@[i], src)
}

/// The metadata block with the build date replaced, where one is given.
pub open spec fn with_build_stamp(m: ErfMetadata, stamp: Option<(u32, u32)>) -> ErfMetadata {
    match stamp {
        Some((year, day)) => ErfMetadata { build_year: year, build_day: day, ..m },
        None => m,
    }
}

proof fn lemma_flatten_prefix_step(pieces: Seq<Seq<u8>>, i: int)
    requires
        0 <= i < pieces.len(),
    ensures
        pieces.subrange(0, i + 1).flatten() == pieces.subrange(0, i).flatten() + pieces[i],
{
    assert(pieces.subrange(0, i + 1) =~= pieces.subrange(0, i).push(pieces[i]));
    pieces.subrange(0, i).lemma_flatten_push(pieces[i]);
}

proof fn lemma_flatten_empty(pieces: Seq<Seq<u8>>)
    ensures
        pieces.subrange(0, 0).flatten() == Seq::<u8>::empty(),
{
    assert(pieces.subrange(0, 0).len() == 0);
}

fn push_header(out: &mut Vec<u8>, e: &Erf)
    ensures
        final(out)@ == old(out)@ + header_bytes(*e),
{
    out.push(0x45u8);
    out.push(0x52u8);
    out.push(0x46u8);
    out.push(0x20u8);
    out.push(e.version[0]);
    out.push(e.version[1]);
    out.push(e.version[2]);
    out.push(e.version[3]);
    let ghost mid = out@;
    proof {
        assert(mid =~= old(out)@ + seq![0x45u8, 0x52u8, 0x46u8, 0x20u8] + e.version@);
    }
    let m = e.metadata;
    push_u32(out, m.localized_string_count);
    push_u32(out, m.localized_string_size);
    push_u32(out, m.entry_count);
    push_u32(out, m.offset_to_localized_string);
    push_u32(out, m.offset_to_key_list);
    push_u32(out, m.offset_to_resource_list);
    push_u32(out, m.build_year);
    push_u32(out, m.build_day);
    push_u32(out, m.description_str_ref);
    proof {
        let p = header_pieces(*e);
        reveal_with_fuel(Seq::<_>::flatten, 12);
        assert(p.drop_first().drop_first().drop_first().drop_first().drop_first().drop_first().drop_first().drop_first().drop_first().drop_first().drop_first().len() == 0);
        assert(out@ =~= old(out)@ + header_bytes(*e));
    }
}

fn push_strings(out: &mut Vec<u8>, s: &Vec<LocalizedString>)
    requires
        forall|i: int| 0 <= i < s@.len() ==> (#[trigger] s@[i]).string@.len() <= 0xFFFF_FFFF,
    ensures
        final(out)@ == old(out)@ + strings_bytes(s@),
{
    let ghost start = out@;
    let ghost pieces = s@.map_values(|x: LocalizedString| string_record(x));
    proof {
        lemma_flatten_empty(pieces);
    }
    let mut i: usize = 0;
    while i < s.len()
        invariant
            i <= s@.len(),
            pieces == s@.map_values(|x: LocalizedString| string_record(x)),
            forall|i: int| 0 <= i < s@.len() ==> (#[trigger] s@[i]).string@.len() <= 0xFFFF_FFFF,
            out@ == start + pieces.subrange(0, i as int).flatten(),
        decreases s@.len() - i,
    {
        proof {
            lemma_flatten_prefix_step(pieces, i as int);
        }
        let ghost before = out@;
        push_u32(out, s[i].language_id);
        push_u32(out, s[i].string.len() as u32);
        push_bytes(out, s[i].string.as_slice());
        proof {
            assert(out@ =~= before + string_record(s@[i as int]));
        }
        i += 1;
    }
    proof {
        assert(pieces.subrange(0, s@.len() as int) =~= pieces);
    }
}

fn push_keys(out: &mut Vec<u8>, rs: &Vec<ErfResource>, width: usize)
    requires
        forall|i: int| 0 <= i < rs@.len() ==> (#[trigger] rs@[i]).reference@.len() <= width,
    ensures
        final(out)@ == old(out)@ + keys_bytes(rs@, width as nat),
{
    let ghost start = out@;
    let ghost pieces = rs@.map_values(|r: ErfResource| key_record(r, width as nat));
    proof {
        lemma_flatten_empty(pieces);
    }
    let mut i: usize = 0;
    while i < rs.len()
        invariant
            i <= rs@.len(),
            pieces == rs@.map_values(|r: ErfResource| key_record(r, width as nat)),
            forall|i: int| 0 <= i < rs@.len() ==> (#[trigger] rs@[i]).reference@.len() <= width,
            out@ == start + pieces.subrange(0, i as int).flatten(),
        decreases rs@.len() - i,
    {
        proof {
            lemma_flatten_prefix_step(pieces, i as int);
            assert(rs@[i as int].reference@.len() <= width);
        }
        let ghost before = out@;
        push_bytes(out, rs[i].reference.as_slice());
        push_zeros(out, (width - rs[i].reference.len()) as u64);
        push_u32(out, rs[i].id);
        push_u32(out, rs[i].type_id);
        proof {
            assert(out@ =~= before + key_record(rs@[i as int], width as nat));
        }
        i += 1;
    }
    proof {
        assert(pieces.subrange(0, rs@.len() as int) =~= pieces);
    }
}

fn find_by_id(rs: &Vec<ErfResource>, id: usize) -> (r: Option<usize>)
    ensures
        match r {
            Some(i) => i < rs@.len() && rs@[i as int].id == id,
            None => forall|k: int| 0 <= k < rs@.len() ==> #[trigger] rs@[k].id != id,
        },
{
    let mut i: usize = 0;
    while i < rs.len()
        invariant
            i <= rs@.len(),
            forall|k: int| 0 <= k < i ==> #[trigger] rs@[k].id != id,
        decreases rs@.len() - i,
    {
        if rs[i].id as usize == id {
            return Some(i);
        }
        i += 1;
    }
    None
}

fn push_list(out: &mut Vec<u8>, rs: &Vec<ErfResource>)
    requires
        forall|i: int, j: int|
            0 <= i < rs@.len() && 0 <= j < rs@.len() && i != j ==> #[trigger] rs@[i].id
                != #[trigger] rs@[j].id,
    ensures
        final(out)@ == old(out)@ + list_bytes(rs@),
{
    let ghost start = out@;
    let ghost pieces = Seq::new(rs@.len(), |j: int| list_entry(rs@, j));
    proof {
        lemma_flatten_empty(pieces);
    }
    let mut j: usize = 0;
    while j < rs.len()
        invariant
            j <= rs@.len(),
            pieces == Seq::new(rs@.len(), |j: int| list_entry(rs@, j)),
            forall|i: int, k: int|
                0 <= i < rs@.len() && 0 <= k < rs@.len() && i != k ==> #[trigger] rs@[i].id
                    != #[trigger] rs@[k].id,
            out@ == start + pieces.subrange(0, j as int).flatten(),
        decreases rs@.len() - j,
    {
        proof {
            lemma_flatten_prefix_step(pieces, j as int);
        }
        let ghost before = out@;
        let found = find_by_id(rs, j);
        if let Some(i) = found {
            let r = &rs[i];
            let off = match r.metadata.new_offset {
                Some(v) => v,
                None => 0,
            };
            let size = match r.metadata.new_size {
                Some(v) => v,
                None => 0,
            };
            push_u32(out, off);
            push_u32(out, size);
            proof {
                let c = choose|c: int| 0 <= c < rs@.len() && rs@[c].id == j;
                assert(rs@[i as int].id == j);
                if c != i {
                    assert(rs@[c].id != rs@[i as int].id);
                }
                assert(out@ =~= before + list_entry(rs@, j as int));
            }
        } else {
            push_zeros(out, 8);
            proof {
                assert(out@ =~= before + list_entry(rs@, j as int));
            }
        }
        j += 1;
    }
    proof {
        assert(pieces.subrange(0, rs@.len() as int) =~= pieces);
    }
}

fn push_data(out: &mut Vec<u8>, rs: &Vec<ErfResource>, source: &[u8])
    requires
        forall|i: int|
            0 <= i < rs@.len() ==> (#[trigger] rs@[i]).new_data is Some || rs@[i].data is Some
                || in_source(rs@[i], source@),
    ensures
        final(out)@ == old(out)@ + data_bytes(rs@, source@),
{
    let ghost start = out@;
    let ghost pieces = rs@.map_values(|r: ErfResource| resource_bytes(r, source@));
    proof {
        lemma_flatten_empty(pieces);
    }
    let mut i: usize = 0;
    while i < rs.len()
        invariant
            i <= rs@.len(),
            pieces == rs@.map_values(|r: ErfResource| resource_bytes(r, source@)),
            forall|i: int|
                0 <= i < rs@.len() ==> (#[trigger] rs@[i]).new_data is Some || rs@[i].data is Some
                    || in_source(rs@[i], source@),
            out@ == start + pieces.subrange(0, i as int).flatten(),
        decreases rs@.len() - i,
    {
        proof {
            lemma_flatten_prefix_step(pieces, i as int);
        }
        let ghost before = out@;
        let r = &rs[i];
        match &r.new_data {
            Some(b) => push_bytes(out, b.as_slice()),
            None => match &r.data {
                Some(b) => push_bytes(out, b.as_slice()),
                None => {
                    proof {
                        assert(in_source(rs@[i as int], source@));
                    }
                    let total: usize = source.len();
                    let start_at = r.metadata.offset as usize;
                    let end_at = (r.metadata.offset as u64 + r.metadata.size as u64) as usize;
                    let bytes = copy_range(source, start_at, end_at);
                    push_bytes(out, bytes.as_slice());
                },
            },
        }
        proof {
            assert(out@ =~= before + resource_bytes(rs@[i as int], source@));
        }
        i += 1;
    }
    proof {
        assert(pieces.subrange(0, rs@.len() as int) =~= pieces);
    }
}


/// `new` is `old` rewritten: its layout recomputed and, where a build date
/// is given, that date stamped on it.
pub open spec fn rewritten(new: Erf, old: Erf, stamp: Option<(u32, u32)>) -> bool {
    &&& new.metadata == with_build_stamp(recomputed_metadata(old), stamp)
    &&& relaid(new, old)
}

impl Erf {
    fn check_rewrite(&self) -> (r: bool)
        ensures
            r == rewrite_ok(*self),
    {
        if (self.metadata.offset_to_localized_string as u64) < ERF_HEADER_SIZE {
            return false;
        }
        let width = key_width(&self.version) as usize;
        let n = self.resources.len();
        let mut i: usize = 0;
        while i < n
            invariant
                n == self.resources@.len(),
                width == key_name_width(self.version@),
                i <= n,
                forall|a: int|
                    0 <= a < i ==> (#[trigger] self.resources@[a]).reference@.len() <= width
                        && self.resources@[a].id < n,
                forall|a: int, b: int|
                    0 <= a < i && 0 <= b < i && a != b ==> #[trigger] self.resources@[a].id
                        != #[trigger] self.resources@[b].id,
            decreases n - i,
        {
            if self.resources[i].reference.len() > width || self.resources[i].id as usize >= n {
                return false;
            }
            let mut j: usize = 0;
            while j < i
                invariant
                    i < n,
                    n == self.resources@.len(),
                    j <= i,
                    forall|b: int| 0 <= b < j ==> #[trigger] self.resources@[b].id != self.resources@[i as int].id,
                decreases i - j,
            {
                if self.resources[j].id == self.resources[i].id {
                    return false;
                }
                j += 1;
            }
            i += 1;
        }
        true
    }

    fn check_sources(&self, source: &[u8]) -> (r: bool)
        ensures
            r == bytes_available(*self, source@),
    {
        let mut i: usize = 0;
        while i < self.resources.len()
            invariant
                i <= self.resources@.len(),
                forall|a: int|
                    0 <= a < i ==> (#[trigger] self.resources@[a]).new_data is Some
                        || self.resources@[a].data is Some || in_source(self.resources@[a], source@),
            decreases self.resources@.len() - i,
        {
            let r = &self.resources[i];
            if r.new_data.is_none() && r.data.is_none() && r.metadata.offset as u64
                + r.metadata.size as u64 > source.len() as u64 {
                return false;
            }
            i += 1;
        }
        true
    }

    fn encode(&self, source: &[u8]) -> (out: Vec<u8>)
        requires
            rewrite_ok(*self),
            bytes_available(*self, source@),
            forall|i: int|
                0 <= i < self.localised_strings@.len()
                    ==> (#[trigger] self.localised_strings@[i]).string@.len() <= 0xFFFF_FFFF,
        ensures
            out@ == erf_bytes(*self, source@),
    {
        let width = key_width(&self.version) as usize;
        let mut out: Vec<u8> = Vec::new();
        push_header(&mut out, self);
        push_zeros(&mut out, self.metadata.offset_to_localized_string as u64 - ERF_HEADER_SIZE);
        push_strings(&mut out, &self.localised_strings);
        push_keys(&mut out, &self.resources, width);
        push_list(&mut out, &self.resources);
        push_data(&mut out, &self.resources, source);
        proof {
            assert(out@ =~= erf_bytes(*self, source@));
        }
        out
    }

    /// Rewrites the pack: recomputes its layout, stamps the build date where
    /// one is given, and returns the encoding of the result, with the bytes of
    /// resources not loaded or replaced taken from the pack data `source`.
    /// Fails, and changes nothing, when the pack cannot be laid out or some
    /// resource's bytes are not at hand.
    pub fn write_erf_data(&mut self, source: &[u8], build_stamp: Option<(u32, u32)>) -> (r: Result<
        Vec<u8>,
        Error,
    >)
        ensures
            !rewrite_ok(*old(self)) ==> r == Err::<Vec<u8>, Error>(Error::InvalidLayout)
                && *final(self) == *old(self),
            rewrite_ok(*old(self)) && !bytes_available(*old(self), source@) ==> r == Err::<
                Vec<u8>,
                Error,
            >(Error::ShortRead) && *final(self) == *old(self),
            rewrite_ok(*old(self)) && bytes_available(*old(self), source@) && !layout_fits(
                *old(self),
            ) ==> r == Err::<Vec<u8>, Error>(Error::InvalidLayout) && *final(self) == *old(self),
            rewrite_ok(*old(self)) && layout_fits(*old(self)) && bytes_available(*old(self), source@)
                ==> (r matches Ok(out) && rewritten(*final(self), *old(self), build_stamp) && out@
                == erf_bytes(*final(self), source@)),
    {
        let ghost e = *self;
        if !self.check_rewrite() {
            return Err(Error::InvalidLayout);
        }
        if !self.check_sources(source) {
            return Err(Error::ShortRead);
        }
        if let Err(err) = self.recalculate_sizing() {
            return Err(err);
        }
        if let Some((year, day)) = build_stamp {
            self.metadata.build_year = year;
            self.metadata.build_day = day;
        }
        proof {
            assert forall|i: int| 0 <= i < self.resources@.len() implies (#[trigger] self.resources@[i]).reference@.len()
                <= key_name_width(self.version@) && self.resources@[i].id < self.resources@.len() by {
                assert(restamped(self.resources@[i], e.resources@[i], layout_offset(e, i)));
            }
            assert forall|i: int, j: int|
                0 <= i < self.resources@.len() && 0 <= j < self.resources@.len() && i != j
                    implies #[trigger] self.resources@[i].id != #[trigger] self.resources@[j].id by {
                assert(restamped(self.resources@[i], e.resources@[i], layout_offset(e, i)));
                assert(restamped(self.resources@[j], e.resources@[j], layout_offset(e, j)));
            }
            assert forall|i: int| 0 <= i < self.resources@.len() implies (#[trigger] self.resources@[i]).new_data is Some
                || self.resources@[i].data is Some || in_source(self.resources@[i], source@) by {
                assert(restamped(self.resources@[i], e.resources@[i], layout_offset(e, i)));
            }
            assert forall|i: int|
                0 <= i < self.localised_strings@.len() implies (#[trigger] self.localised_strings@[i]).string@.len()
                    <= 0xFFFF_FFFF by {
                lemma_strings_size_ge_elem(self.localised_strings@, i);
                lemma_sizes_sum_mono(e.resources@, 0, 0);
            }
        }
        Ok(self.encode(source))
    }
}

} // verus!
