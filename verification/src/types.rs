//! Types of the cache file format: its header and the root object.
use crate::interner::{entry_readable, ArchivedStringInterner, Handle, StringInterner};
use vstd::prelude::*;

verus! {

/// Magic number at the start of every cache file ("FKOL").
pub const HEADER_MAGIC: u32 = 0x70757976;

/// Version of the data format. It is incremented by hand when the format
/// changes in ways that the type hash cannot catch.
pub const DATA_VERSION: u32 = 2;

/// Header at the start of a cache file.
#[derive(Debug, Clone, Copy, PartialEq, Eq, Structural)]
pub struct Header {
    pub magic: u32,
    /// A version number that is incremented by hand when the format changes
    /// in ways that the hash cannot catch.
    pub version: u32,
    /// A hash of the type of the root object
    pub type_hash: u64,
}

impl Header {
    /// A header that this build writes: the given hash of the root type
    /// together with the magic number and the current data version.
    pub fn new(type_hash: u64) -> (r: Header)
        ensures
            r.magic == HEADER_MAGIC,
            r.version == DATA_VERSION,
            r.type_hash == type_hash,
    {
        Header { magic: HEADER_MAGIC, version: DATA_VERSION, type_hash }
    }

    /// The header was written by a build with this data layout: right
    /// magic number, right data version, and the expected type hash.
    pub open spec fn spec_is_valid(&self, expected_hash: u64) -> bool {
        &&& self.magic == HEADER_MAGIC
        &&& self.version == DATA_VERSION
        &&& self.type_hash == expected_hash
    }

    /// Whether the header belongs to a file in this build's format.
    pub fn is_valid(&self, expected_hash: u64) -> (r: bool)
        ensures
            r == self.spec_is_valid(expected_hash),
    {
        self.magic == HEADER_MAGIC && self.version == DATA_VERSION && self.type_hash
            == expected_hash
    }

    /// The hash a valid header carries: the hash of the root type combined
    /// with the hash of the dependency lock file.
    pub fn expected_hash(root_type_hash: u64, lock_hash: u64) -> (r: u64)
        ensures
            r == root_type_hash ^ lock_hash,
    {
        root_type_hash ^ lock_hash
    }
}

/// The little endian bytes of a `u32`.
pub open spec fn le32(x: u32) -> Seq<u8> {
    seq![x as u8, (x >> 8u32) as u8, (x >> 16u32) as u8, (x >> 24u32) as u8]
}

/// The little endian bytes of a `u64`.
pub open spec fn le64(x: u64) -> Seq<u8> {
    le32(x as u32) + le32((x >> 32u64) as u32)
}

/// The `u32` with the little endian bytes `b0` to `b3`.
pub open spec fn u32_le(b0: u8, b1: u8, b2: u8, b3: u8) -> u32 {
    (b0 as u32) | ((b1 as u32) << 8u32) | ((b2 as u32) << 16u32) | ((b3 as u32) << 24u32)
}

/// The 16 bytes of a header on disk: magic, version and type hash, little
/// endian.
pub open spec fn header_bytes(h: Header) -> Seq<u8> {
    le32(h.magic) + le32(h.version) + le64(h.type_hash)
}

/// Size in bytes of a header on disk.
pub const HEADER_SIZE: usize = 16;

proof fn lemma_u32_le(x: u32)
    ensures
        u32_le(x as u8, (x >> 8u32) as u8, (x >> 16u32) as u8, (x >> 24u32) as u8) == x,
{
    assert(((x as u8) as u32) | ((((x >> 8u32) as u8) as u32) << 8u32) | ((((x >> 16u32) as u8)
        as u32) << 16u32) | ((((x >> 24u32) as u8) as u32) << 24u32) == x) by (bit_vector);
}

proof fn lemma_u64_halves(x: u64)
    ensures
        (x as u32) as u64 | (((x >> 32u64) as u32) as u64) << 32u64 == x,
{
    assert((x as u32) as u64 | (((x >> 32u64) as u32) as u64) << 32u64 == x) by (bit_vector);
}

impl Header {
    /// The header's bytes on disk.
    pub fn to_bytes(&self) -> (r: Vec<u8>)
        ensures
            r@ == header_bytes(*self),
    {
        let mut out: Vec<u8> = Vec::new();
        push_u32(&mut out, self.magic);
        push_u32(&mut out, self.version);
        push_u32(&mut out, self.type_hash as u32);
        push_u32(&mut out, (self.type_hash >> 32u64) as u32);
        assert(out@ =~= header_bytes(*self));
        out
    }

    /// Reads a header from the start of `data`; `None` where `data` is
    /// shorter than a header.
    pub fn from_prefix(data: &[u8]) -> (r: Option<Header>)
        ensures
            data@.len() < 16 ==> r is None,
            data@.len() >= 16 ==> (r matches Some(h) && header_bytes(h) == data@.subrange(0, 16)),
    {
        if data.len() < HEADER_SIZE {
            return None;
        }
        let magic = u32_le_exec(data[0], data[1], data[2], data[3]);
        let version = u32_le_exec(data[4], data[5], data[6], data[7]);
        let low = u32_le_exec(data[8], data[9], data[10], data[11]);
        let high = u32_le_exec(data[12], data[13], data[14], data[15]);
        let type_hash = (low as u64) | ((high as u64) << 32u64);
        let h = Header { magic, version, type_hash };
        proof {
            lemma_le32_of_bytes(data[0], data[1], data[2], data[3]);
            lemma_le32_of_bytes(data[4], data[5], data[6], data[7]);
            lemma_le32_of_bytes(data[8], data[9], data[10], data[11]);
            lemma_le32_of_bytes(data[12], data[13], data[14], data[15]);
            assert((type_hash as u32) == low && ((type_hash >> 32u64) as u32) == high) by (bit_vector)
                requires
                    type_hash == (low as u64) | ((high as u64) << 32u64),
            ;
            assert(header_bytes(h) =~= data@.subrange(0, 16));
        }
        Some(h)
    }
}

/// Reading a header back from its bytes gives the header.
pub proof fn lemma_header_round_trip(h: Header)
    ensures
        header_bytes(h).len() == 16,
        ({
            let b = header_bytes(h);
            &&& u32_le(b[0], b[1], b[2], b[3]) == h.magic
            &&& u32_le(b[4], b[5], b[6], b[7]) == h.version
            &&& (u32_le(b[8], b[9], b[10], b[11]) as u64) | ((u32_le(b[12], b[13], b[14], b[15])
                as u64) << 32u64) == h.type_hash
        }),
{
    lemma_u32_le(h.magic);
    lemma_u32_le(h.version);
    lemma_u32_le(h.type_hash as u32);
    lemma_u32_le((h.type_hash >> 32u64) as u32);
    lemma_u64_halves(h.type_hash);
}

/// Distinct headers have distinct bytes, so reading back the bytes that
/// `to_bytes` wrote gives the header that wrote them.
pub proof fn lemma_header_bytes_injective(h1: Header, h2: Header)
    requires
        header_bytes(h1) == header_bytes(h2),
    ensures
        h1 == h2,
{
    lemma_header_round_trip(h1);
    lemma_header_round_trip(h2);
}

proof fn lemma_le32_of_bytes(b0: u8, b1: u8, b2: u8, b3: u8)
    ensures
        le32(u32_le(b0, b1, b2, b3)) == seq![b0, b1, b2, b3],
{
    let x = u32_le(b0, b1, b2, b3);
    assert(x as u8 == b0 && (x >> 8u32) as u8 == b1 && (x >> 16u32) as u8 == b2 && (x >> 24u32)
        as u8 == b3) by (bit_vector)
        requires
            x == (b0 as u32) | ((b1 as u32) << 8u32) | ((b2 as u32) << 16u32) | ((b3 as u32)
                << 24u32),
    ;
    assert(le32(x) =~= seq![b0, b1, b2, b3]);
}

/// Appends the little endian bytes of `x`.
fn push_u32(out: &mut Vec<u8>, x: u32)
    ensures
        final(out)@ == old(out)@ + le32(x),
{
    out.push(x as u8);
    out.push((x >> 8u32) as u8);
    out.push((x >> 16u32) as u8);
    out.push((x >> 24u32) as u8);
    assert(final(out)@ =~= old(out)@ + le32(x));
}

/// The `u32` with the given little endian bytes.
fn u32_le_exec(b0: u8, b1: u8, b2: u8, b3: u8) -> (r: u32)
    ensures
        r == u32_le(b0, b1, b2, b3),
{
    (b0 as u32) | ((b1 as u32) << 8u32) | ((b2 as u32) << 16u32) | ((b3 as u32) << 24u32)
}

/// A header made by this build is accepted by this build.
pub proof fn lemma_new_header_is_valid(type_hash: u64)
    ensures
        (Header { magic: HEADER_MAGIC, version: DATA_VERSION, type_hash }).spec_is_valid(
            type_hash,
        ),
{
}

/// A reference to a package name in the interner.
#[derive(Debug, Clone, Copy, PartialEq, Eq, Structural)]
pub struct PackageRef(pub Handle);

/// A reference to a directory in the interner.
#[derive(Debug, Clone, Copy, PartialEq, Eq, Structural)]
pub struct DirectoryRef(pub Handle);

/// A record of a file: which package and directory it belongs to
#[derive(Debug, Clone, Copy, PartialEq, Eq, Structural)]
pub struct Record {
    pub package: PackageRef,
    pub directory: DirectoryRef,
}

/// Mapping from binary name to the records of the files with that name.
#[verifier::external_body]
pub struct BinariesData {
    map: hashbrown::HashMap<String, smallvec::SmallVec<[Record; 2]>>,
}

/// What a [`BinariesData`] holds: each binary name with its records, in order.
pub uninterp spec fn binaries_contents(b: BinariesData) -> Map<Seq<char>, Seq<Record>>;

/// `entries` lists each key of `m` exactly once, with its value.
pub open spec fn is_enumeration(
    entries: Seq<(Seq<char>, Seq<Record>)>,
    m: Map<Seq<char>, Seq<Record>>,
) -> bool {
    &&& forall|i: int|
        0 <= i < entries.len() ==> m.contains_key(#[trigger] entries[i].0) && m[entries[i].0]
            == entries[i].1
    &&& forall|i: int, j: int|
        0 <= i < entries.len() && 0 <= j < entries.len() && i != j ==> #[trigger] entries[i].0
            != #[trigger] entries[j].0
    &&& forall|k: Seq<char>|
        #[trigger] m.contains_key(k) ==> exists|i: int| 0 <= i < entries.len() && entries[i].0 == k
}

/// The views of a list of entries.
pub open spec fn entries_view(entries: Seq<(String, Vec<Record>)>) -> Seq<(Seq<char>, Seq<Record>)> {
    entries.map_values(|e: (String, Vec<Record>)| (e.0@, e.1@))
}

impl BinariesData {
    /// Calls `hashbrown::HashMap::new`; the new map is empty.
    #[verifier::external_body]
    pub fn new() -> (r: BinariesData)
        ensures
            binaries_contents(r).dom().is_empty(),
    {
        BinariesData { map: hashbrown::HashMap::new() }
    }

    /// Calls `hashbrown::HashMap::get`; it returns the records stored under a
    /// key equal to `key`, if any.
    #[verifier::external_body]
    pub fn get(&self, key: &str) -> (r: Option<Vec<Record>>)
        ensures
            r matches Some(v) ==> binaries_contents(*self).contains_key(key@) && binaries_contents(
                *self,
            )[key@] == v@,
            r is None ==> !binaries_contents(*self).contains_key(key@),
    {
        self.map.get(key).map(|v| v.to_vec())
    }

    /// Calls `hashbrown::HashMap::insert`; afterwards `key` maps to `records`
    /// and every other key is as before.
    #[verifier::external_body]
    pub fn insert(&mut self, key: String, records: Vec<Record>)
        ensures
            binaries_contents(*final(self)) == binaries_contents(*old(self)).insert(
                key@,
                records@,
            ),
    {
        self.map.insert(key, smallvec::SmallVec::from_vec(records));
    }

    /// Calls `hashbrown::HashMap::iter`; it lists every entry once, in an
    /// order that the map's hasher decides.
    #[verifier::external_body]
    pub fn entries(&self) -> (r: Vec<(String, Vec<Record>)>)
        ensures
            is_enumeration(entries_view(r@), binaries_contents(*self)),
    {
        self.map.iter().map(|(k, v)| (k.clone(), v.to_vec())).collect()
    }
}

/// Root object of a cache file, as built by an update.
pub struct DataRoot {
    /// Name of repository (e.g. core or extra)
    pub repository: String,
    /// Interner for paths and package names
    pub interner: StringInterner,
    /// Mapping from binary name to data about binary
    pub binaries: BinariesData,
}

/// Root object of a cache file, as read back from the file.
pub struct ArchivedDataRoot {
    /// Name of repository (e.g. core or extra)
    pub repository: String,
    /// Interner for paths and package names
    pub interner: ArchivedStringInterner,
    /// Mapping from binary name to data about binary
    pub binaries: BinariesData,
}

/// Both handles of a record point at readable strings of `interner`.
pub open spec fn record_readable(interner: Seq<u8>, r: Record) -> bool {
    &&& entry_readable(interner, r.package.0.offset as int)
    &&& entry_readable(interner, r.directory.0.offset as int)
}

/// Every record of `bins` refers to readable strings of `interner`.
pub open spec fn records_readable(interner: Seq<u8>, bins: Map<Seq<char>, Seq<Record>>) -> bool {
    forall|k: Seq<char>, i: int|
        #![trigger bins[k][i]]
        bins.contains_key(k) && 0 <= i < bins[k].len() ==> record_readable(interner, bins[k][i])
}

/// An index whose records all refer to readable strings of its interner is
/// read back from its cache file as well formed: a search in it is never
/// refused as corrupt.
pub proof fn lemma_written_index_well_formed(d: &DataRoot, a: &ArchivedDataRoot)
    requires
        records_readable(d.interner@, binaries_contents(d.binaries)),
        a.interner@ == d.interner@,
        binaries_contents(a.binaries) == binaries_contents(d.binaries),
    ensures
        a.wf(),
{
    assert forall|k: Seq<char>, i: int|
        binaries_contents(a.binaries).contains_key(k) && 0 <= i < binaries_contents(
            a.binaries,
        )[k].len() implies record_readable(
        a.interner@,
        #[trigger] binaries_contents(a.binaries)[k][i],
    ) by {
        assert(record_readable(d.interner@, binaries_contents(d.binaries)[k][i]));
    }
}

impl ArchivedDataRoot {
    /// Every record refers to readable strings of the interner.
    pub open spec fn wf(&self) -> bool {
        forall|k: Seq<char>, i: int|
            #![trigger binaries_contents(self.binaries)[k][i]]
            binaries_contents(self.binaries).contains_key(k) && 0 <= i < binaries_contents(
                self.binaries,
            )[k].len() ==> record_readable(self.interner@, binaries_contents(self.binaries)[k][i])
    }

    /// Checks that every record refers to readable strings of the interner.
    pub fn is_well_formed(&self) -> (r: bool)
        ensures
            r == self.wf(),
    {
        let entries = self.binaries.entries();
        let ghost ev = entries_view(entries@);
        let mut i: usize = 0;
        while i < entries.len()
            invariant
                i <= entries.len(),
                ev == entries_view(entries@),
                is_enumeration(ev, binaries_contents(self.binaries)),
                forall|a: int, j: int|
                    #![trigger ev[a].1[j]]
                    0 <= a < i && 0 <= j < ev[a].1.len() ==> record_readable(
                        self.interner@,
                        ev[a].1[j],
                    ),
            decreases entries.len() - i,
        {
            let records = &entries[i].1;
            let mut j: usize = 0;
            while j < records.len()
                invariant
                    i < entries.len(),
                    j <= records.len(),
                    ev == entries_view(entries@),
                    is_enumeration(ev, binaries_contents(self.binaries)),
                    forall|a: int, jj: int|
                        #![trigger ev[a].1[jj]]
                        0 <= a < i && 0 <= jj < ev[a].1.len() ==> record_readable(
                            self.interner@,
                            ev[a].1[jj],
                        ),
                    records@ == ev[i as int].1,
                    forall|b: int| 0 <= b < j ==> record_readable(self.interner@, #[trigger] records@[b]),
                decreases records.len() - j,
            {
                let rec = records[j];
                if self.interner.try_get(rec.package.0).is_none() || self.interner.try_get(
                    rec.directory.0,
                ).is_none() {
                    proof {
                        let k = ev[i as int].0;
                        assert(binaries_contents(self.binaries).contains_key(k));
                        assert(binaries_contents(self.binaries)[k] == records@);
                        assert(binaries_contents(self.binaries)[k][j as int] == rec);
                    }
                    return false;
                }
                j = j + 1;
            }
            assert(records@ =~= ev[i as int].1);
            i = i + 1;
        }
        proof {
            assert forall|k: Seq<char>, b: int|
                binaries_contents(self.binaries).contains_key(k) && 0 <= b < binaries_contents(
                    self.binaries,
                )[k].len() implies record_readable(
                self.interner@,
                #[trigger] binaries_contents(self.binaries)[k][b],
            ) by {
                let a = choose|a: int| 0 <= a < ev.len() && ev[a].0 == k;
                assert(ev[a].1 == binaries_contents(self.binaries)[k]);
                assert(record_readable(self.interner@, ev[a].1[b]));
            }
        }
        true
    }
}

} // verus!
