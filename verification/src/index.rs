//! The staging area: a binary, fixed-record, sorted, hash-sealed file.

use crate::bytes::{bytes_eq, extend_vec, lex_lt, lex_lt_bytes, subvec};
use crate::hash::{sha1_digest, sha1_of};
use crate::objects::{kw_blob, spec_store_preimage, Blob, GitObject, Id, Object};
use vstd::prelude::*;

verus! {

/// The big-endian bytes of a 32-bit value.
pub open spec fn spec_be32(n: u32) -> Seq<u8> {
    seq![
        (n / 0x1000000) as u8,
        ((n / 0x10000) % 0x100) as u8,
        ((n / 0x100) % 0x100) as u8,
        (n % 0x100) as u8,
    ]
}

/// The 32-bit value of four big-endian bytes.
pub open spec fn spec_be32_val(b: Seq<u8>) -> u32 {
    (b[0] * 0x1000000 + b[1] * 0x10000 + b[2] * 0x100 + b[3]) as u32
}

/// Big-endian encoding of a 32-bit value round-trips.
pub proof fn lemma_be32_round_trip(n: u32)
    ensures
        spec_be32_val(spec_be32(n)) == n,
{
    let b = spec_be32(n);
    assert(b[0] == n / 0x1000000 && b[1] == (n / 0x10000) % 0x100 && b[2] == (n / 0x100) % 0x100
        && b[3] == n % 0x100);
    assert((n / 0x1000000) * 0x1000000 + ((n / 0x10000) % 0x100) * 0x10000 + ((n / 0x100) % 0x100)
        * 0x100 + n % 0x100 == n) by (bit_vector);
}

/// The big-endian bytes of a 16-bit value.
pub open spec fn spec_be16(n: u16) -> Seq<u8> {
    seq![(n / 0x100) as u8, (n % 0x100) as u8]
}

/// The 16-bit value of two big-endian bytes.
pub open spec fn spec_be16_val(b: Seq<u8>) -> u16 {
    (b[0] * 0x100 + b[1]) as u16
}

/// Big-endian encoding of a 16-bit value round-trips.
pub proof fn lemma_be16_round_trip(n: u16)
    ensures
        spec_be16_val(spec_be16(n)) == n,
{
    assert((n / 0x100) * 0x100 + n % 0x100 == n) by (bit_vector);
}

/// A 32-bit value stored big-endian on disk.
#[derive(Debug, Clone, Copy, PartialEq, Eq, Structural)]
#[allow(non_camel_case_types)]
pub struct u32be {
    /// The numeric value.
    pub n: u32,
}

impl u32be {
    /// The four bytes of this value on disk.
    pub open spec fn spec_bytes(&self) -> Seq<u8> {
        spec_be32(self.n)
    }

    /// The numeric value.
    pub fn get(&self) -> (r: u32)
        ensures
            r == self.n,
    {
        self.n
    }

    /// Appends the four big-endian bytes to a buffer.
    pub fn emit(&self, out: &mut Vec<u8>)
        ensures
            final(out)@ == old(out)@ + self.spec_bytes(),
    {
        out.push((self.n / 0x1000000) as u8);
        out.push(((self.n / 0x10000) % 0x100) as u8);
        out.push(((self.n / 0x100) % 0x100) as u8);
        out.push((self.n % 0x100) as u8);
        proof {
            assert(final(out)@ =~= old(out)@ + self.spec_bytes());
        }
    }

    /// Reads four big-endian bytes.
    pub fn read(b: &Vec<u8>, at: usize) -> (r: u32be)
        requires
            at + 4 <= b@.len(),
        ensures
            r.n == spec_be32_val(b@.subrange(at as int, at + 4)),
    {
        let blen = b.len();
        proof {
            assert(at + 4 <= blen);
        }
        let n = (b[at] as u32) * 0x1000000 + (b[at + 1] as u32) * 0x10000 + (b[at + 2] as u32)
            * 0x100 + (b[at + 3] as u32);
        proof {
            let s = b@.subrange(at as int, at + 4);
            assert(s[0] == b@[at as int] && s[1] == b@[at as int + 1] && s[2] == b@[at as int + 2]
                && s[3] == b@[at as int + 3]);
        }
        u32be { n }
    }
}

impl From<u32> for u32be {
    fn from(num: u32) -> (r: u32be) {
        u32be { n: num }
    }
}

impl vstd::std_specs::convert::FromSpecImpl<u32> for u32be {
    open spec fn obeys_from_spec() -> bool {
        true
    }

    open spec fn from_spec(num: u32) -> u32be {
        u32be { n: num }
    }
}

impl From<u32be> for u32 {
    fn from(be: u32be) -> (r: u32) {
        be.n
    }
}

impl vstd::std_specs::convert::FromSpecImpl<u32be> for u32 {
    open spec fn obeys_from_spec() -> bool {
        true
    }

    open spec fn from_spec(be: u32be) -> u32 {
        be.n
    }
}

/// A 16-bit value stored big-endian on disk.
#[derive(Debug, Clone, Copy, PartialEq, Eq, Structural)]
#[allow(non_camel_case_types)]
pub struct u16be {
    /// The numeric value.
    pub n: u16,
}

impl u16be {
    /// The two bytes of this value on disk.
    pub open spec fn spec_bytes(&self) -> Seq<u8> {
        spec_be16(self.n)
    }

    /// The numeric value.
    pub fn get(&self) -> (r: u16)
        ensures
            r == self.n,
    {
        self.n
    }

    /// Appends the two big-endian bytes to a buffer.
    pub fn emit(&self, out: &mut Vec<u8>)
        ensures
            final(out)@ == old(out)@ + self.spec_bytes(),
    {
        out.push((self.n / 0x100) as u8);
        out.push((self.n % 0x100) as u8);
        proof {
            assert(final(out)@ =~= old(out)@ + self.spec_bytes());
        }
    }

    /// Reads two big-endian bytes.
    pub fn read(b: &Vec<u8>, at: usize) -> (r: u16be)
        requires
            at + 2 <= b@.len(),
        ensures
            r.n == spec_be16_val(b@.subrange(at as int, at + 2)),
    {
        let blen = b.len();
        proof {
            assert(at + 2 <= blen);
        }
        let n = (b[at] as u16) * 0x100 + (b[at + 1] as u16);
        proof {
            let s = b@.subrange(at as int, at + 2);
            assert(s[0] == b@[at as int] && s[1] == b@[at as int + 1]);
        }
        u16be { n }
    }
}

impl From<u16> for u16be {
    fn from(num: u16) -> (r: u16be) {
        u16be { n: num }
    }
}

impl vstd::std_specs::convert::FromSpecImpl<u16> for u16be {
    open spec fn obeys_from_spec() -> bool {
        true
    }

    open spec fn from_spec(num: u16) -> u16be {
        u16be { n: num }
    }
}

impl From<u16be> for u16 {
    fn from(be: u16be) -> (r: u16) {
        be.n
    }
}

impl vstd::std_specs::convert::FromSpecImpl<u16be> for u16 {
    open spec fn obeys_from_spec() -> bool {
        true
    }

    open spec fn from_spec(be: u16be) -> u16 {
        be.n
    }
}

/// Decode failures of the index codec.
#[derive(Debug, Clone, Copy, PartialEq, Eq)]
pub enum IndexError {
    /// The version field is not 2.
    UnsupportedVersion(u32),
    /// The signature is not `DIRC`.
    BadMagic,
    /// The file ends before the promised entries do.
    Truncated,
    /// An entry's name length field is the unsupported overflow marker.
    UnsupportedNameLen,
    /// The entries are not strictly sorted ascending by name.
    Unsorted,
}

/// The fixed 62-byte part of an index entry, mirroring stat output.
#[derive(Debug, Clone, PartialEq, Eq)]
pub struct IndexMeta {
    /// Change time, seconds.
    pub ctime: u32be,
    /// Change time, nanoseconds.
    pub ctime_ns: u32be,
    /// Modification time, seconds.
    pub mtime: u32be,
    /// Modification time, nanoseconds.
    pub mtime_ns: u32be,
    /// Device number, zero when not recorded.
    pub dev: u32be,
    /// Inode number, zero when not recorded.
    pub ino: u32be,
    /// Object kind in the upper nibble, Unix permission in the low 9 bits.
    pub mode: u32be,
    /// Owner, zero when not recorded.
    pub uid: u32be,
    /// Group, zero when not recorded.
    pub gid: u32be,
    /// File length, low 32 bits.
    pub size: u32be,
    /// The identifier of the staged blob.
    pub id: Id,
    /// Low 12 bits are the name length.
    pub flags: u16be,
}

/// Spec-level mirror of the fixed entry part.
#[verifier::ext_equal]
pub struct IndexMetaV {
    /// Change time, seconds.
    pub ctime: u32,
    /// Change time, nanoseconds.
    pub ctime_ns: u32,
    /// Modification time, seconds.
    pub mtime: u32,
    /// Modification time, nanoseconds.
    pub mtime_ns: u32,
    /// Device number.
    pub dev: u32,
    /// Inode number.
    pub ino: u32,
    /// Mode word.
    pub mode: u32,
    /// Owner.
    pub uid: u32,
    /// Group.
    pub gid: u32,
    /// File length.
    pub size: u32,
    /// The identifier of the staged blob.
    pub id: Seq<u8>,
    /// Flags word.
    pub flags: u16,
}

impl View for IndexMeta {
    type V = IndexMetaV;

    open spec fn view(&self) -> IndexMetaV {
        IndexMetaV {
            ctime: self.ctime.n,
            ctime_ns: self.ctime_ns.n,
            mtime: self.mtime.n,
            mtime_ns: self.mtime_ns.n,
            dev: self.dev.n,
            ino: self.ino.n,
            mode: self.mode.n,
            uid: self.uid.n,
            gid: self.gid.n,
            size: self.size.n,
            id: self.id@,
            flags: self.flags.n,
        }
    }
}

/// One entry of the index: a repository-relative path and its metadata.
#[derive(Debug, Clone, PartialEq, Eq)]
pub struct IndexEntry {
    /// Repository-relative path, forward-slash joined.
    pub name: Vec<u8>,
    /// The fixed metadata record.
    pub meta: IndexMeta,
}

/// Spec-level mirror of an index entry.
#[verifier::ext_equal]
pub struct IndexEntryV {
    /// Repository-relative path.
    pub name: Seq<u8>,
    /// The fixed metadata record.
    pub meta: IndexMetaV,
}

impl View for IndexEntry {
    type V = IndexEntryV;

    open spec fn view(&self) -> IndexEntryV {
        IndexEntryV { name: self.name@, meta: self.meta@ }
    }
}

/// Files indexed in this index. Must be kept sorted.
pub type Index = Vec<IndexEntry>;

/// The view of a whole index.
pub open spec fn index_view(entries: Seq<IndexEntry>) -> Seq<IndexEntryV> {
    entries.map_values(|e: IndexEntry| e@)
}

/// Well-formedness of an index: strictly name-sorted entries whose flags
/// record the name length, with 20-byte identifiers.
pub open spec fn index_wf(es: Seq<IndexEntryV>) -> bool {
    &&& es.len() <= u32::MAX
    &&& forall|i: int| 0 <= i < es.len() ==> (#[trigger] es[i]).meta.id.len() == 20
    &&& forall|i: int| 0 <= i < es.len() ==> (#[trigger] es[i]).name.len() < 0xfff
    &&& forall|i: int|
        0 <= i < es.len() ==> (#[trigger] es[i]).meta.flags & 0xfff == es[i].name.len()
    &&& forall|i: int, j: int| 0 <= i < j < es.len() ==> lex_lt(#[trigger] es[i].name, #[trigger] es[j].name)
}

/// The 62 bytes of the fixed record.
#[verifier::opaque]
pub open spec fn spec_meta_bytes(m: IndexMetaV) -> Seq<u8> {
    spec_be32(m.ctime) + spec_be32(m.ctime_ns) + spec_be32(m.mtime) + spec_be32(m.mtime_ns)
        + spec_be32(m.dev) + spec_be32(m.ino) + spec_be32(m.mode) + spec_be32(m.uid) + spec_be32(
        m.gid,
    ) + spec_be32(m.size) + m.id + spec_be16(m.flags)
}

/// NUL padding after the name: to the next multiple of eight for the whole
/// record, with at least one byte.
pub open spec fn spec_pad_len(name_len: nat) -> nat {
    (8 - ((62 + name_len) % 8)) as nat
}

/// How many bytes the name and its padding occupy.
pub open spec fn spec_name_record_size(name_len: nat) -> nat {
    name_len + spec_pad_len(name_len)
}

/// A run of NUL bytes.
pub open spec fn zero_bytes(n: nat) -> Seq<u8> {
    Seq::new(n, |i: int| 0u8)
}

/// The bytes of one entry: fixed record, name, padding.
pub open spec fn spec_entry_bytes(e: IndexEntryV) -> Seq<u8> {
    spec_meta_bytes(e.meta) + e.name + zero_bytes(spec_pad_len(e.name.len()))
}

/// The bytes of all entries in order.
pub open spec fn spec_entries_bytes(es: Seq<IndexEntryV>) -> Seq<u8>
    decreases es.len(),
{
    if es.len() == 0 {
        Seq::empty()
    } else {
        spec_entry_bytes(es[0]) + spec_entries_bytes(es.skip(1))
    }
}

/// The ASCII signature `DIRC`.
pub open spec fn index_sig() -> Seq<u8> {
    seq![0x44u8, 0x49u8, 0x52u8, 0x43u8]
}

/// The header plus the entry records, without the trailer hash.
pub open spec fn spec_index_body(es: Seq<IndexEntryV>) -> Seq<u8> {
    index_sig() + spec_be32(2) + spec_be32(es.len() as u32) + spec_entries_bytes(es)
}

/// Finds the number of bytes that the name record in the index will occupy
/// (with padding).
pub fn name_record_size(name_length: usize) -> (r: usize)
    requires
        name_length < 0xfff,
    ensures
        r == spec_name_record_size(name_length as nat),
        name_length < r <= name_length + 8,
{
    let full: usize = 62 + name_length;
    let pad: usize = 8 - full % 8;
    name_length + pad
}

/// Appends the 62 bytes of the fixed record.
pub fn emit_meta(m: &IndexMeta, out: &mut Vec<u8>)
    ensures
        final(out)@ == old(out)@ + spec_meta_bytes(m@),
{
    m.ctime.emit(out);
    m.ctime_ns.emit(out);
    m.mtime.emit(out);
    m.mtime_ns.emit(out);
    m.dev.emit(out);
    m.ino.emit(out);
    m.mode.emit(out);
    m.uid.emit(out);
    m.gid.emit(out);
    m.size.emit(out);
    extend_vec(out, &m.id.bytes);
    m.flags.emit(out);
    proof {
        reveal(spec_meta_bytes);
        assert(final(out)@ =~= old(out)@ + spec_meta_bytes(m@));
    }
}

/// Serializes an index: header, entry records, and the SHA-1 trailer over
/// everything that precedes it.
#[verifier::rlimit(100)]
#[verifier::spinoff_prover]
pub fn write_to_file(index: &Index) -> (r: Vec<u8>)
    requires
        index_wf(index_view(index@)),
    ensures
        ({
            let body = spec_index_body(index_view(index@));
            &&& r@ == body + sha1_of(body)
            &&& r@.len() == body.len() + 20
            &&& r@.skip(r@.len() - 20) == sha1_of(r@.take(r@.len() - 20))
        }),
{
    let ghost ev = index_view(index@);
    let mut out: Vec<u8> = Vec::new();
    out.push(0x44);
    out.push(0x49);
    out.push(0x52);
    out.push(0x43);
    let version = u32be { n: 2 };
    version.emit(&mut out);
    let count = u32be { n: index.len() as u32 };
    count.emit(&mut out);
    let ghost header = out@;
    proof {
        assert(header =~= index_sig() + spec_be32(2) + spec_be32(ev.len() as u32));
        assert(ev.skip(0) =~= ev);
        assert(out@ + spec_entries_bytes(ev) =~= header + spec_entries_bytes(ev));
    }
    let mut i: usize = 0;
    while i < index.len()
        invariant
            i <= index@.len(),
            ev == index_view(index@),
            ev.len() == index@.len(),
            index_wf(ev),
            out@ + spec_entries_bytes(ev.skip(i as int)) == header + spec_entries_bytes(ev),
        decreases index@.len() - i,
    {
        let ghost out0 = out@;
        let e = &index[i];
        emit_meta(&e.meta, &mut out);
        extend_vec(&mut out, &e.name);
        proof {
            assert(ev[i as int] == index@[i as int]@);
            assert(out@ =~= out0 + spec_meta_bytes(ev[i as int].meta) + ev[i as int].name);
        }
        let namerecsz = name_record_size(e.name.len());
        let pad = namerecsz - e.name.len();
        let mut z: usize = 0;
        while z < pad
            invariant
                z <= pad,
                out@ == out0 + spec_meta_bytes(ev[i as int].meta) + ev[i as int].name + zero_bytes(
                    z as nat,
                ),
            decreases pad - z,
        {
            out.push(0x00);
            proof {
                assert(zero_bytes((z + 1) as nat) =~= zero_bytes(z as nat).push(0u8));
                assert(out0 + spec_meta_bytes(ev[i as int].meta) + ev[i as int].name + zero_bytes(
                    (z + 1) as nat,
                ) =~= (out0 + spec_meta_bytes(ev[i as int].meta) + ev[i as int].name + zero_bytes(
                    z as nat,
                )).push(0u8));
            }
            z = z + 1;
        }
        proof {
            assert(pad == spec_pad_len(ev[i as int].name.len()));
            assert(out@ =~= out0 + spec_entry_bytes(ev[i as int]));
            assert(ev.skip(i as int)[0] == ev[i as int]);
            assert(ev.skip(i as int).skip(1) =~= ev.skip(i as int + 1));
            assert(out@ + spec_entries_bytes(ev.skip(i as int + 1)) =~= out0 + spec_entries_bytes(
                ev.skip(i as int),
            ));
        }
        i = i + 1;
    }
    proof {
        assert(spec_entries_bytes(ev.skip(i as int)) =~= Seq::<u8>::empty());
        assert(out@ + Seq::<u8>::empty() =~= out@);
        assert(out@ == spec_index_body(ev));
    }
    let trailer = sha1_digest(&out);
    let ghost body = out@;
    extend_vec(&mut out, &trailer);
    proof {
        assert(out@.skip(out@.len() - 20) =~= sha1_of(body));
        assert(out@.take(out@.len() - 20) =~= body);
    }
    out
}

/// The fixed record decoded from the first 62 bytes of `s`.
#[verifier::opaque]
pub open spec fn spec_meta_parse(s: Seq<u8>) -> IndexMetaV {
    IndexMetaV {
        ctime: spec_be32_val(s.subrange(0, 4)),
        ctime_ns: spec_be32_val(s.subrange(4, 8)),
        mtime: spec_be32_val(s.subrange(8, 12)),
        mtime_ns: spec_be32_val(s.subrange(12, 16)),
        dev: spec_be32_val(s.subrange(16, 20)),
        ino: spec_be32_val(s.subrange(20, 24)),
        mode: spec_be32_val(s.subrange(24, 28)),
        uid: spec_be32_val(s.subrange(28, 32)),
        gid: spec_be32_val(s.subrange(32, 36)),
        size: spec_be32_val(s.subrange(36, 40)),
        id: s.subrange(40, 60),
        flags: spec_be16_val(s.subrange(60, 62)),
    }
}

/// Spec-level scan of `n` entry records, checking the sort order against the
/// previous name.
pub open spec fn spec_index_entries(s: Seq<u8>, n: nat, prev: Option<Seq<u8>>) -> Result<
    Seq<IndexEntryV>,
    IndexError,
>
    decreases n,
{
    if n == 0 {
        Ok(Seq::empty())
    } else if s.len() < 62 {
        Err(IndexError::Truncated)
    } else {
        let m = spec_meta_parse(s);
        let name_len = (m.flags & 0xfff) as nat;
        if name_len == 0xfff {
            Err(IndexError::UnsupportedNameLen)
        } else if s.len() < 62 + spec_name_record_size(name_len) {
            Err(IndexError::Truncated)
        } else {
            let name = s.subrange(62, 62 + name_len as int);
            let sorted_ok = match prev {
                None => true,
                Some(p) => lex_lt(p, name),
            };
            if !sorted_ok {
                Err(IndexError::Unsorted)
            } else {
                match spec_index_entries(
                    s.skip(62 + spec_name_record_size(name_len) as int),
                    (n - 1) as nat,
                    Some(name),
                ) {
                    Ok(rest) => Ok(seq![IndexEntryV { name, meta: m }] + rest),
                    Err(e) => Err(e),
                }
            }
        }
    }
}

/// Spec-level parse of a whole index file.  Bytes after the promised entries
/// (the trailer hash) are not interpreted.
pub open spec fn spec_index_parse(s: Seq<u8>) -> Result<Seq<IndexEntryV>, IndexError> {
    if s.len() < 12 {
        Err(IndexError::Truncated)
    } else if s.take(4) != index_sig() {
        Err(IndexError::BadMagic)
    } else if spec_be32_val(s.subrange(4, 8)) != 2 {
        Err(IndexError::UnsupportedVersion(spec_be32_val(s.subrange(4, 8))))
    } else {
        spec_index_entries(s.skip(12), spec_be32_val(s.subrange(8, 12)) as nat, None)
    }
}

/// Reads an index out of a serialized file.
#[verifier::rlimit(100)]
#[verifier::spinoff_prover]
pub fn parse(file: &Vec<u8>) -> (r: Result<Index, IndexError>)
    ensures
        match r {
            Ok(v) => spec_index_parse(file@) == Ok::<Seq<IndexEntryV>, IndexError>(index_view(v@)),
            Err(e) => spec_index_parse(file@) == Err::<Seq<IndexEntryV>, IndexError>(e),
        },
{
    let len = file.len();
    if len < 12 {
        return Err(IndexError::Truncated);
    }
    if !(file[0] == 0x44 && file[1] == 0x49 && file[2] == 0x52 && file[3] == 0x43) {
        proof {
            assert(file@.take(4) != index_sig()) by {
                if file@.take(4) == index_sig() {
                    assert(file@[0] == file@.take(4)[0]);
                    assert(file@[1] == file@.take(4)[1]);
                    assert(file@[2] == file@.take(4)[2]);
                    assert(file@[3] == file@.take(4)[3]);
                }
            }
        }
        return Err(IndexError::BadMagic);
    }
    proof {
        assert(file@.take(4) =~= index_sig());
    }
    let version = u32be::read(file, 4);
    if version.get() != 2 {
        return Err(IndexError::UnsupportedVersion(version.get()));
    }
    let count = u32be::read(file, 8);
    let num_entries = count.get();
    let mut files: Vec<IndexEntry> = Vec::new();
    let mut pos: usize = 12;
    let mut k: u32 = 0;
    proof {
        assert(index_view(files@) =~= Seq::<IndexEntryV>::empty());
    }
    while k < num_entries
        invariant
            k <= num_entries,
            12 <= pos <= file@.len(),
            len == file@.len(),
            k > 0 ==> files@.len() > 0,
            spec_index_parse(file@) == match spec_index_entries(
                file@.skip(pos as int),
                (num_entries - k) as nat,
                if files@.len() == 0 {
                    None
                } else {
                    Some(files@[files@.len() - 1]@.name)
                },
            ) {
                Ok(rest) => Ok::<Seq<IndexEntryV>, IndexError>(index_view(files@) + rest),
                Err(e) => Err::<Seq<IndexEntryV>, IndexError>(e),
            },
        decreases num_entries - k,
    {
        let ghost rem = file@.skip(pos as int);
        let ghost prev = if files@.len() == 0 {
            None
        } else {
            Some(files@[files@.len() - 1]@.name)
        };
        if len - pos < 62 {
            return Err(IndexError::Truncated);
        }
        let meta = IndexMeta {
            ctime: u32be::read(file, pos),
            ctime_ns: u32be::read(file, pos + 4),
            mtime: u32be::read(file, pos + 8),
            mtime_ns: u32be::read(file, pos + 12),
            dev: u32be::read(file, pos + 16),
            ino: u32be::read(file, pos + 20),
            mode: u32be::read(file, pos + 24),
            uid: u32be::read(file, pos + 28),
            gid: u32be::read(file, pos + 32),
            size: u32be::read(file, pos + 36),
            id: Id { bytes: subvec(file, pos + 40, pos + 60) },
            flags: u16be::read(file, pos + 60),
        };
        proof {
            assert(rem.subrange(0, 4) =~= file@.subrange(pos as int, pos + 4));
            assert(rem.subrange(4, 8) =~= file@.subrange(pos + 4, pos + 8));
            assert(rem.subrange(8, 12) =~= file@.subrange(pos + 8, pos + 12));
            assert(rem.subrange(12, 16) =~= file@.subrange(pos + 12, pos + 16));
            assert(rem.subrange(16, 20) =~= file@.subrange(pos + 16, pos + 20));
            assert(rem.subrange(20, 24) =~= file@.subrange(pos + 20, pos + 24));
            assert(rem.subrange(24, 28) =~= file@.subrange(pos + 24, pos + 28));
            assert(rem.subrange(28, 32) =~= file@.subrange(pos + 28, pos + 32));
            assert(rem.subrange(32, 36) =~= file@.subrange(pos + 32, pos + 36));
            assert(rem.subrange(36, 40) =~= file@.subrange(pos + 36, pos + 40));
            assert(rem.subrange(40, 60) =~= file@.subrange(pos + 40, pos + 60));
            assert(rem.subrange(60, 62) =~= file@.subrange(pos + 60, pos + 62));
            reveal(spec_meta_parse);
            assert(meta@ =~= spec_meta_parse(rem));
        }
        let flags_val = meta.flags.get();
        let nl16: u16 = flags_val & 0xfff;
        let name_length = nl16 as usize;
        proof {
            assert((flags_val & 0xfff) < 0x1000) by (bit_vector);
        }
        if name_length == 0xfff {
            return Err(IndexError::UnsupportedNameLen);
        }
        let record_sz = name_record_size(name_length);
        if len - pos - 62 < record_sz {
            return Err(IndexError::Truncated);
        }
        let name = subvec(file, pos + 62, pos + 62 + name_length);
        proof {
            assert(name@ =~= rem.subrange(62, 62 + name_length));
        }
        let sorted_ok: bool = if files.len() == 0 {
            true
        } else {
            lex_lt_bytes(&files[files.len() - 1].name, &name)
        };
        if !sorted_ok {
            return Err(IndexError::Unsorted);
        }
        let entry = IndexEntry { name, meta };
        proof {
            let ghost ev = IndexEntryV { name: entry.name@, meta: spec_meta_parse(rem) };
            assert(entry@ =~= ev);
            assert(rem.skip(62 + spec_name_record_size(name_length as nat) as int) =~= file@.skip(
                pos + 62 + record_sz,
            ));
            assert(index_view(files@.push(entry)) =~= index_view(files@).push(entry@));
            match spec_index_entries(
                rem.skip(62 + spec_name_record_size(name_length as nat) as int),
                (num_entries - k - 1) as nat,
                Some(entry@.name),
            ) {
                Ok(rest) => {
                    assert(index_view(files@) + (seq![entry@] + rest) =~= index_view(
                        files@,
                    ).push(entry@) + rest);
                },
                Err(_) => {},
            }
        }
        files.push(entry);
        pos = pos + 62 + record_sz;
        k = k + 1;
        proof {
            assert(files@[files@.len() - 1]@.name == files@.last()@.name);
        }
    }
    proof {
        assert(spec_index_entries(
            file@.skip(pos as int),
            0,
            if files@.len() == 0 {
                None
            } else {
                Some(files@[files@.len() - 1]@.name)
            },
        ) == Ok::<Seq<IndexEntryV>, IndexError>(Seq::<IndexEntryV>::empty()));
        assert(index_view(files@) + Seq::<IndexEntryV>::empty() =~= index_view(files@));
    }
    Ok(files)
}

/// The fixed record parses back from its own bytes, whatever follows them.
#[verifier::rlimit(100)]
#[verifier::spinoff_prover]
proof fn lemma_meta_parse_bytes(m: IndexMetaV, rest: Seq<u8>)
    requires
        m.id.len() == 20,
    ensures
        spec_meta_bytes(m).len() == 62,
        spec_meta_parse(spec_meta_bytes(m) + rest) == m,
{
    reveal(spec_meta_bytes);
    reveal(spec_meta_parse);
    let s = spec_meta_bytes(m) + rest;
    assert(s.subrange(0, 4) =~= spec_be32(m.ctime));
    assert(s.subrange(4, 8) =~= spec_be32(m.ctime_ns));
    assert(s.subrange(8, 12) =~= spec_be32(m.mtime));
    assert(s.subrange(12, 16) =~= spec_be32(m.mtime_ns));
    assert(s.subrange(16, 20) =~= spec_be32(m.dev));
    assert(s.subrange(20, 24) =~= spec_be32(m.ino));
    assert(s.subrange(24, 28) =~= spec_be32(m.mode));
    assert(s.subrange(28, 32) =~= spec_be32(m.uid));
    assert(s.subrange(32, 36) =~= spec_be32(m.gid));
    assert(s.subrange(36, 40) =~= spec_be32(m.size));
    assert(s.subrange(40, 60) =~= m.id);
    assert(s.subrange(60, 62) =~= spec_be16(m.flags));
    lemma_be32_round_trip(m.ctime);
    lemma_be32_round_trip(m.ctime_ns);
    lemma_be32_round_trip(m.mtime);
    lemma_be32_round_trip(m.mtime_ns);
    lemma_be32_round_trip(m.dev);
    lemma_be32_round_trip(m.ino);
    lemma_be32_round_trip(m.mode);
    lemma_be32_round_trip(m.uid);
    lemma_be32_round_trip(m.gid);
    lemma_be32_round_trip(m.size);
    lemma_be16_round_trip(m.flags);
    assert(spec_meta_parse(s) =~= m);
}

/// Scanning the encoded entries gives back the original entries, whatever
/// bytes follow them.
#[verifier::rlimit(100)]
#[verifier::spinoff_prover]
proof fn lemma_index_entries_round_trip(es: Seq<IndexEntryV>, prev: Option<Seq<u8>>, t: Seq<u8>)
    requires
        index_wf(es),
        match prev {
            None => true,
            Some(p) => es.len() > 0 ==> lex_lt(p, es[0].name),
        },
    ensures
        spec_index_entries(spec_entries_bytes(es) + t, es.len(), prev) == Ok::<
            Seq<IndexEntryV>,
            IndexError,
        >(es),
    decreases es.len(),
{
    if es.len() == 0 {
        assert(es =~= Seq::<IndexEntryV>::empty());
    } else {
        let e = es[0];
        let mb = spec_meta_bytes(e.meta);
        assert(e.meta.id.len() == 20);
        let padn = spec_pad_len(e.name.len());
        let pad = zero_bytes(padn);
        let s = spec_entries_bytes(es) + t;
        let rest = spec_entries_bytes(es.skip(1)) + t;
        lemma_meta_parse_bytes(e.meta, e.name + pad + rest);
        assert(mb.len() == 62);
        assert(s =~= mb + (e.name + pad + rest));
        assert(s.len() >= 62);
        assert(spec_meta_parse(s) == e.meta);
        let name_len = (e.meta.flags & 0xfff) as nat;
        assert(name_len == e.name.len());
        assert(name_len < 0xfff);
        assert(s.len() >= 62 + spec_name_record_size(name_len));
        assert(s.subrange(62, 62 + name_len as int) =~= e.name);
        assert(s.skip(62 + spec_name_record_size(name_len) as int) =~= rest);
        assert(index_wf(es.skip(1))) by {
            assert(forall|j: int| 0 <= j < es.skip(1).len() ==> es.skip(1)[j] == es[j + 1]);
        }
        assert(es.skip(1).len() > 0 ==> lex_lt(e.name, es.skip(1)[0].name)) by {
            if es.len() > 1 {
                assert(es.skip(1)[0] == es[1]);
            }
        }
        lemma_index_entries_round_trip(es.skip(1), Some(e.name), t);
        let parsed = IndexEntryV { name: s.subrange(62, 62 + name_len as int), meta: spec_meta_parse(s) };
        assert(parsed =~= e);
        assert(seq![parsed] + es.skip(1) =~= es);
    }
}

/// Parsing a serialized index gives back the original, entry for entry and
/// byte for byte, whatever trailer follows the entries.
pub proof fn lemma_index_round_trip(es: Seq<IndexEntryV>, t: Seq<u8>)
    requires
        index_wf(es),
    ensures
        spec_index_parse(spec_index_body(es) + t) == Ok::<Seq<IndexEntryV>, IndexError>(es),
{
    let s = spec_index_body(es) + t;
    assert(s.len() >= 12);
    assert(s.take(4) =~= index_sig());
    assert(s.subrange(4, 8) =~= spec_be32(2));
    assert(s.subrange(8, 12) =~= spec_be32(es.len() as u32));
    lemma_be32_round_trip(2);
    lemma_be32_round_trip(es.len() as u32);
    assert(s.skip(12) =~= spec_entries_bytes(es) + t);
    lemma_index_entries_round_trip(es, None, t);
}

/// The Unix-only part of a stat result; zero means "not recorded".
#[derive(Debug, Clone, Copy, PartialEq, Eq)]
pub struct UnixStat {
    /// Device number.
    pub dev: u32,
    /// Inode number.
    pub ino: u32,
    /// Owner.
    pub uid: u32,
    /// Group.
    pub gid: u32,
    /// Whether the file is executable.
    pub executable: bool,
}

/// A platform stat result reduced to the fields the index records.
#[derive(Debug, Clone, Copy, PartialEq, Eq)]
pub struct StatInfo {
    /// Change time (seconds, nanoseconds).
    pub ctime: (u32, u32),
    /// Modification time (seconds, nanoseconds).
    pub mtime: (u32, u32),
    /// File length, low 32 bits.
    pub size: u32,
    /// Unix-only fields.
    pub unix_stat: UnixStat,
}

/// The mode word recorded for a file with the given Unix stat.
pub open spec fn spec_unix_mode(u: UnixStat) -> u32 {
    if u.executable {
        0o100755u32
    } else {
        0o100644u32
    }
}

/// Stat equality: times and size exactly; `dev`, `ino`, `uid`, `gid` are
/// excluded when zero on either side; the executable bit exactly.
pub open spec fn spec_stat_eq(a: StatInfo, b: StatInfo) -> bool {
    &&& a.ctime == b.ctime
    &&& a.mtime == b.mtime
    &&& a.size == b.size
    &&& (a.unix_stat.dev == 0 || b.unix_stat.dev == 0 || a.unix_stat.dev == b.unix_stat.dev)
    &&& (a.unix_stat.ino == 0 || b.unix_stat.ino == 0 || a.unix_stat.ino == b.unix_stat.ino)
    &&& (a.unix_stat.uid == 0 || b.unix_stat.uid == 0 || a.unix_stat.uid == b.unix_stat.uid)
    &&& (a.unix_stat.gid == 0 || b.unix_stat.gid == 0 || a.unix_stat.gid == b.unix_stat.gid)
    &&& a.unix_stat.executable == b.unix_stat.executable
}

impl UnixStat {
    /// The mode word to record for a file with these fields.
    pub fn mode(&self) -> (r: u32)
        ensures
            r == spec_unix_mode(*self),
    {
        if self.executable {
            0o100755
        } else {
            0o100644
        }
    }
}

impl StatInfo {
    /// Whether two stat results count as equal for the fast path.
    pub fn matches(&self, other: &StatInfo) -> (r: bool)
        ensures
            r == spec_stat_eq(*self, *other),
    {
        let (cs, cn) = self.ctime;
        let (ocs, ocn) = other.ctime;
        let (ms, mn) = self.mtime;
        let (oms, omn) = other.mtime;
        cs == ocs && cn == ocn && ms == oms && mn == omn && self.size == other.size && (
        self.unix_stat.dev == 0 || other.unix_stat.dev == 0 || self.unix_stat.dev
            == other.unix_stat.dev) && (self.unix_stat.ino == 0 || other.unix_stat.ino == 0
            || self.unix_stat.ino == other.unix_stat.ino) && (self.unix_stat.uid == 0
            || other.unix_stat.uid == 0 || self.unix_stat.uid == other.unix_stat.uid) && (
        self.unix_stat.gid == 0 || other.unix_stat.gid == 0 || self.unix_stat.gid
            == other.unix_stat.gid) && self.unix_stat.executable == other.unix_stat.executable
    }
}

/// The stat fields recorded in a fixed index record.
pub open spec fn spec_meta_statinfo(m: IndexMetaV) -> StatInfo {
    StatInfo {
        ctime: (m.ctime, m.ctime_ns),
        mtime: (m.mtime, m.mtime_ns),
        size: m.size,
        unix_stat: UnixStat {
            dev: m.dev,
            ino: m.ino,
            uid: m.uid,
            gid: m.gid,
            executable: (m.mode & 0x1ff) == 0o755,
        },
    }
}

/// The fixed record for a fresh file with the given name length, blob
/// identifier, and stat result.
pub open spec fn spec_new_meta(name: Seq<u8>, id: Seq<u8>, st: StatInfo) -> IndexMetaV {
    IndexMetaV {
        ctime: st.ctime.0,
        ctime_ns: st.ctime.1,
        mtime: st.mtime.0,
        mtime_ns: st.mtime.1,
        dev: st.unix_stat.dev,
        ino: st.unix_stat.ino,
        mode: spec_unix_mode(st.unix_stat),
        uid: st.unix_stat.uid,
        gid: st.unix_stat.gid,
        size: st.size,
        id: id,
        flags: name.len() as u16,
    }
}

impl IndexMeta {
    /// The stat fields recorded in this record.
    pub fn statinfo(&self) -> (r: StatInfo)
        ensures
            r == spec_meta_statinfo(self@),
    {
        StatInfo {
            ctime: (self.ctime.get(), self.ctime_ns.get()),
            mtime: (self.mtime.get(), self.mtime_ns.get()),
            size: self.size.get(),
            unix_stat: UnixStat {
                dev: self.dev.get(),
                ino: self.ino.get(),
                uid: self.uid.get(),
                gid: self.gid.get(),
                executable: (self.mode.get() & 0x1ff) == 0o755,
            },
        }
    }

    /// Generates the metadata for a file as it would be if it were added to
    /// the index: the given stat fields, the blob identifier, and a flags
    /// word holding the name length.
    pub fn new_from_file(filename: &Vec<u8>, id: Id, stat: &StatInfo) -> (r: IndexMeta)
        requires
            id.wf(),
            filename@.len() < 0xfff,
        ensures
            r@ == spec_new_meta(filename@, id@, *stat),
            r@.flags & 0xfff == filename@.len(),
    {
        let nlen = filename.len();
        let flags: u16 = (nlen & 0xfff) as u16;
        proof {
            let n = nlen;
            assert(((n & 0xfff) as u16) == n as u16 && ((n as u16) & 0xfff) == n as u16)
                by (bit_vector)
                requires
                    n < 0xfff,
            ;
        }
        let r = IndexMeta {
            ctime: u32be { n: stat.ctime.0 },
            ctime_ns: u32be { n: stat.ctime.1 },
            mtime: u32be { n: stat.mtime.0 },
            mtime_ns: u32be { n: stat.mtime.1 },
            dev: u32be { n: stat.unix_stat.dev },
            ino: u32be { n: stat.unix_stat.ino },
            mode: u32be { n: stat.unix_stat.mode() },
            uid: u32be { n: stat.unix_stat.uid },
            gid: u32be { n: stat.unix_stat.gid },
            size: u32be { n: stat.size },
            id,
            flags: u16be { n: flags },
        };
        proof {
            assert(r@ =~= spec_new_meta(filename@, r.id@, *stat));
        }
        r
    }
}

/// The identifier a blob with the given content is stored under.
pub open spec fn spec_blob_id(content: Seq<u8>) -> Seq<u8> {
    sha1_of(spec_store_preimage(kw_blob(), content))
}

impl IndexEntry {
    /// Whether the file matching this entry is unchanged: the fast path
    /// compares stat results; on a mismatch, the content's blob identifier
    /// decides.
    pub fn is_same_as_tree(&self, stat: &StatInfo, content: &Vec<u8>) -> (r: bool)
        ensures
            r == (spec_stat_eq(spec_meta_statinfo(self@.meta), *stat) || self@.meta.id
                == spec_blob_id(content@)),
    {
        if self.meta.statinfo().matches(stat) {
            return true;
        }
        let blob = Blob::load(content.as_slice());
        let (id, _compressed) = Object::prepare_store(&blob);
        self.meta.id.same(&id)
    }
}

/// First entry with the given name, if any.
pub open spec fn spec_index_find(es: Seq<IndexEntryV>, name: Seq<u8>) -> Option<int>
    decreases es.len(),
{
    if es.len() == 0 {
        None
    } else if es[0].name == name {
        Some(0)
    } else {
        match spec_index_find(es.skip(1), name) {
            Some(i) => Some(i + 1),
            None => None,
        }
    }
}

/// `spec_index_find` returns the first entry with the name.
pub proof fn lemma_index_find_char(es: Seq<IndexEntryV>, name: Seq<u8>)
    ensures
        match spec_index_find(es, name) {
            Some(i) => 0 <= i < es.len() && es[i].name == name && forall|j: int|
                0 <= j < i ==> (#[trigger] es[j]).name != name,
            None => forall|j: int| 0 <= j < es.len() ==> (#[trigger] es[j]).name != name,
        },
    decreases es.len(),
{
    if es.len() > 0 && es[0].name != name {
        lemma_index_find_char(es.skip(1), name);
        assert(forall|j: int| 1 <= j < es.len() ==> es[j] == es.skip(1)[j - 1]);
    }
}

/// How many leading entries sort strictly before the given name.
pub open spec fn spec_lower_bound(es: Seq<IndexEntryV>, name: Seq<u8>) -> int
    decreases es.len(),
{
    if es.len() == 0 {
        0
    } else if lex_lt(es[0].name, name) {
        1 + spec_lower_bound(es.skip(1), name)
    } else {
        0
    }
}

/// The lower bound splits the entries at the insertion point.
pub proof fn lemma_lower_bound_char(es: Seq<IndexEntryV>, name: Seq<u8>)
    ensures
        0 <= spec_lower_bound(es, name) <= es.len(),
        forall|j: int|
            0 <= j < spec_lower_bound(es, name) ==> lex_lt((#[trigger] es[j]).name, name),
        spec_lower_bound(es, name) < es.len() ==> !lex_lt(
            es[spec_lower_bound(es, name)].name,
            name,
        ),
    decreases es.len(),
{
    if es.len() > 0 && lex_lt(es[0].name, name) {
        lemma_lower_bound_char(es.skip(1), name);
        assert(forall|j: int| 1 <= j < es.len() ==> es[j] == es.skip(1)[j - 1]);
    }
}

/// The entry recorded when `filename` is added with the given stat result.
pub open spec fn spec_added_entry(filename: Seq<u8>, content: Seq<u8>, st: StatInfo) -> IndexEntryV {
    IndexEntryV { name: filename, meta: spec_new_meta(filename, spec_blob_id(content), st) }
}

/// Ensures a file is in an index.  If the entry exists and its recorded stat
/// fields equal the fresh ones, the recorded identifier is returned and
/// nothing changes.  If it exists with different stat fields, the entry is
/// rebuilt from the content's blob.  Otherwise a new entry is inserted at its
/// sorted position.  The caller stores the blob itself.
#[verifier::rlimit(100)]
#[verifier::spinoff_prover]
pub fn add_to_index(index: &mut Index, filename: &Vec<u8>, stat: &StatInfo, content: &Vec<u8>) -> (r:
    Id)
    requires
        index_wf(index_view(old(index)@)),
        old(index)@.len() < u32::MAX,
        filename@.len() < 0xfff,
    ensures
        r.wf(),
        index_wf(index_view(final(index)@)),
        ({
            let oldv = index_view(old(index)@);
            let newv = index_view(final(index)@);
            match spec_index_find(oldv, filename@) {
                Some(i) => if spec_stat_eq(spec_meta_statinfo(oldv[i].meta), *stat) {
                    newv == oldv && r@ == oldv[i].meta.id
                } else {
                    newv == oldv.update(i, spec_added_entry(filename@, content@, *stat)) && r@
                        == spec_blob_id(content@)
                },
                None => newv == oldv.insert(
                    spec_lower_bound(oldv, filename@),
                    spec_added_entry(filename@, content@, *stat),
                ) && r@ == spec_blob_id(content@),
            }
        }),
{
    let ghost oldv = index_view(index@);
    proof {
        lemma_index_find_char(oldv, filename@);
        lemma_lower_bound_char(oldv, filename@);
    }
    let mut found: Option<usize> = None;
    let mut i: usize = 0;
    while i < index.len()
        invariant
            i <= index@.len(),
            oldv == index_view(index@),
            oldv.len() == index@.len(),
            found matches Some(f) ==> f < index@.len() && spec_index_find(oldv, filename@)
                == Some(f as int),
            found is None ==> forall|j: int| 0 <= j < i ==> (#[trigger] oldv[j]).name != filename@,
            found is None && i < index@.len() ==> true,
        decreases index@.len() - i,
    {
        if found.is_none() && bytes_eq(&index[i].name, filename) {
            found = Some(i);
            proof {
                lemma_index_find_char(oldv, filename@);
                assert(oldv[i as int].name == filename@);
                match spec_index_find(oldv, filename@) {
                    Some(k) => {
                        if k < i {
                            assert(oldv[k].name == filename@);
                            assert(false);
                        }
                        if i < k {
                            assert(oldv[i as int].name != filename@);
                            assert(false);
                        }
                    },
                    None => {
                        assert(oldv[i as int].name != filename@);
                        assert(false);
                    },
                }
            }
        }
        i = i + 1;
    }
    match found {
        Some(f) => {
            if index[f].meta.statinfo().matches(stat) {
                return index[f].meta.id.dup();
            }
            let blob = Blob::load(content.as_slice());
            let (id, _compressed) = Object::prepare_store(&blob);
            let r = id.dup();
            let meta = IndexMeta::new_from_file(filename, id, stat);
            let name = subvec(filename, 0, filename.len());
            proof {
                assert(name@ =~= filename@);
            }
            let entry = IndexEntry { name, meta };
            index.set(f, entry);
            proof {
                let newv = index_view(index@);
                assert(newv =~= oldv.update(
                    f as int,
                    spec_added_entry(filename@, content@, *stat),
                ));
                assert(newv.len() == oldv.len());
                assert(index_wf(newv)) by {
                    assert(newv[f as int].name =~= oldv[f as int].name);
                    assert forall|j: int| 0 <= j < newv.len() implies (#[trigger] newv[j]).name
                        == oldv[j].name by {}
                    assert(newv[f as int].meta.id.len() == 20);
                    assert(newv[f as int].meta.flags & 0xfff == newv[f as int].name.len());
                    assert forall|j: int| 0 <= j < newv.len() implies (#[trigger] newv[j]).meta.id.len()
                        == 20 && newv[j].name.len() < 0xfff && newv[j].meta.flags & 0xfff
                        == newv[j].name.len() by {
                        if j != f {
                            assert(newv[j] == oldv[j]);
                            assert(oldv[j].meta.id.len() == 20);
                        }
                    }
                    assert forall|a: int, b: int| 0 <= a < b < newv.len() implies lex_lt(
                        (#[trigger] newv[a]).name,
                        (#[trigger] newv[b]).name,
                    ) by {
                        assert(lex_lt(oldv[a].name, oldv[b].name));
                        assert(newv[a].name == oldv[a].name);
                        assert(newv[b].name == oldv[b].name);
                    }
                    assert(newv.len() <= u32::MAX);
                    assert(forall|i2: int| 0 <= i2 < newv.len() ==> (#[trigger] newv[i2]).meta.id.len() == 20);
                    assert(forall|i2: int| 0 <= i2 < newv.len() ==> (#[trigger] newv[i2]).name.len() < 0xfff);
                    assert(forall|i2: int|
                        0 <= i2 < newv.len() ==> (#[trigger] newv[i2]).meta.flags & 0xfff == newv[i2].name.len());
                    assert(forall|i2: int, j2: int|
                        0 <= i2 < j2 < newv.len() ==> lex_lt(
                            (#[trigger] newv[i2]).name,
                            (#[trigger] newv[j2]).name,
                        ));
                }
            }
            r
        },
        None => {
            proof {
                match spec_index_find(oldv, filename@) {
                    Some(k) => {
                        assert(oldv[k].name == filename@);
                    },
                    None => {},
                }
            }
            let blob = Blob::load(content.as_slice());
            let (id, _compressed) = Object::prepare_store(&blob);
            let r = id.dup();
            let meta = IndexMeta::new_from_file(filename, id, stat);
            let name = subvec(filename, 0, filename.len());
            proof {
                assert(name@ =~= filename@);
            }
            let entry = IndexEntry { name, meta };
            let mut p: usize = 0;
            while p < index.len() && lex_lt_bytes(&index[p].name, filename)
                invariant
                    p <= index@.len(),
                    oldv == index_view(index@),
                    oldv.len() == index@.len(),
                    forall|j: int| 0 <= j < p ==> lex_lt((#[trigger] oldv[j]).name, filename@),
                decreases index@.len() - p,
            {
                p = p + 1;
            }
            proof {
                let lb = spec_lower_bound(oldv, filename@);
                assert(p == lb) by {
                    if p < lb {
                        assert(lex_lt(oldv[p as int].name, filename@));
                    }
                    if lb < p {
                        assert(lex_lt(oldv[lb].name, filename@));
                    }
                }
            }
            index.insert(p, entry);
            proof {
                let newv = index_view(index@);
                let lb = spec_lower_bound(oldv, filename@);
                assert(newv =~= oldv.insert(lb, spec_added_entry(filename@, content@, *stat)));
                assert(index_wf(newv)) by {
                    let added = spec_added_entry(filename@, content@, *stat);
                    assert(newv =~= oldv.take(lb) + seq![added] + oldv.skip(lb));
                    assert forall|j: int| 0 <= j < newv.len() implies (#[trigger] newv[j]) == (
                    if j < lb {
                        oldv[j]
                    } else if j == lb {
                        added
                    } else {
                        oldv[j - 1]
                    }) by {
                        if j < lb {
                            assert(newv[j] == oldv.take(lb)[j]);
                        } else if j > lb {
                            assert(newv[j] == oldv.skip(lb)[j - lb - 1]);
                        }
                    }
                    assert forall|j: int| 0 <= j < newv.len() implies (#[trigger] newv[j]).meta.id.len()
                        == 20 && newv[j].name.len() < 0xfff && newv[j].meta.flags & 0xfff
                        == newv[j].name.len() by {
                        if j < lb {
                            assert(newv[j] == oldv[j]);
                        } else if j > lb {
                            assert(newv[j] == oldv[j - 1]);
                        }
                    }
                    assert(lb < oldv.len() ==> lex_lt(filename@, oldv[lb].name)) by {
                        if lb < oldv.len() {
                            crate::bytes::lemma_lex_trichotomy(oldv[lb].name, filename@);
                            assert(oldv[lb].name != filename@);
                        }
                    }
                    assert forall|a: int, b: int| 0 <= a < b < newv.len() implies lex_lt(
                        (#[trigger] newv[a]).name,
                        (#[trigger] newv[b]).name,
                    ) by {
                        if b < lb {
                            assert(lex_lt(oldv[a].name, oldv[b].name));
                        } else if b == lb {
                            assert(lex_lt(oldv[a].name, filename@));
                        } else if a < lb {
                            assert(a <= b - 1 && a < lb <= b - 1);
                            assert(lex_lt(oldv[a].name, oldv[b - 1].name));
                        } else if a == lb {
                            assert(lex_lt(filename@, oldv[lb].name));
                            if b - 1 > lb {
                                assert(lex_lt(oldv[lb].name, oldv[b - 1].name));
                                crate::bytes::lemma_lex_transitive(
                                    filename@,
                                    oldv[lb].name,
                                    oldv[b - 1].name,
                                );
                            }
                        } else {
                            assert(lex_lt(oldv[a - 1].name, oldv[b - 1].name));
                        }
                    }
                    assert(newv.len() <= u32::MAX);
                    assert(forall|i2: int|
                        0 <= i2 < newv.len() ==> (#[trigger] newv[i2]).meta.id.len() == 20);
                    assert(forall|i2: int|
                        0 <= i2 < newv.len() ==> (#[trigger] newv[i2]).name.len() < 0xfff);
                    assert(forall|i2: int|
                        0 <= i2 < newv.len() ==> (#[trigger] newv[i2]).meta.flags & 0xfff
                            == newv[i2].name.len());
                    assert(forall|i2: int, j2: int|
                        0 <= i2 < j2 < newv.len() ==> lex_lt(
                            (#[trigger] newv[i2]).name,
                            (#[trigger] newv[j2]).name,
                        ));
                }
            }
            r
        },
    }
}

} // verus!
