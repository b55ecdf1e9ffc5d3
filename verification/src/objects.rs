//! Object model and codec: identifiers, blobs, trees, commits, and the
//! stored form `tag SP size NUL payload`.

use crate::bytes::{bytes_eq, contains_byte, extend_vec, find_byte, subvec};
use crate::hash::{sha1_digest, sha1_of, zlib_compress, zlib_inflate_of};
use crate::num::{
    _decode_hex_digit, dec_of_u64, oct_of, parse_hex, parse_octal, spec_dec_of, spec_hex_of,
    spec_oct_of, spec_parse_hex, spec_parse_octal, to_hex,
};
use vstd::prelude::*;

verus! {

/// A fixed 20-byte object identifier; its canonical external form is 40
/// lowercase hex digits.
#[derive(Debug, Clone, PartialEq, Eq)]
pub struct Id {
    pub bytes: Vec<u8>,
}

impl View for Id {
    type V = Seq<u8>;

    open spec fn view(&self) -> Seq<u8> {
        self.bytes@
    }
}

/// Spec-level parse of a 40-character hex identifier.
pub open spec fn spec_id_parse(s: Seq<u8>) -> Option<Seq<u8>> {
    if s.len() == 40 {
        spec_parse_hex(s)
    } else {
        None
    }
}

impl Id {
    /// An identifier is exactly 20 bytes.
    pub open spec fn wf(&self) -> bool {
        self@.len() == 20
    }

    /// Decodes an identifier from its 40-character hex representation.
    pub fn from(s: &[u8]) -> (r: Option<Id>)
        ensures
            match r {
                Some(id) => id.wf() && spec_id_parse(s@) == Some(id@),
                None => spec_id_parse(s@) is None,
            },
    {
        if s.len() != 40 {
            return None;
        }
        let decoded = parse_hex(s)?;
        proof {
            crate::num::lemma_hex_parse_len(s@);
        }
        Some(Id { bytes: decoded })
    }

    /// The 40-character lowercase hex form of this identifier.
    pub fn hex(&self) -> (r: Vec<u8>)
        ensures
            r@ == spec_hex_of(self@),
            r@.len() == 2 * self@.len(),
    {
        to_hex(&self.bytes)
    }

    /// A verified copy of this identifier.
    pub fn dup(&self) -> (r: Id)
        ensures
            r@ == self@,
    {
        Id { bytes: subvec(&self.bytes, 0, self.bytes.len()) }
    }

    /// Byte-wise equality of two identifiers.
    pub fn same(&self, other: &Id) -> (r: bool)
        ensures
            r == (self@ == other@),
    {
        bytes_eq(&self.bytes, &other.bytes)
    }
}

/// One entry of a tree object: a mode, a name, and an identifier.
#[derive(Debug, Clone, PartialEq, Eq)]
pub struct File {
    pub mode: u32,
    pub name: Vec<u8>,
    pub id: Id,
}

/// Spec-level mirror of a tree entry.
pub struct FileV {
    pub mode: u32,
    pub name: Seq<u8>,
    pub id: Seq<u8>,
}

impl View for File {
    type V = FileV;

    open spec fn view(&self) -> FileV {
        FileV { mode: self.mode, name: self.name@, id: self.id@ }
    }
}

/// A tree object: an ordered sequence of entries.
#[derive(Debug, Clone, PartialEq, Eq)]
pub struct Tree {
    pub files: Vec<File>,
}

impl View for Tree {
    type V = Seq<FileV>;

    open spec fn view(&self) -> Seq<FileV> {
        self.files@.map_values(|f: File| f@)
    }
}

/// A blob object: an opaque byte sequence.
#[derive(Debug, Clone, PartialEq, Eq)]
pub struct Blob {
    pub content: Vec<u8>,
}

impl View for Blob {
    type V = Seq<u8>;

    open spec fn view(&self) -> Seq<u8> {
        self.content@
    }
}

/// Decode failures of the object codec, one per malformed field.
#[derive(Debug, Clone, Copy, PartialEq, Eq)]
pub enum ObjectError {
    /// The stored form has no NUL after its header or an unknown tag.
    Tag,
    /// A tree entry has a malformed mode field.
    TreeEntryMode,
    /// A tree entry has no NUL terminating its name.
    TreeEntryName,
    /// A tree entry is truncated before the end of its identifier.
    TreeEntryId,
    /// A commit header line has a malformed `tree` value.
    Tree,
    /// A commit header line has a malformed `parent` value.
    Parent,
    /// A commit header line has a malformed `author` value.
    Author,
    /// A commit header line has a malformed `committer` value.
    Committer,
    /// A commit header line has no key/value structure.
    Header,
    /// The commit header ended without an empty line.
    Eof,
    /// The commit header is missing its `tree` line.
    MissingTree,
    /// The commit header is missing its `author` line.
    MissingAuthor,
    /// The commit header is missing its `committer` line.
    MissingCommitter,
}

impl Blob {
    /// Wraps raw bytes as a blob.
    pub fn load(content: &[u8]) -> (r: Blob)
        ensures
            r@ == content@,
    {
        let mut v: Vec<u8> = Vec::new();
        let mut i: usize = 0;
        while i < content.len()
            invariant
                i <= content@.len(),
                v@ == content@.subrange(0, i as int),
            decreases content@.len() - i,
        {
            v.push(content[i]);
            proof {
                assert(content@.subrange(0, i + 1 as int) =~= content@.subrange(
                    0,
                    i as int,
                ).push(content@[i as int]));
            }
            i = i + 1;
        }
        proof {
            assert(content@.subrange(0, content@.len() as int) =~= content@);
        }
        Blob { content: v }
    }
}

impl File {
    /// A directory entry: the object-kind bits of the mode are `0o040`.
    pub open spec fn spec_is_dir(&self) -> bool {
        (self.mode >> 9) & 0x1ff == 0o040
    }

    /// Whether this entry names a directory.
    pub fn is_dir(&self) -> (r: bool)
        ensures
            r == self.spec_is_dir(),
    {
        (self.mode >> 9) & 0x1ff == 0o040
    }

    /// Encodes one tree entry as `mode_octal SP name NUL id`.
    pub fn encode(&self) -> (r: Vec<u8>)
        ensures
            r@ == spec_file_encode(self@),
    {
        let mut v = oct_of(self.mode);
        v.push(0x20);
        extend_vec(&mut v, &self.name);
        v.push(0x00);
        extend_vec(&mut v, &self.id.bytes);
        proof {
            assert(v@ =~= spec_file_encode(self@));
        }
        v
    }
}

/// The encoded form of one tree entry.
pub open spec fn spec_file_encode(f: FileV) -> Seq<u8> {
    spec_oct_of(f.mode) + seq![0x20u8] + f.name + seq![0x00u8] + f.id
}

/// The encoded form of a tree payload: its entries in order.
pub open spec fn spec_tree_encode(files: Seq<FileV>) -> Seq<u8>
    decreases files.len(),
{
    if files.len() == 0 {
        Seq::empty()
    } else {
        spec_file_encode(files[0]) + spec_tree_encode(files.skip(1))
    }
}

/// First index of `b` in `s`, if any.
pub open spec fn spec_find(s: Seq<u8>, b: u8) -> Option<int>
    decreases s.len(),
{
    if s.len() == 0 {
        None
    } else if s[0] == b {
        Some(0)
    } else {
        match spec_find(s.skip(1), b) {
            Some(i) => Some(i + 1),
            None => None,
        }
    }
}

/// `spec_find` returns the first occurrence.
pub proof fn lemma_spec_find_char(s: Seq<u8>, b: u8)
    ensures
        match spec_find(s, b) {
            Some(i) => 0 <= i < s.len() && s[i] == b && forall|j: int| 0 <= j < i ==> s[j] != b,
            None => forall|j: int| 0 <= j < s.len() ==> s[j] != b,
        },
    decreases s.len(),
{
    if s.len() > 0 && s[0] != b {
        lemma_spec_find_char(s.skip(1), b);
        assert forall|j: int| 1 <= j < s.len() implies s[j] == s.skip(1)[j - 1] by {}
    }
}

/// Finding in a suffix of `v`, phrased over the executable search.
pub fn find_byte_from(v: &Vec<u8>, from: usize, target: u8) -> (r: Option<usize>)
    requires
        from <= v@.len(),
    ensures
        match r {
            Some(i) => from <= i && spec_find(v@.skip(from as int), target) == Some(
                i - from,
            ),
            None => spec_find(v@.skip(from as int), target) is None,
        },
{
    let r = find_byte(v, from, target);
    proof {
        lemma_spec_find_char(v@.skip(from as int), target);
        match r {
            Some(i) => {
                assert(v@.skip(from as int)[i - from] == v@[i as int]);
                assert(forall|j: int|
                    0 <= j < i - from ==> v@.skip(from as int)[j] == v@[j + from]);
                match spec_find(v@.skip(from as int), target) {
                    Some(k) => {
                        assert(v@.skip(from as int)[k] == target);
                        assert(!(k < i - from));
                        assert(!(i - from < k));
                    },
                    None => {
                        assert(v@.skip(from as int)[i - from] == target);
                    },
                }
            },
            None => {
                match spec_find(v@.skip(from as int), target) {
                    Some(k) => {
                        assert(v@[k + from] == target);
                    },
                    None => {},
                }
            },
        }
    }
    r
}

/// Spec-level tree parse: scans entries until the buffer is exhausted.
///
/// The range guards on the found indices always hold (`lemma_spec_find_char`)
/// and only make termination evident.
pub open spec fn spec_tree_parse(s: Seq<u8>) -> Result<Seq<FileV>, ObjectError>
    decreases s.len(),
{
    if s.len() == 0 {
        Ok(Seq::empty())
    } else {
        match spec_find(s, 0x20) {
            None => Err(ObjectError::TreeEntryMode),
            Some(sp) => if !(0 <= sp < s.len()) {
                Err(ObjectError::TreeEntryMode)
            } else {
                match spec_parse_octal(s.take(sp)) {
                    None => Err(ObjectError::TreeEntryMode),
                    Some(mode) => {
                        let rest = s.skip(sp + 1);
                        match spec_find(rest, 0x00) {
                            None => Err(ObjectError::TreeEntryName),
                            Some(nul) => if !(0 <= nul < rest.len()) {
                                Err(ObjectError::TreeEntryName)
                            } else {
                                let name = rest.take(nul);
                                let after = rest.skip(nul + 1);
                                if after.len() < 20 {
                                    Err(ObjectError::TreeEntryId)
                                } else {
                                    match spec_tree_parse(after.skip(20)) {
                                        Ok(fs) => Ok(
                                            seq![
                                                FileV { mode, name, id: after.take(20) },
                                            ] + fs,
                                        ),
                                        Err(e) => Err(e),
                                    }
                                }
                            },
                        }
                    },
                }
            },
        }
    }
}

/// Searching skips over a prefix free of the target.
pub proof fn lemma_find_append_free(a: Seq<u8>, t: Seq<u8>, b: u8)
    requires
        !contains_byte(a, b),
    ensures
        spec_find(a + t, b) == match spec_find(t, b) {
            Some(i) => Some(a.len() + i),
            None => None::<int>,
        },
    decreases a.len(),
{
    if a.len() == 0 {
        assert(a + t =~= t);
    } else {
        assert(a[0] != b);
        assert((a + t)[0] == a[0]);
        assert((a + t).skip(1) =~= a.skip(1) + t);
        assert(!contains_byte(a.skip(1), b)) by {
            assert(forall|j: int| 0 <= j < a.skip(1).len() ==> a.skip(1)[j] == a[j + 1]);
        }
        lemma_find_append_free(a.skip(1), t, b);
    }
}

/// Dropping trailing newline and carriage-return bytes.
pub open spec fn spec_trim_eol(s: Seq<u8>) -> Seq<u8>
    decreases s.len(),
{
    if s.len() > 0 && (s[s.len() - 1] == 0x0A || s[s.len() - 1] == 0x0D) {
        spec_trim_eol(s.drop_last())
    } else {
        s
    }
}

/// Trimming a string that does not end in a newline byte is the identity.
pub proof fn lemma_trim_eol_noop(s: Seq<u8>)
    requires
        s.len() == 0 || (s[s.len() - 1] != 0x0A && s[s.len() - 1] != 0x0D),
    ensures
        spec_trim_eol(s) == s,
{
}

/// Drops trailing newline and carriage-return bytes.
pub fn trim_eol(v: &Vec<u8>) -> (r: Vec<u8>)
    ensures
        r@ == spec_trim_eol(v@),
{
    let mut e: usize = v.len();
    proof {
        assert(v@.take(v@.len() as int) =~= v@);
    }
    while e > 0 && (v[e - 1] == 0x0A || v[e - 1] == 0x0D)
        invariant
            e <= v@.len(),
            spec_trim_eol(v@) == spec_trim_eol(v@.take(e as int)),
        decreases e,
    {
        proof {
            assert(v@.take(e as int).drop_last() =~= v@.take(e - 1));
            assert(v@.take(e as int)[e - 1] == v@[e - 1]);
        }
        e = e - 1;
    }
    let r = subvec(v, 0, e);
    proof {
        if e > 0 {
            assert(v@.take(e as int)[e - 1] == v@[e - 1]);
        }
        assert(spec_trim_eol(v@.take(e as int)) == v@.take(e as int));
        assert(r@ =~= v@.take(e as int));
    }
    r
}

/// The ASCII keyword `tree`.
pub open spec fn kw_tree() -> Seq<u8> {
    seq![0x74u8, 0x72u8, 0x65u8, 0x65u8]
}

/// The ASCII keyword `parent`.
pub open spec fn kw_parent() -> Seq<u8> {
    seq![0x70u8, 0x61u8, 0x72u8, 0x65u8, 0x6eu8, 0x74u8]
}

/// The ASCII keyword `author`.
pub open spec fn kw_author() -> Seq<u8> {
    seq![0x61u8, 0x75u8, 0x74u8, 0x68u8, 0x6fu8, 0x72u8]
}

/// The ASCII keyword `committer`.
pub open spec fn kw_committer() -> Seq<u8> {
    seq![0x63u8, 0x6fu8, 0x6du8, 0x6du8, 0x69u8, 0x74u8, 0x74u8, 0x65u8, 0x72u8]
}

/// The ASCII keyword `blob`.
pub open spec fn kw_blob() -> Seq<u8> {
    seq![0x62u8, 0x6cu8, 0x6fu8, 0x62u8]
}

/// The ASCII keyword `commit`.
pub open spec fn kw_commit() -> Seq<u8> {
    seq![0x63u8, 0x6fu8, 0x6du8, 0x6du8, 0x69u8, 0x74u8]
}

/// The ASCII keyword `tree`, executable.
pub fn kw_tree_vec() -> (r: Vec<u8>)
    ensures
        r@ == kw_tree(),
{
    let mut v: Vec<u8> = Vec::new();
    v.push(0x74);
    v.push(0x72);
    v.push(0x65);
    v.push(0x65);
    proof {
        assert(v@ =~= kw_tree());
    }
    v
}

/// The ASCII keyword `parent`, executable.
pub fn kw_parent_vec() -> (r: Vec<u8>)
    ensures
        r@ == kw_parent(),
{
    let mut v: Vec<u8> = Vec::new();
    v.push(0x70);
    v.push(0x61);
    v.push(0x72);
    v.push(0x65);
    v.push(0x6e);
    v.push(0x74);
    proof {
        assert(v@ =~= kw_parent());
    }
    v
}

/// The ASCII keyword `author`, executable.
pub fn kw_author_vec() -> (r: Vec<u8>)
    ensures
        r@ == kw_author(),
{
    let mut v: Vec<u8> = Vec::new();
    v.push(0x61);
    v.push(0x75);
    v.push(0x74);
    v.push(0x68);
    v.push(0x6f);
    v.push(0x72);
    proof {
        assert(v@ =~= kw_author());
    }
    v
}

/// The ASCII keyword `committer`, executable.
pub fn kw_committer_vec() -> (r: Vec<u8>)
    ensures
        r@ == kw_committer(),
{
    let mut v: Vec<u8> = Vec::new();
    v.push(0x63);
    v.push(0x6f);
    v.push(0x6d);
    v.push(0x6d);
    v.push(0x69);
    v.push(0x74);
    v.push(0x74);
    v.push(0x65);
    v.push(0x72);
    proof {
        assert(v@ =~= kw_committer());
    }
    v
}

/// The ASCII keyword `blob`, executable.
pub fn kw_blob_vec() -> (r: Vec<u8>)
    ensures
        r@ == kw_blob(),
{
    let mut v: Vec<u8> = Vec::new();
    v.push(0x62);
    v.push(0x6c);
    v.push(0x6f);
    v.push(0x62);
    proof {
        assert(v@ =~= kw_blob());
    }
    v
}

/// The ASCII keyword `commit`, executable.
pub fn kw_commit_vec() -> (r: Vec<u8>)
    ensures
        r@ == kw_commit(),
{
    let mut v: Vec<u8> = Vec::new();
    v.push(0x63);
    v.push(0x6f);
    v.push(0x6d);
    v.push(0x6d);
    v.push(0x69);
    v.push(0x74);
    proof {
        assert(v@ =~= kw_commit());
    }
    v
}

/// Well-formedness of a tree entry: a 20-byte identifier and a name free of
/// NUL bytes.
pub open spec fn file_wf(f: FileV) -> bool {
    f.id.len() == 20 && !contains_byte(f.name, 0x00)
}

/// Well-formedness of a tree payload.
pub open spec fn tree_wf(files: Seq<FileV>) -> bool {
    forall|i: int| 0 <= i < files.len() ==> file_wf(#[trigger] files[i])
}

/// Decoding an encoded tree yields the original entries, field for field.
pub proof fn lemma_tree_round_trip(files: Seq<FileV>)
    requires
        tree_wf(files),
    ensures
        spec_tree_parse(spec_tree_encode(files)) == Ok::<Seq<FileV>, ObjectError>(files),
    decreases files.len(),
{
    if files.len() == 0 {
        assert(spec_tree_encode(files).len() == 0);
        assert(files =~= Seq::<FileV>::empty());
    } else {
        let f = files[0];
        assert(file_wf(f));
        let s = spec_tree_encode(files);
        let rest_enc = spec_tree_encode(files.skip(1));
        let oct = spec_oct_of(f.mode);
        crate::num::lemma_oct_of_range(f.mode);
        assert(!contains_byte(oct, 0x20));
        let t1 = seq![0x20u8] + f.name + seq![0x00u8] + f.id + rest_enc;
        assert(s =~= oct + t1);
        lemma_find_append_free(oct, t1, 0x20);
        assert(t1[0] == 0x20);
        assert(spec_find(t1, 0x20) == Some(0int));
        assert(spec_find(s, 0x20) == Some(oct.len() as int));
        assert(s.take(oct.len() as int) =~= oct);
        crate::num::lemma_octal_round_trip(f.mode);
        let rest = s.skip(oct.len() as int + 1);
        let t2 = seq![0x00u8] + f.id + rest_enc;
        assert(rest =~= f.name + t2);
        lemma_find_append_free(f.name, t2, 0x00);
        assert(t2[0] == 0x00);
        assert(spec_find(t2, 0x00) == Some(0int));
        assert(spec_find(rest, 0x00) == Some(f.name.len() as int));
        assert(rest.take(f.name.len() as int) =~= f.name);
        let after = rest.skip(f.name.len() as int + 1);
        assert(after =~= f.id + rest_enc);
        assert(after.len() == 20 + rest_enc.len());
        assert(after.take(20) =~= f.id);
        assert(after.skip(20) =~= rest_enc);
        assert(tree_wf(files.skip(1))) by {
            assert(forall|j: int|
                0 <= j < files.skip(1).len() ==> files.skip(1)[j] == files[j + 1]);
        }
        lemma_tree_round_trip(files.skip(1));
        let parsed = FileV { mode: f.mode, name: rest.take(f.name.len() as int), id: after.take(20) };
        assert(parsed.name == f.name);
        assert(parsed.id == f.id);
        assert(seq![parsed] + files.skip(1) =~= files);
    }
}

/// Last index of `b` in `s`, if any.
pub open spec fn spec_rfind(s: Seq<u8>, b: u8) -> Option<int>
    decreases s.len(),
{
    if s.len() == 0 {
        None
    } else if s[s.len() - 1] == b {
        Some(s.len() - 1)
    } else {
        spec_rfind(s.drop_last(), b)
    }
}

/// `spec_rfind` returns the last occurrence.
pub proof fn lemma_spec_rfind_char(s: Seq<u8>, b: u8)
    ensures
        match spec_rfind(s, b) {
            Some(i) => 0 <= i < s.len() && s[i] == b && forall|j: int| i < j < s.len() ==> s[j] != b,
            None => forall|j: int| 0 <= j < s.len() ==> s[j] != b,
        },
    decreases s.len(),
{
    if s.len() > 0 && s[s.len() - 1] != b {
        lemma_spec_rfind_char(s.drop_last(), b);
        assert forall|j: int| 0 <= j < s.len() - 1 implies s[j] == s.drop_last()[j] by {}
    }
}

/// Searching backwards ignores a suffix free of the target.
pub proof fn lemma_rfind_append_free(s: Seq<u8>, t: Seq<u8>, b: u8)
    requires
        !contains_byte(t, b),
    ensures
        spec_rfind(s + t, b) == spec_rfind(s, b),
    decreases t.len(),
{
    if t.len() == 0 {
        assert(s + t =~= s);
    } else {
        assert(t[t.len() - 1] != b);
        assert((s + t)[(s + t).len() - 1] == t[t.len() - 1]);
        assert((s + t).drop_last() =~= s + t.drop_last());
        assert(!contains_byte(t.drop_last(), b)) by {
            assert(forall|j: int| 0 <= j < t.len() - 1 ==> t.drop_last()[j] == t[j]);
        }
        lemma_rfind_append_free(s, t.drop_last(), b);
    }
}

/// Searching backwards finds a final occurrence at once.
pub proof fn lemma_rfind_append_hit(s: Seq<u8>, b: u8)
    ensures
        spec_rfind(s + seq![b], b) == Some(s.len() as int),
{
    let w = s + seq![b];
    assert(w[w.len() - 1] == b);
}

/// The executable backwards search.
pub fn rfind_byte(v: &Vec<u8>, b: u8) -> (r: Option<usize>)
    ensures
        match r {
            Some(i) => spec_rfind(v@, b) == Some(i as int),
            None => spec_rfind(v@, b) is None,
        },
{
    let mut i: usize = v.len();
    while i > 0
        invariant
            i <= v@.len(),
            forall|j: int| i <= j < v@.len() ==> v@[j] != b,
        decreases i,
    {
        i = i - 1;
        if v[i] == b {
            proof {
                lemma_spec_rfind_char(v@, b);
                match spec_rfind(v@, b) {
                    Some(k) => {
                        assert(!(k < i));
                        assert(!(i < k));
                    },
                    None => {
                        assert(v@[i as int] == b);
                    },
                }
            }
            return Some(i);
        }
    }
    proof {
        lemma_spec_rfind_char(v@, b);
        match spec_rfind(v@, b) {
            Some(k) => {
                assert(v@[k] == b);
            },
            None => {},
        }
    }
    None
}

/// A name-entry: display name, email, and an instant with a fixed
/// `+hhmm`/`-hhmm` UTC offset, second resolution.
#[derive(Debug, Clone, PartialEq, Eq)]
pub struct NameEntry {
    pub name: Vec<u8>,
    pub email: Vec<u8>,
    pub secs: i64,
    pub tz_neg: bool,
    pub tz_hh: u8,
    pub tz_mm: u8,
}

/// Spec-level mirror of a name-entry.
#[verifier::ext_equal]
pub struct NameEntryV {
    pub name: Seq<u8>,
    pub email: Seq<u8>,
    pub secs: i64,
    pub tz_neg: bool,
    pub tz_hh: u8,
    pub tz_mm: u8,
}

impl View for NameEntry {
    type V = NameEntryV;

    open spec fn view(&self) -> NameEntryV {
        NameEntryV {
            name: self.name@,
            email: self.email@,
            secs: self.secs,
            tz_neg: self.tz_neg,
            tz_hh: self.tz_hh,
            tz_mm: self.tz_mm,
        }
    }
}

/// Well-formedness of a name-entry: a real offset, no newline in name or
/// email, and no space in the email.
pub open spec fn name_entry_wf(ne: NameEntryV) -> bool {
    &&& ne.tz_hh < 24
    &&& ne.tz_mm < 60
    &&& !contains_byte(ne.name, 0x0A)
    &&& !contains_byte(ne.email, 0x0A)
    &&& !contains_byte(ne.email, 0x20)
}

/// Two decimal digits, zero padded.
pub open spec fn spec_two_digits(n: u8) -> Seq<u8> {
    seq![(0x30 + n / 10) as u8, (0x30 + n % 10) as u8]
}

/// The `+hhmm` / `-hhmm` offset form.
pub open spec fn spec_tz_of(neg: bool, hh: u8, mm: u8) -> Seq<u8> {
    seq![if neg { 0x2du8 } else { 0x2bu8 }] + spec_two_digits(hh) + spec_two_digits(mm)
}

/// Parse of a `+hhmm` / `-hhmm` offset.
pub open spec fn spec_parse_tz(s: Seq<u8>) -> Option<(bool, u8, u8)> {
    if s.len() == 5 && (s[0] == 0x2b || s[0] == 0x2d) && (forall|j: int|
        1 <= j < 5 ==> 0x30 <= #[trigger] s[j] <= 0x39) {
        let hh = ((s[1] - 0x30) * 10 + (s[2] - 0x30)) as u8;
        let mm = ((s[3] - 0x30) * 10 + (s[4] - 0x30)) as u8;
        if hh < 24 && mm < 60 {
            Some((s[0] == 0x2d, hh, mm))
        } else {
            None
        }
    } else {
        None
    }
}

/// Parse of a signed decimal seconds value that fits in `i64`.
pub open spec fn spec_parse_secs(s: Seq<u8>) -> Option<i64> {
    if s.len() > 0 && s[0] == 0x2d {
        match crate::num::spec_parse_dec(s.skip(1)) {
            Some(v) => if v <= 0x8000_0000_0000_0000 {
                Some((-v) as i64)
            } else {
                None
            },
            None => None,
        }
    } else {
        match crate::num::spec_parse_dec(s) {
            Some(v) => if v <= i64::MAX {
                Some(v as i64)
            } else {
                None
            },
            None => None,
        }
    }
}

/// The canonical encoded form `name SP < email > SP seconds SP offset`.
pub open spec fn spec_name_entry_encode(ne: NameEntryV) -> Seq<u8> {
    ne.name + seq![0x20u8, 0x3cu8] + ne.email + seq![0x3eu8, 0x20u8] + crate::num::spec_dec_of_int(
        ne.secs as int,
    ) + seq![0x20u8] + spec_tz_of(ne.tz_neg, ne.tz_hh, ne.tz_mm)
}

/// Parse of the `name <email>` part, given the already-parsed instant.
pub open spec fn spec_with_time_parse(s: Seq<u8>, secs: i64, neg: bool, hh: u8, mm: u8) -> Option<
    NameEntryV,
> {
    match spec_rfind(s, 0x20) {
        None => None,
        Some(p) => if !(0 <= p < s.len()) {
            None
        } else {
            let email_part = s.skip(p + 1);
            if email_part.len() < 2 {
                None
            } else {
                Some(
                    NameEntryV {
                        name: s.take(p),
                        email: email_part.subrange(1, email_part.len() - 1),
                        secs,
                        tz_neg: neg,
                        tz_hh: hh,
                        tz_mm: mm,
                    },
                )
            }
        },
    }
}

/// Parse of a whole name-entry: the last two space-separated tokens are the
/// seconds and the offset; the email is chopped out of the last remaining
/// token; the name is everything before it.
pub open spec fn spec_name_entry_parse(s: Seq<u8>) -> Option<NameEntryV> {
    match spec_rfind(s, 0x20) {
        None => None,
        Some(p1) => if !(0 <= p1 < s.len()) {
            None
        } else {
            let offs = s.skip(p1 + 1);
            let rest1 = s.take(p1);
            match spec_rfind(rest1, 0x20) {
                None => None,
                Some(p2) => if !(0 <= p2 < rest1.len()) {
                    None
                } else {
                    let ts = rest1.skip(p2 + 1);
                    let rest2 = rest1.take(p2);
                    match spec_parse_tz(offs) {
                        None => None,
                        Some((neg, hh, mm)) => match spec_parse_secs(ts) {
                            None => None,
                            Some(secs) => spec_with_time_parse(rest2, secs, neg, hh, mm),
                        },
                    }
                },
            }
        },
    }
}

impl NameEntry {
    /// Parses the `name <email>` part around an already-known instant.
    pub fn with_time(s: &Vec<u8>, secs: i64, tz_neg: bool, tz_hh: u8, tz_mm: u8) -> (r: Option<
        NameEntry,
    >)
        ensures
            match r {
                Some(ne) => spec_with_time_parse(s@, secs, tz_neg, tz_hh, tz_mm) == Some(ne@),
                None => spec_with_time_parse(s@, secs, tz_neg, tz_hh, tz_mm) is None,
            },
    {
        let p = match rfind_byte(s, 0x20) {
            Some(p) => p,
            None => {
                return None;
            },
        };
        proof {
            lemma_spec_rfind_char(s@, 0x20);
        }
        if s.len() - (p + 1) < 2 {
            return None;
        }
        let email = subvec(s, p + 2, s.len() - 1);
        let name = subvec(s, 0, p);
        proof {
            let email_part = s@.skip(p + 1);
            assert(email_part.subrange(1, email_part.len() - 1) =~= s@.subrange(
                p + 2,
                s@.len() - 1,
            ));
            assert(s@.take(p as int) =~= s@.subrange(0, p as int));
        }
        Some(NameEntry { name, email, secs, tz_neg, tz_hh, tz_mm })
    }

    /// Parses a whole name-entry from its canonical form.
    pub fn from(s: &Vec<u8>) -> (r: Option<NameEntry>)
        ensures
            match r {
                Some(ne) => spec_name_entry_parse(s@) == Some(ne@),
                None => spec_name_entry_parse(s@) is None,
            },
    {
        let p1 = match rfind_byte(s, 0x20) {
            Some(p) => p,
            None => {
                return None;
            },
        };
        proof {
            lemma_spec_rfind_char(s@, 0x20);
        }
        let n = s.len();
        let offs = subvec(s, p1 + 1, n);
        let rest1 = subvec(s, 0, p1);
        proof {
            assert(s@.skip(p1 + 1 as int) =~= s@.subrange(p1 + 1 as int, s@.len() as int));
            assert(s@.take(p1 as int) =~= s@.subrange(0, p1 as int));
        }
        let p2 = match rfind_byte(&rest1, 0x20) {
            Some(p) => p,
            None => {
                return None;
            },
        };
        proof {
            lemma_spec_rfind_char(rest1@, 0x20);
        }
        let n1 = rest1.len();
        let ts = subvec(&rest1, p2 + 1, n1);
        let rest2 = subvec(&rest1, 0, p2);
        proof {
            assert(rest1@.skip(p2 + 1 as int) =~= rest1@.subrange(
                p2 + 1 as int,
                rest1@.len() as int,
            ));
            assert(rest1@.take(p2 as int) =~= rest1@.subrange(0, p2 as int));
        }
        let (tz_neg, tz_hh, tz_mm) = match parse_tz(&offs) {
            Some(t) => t,
            None => {
                return None;
            },
        };
        let secs = match parse_secs(&ts) {
            Some(v) => v,
            None => {
                return None;
            },
        };
        Self::with_time(&rest2, secs, tz_neg, tz_hh, tz_mm)
    }

    /// Encodes a name-entry in its canonical form.
    pub fn encode(&self) -> (r: Vec<u8>)
        ensures
            r@ == spec_name_entry_encode(self@),
    {
        let mut v = subvec(&self.name, 0, self.name.len());
        v.push(0x20);
        v.push(0x3c);
        extend_vec(&mut v, &self.email);
        v.push(0x3e);
        v.push(0x20);
        let dec = crate::num::dec_of_i64(self.secs);
        extend_vec(&mut v, &dec);
        v.push(0x20);
        v.push(if self.tz_neg {
            0x2d
        } else {
            0x2b
        });
        v.push(0x30 + self.tz_hh / 10);
        v.push(0x30 + self.tz_hh % 10);
        v.push(0x30 + self.tz_mm / 10);
        v.push(0x30 + self.tz_mm % 10);
        proof {
            assert(self.name@.subrange(0, self.name@.len() as int) =~= self.name@);
            assert(v@ =~= spec_name_entry_encode(self@));
        }
        v
    }
}

/// Parses a `+hhmm` / `-hhmm` offset.
pub fn parse_tz(s: &Vec<u8>) -> (r: Option<(bool, u8, u8)>)
    ensures
        r == spec_parse_tz(s@),
{
    if s.len() != 5 {
        return None;
    }
    let sign = s[0];
    if sign != 0x2b && sign != 0x2d {
        return None;
    }
    let mut k: usize = 1;
    while k < 5
        invariant
            1 <= k <= 5,
            s@.len() == 5,
            forall|j: int| 1 <= j < k ==> 0x30 <= #[trigger] s@[j] <= 0x39,
        decreases 5 - k,
    {
        if s[k] < 0x30 || s[k] > 0x39 {
            return None;
        }
        k = k + 1;
    }
    let hh = (s[1] - 0x30) * 10 + (s[2] - 0x30);
    let mm = (s[3] - 0x30) * 10 + (s[4] - 0x30);
    if hh >= 24 || mm >= 60 {
        return None;
    }
    Some((sign == 0x2d, hh, mm))
}

/// Parses a signed decimal seconds value fitting in `i64`.
pub fn parse_secs(s: &Vec<u8>) -> (r: Option<i64>)
    ensures
        r == spec_parse_secs(s@),
{
    if s.len() > 0 && s[0] == 0x2d {
        let digits = subvec(s, 1, s.len());
        proof {
            assert(digits@ =~= s@.skip(1));
        }
        match crate::num::parse_dec_u64(&digits) {
            Some(v) => {
                if v > 0x8000_0000_0000_0000u64 {
                    None
                } else if v == 0x8000_0000_0000_0000u64 {
                    Some(i64::MIN)
                } else {
                    Some(-(v as i64))
                }
            },
            None => None,
        }
    } else {
        let digits = subvec(s, 0, s.len());
        proof {
            assert(digits@ =~= s@);
        }
        match crate::num::parse_dec_u64(&digits) {
            Some(v) => {
                if v > i64::MAX as u64 {
                    None
                } else {
                    Some(v as i64)
                }
            },
            None => None,
        }
    }
}

/// The encoded name-entry contains no newline, and ends in a decimal digit.
pub proof fn lemma_name_entry_encode_bytes(ne: NameEntryV)
    requires
        name_entry_wf(ne),
    ensures
        !contains_byte(spec_name_entry_encode(ne), 0x0A),
        spec_name_entry_encode(ne).len() > 0,
        0x30 <= spec_name_entry_encode(ne)[spec_name_entry_encode(ne).len() - 1] <= 0x39,
{
    let enc = spec_name_entry_encode(ne);
    let dec = crate::num::spec_dec_of_int(ne.secs as int);
    let tz = spec_tz_of(ne.tz_neg, ne.tz_hh, ne.tz_mm);
    let a = ne.name + seq![0x20u8, 0x3cu8] + ne.email + seq![0x3eu8, 0x20u8];
    let b = a + dec + seq![0x20u8];
    assert(enc =~= b + tz);
    if ne.secs >= 0 {
        crate::num::lemma_dec_of_range(ne.secs as nat);
    } else {
        crate::num::lemma_dec_of_range((-(ne.secs as int)) as nat);
        assert(forall|j: int|
            0 <= j < dec.len() ==> dec[j] == if j == 0 {
                0x2du8
            } else {
                crate::num::spec_dec_of((-(ne.secs as int)) as nat)[j - 1]
            });
    }
    assert forall|i: int| 0 <= i < enc.len() implies enc[i] != 0x0A by {
        let n1 = ne.name.len() as int;
        if i < n1 {
            assert(enc[i] == ne.name[i]);
        } else if i < n1 + 2 {
            assert(enc[i] == seq![0x20u8, 0x3cu8][i - n1]);
        } else if i < n1 + 2 + ne.email.len() {
            assert(enc[i] == ne.email[i - n1 - 2]);
        } else if i < a.len() {
            assert(enc[i] == seq![0x3eu8, 0x20u8][i - n1 - 2 - ne.email.len()]);
        } else if i < a.len() + dec.len() {
            assert(enc[i] == dec[i - a.len()]);
        } else if i < b.len() {
            assert(enc[i] == 0x20u8);
        } else {
            assert(enc[i] == tz[i - b.len()]);
        }
    }
    assert(enc[enc.len() - 1] == tz[4]);
}

/// Parsing the canonical encoding of a well-formed name-entry gives it back.
pub proof fn lemma_name_entry_round_trip(ne: NameEntryV)
    requires
        name_entry_wf(ne),
    ensures
        spec_name_entry_parse(spec_name_entry_encode(ne)) == Some(ne),
{
    let enc = spec_name_entry_encode(ne);
    let dec = crate::num::spec_dec_of_int(ne.secs as int);
    let tz = spec_tz_of(ne.tz_neg, ne.tz_hh, ne.tz_mm);
    let c = seq![0x3cu8] + ne.email + seq![0x3eu8];
    let pre2 = ne.name + seq![0x20u8] + c;
    let pre1 = pre2 + seq![0x20u8] + dec;
    assert(enc =~= pre1 + seq![0x20u8] + tz);

    // The digits of the seconds and the offset contain no space.
    if ne.secs >= 0 {
        crate::num::lemma_dec_of_range(ne.secs as nat);
    } else {
        crate::num::lemma_dec_of_range((-(ne.secs as int)) as nat);
        assert(forall|j: int|
            0 <= j < dec.len() ==> dec[j] == if j == 0 {
                0x2du8
            } else {
                crate::num::spec_dec_of((-(ne.secs as int)) as nat)[j - 1]
            });
    }
    assert(!contains_byte(dec, 0x20));
    assert(!contains_byte(tz, 0x20));
    assert(!contains_byte(c, 0x20)) by {
        assert(forall|j: int|
            0 <= j < c.len() ==> c[j] == if j == 0 {
                0x3cu8
            } else if j < 1 + ne.email.len() {
                ne.email[j - 1]
            } else {
                0x3eu8
            });
    }

    // Step 1: the offset token.
    lemma_rfind_append_free(pre1 + seq![0x20u8], tz, 0x20);
    lemma_rfind_append_hit(pre1, 0x20);
    assert((pre1 + seq![0x20u8]) + tz =~= enc);
    assert(spec_rfind(enc, 0x20) == Some(pre1.len() as int));
    let offs = enc.skip(pre1.len() as int + 1);
    assert(offs =~= tz);
    assert(enc.take(pre1.len() as int) =~= pre1);

    // The offset parses back to the three stored fields.
    assert(spec_parse_tz(tz) == Some((ne.tz_neg, ne.tz_hh, ne.tz_mm))) by {
        assert(tz.len() == 5);
        assert(tz[1] == 0x30 + ne.tz_hh / 10);
        assert(tz[2] == 0x30 + ne.tz_hh % 10);
        assert(tz[3] == 0x30 + ne.tz_mm / 10);
        assert(tz[4] == 0x30 + ne.tz_mm % 10);
        vstd::arithmetic::div_mod::lemma_fundamental_div_mod(ne.tz_hh as int, 10);
        vstd::arithmetic::div_mod::lemma_fundamental_div_mod(ne.tz_mm as int, 10);
    }

    // Step 2: the seconds token.
    lemma_rfind_append_free(pre2 + seq![0x20u8], dec, 0x20);
    lemma_rfind_append_hit(pre2, 0x20);
    assert((pre2 + seq![0x20u8]) + dec =~= pre1);
    assert(spec_rfind(pre1, 0x20) == Some(pre2.len() as int));
    let ts = pre1.skip(pre2.len() as int + 1);
    assert(ts =~= dec);
    assert(pre1.take(pre2.len() as int) =~= pre2);

    // The seconds token parses back to the stored value.
    assert(spec_parse_secs(dec) == Some(ne.secs)) by {
        if ne.secs >= 0 {
            crate::num::lemma_dec_round_trip(ne.secs as nat);
            assert(dec[0] != 0x2d);
        } else {
            let m = (-(ne.secs as int)) as nat;
            crate::num::lemma_dec_round_trip(m);
            assert(dec[0] == 0x2d);
            assert(dec.skip(1) =~= crate::num::spec_dec_of(m));
            assert(m <= 0x8000_0000_0000_0000);
        }
    }

    // Step 3: the email token and the name.
    lemma_rfind_append_free(ne.name + seq![0x20u8], c, 0x20);
    lemma_rfind_append_hit(ne.name, 0x20);
    assert((ne.name + seq![0x20u8]) + c =~= pre2);
    assert(spec_rfind(pre2, 0x20) == Some(ne.name.len() as int));
    let email_part = pre2.skip(ne.name.len() as int + 1);
    assert(email_part =~= c);
    assert(email_part.len() == ne.email.len() + 2);
    assert(email_part.subrange(1, email_part.len() - 1) =~= ne.email);
    assert(pre2.take(ne.name.len() as int) =~= ne.name);

    let parsed = spec_with_time_parse(pre2, ne.secs, ne.tz_neg, ne.tz_hh, ne.tz_mm);
    assert(parsed matches Some(p) && p =~= ne);
}

/// A commit: one tree, ordered parents, author, committer, and a message.
#[derive(Debug, Clone, PartialEq, Eq)]
pub struct Commit {
    pub tree: Id,
    pub parents: Vec<Id>,
    pub author: NameEntry,
    pub committer: NameEntry,
    pub message: Vec<u8>,
}

/// Spec-level mirror of a commit.
#[verifier::ext_equal]
pub struct CommitV {
    pub tree: Seq<u8>,
    pub parents: Seq<Seq<u8>>,
    pub author: NameEntryV,
    pub committer: NameEntryV,
    pub message: Seq<u8>,
}

impl View for Commit {
    type V = CommitV;

    open spec fn view(&self) -> CommitV {
        CommitV {
            tree: self.tree@,
            parents: self.parents@.map_values(|p: Id| p@),
            author: self.author@,
            committer: self.committer@,
            message: self.message@,
        }
    }
}

/// Well-formedness of a commit: 20-byte identifiers and well-formed
/// name-entries.
pub open spec fn commit_wf(c: CommitV) -> bool {
    &&& c.tree.len() == 20
    &&& forall|i: int| 0 <= i < c.parents.len() ==> #[trigger] c.parents[i].len() == 20
    &&& name_entry_wf(c.author)
    &&& name_entry_wf(c.committer)
}

/// The header state while scanning commit lines.
#[verifier::ext_equal]
pub struct CommitSt {
    pub tree: Option<Seq<u8>>,
    pub parents: Seq<Seq<u8>>,
    pub author: Option<NameEntryV>,
    pub committer: Option<NameEntryV>,
}

/// The empty header state.
pub open spec fn commit_st_init() -> CommitSt {
    CommitSt { tree: None, parents: Seq::empty(), author: None, committer: None }
}

/// Processing one trimmed, non-empty header line.
pub open spec fn spec_commit_line(line: Seq<u8>, st: CommitSt) -> Result<CommitSt, ObjectError> {
    match spec_find(line, 0x20) {
        None => Err(ObjectError::Header),
        Some(sp) => if !(0 <= sp < line.len()) {
            Err(ObjectError::Header)
        } else {
            let typ = line.take(sp);
            let val = line.skip(sp + 1);
            if typ == kw_tree() {
                match spec_id_parse(val) {
                    Some(id) => Ok(CommitSt { tree: Some(id), ..st }),
                    None => Err(ObjectError::Tree),
                }
            } else if typ == kw_parent() {
                match spec_id_parse(val) {
                    Some(id) => Ok(CommitSt { parents: st.parents.push(id), ..st }),
                    None => Err(ObjectError::Parent),
                }
            } else if typ == kw_author() {
                match spec_name_entry_parse(val) {
                    Some(ne) => Ok(CommitSt { author: Some(ne), ..st }),
                    None => Err(ObjectError::Author),
                }
            } else if typ == kw_committer() {
                match spec_name_entry_parse(val) {
                    Some(ne) => Ok(CommitSt { committer: Some(ne), ..st }),
                    None => Err(ObjectError::Committer),
                }
            } else {
                Ok(st)
            }
        },
    }
}

/// Closing the header: the three required fields must be present.
pub open spec fn spec_commit_finish(st: CommitSt, message: Seq<u8>) -> Result<
    CommitV,
    ObjectError,
> {
    match st.tree {
        None => Err(ObjectError::MissingTree),
        Some(tree) => match st.author {
            None => Err(ObjectError::MissingAuthor),
            Some(author) => match st.committer {
                None => Err(ObjectError::MissingCommitter),
                Some(committer) => Ok(
                    CommitV { tree, parents: st.parents, author, committer, message },
                ),
            },
        },
    }
}

/// Scanning commit lines: each line up to an empty one updates the header
/// state; the rest is the message.  A header that runs out before its empty
/// line is an error.
pub open spec fn spec_commit_lines(s: Seq<u8>, st: CommitSt) -> Result<CommitV, ObjectError>
    decreases s.len(),
{
    if s.len() == 0 {
        Err(ObjectError::Eof)
    } else {
        match spec_find(s, 0x0A) {
            Some(nl) => if !(0 <= nl < s.len()) {
                Err(ObjectError::Eof)
            } else {
                let line = s.take(nl);
                let rest = s.skip(nl + 1);
                let trimmed = spec_trim_eol(line);
                if trimmed.len() == 0 {
                    spec_commit_finish(st, rest)
                } else {
                    match spec_commit_line(trimmed, st) {
                        Ok(st2) => spec_commit_lines(rest, st2),
                        Err(e) => Err(e),
                    }
                }
            },
            None => {
                let trimmed = spec_trim_eol(s);
                if trimmed.len() == 0 {
                    spec_commit_finish(st, Seq::empty())
                } else {
                    match spec_commit_line(trimmed, st) {
                        Ok(_) => Err(ObjectError::Eof),
                        Err(e) => Err(e),
                    }
                }
            },
        }
    }
}

/// Parse of a whole commit payload.
pub open spec fn spec_commit_parse(s: Seq<u8>) -> Result<CommitV, ObjectError> {
    spec_commit_lines(s, commit_st_init())
}

/// The parent lines of the encoded form, one `parent <hex>` line each.
pub open spec fn spec_parent_lines(ps: Seq<Seq<u8>>) -> Seq<u8>
    decreases ps.len(),
{
    if ps.len() == 0 {
        Seq::empty()
    } else {
        kw_parent() + seq![0x20u8] + spec_hex_of(ps[0]) + seq![0x0Au8] + spec_parent_lines(
            ps.skip(1),
        )
    }
}

/// The encoded form of a commit payload.
pub open spec fn spec_commit_encode(c: CommitV) -> Seq<u8> {
    kw_tree() + seq![0x20u8] + spec_hex_of(c.tree) + seq![0x0Au8] + spec_parent_lines(c.parents)
        + kw_author() + seq![0x20u8] + spec_name_entry_encode(c.author) + seq![0x0Au8]
        + kw_committer() + seq![0x20u8] + spec_name_entry_encode(c.committer) + seq![0x0Au8]
        + seq![0x0Au8] + c.message
}

/// Scanning one encoded header line of the shape `kw SP val NL`.
proof fn lemma_commit_header_line(kw: Seq<u8>, val: Seq<u8>, rest: Seq<u8>)
    requires
        kw.len() > 0,
        !contains_byte(kw, 0x20),
        !contains_byte(kw, 0x0A),
        !contains_byte(val, 0x0A),
        val.len() == 0 || (val[val.len() - 1] != 0x0A && val[val.len() - 1] != 0x0D),
    ensures
        ({
            let s = (kw + seq![0x20u8] + val) + seq![0x0Au8] + rest;
            &&& spec_find(s, 0x0A) == Some(kw.len() + 1 + val.len() as int)
            &&& s.take(kw.len() + 1 + val.len() as int) == kw + seq![0x20u8] + val
            &&& s.skip(kw.len() + 1 + val.len() + 1 as int) == rest
            &&& spec_trim_eol(kw + seq![0x20u8] + val) == kw + seq![0x20u8] + val
            &&& spec_find(kw + seq![0x20u8] + val, 0x20) == Some(kw.len() as int)
            &&& (kw + seq![0x20u8] + val).take(kw.len() as int) == kw
            &&& (kw + seq![0x20u8] + val).skip(kw.len() as int + 1) == val
        }),
{
    let body = kw + seq![0x20u8] + val;
    let s = body + seq![0x0Au8] + rest;
    assert(!contains_byte(body, 0x0A)) by {
        assert(forall|j: int|
            0 <= j < body.len() ==> body[j] == if j < kw.len() {
                kw[j]
            } else if j == kw.len() {
                0x20u8
            } else {
                val[j - kw.len() - 1]
            });
    }
    lemma_find_append_free(body, seq![0x0Au8] + rest, 0x0A);
    assert((seq![0x0Au8] + rest)[0] == 0x0A);
    assert(spec_find(seq![0x0Au8] + rest, 0x0A) == Some(0int));
    assert(body + (seq![0x0Au8] + rest) =~= s);
    assert(spec_find(s, 0x0A) == Some(body.len() as int));
    assert(s.take(body.len() as int) =~= body);
    assert(s.skip(body.len() as int + 1) =~= rest);
    let last = body[body.len() - 1];
    assert(last != 0x0A && last != 0x0D) by {
        if val.len() == 0 {
            assert(last == 0x20);
        } else {
            assert(last == val[val.len() - 1]);
        }
    }
    lemma_trim_eol_noop(body);
    lemma_find_append_free(kw, seq![0x20u8] + val, 0x20);
    assert((seq![0x20u8] + val)[0] == 0x20);
    assert(spec_find(seq![0x20u8] + val, 0x20) == Some(0int));
    assert(kw + (seq![0x20u8] + val) =~= body);
    assert(spec_find(body, 0x20) == Some(kw.len() as int));
    assert(body.take(kw.len() as int) =~= kw);
    assert(body.skip(kw.len() as int + 1) =~= val);
}

/// The four keywords are pairwise distinct.
proof fn lemma_keywords_distinct()
    ensures
        kw_tree() != kw_parent(),
        kw_tree() != kw_author(),
        kw_tree() != kw_committer(),
        kw_parent() != kw_author(),
        kw_parent() != kw_committer(),
        kw_author() != kw_committer(),
        kw_blob() != kw_tree(),
        kw_commit() != kw_tree(),
        kw_commit() != kw_blob(),
{
    assert(kw_tree().len() == 4 && kw_parent().len() == 6 && kw_author().len() == 6
        && kw_committer().len() == 9 && kw_blob().len() == 4 && kw_commit().len() == 6);
    assert(kw_parent()[0] == 0x70 && kw_author()[0] == 0x61 && kw_commit()[0] == 0x63);
    assert(kw_tree()[0] == 0x74 && kw_blob()[0] == 0x62);
}

/// An encoded 20-byte identifier parses back to itself.
proof fn lemma_id_hex_round_trip(id: Seq<u8>)
    requires
        id.len() == 20,
    ensures
        spec_id_parse(spec_hex_of(id)) == Some(id),
        forall|i: int|
            0 <= i < spec_hex_of(id).len() ==> 0x30 <= #[trigger] spec_hex_of(id)[i] <= 0x39 || 0x61
                <= spec_hex_of(id)[i] <= 0x66,
{
    crate::num::lemma_hex_of_len(id);
    crate::num::lemma_hex_round_trip(id);
    crate::num::lemma_hex_of_range(id);
}

/// The fixed tail of the encoded header: author and committer lines, the
/// empty line, and the message.
pub open spec fn spec_commit_tail_enc(c: CommitV) -> Seq<u8> {
    (kw_author() + seq![0x20u8] + spec_name_entry_encode(c.author)) + seq![0x0Au8] + ((
    kw_committer() + seq![0x20u8] + spec_name_entry_encode(c.committer)) + seq![0x0Au8] + (
    seq![0x0Au8] + c.message))
}

/// Scanning the author line, the committer line, the empty line, and the
/// message.
#[verifier::rlimit(100)]
#[verifier::spinoff_prover]
proof fn lemma_commit_auth_tail(c: CommitV, st: CommitSt)
    requires
        commit_wf(c),
        st == (CommitSt {
            tree: Some(c.tree),
            parents: c.parents,
            author: None::<NameEntryV>,
            committer: None::<NameEntryV>,
        }),
    ensures
        spec_commit_lines(spec_commit_tail_enc(c), st) == Ok::<CommitV, ObjectError>(c),
{
    lemma_keywords_distinct();
    let aenc = spec_name_entry_encode(c.author);
    let cenc = spec_name_entry_encode(c.committer);
    lemma_name_entry_encode_bytes(c.author);
    lemma_name_entry_encode_bytes(c.committer);
    let fin = seq![0x0Au8] + c.message;
    let tail2 = (kw_committer() + seq![0x20u8] + cenc) + seq![0x0Au8] + fin;
    let tail1 = (kw_author() + seq![0x20u8] + aenc) + seq![0x0Au8] + tail2;
    assert(spec_commit_tail_enc(c) == tail1);
    // The author line.
    assert(!contains_byte(kw_author(), 0x20) && !contains_byte(kw_author(), 0x0A));
    lemma_commit_header_line(kw_author(), aenc, tail2);
    lemma_name_entry_round_trip(c.author);
    let st2 = CommitSt { author: Some(c.author), ..st };
    assert(spec_commit_line(kw_author() + seq![0x20u8] + aenc, st) == Ok::<CommitSt, ObjectError>(
        st2,
    )) by {
        let body = kw_author() + seq![0x20u8] + aenc;
        assert(body.take(kw_author().len() as int) == kw_author());
    }
    assert(spec_commit_lines(tail1, st) == spec_commit_lines(tail2, st2));
    // The committer line.
    assert(!contains_byte(kw_committer(), 0x20) && !contains_byte(kw_committer(), 0x0A));
    lemma_commit_header_line(kw_committer(), cenc, fin);
    lemma_name_entry_round_trip(c.committer);
    let st3 = CommitSt { committer: Some(c.committer), ..st2 };
    assert(spec_commit_line(kw_committer() + seq![0x20u8] + cenc, st2) == Ok::<
        CommitSt,
        ObjectError,
    >(st3));
    assert(spec_commit_lines(tail2, st2) == spec_commit_lines(fin, st3));
    // The empty line and the message.
    assert(fin[0] == 0x0A);
    assert(spec_find(fin, 0x0A) == Some(0int));
    assert(fin.take(0).len() == 0);
    assert(spec_trim_eol(fin.take(0)).len() == 0);
    assert(fin.skip(1) =~= c.message);
    assert(spec_commit_lines(fin, st3) == spec_commit_finish(st3, c.message));
    assert(spec_commit_finish(st3, c.message) matches Ok(cv) && cv =~= c);
}

/// Scanning the encoded parent lines.
#[verifier::rlimit(60)]
#[verifier::spinoff_prover]
proof fn lemma_commit_tail(c: CommitV, i: int, st: CommitSt)
    requires
        commit_wf(c),
        0 <= i <= c.parents.len(),
        st == (CommitSt {
            tree: Some(c.tree),
            parents: c.parents.take(i),
            author: None::<NameEntryV>,
            committer: None::<NameEntryV>,
        }),
    ensures
        spec_commit_lines(spec_parent_lines(c.parents.skip(i)) + spec_commit_tail_enc(c), st)
            == Ok::<CommitV, ObjectError>(c),
    decreases c.parents.len() - i,
{
    lemma_keywords_distinct();
    let tail = spec_commit_tail_enc(c);
    let s = spec_parent_lines(c.parents.skip(i)) + tail;
    if i == c.parents.len() {
        assert(c.parents.skip(i).len() == 0);
        assert(s =~= tail);
        assert(c.parents.take(i) =~= c.parents);
        lemma_commit_auth_tail(c, st);
    } else {
        let p = c.parents[i];
        let hexp = spec_hex_of(p);
        assert(p.len() == 20);
        lemma_id_hex_round_trip(p);
        let rest = spec_parent_lines(c.parents.skip(i + 1)) + tail;
        assert(c.parents.skip(i)[0] == p);
        assert(c.parents.skip(i).skip(1) =~= c.parents.skip(i + 1));
        assert(s =~= (kw_parent() + seq![0x20u8] + hexp) + seq![0x0Au8] + rest);
        assert(!contains_byte(kw_parent(), 0x20) && !contains_byte(kw_parent(), 0x0A));
        assert(!contains_byte(hexp, 0x0A));
        assert(hexp.len() == 40 && (0x30 <= hexp[39] <= 0x39 || 0x61 <= hexp[39] <= 0x66));
        lemma_commit_header_line(kw_parent(), hexp, rest);
        let st2 = CommitSt { parents: st.parents.push(p), ..st };
        assert(spec_commit_line(kw_parent() + seq![0x20u8] + hexp, st) == Ok::<
            CommitSt,
            ObjectError,
        >(st2)) by {
            let body = kw_parent() + seq![0x20u8] + hexp;
            assert(body.take(kw_parent().len() as int) == kw_parent());
        }
        assert(spec_commit_lines(s, st) == spec_commit_lines(rest, st2));
        assert(st2.parents =~= c.parents.take(i + 1));
        assert(st2 =~= (CommitSt {
            tree: Some(c.tree),
            parents: c.parents.take(i + 1),
            author: None::<NameEntryV>,
            committer: None::<NameEntryV>,
        }));
        lemma_commit_tail(c, i + 1, st2);
    }
}

/// Decoding an encoded commit yields the original, field for field.
#[verifier::rlimit(100)]
#[verifier::spinoff_prover]
pub proof fn lemma_commit_round_trip(c: CommitV)
    requires
        commit_wf(c),
    ensures
        spec_commit_parse(spec_commit_encode(c)) == Ok::<CommitV, ObjectError>(c),
{
    lemma_keywords_distinct();
    let enc = spec_commit_encode(c);
    let hext = spec_hex_of(c.tree);
    lemma_id_hex_round_trip(c.tree);
    let rest = spec_parent_lines(c.parents) + spec_commit_tail_enc(c);
    assert(enc =~= (kw_tree() + seq![0x20u8] + hext) + seq![0x0Au8] + rest);
    assert(!contains_byte(kw_tree(), 0x20) && !contains_byte(kw_tree(), 0x0A));
    assert(!contains_byte(hext, 0x0A));
    assert(hext.len() == 40 && (0x30 <= hext[39] <= 0x39 || 0x61 <= hext[39] <= 0x66));
    lemma_commit_header_line(kw_tree(), hext, rest);
    let st0 = commit_st_init();
    let st1 = CommitSt { tree: Some(c.tree), ..st0 };
    assert(spec_commit_line(kw_tree() + seq![0x20u8] + hext, st0) == Ok::<CommitSt, ObjectError>(
        st1,
    )) by {
        let body = kw_tree() + seq![0x20u8] + hext;
        assert(body.take(kw_tree().len() as int) == kw_tree());
    }
    assert(spec_commit_lines(enc, st0) == spec_commit_lines(rest, st1));
    assert(st1 =~= (CommitSt {
        tree: Some(c.tree),
        parents: c.parents.take(0),
        author: None::<NameEntryV>,
        committer: None::<NameEntryV>,
    })) by {
        assert(c.parents.take(0) =~= Seq::<Seq<u8>>::empty());
    }
    lemma_commit_tail(c, 0, st1);
    assert(c.parents.skip(0) =~= c.parents);
}

/// The header state corresponding to the parser's executable locals.
pub open spec fn st_view(
    tree: Option<Id>,
    parents: Seq<Id>,
    author: Option<NameEntry>,
    committer: Option<NameEntry>,
) -> CommitSt {
    CommitSt {
        tree: match tree {
            Some(id) => Some(id@),
            None => None,
        },
        parents: parents.map_values(|p: Id| p@),
        author: match author {
            Some(a) => Some(a@),
            None => None,
        },
        committer: match committer {
            Some(x) => Some(x@),
            None => None,
        },
    }
}

impl Commit {
    /// Parses a commit payload: header lines, an empty line, the message.
    #[verifier::rlimit(100)]
    #[verifier::spinoff_prover]
    pub fn load(content: &Vec<u8>) -> (r: Result<Commit, ObjectError>)
        ensures
            match r {
                Ok(c) => spec_commit_parse(content@) == Ok::<CommitV, ObjectError>(c@),
                Err(e) => spec_commit_parse(content@) == Err::<CommitV, ObjectError>(e),
            },
    {
        let len = content.len();
        let mut pos: usize = 0;
        let mut tree: Option<Id> = None;
        let mut parents: Vec<Id> = Vec::new();
        let mut author: Option<NameEntry> = None;
        let mut committer: Option<NameEntry> = None;
        let kwt = kw_tree_vec();
        let kwp = kw_parent_vec();
        let kwa = kw_author_vec();
        let kwc = kw_committer_vec();
        proof {
            assert(content@.skip(0) =~= content@);
            assert(st_view(tree, parents@, author, committer) =~= commit_st_init());
        }
        loop
            invariant
                pos <= len,
                len == content@.len(),
                kwt@ == kw_tree(),
                kwp@ == kw_parent(),
                kwa@ == kw_author(),
                kwc@ == kw_committer(),
                spec_commit_parse(content@) == spec_commit_lines(
                    content@.skip(pos as int),
                    st_view(tree, parents@, author, committer),
                ),
            decreases len + 1 - pos,
        {
            let ghost st = st_view(tree, parents@, author, committer);
            let ghost rem = content@.skip(pos as int);
            if pos == len {
                proof {
                    assert(rem.len() == 0);
                }
                return Err(ObjectError::Eof);
            }
            let nl_opt = find_byte_from(content, pos, 0x0A);
            proof {
                lemma_spec_find_char(rem, 0x0A);
            }
            let line_end: usize;
            let rest_pos: usize;
            match nl_opt {
                Some(nl) => {
                    line_end = nl;
                    rest_pos = nl + 1;
                },
                None => {
                    line_end = len;
                    rest_pos = len;
                },
            }
            let line = subvec(content, pos, line_end);
            proof {
                match nl_opt {
                    Some(nl) => {
                        assert(rem.take(nl - pos) =~= content@.subrange(pos as int, nl as int));
                        assert(rem.skip(nl - pos + 1) =~= content@.skip(nl + 1 as int));
                    },
                    None => {
                        assert(rem =~= content@.subrange(pos as int, len as int));
                    },
                }
            }
            let trimmed = trim_eol(&line);
            if trimmed.len() == 0 {
                let message = subvec(content, rest_pos, len);
                proof {
                    match nl_opt {
                        Some(nl) => {
                            assert(spec_commit_lines(rem, st) == spec_commit_finish(
                                st,
                                message@,
                            ));
                        },
                        None => {
                            assert(message@.len() == 0);
                            assert(message@ =~= Seq::<u8>::empty());
                            assert(spec_commit_lines(rem, st) == spec_commit_finish(
                                st,
                                Seq::empty(),
                            ));
                        },
                    }
                }
                let t = match tree {
                    Some(t) => t,
                    None => {
                        return Err(ObjectError::MissingTree);
                    },
                };
                let a = match author {
                    Some(a) => a,
                    None => {
                        return Err(ObjectError::MissingAuthor);
                    },
                };
                let cm = match committer {
                    Some(x) => x,
                    None => {
                        return Err(ObjectError::MissingCommitter);
                    },
                };
                let c = Commit { tree: t, parents, author: a, committer: cm, message };
                proof {
                    assert(spec_commit_finish(st, c.message@) matches Ok(cv) && cv =~= c@);
                }
                return Ok(c);
            }
            let sp_opt = find_byte_from(&trimmed, 0, 0x20);
            proof {
                assert(trimmed@.skip(0) =~= trimmed@);
                lemma_spec_find_char(trimmed@, 0x20);
            }
            let sp = match sp_opt {
                Some(i) => i,
                None => {
                    return Err(ObjectError::Header);
                },
            };
            let tlen = trimmed.len();
            let typ = subvec(&trimmed, 0, sp);
            let val = subvec(&trimmed, sp + 1, tlen);
            proof {
                assert(typ@ =~= trimmed@.take(sp as int));
                assert(val@ =~= trimmed@.skip(sp as int + 1));
            }
            let ghost prev_parents = parents@;
            if bytes_eq(&typ, &kwt) {
                match Id::from(val.as_slice()) {
                    Some(id) => {
                        tree = Some(id);
                        proof {
                            let st2 = st_view(tree, parents@, author, committer);
                            assert(st2 =~= (CommitSt { tree: Some(id@), ..st }));
                            assert(spec_commit_line(trimmed@, st) == Ok::<CommitSt, ObjectError>(
                                st2,
                            ));
                        }
                    },
                    None => {
                        return Err(ObjectError::Tree);
                    },
                }
            } else if bytes_eq(&typ, &kwp) {
                match Id::from(val.as_slice()) {
                    Some(id) => {
                        parents.push(id);
                        proof {
                            let st2 = st_view(tree, parents@, author, committer);
                            assert(parents@.map_values(|p: Id| p@) =~= prev_parents.map_values(
                                |p: Id| p@,
                            ).push(id@));
                            assert(st2 =~= (CommitSt { parents: st.parents.push(id@), ..st }));
                            assert(spec_commit_line(trimmed@, st) == Ok::<CommitSt, ObjectError>(
                                st2,
                            ));
                        }
                    },
                    None => {
                        return Err(ObjectError::Parent);
                    },
                }
            } else if bytes_eq(&typ, &kwa) {
                match NameEntry::from(&val) {
                    Some(ne) => {
                        author = Some(ne);
                        proof {
                            let st2 = st_view(tree, parents@, author, committer);
                            assert(st2 =~= (CommitSt { author: Some(ne@), ..st }));
                            assert(spec_commit_line(trimmed@, st) == Ok::<CommitSt, ObjectError>(
                                st2,
                            ));
                        }
                    },
                    None => {
                        return Err(ObjectError::Author);
                    },
                }
            } else if bytes_eq(&typ, &kwc) {
                match NameEntry::from(&val) {
                    Some(ne) => {
                        committer = Some(ne);
                        proof {
                            let st2 = st_view(tree, parents@, author, committer);
                            assert(st2 =~= (CommitSt { committer: Some(ne@), ..st }));
                            assert(spec_commit_line(trimmed@, st) == Ok::<CommitSt, ObjectError>(
                                st2,
                            ));
                        }
                    },
                    None => {
                        return Err(ObjectError::Committer);
                    },
                }
            } else {
                proof {
                    assert(spec_commit_line(trimmed@, st) == Ok::<CommitSt, ObjectError>(st));
                }
            }
            proof {
                let st2 = st_view(tree, parents@, author, committer);
                assert(spec_commit_line(trimmed@, st) == Ok::<CommitSt, ObjectError>(st2));
                match nl_opt {
                    Some(nl) => {
                        assert(spec_commit_lines(rem, st) == spec_commit_lines(
                            content@.skip(rest_pos as int),
                            st2,
                        ));
                    },
                    None => {
                        assert(spec_commit_lines(rem, st) == Err::<CommitV, ObjectError>(
                            ObjectError::Eof,
                        ));
                        assert(content@.skip(rest_pos as int).len() == 0);
                    },
                }
            }
            pos = rest_pos;
        }
    }
}

impl Tree {
    /// Parses a tree payload into its entries.
    pub fn load(content: &Vec<u8>) -> (r: Result<Tree, ObjectError>)
        ensures
            match r {
                Ok(t) => spec_tree_parse(content@) == Ok::<Seq<FileV>, ObjectError>(t@),
                Err(e) => spec_tree_parse(content@) == Err::<Seq<FileV>, ObjectError>(e),
            },
    {
        let mut files: Vec<File> = Vec::new();
        let mut pos: usize = 0;
        proof {
            assert(content@.skip(0) =~= content@);
            assert(files@.map_values(|f: File| f@) =~= Seq::<FileV>::empty());
        }
        loop
            invariant
                pos <= content@.len(),
                spec_tree_parse(content@) == match spec_tree_parse(content@.skip(pos as int)) {
                    Ok(fs) => Ok::<Seq<FileV>, ObjectError>(
                        files@.map_values(|f: File| f@) + fs,
                    ),
                    Err(e) => Err::<Seq<FileV>, ObjectError>(e),
                },
            decreases content@.len() - pos,
        {
            let ghost rem = content@.skip(pos as int);
            if pos == content.len() {
                proof {
                    assert(rem.len() == 0);
                    assert(files@.map_values(|f: File| f@) + Seq::<FileV>::empty()
                        =~= files@.map_values(|f: File| f@));
                }
                return Ok(Tree { files });
            }
            let sp = match find_byte_from(content, pos, 0x20) {
                Some(i) => i,
                None => {
                    return Err(ObjectError::TreeEntryMode);
                },
            };
            proof {
                lemma_spec_find_char(rem, 0x20);
                assert(rem.take(sp - pos) =~= content@.subrange(pos as int, sp as int));
            }
            let mode_bytes = subvec(content, pos, sp);
            let mode = match parse_octal(mode_bytes.as_slice()) {
                Some(m) => m,
                None => {
                    return Err(ObjectError::TreeEntryMode);
                },
            };
            let ghost rest = rem.skip(sp - pos + 1);
            proof {
                assert(rest =~= content@.skip(sp + 1 as int));
            }
            let nul = match find_byte_from(content, sp + 1, 0x00) {
                Some(i) => i,
                None => {
                    return Err(ObjectError::TreeEntryName);
                },
            };
            proof {
                lemma_spec_find_char(rest, 0x00);
                assert(rest.take(nul - (sp + 1)) =~= content@.subrange(
                    sp + 1 as int,
                    nul as int,
                ));
            }
            let name = subvec(content, sp + 1, nul);
            let ghost after = rest.skip(nul - (sp + 1) + 1);
            proof {
                assert(after =~= content@.skip(nul + 1 as int));
            }
            if content.len() - (nul + 1) < 20 {
                return Err(ObjectError::TreeEntryId);
            }
            let id_bytes = subvec(content, nul + 1, nul + 21);
            proof {
                assert(after.take(20) =~= content@.subrange(nul + 1 as int, nul + 21 as int));
                assert(after.skip(20) =~= content@.skip(nul + 21 as int));
            }
            let f = File { mode, name, id: Id { bytes: id_bytes } };
            proof {
                let prev = files@.map_values(|ff: File| ff@);
                assert(prev.push(f@) =~= files@.push(f).map_values(|ff: File| ff@));
                match spec_tree_parse(content@.skip(nul + 21 as int)) {
                    Ok(fs) => {
                        assert(prev + (seq![f@] + fs) =~= prev.push(f@) + fs);
                    },
                    Err(_) => {},
                }
            }
            files.push(f);
            pos = nul + 21;
        }
    }

    /// Encodes a tree payload: the concatenation of its encoded entries.
    pub fn encode_payload(&self) -> (r: Vec<u8>)
        ensures
            r@ == spec_tree_encode(self@),
    {
        let mut v: Vec<u8> = Vec::new();
        let mut i: usize = 0;
        proof {
            assert(self@.skip(0) =~= self@);
        }
        while i < self.files.len()
            invariant
                i <= self.files@.len(),
                self@.len() == self.files@.len(),
                v@ + spec_tree_encode(self@.skip(i as int)) == spec_tree_encode(self@),
            decreases self.files@.len() - i,
        {
            let e = self.files[i].encode();
            proof {
                assert(self@.skip(i as int)[0] == self@[i as int]);
                assert(self@.skip(i as int).skip(1) =~= self@.skip(i as int + 1));
                assert((v@ + e@) + spec_tree_encode(self@.skip(i as int + 1)) =~= v@
                    + spec_tree_encode(self@.skip(i as int)));
            }
            extend_vec(&mut v, &e);
            i = i + 1;
        }
        proof {
            assert(spec_tree_encode(self@.skip(i as int)) =~= Seq::<u8>::empty());
            assert(v@ + Seq::<u8>::empty() =~= v@);
        }
        v
    }
}

/// What a storable object contributes to its stored form: a tag and an
/// encoded payload.
pub trait GitObject {
    /// The tag bytes in the stored header.
    spec fn spec_tag(&self) -> Seq<u8>;

    /// The encoded payload.
    spec fn spec_encode(&self) -> Seq<u8>;

    /// Returns the tag for this object on disk.
    fn tag(&self) -> (r: Vec<u8>)
        ensures
            r@ == self.spec_tag(),
    ;

    /// Encodes this object's payload for storage.
    fn encode(&self) -> (r: Vec<u8>)
        ensures
            r@ == self.spec_encode(),
    ;
}

impl GitObject for Blob {
    open spec fn spec_tag(&self) -> Seq<u8> {
        kw_blob()
    }

    open spec fn spec_encode(&self) -> Seq<u8> {
        self@
    }

    fn tag(&self) -> (r: Vec<u8>) {
        kw_blob_vec()
    }

    fn encode(&self) -> (r: Vec<u8>) {
        let r = subvec(&self.content, 0, self.content.len());
        proof {
            assert(r@ =~= self@);
        }
        r
    }
}

impl GitObject for Tree {
    open spec fn spec_tag(&self) -> Seq<u8> {
        kw_tree()
    }

    open spec fn spec_encode(&self) -> Seq<u8> {
        spec_tree_encode(self@)
    }

    fn tag(&self) -> (r: Vec<u8>) {
        kw_tree_vec()
    }

    fn encode(&self) -> (r: Vec<u8>) {
        self.encode_payload()
    }
}

impl GitObject for Commit {
    open spec fn spec_tag(&self) -> Seq<u8> {
        kw_commit()
    }

    open spec fn spec_encode(&self) -> Seq<u8> {
        spec_commit_encode(self@)
    }

    fn tag(&self) -> (r: Vec<u8>) {
        kw_commit_vec()
    }

    fn encode(&self) -> (r: Vec<u8>) {
        let mut v = kw_tree_vec();
        v.push(0x20);
        let hext = self.tree.hex();
        extend_vec(&mut v, &hext);
        v.push(0x0A);
        let ghost pre = v@;
        let ghost psv = self@.parents;
        let mut i: usize = 0;
        proof {
            assert(psv.skip(0) =~= psv);
        }
        while i < self.parents.len()
            invariant
                i <= self.parents@.len(),
                psv == self.parents@.map_values(|p: Id| p@),
                psv.len() == self.parents@.len(),
                v@ + spec_parent_lines(psv.skip(i as int)) == pre + spec_parent_lines(psv),
            decreases self.parents@.len() - i,
        {
            let mut line = kw_parent_vec();
            line.push(0x20);
            let hexp = self.parents[i].hex();
            extend_vec(&mut line, &hexp);
            line.push(0x0A);
            proof {
                assert(psv.skip(i as int)[0] == psv[i as int]);
                assert(psv[i as int] == self.parents@[i as int]@);
                assert(psv.skip(i as int).skip(1) =~= psv.skip(i as int + 1));
                assert(line@ =~= kw_parent() + seq![0x20u8] + spec_hex_of(psv[i as int])
                    + seq![0x0Au8]);
                assert((v@ + line@) + spec_parent_lines(psv.skip(i as int + 1)) =~= v@
                    + spec_parent_lines(psv.skip(i as int)));
            }
            extend_vec(&mut v, &line);
            i = i + 1;
        }
        proof {
            assert(spec_parent_lines(psv.skip(i as int)) =~= Seq::<u8>::empty());
            assert(v@ + Seq::<u8>::empty() =~= v@);
            assert(v@ == pre + spec_parent_lines(psv));
        }
        let kwa = kw_author_vec();
        extend_vec(&mut v, &kwa);
        v.push(0x20);
        let aenc = self.author.encode();
        extend_vec(&mut v, &aenc);
        v.push(0x0A);
        let kwc = kw_committer_vec();
        extend_vec(&mut v, &kwc);
        v.push(0x20);
        let cenc = self.committer.encode();
        extend_vec(&mut v, &cenc);
        v.push(0x0A);
        v.push(0x0A);
        extend_vec(&mut v, &self.message);
        proof {
            assert(v@ =~= spec_commit_encode(self@));
        }
        v
    }
}

/// A parsed object of one of the three kinds.
#[derive(Debug, PartialEq, Eq)]
pub enum Object {
    /// A tree object.
    Tree(Tree),
    /// A blob object.
    Blob(Blob),
    /// A commit object.
    Commit(Commit),
}

/// Spec-level mirror of an object.
pub enum ObjectV {
    /// A tree object.
    Tree(Seq<FileV>),
    /// A blob object.
    Blob(Seq<u8>),
    /// A commit object.
    Commit(CommitV),
}

impl View for Object {
    type V = ObjectV;

    open spec fn view(&self) -> ObjectV {
        match self {
            Object::Tree(t) => ObjectV::Tree(t@),
            Object::Blob(b) => ObjectV::Blob(b@),
            Object::Commit(c) => ObjectV::Commit(c@),
        }
    }
}

/// The stored pre-image `tag SP size NUL payload`; its SHA-1 is the Id.
pub open spec fn spec_store_preimage(tag: Seq<u8>, payload: Seq<u8>) -> Seq<u8> {
    tag + seq![0x20u8] + spec_dec_of(payload.len()) + seq![0x00u8] + payload
}

/// Spec-level parse of an uncompressed stored object.  The tag is the header
/// up to its first space; the size field is not interpreted.
pub open spec fn spec_object_parse(s: Seq<u8>) -> Result<ObjectV, ObjectError> {
    match spec_find(s, 0x00) {
        None => Err(ObjectError::Tag),
        Some(nul) => if !(0 <= nul < s.len()) {
            Err(ObjectError::Tag)
        } else {
            let header = s.take(nul);
            let content = s.skip(nul + 1);
            let typ = match spec_find(header, 0x20) {
                Some(sp) => if 0 <= sp <= header.len() {
                    header.take(sp)
                } else {
                    header
                },
                None => header,
            };
            if typ == kw_tree() {
                match spec_tree_parse(content) {
                    Ok(fs) => Ok(ObjectV::Tree(fs)),
                    Err(e) => Err(e),
                }
            } else if typ == kw_blob() {
                Ok(ObjectV::Blob(content))
            } else if typ == kw_commit() {
                match spec_commit_parse(content) {
                    Ok(c) => Ok(ObjectV::Commit(c)),
                    Err(e) => Err(e),
                }
            } else {
                Err(ObjectError::Tag)
            }
        },
    }
}

impl Object {
    /// Parses an uncompressed stored object into one of the three kinds.
    pub fn parse(buf: &Vec<u8>) -> (r: Result<Object, ObjectError>)
        ensures
            match r {
                Ok(o) => spec_object_parse(buf@) == Ok::<ObjectV, ObjectError>(o@),
                Err(e) => spec_object_parse(buf@) == Err::<ObjectV, ObjectError>(e),
            },
    {
        proof {
            assert(buf@.skip(0) =~= buf@);
        }
        let nul = match find_byte_from(buf, 0, 0x00) {
            Some(i) => i,
            None => {
                return Err(ObjectError::Tag);
            },
        };
        proof {
            lemma_spec_find_char(buf@, 0x00);
        }
        let blen = buf.len();
        let header = subvec(buf, 0, nul);
        let content = subvec(buf, nul + 1, blen);
        proof {
            assert(header@ =~= buf@.take(nul as int));
            assert(content@ =~= buf@.skip(nul + 1 as int));
            assert(header@.skip(0) =~= header@);
            lemma_spec_find_char(header@, 0x20);
        }
        let hlen = header.len();
        let typ = match find_byte_from(&header, 0, 0x20) {
            Some(sp) => subvec(&header, 0, sp),
            None => subvec(&header, 0, hlen),
        };
        proof {
            assert(header@.subrange(0, header@.len() as int) =~= header@);
        }
        if bytes_eq(&typ, &kw_tree_vec()) {
            match Tree::load(&content) {
                Ok(t) => Ok(Object::Tree(t)),
                Err(e) => Err(e),
            }
        } else if bytes_eq(&typ, &kw_blob_vec()) {
            Ok(Object::Blob(Blob::load(content.as_slice())))
        } else if bytes_eq(&typ, &kw_commit_vec()) {
            match Commit::load(&content) {
                Ok(c) => Ok(Object::Commit(c)),
                Err(e) => Err(e),
            }
        } else {
            Err(ObjectError::Tag)
        }
    }

    /// Computes the stored form of an object: its content-addressed Id and
    /// the compressed bytes to write.
    pub fn prepare_store<T: GitObject>(obj: &T) -> (r: (Id, Vec<u8>))
        ensures
            r.0.wf(),
            r.0@ == sha1_of(spec_store_preimage(obj.spec_tag(), obj.spec_encode())),
            zlib_inflate_of(r.1@) == Some(spec_store_preimage(obj.spec_tag(), obj.spec_encode())),
    {
        let typ = obj.tag();
        let encoded = obj.encode();
        let mut to_store = typ;
        to_store.push(0x20);
        let size_dec = dec_of_u64(encoded.len() as u64);
        extend_vec(&mut to_store, &size_dec);
        to_store.push(0x00);
        extend_vec(&mut to_store, &encoded);
        proof {
            assert(to_store@ =~= spec_store_preimage(obj.spec_tag(), obj.spec_encode()));
        }
        let digest = sha1_digest(&to_store);
        let squished = zlib_compress(&to_store);
        (Id { bytes: digest }, squished)
    }
}

/// Well-formedness of an object value.
pub open spec fn object_wf(o: ObjectV) -> bool {
    match o {
        ObjectV::Blob(_) => true,
        ObjectV::Tree(fs) => tree_wf(fs),
        ObjectV::Commit(c) => commit_wf(c),
    }
}

/// The tag of an object value.
pub open spec fn spec_object_tag(o: ObjectV) -> Seq<u8> {
    match o {
        ObjectV::Blob(_) => kw_blob(),
        ObjectV::Tree(_) => kw_tree(),
        ObjectV::Commit(_) => kw_commit(),
    }
}

/// The encoded payload of an object value.
pub open spec fn spec_object_payload(o: ObjectV) -> Seq<u8> {
    match o {
        ObjectV::Blob(b) => b,
        ObjectV::Tree(fs) => spec_tree_encode(fs),
        ObjectV::Commit(c) => spec_commit_encode(c),
    }
}

/// Decoding the stored pre-image of a well-formed object yields the object:
/// byte for byte for blob content, field for field for trees and commits.
#[verifier::rlimit(100)]
#[verifier::spinoff_prover]
pub proof fn lemma_object_round_trip(o: ObjectV)
    requires
        object_wf(o),
    ensures
        spec_object_parse(spec_store_preimage(spec_object_tag(o), spec_object_payload(o)))
            == Ok::<ObjectV, ObjectError>(o),
{
    lemma_keywords_distinct();
    let tag = spec_object_tag(o);
    let payload = spec_object_payload(o);
    let dec = spec_dec_of(payload.len());
    crate::num::lemma_dec_of_range(payload.len());
    let s = spec_store_preimage(tag, payload);
    let header = tag + seq![0x20u8] + dec;
    assert(s =~= header + seq![0x00u8] + payload);
    assert(!contains_byte(header, 0x00)) by {
        assert(forall|j: int|
            0 <= j < header.len() ==> header[j] == if j < tag.len() {
                tag[j]
            } else if j == tag.len() {
                0x20u8
            } else {
                dec[j - tag.len() - 1]
            });
        assert(forall|j: int| 0 <= j < tag.len() ==> tag[j] != 0x00) by {
            match o {
                ObjectV::Blob(_) => {},
                ObjectV::Tree(_) => {},
                ObjectV::Commit(_) => {},
            }
        }
    }
    lemma_find_append_free(header, seq![0x00u8] + payload, 0x00);
    assert((seq![0x00u8] + payload)[0] == 0x00);
    assert(spec_find(seq![0x00u8] + payload, 0x00) == Some(0int));
    assert(header + (seq![0x00u8] + payload) =~= s);
    assert(spec_find(s, 0x00) == Some(header.len() as int));
    assert(s.take(header.len() as int) =~= header);
    assert(s.skip(header.len() as int + 1) =~= payload);
    assert(!contains_byte(tag, 0x20));
    lemma_find_append_free(tag, seq![0x20u8] + dec, 0x20);
    assert((seq![0x20u8] + dec)[0] == 0x20);
    assert(spec_find(seq![0x20u8] + dec, 0x20) == Some(0int));
    assert(tag + (seq![0x20u8] + dec) =~= header);
    assert(spec_find(header, 0x20) == Some(tag.len() as int));
    assert(header.take(tag.len() as int) =~= tag);
    match o {
        ObjectV::Blob(_) => {},
        ObjectV::Tree(fs) => {
            lemma_tree_round_trip(fs);
        },
        ObjectV::Commit(c) => {
            lemma_commit_round_trip(c);
        },
    }
}

/// A handle on a repository: the path of its `.git`-style directory, as
/// bytes with forward-slash separators.
#[derive(Debug, Clone, PartialEq, Eq)]
pub struct Repo {
    /// Path to the root of the `.git` directory.
    pub root: Vec<u8>,
}

/// The ASCII path fragment `/objects/`.
pub open spec fn objects_dir() -> Seq<u8> {
    seq![0x2fu8, 0x6fu8, 0x62u8, 0x6au8, 0x65u8, 0x63u8, 0x74u8, 0x73u8, 0x2fu8]
}

/// The ASCII path fragment `/HEAD`.
pub open spec fn head_file() -> Seq<u8> {
    seq![0x2fu8, 0x48u8, 0x45u8, 0x41u8, 0x44u8]
}

/// Where a loose object of the given identifier lives, relative to `root`:
/// `objects/<hex[0:2]>/<hex[2:]>`.
pub open spec fn spec_object_path(root: Seq<u8>, id: Seq<u8>) -> Seq<u8> {
    root + objects_dir() + spec_hex_of(id).take(2) + seq![0x2fu8] + spec_hex_of(id).skip(2)
}

impl Repo {
    /// The path of the loose object file for an identifier.
    pub fn path_for_object(&self, id: &Id) -> (r: Vec<u8>)
        requires
            id.wf(),
        ensures
            r@ == spec_object_path(self.root@, id@),
    {
        let hex = id.hex();
        let mut r = subvec(&self.root, 0, self.root.len());
        proof {
            assert(r@ =~= self.root@);
        }
        r.push(0x2f);
        r.push(0x6f);
        r.push(0x62);
        r.push(0x6a);
        r.push(0x65);
        r.push(0x63);
        r.push(0x74);
        r.push(0x73);
        r.push(0x2f);
        r.push(hex[0]);
        r.push(hex[1]);
        r.push(0x2f);
        let rest = subvec(&hex, 2, hex.len());
        extend_vec(&mut r, &rest);
        proof {
            assert(rest@ =~= spec_hex_of(id@).skip(2));
            assert(spec_hex_of(id@).take(2) =~= seq![spec_hex_of(id@)[0], spec_hex_of(id@)[1]]);
            assert(r@ =~= spec_object_path(self.root@, id@));
        }
        r
    }

    /// The path of the `HEAD` file.
    pub fn head_path(&self) -> (r: Vec<u8>)
        ensures
            r@ == self.root@ + head_file(),
    {
        let mut r = subvec(&self.root, 0, self.root.len());
        r.push(0x2f);
        r.push(0x48);
        r.push(0x45);
        r.push(0x41);
        r.push(0x44);
        proof {
            assert(r@ =~= self.root@ + head_file());
        }
        r
    }
}

} // verus!
