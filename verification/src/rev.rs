//! The reference resolver: refname validation, ref-file parsing, prefix
//! lookup in the object directory, the refname search path, and ref updates.
//!
//! The resolver works over plain data handed in by the caller: the listing
//! of one object fan-out directory, and a snapshot of the repository's ref
//! files as `(path, content)` pairs.

use crate::bytes::{bytes_eq, contains_byte, is_prefix_of, subvec};
use crate::num::spec_hex_digit;
use crate::objects::{spec_find, spec_id_parse, Id};
use crate::tree::{parts_view, spec_path_split, split_path};
use vstd::prelude::*;

verus! {

/// Errors that can be encountered while working with revs.
#[derive(Debug, Clone, PartialEq, Eq)]
pub enum RevError {
    /// The given reference resolves to more than one object.
    Ambiguous(Vec<u8>),
    /// No value could be found for the rev.
    Dangling(Vec<u8>),
    /// The ref name fails the naming rules.
    Invalid(Vec<u8>),
}

/// Spec-level mirror of a rev error.
pub enum RevErrorV {
    /// More than one object matches.
    Ambiguous(Seq<u8>),
    /// Nothing matches.
    Dangling(Seq<u8>),
    /// The name is invalid.
    Invalid(Seq<u8>),
}

/// The view of a rev error.
pub open spec fn rev_error_view(e: RevError) -> RevErrorV {
    match e {
        RevError::Ambiguous(s) => RevErrorV::Ambiguous(s@),
        RevError::Dangling(s) => RevErrorV::Dangling(s@),
        RevError::Invalid(s) => RevErrorV::Invalid(s@),
    }
}

/// A hex digit byte.
pub open spec fn spec_is_hex_digit(b: u8) -> bool {
    spec_hex_digit(b) is Some
}

/// Whether a string could be an identifier or identifier prefix: 4 to 40
/// hex digits.
pub open spec fn spec_is_valid_sha1(s: Seq<u8>) -> bool {
    4 <= s.len() <= 40 && forall|i: int| 0 <= i < s.len() ==> spec_is_hex_digit(#[trigger] s[i])
}

/// Check if a given string could be an identifier prefix.
pub fn is_valid_sha1(s: &Vec<u8>) -> (r: bool)
    ensures
        r == spec_is_valid_sha1(s@),
{
    if s.len() < 4 || s.len() > 40 {
        return false;
    }
    let mut i: usize = 0;
    while i < s.len()
        invariant
            i <= s@.len(),
            forall|j: int| 0 <= j < i ==> spec_is_hex_digit(#[trigger] s@[j]),
        decreases s@.len() - i,
    {
        if crate::num::_decode_hex_digit(s[i]).is_none() {
            return false;
        }
        i = i + 1;
    }
    true
}

/// A byte a refname component may hold: no control bytes, no space, and
/// none of `~ ^ : ? * [ \\` or DEL.
pub open spec fn spec_ref_byte_ok(b: u8) -> bool {
    &&& b > 0x20
    &&& b != 0x7f
    &&& b != 0x7e
    &&& b != 0x5e
    &&& b != 0x3a
    &&& b != 0x3f
    &&& b != 0x2a
    &&& b != 0x5b
    &&& b != 0x5c
}

/// A pair of adjacent bytes occurs in a string.
pub open spec fn spec_has_pair(c: Seq<u8>, a: u8, b: u8) -> bool {
    exists|i: int| 0 <= i < c.len() - 1 && #[trigger] c[i] == a && c[i + 1] == b
}

/// Validity of one refname component: non-empty, not starting or ending
/// with a dot, not ending in `.lock`, without `..` or `@{`, and with every
/// byte allowed.
pub open spec fn spec_component_ok(c: Seq<u8>) -> bool {
    &&& c.len() > 0
    &&& c[0] != 0x2e
    &&& c[c.len() - 1] != 0x2e
    &&& !(c.len() >= 5 && c[c.len() - 5] == 0x2e && c[c.len() - 4] == 0x6c && c[c.len() - 3]
        == 0x6f && c[c.len() - 2] == 0x63 && c[c.len() - 1] == 0x6b)
    &&& !spec_has_pair(c, 0x2e, 0x2e)
    &&& !spec_has_pair(c, 0x40, 0x7b)
    &&& forall|i: int| 0 <= i < c.len() ==> spec_ref_byte_ok(#[trigger] c[i])
}

/// The literal name `@`.
pub open spec fn at_name() -> Seq<u8> {
    seq![0x40u8]
}

/// The literal name `HEAD`.
pub open spec fn head_name() -> Seq<u8> {
    seq![0x48u8, 0x45u8, 0x41u8, 0x44u8]
}

/// Validity of a whole refname: not the literal `@`, every slash-separated
/// component valid, and more than one component unless one-level names are
/// allowed.
pub open spec fn spec_valid_refname(s: Seq<u8>, allow_onelevel: bool) -> bool {
    &&& s != at_name()
    &&& forall|i: int|
        0 <= i < spec_path_split(s).len() ==> spec_component_ok(#[trigger] spec_path_split(s)[i])
    &&& (spec_path_split(s).len() > 1 || allow_onelevel)
}

/// Validity of one component, executable.
fn component_ok(c: &Vec<u8>) -> (r: bool)
    ensures
        r == spec_component_ok(c@),
{
    let n = c.len();
    if n == 0 {
        return false;
    }
    if c[0] == 0x2e || c[n - 1] == 0x2e {
        return false;
    }
    if n >= 5 && c[n - 5] == 0x2e && c[n - 4] == 0x6c && c[n - 3] == 0x6f && c[n - 2] == 0x63
        && c[n - 1] == 0x6b {
        return false;
    }
    let mut i: usize = 0;
    while i + 1 < n
        invariant
            n == c@.len(),
            n > 0,
            i < n,
            forall|j: int| 0 <= j < i ==> !(#[trigger] c@[j] == 0x2e && c@[j + 1] == 0x2e) && !(
            c@[j] == 0x40 && c@[j + 1] == 0x7b),
        decreases n - i,
    {
        if c[i] == 0x2e && c[i + 1] == 0x2e {
            return false;
        }
        if c[i] == 0x40 && c[i + 1] == 0x7b {
            return false;
        }
        i = i + 1;
    }
    let mut k: usize = 0;
    while k < n
        invariant
            n == c@.len(),
            k <= n,
            !spec_has_pair(c@, 0x2e, 0x2e),
            !spec_has_pair(c@, 0x40, 0x7b),
            forall|j: int| 0 <= j < k ==> spec_ref_byte_ok(#[trigger] c@[j]),
        decreases n - k,
    {
        let b = c[k];
        if b <= 0x20 || b == 0x7f || b == 0x7e || b == 0x5e || b == 0x3a || b == 0x3f || b == 0x2a
            || b == 0x5b || b == 0x5c {
            return false;
        }
        k = k + 1;
    }
    true
}

/// Checks if a refname is valid.
pub fn is_valid_refname(name: &Vec<u8>, allow_onelevel: bool) -> (r: bool)
    ensures
        r == spec_valid_refname(name@, allow_onelevel),
{
    if name.len() == 1 && name[0] == 0x40 {
        proof {
            assert(name@ =~= at_name());
        }
        return false;
    }
    proof {
        assert(name@ != at_name()) by {
            if name@ == at_name() {
                assert(name@.len() == 1 && name@[0] == 0x40);
            }
        }
    }
    let parts = split_path(name);
    let ghost pv = parts_view(parts@);
    let mut i: usize = 0;
    while i < parts.len()
        invariant
            i <= parts@.len(),
            pv == parts_view(parts@),
            pv == spec_path_split(name@),
            pv.len() == parts@.len(),
            forall|j: int| 0 <= j < i ==> spec_component_ok(#[trigger] pv[j]),
        decreases parts@.len() - i,
    {
        let ok = component_ok(&parts[i]);
        proof {
            assert(pv[i as int] == parts@[i as int]@);
        }
        if !ok {
            return false;
        }
        i = i + 1;
    }
    if parts.len() == 1 && !allow_onelevel {
        return false;
    }
    true
}

/// Every string of hex digits is a valid one-level refname.
pub proof fn lemma_sha1_is_valid_refname(s: Seq<u8>)
    requires
        spec_is_valid_sha1(s),
    ensures
        spec_valid_refname(s, true),
{
    assert(s != at_name()) by {
        if s == at_name() {
            assert(s.len() == 1);
        }
    }
    assert(!contains_byte(s, 0x2f)) by {
        if contains_byte(s, 0x2f) {
            let w = choose|w: int| 0 <= w < s.len() && s[w] == 0x2f;
            assert(spec_is_hex_digit(s[w]));
        }
    }
    crate::objects::lemma_spec_find_char(s, 0x2f);
    assert(spec_find(s, 0x2f) is None) by {
        match spec_find(s, 0x2f) {
            Some(i) => {
                assert(contains_byte(s, 0x2f));
            },
            None => {},
        }
    }
    assert(spec_path_split(s) =~= seq![s]);
    assert(spec_component_ok(s)) by {
        assert(spec_is_hex_digit(s[0]) && s[0] != 0x2e);
        assert(spec_is_hex_digit(s[s.len() - 1]) && s[s.len() - 1] != 0x2e);
        if s.len() >= 5 {
            assert(spec_is_hex_digit(s[s.len() - 5]));
        }
        assert(!spec_has_pair(s, 0x2e, 0x2e)) by {
            if spec_has_pair(s, 0x2e, 0x2e) {
                let w = choose|w: int| 0 <= w < s.len() - 1 && #[trigger] s[w] == 0x2e && s[w + 1] == 0x2e;
                assert(spec_is_hex_digit(s[w]));
            }
        }
        assert(!spec_has_pair(s, 0x40, 0x7b)) by {
            if spec_has_pair(s, 0x40, 0x7b) {
                let w = choose|w: int| 0 <= w < s.len() - 1 && #[trigger] s[w] == 0x40 && s[w + 1] == 0x7b;
                assert(spec_is_hex_digit(s[w]));
            }
        }
        assert forall|i: int| 0 <= i < s.len() implies spec_ref_byte_ok(#[trigger] s[i]) by {
            assert(spec_is_hex_digit(s[i]));
        }
    }
}

/// An ASCII whitespace byte.
pub open spec fn spec_is_ws(b: u8) -> bool {
    b == 0x09 || b == 0x0A || b == 0x0B || b == 0x0C || b == 0x0D || b == 0x20
}

/// Dropping trailing whitespace.
pub open spec fn spec_trim_end_ws(s: Seq<u8>) -> Seq<u8>
    decreases s.len(),
{
    if s.len() > 0 && spec_is_ws(s[s.len() - 1]) {
        spec_trim_end_ws(s.drop_last())
    } else {
        s
    }
}

/// Dropping leading whitespace.
pub open spec fn spec_trim_start_ws(s: Seq<u8>) -> Seq<u8>
    decreases s.len(),
{
    if s.len() > 0 && spec_is_ws(s[0]) {
        spec_trim_start_ws(s.skip(1))
    } else {
        s
    }
}

/// Dropping whitespace at both ends.
pub open spec fn spec_trim_ws(s: Seq<u8>) -> Seq<u8> {
    spec_trim_start_ws(spec_trim_end_ws(s))
}

/// Drops trailing whitespace.
pub fn trim_end_ws(v: &Vec<u8>) -> (r: Vec<u8>)
    ensures
        r@ == spec_trim_end_ws(v@),
{
    let mut e: usize = v.len();
    proof {
        assert(v@.take(v@.len() as int) =~= v@);
    }
    while e > 0 && (v[e - 1] == 0x09 || v[e - 1] == 0x0A || v[e - 1] == 0x0B || v[e - 1] == 0x0C
        || v[e - 1] == 0x0D || v[e - 1] == 0x20)
        invariant
            e <= v@.len(),
            spec_trim_end_ws(v@) == spec_trim_end_ws(v@.take(e as int)),
        decreases e,
    {
        proof {
            assert(v@.take(e as int).drop_last() =~= v@.take(e - 1));
            assert(v@.take(e as int)[e - 1] == v@[e - 1]);
        }
        e = e - 1;
    }
    let r = subvec(v, 0, e);
    proof {
        if e > 0 {
            assert(v@.take(e as int)[e - 1] == v@[e - 1]);
        }
        assert(spec_trim_end_ws(v@.take(e as int)) == v@.take(e as int));
        assert(r@ =~= v@.take(e as int));
    }
    r
}

/// Drops whitespace at both ends.
pub fn trim_ws(v: &Vec<u8>) -> (r: Vec<u8>)
    ensures
        r@ == spec_trim_ws(v@),
{
    let t = trim_end_ws(v);
    let mut b: usize = 0;
    proof {
        assert(t@.skip(0) =~= t@);
    }
    while b < t.len() && (t[b] == 0x09 || t[b] == 0x0A || t[b] == 0x0B || t[b] == 0x0C || t[b]
        == 0x0D || t[b] == 0x20)
        invariant
            b <= t@.len(),
            spec_trim_start_ws(t@) == spec_trim_start_ws(t@.skip(b as int)),
        decreases t@.len() - b,
    {
        proof {
            assert(t@.skip(b as int)[0] == t@[b as int]);
            assert(t@.skip(b as int).skip(1) =~= t@.skip(b + 1 as int));
        }
        b = b + 1;
    }
    let r = subvec(&t, b, t.len());
    proof {
        if b < t@.len() {
            assert(t@.skip(b as int)[0] == t@[b as int]);
        }
        assert(spec_trim_start_ws(t@.skip(b as int)) == t@.skip(b as int));
        assert(r@ =~= t@.skip(b as int));
    }
    r
}

/// Parsing a ref file can either produce a symref pointer or an Id.
#[derive(Debug, PartialEq, Eq)]
pub enum RefContent {
    /// The trimmed target of a `ref:` file.
    Symref(Vec<u8>),
    /// The identifier held in the file.
    Id(Id),
}

/// Spec-level mirror of ref-file content.
pub enum RefContentV {
    /// A symref target.
    Symref(Seq<u8>),
    /// An identifier.
    Id(Seq<u8>),
}

/// The view of parsed ref-file content.
pub open spec fn ref_content_view(c: RefContent) -> RefContentV {
    match c {
        RefContent::Symref(t) => RefContentV::Symref(t@),
        RefContent::Id(id) => RefContentV::Id(id@),
    }
}

/// The ASCII prefix `ref:`.
pub open spec fn symref_prefix() -> Seq<u8> {
    seq![0x72u8, 0x65u8, 0x66u8, 0x3au8]
}

/// Parse of ref-file content: a `ref:` prefix makes it a symref whose
/// target is the trimmed remainder; otherwise the trimmed content must be a
/// 40-digit identifier.
pub open spec fn spec_parse_ref_content(s: Seq<u8>) -> Option<RefContentV> {
    if is_prefix_of(symref_prefix(), s) {
        Some(RefContentV::Symref(spec_trim_ws(s.skip(4))))
    } else {
        match spec_id_parse(spec_trim_end_ws(s)) {
            Some(id) => Some(RefContentV::Id(id)),
            None => None,
        }
    }
}

/// Parses ref-file content.
pub fn parse_ref_content(content: &Vec<u8>) -> (r: Option<RefContent>)
    ensures
        match r {
            Some(c) => spec_parse_ref_content(content@) == Some(ref_content_view(c)) && (
            c matches RefContent::Id(id) ==> id.wf()),
            None => spec_parse_ref_content(content@) is None,
        },
{
    let mut pre: Vec<u8> = Vec::new();
    pre.push(0x72);
    pre.push(0x65);
    pre.push(0x66);
    pre.push(0x3a);
    proof {
        assert(pre@ =~= symref_prefix());
    }
    if crate::bytes::has_prefix(content, &pre) {
        let rest = subvec(content, 4, content.len());
        proof {
            assert(rest@ =~= content@.skip(4));
        }
        let target = trim_ws(&rest);
        Some(RefContent::Symref(target))
    } else {
        let trimmed = trim_end_ws(content);
        match Id::from(trimmed.as_slice()) {
            Some(id) => Some(RefContent::Id(id)),
            None => None,
        }
    }
}

/// A snapshot of the repository's ref files: `.git`-relative paths with
/// their raw contents.
#[derive(Debug, PartialEq, Eq)]
pub struct RefStore {
    /// The `(path, content)` pairs, paths unique.
    pub files: Vec<(Vec<u8>, Vec<u8>)>,
}

/// The view of a ref-store snapshot.
pub open spec fn refstore_view(s: Seq<(Vec<u8>, Vec<u8>)>) -> Seq<(Seq<u8>, Seq<u8>)> {
    s.map_values(|p: (Vec<u8>, Vec<u8>)| (p.0@, p.1@))
}

/// The content of the first file stored at the given path, if any.
pub open spec fn spec_ref_lookup(files: Seq<(Seq<u8>, Seq<u8>)>, path: Seq<u8>) -> Option<Seq<u8>>
    decreases files.len(),
{
    if files.len() == 0 {
        None
    } else if files[0].0 == path {
        Some(files[0].1)
    } else {
        spec_ref_lookup(files.skip(1), path)
    }
}

impl RefStore {
    /// Reads the content of the file at a path, if present.
    pub fn read(&self, path: &Vec<u8>) -> (r: Option<Vec<u8>>)
        ensures
            match r {
                Some(c) => spec_ref_lookup(refstore_view(self.files@), path@) == Some(c@),
                None => spec_ref_lookup(refstore_view(self.files@), path@) is None,
            },
    {
        let ghost fv = refstore_view(self.files@);
        let mut j: usize = 0;
        proof {
            assert(fv.skip(0) =~= fv);
        }
        while j < self.files.len()
            invariant
                j <= self.files@.len(),
                fv == refstore_view(self.files@),
                fv.len() == self.files@.len(),
                spec_ref_lookup(fv, path@) == spec_ref_lookup(fv.skip(j as int), path@),
            decreases self.files@.len() - j,
        {
            proof {
                assert(fv.skip(j as int)[0] == fv[j as int]);
                assert(fv[j as int] == (self.files@[j as int].0@, self.files@[j as int].1@));
                assert(fv.skip(j as int).skip(1) =~= fv.skip(j as int + 1));
            }
            if bytes_eq(&self.files[j].0, path) {
                let c = subvec(&self.files[j].1, 0, self.files[j].1.len());
                proof {
                    assert(c@ =~= self.files@[j as int].1@);
                }
                return Some(c);
            }
            j = j + 1;
        }
        proof {
            assert(fv.skip(j as int).len() == 0);
        }
        None
    }
}

/// The search-path prefix tried at step `k`: nothing, `refs/`, `refs/tags/`,
/// `refs/heads/`, `refs/remotes/`.
pub open spec fn spec_ref_prefix(k: int) -> Seq<u8> {
    if k == 1 {
        seq![0x72u8, 0x65u8, 0x66u8, 0x73u8, 0x2fu8]
    } else if k == 2 {
        seq![0x72u8, 0x65u8, 0x66u8, 0x73u8, 0x2fu8, 0x74u8, 0x61u8, 0x67u8, 0x73u8, 0x2fu8]
    } else if k == 3 {
        seq![
            0x72u8, 0x65u8, 0x66u8, 0x73u8, 0x2fu8, 0x68u8, 0x65u8, 0x61u8, 0x64u8, 0x73u8,
            0x2fu8,
        ]
    } else if k == 4 {
        seq![
            0x72u8, 0x65u8, 0x66u8, 0x73u8, 0x2fu8, 0x72u8, 0x65u8, 0x6du8, 0x6fu8, 0x74u8,
            0x65u8, 0x73u8, 0x2fu8,
        ]
    } else {
        Seq::empty()
    }
}

/// The ASCII suffix `/HEAD`.
pub open spec fn head_suffix() -> Seq<u8> {
    seq![0x2fu8, 0x48u8, 0x45u8, 0x41u8, 0x44u8]
}

/// The search-path prefix tried at step `k`, executable.
pub fn ref_prefix_vec(k: usize) -> (r: Vec<u8>)
    ensures
        r@ == spec_ref_prefix(k as int),
{
    let mut v: Vec<u8> = Vec::new();
    if k >= 1 && k <= 4 {
        v.push(0x72);
        v.push(0x65);
        v.push(0x66);
        v.push(0x73);
        v.push(0x2f);
    }
    if k == 2 {
        v.push(0x74);
        v.push(0x61);
        v.push(0x67);
        v.push(0x73);
        v.push(0x2f);
    }
    if k == 3 {
        v.push(0x68);
        v.push(0x65);
        v.push(0x61);
        v.push(0x64);
        v.push(0x73);
        v.push(0x2f);
    }
    if k == 4 {
        v.push(0x72);
        v.push(0x65);
        v.push(0x6d);
        v.push(0x6f);
        v.push(0x74);
        v.push(0x65);
        v.push(0x73);
        v.push(0x2f);
    }
    proof {
        assert(v@ =~= spec_ref_prefix(k as int));
    }
    v
}

/// The value of a refname, searched through the candidate locations in
/// order.  A file that parses as an identifier resolves the name; a symref
/// is followed only when the name being looked up is `HEAD`, and then only
/// once; an unreadable file lets the search continue.  After the five
/// locations, `refs/remotes/<rev>/HEAD` is tried, without following.
pub open spec fn spec_find_refname_from(
    rev: Seq<u8>,
    files: Seq<(Seq<u8>, Seq<u8>)>,
    follow: bool,
    k: int,
) -> Option<Seq<u8>>
    decreases (if follow { 1int } else { 0int }), 5 - k,
{
    if k < 0 || k >= 5 {
        match spec_ref_lookup(files, spec_ref_prefix(4) + rev + head_suffix()) {
            Some(content) => match spec_parse_ref_content(content) {
                Some(RefContentV::Id(id)) => Some(id),
                _ => None,
            },
            None => None,
        }
    } else {
        match spec_ref_lookup(files, spec_ref_prefix(k) + rev) {
            None => spec_find_refname_from(rev, files, follow, k + 1),
            Some(content) => match spec_parse_ref_content(content) {
                Some(RefContentV::Id(id)) => Some(id),
                Some(RefContentV::Symref(t)) => if follow && rev == head_name() {
                    spec_find_refname_from(t, files, false, 0)
                } else {
                    None
                },
                None => spec_find_refname_from(rev, files, follow, k + 1),
            },
        }
    }
}

/// The value of a refname, from the first candidate location.
pub open spec fn spec_find_refname(
    rev: Seq<u8>,
    files: Seq<(Seq<u8>, Seq<u8>)>,
    follow: bool,
) -> Option<Seq<u8>> {
    spec_find_refname_from(rev, files, follow, 0)
}

/// The literal name `HEAD`, executable.
pub fn head_name_vec() -> (r: Vec<u8>)
    ensures
        r@ == head_name(),
{
    let mut v: Vec<u8> = Vec::new();
    v.push(0x48);
    v.push(0x45);
    v.push(0x41);
    v.push(0x44);
    proof {
        assert(v@ =~= head_name());
    }
    v
}

/// Find the value of a refname in the ref-store snapshot.
pub fn find_refname(rev: &Vec<u8>, store: &RefStore, follow: bool) -> (r: Option<Id>)
    ensures
        match r {
            Some(id) => id.wf() && spec_find_refname(rev@, refstore_view(store.files@), follow)
                == Some(id@),
            None => spec_find_refname(rev@, refstore_view(store.files@), follow) is None,
        },
    decreases (if follow {
        1int
    } else {
        0int
    }),
{
    let ghost fv = refstore_view(store.files@);
    let mut k: usize = 0;
    while k < 5
        invariant
            k <= 5,
            fv == refstore_view(store.files@),
            spec_find_refname(rev@, fv, follow) == spec_find_refname_from(
                rev@,
                fv,
                follow,
                k as int,
            ),
        decreases 5 - k,
    {
        let mut path = ref_prefix_vec(k);
        crate::bytes::extend_vec(&mut path, rev);
        proof {
            assert(path@ == spec_ref_prefix(k as int) + rev@);
        }
        match store.read(&path) {
            Some(content) => {
                match parse_ref_content(&content) {
                    Some(RefContent::Id(id)) => {
                        return Some(id);
                    },
                    Some(RefContent::Symref(t)) => {
                        let hd = head_name_vec();
                        if follow && bytes_eq(rev, &hd) {
                            return find_refname(&t, store, false);
                        } else {
                            return None;
                        }
                    },
                    None => {},
                }
            },
            None => {},
        }
        k = k + 1;
    }
    let mut path = ref_prefix_vec(4);
    crate::bytes::extend_vec(&mut path, rev);
    let mut suffix: Vec<u8> = Vec::new();
    suffix.push(0x2f);
    suffix.push(0x48);
    suffix.push(0x45);
    suffix.push(0x41);
    suffix.push(0x44);
    crate::bytes::extend_vec(&mut path, &suffix);
    proof {
        assert(suffix@ =~= head_suffix());
        assert(path@ =~= spec_ref_prefix(4) + rev@ + head_suffix());
    }
    match store.read(&path) {
        Some(content) => {
            match parse_ref_content(&content) {
                Some(RefContent::Id(id)) => Some(id),
                _ => None,
            }
        },
        None => None,
    }
}

/// How many directory entries the identifier tail is a prefix of.
pub open spec fn spec_count_matches(names: Seq<Seq<u8>>, tail: Seq<u8>) -> int
    decreases names.len(),
{
    if names.len() == 0 {
        0
    } else {
        (if is_prefix_of(tail, names[0]) {
            1int
        } else {
            0int
        }) + spec_count_matches(names.skip(1), tail)
    }
}

/// The first directory entry the identifier tail is a prefix of, if any.
pub open spec fn spec_first_match(names: Seq<Seq<u8>>, tail: Seq<u8>) -> Option<Seq<u8>>
    decreases names.len(),
{
    if names.len() == 0 {
        None
    } else if is_prefix_of(tail, names[0]) {
        Some(names[0])
    } else {
        spec_first_match(names.skip(1), tail)
    }
}

/// The match count is non-negative, and zero exactly when nothing matches.
pub proof fn lemma_count_matches_char(names: Seq<Seq<u8>>, tail: Seq<u8>)
    ensures
        spec_count_matches(names, tail) >= 0,
        (spec_count_matches(names, tail) == 0) == (forall|j: int|
            0 <= j < names.len() ==> !is_prefix_of(tail, #[trigger] names[j])),
        match spec_first_match(names, tail) {
            Some(n) => exists|j: int|
                0 <= j < names.len() && #[trigger] names[j] == n && is_prefix_of(tail, n),
            None => spec_count_matches(names, tail) == 0,
        },
    decreases names.len(),
{
    lemma_count_matches_char_rec(names, tail);
}

/// Induction helper for `lemma_count_matches_char`.
proof fn lemma_count_matches_char_rec(names: Seq<Seq<u8>>, tail: Seq<u8>)
    ensures
        spec_count_matches(names, tail) >= 0,
        (spec_count_matches(names, tail) == 0) == (forall|j: int|
            0 <= j < names.len() ==> !is_prefix_of(tail, #[trigger] names[j])),
        match spec_first_match(names, tail) {
            Some(n) => exists|j: int|
                0 <= j < names.len() && #[trigger] names[j] == n && is_prefix_of(tail, n),
            None => spec_count_matches(names, tail) == 0,
        },
    decreases names.len(),
{
    if names.len() > 0 {
        lemma_count_matches_char_rec(names.skip(1), tail);
        assert(forall|j: int| 1 <= j < names.len() ==> names[j] == names.skip(1)[j - 1]);
        if spec_count_matches(names, tail) == 0 {
            assert(!is_prefix_of(tail, names[0]));
        }
        match spec_first_match(names.skip(1), tail) {
            Some(n) => {
                if !is_prefix_of(tail, names[0]) {
                    let w = choose|w: int|
                        0 <= w < names.skip(1).len() && #[trigger] names.skip(1)[w] == n
                            && is_prefix_of(tail, n);
                    assert(names[w + 1] == n);
                }
            },
            None => {},
        }
    }
}

/// Parse a revision identifier to attempt to find a unique object: an
/// identifier prefix match in the object directory first, then `@` for
/// `HEAD`, then (for valid names only) the refname search path.
pub open spec fn spec_rev_parse(
    rev: Seq<u8>,
    objdir: Option<Seq<Seq<u8>>>,
    files: Seq<(Seq<u8>, Seq<u8>)>,
) -> Result<Seq<u8>, RevErrorV> {
    let hex_step: Option<Result<Seq<u8>, RevErrorV>> = if spec_is_valid_sha1(rev)
        && objdir is Some {
        let names = objdir->0;
        let tail = rev.skip(2);
        if spec_count_matches(names, tail) >= 2 {
            Some(Err(RevErrorV::Ambiguous(rev)))
        } else if spec_count_matches(names, tail) == 1 {
            let full = rev.take(2) + spec_first_match(names, tail)->0;
            match spec_id_parse(full) {
                Some(id) => Some(Ok(id)),
                None => Some(Err(RevErrorV::Invalid(full))),
            }
        } else {
            None
        }
    } else {
        None
    };
    match hex_step {
        Some(r) => r,
        None => if rev == at_name() {
            match spec_ref_lookup(files, head_name()) {
                Some(c) => match spec_parse_ref_content(c) {
                    Some(RefContentV::Id(id)) => Ok(id),
                    _ => Err(RevErrorV::Dangling(rev)),
                },
                None => Err(RevErrorV::Dangling(rev)),
            }
        } else if !spec_valid_refname(rev, true) {
            Err(RevErrorV::Invalid(rev))
        } else {
            match spec_find_refname(rev, files, true) {
                Some(id) => Ok(id),
                None => Err(RevErrorV::Dangling(rev)),
            }
        },
    }
}

/// Parse a revision identifier to attempt to find a unique id.  `objdir` is
/// the listing of `objects/<rev[0:2]>/`, when that directory exists; the
/// ref store is a snapshot of the `.git` ref files.
#[verifier::rlimit(100)]
#[verifier::spinoff_prover]
pub fn parse(rev: &Vec<u8>, objdir: Option<&Vec<Vec<u8>>>, store: &RefStore) -> (r: Result<
    Id,
    RevError,
>)
    ensures
        match r {
            Ok(id) => id.wf() && spec_rev_parse(
                rev@,
                match objdir {
                    Some(d) => Some(parts_view(d@)),
                    None => None,
                },
                refstore_view(store.files@),
            ) == Ok::<Seq<u8>, RevErrorV>(id@),
            Err(e) => spec_rev_parse(
                rev@,
                match objdir {
                    Some(d) => Some(parts_view(d@)),
                    None => None,
                },
                refstore_view(store.files@),
            ) == Err::<Seq<u8>, RevErrorV>(rev_error_view(e)),
        },
{
    let ghost dirv: Option<Seq<Seq<u8>>> = match objdir {
        Some(d) => Some(parts_view(d@)),
        None => None,
    };
    let ghost fv = refstore_view(store.files@);
    if is_valid_sha1(rev) {
        match objdir {
            Some(names) => {
                let ghost nv = parts_view(names@);
                let tail = subvec(rev, 2, rev.len());
                proof {
                    assert(tail@ =~= rev@.skip(2));
                    assert(nv.skip(0) =~= nv);
                }
                let mut count: usize = 0;
                let mut first: Option<usize> = None;
                let mut i: usize = 0;
                while i < names.len()
                    invariant
                        i <= names@.len(),
                        nv == parts_view(names@),
                        nv.len() == names@.len(),
                        tail@ == rev@.skip(2),
                        count <= i,
                        spec_count_matches(nv, tail@) == count + spec_count_matches(
                            nv.skip(i as int),
                            tail@,
                        ),
                        match first {
                            Some(f) => f < names@.len() && count >= 1 && spec_first_match(
                                nv,
                                tail@,
                            ) == Some(nv[f as int]),
                            None => count == 0 && spec_first_match(nv, tail@)
                                == spec_first_match(nv.skip(i as int), tail@),
                        },
                    decreases names@.len() - i,
                {
                    proof {
                        assert(nv.skip(i as int)[0] == nv[i as int]);
                        assert(nv[i as int] == names@[i as int]@);
                        assert(nv.skip(i as int).skip(1) =~= nv.skip(i as int + 1));
                    }
                    if crate::bytes::has_prefix(&names[i], &tail) {
                        count = count + 1;
                        if first.is_none() {
                            first = Some(i);
                        }
                    }
                    i = i + 1;
                }
                proof {
                    assert(nv.skip(i as int).len() == 0);
                    lemma_count_matches_char(nv, tail@);
                }
                if count >= 2 {
                    return Err(RevError::Ambiguous(crate::bytes::clone_vec(rev)));
                }
                if count == 1 {
                    match first {
                        Some(f) => {
                            let mut full = subvec(rev, 0, 2);
                            crate::bytes::extend_vec(&mut full, &names[f]);
                            proof {
                                assert(full@ =~= rev@.take(2) + nv[f as int]);
                            }
                            match Id::from(full.as_slice()) {
                                Some(id) => {
                                    return Ok(id);
                                },
                                None => {
                                    return Err(RevError::Invalid(full));
                                },
                            }
                        },
                        None => {
                            proof {
                                assert(false);
                            }
                            return Err(RevError::Dangling(crate::bytes::clone_vec(rev)));
                        },
                    }
                }
            },
            None => {},
        }
    }
    let mut at: Vec<u8> = Vec::new();
    at.push(0x40);
    proof {
        assert(at@ =~= at_name());
    }
    if bytes_eq(rev, &at) {
        let hd = head_name_vec();
        match store.read(&hd) {
            Some(content) => {
                match parse_ref_content(&content) {
                    Some(RefContent::Id(id)) => {
                        return Ok(id);
                    },
                    _ => {
                        return Err(RevError::Dangling(crate::bytes::clone_vec(rev)));
                    },
                }
            },
            None => {
                return Err(RevError::Dangling(crate::bytes::clone_vec(rev)));
            },
        }
    }
    if !is_valid_refname(rev, true) {
        return Err(RevError::Invalid(crate::bytes::clone_vec(rev)));
    }
    match find_refname(rev, store, true) {
        Some(id) => Ok(id),
        None => Err(RevError::Dangling(crate::bytes::clone_vec(rev))),
    }
}

/// The target a ref update is redirected to: when updating `HEAD` whose
/// content is a symref, the write goes to the symref's target.
pub open spec fn spec_update_target(target: Seq<u8>, head_content: Option<Seq<u8>>) -> Seq<u8> {
    if target == head_name() {
        match head_content {
            Some(c) => match spec_parse_ref_content(c) {
                Some(RefContentV::Symref(t)) => t,
                _ => target,
            },
            None => target,
        }
    } else {
        target
    }
}

/// The `.git`-relative path of candidate location `k` for a target name.
pub open spec fn spec_candidate_path(k: int, target: Seq<u8>) -> Seq<u8> {
    if k == 5 {
        spec_ref_prefix(4) + target + head_suffix()
    } else {
        spec_ref_prefix(k) + target
    }
}

/// The first existing candidate location, scanning from `k`.
pub open spec fn spec_first_existing(flags: Seq<bool>, k: int) -> Option<int>
    decreases 6 - k,
{
    if k < 0 || k >= 6 {
        None
    } else if flags[k] {
        Some(k)
    } else {
        spec_first_existing(flags, k + 1)
    }
}

/// Where an update of the given reference must be written: the redirected
/// target is validated, then the first of the six candidate locations that
/// exists is overwritten, and a missing ref is created at the target path
/// itself.
pub open spec fn spec_update_ref(
    target: Seq<u8>,
    head_content: Option<Seq<u8>>,
    flags: Seq<bool>,
) -> Result<Seq<u8>, RevErrorV> {
    let t2 = spec_update_target(target, head_content);
    if !spec_valid_refname(t2, true) {
        Err(RevErrorV::Invalid(t2))
    } else {
        match spec_first_existing(flags, 0) {
            Some(k) => Ok(spec_candidate_path(k, t2)),
            None => Ok(t2),
        }
    }
}

/// Plans an update of the given reference: `existing` says, for each of the
/// six candidate locations in order, whether a ref file already exists
/// there.  Returns the `.git`-relative path to write the new value to.
pub fn update_ref(target_ref: &Vec<u8>, head_content: Option<&Vec<u8>>, existing: &Vec<bool>) -> (r:
    Result<Vec<u8>, RevError>)
    requires
        existing@.len() == 6,
    ensures
        ({
            let hv = match head_content {
                Some(c) => Some(c@),
                None => None,
            };
            match r {
                Ok(p) => spec_update_ref(target_ref@, hv, existing@) == Ok::<Seq<u8>, RevErrorV>(
                    p@,
                ),
                Err(e) => spec_update_ref(target_ref@, hv, existing@) == Err::<Seq<u8>, RevErrorV>(
                    rev_error_view(e),
                ),
            }
        }),
{
    let hd = head_name_vec();
    let mut target = subvec(target_ref, 0, target_ref.len());
    proof {
        assert(target@ =~= target_ref@);
    }
    if bytes_eq(target_ref, &hd) {
        match head_content {
            Some(c) => {
                match parse_ref_content(c) {
                    Some(RefContent::Symref(t)) => {
                        target = t;
                    },
                    _ => {},
                }
            },
            None => {},
        }
    }
    let ghost t2 = spec_update_target(
        target_ref@,
        match head_content {
            Some(c) => Some(c@),
            None => None,
        },
    );
    proof {
        assert(target@ == t2);
    }
    if !is_valid_refname(&target, true) {
        return Err(RevError::Invalid(target));
    }
    let mut k: usize = 0;
    while k < 6
        invariant
            k <= 6,
            existing@.len() == 6,
            target@ == t2,
            t2 == spec_update_target(
                target_ref@,
                match head_content {
                    Some(c) => Some(c@),
                    None => None,
                },
            ),
            spec_valid_refname(t2, true),
            spec_first_existing(existing@, 0) == spec_first_existing(existing@, k as int),
        decreases 6 - k,
    {
        if existing[k] {
            if k == 5 {
                let mut path = ref_prefix_vec(4);
                crate::bytes::extend_vec(&mut path, &target);
                let mut suffix: Vec<u8> = Vec::new();
                suffix.push(0x2f);
                suffix.push(0x48);
                suffix.push(0x45);
                suffix.push(0x41);
                suffix.push(0x44);
                crate::bytes::extend_vec(&mut path, &suffix);
                proof {
                    assert(suffix@ =~= head_suffix());
                    assert(path@ =~= spec_candidate_path(5, t2));
                }
                return Ok(path);
            }
            let mut path = ref_prefix_vec(k);
            crate::bytes::extend_vec(&mut path, &target);
            proof {
                assert(path@ =~= spec_candidate_path(k as int, t2));
            }
            return Ok(path);
        }
        k = k + 1;
    }
    Ok(target)
}

/// Resolving a full 40-digit identifier of an object present in the
/// object directory returns exactly that identifier.  The directory listing
/// holds the 38-character file names of the fan-out directory.
pub proof fn lemma_rev_parse_full_hex(
    rev: Seq<u8>,
    names: Seq<Seq<u8>>,
    files: Seq<(Seq<u8>, Seq<u8>)>,
)
    requires
        rev.len() == 40,
        spec_is_valid_sha1(rev),
        forall|j: int| 0 <= j < names.len() ==> (#[trigger] names[j]).len() == 38,
        forall|i: int, j: int| 0 <= i < j < names.len() ==> (#[trigger] names[i]) != (#[trigger] names[j]),
        exists|j: int| 0 <= j < names.len() && #[trigger] names[j] == rev.skip(2),
    ensures
        spec_rev_parse(rev, Some(names), files) == Ok::<Seq<u8>, RevErrorV>(
            spec_id_parse(rev)->0,
        ),
        spec_id_parse(rev) is Some,
{
    let tail = rev.skip(2);
    assert(tail.len() == 38);
    let w = choose|j: int| 0 <= j < names.len() && #[trigger] names[j] == tail;
    assert(is_prefix_of(tail, names[w])) by {
        assert(names[w].subrange(0, 38) =~= names[w]);
    }
    assert forall|j: int| 0 <= j < names.len() && j != w implies !is_prefix_of(
        tail,
        #[trigger] names[j],
    ) by {
        if is_prefix_of(tail, names[j]) {
            assert(names[j].subrange(0, 38) =~= names[j]);
            assert(names[j] == tail);
            if j < w {
                assert(names[j] != names[w]);
            }
            if w < j {
                assert(names[w] != names[j]);
            }
        }
    }
    lemma_match_unique(names, tail, w);
    assert(rev.take(2) + names[w] =~= rev);
    assert(spec_id_parse(rev) is Some) by {
        crate::num::lemma_hex_parse_digits(rev);
    }
}

/// A prefix of four or more hex digits that uniquely matches one entry
/// of the object directory resolves to that entry's identifier.
pub proof fn lemma_rev_parse_unique_prefix(
    rev: Seq<u8>,
    names: Seq<Seq<u8>>,
    files: Seq<(Seq<u8>, Seq<u8>)>,
    w: int,
)
    requires
        spec_is_valid_sha1(rev),
        rev.len() >= 4,
        0 <= w < names.len(),
        is_prefix_of(rev.skip(2), names[w]),
        forall|j: int|
            0 <= j < names.len() && j != w ==> !is_prefix_of(rev.skip(2), #[trigger] names[j]),
    ensures
        spec_rev_parse(rev, Some(names), files) == (match spec_id_parse(rev.take(2) + names[w]) {
            Some(id) => Ok::<Seq<u8>, RevErrorV>(id),
            None => Err::<Seq<u8>, RevErrorV>(RevErrorV::Invalid(rev.take(2) + names[w])),
        }),
{
    lemma_match_unique(names, rev.skip(2), w);
}

/// With exactly one matching entry, the count is one and the first match is
/// that entry.
proof fn lemma_match_unique(names: Seq<Seq<u8>>, tail: Seq<u8>, w: int)
    requires
        0 <= w < names.len(),
        is_prefix_of(tail, names[w]),
        forall|j: int| 0 <= j < names.len() && j != w ==> !is_prefix_of(tail, #[trigger] names[j]),
    ensures
        spec_count_matches(names, tail) == 1,
        spec_first_match(names, tail) == Some(names[w]),
    decreases names.len(),
{
    lemma_count_matches_char(names.skip(1), tail);
    assert(forall|j: int| 1 <= j < names.len() ==> names[j] == names.skip(1)[j - 1]);
    if w == 0 {
        assert(forall|j: int|
            0 <= j < names.skip(1).len() ==> !is_prefix_of(tail, #[trigger] names.skip(1)[j]));
        assert(spec_count_matches(names.skip(1), tail) == 0);
        match spec_first_match(names.skip(1), tail) {
            Some(n) => {
                let v = choose|v: int|
                    0 <= v < names.skip(1).len() && #[trigger] names.skip(1)[v] == n
                        && is_prefix_of(tail, n);
                assert(false);
            },
            None => {},
        }
    } else {
        assert(!is_prefix_of(tail, names[0]));
        lemma_match_unique(names.skip(1), tail, w - 1);
        assert(names.skip(1)[w - 1] == names[w]);
    }
}

/// A name the validator rejects is rejected by both the resolver and
/// the ref updater.  The literal `@` is the one rejected name the resolver
/// accepts, as an alias for `HEAD`.
pub proof fn lemma_invalid_refname_rejected(
    rev: Seq<u8>,
    objdir: Option<Seq<Seq<u8>>>,
    files: Seq<(Seq<u8>, Seq<u8>)>,
    flags: Seq<bool>,
)
    requires
        !spec_valid_refname(rev, true),
        rev != at_name(),
    ensures
        spec_rev_parse(rev, objdir, files) == Err::<Seq<u8>, RevErrorV>(RevErrorV::Invalid(rev)),
        spec_update_ref(rev, None, flags) == Err::<Seq<u8>, RevErrorV>(RevErrorV::Invalid(rev)),
{
    assert(!spec_is_valid_sha1(rev)) by {
        if spec_is_valid_sha1(rev) {
            lemma_sha1_is_valid_refname(rev);
        }
    }
    assert(spec_update_target(rev, None) == rev) by {
        if rev == head_name() {
            lemma_head_is_valid_refname();
        }
    }
}

/// The literal `HEAD` is a valid one-level refname.
proof fn lemma_head_is_valid_refname()
    ensures
        spec_valid_refname(head_name(), true),
{
    let s = head_name();
    crate::objects::lemma_spec_find_char(s, 0x2f);
    assert(s[0] == 0x48 && s[1] == 0x45 && s[2] == 0x41 && s[3] == 0x44);
    match spec_find(s, 0x2f) {
        Some(i) => {
            assert(s[i] == 0x2f);
        },
        None => {},
    }
    assert(spec_path_split(s) =~= seq![s]);
    assert(spec_component_ok(s)) by {
        assert(!spec_has_pair(s, 0x2e, 0x2e)) by {
            if spec_has_pair(s, 0x2e, 0x2e) {
                let w = choose|w: int|
                    0 <= w < s.len() - 1 && #[trigger] s[w] == 0x2e && s[w + 1] == 0x2e;
            }
        }
        assert(!spec_has_pair(s, 0x40, 0x7b)) by {
            if spec_has_pair(s, 0x40, 0x7b) {
                let w = choose|w: int|
                    0 <= w < s.len() - 1 && #[trigger] s[w] == 0x40 && s[w + 1] == 0x7b;
            }
        }
        assert forall|i: int| 0 <= i < s.len() implies spec_ref_byte_ok(#[trigger] s[i]) by {}
    }
    assert(s != at_name()) by {
        assert(s.len() == 4);
    }
}

} // verus!
