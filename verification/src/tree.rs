//! Tree composition and comparison: building a hierarchical tree from flat
//! path/blob pairs, flattening it into stored tree objects, walking stored
//! trees back into flat lists, and diffing sorted lists.

use crate::bytes::{bytes_eq, lex_lt, lex_lt_bytes, subvec};
use crate::hash::sha1_of;
use crate::objects::{
    kw_tree, spec_store_preimage, spec_tree_encode, FileV, GitObject, Id, Object, Tree,
};
use vstd::prelude::*;

verus! {

broadcast use vstd::seq::axiom_seq_index_decreases, vstd::std_specs::vec::axiom_vec_index_decreases;

/// Errors that can arise when working with a tree.
#[derive(Debug, Clone, PartialEq, Eq)]
pub enum TreeError {
    /// An identifier named an object of the wrong kind, or none at all.
    BadId(Id),
    /// A path had an empty component.
    EmptyComponent,
    /// A file path collides with an existing directory, or walks through an
    /// existing file.
    Collision,
    /// The nesting bound was exhausted while walking.
    TooDeep,
}

/// A structure representing a level of a tree, with some parts in memory and
/// some parts in the database: an ordered mapping from component name to
/// entry.
#[derive(Debug, PartialEq, Eq)]
pub struct SubTree {
    /// The named entries, strictly sorted by canonical key.
    pub entries: Vec<(Vec<u8>, TreeEntry)>,
}

/// A recursive structure representing a repository tree under composition.
#[derive(Debug, PartialEq, Eq)]
pub enum TreeEntry {
    /// Reference to a blob stored in the database.
    Blob(Id),
    /// Reference to a tree stored in the database.
    Tree(Id),
    /// A tree in memory that can be stored once it has no further sub-trees
    /// inside it.
    SubTree(SubTree),
}

/// Spec-level mirror of a tree entry.
pub enum TreeEntryV {
    /// Reference to a stored blob.
    Blob(Seq<u8>),
    /// Reference to a stored tree.
    Tree(Seq<u8>),
    /// An in-memory tree level.
    SubTree(Seq<(Seq<u8>, TreeEntryV)>),
}

/// The view of a tree entry.
pub open spec fn entry_view(e: TreeEntry) -> TreeEntryV
    decreases e,
{
    match e {
        TreeEntry::Blob(id) => TreeEntryV::Blob(id@),
        TreeEntry::Tree(id) => TreeEntryV::Tree(id@),
        TreeEntry::SubTree(st) => TreeEntryV::SubTree(entries_view(st.entries@)),
    }
}

/// The view of the named entries of a sub-tree level.
pub open spec fn entries_view(entries: Seq<(Vec<u8>, TreeEntry)>) -> Seq<(Seq<u8>, TreeEntryV)>
    decreases entries,
{
    if entries.len() == 0 {
        Seq::empty()
    } else {
        seq![(entries[0].0@, entry_view(entries[0].1))] + entries_view(entries.skip(1))
    }
}

/// The view of a sub-tree level.
pub open spec fn subtree_view(st: SubTree) -> Seq<(Seq<u8>, TreeEntryV)> {
    entries_view(st.entries@)
}

/// The entry views line up with the entries, index by index.
pub proof fn lemma_entries_view_index(entries: Seq<(Vec<u8>, TreeEntry)>)
    ensures
        entries_view(entries).len() == entries.len(),
        forall|i: int|
            0 <= i < entries.len() ==> #[trigger] entries_view(entries)[i] == (
            entries[i].0@,
            entry_view(entries[i].1),
            ),
    decreases entries,
{
    if entries.len() > 0 {
        lemma_entries_view_index(entries.skip(1));
        assert(forall|i: int|
            1 <= i < entries.len() ==> entries_view(entries)[i] == entries_view(
                entries.skip(1),
            )[i - 1]);
        assert(forall|i: int| 1 <= i < entries.len() ==> entries.skip(1)[i - 1] == entries[i]);
    }
}

/// The mode a composed entry is recorded with.
pub open spec fn spec_entry_mode(e: TreeEntryV) -> u32 {
    match e {
        TreeEntryV::Blob(_) => 0o100644u32,
        _ => 0o040000u32,
    }
}

/// Whether an entry names a directory for ordering purposes.
pub open spec fn entry_is_dir(e: TreeEntryV) -> bool {
    !(e is Blob)
}

/// The canonical sort key of a named entry: the name, with a trailing slash
/// for directories.
pub open spec fn canon_key(name: Seq<u8>, e: TreeEntryV) -> Seq<u8> {
    if entry_is_dir(e) {
        name + seq![0x2fu8]
    } else {
        name
    }
}

/// The identifier a composed entry flattens to: stored entries keep theirs;
/// an in-memory level hashes the tree object built from its children.
pub open spec fn spec_entry_id(e: TreeEntryV) -> Seq<u8>
    decreases e,
{
    match e {
        TreeEntryV::Blob(id) => id,
        TreeEntryV::Tree(id) => id,
        TreeEntryV::SubTree(m) => sha1_of(
            spec_store_preimage(kw_tree(), spec_tree_encode(spec_subtree_files(m))),
        ),
    }
}

/// The tree-object entries an in-memory level flattens to, in stored order.
pub open spec fn spec_subtree_files(m: Seq<(Seq<u8>, TreeEntryV)>) -> Seq<FileV>
    decreases m,
{
    if m.len() == 0 {
        Seq::empty()
    } else {
        seq![
            FileV { mode: spec_entry_mode(m[0].1), name: m[0].0, id: spec_entry_id(m[0].1) },
        ] + spec_subtree_files(m.skip(1))
    }
}

/// The flattened entries line up with the level's entries, index by index.
pub proof fn lemma_subtree_files_index(m: Seq<(Seq<u8>, TreeEntryV)>)
    ensures
        spec_subtree_files(m).len() == m.len(),
        forall|i: int|
            0 <= i < m.len() ==> #[trigger] spec_subtree_files(m)[i] == (FileV {
                mode: spec_entry_mode(m[i].1),
                name: m[i].0,
                id: spec_entry_id(m[i].1),
            }),
    decreases m,
{
    if m.len() > 0 {
        lemma_subtree_files_index(m.skip(1));
        assert(forall|i: int|
            1 <= i < m.len() ==> spec_subtree_files(m)[i] == spec_subtree_files(m.skip(1))[i
                - 1]);
        assert(forall|i: int| 1 <= i < m.len() ==> m.skip(1)[i - 1] == m[i]);
    }
}

/// A type to represent differences between two trees.
#[derive(Debug, PartialEq, Eq)]
pub enum Diff<A, B> {
    /// The entry has different content.
    Different(A, B),
    /// This name is only in the right side.
    ExtraInRight(B),
    /// This name is only in the left side.
    ExtraInLeft(A),
}

/// The view of a named list of identifiers.
pub open spec fn pairs_view(s: Seq<(Vec<u8>, Id)>) -> Seq<(Seq<u8>, Seq<u8>)> {
    s.map_values(|p: (Vec<u8>, Id)| (p.0@, p.1@))
}

/// The view of one named difference.
pub open spec fn diff_view_one(p: (Vec<u8>, Diff<Id, Id>)) -> (Seq<u8>, Diff<Seq<u8>, Seq<u8>>) {
    (
        p.0@,
        match p.1 {
            Diff::Different(a, b) => Diff::Different(a@, b@),
            Diff::ExtraInRight(b) => Diff::ExtraInRight(b@),
            Diff::ExtraInLeft(a) => Diff::ExtraInLeft(a@),
        },
    )
}

/// The view of a named list of differences.
pub open spec fn diffs_view(s: Seq<(Vec<u8>, Diff<Id, Id>)>) -> Seq<
    (Seq<u8>, Diff<Seq<u8>, Seq<u8>>),
> {
    s.map_values(|p: (Vec<u8>, Diff<Id, Id>)| diff_view_one(p))
}

/// The merge-diff of two name-sorted lists: matched names are emitted only
/// when the values differ; unmatched names are extra on their side.
pub open spec fn spec_diff(l: Seq<(Seq<u8>, Seq<u8>)>, r: Seq<(Seq<u8>, Seq<u8>)>) -> Seq<
    (Seq<u8>, Diff<Seq<u8>, Seq<u8>>),
>
    decreases l.len() + r.len(),
{
    if l.len() == 0 && r.len() == 0 {
        Seq::empty()
    } else if l.len() == 0 {
        seq![(r[0].0, Diff::ExtraInRight(r[0].1))] + spec_diff(l, r.skip(1))
    } else if r.len() == 0 {
        seq![(l[0].0, Diff::ExtraInLeft(l[0].1))] + spec_diff(l.skip(1), r)
    } else if l[0].0 == r[0].0 {
        if l[0].1 == r[0].1 {
            spec_diff(l.skip(1), r.skip(1))
        } else {
            seq![(l[0].0, Diff::Different(l[0].1, r[0].1))] + spec_diff(l.skip(1), r.skip(1))
        }
    } else if lex_lt(l[0].0, r[0].0) {
        seq![(l[0].0, Diff::ExtraInLeft(l[0].1))] + spec_diff(l.skip(1), r)
    } else {
        seq![(r[0].0, Diff::ExtraInRight(r[0].1))] + spec_diff(l, r.skip(1))
    }
}

/// Strict name-sortedness of a list.
pub open spec fn pairs_sorted(s: Seq<(Seq<u8>, Seq<u8>)>) -> bool {
    forall|i: int, j: int|
        0 <= i < j < s.len() ==> lex_lt((#[trigger] s[i]).0, (#[trigger] s[j]).0)
}

/// A name occurs in a list.
pub open spec fn pairs_contain(s: Seq<(Seq<u8>, Seq<u8>)>, n: Seq<u8>) -> bool {
    exists|i: int| 0 <= i < s.len() && (#[trigger] s[i]).0 == n
}

/// On sorted inputs the diff output is name-sorted, holds each name at most
/// once, and mentions only names of the inputs.  Being a function of the
/// inputs, it is also stable.
pub proof fn lemma_diff_sorted(l: Seq<(Seq<u8>, Seq<u8>)>, r: Seq<(Seq<u8>, Seq<u8>)>)
    requires
        pairs_sorted(l),
        pairs_sorted(r),
    ensures
        ({
            let d = spec_diff(l, r);
            &&& forall|i: int, j: int|
                0 <= i < j < d.len() ==> lex_lt((#[trigger] d[i]).0, (#[trigger] d[j]).0)
            &&& forall|i: int, j: int|
                0 <= i < j < d.len() ==> (#[trigger] d[i]).0 != (#[trigger] d[j]).0
            &&& forall|k: int|
                0 <= k < d.len() ==> pairs_contain(l, (#[trigger] d[k]).0) || pairs_contain(
                    r,
                    d[k].0,
                )
        }),
    decreases l.len() + r.len(),
{
    let d = spec_diff(l, r);
    if l.len() == 0 && r.len() == 0 {
    } else {
        // Which heads are consumed, which element (if any) is emitted.
        let use_l = l.len() > 0 && (r.len() == 0 || (r.len() > 0 && l.len() > 0 && (l[0].0
            == r[0].0 || lex_lt(l[0].0, r[0].0))));
        let use_r = r.len() > 0 && (l.len() == 0 || (r.len() > 0 && l.len() > 0 && (l[0].0
            == r[0].0 || !lex_lt(l[0].0, r[0].0))));
        let l2 = if use_l {
            l.skip(1)
        } else {
            l
        };
        let r2 = if use_r {
            r.skip(1)
        } else {
            r
        };
        assert(pairs_sorted(l2) && pairs_sorted(r2)) by {
            if l.len() > 0 {
                assert(forall|i: int| 0 <= i < l.skip(1).len() ==> l.skip(1)[i] == l[i + 1]);
            }
            if r.len() > 0 {
                assert(forall|i: int| 0 <= i < r.skip(1).len() ==> r.skip(1)[i] == r[i + 1]);
            }
        }
        lemma_diff_sorted(l2, r2);
        let d2 = spec_diff(l2, r2);
        let hd = if use_l {
            l[0].0
        } else {
            r[0].0
        };
        // Every name of the sub-diff comes from the tails, and so sorts
        // strictly after the head name.
        assert forall|k: int| 0 <= k < d2.len() implies lex_lt(hd, (#[trigger] d2[k]).0) by {
            assert(pairs_contain(l2, d2[k].0) || pairs_contain(r2, d2[k].0));
            if pairs_contain(l2, d2[k].0) {
                let w = choose|w: int| 0 <= w < l2.len() && (#[trigger] l2[w]).0 == d2[k].0;
                if use_l {
                    assert(l2[w] == l[w + 1]);
                    assert(lex_lt(l[0].0, l[w + 1].0));
                    if !use_l {
                    }
                } else {
                    // heads: r emitted, hd == r[0].0 and lex_lt(r[0].0, l[0].0)
                    assert(lex_lt(r[0].0, l[0].0)) by {
                        crate::bytes::lemma_lex_trichotomy(l[0].0, r[0].0);
                    }
                    if w == 0 {
                        assert(lex_lt(hd, l2[0].0));
                    } else {
                        assert(lex_lt(l[0].0, l[w as int].0));
                        crate::bytes::lemma_lex_transitive(hd, l[0].0, l[w as int].0);
                    }
                }
            } else {
                let w = choose|w: int| 0 <= w < r2.len() && (#[trigger] r2[w]).0 == d2[k].0;
                if use_r {
                    assert(r2[w] == r[w + 1]);
                    assert(lex_lt(r[0].0, r[w + 1].0));
                    if use_l && l[0].0 == r[0].0 {
                        assert(lex_lt(hd, r[w + 1].0));
                    } else if use_l {
                        assert(lex_lt(l[0].0, r[0].0));
                        crate::bytes::lemma_lex_transitive(hd, r[0].0, r[w + 1].0);
                    }
                } else {
                    // l head emitted and r untouched: lex_lt(l[0].0, r[0].0)
                    assert(lex_lt(l[0].0, r[0].0));
                    if w == 0 {
                    } else {
                        assert(lex_lt(r[0].0, r[w as int].0));
                        crate::bytes::lemma_lex_transitive(hd, r[0].0, r[w as int].0);
                    }
                }
            }
        }
        // Emitted-or-not, the output decomposes as head element plus d2.
        if l.len() > 0 && r.len() > 0 && l[0].0 == r[0].0 && l[0].1 == r[0].1 {
            assert(d == d2);
            assert forall|k: int|
                0 <= k < d.len() implies pairs_contain(l, (#[trigger] d[k]).0) || pairs_contain(
                r,
                d[k].0,
            ) by {
                lemma_pairs_contain_skip(l, d[k].0);
                lemma_pairs_contain_skip(r, d[k].0);
            }
        } else {
            assert(d.len() == 1 + d2.len());
            assert(d[0].0 == hd);
            assert(forall|k: int| 1 <= k < d.len() ==> d[k] == d2[k - 1]);
            assert forall|i: int, j: int| 0 <= i < j < d.len() implies lex_lt(
                (#[trigger] d[i]).0,
                (#[trigger] d[j]).0,
            ) by {
                if i == 0 {
                    assert(lex_lt(hd, d2[j - 1].0));
                } else {
                    assert(lex_lt(d2[i - 1].0, d2[j - 1].0));
                }
            }
            assert forall|i: int, j: int| 0 <= i < j < d.len() implies (#[trigger] d[i]).0 != (
            #[trigger] d[j]).0 by {
                crate::bytes::lemma_lex_trichotomy(d[i].0, d[j].0);
            }
            assert forall|k: int|
                0 <= k < d.len() implies pairs_contain(l, (#[trigger] d[k]).0) || pairs_contain(
                r,
                d[k].0,
            ) by {
                if k == 0 {
                    if use_l {
                        assert(l[0].0 == hd);
                    } else {
                        assert(r[0].0 == hd);
                    }
                } else {
                    lemma_pairs_contain_skip(l, d[k].0);
                    lemma_pairs_contain_skip(r, d[k].0);
                }
            }
        }
    }
}

/// A name found in a tail is found in the whole list.
proof fn lemma_pairs_contain_skip(s: Seq<(Seq<u8>, Seq<u8>)>, n: Seq<u8>)
    ensures
        s.len() > 0 && pairs_contain(s.skip(1), n) ==> pairs_contain(s, n),
{
    if s.len() > 0 && pairs_contain(s.skip(1), n) {
        let w = choose|w: int| 0 <= w < s.skip(1).len() && (#[trigger] s.skip(1)[w]).0 == n;
        assert(s[w + 1].0 == n);
    }
}

/// Finds the differences between two flat, name-sorted file lists.
#[verifier::rlimit(100)]
#[verifier::spinoff_prover]
pub fn diff_file_lists(left: &Vec<(Vec<u8>, Id)>, right: &Vec<(Vec<u8>, Id)>) -> (r: Vec<
    (Vec<u8>, Diff<Id, Id>),
>)
    ensures
        diffs_view(r@) == spec_diff(pairs_view(left@), pairs_view(right@)),
{
    let ghost lv = pairs_view(left@);
    let ghost rv = pairs_view(right@);
    let mut out: Vec<(Vec<u8>, Diff<Id, Id>)> = Vec::new();
    let mut i: usize = 0;
    let mut j: usize = 0;
    proof {
        assert(lv.skip(0) =~= lv);
        assert(rv.skip(0) =~= rv);
        assert(diffs_view(out@) + spec_diff(lv, rv) =~= spec_diff(lv, rv));
    }
    while i < left.len() || j < right.len()
        invariant
            i <= left@.len(),
            j <= right@.len(),
            lv == pairs_view(left@),
            rv == pairs_view(right@),
            lv.len() == left@.len(),
            rv.len() == right@.len(),
            diffs_view(out@) + spec_diff(lv.skip(i as int), rv.skip(j as int)) == spec_diff(
                lv,
                rv,
            ),
        decreases left@.len() - i + right@.len() - j,
    {
        let ghost lrem = lv.skip(i as int);
        let ghost rrem = rv.skip(j as int);
        proof {
            if i < left@.len() {
                assert(lrem[0] == lv[i as int]);
                assert(lrem.skip(1) =~= lv.skip(i as int + 1));
            }
            if j < right@.len() {
                assert(rrem[0] == rv[j as int]);
                assert(rrem.skip(1) =~= rv.skip(j as int + 1));
            }
        }
        let l_done = i >= left.len();
        let r_done = j >= right.len();
        let names_eq = if !l_done && !r_done {
            bytes_eq(&left[i].0, &right[j].0)
        } else {
            false
        };
        let ids_eq = if names_eq {
            left[i].1.same(&right[j].1)
        } else {
            false
        };
        let l_less = if !l_done && !r_done && !names_eq {
            lex_lt_bytes(&left[i].0, &right[j].0)
        } else {
            false
        };
        if ids_eq {
            i = i + 1;
            j = j + 1;
            proof {
                assert(spec_diff(lrem, rrem) == spec_diff(
                    lv.skip(i as int),
                    rv.skip(j as int),
                ));
            }
            continue ;
        }
        let step: (Vec<u8>, Diff<Id, Id>);
        if l_done {
            let name = subvec(&right[j].0, 0, right[j].0.len());
            step = (name, Diff::ExtraInRight(right[j].1.dup()));
            j = j + 1;
        } else if r_done {
            let name = subvec(&left[i].0, 0, left[i].0.len());
            step = (name, Diff::ExtraInLeft(left[i].1.dup()));
            i = i + 1;
        } else if names_eq {
            let name = subvec(&left[i].0, 0, left[i].0.len());
            step = (name, Diff::Different(left[i].1.dup(), right[j].1.dup()));
            i = i + 1;
            j = j + 1;
        } else if l_less {
            let name = subvec(&left[i].0, 0, left[i].0.len());
            step = (name, Diff::ExtraInLeft(left[i].1.dup()));
            i = i + 1;
        } else {
            let name = subvec(&right[j].0, 0, right[j].0.len());
            step = (name, Diff::ExtraInRight(right[j].1.dup()));
            j = j + 1;
        }
        let ghost stepv = diff_view_one(step);
        proof {
            if l_done {
                assert(lrem.len() == 0);
                assert(stepv == (rrem[0].0, Diff::<Seq<u8>, Seq<u8>>::ExtraInRight(rrem[0].1)));
            } else if r_done {
                assert(rrem.len() == 0);
                assert(stepv == (lrem[0].0, Diff::<Seq<u8>, Seq<u8>>::ExtraInLeft(lrem[0].1)));
            } else if names_eq {
                assert(lrem[0].0 == rrem[0].0 && lrem[0].1 != rrem[0].1);
                assert(stepv == (
                    lrem[0].0,
                    Diff::<Seq<u8>, Seq<u8>>::Different(lrem[0].1, rrem[0].1),
                ));
            } else if l_less {
                assert(lex_lt(lrem[0].0, rrem[0].0) && lrem[0].0 != rrem[0].0) by {
                    crate::bytes::lemma_lex_trichotomy(lrem[0].0, rrem[0].0);
                }
                assert(stepv == (lrem[0].0, Diff::<Seq<u8>, Seq<u8>>::ExtraInLeft(lrem[0].1)));
            } else {
                assert(!lex_lt(lrem[0].0, rrem[0].0) && lrem[0].0 != rrem[0].0);
                assert(stepv == (rrem[0].0, Diff::<Seq<u8>, Seq<u8>>::ExtraInRight(rrem[0].1)));
            }
            assert(spec_diff(lrem, rrem) =~= seq![stepv] + spec_diff(
                lv.skip(i as int),
                rv.skip(j as int),
            ));
        }
        let ghost prev_out = out@;
        out.push(step);
        proof {
            assert(diffs_view(out@) =~= diffs_view(prev_out).push(stepv));
            assert(diffs_view(out@) + spec_diff(lv.skip(i as int), rv.skip(j as int))
                =~= spec_diff(lv, rv));
        }
    }
    proof {
        assert(spec_diff(lv.skip(i as int), rv.skip(j as int)).len() == 0);
        assert(diffs_view(out@) + spec_diff(lv.skip(i as int), rv.skip(j as int)) =~= diffs_view(
            out@,
        ));
    }
    out
}

/// The forward-slash components of a path.
pub open spec fn spec_path_split(name: Seq<u8>) -> Seq<Seq<u8>>
    decreases name.len(),
{
    match crate::objects::spec_find(name, 0x2f) {
        Some(k) => if !(0 <= k < name.len()) {
            seq![name]
        } else {
            seq![name.take(k)] + spec_path_split(name.skip(k + 1))
        },
        None => seq![name],
    }
}

/// The view of a list of path components.
pub open spec fn parts_view(s: Seq<Vec<u8>>) -> Seq<Seq<u8>> {
    s.map_values(|p: Vec<u8>| p@)
}

/// Splits a path into its forward-slash components.
pub fn split_path(name: &Vec<u8>) -> (r: Vec<Vec<u8>>)
    ensures
        parts_view(r@) == spec_path_split(name@),
        r@.len() > 0,
{
    let mut out: Vec<Vec<u8>> = Vec::new();
    let mut pos: usize = 0;
    let total = name.len();
    proof {
        assert(name@.skip(0) =~= name@);
        assert(parts_view(out@) + spec_path_split(name@) =~= spec_path_split(name@));
    }
    loop
        invariant
            pos <= total,
            total == name@.len(),
            parts_view(out@) + spec_path_split(name@.skip(pos as int)) == spec_path_split(name@),
        decreases name@.len() - pos,
    {
        let ghost rem = name@.skip(pos as int);
        let ghost prev = out@;
        match crate::objects::find_byte_from(name, pos, 0x2f) {
            Some(k) => {
                proof {
                    crate::objects::lemma_spec_find_char(rem, 0x2f);
                }
                let part = subvec(name, pos, k);
                proof {
                    assert(part@ =~= rem.take(k - pos));
                    assert(rem.skip(k - pos + 1) =~= name@.skip(k + 1 as int));
                }
                out.push(part);
                proof {
                    assert(parts_view(out@) =~= parts_view(prev).push(rem.take(k - pos)));
                    assert(parts_view(out@) + spec_path_split(name@.skip(k + 1 as int))
                        =~= parts_view(prev) + spec_path_split(rem));
                }
                pos = k + 1;
            },
            None => {
                let part = subvec(name, pos, total);
                proof {
                    assert(part@ =~= rem);
                }
                out.push(part);
                proof {
                    assert(spec_path_split(rem) =~= seq![rem]);
                    assert(parts_view(out@) =~= parts_view(prev).push(rem));
                    assert(parts_view(prev).push(rem) =~= parts_view(prev) + seq![rem]);
                    assert(parts_view(out@) =~= spec_path_split(name@));
                }
                return out;
            },
        }
    }
}

/// First entry with the given name, if any.
pub open spec fn spec_entry_find(m: Seq<(Seq<u8>, TreeEntryV)>, name: Seq<u8>) -> Option<int>
    decreases m.len(),
{
    if m.len() == 0 {
        None
    } else if m[0].0 == name {
        Some(0)
    } else {
        match spec_entry_find(m.skip(1), name) {
            Some(i) => Some(i + 1),
            None => None,
        }
    }
}

/// `spec_entry_find` returns the first entry with the name.
pub proof fn lemma_entry_find_char(m: Seq<(Seq<u8>, TreeEntryV)>, name: Seq<u8>)
    ensures
        match spec_entry_find(m, name) {
            Some(i) => 0 <= i < m.len() && m[i].0 == name && forall|j: int|
                0 <= j < i ==> (#[trigger] m[j]).0 != name,
            None => forall|j: int| 0 <= j < m.len() ==> (#[trigger] m[j]).0 != name,
        },
    decreases m.len(),
{
    if m.len() > 0 && m[0].0 != name {
        lemma_entry_find_char(m.skip(1), name);
        assert(forall|j: int| 1 <= j < m.len() ==> m[j] == m.skip(1)[j - 1]);
    }
}

/// How many leading entries sort strictly before the given canonical key.
pub open spec fn spec_canon_lower_bound(m: Seq<(Seq<u8>, TreeEntryV)>, key: Seq<u8>) -> int
    decreases m.len(),
{
    if m.len() == 0 {
        0
    } else if lex_lt(canon_key(m[0].0, m[0].1), key) {
        1 + spec_canon_lower_bound(m.skip(1), key)
    } else {
        0
    }
}

/// The canonical lower bound splits the entries at the insertion point.
pub proof fn lemma_canon_lower_bound_char(m: Seq<(Seq<u8>, TreeEntryV)>, key: Seq<u8>)
    ensures
        0 <= spec_canon_lower_bound(m, key) <= m.len(),
        forall|j: int|
            0 <= j < spec_canon_lower_bound(m, key) ==> lex_lt(
                canon_key((#[trigger] m[j]).0, m[j].1),
                key,
            ),
        spec_canon_lower_bound(m, key) < m.len() ==> !lex_lt(
            canon_key(m[spec_canon_lower_bound(m, key)].0, m[spec_canon_lower_bound(m, key)].1),
            key,
        ),
    decreases m.len(),
{
    if m.len() > 0 && lex_lt(canon_key(m[0].0, m[0].1), key) {
        lemma_canon_lower_bound_char(m.skip(1), key);
        assert(forall|j: int| 1 <= j < m.len() ==> m[j] == m.skip(1)[j - 1]);
    }
}

/// Inserting a blob along a path: walks or creates in-memory levels for the
/// leading components, then records the blob under the last one.  Walking
/// into anything that is not an in-memory level, or landing a file on one,
/// is a collision; empty components are rejected.
pub open spec fn spec_subtree_insert(
    m: Seq<(Seq<u8>, TreeEntryV)>,
    parts: Seq<Seq<u8>>,
    id: Seq<u8>,
) -> Result<Seq<(Seq<u8>, TreeEntryV)>, TreeError>
    decreases parts.len(),
{
    if parts.len() == 0 {
        Err(TreeError::EmptyComponent)
    } else {
        let name = parts[0];
        if name.len() == 0 {
            Err(TreeError::EmptyComponent)
        } else if parts.len() == 1 {
            match spec_entry_find(m, name) {
                Some(j) => if !(0 <= j < m.len()) {
                    Err(TreeError::Collision)
                } else if m[j].1 is SubTree {
                    Err(TreeError::Collision)
                } else {
                    Ok(m.update(j, (name, TreeEntryV::Blob(id))))
                },
                None => Ok(
                    m.insert(
                        spec_canon_lower_bound(m, name),
                        (name, TreeEntryV::Blob(id)),
                    ),
                ),
            }
        } else {
            match spec_entry_find(m, name) {
                Some(j) => if !(0 <= j < m.len()) {
                    Err(TreeError::Collision)
                } else {
                    match m[j].1 {
                        TreeEntryV::SubTree(sub) => match spec_subtree_insert(
                            sub,
                            parts.skip(1),
                            id,
                        ) {
                            Ok(sub2) => Ok(m.update(j, (name, TreeEntryV::SubTree(sub2)))),
                            Err(e) => Err(e),
                        },
                        _ => Err(TreeError::Collision),
                    }
                },
                None => match spec_subtree_insert(Seq::empty(), parts.skip(1), id) {
                    Ok(sub2) => Ok(
                        m.insert(
                            spec_canon_lower_bound(m, name + seq![0x2fu8]),
                            (name, TreeEntryV::SubTree(sub2)),
                        ),
                    ),
                    Err(e) => Err(e),
                },
            }
        }
    }
}

/// The canonical key of an entry, executable.
pub fn canon_key_vec(name: &Vec<u8>, e: &TreeEntry) -> (r: Vec<u8>)
    ensures
        r@ == canon_key(name@, entry_view(*e)),
{
    let mut r = subvec(name, 0, name.len());
    match e {
        TreeEntry::Blob(_) => {
            proof {
                assert(r@ =~= canon_key(name@, entry_view(*e)));
            }
        },
        _ => {
            r.push(0x2f);
            proof {
                assert(r@ =~= canon_key(name@, entry_view(*e)));
            }
        },
    }
    r
}

/// Inserting a blob along the path components from `at` on.
#[verifier::rlimit(100)]
#[verifier::spinoff_prover]
fn subtree_insert(st: SubTree, parts: &Vec<Vec<u8>>, at: usize, id: &Id) -> (r: Result<
    SubTree,
    TreeError,
>)
    requires
        at < parts@.len(),
    ensures
        match r {
            Ok(st2) => spec_subtree_insert(
                subtree_view(st),
                parts_view(parts@).skip(at as int),
                id@,
            ) == Ok::<Seq<(Seq<u8>, TreeEntryV)>, TreeError>(subtree_view(st2)),
            Err(e) => spec_subtree_insert(
                subtree_view(st),
                parts_view(parts@).skip(at as int),
                id@,
            ) == Err::<Seq<(Seq<u8>, TreeEntryV)>, TreeError>(e),
        },
    decreases parts@.len() - at,
{
    let ghost mv = subtree_view(st);
    let ghost pv = parts_view(parts@).skip(at as int);
    proof {
        lemma_entries_view_index(st.entries@);
        assert(pv[0] == parts@[at as int]@);
    }
    let plen = parts.len();
    let name = &parts[at];
    if name.len() == 0 {
        return Err(TreeError::EmptyComponent);
    }
    let mut st = st;
    // Linear scan for an entry with this component name.
    let mut found: Option<usize> = None;
    let mut i: usize = 0;
    while i < st.entries.len()
        invariant
            at < parts@.len(),
            i <= st.entries@.len(),
            mv == subtree_view(st),
            mv.len() == st.entries@.len(),
            forall|k: int|
                0 <= k < mv.len() ==> #[trigger] mv[k] == (
                st.entries@[k].0@,
                entry_view(st.entries@[k].1),
                ),
            found matches Some(f) ==> f < mv.len() && spec_entry_find(mv, parts@[at as int]@)
                == Some(f as int),
            found is None ==> forall|k: int|
                0 <= k < i ==> (#[trigger] mv[k]).0 != parts@[at as int]@,
        decreases st.entries@.len() - i,
    {
        if found.is_none() && bytes_eq(&st.entries[i].0, &parts[at]) {
            found = Some(i);
            proof {
                lemma_entry_find_char(mv, parts@[at as int]@);
                assert(mv[i as int].0 == parts@[at as int]@);
                match spec_entry_find(mv, parts@[at as int]@) {
                    Some(k) => {
                        if k < i {
                            assert(mv[k].0 == parts@[at as int]@);
                            assert(false);
                        }
                        if i < k {
                            assert(mv[i as int].0 != parts@[at as int]@);
                            assert(false);
                        }
                    },
                    None => {
                        assert(mv[i as int].0 != parts@[at as int]@);
                        assert(false);
                    },
                }
            }
        }
        i = i + 1;
    }
    proof {
        if found is None {
            lemma_entry_find_char(mv, parts@[at as int]@);
            match spec_entry_find(mv, parts@[at as int]@) {
                Some(k) => {
                    assert(mv[k].0 == parts@[at as int]@);
                    assert(false);
                },
                None => {},
            }
        }
    }
    if at + 1 == plen {
        // Final component: record the blob here.
        proof {
            assert(pv.len() == 1);
        }
        match found {
            Some(f) => {
                let is_sub = match &st.entries[f].1 {
                    TreeEntry::SubTree(_) => true,
                    _ => false,
                };
                if is_sub {
                    return Err(TreeError::Collision);
                }
                let nm = subvec(&parts[at], 0, name.len());
                proof {
                    assert(nm@ =~= parts@[at as int]@);
                }
                let ghost pre_entries = st.entries@;
                st.entries.set(f, (nm, TreeEntry::Blob(id.dup())));
                proof {
                    lemma_entries_view_index(st.entries@);
                    assert(subtree_view(st) =~= mv.update(
                        f as int,
                        (parts@[at as int]@, TreeEntryV::Blob(id@)),
                    ));
                }
                Ok(st)
            },
            None => {
                let key = subvec(&parts[at], 0, name.len());
                let mut p: usize = 0;
                while p < st.entries.len() && lex_lt_bytes(
                    &canon_key_vec(&st.entries[p].0, &st.entries[p].1),
                    &key,
                )
                    invariant
                        p <= st.entries@.len(),
                        key@ == parts@[at as int]@,
                        mv == subtree_view(st),
                        mv.len() == st.entries@.len(),
                        forall|k: int|
                            0 <= k < mv.len() ==> #[trigger] mv[k] == (
                            st.entries@[k].0@,
                            entry_view(st.entries@[k].1),
                            ),
                        forall|k: int|
                            0 <= k < p ==> lex_lt(
                                canon_key((#[trigger] mv[k]).0, mv[k].1),
                                parts@[at as int]@,
                            ),
                    decreases st.entries@.len() - p,
                {
                    p = p + 1;
                }
                proof {
                    lemma_canon_lower_bound_char(mv, parts@[at as int]@);
                    let lb = spec_canon_lower_bound(mv, parts@[at as int]@);
                    assert(p == lb) by {
                        if p < lb {
                            assert(lex_lt(canon_key(mv[p as int].0, mv[p as int].1), key@));
                        }
                        if lb < p {
                            assert(lex_lt(canon_key(mv[lb].0, mv[lb].1), key@));
                        }
                    }
                }
                let nm = subvec(&parts[at], 0, name.len());
                proof {
                    assert(nm@ =~= parts@[at as int]@);
                }
                st.entries.insert(p, (nm, TreeEntry::Blob(id.dup())));
                proof {
                    lemma_entries_view_index(st.entries@);
                    assert(subtree_view(st) =~= mv.insert(
                        spec_canon_lower_bound(mv, parts@[at as int]@),
                        (parts@[at as int]@, TreeEntryV::Blob(id@)),
                    ));
                }
                Ok(st)
            },
        }
    } else {
        proof {
            assert(pv.len() >= 2);
            assert(pv.skip(1) =~= parts_view(parts@).skip(at + 1));
        }
        match found {
            Some(f) => {
                let ghost pre_entries = st.entries@;
                let (nm, entry) = st.entries.remove(f);
                proof {
                    assert(nm@ == mv[f as int].0);
                    lemma_entry_find_char(mv, parts@[at as int]@);
                    assert(nm@ == parts@[at as int]@);
                }
                match entry {
                    TreeEntry::SubTree(sub) => {
                        let ghost subv = subtree_view(sub);
                        proof {
                            assert(mv[f as int].1 == TreeEntryV::SubTree(subv));
                        }
                        match subtree_insert(sub, parts, at + 1, id) {
                            Ok(sub2) => {
                                st.entries.insert(f, (nm, TreeEntry::SubTree(sub2)));
                                proof {
                                    assert(st.entries@ =~= pre_entries.update(
                                        f as int,
                                        (nm, TreeEntry::SubTree(sub2)),
                                    ));
                                    lemma_entries_view_index(st.entries@);
                                    match spec_subtree_insert(subv, pv.skip(1), id@) {
                                        Ok(sub2v) => {
                                            assert(subtree_view(st) =~= mv.update(
                                                f as int,
                                                (
                                                    parts@[at as int]@,
                                                    TreeEntryV::SubTree(sub2v),
                                                ),
                                            ));
                                        },
                                        Err(_) => {},
                                    }
                                }
                                Ok(st)
                            },
                            Err(e) => Err(e),
                        }
                    },
                    _ => Err(TreeError::Collision),
                }
            },
            None => {
                let empty = SubTree { entries: Vec::new() };
                proof {
                    assert(subtree_view(empty) =~= Seq::<(Seq<u8>, TreeEntryV)>::empty());
                }
                match subtree_insert(empty, parts, at + 1, id) {
                    Ok(sub2) => {
                        let mut key = subvec(&parts[at], 0, name.len());
                        key.push(0x2f);
                        proof {
                            assert(key@ =~= parts@[at as int]@ + seq![0x2fu8]);
                        }
                        let mut p: usize = 0;
                        while p < st.entries.len() && lex_lt_bytes(
                            &canon_key_vec(&st.entries[p].0, &st.entries[p].1),
                            &key,
                        )
                            invariant
                                p <= st.entries@.len(),
                                key@ == parts@[at as int]@ + seq![0x2fu8],
                                mv == subtree_view(st),
                                mv.len() == st.entries@.len(),
                                forall|k: int|
                                    0 <= k < mv.len() ==> #[trigger] mv[k] == (
                                    st.entries@[k].0@,
                                    entry_view(st.entries@[k].1),
                                    ),
                                forall|k: int|
                                    0 <= k < p ==> lex_lt(
                                        canon_key((#[trigger] mv[k]).0, mv[k].1),
                                        parts@[at as int]@ + seq![0x2fu8],
                                    ),
                            decreases st.entries@.len() - p,
                        {
                            p = p + 1;
                        }
                        proof {
                            let dkey = parts@[at as int]@ + seq![0x2fu8];
                            lemma_canon_lower_bound_char(mv, dkey);
                            let lb = spec_canon_lower_bound(mv, dkey);
                            assert(p == lb) by {
                                if p < lb {
                                    assert(lex_lt(canon_key(mv[p as int].0, mv[p as int].1), dkey));
                                }
                                if lb < p {
                                    assert(lex_lt(canon_key(mv[lb].0, mv[lb].1), dkey));
                                }
                            }
                        }
                        let nm = subvec(&parts[at], 0, name.len());
                        proof {
                            assert(nm@ =~= parts@[at as int]@);
                        }
                        st.entries.insert(p, (nm, TreeEntry::SubTree(sub2)));
                        proof {
                            lemma_entries_view_index(st.entries@);
                            match spec_subtree_insert(
                                Seq::<(Seq<u8>, TreeEntryV)>::empty(),
                                pv.skip(1),
                                id@,
                            ) {
                                Ok(sub2v) => {
                                    assert(subtree_view(st) =~= mv.insert(
                                        spec_canon_lower_bound(
                                            mv,
                                            parts@[at as int]@ + seq![0x2fu8],
                                        ),
                                        (parts@[at as int]@, TreeEntryV::SubTree(sub2v)),
                                    ));
                                },
                                Err(_) => {},
                            }
                        }
                        Ok(st)
                    },
                    Err(e) => Err(e),
                }
            },
        }
    }
}

/// The result of folding every index entry into an empty tree.
pub open spec fn spec_index_to_tree_from(
    m: Seq<(Seq<u8>, TreeEntryV)>,
    entries: Seq<crate::index::IndexEntryV>,
) -> Result<Seq<(Seq<u8>, TreeEntryV)>, TreeError>
    decreases entries.len(),
{
    if entries.len() == 0 {
        Ok(m)
    } else {
        match spec_subtree_insert(m, spec_path_split(entries[0].name), entries[0].meta.id) {
            Ok(m2) => spec_index_to_tree_from(m2, entries.skip(1)),
            Err(e) => Err(e),
        }
    }
}

/// What the composer builds from a whole index.
pub open spec fn spec_index_to_tree(entries: Seq<crate::index::IndexEntryV>) -> Result<
    Seq<(Seq<u8>, TreeEntryV)>,
    TreeError,
> {
    spec_index_to_tree_from(Seq::empty(), entries)
}

/// Makes an in-memory tree out of the paths in the index.
pub fn index_to_tree(index: &crate::index::Index) -> (r: Result<SubTree, TreeError>)
    ensures
        match r {
            Ok(st) => spec_index_to_tree(crate::index::index_view(index@)) == Ok::<
                Seq<(Seq<u8>, TreeEntryV)>,
                TreeError,
            >(subtree_view(st)),
            Err(e) => spec_index_to_tree(crate::index::index_view(index@)) == Err::<
                Seq<(Seq<u8>, TreeEntryV)>,
                TreeError,
            >(e),
        },
{
    let ghost ev = crate::index::index_view(index@);
    let mut root = SubTree { entries: Vec::new() };
    proof {
        assert(subtree_view(root) =~= Seq::<(Seq<u8>, TreeEntryV)>::empty());
        assert(ev.skip(0) =~= ev);
    }
    let mut i: usize = 0;
    while i < index.len()
        invariant
            i <= index@.len(),
            ev == crate::index::index_view(index@),
            ev.len() == index@.len(),
            spec_index_to_tree(ev) == spec_index_to_tree_from(
                subtree_view(root),
                ev.skip(i as int),
            ),
        decreases index@.len() - i,
    {
        let ghost rootv = subtree_view(root);
        let parts = split_path(&index[i].name);
        proof {
            assert(ev.skip(i as int)[0] == ev[i as int]);
            assert(ev.skip(i as int).skip(1) =~= ev.skip(i as int + 1));
            assert(parts_view(parts@).skip(0) =~= parts_view(parts@));
            assert(parts_view(parts@) == spec_path_split(ev[i as int].name));
        }
        match subtree_insert(root, &parts, 0, &index[i].meta.id) {
            Ok(r2) => {
                root = r2;
            },
            Err(e) => {
                return Err(e);
            },
        }
        i = i + 1;
    }
    proof {
        assert(ev.skip(i as int).len() == 0);
    }
    Ok(root)
}

impl TreeEntry {
    /// Get a reference to this entry's level if it is an in-memory one.
    pub fn subtree(&self) -> (r: Option<&SubTree>)
        ensures
            match r {
                Some(st) => entry_view(*self) == TreeEntryV::SubTree(subtree_view(*st)),
                None => !(entry_view(*self) is SubTree),
            },
    {
        match self {
            TreeEntry::SubTree(st) => Some(st),
            _ => None,
        }
    }

    /// Get a mutable reference to this entry's level if it is an in-memory
    /// one.
    pub fn subtree_mut(&mut self) -> (r: Option<&mut SubTree>)
        ensures
            match r {
                Some(st) => entry_view(*old(self)) == TreeEntryV::SubTree(subtree_view(*st))
                    && entry_view(*final(self)) == TreeEntryV::SubTree(subtree_view(*final(st))),
                None => !(entry_view(*old(self)) is SubTree) && *final(self) == *old(self),
            },
    {
        match self {
            TreeEntry::SubTree(st) => Some(st),
            _ => None,
        }
    }

    /// The identifier and mode this entry is recorded with in its parent.
    /// Only for entries that are already stored.
    pub fn perms(&self) -> (r: (Id, u32))
        requires
            !(entry_view(*self) is SubTree),
        ensures
            r.0@ == spec_entry_id(entry_view(*self)),
            r.1 == spec_entry_mode(entry_view(*self)),
    {
        match self {
            TreeEntry::Blob(id) => (id.dup(), 0o100644),
            TreeEntry::Tree(id) => (id.dup(), 0o040000),
            TreeEntry::SubTree(_) => {
                proof {
                    assert(false);
                }
                (Id { bytes: Vec::new() }, 0)
            },
        }
    }
}

/// A stored object pair is content-addressed: its identifier is the SHA-1
/// of what its compressed bytes decompress to.
pub open spec fn stored_ok(o: (Id, Vec<u8>)) -> bool {
    exists|pre: Seq<u8>|
        o.0@ == sha1_of(pre) && crate::hash::zlib_inflate_of(o.1@) == Some(pre)
}

/// Every child of the level is already stored.
pub open spec fn subtree_flat(m: Seq<(Seq<u8>, TreeEntryV)>) -> bool {
    forall|i: int| 0 <= i < m.len() ==> !((#[trigger] m[i]).1 is SubTree)
}

/// Saves a flattened level to the object store: emits one tree object whose
/// entries are the level's children in order.
#[verifier::rlimit(100)]
#[verifier::spinoff_prover]
pub fn save_subtree_to_disk(st: &SubTree, out: &mut Vec<(Id, Vec<u8>)>) -> (r: Id)
    requires
        subtree_flat(subtree_view(*st)),
    ensures
        r.wf(),
        r@ == spec_entry_id(TreeEntryV::SubTree(subtree_view(*st))),
        final(out)@.len() == old(out)@.len() + 1,
        forall|i: int| 0 <= i < old(out)@.len() ==> final(out)@[i] == old(out)@[i],
        ({
            let pre = spec_store_preimage(
                kw_tree(),
                spec_tree_encode(spec_subtree_files(subtree_view(*st))),
            );
            &&& final(out)@[old(out)@.len() as int].0@ == sha1_of(pre)
            &&& crate::hash::zlib_inflate_of(final(out)@[old(out)@.len() as int].1@) == Some(pre)
            &&& stored_ok(final(out)@[old(out)@.len() as int])
        }),
{
    let ghost mv = subtree_view(*st);
    proof {
        lemma_entries_view_index(st.entries@);
        lemma_subtree_files_index(mv);
    }
    let mut files: Vec<crate::objects::File> = Vec::new();
    let mut i: usize = 0;
    while i < st.entries.len()
        invariant
            i <= st.entries@.len(),
            mv == subtree_view(*st),
            mv.len() == st.entries@.len(),
            subtree_flat(mv),
            forall|k: int|
                0 <= k < mv.len() ==> #[trigger] mv[k] == (
                st.entries@[k].0@,
                entry_view(st.entries@[k].1),
                ),
            spec_subtree_files(mv).len() == mv.len(),
            forall|k: int|
                0 <= k < mv.len() ==> #[trigger] spec_subtree_files(mv)[k] == (FileV {
                    mode: spec_entry_mode(mv[k].1),
                    name: mv[k].0,
                    id: spec_entry_id(mv[k].1),
                }),
            files@.len() == i,
            forall|k: int| 0 <= k < i ==> (#[trigger] files@[k])@ == spec_subtree_files(mv)[k],
        decreases st.entries@.len() - i,
    {
        proof {
            assert(!(mv[i as int].1 is SubTree));
            assert(!(entry_view(st.entries@[i as int].1) is SubTree));
        }
        let (id, mode) = st.entries[i].1.perms();
        let name = subvec(&st.entries[i].0, 0, st.entries[i].0.len());
        proof {
            assert(name@ =~= st.entries@[i as int].0@);
        }
        files.push(crate::objects::File { mode, name, id });
        i = i + 1;
    }
    let tree = Tree { files };
    proof {
        assert(tree@ =~= spec_subtree_files(mv));
    }
    let (id, squished) = Object::prepare_store(&tree);
    let r = id.dup();
    out.push((id, squished));
    r
}

/// Saves a level to the object store, saving its in-memory children first,
/// bottom up; the returned identifier names the stored tree for this level.
/// Every emitted object is content-addressed: its identifier is the SHA-1 of
/// the bytes its stored form decompresses to.
#[verifier::rlimit(100)]
#[verifier::spinoff_prover]
pub fn save_subtree(e: &TreeEntry, out: &mut Vec<(Id, Vec<u8>)>) -> (r: Id)
    requires
        entry_view(*e) is SubTree,
    ensures
        r.wf(),
        r@ == spec_entry_id(entry_view(*e)),
        final(out)@.len() >= old(out)@.len(),
        forall|i: int| 0 <= i < old(out)@.len() ==> final(out)@[i] == old(out)@[i],
        forall|i: int| old(out)@.len() <= i < final(out)@.len() ==> stored_ok(#[trigger] final(out)@[i]),
    decreases *e,
{
    match e {
        TreeEntry::SubTree(st) => {
            let ghost mv = subtree_view(*st);
            proof {
                lemma_entries_view_index(st.entries@);
            }
            let mut flat: Vec<(Vec<u8>, TreeEntry)> = Vec::new();
            let mut i: usize = 0;
            let ghost out_base = out@;
            while i < st.entries.len()
                invariant
                    *e == TreeEntry::SubTree(*st),
                    i <= st.entries@.len(),
                    mv == subtree_view(*st),
                    mv.len() == st.entries@.len(),
                    forall|k: int|
                        0 <= k < mv.len() ==> #[trigger] mv[k] == (
                        st.entries@[k].0@,
                        entry_view(st.entries@[k].1),
                        ),
                    flat@.len() == i,
                    forall|k: int|
                        0 <= k < i ==> (#[trigger] entries_view(flat@)[k]).0 == mv[k].0,
                    entries_view(flat@).len() == i,
                    forall|k: int|
                        0 <= k < i ==> !((#[trigger] entries_view(flat@)[k]).1 is SubTree),
                    forall|k: int|
                        0 <= k < i ==> spec_entry_id(#[trigger] entries_view(flat@)[k].1)
                            == spec_entry_id(mv[k].1) && spec_entry_mode(entries_view(flat@)[k].1)
                            == spec_entry_mode(mv[k].1),
                    out@.len() >= out_base.len(),
                    forall|j: int| 0 <= j < out_base.len() ==> out@[j] == out_base[j],
                    forall|j: int|
                        out_base.len() <= j < out@.len() ==> stored_ok(#[trigger] out@[j]),
                decreases st.entries@.len() - i,
            {
                let ghost flat0 = flat@;
                let name = subvec(&st.entries[i].0, 0, st.entries[i].0.len());
                proof {
                    assert(name@ =~= st.entries@[i as int].0@);
                }
                let ghost out_mid = out@;
                match &st.entries[i].1 {
                    TreeEntry::SubTree(_) => {
                        proof {
                            assert((*e)->SubTree_0 == *st);
                            assert(decreases_to!(*e => (*e)->SubTree_0));
                            assert(decreases_to!(*st => st.entries));
                            assert(decreases_to!(st.entries => st.entries@));
                            assert(decreases_to!(st.entries@ => st.entries@[i as int]));
                            assert(decreases_to!(st.entries@[i as int] => st.entries@[i as int].1));
                            assert(decreases_to!(*e => st.entries@[i as int].1));
                        }
                        let cid = save_subtree(&st.entries[i].1, out);
                        flat.push((name, TreeEntry::Tree(cid)));
                    },
                    TreeEntry::Blob(bid) => {
                        flat.push((name, TreeEntry::Blob(bid.dup())));
                    },
                    TreeEntry::Tree(tid) => {
                        flat.push((name, TreeEntry::Tree(tid.dup())));
                    },
                }
                proof {
                    lemma_entries_view_index(flat@);
                    lemma_entries_view_index(flat0);
                    assert(forall|k: int|
                        0 <= k < i ==> flat@[k] == flat0[k] && #[trigger] entries_view(flat@)[k]
                            == entries_view(flat0)[k]);
                    assert forall|j: int|
                        out_base.len() <= j < out@.len() implies stored_ok(#[trigger] out@[j]) by {
                        if j < out_mid.len() {
                            assert(out@[j] == out_mid[j]);
                            assert(stored_ok(out_mid[j]));
                        } else {
                            assert(stored_ok(out@[j]));
                        }
                    }
                }
                i = i + 1;
            }
            let flat_st = SubTree { entries: flat };
            proof {
                lemma_subtree_files_index(subtree_view(flat_st));
                lemma_subtree_files_index(mv);
                assert(spec_subtree_files(subtree_view(flat_st)) =~= spec_subtree_files(mv));
            }
            let r = save_subtree_to_disk(&flat_st, out);
            proof {
                assert(r@ == spec_entry_id(entry_view(*e)));
            }
            r
        },
        _ => {
            proof {
                assert(false);
            }
            Id { bytes: Vec::new() }
        },
    }
}

/// Spec-level mirror of a tree error.
pub enum TreeErrorV {
    /// An identifier named an object of the wrong kind, or none at all.
    BadId(Seq<u8>),
    /// A path had an empty component.
    EmptyComponent,
    /// A collision between a file and a directory.
    Collision,
    /// The nesting bound was exhausted.
    TooDeep,
}

/// The view of a tree error.
pub open spec fn tree_error_view(e: TreeError) -> TreeErrorV {
    match e {
        TreeError::BadId(id) => TreeErrorV::BadId(id@),
        TreeError::EmptyComponent => TreeErrorV::EmptyComponent,
        TreeError::Collision => TreeErrorV::Collision,
        TreeError::TooDeep => TreeErrorV::TooDeep,
    }
}

/// The first tree stored under the given identifier, if any.
pub open spec fn spec_store_lookup(store: Seq<(Id, Tree)>, id: Seq<u8>) -> Option<Seq<FileV>>
    decreases store.len(),
{
    if store.len() == 0 {
        None
    } else if store[0].0@ == id {
        Some(store[0].1@)
    } else {
        spec_store_lookup(store.skip(1), id)
    }
}

/// The lookup returns the first entry with the identifier.
pub proof fn lemma_store_lookup_char(store: Seq<(Id, Tree)>, id: Seq<u8>)
    ensures
        match spec_store_lookup(store, id) {
            Some(t) => exists|j: int|
                0 <= j < store.len() && (#[trigger] store[j]).0@ == id && store[j].1@ == t,
            None => forall|j: int| 0 <= j < store.len() ==> (#[trigger] store[j]).0@ != id,
        },
    decreases store.len(),
{
    if store.len() > 0 && store[0].0@ != id {
        lemma_store_lookup_char(store.skip(1), id);
        assert(forall|j: int| 1 <= j < store.len() ==> store[j] == store.skip(1)[j - 1]);
        match spec_store_lookup(store, id) {
            Some(t) => {
                let w = choose|w: int|
                    0 <= w < store.skip(1).len() && (#[trigger] store.skip(1)[w]).0@ == id
                        && store.skip(1)[w].1@ == t;
                assert(store[w + 1].0@ == id && store[w + 1].1@ == t);
            },
            None => {},
        }
    }
}

/// Finds a stored tree by identifier.
fn store_find(store: &Vec<(Id, Tree)>, id: &Id) -> (r: Option<usize>)
    ensures
        match r {
            Some(j) => j < store@.len() && store@[j as int].0@ == id@ && spec_store_lookup(
                store@,
                id@,
            ) == Some(store@[j as int].1@),
            None => spec_store_lookup(store@, id@) is None,
        },
{
    let mut j: usize = 0;
    proof {
        assert(store@.skip(0) =~= store@);
    }
    while j < store.len()
        invariant
            j <= store@.len(),
            spec_store_lookup(store@, id@) == spec_store_lookup(store@.skip(j as int), id@),
        decreases store@.len() - j,
    {
        proof {
            assert(store@.skip(j as int)[0] == store@[j as int]);
            assert(store@.skip(j as int).skip(1) =~= store@.skip(j as int + 1));
        }
        if store[j].0.same(id) {
            return Some(j);
        }
        j = j + 1;
    }
    proof {
        assert(store@.skip(j as int).len() == 0);
    }
    None
}

/// A path under a base: joined with a forward slash unless the base is
/// empty.
pub open spec fn spec_join_path(base: Seq<u8>, name: Seq<u8>) -> Seq<u8> {
    if base.len() == 0 {
        name
    } else {
        base + seq![0x2fu8] + name
    }
}

/// Joins a name onto a base path.
pub fn join_path(base: &Vec<u8>, name: &Vec<u8>) -> (r: Vec<u8>)
    ensures
        r@ == spec_join_path(base@, name@),
{
    if base.len() == 0 {
        let r = subvec(name, 0, name.len());
        proof {
            assert(r@ =~= name@);
        }
        r
    } else {
        let mut r = subvec(base, 0, base.len());
        r.push(0x2f);
        let mut k: usize = 0;
        while k < name.len()
            invariant
                k <= name@.len(),
                r@ == base@ + seq![0x2fu8] + name@.subrange(0, k as int),
            decreases name@.len() - k,
        {
            r.push(name[k]);
            proof {
                assert(base@ + seq![0x2fu8] + name@.subrange(0, k + 1 as int) =~= (base@
                    + seq![0x2fu8] + name@.subrange(0, k as int)).push(name@[k as int]));
            }
            k = k + 1;
        }
        proof {
            assert(name@.subrange(0, name@.len() as int) =~= name@);
            assert(r@ =~= base@.subrange(0, base@.len() as int) + seq![0x2fu8] + name@.subrange(
                0,
                0,
            ).add(name@));
            assert(r@ =~= spec_join_path(base@, name@));
        }
        r
    }
}

/// Walking a stored tree depth first: directory entries recurse into the
/// stored tree they name; file entries append `(path, id)`.  Output keeps
/// the stored order, children in a block after their directory.
pub open spec fn spec_walk(
    files: Seq<FileV>,
    store: Seq<(Id, Tree)>,
    base: Seq<u8>,
    fuel: nat,
) -> Result<Seq<(Seq<u8>, Seq<u8>)>, TreeErrorV>
    decreases fuel, files.len(),
{
    if files.len() == 0 {
        Ok(Seq::empty())
    } else {
        let f = files[0];
        let path = spec_join_path(base, f.name);
        if (f.mode >> 9) & 0x1ff == 0o040 {
            if fuel == 0 {
                Err(TreeErrorV::TooDeep)
            } else {
                match spec_store_lookup(store, f.id) {
                    None => Err(TreeErrorV::BadId(f.id)),
                    Some(children) => match spec_walk(children, store, path, (fuel - 1) as nat) {
                        Err(e) => Err(e),
                        Ok(sub) => match spec_walk(files.skip(1), store, base, fuel) {
                            Ok(rest) => Ok(sub + rest),
                            Err(e) => Err(e),
                        },
                    },
                }
            }
        } else {
            match spec_walk(files.skip(1), store, base, fuel) {
                Ok(rest) => Ok(seq![(path, f.id)] + rest),
                Err(e) => Err(e),
            }
        }
    }
}

/// Loads a stored tree into a flat, path-keyed file list, recursing into its
/// sub-trees through the given store of loaded trees.
#[verifier::rlimit(100)]
#[verifier::spinoff_prover]
pub fn load_tree_from_disk(
    tree: &Tree,
    store: &Vec<(Id, Tree)>,
    base_path: &Vec<u8>,
    filelist: &mut Vec<(Vec<u8>, Id)>,
    fuel: u64,
) -> (r: Result<(), TreeError>)
    ensures
        final(filelist)@.len() >= old(filelist)@.len(),
        forall|k: int| 0 <= k < old(filelist)@.len() ==> final(filelist)@[k] == old(filelist)@[k],
        match r {
            Ok(_) => spec_walk(tree@, store@, base_path@, fuel as nat) == Ok::<
                Seq<(Seq<u8>, Seq<u8>)>,
                TreeErrorV,
            >(pairs_view(final(filelist)@).skip(old(filelist)@.len() as int)),
            Err(e) => spec_walk(tree@, store@, base_path@, fuel as nat) == Err::<
                Seq<(Seq<u8>, Seq<u8>)>,
                TreeErrorV,
            >(tree_error_view(e)),
        },
    decreases fuel,
{
    let ghost fv = tree@;
    let ghost sv = store@;
    let ghost basev = base_path@;
    let ghost fueln = fuel as nat;
    let ghost base_len = filelist@.len();
    let mut i: usize = 0;
    proof {
        assert(fv.skip(0) =~= fv);
        assert(pairs_view(filelist@).skip(base_len as int) =~= Seq::<(Seq<u8>, Seq<u8>)>::empty());
    }
    while i < tree.files.len()
        invariant
            i <= tree.files@.len(),
            fv == tree@,
            sv == store@,
            basev == base_path@,
            fueln == fuel as nat,
            fv.len() == tree.files@.len(),
            filelist@.len() >= base_len,
            base_len == old(filelist)@.len(),
            forall|k: int| 0 <= k < base_len ==> filelist@[k] == old(filelist)@[k],
            spec_walk(fv, sv, basev, fueln) == match spec_walk(
                fv.skip(i as int),
                sv,
                basev,
                fueln,
            ) {
                Ok(rest) => Ok::<Seq<(Seq<u8>, Seq<u8>)>, TreeErrorV>(
                    pairs_view(filelist@).skip(base_len as int) + rest,
                ),
                Err(e) => Err::<Seq<(Seq<u8>, Seq<u8>)>, TreeErrorV>(e),
            },
        decreases tree.files@.len() - i,
    {
        let ghost frem = fv.skip(i as int);
        let ghost done = pairs_view(filelist@).skip(base_len as int);
        proof {
            assert(frem[0] == fv[i as int]);
            assert(fv[i as int] == tree.files@[i as int]@);
            assert(frem.skip(1) =~= fv.skip(i as int + 1));
        }
        let path = join_path(base_path, &tree.files[i].name);
        if tree.files[i].is_dir() {
            if fuel == 0 {
                return Err(TreeError::TooDeep);
            }
            match store_find(store, &tree.files[i].id) {
                None => {
                    let e = TreeError::BadId(tree.files[i].id.dup());
                    proof {
                        assert(tree_error_view(e) == TreeErrorV::BadId(fv[i as int].id));
                    }
                    return Err(e);
                },
                Some(j) => {
                    let ghost mid = filelist@;
                    match load_tree_from_disk(&store[j].1, store, &path, filelist, fuel - 1) {
                        Ok(_) => {
                            proof {
                                let sub = pairs_view(filelist@).skip(mid.len() as int);
                                assert(forall|k: int|
                                    0 <= k < mid.len() ==> filelist@[k] == mid[k]);
                                assert(pairs_view(filelist@).skip(base_len as int) =~= done
                                    + sub) by {
                                    assert(forall|k: int|
                                        0 <= k < filelist@.len() ==> pairs_view(filelist@)[k]
                                            == (filelist@[k].0@, filelist@[k].1@));
                                    assert(forall|k: int|
                                        0 <= k < mid.len() ==> pairs_view(mid)[k] == (
                                        mid[k].0@,
                                        mid[k].1@,
                                        ));
                                }
                                match spec_walk(fv.skip(i as int + 1), sv, basev, fueln) {
                                    Ok(rest) => {
                                        assert((done + sub) + rest =~= done + (sub + rest));
                                    },
                                    Err(_) => {},
                                }
                            }
                        },
                        Err(e) => {
                            return Err(e);
                        },
                    }
                },
            }
        } else {
            let ghost mid = filelist@;
            filelist.push((path, tree.files[i].id.dup()));
            proof {
                let pathv = spec_join_path(basev, fv[i as int].name);
                assert(pairs_view(filelist@) =~= pairs_view(mid).push((pathv, fv[i as int].id)));
                assert(pairs_view(filelist@).skip(base_len as int) =~= done + seq![
                    (pathv, fv[i as int].id),
                ]);
                match spec_walk(fv.skip(i as int + 1), sv, basev, fueln) {
                    Ok(rest) => {
                        assert((done + seq![(pathv, fv[i as int].id)]) + rest =~= done + (seq![
                            (pathv, fv[i as int].id),
                        ] + rest));
                    },
                    Err(_) => {},
                }
            }
        }
        i = i + 1;
    }
    proof {
        assert(fv.skip(i as int).len() == 0);
        assert(pairs_view(filelist@).skip(base_len as int) + Seq::<(Seq<u8>, Seq<u8>)>::empty()
            =~= pairs_view(filelist@).skip(base_len as int));
    }
    Ok(())
}

/// Composing a tree from the same path/blob pairs always yields the same
/// root identifier.  `index_to_tree` pins its result to `spec_index_to_tree`
/// and `save_subtree` pins the stored root to `spec_entry_id`, so two runs of
/// the pipeline on equal inputs return equal identifiers.
pub open spec fn spec_compose_root(entries: Seq<crate::index::IndexEntryV>) -> Result<
    Seq<u8>,
    TreeError,
> {
    match spec_index_to_tree(entries) {
        Ok(m) => Ok(spec_entry_id(TreeEntryV::SubTree(m))),
        Err(e) => Err(e),
    }
}

/// Running the tree composer twice on the same input yields the same root
/// identifier.
pub proof fn lemma_composer_deterministic(
    a: Seq<crate::index::IndexEntryV>,
    b: Seq<crate::index::IndexEntryV>,
)
    requires
        a == b,
    ensures
        spec_compose_root(a) == spec_compose_root(b),
{
}

} // verus!
