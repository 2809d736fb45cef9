//! Deterministic file enumeration over a directory-tree snapshot.
//!
//! The caller lists the filesystem (that is I/O and stays outside the
//! library) and hands in a snapshot: each top-level input is a file, a
//! directory with its entries, or neither. Enumeration walks the
//! snapshot exactly as the tool's rules say — files are taken,
//! directories are entered only when recursion is on, other entries are
//! skipped, and a top-level input that is neither file nor directory
//! fails the run — and always delivers the collected paths sorted
//! lexicographically by bytes, whatever order the snapshot lists them in.

use vstd::prelude::*;
use vstd::relations::sorted_by;
use vstd::relations::total_ordering;
use crate::codec::push_all;
use crate::codec::views_of;

verus! {

/// One entry of a directory snapshot.
pub enum FsNode {
    /// A regular file.
    File { name: Vec<u8> },
    /// A subdirectory and its own entries.
    Dir { name: Vec<u8>, entries: Vec<FsNode> },
    /// Anything else (socket, device, dangling link): skipped.
    Other { name: Vec<u8> },
}

/// One top-level input path, as the caller resolved it.
pub enum FsInput {
    /// The path names a regular file.
    File { path: Vec<u8> },
    /// The path names a directory; `entries` is its snapshot.
    Dir { path: Vec<u8>, entries: Vec<FsNode> },
    /// The path names neither a file nor a directory.
    Missing { path: Vec<u8> },
}

/// A directory entry's full path: the directory's path, a separator,
/// and the entry's name.
pub open spec fn joined(dir: Seq<u8>, name: Seq<u8>) -> Seq<u8> {
    dir + seq![47u8] + name
}

/// The files one node contributes, in snapshot order.
pub open spec fn spec_node_files(node: FsNode, dir: Seq<u8>, recursive: bool) -> Seq<Seq<u8>>
    decreases node, 0nat,
{
    match node {
        FsNode::File { name } => seq![joined(dir, name@)],
        FsNode::Dir { name, entries } => {
            if recursive {
                spec_entries_files(entries@, 0, joined(dir, name@), true)
            } else {
                Seq::empty()
            }
        },
        FsNode::Other { name: _ } => Seq::empty(),
    }
}

/// The files the entries from index `i` on contribute, in snapshot order.
pub open spec fn spec_entries_files(
    entries: Seq<FsNode>,
    i: int,
    dir: Seq<u8>,
    recursive: bool,
) -> Seq<Seq<u8>>
    decreases entries, entries.len() - i,
{
    if i < 0 || i >= entries.len() {
        Seq::empty()
    } else {
        spec_node_files(entries[i], dir, recursive) + spec_entries_files(
            entries,
            i + 1,
            dir,
            recursive,
        )
    }
}

/// The files one top-level input contributes, in snapshot order.
pub open spec fn spec_input_files(inp: FsInput, recursive: bool) -> Seq<Seq<u8>> {
    match inp {
        FsInput::File { path } => seq![path@],
        FsInput::Dir { path, entries } => spec_entries_files(entries@, 0, path@, recursive),
        FsInput::Missing { path: _ } => Seq::empty(),
    }
}

/// The files of the inputs from index `i` on, in input order — or the
/// path of the first input that is neither a file nor a directory.
pub open spec fn spec_enumerate(inputs: Seq<FsInput>, i: int, recursive: bool) -> Result<
    Seq<Seq<u8>>,
    Seq<u8>,
>
    decreases inputs.len() - i,
{
    if i < 0 || i >= inputs.len() {
        Ok(Seq::empty())
    } else {
        match inputs[i] {
            FsInput::Missing { path } => Err(path@),
            _ => match spec_enumerate(inputs, i + 1, recursive) {
                Ok(rest) => Ok(spec_input_files(inputs[i], recursive) + rest),
                Err(p) => Err(p),
            },
        }
    }
}

/// Byte-wise lexicographic order on paths. For paths in a common
/// encoding this is the usual path order.
pub open spec fn lex_le(a: Seq<u8>, b: Seq<u8>) -> bool
    decreases a.len(),
{
    if a.len() == 0 {
        true
    } else if b.len() == 0 {
        false
    } else if a[0] < b[0] {
        true
    } else if a[0] > b[0] {
        false
    } else {
        lex_le(a.drop_first(), b.drop_first())
    }
}

/// The lexicographic order as a relation value.
pub open spec fn lex_leq() -> spec_fn(Seq<u8>, Seq<u8>) -> bool {
    |a: Seq<u8>, b: Seq<u8>| lex_le(a, b)
}

proof fn lemma_lex_refl(a: Seq<u8>)
    ensures
        lex_le(a, a),
    decreases a.len(),
{
    if a.len() > 0 {
        lemma_lex_refl(a.drop_first());
    }
}

proof fn lemma_lex_total(a: Seq<u8>, b: Seq<u8>)
    ensures
        lex_le(a, b) || lex_le(b, a),
    decreases a.len(),
{
    if a.len() > 0 && b.len() > 0 && a[0] == b[0] {
        lemma_lex_total(a.drop_first(), b.drop_first());
    }
}

proof fn lemma_lex_antisym(a: Seq<u8>, b: Seq<u8>)
    requires
        lex_le(a, b),
        lex_le(b, a),
    ensures
        a == b,
    decreases a.len(),
{
    if a.len() > 0 && b.len() > 0 {
        lemma_lex_antisym(a.drop_first(), b.drop_first());
        assert forall|i: int| 0 <= i < a.len() implies a[i] == b[i] by {
            if i > 0 {
                assert(a.drop_first()[i - 1] == b.drop_first()[i - 1]);
            }
        }
        assert(a =~= b);
    } else {
        assert(a.len() == 0 && b.len() == 0);
        assert(a =~= b);
    }
}

proof fn lemma_lex_trans(a: Seq<u8>, b: Seq<u8>, c: Seq<u8>)
    requires
        lex_le(a, b),
        lex_le(b, c),
    ensures
        lex_le(a, c),
    decreases a.len(),
{
    if a.len() > 0 && b.len() > 0 && c.len() > 0 {
        if a[0] == b[0] && b[0] == c[0] {
            lemma_lex_trans(a.drop_first(), b.drop_first(), c.drop_first());
        }
    }
}

/// The lexicographic order is a total order, so sorting by it puts any
/// collection of paths in exactly one order.
pub proof fn lemma_lex_total_ordering()
    ensures
        total_ordering(lex_leq()),
{
    let r = lex_leq();
    assert forall|a: Seq<u8>| #[trigger] r(a, a) by {
        lemma_lex_refl(a);
    }
    assert forall|a: Seq<u8>, b: Seq<u8>| #[trigger] r(a, b) && #[trigger] r(b, a) implies a == b by {
        lemma_lex_antisym(a, b);
    }
    assert forall|a: Seq<u8>, b: Seq<u8>, c: Seq<u8>| #[trigger] r(a, b) && #[trigger] r(b, c)
        implies r(a, c) by {
        lemma_lex_trans(a, b, c);
    }
    assert forall|a: Seq<u8>, b: Seq<u8>| !(#[trigger] r(a, b)) implies r(b, a) by {
        lemma_lex_total(a, b);
    }
}

proof fn lemma_lex_skip(a: Seq<u8>, b: Seq<u8>, i: int)
    requires
        0 <= i <= a.len(),
        i <= b.len(),
        forall|j: int| 0 <= j < i ==> a[j] == b[j],
    ensures
        lex_le(a, b) == lex_le(a.skip(i), b.skip(i)),
    decreases i,
{
    if i > 0 {
        assert(a[0] == b[0]);
        assert(a.drop_first().skip(i - 1) =~= a.skip(i));
        assert(b.drop_first().skip(i - 1) =~= b.skip(i));
        assert forall|j: int| 0 <= j < i - 1 implies a.drop_first()[j] == b.drop_first()[j] by {
            assert(a[j + 1] == b[j + 1]);
        }
        lemma_lex_skip(a.drop_first(), b.drop_first(), i - 1);
    } else {
        assert(a.skip(0) =~= a);
        assert(b.skip(0) =~= b);
    }
}

/// Whether `a` sorts at or before `b` in the lexicographic path order.
pub fn lex_le_bytes(a: &[u8], b: &[u8]) -> (r: bool)
    ensures
        r == lex_le(a@, b@),
{
    let na: usize = a.len();
    let nb: usize = b.len();
    let mut i: usize = 0;
    while i < na && i < nb && a[i] == b[i]
        invariant
            0 <= i <= na,
            i <= nb,
            na == a@.len(),
            nb == b@.len(),
            forall|j: int| 0 <= j < i ==> a@[j] == b@[j],
        decreases na - i,
    {
        i = i + 1;
    }
    proof {
        lemma_lex_skip(a@, b@, i as int);
    }
    if i == na {
        proof {
            assert(a@.skip(i as int).len() == 0);
        }
        true
    } else if i == nb {
        proof {
            assert(b@.skip(i as int).len() == 0);
            assert(a@.skip(i as int).len() > 0);
        }
        false
    } else {
        proof {
            assert(a@.skip(i as int)[0] == a@[i as int]);
            assert(b@.skip(i as int)[0] == b@[i as int]);
            assert(a@[i as int] != b@[i as int]);
        }
        a[i] < b[i]
    }
}

proof fn lemma_sorted_insert(s: Seq<Seq<u8>>, p: int, x: Seq<u8>)
    requires
        sorted_by(s, lex_leq()),
        0 <= p <= s.len(),
        forall|k: int| 0 <= k < p ==> lex_le(#[trigger] s[k], x),
        forall|k: int| p <= k < s.len() ==> lex_le(x, #[trigger] s[k]),
    ensures
        sorted_by(s.insert(p, x), lex_leq()),
{
    let r = lex_leq();
    let ins = s.insert(p, x);
    s.insert_ensures(p, x);
    assert forall|i: int, j: int| 0 <= i < j < ins.len() implies #[trigger] r(ins[i], ins[j]) by {
        if j < p {
            assert(r(s[i], s[j]));
        } else if i < p && j == p {
            assert(lex_le(s[i], x));
        } else if i < p && j > p {
            assert(r(s[i], s[j - 1]));
        } else if i == p {
            assert(lex_le(x, s[j - 1]));
        } else {
            assert(r(s[i - 1], s[j - 1]));
        }
    }
}

/// Sorts paths into the lexicographic order. The result is `sort_by` of
/// the input's views: the one sorted arrangement of exactly those paths.
pub fn sort_paths(input: Vec<Vec<u8>>) -> (r: Vec<Vec<u8>>)
    ensures
        views_of(r@) == views_of(input@).sort_by(lex_leq()),
{
    broadcast use vstd::seq_lib::group_to_multiset_ensures;
    broadcast use vstd::multiset::group_multiset_axioms;

    let ghost total = views_of(input@);
    let mut rest = input;
    let mut out: Vec<Vec<u8>> = Vec::new();
    proof {
        assert(views_of(out@) =~= Seq::<Seq<u8>>::empty());
        assert(views_of(out@).to_multiset().add(views_of(rest@).to_multiset())
            =~= total.to_multiset());
    }
    while rest.len() > 0
        invariant
            total == views_of(input@),
            sorted_by(views_of(out@), lex_leq()),
            views_of(out@).to_multiset().add(views_of(rest@).to_multiset())
                == total.to_multiset(),
        decreases rest@.len(),
    {
        let ghost old_rest = rest@;
        let ghost old_out = out@;
        let x = rest.remove(0);
        proof {
            assert(views_of(old_rest)[0] == x@);
            assert(views_of(rest@) =~= views_of(old_rest).remove(0));
            views_of(old_rest).remove_ensures(0);
            vstd::seq_lib::to_multiset_remove(views_of(old_rest), 0);
            assert(views_of(old_rest).remove(0).to_multiset() == views_of(
                old_rest,
            ).to_multiset().remove(x@));
        }
        let mut p: usize = 0;
        while p < out.len() && lex_le_bytes(out[p].as_slice(), x.as_slice())
            invariant
                0 <= p <= out@.len(),
                out@ == old_out,
                forall|k: int| 0 <= k < p ==> lex_le(#[trigger] views_of(out@)[k], x@),
            decreases out@.len() - p,
        {
            proof {
                assert(views_of(out@)[p as int] == out@[p as int]@);
            }
            p = p + 1;
        }
        proof {
            let vo = views_of(out@);
            assert forall|k: int| p <= k < vo.len() implies lex_le(x@, #[trigger] vo[k]) by {
                if k == p {
                    assert(!lex_le(vo[p as int], x@));
                    lemma_lex_total(vo[p as int], x@);
                } else {
                    assert(!lex_le(vo[p as int], x@));
                    lemma_lex_total(vo[p as int], x@);
                    assert(lex_leq()(vo[p as int], vo[k]));
                    lemma_lex_trans(x@, vo[p as int], vo[k]);
                }
            }
            lemma_sorted_insert(views_of(out@), p as int, x@);
        }
        out.insert(p, x);
        proof {
            assert(views_of(out@) =~= views_of(old_out).insert(p as int, x@));
            vstd::seq_lib::to_multiset_insert(views_of(old_out), p as int, x@);
            vstd::seq_lib::to_multiset_contains(views_of(old_rest), x@);
            assert(views_of(old_rest).contains(x@)) by {
                assert(views_of(old_rest)[0] == x@);
            }
            assert(views_of(out@).to_multiset().add(views_of(rest@).to_multiset())
                =~= total.to_multiset());
        }
    }
    proof {
        assert(views_of(rest@) =~= Seq::<Seq<u8>>::empty());
        assert(views_of(out@).to_multiset() =~= total.to_multiset());
        lemma_lex_total_ordering();
        total.lemma_sort_by_ensures(lex_leq());
        vstd::seq_lib::lemma_sorted_unique(views_of(out@), total.sort_by(lex_leq()), lex_leq());
        assert(views_of(out@) == total.sort_by(lex_leq()));
    }
    out
}

/// A top-level input path that names neither a file nor a directory.
#[derive(Debug)]
pub struct PathResolutionError {
    /// The offending path.
    pub path: Vec<u8>,
}

/// The files under one directory snapshot, in snapshot order: files are
/// taken, subdirectories are entered only when `recursive` is on, other
/// entries are skipped. Listing failures are the caller's to surface
/// before a snapshot exists; the walk itself cannot fail.
pub fn get_files(entries: &Vec<FsNode>, dir: &Vec<u8>, recursive: bool) -> (files: Vec<Vec<u8>>)
    ensures
        views_of(files@) == spec_entries_files(entries@, 0, dir@, recursive),
    decreases entries@,
{
    let mut files: Vec<Vec<u8>> = Vec::new();
    let n: usize = entries.len();
    let mut i: usize = 0;
    proof {
        assert(views_of(files@) =~= Seq::<Seq<u8>>::empty());
        assert(views_of(files@) + spec_entries_files(entries@, 0, dir@, recursive)
            =~= spec_entries_files(entries@, 0, dir@, recursive));
    }
    while i < n
        invariant
            0 <= i <= n,
            n == entries@.len(),
            spec_entries_files(entries@, 0, dir@, recursive) == views_of(files@)
                + spec_entries_files(entries@, i as int, dir@, recursive),
        decreases n - i,
    {
        let ghost old_files = files@;
        match &entries[i] {
            FsNode::File { name } => {
                let mut path: Vec<u8> = Vec::new();
                push_all(&mut path, dir.as_slice());
                path.push(47);
                push_all(&mut path, name.as_slice());
                proof {
                    assert(path@ =~= joined(dir@, name@));
                }
                files.push(path);
                proof {
                    assert(spec_node_files(entries@[i as int], dir@, recursive) == seq![joined(
                        dir@,
                        name@,
                    )]);
                    assert(views_of(files@) =~= views_of(old_files).push(joined(dir@, name@)));
                    assert(views_of(old_files) + (seq![joined(dir@, name@)] + spec_entries_files(
                        entries@,
                        i as int + 1,
                        dir@,
                        recursive,
                    )) =~= views_of(files@) + spec_entries_files(
                        entries@,
                        i as int + 1,
                        dir@,
                        recursive,
                    ));
                }
            },
            FsNode::Dir { name, entries: sub } => {
                if recursive {
                    let mut sub_dir: Vec<u8> = Vec::new();
                    push_all(&mut sub_dir, dir.as_slice());
                    sub_dir.push(47);
                    push_all(&mut sub_dir, name.as_slice());
                    proof {
                        assert(sub_dir@ =~= joined(dir@, name@));
                        assert(decreases_to!(entries@ => entries@[i as int]));
                        assert(decreases_to!(entries@[i as int] => sub@));
                    }
                    let mut sub_files = get_files(sub, &sub_dir, true);
                    proof {
                        assert(spec_node_files(entries@[i as int], dir@, recursive)
                            == spec_entries_files(sub@, 0, joined(dir@, name@), true));
                    }
                    files.append(&mut sub_files);
                    proof {
                        assert(views_of(files@) =~= views_of(old_files) + spec_node_files(
                            entries@[i as int],
                            dir@,
                            recursive,
                        ));
                        assert(views_of(old_files) + (spec_node_files(
                            entries@[i as int],
                            dir@,
                            recursive,
                        ) + spec_entries_files(entries@, i as int + 1, dir@, recursive))
                            =~= views_of(files@) + spec_entries_files(
                            entries@,
                            i as int + 1,
                            dir@,
                            recursive,
                        ));
                    }
                } else {
                    proof {
                        assert(spec_node_files(entries@[i as int], dir@, recursive)
                            =~= Seq::<Seq<u8>>::empty());
                        assert(views_of(old_files) + (Seq::<Seq<u8>>::empty()
                            + spec_entries_files(entries@, i as int + 1, dir@, recursive))
                            =~= views_of(files@) + spec_entries_files(
                            entries@,
                            i as int + 1,
                            dir@,
                            recursive,
                        ));
                    }
                }
            },
            FsNode::Other { name: _ } => {
                proof {
                    assert(spec_node_files(entries@[i as int], dir@, recursive)
                        =~= Seq::<Seq<u8>>::empty());
                    assert(views_of(old_files) + (Seq::<Seq<u8>>::empty() + spec_entries_files(
                        entries@,
                        i as int + 1,
                        dir@,
                        recursive,
                    )) =~= views_of(files@) + spec_entries_files(
                        entries@,
                        i as int + 1,
                        dir@,
                        recursive,
                    ));
                }
            },
        }
        i = i + 1;
    }
    proof {
        assert(spec_entries_files(entries@, n as int, dir@, recursive)
            =~= Seq::<Seq<u8>>::empty());
        assert(views_of(files@) + Seq::<Seq<u8>>::empty() =~= views_of(files@));
    }
    files
}

/// Prepends already-collected files to the enumeration of the remaining
/// inputs.
pub open spec fn combine_enum(acc: Seq<Seq<u8>>, rest: Result<Seq<Seq<u8>>, Seq<u8>>) -> Result<
    Seq<Seq<u8>>,
    Seq<u8>,
> {
    match rest {
        Ok(fs) => Ok(acc + fs),
        Err(p) => Err(p),
    }
}

/// Resolves the inputs into one flat, lexicographically sorted list of
/// file paths, or fails on the first input that is neither a file nor a
/// directory.
pub fn get_all_files(inputs: Vec<FsInput>, recursive: bool) -> (r: Result<
    Vec<Vec<u8>>,
    PathResolutionError,
>)
    ensures
        match spec_enumerate(inputs@, 0, recursive) {
            Ok(files) => r is Ok && views_of(r->Ok_0@) == files.sort_by(lex_leq()),
            Err(p) => r is Err && r->Err_0.path@ == p,
        },
{
    let ghost all = inputs@;
    let mut queue = inputs;
    let n: usize = queue.len();
    let mut collected: Vec<Vec<u8>> = Vec::new();
    let mut i: usize = 0;
    proof {
        assert(all.len() == n);
        assert(views_of(collected@) =~= Seq::<Seq<u8>>::empty());
        assert(combine_enum(views_of(collected@), spec_enumerate(all, 0, recursive))
            == spec_enumerate(all, 0, recursive)) by {
            match spec_enumerate(all, 0, recursive) {
                Ok(fs) => {
                    assert(views_of(collected@) + fs =~= fs);
                },
                Err(_) => {},
            }
        }
    }
    while queue.len() > 0
        invariant
            all == inputs@,
            all.len() <= usize::MAX,
            0 <= i <= all.len(),
            queue@.len() == all.len() - i,
            forall|j: int| 0 <= j < queue@.len() ==> queue@[j] == all[i + j],
            spec_enumerate(all, 0, recursive) == combine_enum(
                views_of(collected@),
                spec_enumerate(all, i as int, recursive),
            ),
        decreases queue@.len(),
    {
        let ghost old_queue = queue@;
        let ghost old_collected = collected@;
        let inp = queue.remove(0);
        proof {
            assert(inp == all[i as int]);
            assert forall|j: int| 0 <= j < queue@.len() implies queue@[j] == all[i + 1 + j] by {
                assert(queue@[j] == old_queue[j + 1]);
            }
        }
        match inp {
            FsInput::File { path } => {
                proof {
                    assert(spec_input_files(all[i as int], recursive) == seq![path@]);
                }
                collected.push(path);
                proof {
                    assert(views_of(collected@) =~= views_of(old_collected).push(
                        all[i as int]->File_path@,
                    ));
                    match spec_enumerate(all, i as int + 1, recursive) {
                        Ok(rest) => {
                            assert(views_of(old_collected) + (spec_input_files(
                                all[i as int],
                                recursive,
                            ) + rest) =~= views_of(collected@) + rest);
                        },
                        Err(_) => {},
                    }
                }
            },
            FsInput::Dir { path, entries } => {
                let mut sub_files = get_files(&entries, &path, recursive);
                proof {
                    assert(spec_input_files(all[i as int], recursive) == spec_entries_files(
                        entries@,
                        0,
                        path@,
                        recursive,
                    ));
                }
                collected.append(&mut sub_files);
                proof {
                    assert(views_of(collected@) =~= views_of(old_collected) + spec_input_files(
                        all[i as int],
                        recursive,
                    ));
                    match spec_enumerate(all, i as int + 1, recursive) {
                        Ok(rest) => {
                            assert(views_of(old_collected) + (spec_input_files(
                                all[i as int],
                                recursive,
                            ) + rest) =~= views_of(collected@) + rest);
                        },
                        Err(_) => {},
                    }
                }
            },
            FsInput::Missing { path } => {
                proof {
                    assert(spec_enumerate(all, i as int, recursive) == Err::<Seq<Seq<u8>>, Seq<u8>>(
                        path@,
                    ));
                }
                return Err(PathResolutionError { path });
            },
        }
        i = i + 1;
    }
    proof {
        assert(i as int == all.len());
        assert(spec_enumerate(all, i as int, recursive) == Ok::<Seq<Seq<u8>>, Seq<u8>>(
            Seq::empty(),
        ));
        assert(views_of(collected@) + Seq::<Seq<u8>>::empty() =~= views_of(collected@));
    }
    Ok(sort_paths(collected))
}

/// Enumeration is deterministic: two walks that collect the same paths —
/// in whatever order the filesystem happened to list them — deliver the
/// same sorted output.
pub proof fn lemma_enumeration_deterministic(a: Seq<Seq<u8>>, b: Seq<Seq<u8>>)
    requires
        a.to_multiset() == b.to_multiset(),
    ensures
        a.sort_by(lex_leq()) == b.sort_by(lex_leq()),
{
    lemma_lex_total_ordering();
    a.lemma_sort_by_ensures(lex_leq());
    b.lemma_sort_by_ensures(lex_leq());
    vstd::seq_lib::lemma_sorted_unique(a.sort_by(lex_leq()), b.sort_by(lex_leq()), lex_leq());
}

/// A directory whose entries are all files yields one path per entry,
/// with or without recursion.
pub proof fn lemma_all_files_len(entries: Seq<FsNode>, i: int, dir: Seq<u8>, recursive: bool)
    requires
        0 <= i <= entries.len(),
        forall|j: int| i <= j < entries.len() ==> (#[trigger] entries[j]) is File,
    ensures
        spec_entries_files(entries, i, dir, recursive).len() == entries.len() - i,
    decreases entries.len() - i,
{
    if i < entries.len() {
        lemma_all_files_len(entries, i + 1, dir, recursive);
        assert(entries[i] is File);
        assert(spec_node_files(entries[i], dir, recursive).len() == 1);
        assert(spec_entries_files(entries, i, dir, recursive) == spec_node_files(
            entries[i],
            dir,
            recursive,
        ) + spec_entries_files(entries, i + 1, dir, recursive));
    }
}

proof fn lemma_mixed_count(
    entries: Seq<FsNode>,
    k: int,
    sub: Seq<FsNode>,
    dir: Seq<u8>,
    i: int,
)
    requires
        0 <= i <= entries.len(),
        0 <= k < entries.len(),
        entries[k] is Dir,
        entries[k]->Dir_entries@ == sub,
        forall|j: int| 0 <= j < sub.len() ==> (#[trigger] sub[j]) is File,
        forall|j: int| 0 <= j < entries.len() && j != k ==> (#[trigger] entries[j]) is File,
    ensures
        spec_entries_files(entries, i, dir, false).len() == if i <= k {
            entries.len() - i - 1
        } else {
            entries.len() - i
        },
        spec_entries_files(entries, i, dir, true).len() == if i <= k {
            entries.len() - i - 1 + sub.len()
        } else {
            entries.len() - i
        },
    decreases entries.len() - i,
{
    if i < entries.len() {
        lemma_mixed_count(entries, k, sub, dir, i + 1);
        if i == k {
            let name = entries[k]->Dir_name;
            lemma_all_files_len(sub, 0, joined(dir, name@), true);
            assert(spec_node_files(entries[i], dir, true).len() == sub.len());
            assert(spec_node_files(entries[i], dir, false).len() == 0);
        } else {
            assert(entries[i] is File);
            assert(spec_node_files(entries[i], dir, false).len() == 1);
            assert(spec_node_files(entries[i], dir, true).len() == 1);
        }
        assert(spec_entries_files(entries, i, dir, false) == spec_node_files(entries[i], dir, false)
            + spec_entries_files(entries, i + 1, dir, false));
        assert(spec_entries_files(entries, i, dir, true) == spec_node_files(entries[i], dir, true)
            + spec_entries_files(entries, i + 1, dir, true));
    }
}

/// Counting what enumeration yields of a flat directory tree: `N` files
/// beside one subdirectory holding `M` files give `N` paths without
/// recursion and `N + M` with it.
pub proof fn lemma_tree_counts(entries: Seq<FsNode>, k: int, sub: Seq<FsNode>, dir: Seq<u8>)
    requires
        0 <= k < entries.len(),
        entries[k] is Dir,
        entries[k]->Dir_entries@ == sub,
        forall|j: int| 0 <= j < sub.len() ==> (#[trigger] sub[j]) is File,
        forall|j: int| 0 <= j < entries.len() && j != k ==> (#[trigger] entries[j]) is File,
    ensures
        spec_entries_files(entries, 0, dir, false).len() == entries.len() - 1,
        spec_entries_files(entries, 0, dir, true).len() == entries.len() - 1 + sub.len(),
{
    lemma_mixed_count(entries, k, sub, dir, 0);
}

} // verus!
