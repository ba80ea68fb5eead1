//! The directory merger: reconciling a source tree into a (possibly
//! pre-existing) destination tree. Entries are gathered from the source
//! subtree, put in lexicographic order of their rendered relative path —
//! so repeated runs process the same tree in the same order — and then
//! replayed against the destination: directories created, files handed
//! to the transfer engine's policy, and, on a move, emptied source
//! directories removed bottom-up.

use vstd::prelude::*;
use crate::{MoveOrCopy, TransferContext, TransferOutcome, CancelToken, arrow_message, message_with_arrow};
use crate::error::TransferError;
use crate::fsmodel::{Fs, Node, comps_eq, comps_strict_prefix, fs_unchanged, key_of, prefix_of, strict_prefix_of};
use crate::path::{FsPath, chars_le, clone_string, join_comps, lemma_chars_le_prefix, lemma_chars_le_total, lemma_chars_le_trans, lemma_join_push, render_comps, sep, wf_comps};

verus! {

/// One entry of the source subtree, relative to the source root: its
/// components, its rendered text (the sort key), and what it is.
pub struct RelEntry {
    pub rel: Vec<String>,
    pub rel_str: String,
    pub is_file: bool,
    pub size: u64,
}

/// The relative key an entry names.
pub open spec fn relk(e: RelEntry) -> Seq<Seq<char>> {
    key_of(e.rel@)
}

/// An entry faithfully describes the node at `srcv + rel` of `fs0`.
pub open spec fn entry_ok(fs0: Fs, srcv: Seq<Seq<char>>, e: RelEntry) -> bool {
    &&& relk(e).len() >= 1
    &&& wf_comps(relk(e))
    &&& fs0.has(srcv + relk(e))
    &&& e.is_file == (fs0.node_at(srcv + relk(e)) is File)
    &&& (e.is_file ==> e.size == fs0.bytes_at(srcv + relk(e)).len())
    &&& e.rel_str@ == join_comps(relk(e))
}

/// Joining a non-empty tail appends a separator and the tail's text.
pub proof fn lemma_join_concat(a: Seq<Seq<char>>, b: Seq<Seq<char>>)
    requires
        a.len() > 0,
        b.len() > 0,
    ensures
        join_comps(a + b) == join_comps(a) + seq![sep()] + join_comps(b),
    decreases b.len(),
{
    if b.len() == 1 {
        lemma_join_push(a, b[0]);
        assert(a.push(b[0]) =~= a + b);
        assert(join_comps(b) == b[0]);
    } else {
        lemma_join_concat(a, b.drop_last());
        lemma_join_push(a + b.drop_last(), b.last());
        assert((a + b.drop_last()).push(b.last()) =~= a + b);
        lemma_join_push(b.drop_last(), b.last());
        assert(b.drop_last().push(b.last()) =~= b);
        assert(join_comps(a + b) =~= join_comps(a) + seq![sep()] + join_comps(b));
    }
}

/// A strict prefix renders strictly earlier in the traversal order.
pub proof fn lemma_prefix_renders_lt(a: Seq<Seq<char>>, b: Seq<Seq<char>>)
    requires
        a.len() > 0,
        strict_prefix_of(a, b),
    ensures
        chars_le(join_comps(a), join_comps(b)),
        join_comps(a).len() < join_comps(b).len(),
    decreases b.len(),
{
    let rest = b.skip(a.len() as int);
    assert(a + rest =~= b);
    assert(rest.len() > 0);
    lemma_join_concat(a, rest);
    lemma_chars_le_prefix(join_comps(a), seq![sep()] + join_comps(rest));
    assert(join_comps(a) + (seq![sep()] + join_comps(rest)) =~= join_comps(b));
}

/// The byte total of the regular files strictly under `srcv`, entry by
/// entry of the tree's representation.
pub open spec fn tree_bytes_under(es: Seq<crate::fsmodel::FsEntry>, srcv: Seq<Seq<char>>) -> int
    decreases es.len(),
{
    if es.len() == 0 {
        0
    } else {
        tree_bytes_under(es.drop_last(), srcv) + (if strict_prefix_of(
            srcv,
            key_of(es.last().comps@),
        ) && es.last().node@ is File {
            es.last().node@->File_0.len() as int
        } else {
            0
        })
    }
}

/// Gather every entry strictly under `src`, relative to it.
fn collect_entries_under(fs: &Fs, src: &FsPath, total: &mut u64) -> (r: Vec<RelEntry>)
    requires
        fs.wf(),
        src.wf(),
    ensures
        *final(total) == (if tree_bytes_under(fs.entries@, src@) <= u64::MAX {
            tree_bytes_under(fs.entries@, src@)
        } else {
            u64::MAX as int
        }),
        forall|m: int| 0 <= m < r@.len() ==> entry_ok(*fs, src@, #[trigger] r@[m]),
        forall|k: Seq<Seq<char>>|
            #[trigger] fs.has(k) && strict_prefix_of(src@, k) ==> exists|m: int|
                0 <= m < r@.len() && relk(#[trigger] r@[m]) == k.skip(src@.len() as int),
        forall|a: int, b: int|
            0 <= a < r@.len() && 0 <= b < r@.len() && a != b ==> relk(#[trigger] r@[a]) != relk(
                #[trigger] r@[b],
            ),
{
    let mut r: Vec<RelEntry> = Vec::new();
    *total = 0;
    let mut t: usize = 0;
    let ghost mut idxs: Seq<int> = Seq::empty();
    proof {
        assert(fs.entries@.take(0) =~= Seq::<crate::fsmodel::FsEntry>::empty());
    }
    while t < fs.entries.len()
        invariant
            fs.wf(),
            src.wf(),
            t <= fs.entries@.len(),
            idxs.len() == r@.len(),
            *total == (if tree_bytes_under(fs.entries@.take(t as int), src@) <= u64::MAX {
                tree_bytes_under(fs.entries@.take(t as int), src@)
            } else {
                u64::MAX as int
            }),
            forall|m: int| 0 <= m < r@.len() ==> entry_ok(*fs, src@, #[trigger] r@[m]),
            forall|m: int|
                0 <= m < r@.len() ==> 0 <= #[trigger] idxs[m] < t && fs.key_at(idxs[m]) == src@
                    + relk(r@[m]),
            forall|a: int, b: int| 0 <= a < b < idxs.len() ==> #[trigger] idxs[a] < #[trigger] idxs[b],
            forall|t2: int|
                0 <= t2 < t && strict_prefix_of(src@, #[trigger] fs.key_at(t2)) ==> exists|m: int|
                    0 <= m < r@.len() && relk(#[trigger] r@[m]) == fs.key_at(t2).skip(
                        src@.len() as int,
                    ),
        decreases fs.entries@.len() - t,
    {
        let ghost pre = r@;
        let matched = comps_strict_prefix(&src.comps, &fs.entries[t].comps);
        if matched {
            let ghost k = fs.key_at(t as int);
            // Build the relative component vector.
            let mut rel: Vec<String> = Vec::new();
            let mut j: usize = src.comps.len();
            while j < fs.entries[t].comps.len()
                invariant
                    fs.wf(),
                    t < fs.entries@.len(),
                    src.comps@.len() <= j <= fs.entries@[t as int].comps@.len(),
                    key_of(rel@) == fs.key_at(t as int).subrange(
                        src.comps@.len() as int,
                        j as int,
                    ),
                decreases fs.entries@[t as int].comps@.len() - j,
            {
                let ghost prev = key_of(rel@);
                rel.push(clone_string(&fs.entries[t].comps[j]));
                j = j + 1;
                proof {
                    assert(key_of(rel@) =~= prev.push(fs.key_at(t as int)[j - 1]));
                    assert(fs.key_at(t as int).subrange(src.comps@.len() as int, j as int)
                        =~= prev.push(fs.key_at(t as int)[j - 1]));
                }
            }
            proof {
                assert(key_of(src.comps@) == src@);
                assert(key_of(rel@) =~= k.skip(src@.len() as int));
                assert(src@ + key_of(rel@) =~= k);
                fs.lemma_idx_unique(t as int, k);
                assert(wf_comps(key_of(rel@))) by {
                    assert(wf_comps(k));
                    assert forall|i: int| 0 <= i < key_of(rel@).len() implies (#[trigger] key_of(
                        rel@,
                    )[i]).len() > 0 && (forall|j2: int|
                        0 <= j2 < key_of(rel@)[i].len() ==> key_of(rel@)[i][j2] != sep()) by {
                        assert(key_of(rel@)[i] == k[src@.len() + i]);
                    }
                }
            }
            let rel_str = render_comps(&rel);
            let (is_file, size): (bool, u64) = match &fs.entries[t].node {
                Node::File(bytes) => (true, bytes.len() as u64),
                Node::Dir => (false, 0),
            };
            if size <= u64::MAX - *total {
                *total = *total + size;
            } else {
                *total = u64::MAX;
            }
            r.push(RelEntry { rel, rel_str, is_file, size });
            proof {
                idxs = idxs.push(t as int);
                let m_new = r@.len() - 1;
                assert(entry_ok(*fs, src@, r@[m_new]));
                assert(idxs[m_new] == t as int);
                assert(fs.key_at(idxs[m_new]) == src@ + relk(r@[m_new]));
                assert(forall|m: int| 0 <= m < m_new ==> r@[m] == pre[m]);
            }
        }
        t = t + 1;
        proof {
            assert(fs.entries@.take(t as int).drop_last() =~= fs.entries@.take(t - 1));
            assert(fs.entries@.take(t as int).last() == fs.entries@[t - 1]);
            assert(matched == strict_prefix_of(src@, key_of(fs.entries@[t - 1].comps@)));
            assert forall|t2: int|
                0 <= t2 < t && strict_prefix_of(src@, #[trigger] fs.key_at(t2)) implies exists|
                m: int,
            |
                0 <= m < r@.len() && relk(#[trigger] r@[m]) == fs.key_at(t2).skip(
                    src@.len() as int,
                ) by {
                if t2 < t - 1 {
                    let m = choose|m: int|
                        0 <= m < pre.len() && relk(#[trigger] pre[m]) == fs.key_at(t2).skip(
                            src@.len() as int,
                        );
                    assert(r@[m] == pre[m]);
                } else {
                    assert(relk(r@[r@.len() - 1]) == fs.key_at(t2).skip(src@.len() as int));
                }
            }
        }
    }
    proof {
        assert(fs.entries@.take(fs.entries@.len() as int) =~= fs.entries@);
        assert forall|k: Seq<Seq<char>>|
            #[trigger] fs.has(k) && strict_prefix_of(src@, k) implies exists|m: int|
            0 <= m < r@.len() && relk(#[trigger] r@[m]) == k.skip(src@.len() as int) by {
            let t2 = choose|t2: int| 0 <= t2 < fs.entries@.len() && fs.key_at(t2) == k;
            assert(strict_prefix_of(src@, fs.key_at(t2)));
        }
        assert forall|a: int, b: int|
            0 <= a < r@.len() && 0 <= b < r@.len() && a != b implies relk(#[trigger] r@[a]) != relk(
            #[trigger] r@[b],
        ) by {
            assert(idxs[a] != idxs[b]);
            if relk(r@[a]) == relk(r@[b]) {
                assert(fs.key_at(idxs[a]) == fs.key_at(idxs[b]));
                assert(false);
            }
        }
    }
    r
}

/// The order in which a merge visits entries: a permutation of the
/// entry indices, sorted by rendered relative path.
pub open spec fn perm_sorted(input: Seq<RelEntry>, perm: Seq<usize>) -> bool {
    &&& forall|p: int| 0 <= p < perm.len() ==> (#[trigger] perm[p]) < input.len()
    &&& forall|a: int, b: int|
        0 <= a < b < perm.len() ==> chars_le(
            input[perm[a] as int].rel_str@,
            input[perm[b] as int].rel_str@,
        )
}

/// Index `v` occurs in the permutation.
pub open spec fn in_perm(perm: Seq<usize>, v: int) -> bool {
    exists|p: int| 0 <= p < perm.len() && (#[trigger] perm[p]) == v
}

/// Compute the traversal order of the entries: every index exactly once,
/// sorted by rendered relative path.
#[verifier::rlimit(60)]
fn sorted_order(input: &Vec<RelEntry>) -> (perm: Vec<usize>)
    ensures
        perm@.len() == input@.len(),
        perm_sorted(input@, perm@),
        forall|a: int, b: int|
            0 <= a < perm@.len() && 0 <= b < perm@.len() && a != b ==> #[trigger] perm@[a]
                != #[trigger] perm@[b],
        forall|v: int| 0 <= v < input@.len() ==> #[trigger] in_perm(perm@, v),
{
    let mut perm: Vec<usize> = Vec::new();
    let mut i: usize = 0;
    while i < input.len()
        invariant
            i <= input@.len(),
            perm@.len() == i,
            forall|p: int| 0 <= p < perm@.len() ==> (#[trigger] perm@[p]) < i,
            forall|a: int, b: int|
                0 <= a < b < perm@.len() ==> chars_le(
                    input@[perm@[a] as int].rel_str@,
                    input@[perm@[b] as int].rel_str@,
                ),
            forall|v: int| 0 <= v < i ==> #[trigger] in_perm(perm@, v),
            forall|a: int, b: int|
                0 <= a < perm@.len() && 0 <= b < perm@.len() && a != b ==> #[trigger] perm@[a]
                    != #[trigger] perm@[b],
        decreases input@.len() - i,
    {
        let ghost pre = perm@;
        // Find the insertion point for index i.
        let mut j: usize = 0;
        while j < perm.len() && le_at(input, perm[j], i)
            invariant
                j <= perm@.len(),
                perm@ == pre,
                i < input@.len(),
                forall|p: int| 0 <= p < perm@.len() ==> (#[trigger] perm@[p]) < i,
                forall|a: int|
                    0 <= a < j ==> chars_le(
                        input@[(#[trigger] perm@[a]) as int].rel_str@,
                        input@[i as int].rel_str@,
                    ),
            decreases perm@.len() - j,
        {
            j = j + 1;
        }
        proof {
            if j < perm@.len() {
                lemma_chars_le_total(
                    input@[perm@[j as int] as int].rel_str@,
                    input@[i as int].rel_str@,
                );
            }
        }
        perm.insert(j, i);
        i = i + 1;
        proof {
            assert(perm@ =~= pre.insert(j as int, (i - 1) as usize));
            assert forall|a: int, b: int| 0 <= a < b < perm@.len() implies chars_le(
                input@[perm@[a] as int].rel_str@,
                input@[perm@[b] as int].rel_str@,
            ) by {
                let aa = if a < j {
                    a
                } else {
                    a - 1
                };
                let bb = if b < j {
                    b
                } else {
                    b - 1
                };
                if a == j {
                    // the new index against a later entry
                    assert(perm@[b] == pre[bb]);
                    assert(chars_le(input@[i - 1].rel_str@, input@[pre[j as int] as int].rel_str@));
                    if bb > j {
                        assert(chars_le(
                            input@[pre[j as int] as int].rel_str@,
                            input@[pre[bb] as int].rel_str@,
                        ));
                        lemma_chars_le_trans(
                            input@[i - 1].rel_str@,
                            input@[pre[j as int] as int].rel_str@,
                            input@[pre[bb] as int].rel_str@,
                        );
                    }
                } else if b == j {
                    assert(perm@[a] == pre[aa]);
                    assert(chars_le(input@[pre[aa] as int].rel_str@, input@[i - 1].rel_str@));
                } else {
                    assert(perm@[a] == pre[aa] && perm@[b] == pre[bb]);
                    assert(chars_le(
                        input@[pre[aa] as int].rel_str@,
                        input@[pre[bb] as int].rel_str@,
                    ));
                }
            }
            assert forall|v: int| 0 <= v < i implies #[trigger] in_perm(perm@, v) by {
                if v == i - 1 {
                    assert(perm@[j as int] == v);
                } else {
                    assert(in_perm(pre, v));
                    let p0 = choose|p0: int| 0 <= p0 < pre.len() && #[trigger] pre[p0] == v;
                    let p = if p0 < j {
                        p0
                    } else {
                        p0 + 1
                    };
                    assert(perm@[p] == v);
                }
            }
            assert forall|a: int, b: int|
                0 <= a < perm@.len() && 0 <= b < perm@.len() && a != b implies #[trigger] perm@[a]
                != #[trigger] perm@[b] by {
                let aa = if a < j {
                    a
                } else {
                    a - 1
                };
                let bb = if b < j {
                    b
                } else {
                    b - 1
                };
                if a == j {
                    assert(perm@[b] == pre[bb] && pre[bb] < i - 1);
                } else if b == j {
                    assert(perm@[a] == pre[aa] && pre[aa] < i - 1);
                } else {
                    assert(perm@[a] == pre[aa] && perm@[b] == pre[bb] && aa != bb);
                }
            }
        }
    }
    perm
}


/// The source and destination trees stand clear of each other: neither
/// contains the other.
pub open spec fn trees_disjoint(srcv: Seq<Seq<char>>, destv: Seq<Seq<char>>) -> bool {
    &&& srcv != destv
    &&& !strict_prefix_of(srcv, destv)
    &&& !strict_prefix_of(destv, srcv)
}

/// Keys of disjoint subtrees never collide.
pub proof fn lemma_disjoint_keys(
    srcv: Seq<Seq<char>>,
    destv: Seq<Seq<char>>,
    a: Seq<Seq<char>>,
    b: Seq<Seq<char>>,
)
    requires
        trees_disjoint(srcv, destv),
    ensures
        !(strict_prefix_of(srcv, a) && strict_prefix_of(destv, b) && a == b),
        !(strict_prefix_of(srcv, a) && a == destv),
        !(strict_prefix_of(destv, b) && b == srcv),
{
    if strict_prefix_of(srcv, a) && strict_prefix_of(destv, a) {
        if srcv.len() < destv.len() {
            assert(a.take(destv.len() as int).take(srcv.len() as int) =~= a.take(
                srcv.len() as int,
            ));
            assert(strict_prefix_of(srcv, destv));
        } else if destv.len() < srcv.len() {
            assert(a.take(srcv.len() as int).take(destv.len() as int) =~= a.take(
                destv.len() as int,
            ));
            assert(strict_prefix_of(destv, srcv));
        } else {
            assert(srcv == destv);
        }
    }
    if strict_prefix_of(srcv, a) && a == destv {
        assert(strict_prefix_of(srcv, destv));
    }
    if strict_prefix_of(destv, b) && b == srcv {
        assert(strict_prefix_of(destv, srcv));
    }
}

/// A pair of corresponding entries that stops a merge: a file about to
/// overwrite an unforced existing file, or a file and a directory of the
/// same name on opposite sides.
pub open spec fn merge_conflict_exists(
    fs0: Fs,
    srcv: Seq<Seq<char>>,
    destv: Seq<Seq<char>>,
    force: bool,
) -> bool {
    exists|k: Seq<Seq<char>>|
        #[trigger] fs0.has(k) && strict_prefix_of(srcv, k) && conflict_at(fs0, srcv, destv, force, k)
}

/// Whether the entry at `k` (under the source) conflicts with the
/// destination side.
pub open spec fn conflict_at(
    fs0: Fs,
    srcv: Seq<Seq<char>>,
    destv: Seq<Seq<char>>,
    force: bool,
    k: Seq<Seq<char>>,
) -> bool {
    let dk = destv + k.skip(srcv.len() as int);
    ||| (fs0.node_at(k) is File && fs0.file_at(dk) && !force)
    ||| (fs0.node_at(k) is File && fs0.dir_at(dk))
    ||| (fs0.node_at(k) is Dir && fs0.file_at(dk))
}

/// Every source entry has arrived at its corresponding destination key.
pub open spec fn merge_translates(
    fs0: Fs,
    fsf: Fs,
    srcv: Seq<Seq<char>>,
    destv: Seq<Seq<char>>,
) -> bool {
    forall|k: Seq<Seq<char>>|
        #[trigger] fs0.has(k) && strict_prefix_of(srcv, k) ==> {
            let dk = destv + k.skip(srcv.len() as int);
            &&& (fs0.node_at(k) is File ==> fsf.file_at(dk) && fsf.bytes_at(dk) == fs0.bytes_at(k))
            &&& (fs0.node_at(k) is Dir ==> fsf.dir_at(dk))
        }
}

/// A move leaves nothing of the source tree; a copy leaves it untouched.
pub open spec fn merge_source_side(fs0: Fs, fsf: Fs, srcv: Seq<Seq<char>>, is_move: bool) -> bool {
    if is_move {
        !fsf.has(srcv) && forall|k: Seq<Seq<char>>|
            strict_prefix_of(srcv, k) ==> !(#[trigger] fsf.has(k))
    } else {
        fsf.has(srcv) == fs0.has(srcv) && (fs0.has(srcv) ==> fsf.node_at(srcv) == fs0.node_at(
            srcv,
        )) && forall|k: Seq<Seq<char>>|
            strict_prefix_of(srcv, k) ==> #[trigger] fsf.has(k) == fs0.has(k) && (fs0.has(k)
                ==> fsf.node_at(k) == fs0.node_at(k))
    }
}

/// Destination entries with no source counterpart are untouched.
pub open spec fn merge_preserves(
    fs0: Fs,
    fsf: Fs,
    srcv: Seq<Seq<char>>,
    destv: Seq<Seq<char>>,
) -> bool {
    forall|k: Seq<Seq<char>>|
        strict_prefix_of(destv, k) && !fs0.has(srcv + k.skip(destv.len() as int))
            ==> #[trigger] fsf.has(k) == fs0.has(k) && (fs0.has(k) ==> fsf.node_at(k)
            == fs0.node_at(k))
}

/// Nothing outside the two trees changes.
pub open spec fn merge_frame(fs0: Fs, fsf: Fs, srcv: Seq<Seq<char>>, destv: Seq<Seq<char>>) -> bool {
    forall|k: Seq<Seq<char>>|
        !strict_prefix_of(srcv, k) && !strict_prefix_of(destv, k) && k != srcv
            ==> #[trigger] fsf.has(k) == fs0.has(k) && (fs0.has(k) ==> fsf.node_at(k)
            == fs0.node_at(k))
}

/// What a finished merge did to the tree, stated key by key: every
/// source entry appears at its corresponding destination key, a move
/// leaves nothing of the source tree, pre-existing destination entries
/// with no source counterpart are untouched, and nothing outside the two
/// trees changes.
pub open spec fn merge_ok(
    fs0: Fs,
    fsf: Fs,
    srcv: Seq<Seq<char>>,
    destv: Seq<Seq<char>>,
    is_move: bool,
) -> bool {
    &&& merge_translates(fs0, fsf, srcv, destv)
    &&& merge_source_side(fs0, fsf, srcv, is_move)
    &&& merge_preserves(fs0, fsf, srcv, destv)
    &&& merge_frame(fs0, fsf, srcv, destv)
}

/// A conflict error reported by a merge, with the pair it names left
/// exactly as it was: the policy rejection names the destination path,
/// and neither the conflicting source entry nor the conflicting
/// destination entry was touched.
pub open spec fn merge_conflict_err(
    fs0: Fs,
    fsf: Fs,
    srcv: Seq<Seq<char>>,
    destv: Seq<Seq<char>>,
    force: bool,
    e: TransferError,
) -> bool {
    exists|k: Seq<Seq<char>>|
        {
            let dk = destv + k.skip(srcv.len() as int);
            &&& #[trigger] fs0.has(k)
            &&& strict_prefix_of(srcv, k)
            &&& conflict_at(fs0, srcv, destv, force, k)
            &&& (match e {
                TransferError::DestinationExists { path } => path@ == join_comps(dk)
                    && fs0.node_at(k) is File && fs0.file_at(dk) && !force,
                TransferError::DestinationKindMismatch { path, expected_dir } => path@
                    == join_comps(dk) && (if expected_dir {
                    fs0.node_at(k) is Dir && fs0.file_at(dk)
                } else {
                    fs0.node_at(k) is File && fs0.dir_at(dk)
                }),
                _ => false,
            })
            &&& fsf.has(k) && fsf.node_at(k) == fs0.node_at(k)
            &&& fsf.has(dk) && fsf.node_at(dk) == fs0.node_at(dk)
            &&& fsf.has(srcv) && fsf.node_at(srcv) == fs0.node_at(srcv)
        }
}

/// Whether index `v` stands at a position before `p` in the permutation.
pub open spec fn done_idx(pm: Seq<usize>, p: int, v: int) -> bool {
    exists|q: int| 0 <= q < p && (#[trigger] pm[q]) == v
}

/// Whether the entry at index `a` sorts at or before the one at `b`.
fn le_at(input: &Vec<RelEntry>, a: usize, b: usize) -> (le: bool)
    requires
        a < input@.len(),
        b < input@.len(),
    ensures
        le == chars_le(input@[a as int].rel_str@, input@[b as int].rel_str@),
{
    crate::path::string_le(&input[a].rel_str, &input[b].rel_str)
}


/// Remove the emptied source tree bottom-up after a move: directories in
/// reverse traversal order, then the source root itself.
#[verifier::rlimit(100)]
fn remove_source_dirs(fs: &mut Fs, src: &FsPath, entries: &Vec<RelEntry>, perm: &Vec<usize>)
    requires
        old(fs).wf(),
        src.wf(),
        src@.len() > 0,
        old(fs).dir_at(src@),
        forall|m: int|
            0 <= m < entries@.len() ==> relk(#[trigger] entries@[m]).len() >= 1 && (
            #[trigger] entries@[m]).rel_str@ == join_comps(relk(entries@[m])),
        forall|m: int|
            0 <= m < entries@.len() && (#[trigger] entries@[m]).is_file ==> !old(fs).has(
                src@ + relk(entries@[m]),
            ),
        forall|m: int|
            0 <= m < entries@.len() && !(#[trigger] entries@[m]).is_file ==> old(fs).dir_at(
                src@ + relk(entries@[m]),
            ),
        forall|k: Seq<Seq<char>>|
            #[trigger] old(fs).has(k) && strict_prefix_of(src@, k) ==> exists|m: int|
                0 <= m < entries@.len() && !(#[trigger] entries@[m]).is_file && k == src@ + relk(
                    entries@[m],
                ),
        perm@.len() == entries@.len(),
        perm_sorted(entries@, perm@),
        forall|a: int, b: int|
            0 <= a < perm@.len() && 0 <= b < perm@.len() && a != b ==> #[trigger] perm@[a]
                != #[trigger] perm@[b],
        forall|a: int, b: int|
            0 <= a < entries@.len() && 0 <= b < entries@.len() && a != b ==> relk(
                #[trigger] entries@[a],
            ) != relk(#[trigger] entries@[b]),
        forall|v: int| 0 <= v < entries@.len() ==> #[trigger] in_perm(perm@, v),
    ensures
        final(fs).wf(),
        !final(fs).has(src@),
        forall|k: Seq<Seq<char>>| strict_prefix_of(src@, k) ==> !(#[trigger] final(fs).has(k)),
        forall|k: Seq<Seq<char>>|
            !strict_prefix_of(src@, k) && k != src@ ==> #[trigger] final(fs).has(k) == old(fs).has(
                k,
            ) && (old(fs).has(k) ==> final(fs).node_at(k) == old(fs).node_at(k)),
{
    let ghost fs0 = *fs;
    let ghost es = entries@;
    let ghost pm = perm@;
    let ghost srcv = src@;
    let mut q: usize = perm.len();
    proof {
        assert forall|k: Seq<Seq<char>>|
            #[trigger] fs.has(k) && strict_prefix_of(srcv, k) implies exists|p2: int|
            0 <= p2 < q && !es[pm[p2] as int].is_file && k == srcv + relk(
                es[(#[trigger] pm[p2]) as int],
            ) by {
            let m = choose|m: int|
                0 <= m < es.len() && !(#[trigger] es[m]).is_file && k == srcv + relk(es[m]);
            assert(in_perm(pm, m));
            let p2 = choose|p2: int| 0 <= p2 < pm.len() && (#[trigger] pm[p2]) == m;
            assert(!es[pm[p2] as int].is_file && k == srcv + relk(es[pm[p2] as int]));
        }
    }
    while q > 0
        invariant
            fs.wf(),
            src.wf(),
            srcv == src@,
            es == entries@,
            pm == perm@,
            srcv.len() > 0,
            q <= pm.len(),
            fs.dir_at(srcv),
            pm.len() == es.len(),
            perm_sorted(es, pm),
            forall|a: int, b: int|
                0 <= a < pm.len() && 0 <= b < pm.len() && a != b ==> #[trigger] pm[a]
                    != #[trigger] pm[b],
            forall|a: int, b: int|
                0 <= a < es.len() && 0 <= b < es.len() && a != b ==> relk(#[trigger] es[a]) != relk(
                    #[trigger] es[b],
                ),
            forall|m: int|
                0 <= m < es.len() ==> relk(#[trigger] es[m]).len() >= 1 && (
                #[trigger] es[m]).rel_str@ == join_comps(relk(es[m])),
            forall|v: int| 0 <= v < es.len() ==> #[trigger] in_perm(pm, v),
            // directories at positions >= q are gone; the others are as before
            forall|p2: int|
                q <= p2 < pm.len() && !es[pm[p2] as int].is_file ==> !fs.has(
                    srcv + relk(es[(#[trigger] pm[p2]) as int]),
                ),
            forall|p2: int|
                0 <= p2 < q && !es[pm[p2] as int].is_file ==> fs.dir_at(
                    srcv + relk(es[(#[trigger] pm[p2]) as int]),
                ),
            // nothing else lives under the source
            forall|k: Seq<Seq<char>>|
                #[trigger] fs.has(k) && strict_prefix_of(srcv, k) ==> exists|p2: int|
                    0 <= p2 < q && !es[pm[p2] as int].is_file && k == srcv + relk(
                        es[(#[trigger] pm[p2]) as int],
                    ),
            // nothing outside the source tree was touched
            forall|k: Seq<Seq<char>>|
                !strict_prefix_of(srcv, k) ==> #[trigger] fs.has(k) == fs0.has(k),
            forall|k: Seq<Seq<char>>|
                !strict_prefix_of(srcv, k) && fs0.has(k) ==> #[trigger] fs.node_at(k)
                    == fs0.node_at(k),
        decreases q,
    {
        q = q - 1;
        let v = perm[q];
        let ghost pre = *fs;
        if !entries[v].is_file {
            let src_abs = src.join(&entries[v].rel);
            proof {
                assert(src_abs@ == srcv + relk(es[v as int]));
                assert(fs.dir_at(src_abs@));
                // no children are left under this directory
                assert forall|k: Seq<Seq<char>>|
                    #[trigger] fs.has(k) implies !strict_prefix_of(src_abs@, k) by {
                    if strict_prefix_of(src_abs@, k) {
                        assert(strict_prefix_of(srcv, k)) by {
                            assert(k.take(src_abs@.len() as int).take(srcv.len() as int) =~= k.take(
                                srcv.len() as int,
                            ));
                            assert(src_abs@.take(srcv.len() as int) =~= srcv);
                        }
                        let p2 = choose|p2: int|
                            0 <= p2 < q + 1 && !es[pm[p2] as int].is_file && k == srcv + relk(
                                es[(#[trigger] pm[p2]) as int],
                            );
                        let v2 = pm[p2] as int;
                        // relk(es[v2]) strictly extends relk(es[v])
                        let ra = relk(es[v as int]);
                        let rb = relk(es[v2]);
                        assert(strict_prefix_of(ra, rb)) by {
                            assert(k == srcv + rb);
                            assert(src_abs@ == srcv + ra);
                            assert(rb.take(ra.len() as int) =~= (srcv + rb).take(
                                (srcv.len() + ra.len()) as int,
                            ).skip(srcv.len() as int));
                            assert((srcv + rb).take((srcv.len() + ra.len()) as int) =~= k.take(
                                src_abs@.len() as int,
                            ));
                            assert((srcv + ra).skip(srcv.len() as int) =~= ra);
                        }
                        lemma_prefix_renders_lt(ra, rb);
                        assert(v2 != v as int) by {
                            assert(rb.len() > ra.len());
                        }
                        assert(p2 != q) by {
                            assert(pm[q as int] == v as usize);
                        }
                        assert(p2 < q);
                        // sorted order puts the child after the parent
                        assert(chars_le(es[v2].rel_str@, es[v as int].rel_str@));
                        assert(chars_le(es[v as int].rel_str@, es[v2].rel_str@));
                        crate::path::lemma_chars_le_antisym(
                            es[v2].rel_str@,
                            es[v as int].rel_str@,
                        );
                        assert(join_comps(ra).len() < join_comps(rb).len());
                        assert(false);
                    }
                }
            }
            let removed = fs.remove_empty_dir(&src_abs);
            proof {
                assert(removed);
                assert forall|k: Seq<Seq<char>>|
                    #[trigger] fs.has(k) && strict_prefix_of(srcv, k) implies exists|p2: int|
                    0 <= p2 < q && !es[pm[p2] as int].is_file && k == srcv + relk(
                        es[(#[trigger] pm[p2]) as int],
                    ) by {
                    assert(pre.has(k));
                    let p2 = choose|p2: int|
                        0 <= p2 < q + 1 && !es[pm[p2] as int].is_file && k == srcv + relk(
                            es[(#[trigger] pm[p2]) as int],
                        );
                    assert(k != src_abs@);
                    if p2 == q {
                        assert(k == srcv + relk(es[v as int]));
                        assert(false);
                    }
                    assert(0 <= p2 < q);
                }
                assert forall|p2: int|
                    0 <= p2 < q && !es[pm[p2] as int].is_file implies fs.dir_at(
                    srcv + relk(es[(#[trigger] pm[p2]) as int]),
                ) by {
                    assert(pre.dir_at(srcv + relk(es[pm[p2] as int])));
                    assert(srcv + relk(es[pm[p2] as int]) != src_abs@) by {
                        assert(pm[q as int] == v);
                        if srcv + relk(es[pm[p2] as int]) == src_abs@ {
                            assert((srcv + relk(es[pm[p2] as int])).skip(srcv.len() as int)
                                =~= relk(es[pm[p2] as int]));
                            assert(src_abs@.skip(srcv.len() as int) =~= relk(es[v as int]));
                            assert(relk(es[pm[p2] as int]) == relk(es[v as int]));
                            assert(pm[p2] as int == v as int);
                            assert(pm[p2] != pm[q as int]);
                            assert(false);
                        }
                    }
                    assert(fs.has(srcv + relk(es[pm[p2] as int])) == pre.has(
                        srcv + relk(es[pm[p2] as int]),
                    ));
                    assert(pre.has(srcv + relk(es[pm[p2] as int])) ==> fs.node_at(
                        srcv + relk(es[pm[p2] as int]),
                    ) == pre.node_at(srcv + relk(es[pm[p2] as int])));
                }
                assert(fs.dir_at(srcv)) by {
                    assert(src_abs@ != srcv);
                }
                assert(strict_prefix_of(srcv, src_abs@)) by {
                    assert(src_abs@.take(srcv.len() as int) =~= srcv);
                }
                assert forall|k: Seq<Seq<char>>| !strict_prefix_of(srcv, k) implies
                    #[trigger] fs.has(k) == fs0.has(k) by {
                    assert(k != src_abs@);
                    assert(fs.has(k) == pre.has(k));
                }
                assert forall|k: Seq<Seq<char>>| !strict_prefix_of(srcv, k) && fs0.has(k) implies
                    #[trigger] fs.node_at(k) == fs0.node_at(k) by {
                    assert(k != src_abs@);
                    assert(fs.has(k) == pre.has(k));
                    assert(pre.has(k) ==> fs.node_at(k) == pre.node_at(k));
                }
            }
        } else {
            proof {
                assert forall|k: Seq<Seq<char>>|
                    #[trigger] fs.has(k) && strict_prefix_of(srcv, k) implies exists|p2: int|
                    0 <= p2 < q && !es[pm[p2] as int].is_file && k == srcv + relk(
                        es[(#[trigger] pm[p2]) as int],
                    ) by {
                    let p2 = choose|p2: int|
                        0 <= p2 < q + 1 && !es[pm[p2] as int].is_file && k == srcv + relk(
                            es[(#[trigger] pm[p2]) as int],
                        );
                    if p2 == q {
                        assert(false);
                    }
                    assert(0 <= p2 < q);
                }
            }
        }
    }
    // Finally remove the source root itself.
    proof {
        assert forall|k: Seq<Seq<char>>| #[trigger] fs.has(k) implies !strict_prefix_of(
            src@,
            k,
        ) by {
            if strict_prefix_of(src@, k) {
                let p2 = choose|p2: int|
                    0 <= p2 < 0 && !es[pm[p2] as int].is_file && k == srcv + relk(
                        es[(#[trigger] pm[p2]) as int],
                    );
                assert(false);
            }
        }
    }
    let removed = fs.remove_empty_dir(src);
    proof {
        assert(removed);
        assert forall|k: Seq<Seq<char>>| !strict_prefix_of(src@, k) && k != src@ implies
            #[trigger] fs.has(k) == fs0.has(k) && (fs0.has(k) ==> fs.node_at(k) == fs0.node_at(
            k,
        )) by {
            assert(fs.has(k) == fs0.has(k));
            assert(fs0.has(k) ==> fs.node_at(k) == fs0.node_at(k));
        }
    }
}


/// A destination-side key already written by one of the first `p`
/// processed entries.
pub open spec fn dest_hit(
    es: Seq<RelEntry>,
    pm: Seq<usize>,
    p: int,
    destv: Seq<Seq<char>>,
    k: Seq<Seq<char>>,
) -> bool {
    exists|q: int| 0 <= q < p && destv + relk(es[(#[trigger] pm[q]) as int]) == k
}

/// Replay the sorted entries against the destination: create
/// directories, transfer files under the conflict policy, poll the
/// cancellation token at top-level entries, and, on a move, remove the
/// emptied source tree afterwards.
#[verifier::rlimit(100)]
fn merge(
    fs: &mut Fs,
    src: &FsPath,
    dest: &FsPath,
    ctx: &TransferContext,
    token: &CancelToken,
    entries: &Vec<RelEntry>,
    perm: &Vec<usize>,
) -> (r: Result<Option<String>, TransferError>)
    requires
        old(fs).wf(),
        src.wf(),
        dest.wf(),
        src@.len() > 0,
        trees_disjoint(src@, dest@),
        old(fs).dir_at(src@),
        old(fs).dir_at(dest@),
        forall|m: int| 0 <= m < entries@.len() ==> entry_ok(*old(fs), src@, #[trigger] entries@[m]),
        forall|k: Seq<Seq<char>>|
            #[trigger] old(fs).has(k) && strict_prefix_of(src@, k) ==> exists|m: int|
                0 <= m < entries@.len() && relk(#[trigger] entries@[m]) == k.skip(src@.len() as int),
        forall|a: int, b: int|
            0 <= a < entries@.len() && 0 <= b < entries@.len() && a != b ==> relk(
                #[trigger] entries@[a],
            ) != relk(#[trigger] entries@[b]),
        perm@.len() == entries@.len(),
        perm_sorted(entries@, perm@),
        forall|a: int, b: int|
            0 <= a < perm@.len() && 0 <= b < perm@.len() && a != b ==> #[trigger] perm@[a]
                != #[trigger] perm@[b],
        forall|v: int| 0 <= v < entries@.len() ==> #[trigger] in_perm(perm@, v),
    ensures
        final(fs).wf(),
        match r {
            Ok(None) => !merge_conflict_exists(*old(fs), src@, dest@, ctx.force) && merge_ok(
                *old(fs),
                *final(fs),
                src@,
                dest@,
                ctx.mode.is_move(),
            ),
            Ok(Some(_)) => token.set,
            Err(e) => merge_conflict_err(*old(fs), *final(fs), src@, dest@, ctx.force, e),
        },
{
    let ghost fs0 = *fs;
    let ghost es = entries@;
    let ghost pm = perm@;
    let ghost srcv = src@;
    let ghost destv = dest@;
    let is_move = match ctx.mode {
        MoveOrCopy::Move => true,
        MoveOrCopy::Copy => false,
    };
    let mut p: usize = 0;
    while p < perm.len()
        invariant
            fs.wf(),
            src.wf(),
            dest.wf(),
            srcv == src@,
            destv == dest@,
            es == entries@,
            pm == perm@,
            srcv.len() > 0,
            is_move == ctx.mode.is_move(),
            trees_disjoint(srcv, destv),
            fs0 == *old(fs),
            fs0.wf(),
            fs0.dir_at(srcv),
            fs0.dir_at(destv),
            p <= pm.len(),
            pm.len() == es.len(),
            perm_sorted(es, pm),
            forall|a: int, b: int|
                0 <= a < pm.len() && 0 <= b < pm.len() && a != b ==> #[trigger] pm[a]
                    != #[trigger] pm[b],
            forall|a: int, b: int|
                0 <= a < es.len() && 0 <= b < es.len() && a != b ==> relk(#[trigger] es[a]) != relk(
                    #[trigger] es[b],
                ),
            forall|m: int| 0 <= m < es.len() ==> entry_ok(fs0, srcv, #[trigger] es[m]),
            forall|v: int| 0 <= v < es.len() ==> #[trigger] in_perm(pm, v),
            forall|k: Seq<Seq<char>>|
                #[trigger] fs0.has(k) && strict_prefix_of(srcv, k) ==> exists|m: int|
                    0 <= m < es.len() && relk(#[trigger] es[m]) == k.skip(srcv.len() as int),
            // source side: processed files of a move are gone, all else untouched
            forall|v: int|
                0 <= v < es.len() && !((#[trigger] es[v]).is_file && is_move && done_idx(pm, p as int, v))
                    ==> fs.has(srcv + relk(es[v])) && fs.node_at(srcv + relk(es[v])) == fs0.node_at(
                    srcv + relk(es[v]),
                ),
            forall|v: int|
                0 <= v < es.len() && (#[trigger] es[v]).is_file && is_move && done_idx(pm, p as int, v)
                    ==> !fs.has(srcv + relk(es[v])),
            forall|k: Seq<Seq<char>>|
                strict_prefix_of(srcv, k) && #[trigger] fs.has(k) ==> fs0.has(k) && fs.node_at(k)
                    == fs0.node_at(k),
            // destination side: processed entries have arrived, the rest is untouched
            forall|v: int|
                0 <= v < es.len() && done_idx(pm, p as int, v) ==> (if (#[trigger] es[v]).is_file {
                    fs.file_at(destv + relk(es[v])) && fs.bytes_at(destv + relk(es[v]))
                        == fs0.bytes_at(srcv + relk(es[v]))
                } else {
                    fs.dir_at(destv + relk(es[v]))
                }),
            forall|k: Seq<Seq<char>>|
                strict_prefix_of(destv, k) && !dest_hit(es, pm, p as int, destv, k)
                    ==> #[trigger] fs.has(k) == fs0.has(k) && (fs0.has(k) ==> fs.node_at(k)
                    == fs0.node_at(k)),
            // nothing outside the two trees changes
            forall|k: Seq<Seq<char>>|
                !strict_prefix_of(srcv, k) && !strict_prefix_of(destv, k) ==> #[trigger] fs.has(k)
                    == fs0.has(k) && (fs0.has(k) ==> fs.node_at(k) == fs0.node_at(k)),
            // no processed entry was in conflict
            forall|v: int|
                0 <= v < es.len() && done_idx(pm, p as int, v) ==> !conflict_at(
                    fs0,
                    srcv,
                    destv,
                    ctx.force,
                    srcv + relk(#[trigger] es[v]),
                ),
        decreases pm.len() - p,
    {
        let v = perm[p];
        let ghost kv = srcv + relk(es[v as int]);
        let ghost dk = destv + relk(es[v as int]);
        proof {
            assert(entry_ok(fs0, srcv, es[v as int]));
            assert(kv.skip(srcv.len() as int) =~= relk(es[v as int]));
            assert(dk.skip(destv.len() as int) =~= relk(es[v as int]));
            assert(strict_prefix_of(srcv, kv)) by {
                assert(kv.take(srcv.len() as int) =~= srcv);
            }
            assert(strict_prefix_of(destv, dk)) by {
                assert(dk.take(destv.len() as int) =~= destv);
            }
            lemma_disjoint_keys(srcv, destv, kv, dk);
            // this destination key was not written yet
            assert(!dest_hit(es, pm, p as int, destv, dk)) by {
                if dest_hit(es, pm, p as int, destv, dk) {
                    let q = choose|q: int|
                        0 <= q < p && destv + relk(es[(#[trigger] pm[q]) as int]) == dk;
                    assert((destv + relk(es[pm[q] as int])).skip(destv.len() as int) =~= relk(
                        es[pm[q] as int],
                    ));
                    assert(relk(es[pm[q] as int]) == relk(es[v as int]));
                    assert(pm[q] as int == v as int);
                    assert(pm[q] != pm[p as int]);
                    assert(pm[p as int] == v);
                    assert(false);
                }
            }
            assert(fs.has(dk) == fs0.has(dk));
            assert(fs0.has(dk) ==> fs.node_at(dk) == fs0.node_at(dk));
            // the source entry is still in place
            assert(!done_idx(pm, p as int, v as int)) by {
                if done_idx(pm, p as int, v as int) {
                    let q = choose|q: int| 0 <= q < p && (#[trigger] pm[q]) == v as int;
                    assert(pm[q] != pm[p as int]);
                    assert(false);
                }
            }
            assert(fs.has(kv) && fs.node_at(kv) == fs0.node_at(kv));
            // well-formed keys for the tree operations
            assert(wf_comps(dk)) by {
                assert(wf_comps(destv));
                assert(wf_comps(relk(es[v as int])));
                assert forall|i: int| 0 <= i < dk.len() implies (#[trigger] dk[i]).len() > 0 && (
                forall|j2: int| 0 <= j2 < dk[i].len() ==> dk[i][j2] != sep()) by {
                    if i < destv.len() {
                        assert(dk[i] == destv[i]);
                    } else {
                        assert(dk[i] == relk(es[v as int])[i - destv.len()]);
                    }
                }
            }
            assert(wf_comps(kv)) by {
                assert(wf_comps(srcv));
                assert(wf_comps(relk(es[v as int])));
                assert forall|i: int| 0 <= i < kv.len() implies (#[trigger] kv[i]).len() > 0 && (
                forall|j2: int| 0 <= j2 < kv[i].len() ==> kv[i][j2] != sep()) by {
                    if i < srcv.len() {
                        assert(kv[i] == srcv[i]);
                    } else {
                        assert(kv[i] == relk(es[v as int])[i - srcv.len()]);
                    }
                }
            }
        }
        if entries[v].rel.len() == 1 && token.is_set() {
            let notice = clone_string(&entries[v].rel_str);
            return Ok(Some(notice));
        }
        let dest_abs = dest.join(&entries[v].rel);
        proof {
            assert(dest_abs@ == dk);
            assert(dest_abs.wf());
        }
        let ghost pre = *fs;
        if !entries[v].is_file {
            if fs.is_file_at(&dest_abs) {
                let e = TransferError::DestinationKindMismatch {
                    path: render_comps(&dest_abs.comps),
                    expected_dir: true,
                };
                proof {
                    assert(conflict_at(fs0, srcv, destv, ctx.force, kv));
                    assert(!strict_prefix_of(srcv, srcv));
                    assert(!strict_prefix_of(destv, srcv));
                    assert(fs.has(srcv) == fs0.has(srcv));
                    assert(fs.node_at(srcv) == fs0.node_at(srcv));
                    assert(key_of(dest_abs.comps@) == dest_abs@);
                    assert(destv + kv.skip(srcv.len() as int) == dk);
                    assert(fs0.has(kv) && strict_prefix_of(srcv, kv));
                    assert(fs.has(kv) && fs.node_at(kv) == fs0.node_at(kv));
                    assert(fs.has(dk) && fs.node_at(dk) == fs0.node_at(dk));
                    assert(fs0 == *old(fs));
                    assert(merge_conflict_err(fs0, *fs, srcv, destv, ctx.force, e));
                    assert(merge_conflict_err(*old(fs), *fs, src@, dest@, ctx.force, e)) by {
                        assert(old(fs).has(kv) && strict_prefix_of(src@, kv));
                        assert(conflict_at(*old(fs), src@, dest@, ctx.force, kv));
                    }
                }
                return Err(e);
            }
            if !fs.exists_at(&dest_abs) {
                fs.mk_dir(&dest_abs);
            }
        } else {
            if fs.is_dir_at(&dest_abs) {
                let e = TransferError::DestinationKindMismatch {
                    path: render_comps(&dest_abs.comps),
                    expected_dir: false,
                };
                proof {
                    assert(conflict_at(fs0, srcv, destv, ctx.force, kv));
                    assert(!strict_prefix_of(srcv, srcv));
                    assert(!strict_prefix_of(destv, srcv));
                    assert(fs.has(srcv) == fs0.has(srcv));
                    assert(fs.node_at(srcv) == fs0.node_at(srcv));
                    assert(key_of(dest_abs.comps@) == dest_abs@);
                    assert(destv + kv.skip(srcv.len() as int) == dk);
                    assert(fs0.has(kv) && strict_prefix_of(srcv, kv));
                    assert(fs.has(kv) && fs.node_at(kv) == fs0.node_at(kv));
                    assert(fs.has(dk) && fs.node_at(dk) == fs0.node_at(dk));
                    assert(fs0 == *old(fs));
                    assert(merge_conflict_err(fs0, *fs, srcv, destv, ctx.force, e));
                    assert(merge_conflict_err(*old(fs), *fs, src@, dest@, ctx.force, e)) by {
                        assert(old(fs).has(kv) && strict_prefix_of(src@, kv));
                        assert(conflict_at(*old(fs), src@, dest@, ctx.force, kv));
                    }
                }
                return Err(e);
            }
            if fs.is_file_at(&dest_abs) && !ctx.force {
                let e = TransferError::DestinationExists { path: render_comps(&dest_abs.comps) };
                proof {
                    assert(conflict_at(fs0, srcv, destv, ctx.force, kv));
                    assert(!strict_prefix_of(srcv, srcv));
                    assert(!strict_prefix_of(destv, srcv));
                    assert(fs.has(srcv) == fs0.has(srcv));
                    assert(fs.node_at(srcv) == fs0.node_at(srcv));
                    assert(key_of(dest_abs.comps@) == dest_abs@);
                    assert(destv + kv.skip(srcv.len() as int) == dk);
                    assert(fs0.has(kv) && strict_prefix_of(srcv, kv));
                    assert(fs.has(kv) && fs.node_at(kv) == fs0.node_at(kv));
                    assert(fs.has(dk) && fs.node_at(dk) == fs0.node_at(dk));
                    assert(fs0 == *old(fs));
                    assert(merge_conflict_err(fs0, *fs, srcv, destv, ctx.force, e));
                    assert(merge_conflict_err(*old(fs), *fs, src@, dest@, ctx.force, e)) by {
                        assert(old(fs).has(kv) && strict_prefix_of(src@, kv));
                        assert(conflict_at(*old(fs), src@, dest@, ctx.force, kv));
                    }
                }
                return Err(e);
            }
            let src_abs = src.join(&entries[v].rel);
            proof {
                assert(src_abs@ == kv);
                assert(src_abs.wf());
            }
            let bytes = match fs.read_file(&src_abs) {
                Some(b) => b,
                None => {
                    // An unprocessed source entry is still the regular
                    // file it was when the entries were gathered.
                    proof {
                        assert(fs.file_at(kv));
                        assert(false);
                    }
                    return Err(TransferError::SourceNotFound { path: render_comps(&src_abs.comps) });
                },
            };
            fs.write_file(&dest_abs, bytes);
            if is_move {
                let ghost mid = *fs;
                fs.remove_at(&src_abs);
                proof {
                    assert(fs.file_at(dk) && fs.bytes_at(dk) == fs0.bytes_at(kv)) by {
                        assert(kv != dk);
                        assert(mid.file_at(dk) && mid.bytes_at(dk) == fs0.bytes_at(kv));
                    }
                }
            }
        }
        p = p + 1;
        proof {
            let ghost pp = p as int;
            // every invariant, key by key: the step touched at most kv and dk
            assert forall|v2: int|
                0 <= v2 < es.len() && !((#[trigger] es[v2]).is_file && is_move && done_idx(
                    pm,
                    pp,
                    v2,
                )) implies fs.has(srcv + relk(es[v2])) && fs.node_at(srcv + relk(es[v2]))
                == fs0.node_at(srcv + relk(es[v2])) by {
                let k2 = srcv + relk(es[v2]);
                assert(strict_prefix_of(srcv, k2)) by {
                    assert(k2.take(srcv.len() as int) =~= srcv);
                }
                lemma_disjoint_keys(srcv, destv, k2, dk);
                assert(k2 != dk) by {
                    assert(strict_prefix_of(destv, dk));
                }
                if !done_idx(pm, pp - 1, v2) {
                    if v2 == v as int {
                        assert(!(es[v as int].is_file && is_move)) by {
                            if es[v as int].is_file && is_move {
                                assert(done_idx(pm, pp, v2)) by {
                                    assert(pm[pp - 1] == v);
                                }
                            }
                        }
                        assert(fs.has(k2) && fs.node_at(k2) == fs0.node_at(k2));
                    } else {
                        assert(k2 != kv) by {
                            if k2 == kv {
                                assert(k2.skip(srcv.len() as int) =~= relk(es[v2]));
                                assert(kv.skip(srcv.len() as int) =~= relk(es[v as int]));
                                assert(relk(es[v2]) == relk(es[v as int]));
                            }
                        }
                        assert(fs.has(k2) == pre.has(k2));
                        assert(pre.has(k2) ==> fs.node_at(k2) == pre.node_at(k2));
                    }
                } else {
                    assert(done_idx(pm, pp, v2)) by {
                        let q = choose|q: int| 0 <= q < pp - 1 && (#[trigger] pm[q]) == v2;
                        assert(pm[q] == v2);
                    }
                    assert(k2 != kv) by {
                        if v2 != v as int {
                            if k2 == kv {
                                assert(k2.skip(srcv.len() as int) =~= relk(es[v2]));
                                assert(kv.skip(srcv.len() as int) =~= relk(es[v as int]));
                            }
                        } else {
                            let q = choose|q: int| 0 <= q < pp - 1 && (#[trigger] pm[q]) == v2;
                            assert(pm[q] != pm[pp - 1]);
                            assert(pm[pp - 1] == v);
                            assert(false);
                        }
                    }
                    assert(fs.has(k2) == pre.has(k2));
                        assert(pre.has(k2) ==> fs.node_at(k2) == pre.node_at(k2));
                }
            }
            assert forall|v2: int|
                0 <= v2 < es.len() && (#[trigger] es[v2]).is_file && is_move && done_idx(pm, pp, v2)
                    implies !fs.has(srcv + relk(es[v2])) by {
                let k2 = srcv + relk(es[v2]);
                lemma_disjoint_keys(srcv, destv, k2, dk);
                assert(strict_prefix_of(srcv, k2)) by {
                    assert(k2.take(srcv.len() as int) =~= srcv);
                }
                assert(k2 != dk) by {
                    assert(strict_prefix_of(destv, dk));
                }
                if v2 == v as int {
                    assert(!fs.has(k2));
                } else {
                    assert(done_idx(pm, pp - 1, v2)) by {
                        let q = choose|q: int| 0 <= q < pp && (#[trigger] pm[q]) == v2;
                        assert(q != pp - 1) by {
                            assert(pm[pp - 1] == v);
                        }
                        assert(pm[q] == v2);
                    }
                    assert(!pre.has(k2));
                    assert(k2 != kv) by {
                        if k2 == kv {
                            assert(k2.skip(srcv.len() as int) =~= relk(es[v2]));
                            assert(kv.skip(srcv.len() as int) =~= relk(es[v as int]));
                        }
                    }
                }
            }
            assert forall|k: Seq<Seq<char>>|
                strict_prefix_of(srcv, k) && #[trigger] fs.has(k) implies fs0.has(k)
                && fs.node_at(k) == fs0.node_at(k) by {
                lemma_disjoint_keys(srcv, destv, k, dk);
                assert(k != dk) by {
                    assert(strict_prefix_of(destv, dk));
                }
                assert(fs.has(k) == pre.has(k));
                        assert(pre.has(k) ==> fs.node_at(k) == pre.node_at(k));
            }
            assert forall|v2: int| 0 <= v2 < es.len() && done_idx(pm, pp, v2) implies (
            if (#[trigger] es[v2]).is_file {
                fs.file_at(destv + relk(es[v2])) && fs.bytes_at(destv + relk(es[v2]))
                    == fs0.bytes_at(srcv + relk(es[v2]))
            } else {
                fs.dir_at(destv + relk(es[v2]))
            }) by {
                let dk2 = destv + relk(es[v2]);
                assert(strict_prefix_of(destv, dk2)) by {
                    assert(dk2.take(destv.len() as int) =~= destv);
                }
                lemma_disjoint_keys(srcv, destv, kv, dk2);
                assert(dk2 != kv) by {
                    assert(strict_prefix_of(srcv, kv));
                }
                if v2 == v as int {
                    assert(dk2 == dk);
                } else {
                    assert(dk2 != dk) by {
                        if dk2 == dk {
                            assert(dk2.skip(destv.len() as int) =~= relk(es[v2]));
                            assert(dk.skip(destv.len() as int) =~= relk(es[v as int]));
                        }
                    }
                    assert(done_idx(pm, pp - 1, v2)) by {
                        let q = choose|q: int| 0 <= q < pp && (#[trigger] pm[q]) == v2;
                        assert(q != pp - 1) by {
                            assert(pm[pp - 1] == v);
                        }
                        assert(pm[q] == v2);
                    }
                    assert(fs.has(dk2) == pre.has(dk2));
                        assert(pre.has(dk2) ==> fs.node_at(dk2) == pre.node_at(dk2));
                }
            }
            assert forall|k: Seq<Seq<char>>|
                strict_prefix_of(destv, k) && !dest_hit(es, pm, pp, destv, k) implies
                #[trigger] fs.has(k) == fs0.has(k) && (fs0.has(k) ==> fs.node_at(k) == fs0.node_at(
                k,
            )) by {
                assert(!dest_hit(es, pm, pp - 1, destv, k)) by {
                    if dest_hit(es, pm, pp - 1, destv, k) {
                        let q = choose|q: int|
                            0 <= q < pp - 1 && destv + relk(es[(#[trigger] pm[q]) as int]) == k;
                        assert(destv + relk(es[pm[q] as int]) == k);
                    }
                }
                assert(k != dk) by {
                    if k == dk {
                        assert(destv + relk(es[(pm[pp - 1]) as int]) == k) by {
                            assert(pm[pp - 1] == v);
                        }
                        assert(dest_hit(es, pm, pp, destv, k));
                    }
                }
                lemma_disjoint_keys(srcv, destv, kv, k);
                assert(k != kv) by {
                    assert(strict_prefix_of(srcv, kv));
                }
                assert(fs.has(k) == pre.has(k));
                        assert(pre.has(k) ==> fs.node_at(k) == pre.node_at(k));
            }
            assert forall|k: Seq<Seq<char>>|
                !strict_prefix_of(srcv, k) && !strict_prefix_of(destv, k) implies #[trigger] fs.has(
                k,
            ) == fs0.has(k) && (fs0.has(k) ==> fs.node_at(k) == fs0.node_at(k)) by {
                assert(k != kv) by {
                    assert(strict_prefix_of(srcv, kv));
                }
                assert(k != dk) by {
                    assert(strict_prefix_of(destv, dk));
                }
                assert(fs.has(k) == pre.has(k));
                        assert(pre.has(k) ==> fs.node_at(k) == pre.node_at(k));
            }
            assert forall|v2: int| 0 <= v2 < es.len() && done_idx(pm, pp, v2) implies !conflict_at(
                fs0,
                srcv,
                destv,
                ctx.force,
                srcv + relk(#[trigger] es[v2]),
            ) by {
                if v2 == v as int {
                    assert((srcv + relk(es[v2])).skip(srcv.len() as int) =~= relk(es[v2]));
                } else {
                    assert(done_idx(pm, pp - 1, v2)) by {
                        let q = choose|q: int| 0 <= q < pp && (#[trigger] pm[q]) == v2;
                        assert(q != pp - 1) by {
                            assert(pm[pp - 1] == v);
                        }
                        assert(pm[q] == v2);
                    }
                }
            }
        }
    }
    // every entry processed, no conflict anywhere
    proof {
        assert(!merge_conflict_exists(fs0, srcv, destv, ctx.force)) by {
            if merge_conflict_exists(fs0, srcv, destv, ctx.force) {
                let k = choose|k: Seq<Seq<char>>|
                    #[trigger] fs0.has(k) && strict_prefix_of(srcv, k) && conflict_at(
                        fs0,
                        srcv,
                        destv,
                        ctx.force,
                        k,
                    );
                let m = choose|m: int|
                    0 <= m < es.len() && relk(#[trigger] es[m]) == k.skip(srcv.len() as int);
                assert(srcv + relk(es[m]) =~= k);
                assert(in_perm(pm, m));
                let q = choose|q: int| 0 <= q < pm.len() && (#[trigger] pm[q]) == m;
                assert(done_idx(pm, pm.len() as int, m));
                assert(!conflict_at(fs0, srcv, destv, ctx.force, srcv + relk(es[m])));
                assert(false);
            }
        }
    }
    if is_move {
        let ghost fs2 = *fs;
        proof {
            assert(fs2.dir_at(srcv)) by {
                assert(!strict_prefix_of(srcv, srcv));
                assert(!strict_prefix_of(destv, srcv));
                assert(fs.has(srcv) == fs0.has(srcv));
                assert(fs0.has(srcv) ==> fs.node_at(srcv) == fs0.node_at(srcv));
            }
            assert forall|m: int|
                0 <= m < es.len() && (#[trigger] es[m]).is_file implies !fs2.has(
                srcv + relk(es[m]),
            ) by {
                assert(in_perm(pm, m));
                let q = choose|q: int| 0 <= q < pm.len() && (#[trigger] pm[q]) == m;
                assert(done_idx(pm, pm.len() as int, m));
            }
            assert forall|m: int|
                0 <= m < es.len() && !(#[trigger] es[m]).is_file implies fs2.dir_at(
                srcv + relk(es[m]),
            ) by {
                assert(fs2.has(srcv + relk(es[m])) && fs2.node_at(srcv + relk(es[m]))
                    == fs0.node_at(srcv + relk(es[m])));
            }
            assert forall|k: Seq<Seq<char>>|
                #[trigger] fs2.has(k) && strict_prefix_of(srcv, k) implies exists|m: int|
                0 <= m < es.len() && !(#[trigger] es[m]).is_file && k == srcv + relk(es[m]) by {
                assert(fs0.has(k));
                let m = choose|m: int|
                    0 <= m < es.len() && relk(#[trigger] es[m]) == k.skip(srcv.len() as int);
                assert(srcv + relk(es[m]) =~= k);
                if es[m].is_file {
                    assert(in_perm(pm, m));
                    let q = choose|q: int| 0 <= q < pm.len() && (#[trigger] pm[q]) == m;
                    assert(done_idx(pm, pm.len() as int, m));
                    assert(!fs2.has(k));
                    assert(false);
                }
                assert(!es[m].is_file && k == srcv + relk(es[m]));
            }
        }
        remove_source_dirs(fs, src, entries, perm);
        proof {
            assert forall|k: Seq<Seq<char>>|
                strict_prefix_of(destv, k) && !dest_hit(es, pm, pm.len() as int, destv, k) implies
                #[trigger] fs.has(k) == fs0.has(k) && (fs0.has(k) ==> fs.node_at(k) == fs0.node_at(
                k,
            )) by {
                lemma_disjoint_keys(srcv, destv, k, k);
                assert(!strict_prefix_of(srcv, k));
                assert(k != srcv);
                assert(fs.has(k) == fs2.has(k));
                assert(fs2.has(k) ==> fs.node_at(k) == fs2.node_at(k));
                assert(fs2.has(k) == fs0.has(k));
                assert(fs0.has(k) ==> fs2.node_at(k) == fs0.node_at(k));
            }
            assert forall|k: Seq<Seq<char>>|
                !strict_prefix_of(srcv, k) && !strict_prefix_of(destv, k) && k != srcv implies
                #[trigger] fs.has(k) == fs0.has(k) && (fs0.has(k) ==> fs.node_at(k) == fs0.node_at(
                k,
            )) by {
                assert(fs.has(k) == fs2.has(k));
                assert(fs2.has(k) ==> fs.node_at(k) == fs2.node_at(k));
                assert(fs2.has(k) == fs0.has(k));
                assert(fs0.has(k) ==> fs2.node_at(k) == fs0.node_at(k));
            }
            assert forall|v2: int| 0 <= v2 < es.len() && done_idx(pm, pm.len() as int, v2) implies (
            if (#[trigger] es[v2]).is_file {
                fs.file_at(destv + relk(es[v2])) && fs.bytes_at(destv + relk(es[v2]))
                    == fs0.bytes_at(srcv + relk(es[v2]))
            } else {
                fs.dir_at(destv + relk(es[v2]))
            }) by {
                let dk2 = destv + relk(es[v2]);
                assert(strict_prefix_of(destv, dk2)) by {
                    assert(dk2.take(destv.len() as int) =~= destv);
                }
                lemma_disjoint_keys(srcv, destv, dk2, dk2);
                assert(!strict_prefix_of(srcv, dk2));
                assert(dk2 != srcv);
                assert(fs.has(dk2) == fs2.has(dk2));
                assert(fs2.has(dk2) ==> fs.node_at(dk2) == fs2.node_at(dk2));
            }
        }
    }
    proof {
        // the finished merge, stated over the original tree
        assert(merge_ok(fs0, *fs, srcv, destv, ctx.mode.is_move())) by {
            assert forall|k: Seq<Seq<char>>|
                #[trigger] fs0.has(k) && strict_prefix_of(srcv, k) implies {
                let dk2 = destv + k.skip(srcv.len() as int);
                &&& (fs0.node_at(k) is File ==> fs.file_at(dk2) && fs.bytes_at(dk2)
                    == fs0.bytes_at(k))
                &&& (fs0.node_at(k) is Dir ==> fs.dir_at(dk2))
            } by {
                let m = choose|m: int|
                    0 <= m < es.len() && relk(#[trigger] es[m]) == k.skip(srcv.len() as int);
                assert(srcv + relk(es[m]) =~= k);
                assert(in_perm(pm, m));
                let q = choose|q: int| 0 <= q < pm.len() && (#[trigger] pm[q]) == m;
                assert(done_idx(pm, pm.len() as int, m));
                assert(es[m].is_file == (fs0.node_at(k) is File));
            }
            if ctx.mode.is_move() {
            } else {
                assert forall|k: Seq<Seq<char>>| strict_prefix_of(srcv, k) implies #[trigger] fs.has(
                    k,
                ) == fs0.has(k) && (fs0.has(k) ==> fs.node_at(k) == fs0.node_at(k)) by {
                    if fs0.has(k) {
                        let m = choose|m: int|
                            0 <= m < es.len() && relk(#[trigger] es[m]) == k.skip(
                                srcv.len() as int,
                            );
                        assert(srcv + relk(es[m]) =~= k);
                        assert(fs.has(k) && fs.node_at(k) == fs0.node_at(k)) by {
                            assert(!(es[m].is_file && ctx.mode.is_move() && done_idx(
                                pm,
                                pm.len() as int,
                                m,
                            )));
                        }
                    } else {
                        if fs.has(k) {
                            assert(fs0.has(k));
                        }
                    }
                }
                assert(!strict_prefix_of(srcv, srcv));
                assert(!strict_prefix_of(destv, srcv));
                assert(fs.has(srcv) == fs0.has(srcv));
                assert(fs0.has(srcv) ==> fs.node_at(srcv) == fs0.node_at(srcv));
            }
            assert forall|k: Seq<Seq<char>>|
                strict_prefix_of(destv, k) && !fs0.has(srcv + k.skip(destv.len() as int)) implies
                #[trigger] fs.has(k) == fs0.has(k) && (fs0.has(k) ==> fs.node_at(k) == fs0.node_at(
                k,
            )) by {
                assert(!dest_hit(es, pm, pm.len() as int, destv, k)) by {
                    if dest_hit(es, pm, pm.len() as int, destv, k) {
                        let q = choose|q: int|
                            0 <= q < pm.len() && destv + relk(es[(#[trigger] pm[q]) as int]) == k;
                        let m = pm[q] as int;
                        assert(entry_ok(fs0, srcv, es[m]));
                        assert((destv + relk(es[m])).skip(destv.len() as int) =~= relk(es[m]));
                        assert(fs0.has(srcv + relk(es[m])));
                        assert(false);
                    }
                }
                lemma_disjoint_keys(srcv, destv, k, k);
                assert(!strict_prefix_of(srcv, k));
                assert(k != srcv);
                assert(fs.has(k) == fs0.has(k));
                assert(fs0.has(k) ==> fs.node_at(k) == fs0.node_at(k));
            }
            assert forall|k: Seq<Seq<char>>|
                !strict_prefix_of(srcv, k) && !strict_prefix_of(destv, k) && k != srcv implies
                #[trigger] fs.has(k) == fs0.has(k) && (fs0.has(k) ==> fs.node_at(k) == fs0.node_at(
                k,
            )) by {}
            if ctx.mode.is_move() {
                assert(!fs.has(srcv));
            }
            assert(merge_translates(fs0, *fs, srcv, destv));
            assert(merge_source_side(fs0, *fs, srcv, ctx.mode.is_move()));
            assert(merge_preserves(fs0, *fs, srcv, destv));
            assert(merge_frame(fs0, *fs, srcv, destv));
        }
    }
    Ok(None)
}


/// How a merge ended when it did not fail: it ran to completion, or a
/// cancellation request stopped it at a top-level entry and the process
/// is expected to terminate with the distinguished cancellation status.
#[derive(Debug)]
pub enum MergeStatus {
    Finished(TransferOutcome),
    Cancelled { notice: String },
}

/// A file stands where a directory of the destination root path is
/// needed.
pub open spec fn dest_root_blocked(fs0: Fs, destv: Seq<Seq<char>>) -> bool {
    exists|l: int| 1 <= l <= destv.len() && fs0.file_at(#[trigger] destv.take(l))
}

/// Exactly which error stops a merge before any entry is processed: a
/// missing source, a source that is no directory, overlapping trees, a
/// destination that exists but is no directory, or a file blocking the
/// destination root path.
pub open spec fn merge_setup_err(
    fs0: Fs,
    srcv: Seq<Seq<char>>,
    destv: Seq<Seq<char>>,
    e: TransferError,
) -> bool {
    if !fs0.has(srcv) {
        e matches TransferError::SourceNotFound { path } && path@ == join_comps(srcv)
    } else if !(fs0.node_at(srcv) is Dir) {
        e matches TransferError::SourceWrongType { path, expected_dir } && path@ == join_comps(srcv)
            && expected_dir
    } else if !trees_disjoint(srcv, destv) {
        e matches TransferError::OverlappingTrees { from, to } && from@ == join_comps(srcv) && to@
            == join_comps(destv)
    } else if fs0.has(destv) && !(fs0.node_at(destv) is Dir) {
        e matches TransferError::DestinationKindMismatch { path, expected_dir } && path@
            == join_comps(destv) && expected_dir
    } else if !fs0.has(destv) && dest_root_blocked(fs0, destv) {
        e matches TransferError::NotADirectory { path } && path@ == join_comps(destv)
    } else {
        false
    }
}

/// What a finished merge guarantees of the whole tree, from the tree it
/// started on: the destination root and its missing parents exist as
/// directories, every source entry arrived, a move removed the source
/// tree, non-conflicting destination entries are untouched, and nothing
/// else changed.
pub open spec fn merge_or_copy_ok(
    fs0: Fs,
    fsf: Fs,
    srcv: Seq<Seq<char>>,
    destv: Seq<Seq<char>>,
    is_move: bool,
) -> bool {
    &&& dest_root_ok(fs0, fsf, destv)
    &&& merge_translates(fs0, fsf, srcv, destv)
    &&& merge_source_side(fs0, fsf, srcv, is_move)
    &&& merge_preserves(fs0, fsf, srcv, destv)
    &&& outer_frame_ok(fs0, fsf, srcv, destv)
}

/// The destination root and any of its missing parents exist as
/// directories afterwards; those that existed are untouched.
pub open spec fn dest_root_ok(fs0: Fs, fsf: Fs, destv: Seq<Seq<char>>) -> bool {
    &&& fsf.dir_at(destv)
    &&& forall|k: Seq<Seq<char>>|
        prefix_of(k, destv) && fs0.has(k) ==> #[trigger] fsf.has(k) && fsf.node_at(k)
            == fs0.node_at(k)
    &&& (!fs0.has(destv) ==> forall|k: Seq<Seq<char>>|
        prefix_of(k, destv) ==> #[trigger] fsf.dir_at(k))
}

/// Nothing outside the two trees and the destination root path changes.
pub open spec fn outer_frame_ok(
    fs0: Fs,
    fsf: Fs,
    srcv: Seq<Seq<char>>,
    destv: Seq<Seq<char>>,
) -> bool {
    forall|k: Seq<Seq<char>>|
        !strict_prefix_of(srcv, k) && !strict_prefix_of(destv, k) && k != srcv && !prefix_of(
            k,
            destv,
        ) ==> #[trigger] fsf.has(k) == fs0.has(k) && (fs0.has(k) ==> fsf.node_at(k)
            == fs0.node_at(k))
}

/// A key under the source tree never lies on the destination root path.
proof fn lemma_under_src_off_dest_path(srcv: Seq<Seq<char>>, destv: Seq<Seq<char>>, k: Seq<Seq<char>>)
    requires
        trees_disjoint(srcv, destv),
        strict_prefix_of(srcv, k),
    ensures
        !prefix_of(k, destv),
{
    if prefix_of(k, destv) {
        assert(destv.take(k.len() as int).take(srcv.len() as int) =~= destv.take(
            srcv.len() as int,
        ));
        assert(destv.take(srcv.len() as int) == srcv);
        assert(strict_prefix_of(srcv, destv));
    }
}

/// The source side of a finished merge, carried back over the
/// destination-root creation step.
proof fn lemma_source_side_from(
    fs0: Fs,
    fs1: Fs,
    fsf: Fs,
    srcv: Seq<Seq<char>>,
    destv: Seq<Seq<char>>,
    is_move: bool,
)
    requires
        forall|k: Seq<Seq<char>>| !prefix_of(k, destv) ==> #[trigger] fs1.has(k) == fs0.has(k),
        forall|k: Seq<Seq<char>>|
            !prefix_of(k, destv) && fs0.has(k) ==> #[trigger] fs1.node_at(k) == fs0.node_at(k),
        trees_disjoint(srcv, destv),
        srcv.len() > 0,
        merge_source_side(fs1, fsf, srcv, is_move),
    ensures
        merge_source_side(fs0, fsf, srcv, is_move),
{
    if !is_move {
        assert(!prefix_of(srcv, destv)) by {
            if prefix_of(srcv, destv) {
                if srcv.len() == destv.len() {
                    assert(srcv =~= destv);
                } else {
                    assert(strict_prefix_of(srcv, destv));
                }
            }
        }
        assert(fs1.has(srcv) == fs0.has(srcv));
        assert(fs0.has(srcv) ==> fs1.node_at(srcv) == fs0.node_at(srcv));
        assert forall|k: Seq<Seq<char>>| strict_prefix_of(srcv, k) implies #[trigger] fsf.has(k)
            == fs0.has(k) && (fs0.has(k) ==> fsf.node_at(k) == fs0.node_at(k)) by {
            lemma_under_src_off_dest_path(srcv, destv, k);
            assert(fs1.has(k) == fs0.has(k));
            assert(fs0.has(k) ==> fs1.node_at(k) == fs0.node_at(k));
            assert(fsf.has(k) == fs1.has(k));
            assert(fs1.has(k) ==> fsf.node_at(k) == fs1.node_at(k));
        }
    }
}

/// Chains the destination-root creation frame with the merge frame.
proof fn lemma_outer_frame(fs0: Fs, fs1: Fs, fsf: Fs, srcv: Seq<Seq<char>>, destv: Seq<Seq<char>>)
    requires
        forall|k: Seq<Seq<char>>| !prefix_of(k, destv) ==> #[trigger] fs1.has(k) == fs0.has(k),
        forall|k: Seq<Seq<char>>|
            !prefix_of(k, destv) && fs0.has(k) ==> #[trigger] fs1.node_at(k) == fs0.node_at(k),
        merge_frame(fs1, fsf, srcv, destv),
    ensures
        outer_frame_ok(fs0, fsf, srcv, destv),
{
    assert forall|k: Seq<Seq<char>>|
        !strict_prefix_of(srcv, k) && !strict_prefix_of(destv, k) && k != srcv && !prefix_of(
            k,
            destv,
        ) implies #[trigger] fsf.has(k) == fs0.has(k) && (fs0.has(k) ==> fsf.node_at(k)
        == fs0.node_at(k)) by {
        assert(fs1.has(k) == fs0.has(k));
        assert(fs0.has(k) ==> fs1.node_at(k) == fs0.node_at(k));
        assert(fsf.has(k) == fs1.has(k));
        assert(fs1.has(k) ==> fsf.node_at(k) == fs1.node_at(k));
    }
}

/// Merge one source directory into the destination: validate both ends,
/// create the destination root if missing, then reconcile the trees in
/// deterministic order under the conflict policy, polling the
/// cancellation token at top-level entries.
#[verifier::rlimit(100)]
#[verifier::spinoff_prover]
pub fn merge_or_copy(
    fs: &mut Fs,
    src: &FsPath,
    dest: &FsPath,
    ctx: &TransferContext,
    token: &CancelToken,
) -> (r: Result<MergeStatus, TransferError>)
    requires
        old(fs).wf(),
        src.wf(),
        dest.wf(),
    ensures
        final(fs).wf(),
        match r {
            Err(e) => (merge_setup_err(*old(fs), src@, dest@, e) && fs_unchanged(
                *old(fs),
                *final(fs),
            )) || merge_conflict_err(*old(fs), *final(fs), src@, dest@, ctx.force, e),
            Ok(MergeStatus::Finished(out)) => {
                &&& old(fs).dir_at(src@)
                &&& trees_disjoint(src@, dest@)
                &&& !merge_conflict_exists(*old(fs), src@, dest@, ctx.force)
                &&& merge_or_copy_ok(*old(fs), *final(fs), src@, dest@, ctx.mode.is_move())
                &&& out.message@ == arrow_message(
                    join_comps(src@),
                    join_comps(dest@),
                    ctx.mode,
                )
                &&& out.bytes == (if tree_bytes_under(old(fs).entries@, src@) <= u64::MAX {
                    tree_bytes_under(old(fs).entries@, src@)
                } else {
                    u64::MAX as int
                })
            },
            Ok(MergeStatus::Cancelled { .. }) => token.set,
        },
{
    let ghost fs0 = *fs;
    let ghost srcv = src@;
    let ghost destv = dest@;
    if !fs.exists_at(src) {
        return Err(TransferError::SourceNotFound { path: render_comps(&src.comps) });
    }
    if !fs.is_dir_at(src) {
        return Err(
            TransferError::SourceWrongType { path: render_comps(&src.comps), expected_dir: true },
        );
    }
    proof {
        fs.lemma_key_wf(srcv);
    }
    if comps_eq(&src.comps, &dest.comps) || comps_strict_prefix(&src.comps, &dest.comps)
        || comps_strict_prefix(&dest.comps, &src.comps) {
        proof {
            assert(key_of(src.comps@) == srcv);
            assert(key_of(dest.comps@) == destv);
        }
        return Err(
            TransferError::OverlappingTrees {
                from: render_comps(&src.comps),
                to: render_comps(&dest.comps),
            },
        );
    }
    proof {
        assert(trees_disjoint(srcv, destv));
    }
    let dest_exists = fs.exists_at(dest);
    if dest_exists {
        if !fs.is_dir_at(dest) {
            return Err(
                TransferError::DestinationKindMismatch {
                    path: render_comps(&dest.comps),
                    expected_dir: true,
                },
            );
        }
    }
    // Gather and order the source entries before anything is created.
    let mut total: u64 = 0;
    let entries = collect_entries_under(fs, src, &mut total);
    let perm = sorted_order(&entries);
    if !dest_exists {
        if !fs.create_dir_all(dest) {
            proof {
                assert(dest_root_blocked(fs0, destv));
                assert forall|k: Seq<Seq<char>>| #[trigger] fs.has(k) == fs0.has(k) by {}
                assert forall|k: Seq<Seq<char>>| fs0.has(k) implies #[trigger] fs.node_at(k)
                    == fs0.node_at(k) by {
                    assert(fs.has(k) == fs0.has(k));
                }
            }
            return Err(TransferError::NotADirectory { path: render_comps(&dest.comps) });
        }
    }
    let ghost fs1 = *fs;
    proof {
        assert(fs1.dir_at(destv)) by {
            if !dest_exists {
                assert(destv.take(destv.len() as int) =~= destv);
                assert(destv.len() > 0) by {
                    if destv.len() == 0 {
                        assert(strict_prefix_of(destv, srcv)) by {
                            assert(srcv.take(0) =~= destv);
                        }
                    }
                }
            }
        }
        // Everything outside the destination root path is as it was.
        assert forall|k: Seq<Seq<char>>| !prefix_of(k, destv) implies #[trigger] fs1.has(k)
            == fs0.has(k) by {
            if !dest_exists {
                assert(fs.has(k) == fs0.has(k));
            }
        }
        assert forall|k: Seq<Seq<char>>| !prefix_of(k, destv) && fs0.has(k) implies
            #[trigger] fs1.node_at(k) == fs0.node_at(k) by {
            if !dest_exists {
                assert(fs.has(k) == fs0.has(k));
                assert(fs0.has(k) ==> fs.node_at(k) == fs0.node_at(k));
            }
        }
        // The source subtree in particular: entry facts carry over.
        assert(fs1.dir_at(srcv)) by {
            assert(!prefix_of(srcv, destv)) by {
                if prefix_of(srcv, destv) {
                    if srcv.len() == destv.len() {
                        assert(srcv =~= destv);
                    } else {
                        assert(strict_prefix_of(srcv, destv));
                    }
                }
            }
        }
        assert forall|m: int| 0 <= m < entries@.len() implies entry_ok(
            fs1,
            srcv,
            #[trigger] entries@[m],
        ) by {
            assert(entry_ok(fs0, srcv, entries@[m]));
            let k = srcv + relk(entries@[m]);
            assert(!prefix_of(k, destv)) by {
                assert(strict_prefix_of(srcv, k)) by {
                    assert(k.take(srcv.len() as int) =~= srcv);
                }
                if prefix_of(k, destv) {
                    if k.len() == destv.len() {
                        assert(k =~= destv);
                        assert(strict_prefix_of(srcv, destv));
                    } else {
                        assert(strict_prefix_of(k, destv));
                        assert(strict_prefix_of(srcv, destv)) by {
                            assert(destv.take(k.len() as int).take(srcv.len() as int)
                                =~= destv.take(srcv.len() as int));
                        }
                    }
                }
            }
            assert(fs1.has(k) == fs0.has(k));
            assert(fs0.has(k) ==> fs1.node_at(k) == fs0.node_at(k));
        }
        assert forall|k: Seq<Seq<char>>|
            #[trigger] fs1.has(k) && strict_prefix_of(srcv, k) implies exists|m: int|
            0 <= m < entries@.len() && relk(#[trigger] entries@[m]) == k.skip(srcv.len() as int) by {
            assert(!prefix_of(k, destv)) by {
                if prefix_of(k, destv) {
                    if k.len() == destv.len() {
                        assert(k =~= destv);
                        assert(strict_prefix_of(srcv, destv));
                    } else {
                        assert(strict_prefix_of(k, destv));
                        assert(strict_prefix_of(srcv, destv)) by {
                            assert(destv.take(k.len() as int).take(srcv.len() as int)
                                =~= destv.take(srcv.len() as int));
                        }
                    }
                }
            }
            assert(fs0.has(k));
        }
    }
    let status = merge(fs, src, dest, ctx, token, &entries, &perm);
    match status {
        Err(e) => {
            proof {
                // A conflict error over the tree the merge saw is one
                // over the original tree: they agree on both subtrees.
                assert(merge_conflict_err(fs0, *fs, srcv, destv, ctx.force, e)) by {
                    let k = choose|k: Seq<Seq<char>>|
                        {
                            let dk = destv + k.skip(srcv.len() as int);
                            &&& #[trigger] fs1.has(k)
                            &&& strict_prefix_of(srcv, k)
                            &&& conflict_at(fs1, srcv, destv, ctx.force, k)
                            &&& (match e {
                                TransferError::DestinationExists { path } => path@ == join_comps(dk)
                                    && fs1.node_at(k) is File && fs1.file_at(dk) && !ctx.force,
                                TransferError::DestinationKindMismatch { path, expected_dir } => path@
                                    == join_comps(dk) && (if expected_dir {
                                    fs1.node_at(k) is Dir && fs1.file_at(dk)
                                } else {
                                    fs1.node_at(k) is File && fs1.dir_at(dk)
                                }),
                                _ => false,
                            })
                            &&& fs.has(k) && fs.node_at(k) == fs1.node_at(k)
                            &&& fs.has(dk) && fs.node_at(dk) == fs1.node_at(dk)
                            &&& fs.has(srcv) && fs.node_at(srcv) == fs1.node_at(srcv)
                        };
                    let dk = destv + k.skip(srcv.len() as int);
                    assert(!prefix_of(k, destv)) by {
                        if prefix_of(k, destv) {
                            if k.len() == destv.len() {
                                assert(k =~= destv);
                                assert(strict_prefix_of(srcv, destv));
                            } else {
                                assert(strict_prefix_of(k, destv));
                                assert(strict_prefix_of(srcv, destv)) by {
                                    assert(destv.take(k.len() as int).take(srcv.len() as int)
                                        =~= destv.take(srcv.len() as int));
                                }
                            }
                        }
                    }
                    assert(!prefix_of(dk, destv)) by {
                        assert(dk.len() > destv.len()) by {
                            assert(k.skip(srcv.len() as int).len() > 0);
                        }
                    }
                    assert(!prefix_of(srcv, destv)) by {
                        if prefix_of(srcv, destv) {
                            if srcv.len() == destv.len() {
                                assert(srcv =~= destv);
                            } else {
                                assert(strict_prefix_of(srcv, destv));
                            }
                        }
                    }
                    assert(fs0.has(k) && fs0.node_at(k) == fs1.node_at(k));
                    assert(fs0.has(dk) == fs1.has(dk) && (fs0.has(dk) ==> fs0.node_at(dk)
                        == fs1.node_at(dk)));
                    assert(fs0.has(srcv) && fs0.node_at(srcv) == fs1.node_at(srcv));
                    assert(conflict_at(fs0, srcv, destv, ctx.force, k));
                }
            }
            Err(e)
        },
        Ok(Some(notice)) => Ok(MergeStatus::Cancelled { notice }),
        Ok(None) => {
            proof {
                // The finished merge, stated over the original tree.
                assert(!merge_conflict_exists(fs0, srcv, destv, ctx.force)) by {
                    if merge_conflict_exists(fs0, srcv, destv, ctx.force) {
                        let k = choose|k: Seq<Seq<char>>|
                            #[trigger] fs0.has(k) && strict_prefix_of(srcv, k) && conflict_at(
                                fs0,
                                srcv,
                                destv,
                                ctx.force,
                                k,
                            );
                        let dk = destv + k.skip(srcv.len() as int);
                        assert(!prefix_of(k, destv)) by {
                            if prefix_of(k, destv) {
                                if k.len() == destv.len() {
                                    assert(k =~= destv);
                                    assert(strict_prefix_of(srcv, destv));
                                } else {
                                    assert(strict_prefix_of(k, destv));
                                    assert(strict_prefix_of(srcv, destv)) by {
                                        assert(destv.take(k.len() as int).take(srcv.len() as int)
                                            =~= destv.take(srcv.len() as int));
                                    }
                                }
                            }
                        }
                        assert(!prefix_of(dk, destv)) by {
                            assert(dk.len() > destv.len()) by {
                                assert(k.skip(srcv.len() as int).len() > 0);
                            }
                        }
                        assert(fs1.has(k) == fs0.has(k));
                        assert(fs0.has(k) ==> fs1.node_at(k) == fs0.node_at(k));
                        assert(fs1.has(k) && fs1.node_at(k) == fs0.node_at(k));
                        assert(fs1.has(dk) == fs0.has(dk));
                        assert(fs0.has(dk) ==> fs1.node_at(dk) == fs0.node_at(dk));
                        assert(conflict_at(fs1, srcv, destv, ctx.force, k));
                        assert(merge_conflict_exists(fs1, srcv, destv, ctx.force));
                    }
                }
                assert(merge_or_copy_ok(fs0, *fs, srcv, destv, ctx.mode.is_move())) by {
                    assert(merge_ok(fs1, *fs, srcv, destv, ctx.mode.is_move()));
                    assert(!prefix_of(srcv, destv)) by {
                        if prefix_of(srcv, destv) {
                            if srcv.len() == destv.len() {
                                assert(srcv =~= destv);
                            } else {
                                assert(strict_prefix_of(srcv, destv));
                            }
                        }
                    }
                    // the destination root and its parents
                    assert(fs.dir_at(destv)) by {
                        assert(!strict_prefix_of(srcv, destv));
                        assert(!strict_prefix_of(destv, destv));
                        assert(fs.has(destv) == fs1.has(destv));
                        assert(fs1.has(destv) ==> fs.node_at(destv) == fs1.node_at(destv));
                    }
                    assert forall|k: Seq<Seq<char>>| prefix_of(k, destv) && fs0.has(k) implies
                        #[trigger] fs.has(k) && fs.node_at(k) == fs0.node_at(k) by {
                        assert(!strict_prefix_of(destv, k));
                        assert(!strict_prefix_of(srcv, k)) by {
                            if strict_prefix_of(srcv, k) {
                                if k.len() == destv.len() {
                                    assert(k =~= destv);
                                    assert(strict_prefix_of(srcv, destv));
                                } else {
                                    assert(strict_prefix_of(k, destv));
                                    assert(strict_prefix_of(srcv, destv)) by {
                                        assert(destv.take(k.len() as int).take(srcv.len() as int)
                                            =~= destv.take(srcv.len() as int));
                                    }
                                }
                            }
                        }
                        assert(k != srcv) by {
                            if k == srcv {
                                assert(prefix_of(srcv, destv));
                            }
                        }
                        assert(fs1.has(k) && fs1.node_at(k) == fs0.node_at(k)) by {
                            if dest_exists {
                            } else {
                                assert(!fs0.file_at(k)) by {
                                    assert(destv.take(k.len() as int) == k);
                                    assert(1 <= k.len() <= destv.len());
                                }
                                assert(fs1.dir_at(k)) by {
                                    assert(destv.take(k.len() as int) == k);
                                }
                                assert(fs0.node_at(k) is Dir);
                            }
                        }
                        assert(fs.has(k) == fs1.has(k));
                        assert(fs1.has(k) ==> fs.node_at(k) == fs1.node_at(k));
                    }
                    if !fs0.has(destv) {
                        assert forall|k: Seq<Seq<char>>| prefix_of(k, destv) implies
                            #[trigger] fs.dir_at(k) by {
                            assert(fs1.dir_at(k)) by {
                                assert(destv.take(k.len() as int) == k);
                            }
                            assert(!strict_prefix_of(destv, k));
                            assert(!strict_prefix_of(srcv, k)) by {
                                if strict_prefix_of(srcv, k) {
                                    if k.len() == destv.len() {
                                        assert(k =~= destv);
                                        assert(strict_prefix_of(srcv, destv));
                                    } else {
                                        assert(strict_prefix_of(k, destv));
                                        assert(strict_prefix_of(srcv, destv)) by {
                                            assert(destv.take(k.len() as int).take(
                                                srcv.len() as int,
                                            ) =~= destv.take(srcv.len() as int));
                                        }
                                    }
                                }
                            }
                            assert(k != srcv) by {
                                if k == srcv {
                                    assert(prefix_of(srcv, destv));
                                }
                            }
                            assert(fs.has(k) == fs1.has(k));
                            assert(fs1.has(k) ==> fs.node_at(k) == fs1.node_at(k));
                        }
                    }
                    // the source subtree agreed on both trees
                    assert forall|k: Seq<Seq<char>>|
                        #[trigger] fs0.has(k) && strict_prefix_of(srcv, k) implies {
                        let dk = destv + k.skip(srcv.len() as int);
                        &&& (fs0.node_at(k) is File ==> fs.file_at(dk) && fs.bytes_at(dk)
                            == fs0.bytes_at(k))
                        &&& (fs0.node_at(k) is Dir ==> fs.dir_at(dk))
                    } by {
                        let dk = destv + k.skip(srcv.len() as int);
                        assert(!prefix_of(k, destv)) by {
                            if prefix_of(k, destv) {
                                if k.len() == destv.len() {
                                    assert(k =~= destv);
                                    assert(strict_prefix_of(srcv, destv));
                                } else {
                                    assert(strict_prefix_of(k, destv));
                                    assert(strict_prefix_of(srcv, destv)) by {
                                        assert(destv.take(k.len() as int).take(srcv.len() as int)
                                            =~= destv.take(srcv.len() as int));
                                    }
                                }
                            }
                        }
                        assert(fs1.has(k) == fs0.has(k));
                        assert(fs0.has(k) ==> fs1.node_at(k) == fs0.node_at(k));
                        assert(fs1.has(k) && fs1.node_at(k) == fs0.node_at(k));
                    }
                    // the copy case: the source side of the original tree
                    if !ctx.mode.is_move() {
                        assert forall|k: Seq<Seq<char>>| strict_prefix_of(srcv, k) implies
                            #[trigger] fs.has(k) == fs0.has(k) && (fs0.has(k) ==> fs.node_at(k)
                            == fs0.node_at(k)) by {
                            assert(!prefix_of(k, destv)) by {
                                if prefix_of(k, destv) {
                                    if k.len() == destv.len() {
                                        assert(k =~= destv);
                                        assert(strict_prefix_of(srcv, destv));
                                    } else {
                                        assert(strict_prefix_of(k, destv));
                                        assert(strict_prefix_of(srcv, destv)) by {
                                            assert(destv.take(k.len() as int).take(
                                                srcv.len() as int,
                                            ) =~= destv.take(srcv.len() as int));
                                        }
                                    }
                                }
                            }
                            assert(fs1.has(k) == fs0.has(k));
            assert(fs0.has(k) ==> fs1.node_at(k) == fs0.node_at(k));
                            assert(fs.has(k) == fs1.has(k));
                        assert(fs1.has(k) ==> fs.node_at(k) == fs1.node_at(k));
                        }
                        assert(!prefix_of(srcv, destv));
                        assert(fs1.has(srcv) == fs0.has(srcv) && (fs0.has(srcv) ==> fs1.node_at(
                            srcv,
                        ) == fs0.node_at(srcv)));
                    }
                    // destination entries with no source counterpart
                    assert forall|k: Seq<Seq<char>>|
                        strict_prefix_of(destv, k) && !fs0.has(srcv + k.skip(destv.len() as int))
                            implies #[trigger] fs.has(k) == fs0.has(k) && (fs0.has(k)
                        ==> fs.node_at(k) == fs0.node_at(k)) by {
                        assert(!prefix_of(k, destv));
                        assert(fs1.has(k) == fs0.has(k));
            assert(fs0.has(k) ==> fs1.node_at(k) == fs0.node_at(k));
                        let ck = srcv + k.skip(destv.len() as int);
                        assert(!fs1.has(ck)) by {
                            assert(strict_prefix_of(srcv, ck)) by {
                                assert(ck.take(srcv.len() as int) =~= srcv);
                                assert(k.skip(destv.len() as int).len() > 0);
                            }
                            assert(!prefix_of(ck, destv)) by {
                                if prefix_of(ck, destv) {
                                    if ck.len() == destv.len() {
                                        assert(ck =~= destv);
                                        assert(strict_prefix_of(srcv, destv));
                                    } else {
                                        assert(strict_prefix_of(ck, destv));
                                        assert(strict_prefix_of(srcv, destv)) by {
                                            assert(destv.take(ck.len() as int).take(
                                                srcv.len() as int,
                                            ) =~= destv.take(srcv.len() as int));
                                        }
                                    }
                                }
                            }
                            assert(fs1.has(ck) == fs0.has(ck));
                        }
                        assert((srcv + k.skip(destv.len() as int)) == ck);
                        assert(fs.has(k) == fs1.has(k));
                        assert(fs1.has(k) ==> fs.node_at(k) == fs1.node_at(k));
                    }
                    // the global frame
                    assert forall|k: Seq<Seq<char>>|
                        !strict_prefix_of(srcv, k) && !strict_prefix_of(destv, k) && k != srcv
                            && !prefix_of(k, destv) implies #[trigger] fs.has(k) == fs0.has(k) && (
                        fs0.has(k) ==> fs.node_at(k) == fs0.node_at(k)) by {
                        assert(fs1.has(k) == fs0.has(k));
                        assert(fs0.has(k) ==> fs1.node_at(k) == fs0.node_at(k));
                        assert(fs.has(k) == fs1.has(k));
                        assert(fs1.has(k) ==> fs.node_at(k) == fs1.node_at(k));
                    }
                    assert(dest_root_ok(fs0, *fs, destv));
                    assert(merge_translates(fs0, *fs, srcv, destv));
                    lemma_source_side_from(fs0, fs1, *fs, srcv, destv, ctx.mode.is_move());
                    assert(merge_source_side(fs0, *fs, srcv, ctx.mode.is_move()));
                    assert(merge_preserves(fs0, *fs, srcv, destv));
                    lemma_outer_frame(fs0, fs1, *fs, srcv, destv);
                    assert(outer_frame_ok(fs0, *fs, srcv, destv));
                }
            }
            let src_text = render_comps(&src.comps);
            let dest_text = render_comps(&dest.comps);
            let msg = message_with_arrow(src_text.as_str(), dest_text.as_str(), &ctx.mode);
            Ok(MergeStatus::Finished(TransferOutcome { bytes: total, message: msg }))
        },
    }
}


/// Every regular file strictly under `dir`, as full paths.
pub fn collect_files_in_dir(fs: &Fs, dir: &FsPath) -> (r: Vec<FsPath>)
    requires
        fs.wf(),
        dir.wf(),
    ensures
        forall|m: int|
            0 <= m < r@.len() ==> fs.file_at((#[trigger] r@[m])@) && strict_prefix_of(
                dir@,
                r@[m]@,
            ),
        forall|k: Seq<Seq<char>>|
            #[trigger] fs.has(k) && strict_prefix_of(dir@, k) && fs.node_at(k) is File
                ==> exists|m: int| 0 <= m < r@.len() && (#[trigger] r@[m])@ == k,
{
    let mut ignored_total: u64 = 0;
    let entries = collect_entries_under(fs, dir, &mut ignored_total);
    let ghost es = entries@;
    let mut r: Vec<FsPath> = Vec::new();
    let mut i: usize = 0;
    while i < entries.len()
        invariant
            fs.wf(),
            dir.wf(),
            es == entries@,
            i <= es.len(),
            forall|m: int| 0 <= m < es.len() ==> entry_ok(*fs, dir@, #[trigger] es[m]),
            forall|m: int|
                0 <= m < r@.len() ==> fs.file_at((#[trigger] r@[m])@) && strict_prefix_of(
                    dir@,
                    r@[m]@,
                ),
            forall|m: int|
                0 <= m < i && (#[trigger] es[m]).is_file ==> exists|m2: int|
                    0 <= m2 < r@.len() && (#[trigger] r@[m2])@ == dir@ + relk(es[m]),
        decreases es.len() - i,
    {
        let ghost pre = r@;
        if entries[i].is_file {
            let p = dir.join(&entries[i].rel);
            proof {
                assert(p@ == dir@ + relk(es[i as int]));
                assert(strict_prefix_of(dir@, p@)) by {
                    assert(p@.take(dir@.len() as int) =~= dir@);
                }
            }
            r.push(p);
            proof {
                assert(r@[r@.len() - 1]@ == dir@ + relk(es[i as int]));
                assert(forall|m2: int| 0 <= m2 < pre.len() ==> r@[m2] == pre[m2]);
            }
        }
        i = i + 1;
        proof {
            assert forall|m: int| 0 <= m < i && (#[trigger] es[m]).is_file implies exists|m2: int|
                0 <= m2 < r@.len() && (#[trigger] r@[m2])@ == dir@ + relk(es[m]) by {
                if m < i - 1 {
                    let m2 = choose|m2: int|
                        0 <= m2 < pre.len() && (#[trigger] pre[m2])@ == dir@ + relk(es[m]);
                    assert(r@[m2]@ == dir@ + relk(es[m]));
                } else {
                    assert(r@[r@.len() - 1]@ == dir@ + relk(es[m]));
                }
            }
        }
    }
    proof {
        assert forall|k: Seq<Seq<char>>|
            #[trigger] fs.has(k) && strict_prefix_of(dir@, k) && fs.node_at(k) is File implies
            exists|m: int| 0 <= m < r@.len() && (#[trigger] r@[m])@ == k by {
            let m = choose|m: int|
                0 <= m < es.len() && relk(#[trigger] es[m]) == k.skip(dir@.len() as int);
            assert(dir@ + relk(es[m]) =~= k);
            assert(es[m].is_file);
            let m2 = choose|m2: int| 0 <= m2 < r@.len() && (#[trigger] r@[m2])@ == dir@ + relk(es[m]);
            assert(r@[m2]@ == k);
        }
    }
    r
}

/// The byte total of the listed paths that are regular files, one
/// contribution per list position, held to the counter's range.
pub open spec fn total_size_of(fs: Fs, files: Seq<FsPath>) -> int
    decreases files.len(),
{
    if files.len() == 0 {
        0
    } else {
        total_size_of(fs, files.drop_last()) + (if fs.file_at(files.last()@) {
            fs.bytes_at(files.last()@).len() as int
        } else {
            0
        })
    }
}

/// Sum the sizes of the listed files; paths that name no regular file
/// contribute nothing, and the sum saturates at the counter's range.
pub fn get_total_size_of_files(fs: &Fs, files: &Vec<FsPath>) -> (r: u64)
    requires
        fs.wf(),
    ensures
        r == (if total_size_of(*fs, files@) <= u64::MAX {
            total_size_of(*fs, files@)
        } else {
            u64::MAX as int
        }),
{
    let mut r: u64 = 0;
    let mut i: usize = 0;
    proof {
        assert(files@.take(0) =~= Seq::<FsPath>::empty());
    }
    while i < files.len()
        invariant
            fs.wf(),
            i <= files@.len(),
            r == (if total_size_of(*fs, files@.take(i as int)) <= u64::MAX {
                total_size_of(*fs, files@.take(i as int))
            } else {
                u64::MAX as int
            }),
        decreases files@.len() - i,
    {
        let ghost pre_total = total_size_of(*fs, files@.take(i as int));
        let size: u64 = match fs.read_file(&files[i]) {
            Some(bytes) => bytes.len() as u64,
            None => 0,
        };
        if size <= u64::MAX - r {
            r = r + size;
        } else {
            r = u64::MAX;
        }
        i = i + 1;
        proof {
            assert(files@.take(i as int).drop_last() =~= files@.take(i - 1));
            assert(files@.take(i as int).last() == files@[i - 1]);
            assert(total_size_of(*fs, files@.take(i as int)) == pre_total + (if fs.file_at(
                files@[i - 1]@,
            ) {
                fs.bytes_at(files@[i - 1]@).len() as int
            } else {
                0
            }));
        }
    }
    proof {
        assert(files@.take(files@.len() as int) =~= files@);
    }
    r
}

} // verus!
