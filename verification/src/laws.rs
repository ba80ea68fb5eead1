//! The laws of the transfer engine, each proved from the contracts the
//! operations already carry: what a move and a copy leave behind, how
//! conflicts are decided, what a merge preserves, which batches are
//! rejected, and what a trailing-separator destination means.

use vstd::prelude::*;
use crate::error::TransferError;
use crate::file::{file_transfer_err, file_transfer_ok, parent_blocked, resolved_file_dest};
use crate::dir::{merge_conflict_err, merge_or_copy_ok};
use crate::fsmodel::{Fs, strict_prefix_of};
use crate::path::{FsPath, join_comps};
use crate::{batch_validation_err};

verus! {

/// Moving a regular file leaves the source gone and the resolved
/// destination holding exactly the source's bytes — for every file and
/// every destination that does not resolve to the source itself.
pub proof fn lemma_move_relocates(
    fs0: Fs,
    fs1: Fs,
    srcv: Seq<Seq<char>>,
    destv: Seq<Seq<char>>,
    trailing: bool,
)
    requires
        file_transfer_ok(fs0, fs1, srcv, destv, trailing, true),
        resolved_file_dest(fs0, srcv, destv, trailing) != srcv,
    ensures
        !fs1.has(srcv),
        fs1.file_at(resolved_file_dest(fs0, srcv, destv, trailing)),
        fs1.bytes_at(resolved_file_dest(fs0, srcv, destv, trailing)) == fs0.bytes_at(srcv),
{
}

/// Copying a regular file leaves both the source and the resolved
/// destination in place, with identical bytes.
pub proof fn lemma_copy_preserves_source(
    fs0: Fs,
    fs1: Fs,
    srcv: Seq<Seq<char>>,
    destv: Seq<Seq<char>>,
    trailing: bool,
)
    requires
        file_transfer_ok(fs0, fs1, srcv, destv, trailing, false),
    ensures
        fs1.file_at(srcv),
        fs1.bytes_at(srcv) == fs0.bytes_at(srcv),
        fs1.file_at(resolved_file_dest(fs0, srcv, destv, trailing)),
        fs1.bytes_at(resolved_file_dest(fs0, srcv, destv, trailing)) == fs0.bytes_at(srcv),
{
}

/// When the resolved destination already holds a file and overwriting is
/// not forced, the one error a transfer can report is the policy
/// rejection naming that destination — and the engine's contract adds
/// that the tree is then untouched.
pub proof fn lemma_conflict_without_force(
    fs0: Fs,
    srcv: Seq<Seq<char>>,
    destv: Seq<Seq<char>>,
    trailing: bool,
    e: TransferError,
)
    requires
        fs0.file_at(srcv),
        fs0.file_at(resolved_file_dest(fs0, srcv, destv, trailing)),
        file_transfer_err(fs0, srcv, destv, trailing, false, e),
    ensures
        e matches TransferError::DestinationExists { path } && path@ == join_comps(
            resolved_file_dest(fs0, srcv, destv, trailing),
        ),
{
}

/// The same conflict with overwriting forced is no error at all: with
/// the parents clear, no error value satisfies the transfer's error
/// contract, so the transfer is owed success.
pub proof fn lemma_conflict_with_force_succeeds(
    fs0: Fs,
    srcv: Seq<Seq<char>>,
    destv: Seq<Seq<char>>,
    trailing: bool,
    e: TransferError,
)
    requires
        fs0.file_at(srcv),
        fs0.file_at(resolved_file_dest(fs0, srcv, destv, trailing)),
        !parent_blocked(fs0, resolved_file_dest(fs0, srcv, destv, trailing)),
    ensures
        !file_transfer_err(fs0, srcv, destv, trailing, true, e),
{
}

/// A merge never touches a destination entry that has no counterpart in
/// the source tree.
pub proof fn lemma_merge_preserves_unrelated(
    fs0: Fs,
    fsf: Fs,
    srcv: Seq<Seq<char>>,
    destv: Seq<Seq<char>>,
    is_move: bool,
    k: Seq<Seq<char>>,
)
    requires
        merge_or_copy_ok(fs0, fsf, srcv, destv, is_move),
        strict_prefix_of(destv, k),
        !fs0.has(srcv + k.skip(destv.len() as int)),
    ensures
        fsf.has(k) == fs0.has(k),
        fs0.has(k) ==> fsf.node_at(k) == fs0.node_at(k),
{
    assert(crate::dir::merge_preserves(fs0, fsf, srcv, destv));
}

/// A finished move-merge leaves nothing of the source tree, and every
/// source entry stands at its corresponding destination key.
pub proof fn lemma_merge_moves_everything(
    fs0: Fs,
    fsf: Fs,
    srcv: Seq<Seq<char>>,
    destv: Seq<Seq<char>>,
    k: Seq<Seq<char>>,
)
    requires
        merge_or_copy_ok(fs0, fsf, srcv, destv, true),
        fs0.has(k),
        strict_prefix_of(srcv, k),
    ensures
        !fsf.has(k),
        !fsf.has(srcv),
        fs0.node_at(k) is File ==> fsf.file_at(destv + k.skip(srcv.len() as int)) && fsf.bytes_at(
            destv + k.skip(srcv.len() as int),
        ) == fs0.bytes_at(k),
        fs0.node_at(k) is Dir ==> fsf.dir_at(destv + k.skip(srcv.len() as int)),
{
}

/// A merge that stops on an unforced conflict leaves the source tree on
/// disk: the source root, the conflicting source entry and the
/// conflicting destination entry all stand exactly as they were.
pub proof fn lemma_merge_conflict_leaves_sources(
    fs0: Fs,
    fsf: Fs,
    srcv: Seq<Seq<char>>,
    destv: Seq<Seq<char>>,
    force: bool,
    e: TransferError,
)
    requires
        merge_conflict_err(fs0, fsf, srcv, destv, force, e),
    ensures
        fsf.has(srcv) && fsf.node_at(srcv) == fs0.node_at(srcv),
        exists|k: Seq<Seq<char>>|
            {
                &&& #[trigger] fs0.has(k)
                &&& strict_prefix_of(srcv, k)
                &&& fsf.has(k) && fsf.node_at(k) == fs0.node_at(k)
                &&& fsf.has(destv + k.skip(srcv.len() as int)) && fsf.node_at(
                    destv + k.skip(srcv.len() as int),
                ) == fs0.node_at(destv + k.skip(srcv.len() as int))
            },
{
    let k = choose|k: Seq<Seq<char>>|
        {
            let dk = destv + k.skip(srcv.len() as int);
            &&& #[trigger] fs0.has(k)
            &&& strict_prefix_of(srcv, k)
            &&& crate::dir::conflict_at(fs0, srcv, destv, force, k)
            &&& (match e {
                TransferError::DestinationExists { path } => path@ == join_comps(dk) && fs0.node_at(
                    k,
                ) is File && fs0.file_at(dk) && !force,
                TransferError::DestinationKindMismatch { path, expected_dir } => path@
                    == join_comps(dk) && (if expected_dir {
                    fs0.node_at(k) is Dir && fs0.file_at(dk)
                } else {
                    fs0.node_at(k) is File && fs0.dir_at(dk)
                }),
                _ => false,
            })
            &&& fsf.has(k) && fsf.node_at(k) == fs0.node_at(k)
            &&& fsf.has(dk) && fsf.node_at(dk) == fs0.node_at(dk)
            &&& fsf.has(srcv) && fsf.node_at(srcv) == fs0.node_at(srcv)
        };
    assert(fs0.has(k) && strict_prefix_of(srcv, k) && fsf.has(k) && fsf.node_at(k) == fs0.node_at(
        k,
    ) && fsf.has(destv + k.skip(srcv.len() as int)) && fsf.node_at(destv + k.skip(srcv.len() as int))
        == fs0.node_at(destv + k.skip(srcv.len() as int)));
}

/// A batch that mixes file sources with directory sources is rejected as
/// exactly that, whatever the destination looks like.
pub proof fn lemma_mixed_batch_rejected(
    fs0: Fs,
    srcs: Seq<FsPath>,
    destv: Seq<Seq<char>>,
    e: TransferError,
    i: int,
    j: int,
)
    requires
        batch_validation_err(fs0, srcs, destv, e),
        forall|m: int| 0 <= m < srcs.len() ==> fs0.has((#[trigger] srcs[m])@),
        srcs.len() > 1,
        0 <= i < srcs.len() && fs0.file_at(srcs[i]@),
        0 <= j < srcs.len() && fs0.dir_at(srcs[j]@),
    ensures
        e matches TransferError::MixedSourceKinds,
{
    assert(!(exists|m: int| 0 <= m < srcs.len() && !fs0.has((#[trigger] srcs[m])@)));
    assert(exists|m: int| 0 <= m < srcs.len() && fs0.file_at((#[trigger] srcs[m])@));
    assert(exists|m: int| 0 <= m < srcs.len() && fs0.dir_at((#[trigger] srcs[m])@));
}

/// A batch of several sources aimed at anything but a directory is
/// rejected for that reason, provided its sources are uniform and exist.
pub proof fn lemma_multi_source_needs_dir(
    fs0: Fs,
    srcs: Seq<FsPath>,
    destv: Seq<Seq<char>>,
    e: TransferError,
)
    requires
        batch_validation_err(fs0, srcs, destv, e),
        forall|m: int| 0 <= m < srcs.len() ==> fs0.has((#[trigger] srcs[m])@),
        srcs.len() > 1,
        !fs0.dir_at(destv),
        (forall|m: int| 0 <= m < srcs.len() ==> fs0.file_at((#[trigger] srcs[m])@)) || (forall|
            m: int,
        | 0 <= m < srcs.len() ==> fs0.dir_at((#[trigger] srcs[m])@)),
    ensures
        e matches TransferError::MultipleSourcesRequireDirDest,
{
    assert(!(exists|m: int| 0 <= m < srcs.len() && !fs0.has((#[trigger] srcs[m])@)));
    if (exists|m: int| 0 <= m < srcs.len() && fs0.file_at((#[trigger] srcs[m])@)) && (exists|m: int|
        0 <= m < srcs.len() && fs0.dir_at((#[trigger] srcs[m])@)) {
        let a = choose|m: int| 0 <= m < srcs.len() && fs0.file_at((#[trigger] srcs[m])@);
        let b = choose|m: int| 0 <= m < srcs.len() && fs0.dir_at((#[trigger] srcs[m])@);
        assert(false);
    }
}

/// A destination written with a trailing separator that does not exist
/// yet is created as a directory, and the file lands inside it under the
/// source's name.
pub proof fn lemma_trailing_separator_creates_dir(
    fs0: Fs,
    fs1: Fs,
    srcv: Seq<Seq<char>>,
    destv: Seq<Seq<char>>,
    is_move: bool,
)
    requires
        !fs0.has(destv),
        destv.len() > 0,
        file_transfer_ok(fs0, fs1, srcv, destv, true, is_move),
    ensures
        fs1.dir_at(destv),
        fs1.file_at(destv.push(srcv.last())),
        fs1.bytes_at(destv.push(srcv.last())) == fs0.bytes_at(srcv),
{
    let rsv = resolved_file_dest(fs0, srcv, destv, true);
    assert(rsv == destv.push(srcv.last()));
    assert(rsv.take(destv.len() as int) =~= destv);
    assert(fs1.dir_at(rsv.take(destv.len() as int)));
}

} // verus!
