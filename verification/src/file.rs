//! The transfer engine for a single regular file: destination
//! resolution, the conflict policy, creation of missing parent
//! directories, and the transfer itself. The contract pins down, for
//! every input, whether the transfer succeeds, which error it returns
//! otherwise, and what the tree looks like afterwards, key by key.

use vstd::prelude::*;
use crate::{MoveOrCopy, TransferContext, TransferOutcome, arrow_message, message_with_arrow};
use crate::error::TransferError;
use crate::fsmodel::{Fs, comps_eq, fs_unchanged, key_of, prefix_of};
use crate::path::{FsPath, join_comps, render_comps, wf_comps};
use crate::resolve::{dest_appends_name, spec_appends_name};

verus! {

/// Where the transfer writes: the destination itself, or — when the
/// destination is an existing directory or a missing path written with a
/// trailing separator — the destination joined with the source's name.
pub open spec fn resolved_file_dest(
    fs0: Fs,
    srcv: Seq<Seq<char>>,
    destv: Seq<Seq<char>>,
    trailing: bool,
) -> Seq<Seq<char>> {
    if spec_appends_name(fs0.dir_at(destv), fs0.has(destv), trailing) {
        destv.push(srcv.last())
    } else {
        destv
    }
}

/// A file stands where a parent directory of the resolved destination is
/// needed.
pub open spec fn parent_blocked(fs0: Fs, rsv: Seq<Seq<char>>) -> bool {
    exists|l: int| 1 <= l < rsv.len() && fs0.file_at(#[trigger] rsv.take(l))
}

/// Exactly which error a single-file transfer returns, by the first
/// failing check: missing source, source not a file, resolved
/// destination a directory, resolved destination an unforced existing
/// file, or a file blocking a parent directory.
pub open spec fn file_transfer_err(
    fs0: Fs,
    srcv: Seq<Seq<char>>,
    destv: Seq<Seq<char>>,
    trailing: bool,
    force: bool,
    e: TransferError,
) -> bool {
    let rsv = resolved_file_dest(fs0, srcv, destv, trailing);
    if !fs0.has(srcv) {
        e matches TransferError::SourceNotFound { path } && path@ == join_comps(srcv)
    } else if !(fs0.node_at(srcv) is File) {
        e matches TransferError::SourceWrongType { path, expected_dir } && path@ == join_comps(srcv)
            && !expected_dir
    } else if fs0.dir_at(rsv) {
        e matches TransferError::DestinationKindMismatch { path, expected_dir } && path@
            == join_comps(rsv) && !expected_dir
    } else if fs0.file_at(rsv) && !force {
        e matches TransferError::DestinationExists { path } && path@ == join_comps(rsv)
    } else if parent_blocked(fs0, rsv) {
        e matches TransferError::NotADirectory { path } && path@ == join_comps(rsv.drop_last())
    } else {
        false
    }
}

/// What the tree looks like after a successful single-file transfer:
/// the resolved destination holds the source's bytes, every missing
/// parent directory was created, a move removed the source, and nothing
/// else changed.
pub open spec fn file_transfer_ok(
    fs0: Fs,
    fs1: Fs,
    srcv: Seq<Seq<char>>,
    destv: Seq<Seq<char>>,
    trailing: bool,
    is_move: bool,
) -> bool {
    let rsv = resolved_file_dest(fs0, srcv, destv, trailing);
    &&& fs1.file_at(rsv)
    &&& fs1.bytes_at(rsv) == fs0.bytes_at(srcv)
    &&& forall|l: int| 1 <= l < rsv.len() ==> fs1.dir_at(#[trigger] rsv.take(l))
    &&& (is_move && rsv != srcv ==> !fs1.has(srcv))
    &&& (!is_move ==> fs1.file_at(srcv) && fs1.bytes_at(srcv) == fs0.bytes_at(srcv))
    &&& forall|k: Seq<Seq<char>>|
        k != srcv && k != rsv && !prefix_of(k, rsv.drop_last()) ==> #[trigger] fs1.has(k)
            == fs0.has(k) && (fs0.has(k) ==> fs1.node_at(k) == fs0.node_at(k))
    &&& forall|k: Seq<Seq<char>>|
        prefix_of(k, rsv.drop_last()) && fs0.has(k) ==> #[trigger] fs1.node_at(k) == fs0.node_at(
            k,
        ) && fs1.has(k)
}

/// Move or copy one regular file to the destination, resolving the
/// destination, enforcing the conflict policy, and creating missing
/// parent directories first.
#[verifier::rlimit(60)]
pub fn move_or_copy(fs: &mut Fs, src: &FsPath, dest: &FsPath, ctx: &TransferContext) -> (r: Result<
    TransferOutcome,
    TransferError,
>)
    requires
        old(fs).wf(),
        src.wf(),
        dest.wf(),
        dest@.len() > 0,
    ensures
        final(fs).wf(),
        match r {
            Err(e) => fs_unchanged(*old(fs), *final(fs)) && file_transfer_err(
                *old(fs),
                src@,
                dest@,
                dest.trailing_sep,
                ctx.force,
                e,
            ),
            Ok(out) => {
                let rsv = resolved_file_dest(*old(fs), src@, dest@, dest.trailing_sep);
                &&& old(fs).file_at(src@)
                &&& !old(fs).dir_at(rsv)
                &&& (old(fs).file_at(rsv) ==> ctx.force)
                &&& !parent_blocked(*old(fs), rsv)
                &&& file_transfer_ok(
                    *old(fs),
                    *final(fs),
                    src@,
                    dest@,
                    dest.trailing_sep,
                    ctx.mode.is_move(),
                )
                &&& out.bytes == old(fs).bytes_at(src@).len()
                &&& out.message@ == arrow_message(join_comps(src@), join_comps(dest@), ctx.mode)
            },
        },
{
    let ghost fs0 = *fs;
    if !fs.exists_at(src) {
        return Err(TransferError::SourceNotFound { path: render_comps(&src.comps) });
    }
    if !fs.is_file_at(src) {
        return Err(
            TransferError::SourceWrongType { path: render_comps(&src.comps), expected_dir: false },
        );
    }
    proof {
        fs.lemma_key_wf(src@);
    }
    let append = dest_appends_name(fs.is_dir_at(dest), fs.exists_at(dest), dest.trailing_sep);
    let resolved: FsPath = if append {
        match src.file_name() {
            Some(name) => dest.child(name),
            None => {
                // A source present in a well-formed tree always has a
                // final name component.
                proof {
                    assert(false);
                }
                return Err(TransferError::CannotDeriveName { path: render_comps(&src.comps) });
            },
        }
    } else {
        dest.plain_copy()
    };
    let ghost rsv = resolved_file_dest(fs0, src@, dest@, dest.trailing_sep);
    proof {
        assert(resolved@ == rsv);
        if spec_appends_name(fs0.dir_at(dest@), fs0.has(dest@), dest.trailing_sep) {
            assert forall|i: int| 0 <= i < rsv.len() implies (#[trigger] rsv[i]).len() > 0 && (
            forall|j: int| 0 <= j < rsv[i].len() ==> rsv[i][j] != crate::path::sep()) by {
                if i < dest@.len() {
                    assert(wf_comps(dest@));
                    assert(rsv[i] == dest@[i]);
                } else {
                    assert(rsv[i] == src@.last());
                    assert(wf_comps(src@));
                }
            }
        }
        assert(wf_comps(resolved@));
        assert(resolved@.len() > 0);
    }
    if fs.is_dir_at(&resolved) {
        return Err(
            TransferError::DestinationKindMismatch {
                path: render_comps(&resolved.comps),
                expected_dir: false,
            },
        );
    }
    if fs.is_file_at(&resolved) && !ctx.force {
        return Err(TransferError::DestinationExists { path: render_comps(&resolved.comps) });
    }
    let par = resolved.parent();
    proof {
        assert(par@ == rsv.drop_last());
        assert forall|l: int| 1 <= l <= par@.len() implies #[trigger] par@.take(l) == rsv.take(
            l,
        ) by {
            assert(par@.take(l) =~= rsv.take(l));
        }
    }
    if !fs.create_dir_all(&par) {
        proof {
            let l = choose|l: int| 1 <= l <= par@.len() && fs0.file_at(#[trigger] par@.take(l));
            assert(par@.take(l) == rsv.take(l));
            assert(fs0.file_at(rsv.take(l)));
            assert(parent_blocked(fs0, rsv));
            assert forall|k: Seq<Seq<char>>| #[trigger] fs.has(k) == fs0.has(k) by {}
            assert forall|k: Seq<Seq<char>>| fs0.has(k) implies #[trigger] fs.node_at(k)
                == fs0.node_at(k) by {
                assert(fs.has(k) == fs0.has(k));
            }
            assert(fs_unchanged(fs0, *fs));
        }
        return Err(TransferError::NotADirectory { path: render_comps(&par.comps) });
    }
    let ghost fs_a = *fs;
    proof {
        assert(!parent_blocked(fs0, rsv)) by {
            if parent_blocked(fs0, rsv) {
                let l = choose|l: int| 1 <= l < rsv.len() && fs0.file_at(#[trigger] rsv.take(l));
                assert(par@.take(l) == rsv.take(l));
                assert(fs0.file_at(par@.take(l)));
            }
        }
        assert(!prefix_of(src@, par@)) by {
            if prefix_of(src@, par@) {
                let l = src@.len() as int;
                assert(par@.take(l) == src@);
                assert(rsv.take(l) == src@);
                assert(fs0.file_at(rsv.take(l)));
                assert(1 <= l < rsv.len()) by {
                    assert(l <= par@.len());
                }
            }
        }
        assert forall|k: Seq<Seq<char>>| !prefix_of(k, par@) implies #[trigger] fs_a.has(k)
            == fs0.has(k) && (fs0.has(k) ==> fs_a.node_at(k) == fs0.node_at(k)) by {
            assert(fs.has(k) == fs0.has(k) && (fs0.has(k) ==> fs.node_at(k) == fs0.node_at(k)));
        }
        assert(fs_a.has(src@) == fs0.has(src@) && (fs0.has(src@) ==> fs_a.node_at(src@)
            == fs0.node_at(src@)));
        assert(fs_a.file_at(src@) && fs_a.bytes_at(src@) == fs0.bytes_at(src@));
    }
    let bytes = match fs.read_file(src) {
        Some(b) => b,
        None => {
            // The source was just checked to be a regular file.
            proof {
                assert(false);
            }
            return Err(TransferError::SourceNotFound { path: render_comps(&src.comps) });
        },
    };
    let n_bytes: u64 = bytes.len() as u64;
    fs.write_file(&resolved, bytes);
    let ghost fs_b = *fs;
    let is_move = match ctx.mode {
        MoveOrCopy::Move => true,
        MoveOrCopy::Copy => false,
    };
    let same_place = comps_eq(&src.comps, &resolved.comps);
    proof {
        assert(key_of(src.comps@) == src@);
        assert(key_of(resolved.comps@) == resolved@);
    }
    if is_move && !same_place {
        fs.remove_at(src);
    }
    proof {
        // Parent directories survive the write and the removal.
        assert forall|l: int| 1 <= l < rsv.len() implies fs.dir_at(#[trigger] rsv.take(l)) by {
            assert(prefix_of(rsv.take(l), par@)) by {
                assert(par@.take(l) =~= rsv.take(l));
            }
            assert(fs_a.dir_at(rsv.take(l)));
            assert(rsv.take(l) != rsv);
            if rsv.take(l) == src@ {
                assert(fs0.file_at(rsv.take(l)));
                assert(parent_blocked(fs0, rsv));
            }
            assert(fs_b.dir_at(rsv.take(l)));
        }
        // The frame: everything else is untouched.
        assert forall|k: Seq<Seq<char>>|
            k != src@ && k != rsv && !prefix_of(k, rsv.drop_last()) implies #[trigger] fs.has(k)
            == fs0.has(k) && (fs0.has(k) ==> fs.node_at(k) == fs0.node_at(k)) by {
            assert(par@ == rsv.drop_last());
            assert(!prefix_of(k, par@));
            assert(fs_a.has(k) == fs0.has(k));
            assert(fs0.has(k) ==> fs_a.node_at(k) == fs0.node_at(k));
            assert(fs_b.has(k) == fs_a.has(k));
            assert(fs_a.has(k) ==> fs_b.node_at(k) == fs_a.node_at(k));
        }
        assert forall|k: Seq<Seq<char>>| prefix_of(k, rsv.drop_last()) && fs0.has(k) implies
            #[trigger] fs.node_at(k) == fs0.node_at(k) && fs.has(k) by {
            let l = k.len() as int;
            assert(par@.take(l) == k);
            assert(rsv.take(l) == k);
            assert(!fs0.file_at(k));
            assert(fs0.node_at(k) is Dir);
            assert(fs_a.dir_at(k));
            assert(k != rsv);
            if k == src@ {
                assert(fs0.file_at(src@));
            }
            assert(fs.dir_at(k));
            assert(fs.node_at(k) == fs0.node_at(k));
        }
        if !ctx.mode.is_move() {
            assert(src@ != rsv ==> fs.file_at(src@) && fs.bytes_at(src@) == fs0.bytes_at(src@));
            if src@ == rsv {
                assert(fs.file_at(src@));
                assert(fs.bytes_at(src@) == fs0.bytes_at(src@));
            }
        }
    }
    let src_text = render_comps(&src.comps);
    let dest_text = render_comps(&dest.comps);
    let msg = message_with_arrow(src_text.as_str(), dest_text.as_str(), &ctx.mode);
    Ok(TransferOutcome { bytes: n_bytes, message: msg })
}

} // verus!
