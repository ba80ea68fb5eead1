//! A verified model of a file mover: relocating or duplicating filesystem
//! entries (regular files and whole directory trees) into a destination,
//! with deterministic conflict handling, batch validation and cooperative
//! cancellation.
//!
//! The filesystem itself is represented as an explicit in-memory tree
//! ([`fsmodel::Fs`]), so every decision the engine makes — destination
//! resolution, conflict policy, merge traversal order, batch validation —
//! is stated in contracts and proved. The thin process layer that talks
//! to the real filesystem reuses the same decision functions.

use vstd::prelude::*;

pub mod dir;
pub mod error;
pub mod file;
pub mod fsmodel;
pub mod laws;
pub mod path;
pub mod progress;
pub mod resolve;

verus! {

/// Whether a transfer relocates its source or duplicates it.
///
/// Immutable for the duration of one invocation; determines both the
/// preferred primitive (rename vs. reflink) and the user-facing verbs.
#[derive(Debug, Clone, Copy, PartialEq, Eq, Structural)]
pub enum MoveOrCopy {
    Move,
    Copy,
}

impl MoveOrCopy {
    /// True when the transfer removes the source after it has arrived.
    pub open spec fn is_move(self) -> bool {
        self == MoveOrCopy::Move
    }
}

/// The configuration bundle threaded through every operation of one
/// invocation: the mode, whether an existing destination file may be
/// overwritten, and whether to only report intended actions.
pub struct TransferContext {
    pub mode: MoveOrCopy,
    pub force: bool,
    pub dry_run: bool,
}

/// A cooperatively polled cancellation flag: set at most once from
/// outside, read between units of work, never cleared within one
/// invocation.
pub struct CancelToken {
    pub set: bool,
}

impl CancelToken {
    /// Whether cancellation was requested.
    pub fn is_set(&self) -> (r: bool)
        ensures
            r == self.set,
    {
        self.set
    }
}

/// The arrow that renders a mode in messages.
pub open spec fn arrow_of(mode: MoveOrCopy) -> Seq<char> {
    match mode {
        MoveOrCopy::Move => "->"@,
        MoveOrCopy::Copy => "=>"@,
    }
}

/// The one-line description of a transfer: source, mode arrow,
/// destination.
pub open spec fn arrow_message(src: Seq<char>, dest: Seq<char>, mode: MoveOrCopy) -> Seq<char> {
    src + " "@ + arrow_of(mode) + " "@ + dest
}

/// Render the one-line description of a transfer.
pub fn message_with_arrow(src: &str, dest: &str, move_or_copy: &MoveOrCopy) -> (r: String)
    ensures
        r@ == arrow_message(src@, dest@, *move_or_copy),
{
    let mut r = String::new();
    r.append(src);
    r.append(" ");
    match move_or_copy {
        MoveOrCopy::Move => r.append("->"),
        MoveOrCopy::Copy => r.append("=>"),
    }
    r.append(" ");
    r.append(dest);
    proof {
        assert(r@ =~= arrow_message(src@, dest@, *move_or_copy));
    }
    r
}

/// What one completed transfer reports: the bytes moved and a rendered
/// one-line summary.
#[derive(Debug)]
pub struct TransferOutcome {
    pub bytes: u64,
    pub message: String,
}


/// What one batch returns when no error stops it: the per-source summary
/// lines, or notice that a cancellation request stopped the batch and
/// the process is expected to terminate with [`CANCEL_EXIT_CODE`].
#[derive(Debug)]
pub enum BatchOutcome {
    Done { summaries: Vec<String> },
    Cancelled { message: String },
}

/// The process status that a cancelled batch terminates with, matching
/// the conventional terminated-by-interrupt code.
pub const CANCEL_EXIT_CODE: i32 = 130;

/// One of the batch-level validation failures applies: a source that is
/// neither file nor directory, mixed source kinds, or several sources
/// aimed at something that is no directory. All are checked before any
/// filesystem mutation.
pub open spec fn has_validation_err(fs0: fsmodel::Fs, srcs: Seq<path::FsPath>, destv: Seq<Seq<char>>) -> bool {
    ||| (exists|i: int| 0 <= i < srcs.len() && !fs0.has((#[trigger] srcs[i])@))
    ||| (srcs.len() > 1 && (exists|i: int| 0 <= i < srcs.len() && fs0.file_at((#[trigger] srcs[i])@))
        && (exists|j: int| 0 <= j < srcs.len() && fs0.dir_at((#[trigger] srcs[j])@)))
    ||| (srcs.len() > 1 && !fs0.dir_at(destv))
}

/// Exactly which validation error a batch returns: the first source in
/// order that names nothing, else mixed source kinds, else a
/// destination that several sources need to be a directory.
pub open spec fn batch_validation_err(
    fs0: fsmodel::Fs,
    srcs: Seq<path::FsPath>,
    destv: Seq<Seq<char>>,
    e: error::TransferError,
) -> bool {
    if exists|i: int| 0 <= i < srcs.len() && !fs0.has((#[trigger] srcs[i])@) {
        exists|i: int|
            {
                &&& 0 <= i < srcs.len()
                &&& !fs0.has((#[trigger] srcs[i])@)
                &&& forall|j: int| 0 <= j < i ==> fs0.has((#[trigger] srcs[j])@)
                &&& e matches error::TransferError::InvalidSource { path } && path@
                    == path::join_comps(srcs[i]@)
            }
    } else if srcs.len() > 1 && (exists|i: int|
        0 <= i < srcs.len() && fs0.file_at((#[trigger] srcs[i])@)) && (exists|j: int|
        0 <= j < srcs.len() && fs0.dir_at((#[trigger] srcs[j])@)) {
        e matches error::TransferError::MixedSourceKinds
    } else if srcs.len() > 1 && !fs0.dir_at(destv) {
        e matches error::TransferError::MultipleSourcesRequireDirDest
    } else {
        false
    }
}

/// What one successful batch step guarantees: a file source went through
/// the single-file engine, anything else through the directory merger.
pub open spec fn batch_step_ok(
    fs_a: fsmodel::Fs,
    fs_b: fsmodel::Fs,
    src: path::FsPath,
    dest: path::FsPath,
    ctx: TransferContext,
) -> bool {
    if fs_a.file_at(src@) {
        let rsv = file::resolved_file_dest(fs_a, src@, dest@, dest.trailing_sep);
        &&& !fs_a.dir_at(rsv)
        &&& (fs_a.file_at(rsv) ==> ctx.force)
        &&& !file::parent_blocked(fs_a, rsv)
        &&& file::file_transfer_ok(fs_a, fs_b, src@, dest@, dest.trailing_sep, ctx.mode.is_move())
    } else {
        &&& fs_a.dir_at(src@)
        &&& dir::trees_disjoint(src@, dest@)
        &&& !dir::merge_conflict_exists(fs_a, src@, dest@, ctx.force)
        &&& dir::merge_or_copy_ok(fs_a, fs_b, src@, dest@, ctx.mode.is_move())
    }
}

/// The error one failing batch step reports, and what it left behind.
pub open spec fn batch_step_err(
    fs_a: fsmodel::Fs,
    fs_b: fsmodel::Fs,
    src: path::FsPath,
    dest: path::FsPath,
    ctx: TransferContext,
    e: error::TransferError,
) -> bool {
    if fs_a.file_at(src@) {
        fsmodel::fs_unchanged(fs_a, fs_b) && file::file_transfer_err(
            fs_a,
            src@,
            dest@,
            dest.trailing_sep,
            ctx.force,
            e,
        )
    } else {
        (dir::merge_setup_err(fs_a, src@, dest@, e) && fsmodel::fs_unchanged(fs_a, fs_b))
            || dir::merge_conflict_err(fs_a, fs_b, src@, dest@, ctx.force, e)
    }
}

/// The sources, taken in the order given, each transferred successfully,
/// one after the other.
pub open spec fn batch_ok(
    fs_a: fsmodel::Fs,
    fs_b: fsmodel::Fs,
    srcs: Seq<path::FsPath>,
    dest: path::FsPath,
    ctx: TransferContext,
) -> bool
    decreases srcs.len(),
{
    if srcs.len() == 0 {
        fs_b == fs_a
    } else {
        exists|mid: fsmodel::Fs|
            #[trigger] batch_step_ok(fs_a, mid, srcs[0], dest, ctx) && batch_ok(
                mid,
                fs_b,
                srcs.drop_first(),
                dest,
                ctx,
            )
    }
}

/// A successful chain extends by one more successful step.
pub proof fn lemma_batch_ok_push(
    fs_a: fsmodel::Fs,
    fs_b: fsmodel::Fs,
    fs_c: fsmodel::Fs,
    srcs: Seq<path::FsPath>,
    x: path::FsPath,
    dest: path::FsPath,
    ctx: TransferContext,
)
    requires
        batch_ok(fs_a, fs_b, srcs, dest, ctx),
        batch_step_ok(fs_b, fs_c, x, dest, ctx),
    ensures
        batch_ok(fs_a, fs_c, srcs.push(x), dest, ctx),
    decreases srcs.len(),
{
    if srcs.len() == 0 {
        assert(fs_b == fs_a);
        assert(batch_step_ok(fs_a, fs_c, x, dest, ctx));
        assert(srcs.push(x).drop_first() =~= Seq::<path::FsPath>::empty());
        assert(batch_ok(fs_c, fs_c, srcs.push(x).drop_first(), dest, ctx));
        assert(srcs.push(x)[0] == x);
    } else {
        let mid = choose|mid: fsmodel::Fs|
            #[trigger] batch_step_ok(fs_a, mid, srcs[0], dest, ctx) && batch_ok(
                mid,
                fs_b,
                srcs.drop_first(),
                dest,
                ctx,
            );
        lemma_batch_ok_push(mid, fs_b, fs_c, srcs.drop_first(), x, dest, ctx);
        assert(srcs.push(x).drop_first() =~= srcs.drop_first().push(x));
        assert(srcs.push(x)[0] == srcs[0]);
        assert(batch_step_ok(fs_a, mid, srcs.push(x)[0], dest, ctx));
    }
}


/// Run one batch: validate every source up front, then transfer each in
/// the order given, polling the cancellation token before each source
/// and reporting one summary line per source. With `dry_run` set, the
/// intended actions are reported and nothing on the tree changes.
#[verifier::rlimit(100)]
pub fn run_batch(
    fs: &mut fsmodel::Fs,
    srcs: &Vec<path::FsPath>,
    dest: &path::FsPath,
    ctx: &TransferContext,
    token: &CancelToken,
) -> (r: Result<BatchOutcome, error::TransferError>)
    requires
        old(fs).wf(),
        forall|i: int| 0 <= i < srcs@.len() ==> (#[trigger] srcs@[i]).wf(),
        dest.wf(),
        dest@.len() > 0,
    ensures
        final(fs).wf(),
        match r {
            Err(e) => (batch_validation_err(*old(fs), srcs@, dest@, e) && *final(fs) == *old(fs))
                || (!has_validation_err(*old(fs), srcs@, dest@) && exists|i: int, mid: fsmodel::Fs|
                {
                    &&& 0 <= i < srcs@.len()
                    &&& #[trigger] batch_ok(*old(fs), mid, srcs@.take(i), *dest, *ctx)
                    &&& batch_step_err(mid, *final(fs), srcs@[i], *dest, *ctx, e)
                }),
            Ok(BatchOutcome::Done { summaries }) => {
                &&& !has_validation_err(*old(fs), srcs@, dest@)
                &&& summaries@.len() == srcs@.len()
                &&& forall|ix: int|
                    0 <= ix < srcs@.len() ==> (#[trigger] summaries@[ix])@ == arrow_message(
                        path::join_comps(srcs@[ix]@),
                        path::join_comps(dest@),
                        ctx.mode,
                    )
                &&& (ctx.dry_run ==> *final(fs) == *old(fs))
                &&& (!ctx.dry_run ==> batch_ok(*old(fs), *final(fs), srcs@, *dest, *ctx))
            },
            Ok(BatchOutcome::Cancelled { .. }) => token.set,
        },
{
    let ghost fs0 = *fs;
    // Classify every source up front.
    let mut i: usize = 0;
    while i < srcs.len()
        invariant
            *fs == fs0,
            fs.wf(),
            i <= srcs@.len(),
            forall|j: int| 0 <= j < i ==> fs0.has((#[trigger] srcs@[j])@),
        decreases srcs@.len() - i,
    {
        if !fs.exists_at(&srcs[i]) {
            return Err(
                error::TransferError::InvalidSource { path: path::render_comps(&srcs[i].comps) },
            );
        }
        i = i + 1;
    }
    if srcs.len() > 1 {
        // All sources must be of one kind.
        let mut saw_file = false;
        let mut saw_dir = false;
        let mut i: usize = 0;
        while i < srcs.len()
            invariant
                *fs == fs0,
                fs.wf(),
                i <= srcs@.len(),
                forall|j: int| 0 <= j < srcs@.len() ==> (#[trigger] srcs@[j]).wf(),
                saw_file == (exists|j: int| 0 <= j < i && fs0.file_at((#[trigger] srcs@[j])@)),
                saw_dir == (exists|j: int| 0 <= j < i && fs0.dir_at((#[trigger] srcs@[j])@)),
            decreases srcs@.len() - i,
        {
            if fs.is_file_at(&srcs[i]) {
                saw_file = true;
            } else {
                if fs.is_dir_at(&srcs[i]) {
                    saw_dir = true;
                }
            }
            i = i + 1;
            proof {
                if saw_file {
                    assert(exists|j: int| 0 <= j < i && fs0.file_at((#[trigger] srcs@[j])@));
                }
                if saw_dir {
                    assert(exists|j: int| 0 <= j < i && fs0.dir_at((#[trigger] srcs@[j])@));
                }
            }
        }
        if saw_file && saw_dir {
            return Err(error::TransferError::MixedSourceKinds);
        }
        if !fs.is_dir_at(dest) {
            return Err(error::TransferError::MultipleSourcesRequireDirDest);
        }
    }
    proof {
        assert(!has_validation_err(fs0, srcs@, dest@)) by {
            if srcs@.len() > 1 {
            } else {
            }
        }
    }
    // Dry run: report the intended actions, touch nothing.
    if ctx.dry_run {
        let mut summaries: Vec<String> = Vec::new();
        let mut i: usize = 0;
        while i < srcs.len()
            invariant
                *fs == fs0,
                i <= srcs@.len(),
                summaries@.len() == i,
                forall|ix: int|
                    0 <= ix < i ==> (#[trigger] summaries@[ix])@ == arrow_message(
                        path::join_comps(srcs@[ix]@),
                        path::join_comps(dest@),
                        ctx.mode,
                    ),
            decreases srcs@.len() - i,
        {
            let src_text = path::render_comps(&srcs[i].comps);
            let dest_text = path::render_comps(&dest.comps);
            summaries.push(message_with_arrow(src_text.as_str(), dest_text.as_str(), &ctx.mode));
            i = i + 1;
        }
        return Ok(BatchOutcome::Done { summaries });
    }
    // Transfer each source in the order given.
    let mut summaries: Vec<String> = Vec::new();
    let mut i: usize = 0;
    while i < srcs.len()
        invariant
            fs.wf(),
            fs0.wf(),
            fs0 == *old(fs),
            dest.wf(),
            dest@.len() > 0,
            !ctx.dry_run,
            i <= srcs@.len(),
            forall|j: int| 0 <= j < srcs@.len() ==> (#[trigger] srcs@[j]).wf(),
            !has_validation_err(fs0, srcs@, dest@),
            batch_ok(fs0, *fs, srcs@.take(i as int), *dest, *ctx),
            summaries@.len() == i,
            forall|ix: int|
                0 <= ix < i ==> (#[trigger] summaries@[ix])@ == arrow_message(
                    path::join_comps(srcs@[ix]@),
                    path::join_comps(dest@),
                    ctx.mode,
                ),
        decreases srcs@.len() - i,
    {
        if token.is_set() {
            let src_text = path::render_comps(&srcs[i].comps);
            let dest_text = path::render_comps(&dest.comps);
            let message = message_with_arrow(src_text.as_str(), dest_text.as_str(), &ctx.mode);
            return Ok(BatchOutcome::Cancelled { message });
        }
        let ghost pre = *fs;
        let ghost done = srcs@.take(i as int);
        if fs.is_file_at(&srcs[i]) {
            match file::move_or_copy(fs, &srcs[i], dest, ctx) {
                Ok(out) => {
                    proof {
                        assert(batch_step_ok(pre, *fs, srcs@[i as int], *dest, *ctx));
                        lemma_batch_ok_push(fs0, pre, *fs, done, srcs@[i as int], *dest, *ctx);
                        assert(done.push(srcs@[i as int]) =~= srcs@.take(i + 1));
                    }
                    summaries.push(out.message);
                },
                Err(e) => {
                    proof {
                        assert(batch_step_err(pre, *fs, srcs@[i as int], *dest, *ctx, e));
                    }
                    return Err(e);
                },
            }
        } else {
            match dir::merge_or_copy(fs, &srcs[i], dest, ctx, token) {
                Ok(dir::MergeStatus::Finished(out)) => {
                    proof {
                        assert(batch_step_ok(pre, *fs, srcs@[i as int], *dest, *ctx));
                        lemma_batch_ok_push(fs0, pre, *fs, done, srcs@[i as int], *dest, *ctx);
                        assert(done.push(srcs@[i as int]) =~= srcs@.take(i + 1));
                    }
                    summaries.push(out.message);
                },
                Ok(dir::MergeStatus::Cancelled { notice }) => {
                    return Ok(BatchOutcome::Cancelled { message: notice });
                },
                Err(e) => {
                    proof {
                        assert(batch_step_err(pre, *fs, srcs@[i as int], *dest, *ctx, e));
                    }
                    return Err(e);
                },
            }
        }
        i = i + 1;
    }
    proof {
        assert(srcs@.take(srcs@.len() as int) =~= srcs@);
    }
    Ok(BatchOutcome::Done { summaries })
}

} // verus!


