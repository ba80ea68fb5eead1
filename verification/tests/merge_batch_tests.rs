//! Directory merges, batch orchestration, helpers, and the smaller
//! decision functions.

use mvx::dir::{collect_files_in_dir, get_total_size_of_files, merge_or_copy, MergeStatus};
use mvx::error::TransferError;
use mvx::fsmodel::Fs;
use mvx::path::FsPath;
use mvx::progress::{chunk_positions, ProgressCursor};
use mvx::resolve::{
    classify_os_error, dest_appends_name, next_step, preferred_strategy, LadderStep, OsErrorClass,
    Strategy,
};
use mvx::{
    message_with_arrow, run_batch, BatchOutcome, CancelToken, MoveOrCopy, TransferContext,
};

fn ctx(mode: MoveOrCopy, force: bool, dry_run: bool) -> TransferContext {
    TransferContext { mode, force, dry_run }
}

fn no_cancel() -> CancelToken {
    CancelToken { set: false }
}

fn place_file(fs: &mut Fs, path: &str, content: &str) {
    let p = FsPath::parse(path);
    if p.comps.len() > 1 {
        assert!(fs.create_dir_all(&p.parent()));
    }
    fs.write_file(&p, content.as_bytes().to_vec());
}

fn mkdir_all(fs: &mut Fs, path: &str) {
    assert!(fs.create_dir_all(&FsPath::parse(path)));
}

fn entry_present(fs: &Fs, path: &str) -> bool {
    fs.exists_at(&FsPath::parse(path))
}

fn content(fs: &Fs, path: &str) -> String {
    let bytes = fs.read_file(&FsPath::parse(path)).expect("expected a regular file");
    String::from_utf8(bytes).expect("test contents are text")
}

fn assert_file_moved(fs: &Fs, src: &str, dest: &str, expected: &str) {
    assert!(!entry_present(fs, src), "source still exists at {}", src);
    assert!(entry_present(fs, dest), "destination does not exist at {}", dest);
    assert_eq!(content(fs, dest), expected, "content does not match after move");
}

fn assert_file_copied(fs: &Fs, src: &str, dest: &str) {
    assert!(entry_present(fs, src), "source does not exist at {}", src);
    assert!(entry_present(fs, dest), "destination does not exist at {}", dest);
    assert_eq!(content(fs, src), content(fs, dest), "content differs after copy");
}

fn batch(
    fs: &mut Fs,
    srcs: &[&str],
    dest: &str,
    context: &TransferContext,
    token: &CancelToken,
) -> Result<BatchOutcome, TransferError> {
    let sources: Vec<FsPath> = srcs.iter().map(|s| FsPath::parse(s)).collect();
    run_batch(fs, &sources, &FsPath::parse(dest), context, token)
}

#[test]
fn get_total_size_of_files_empty() {
    let fs = Fs::new();
    let files: Vec<FsPath> = vec![];
    assert_eq!(get_total_size_of_files(&fs, &files), 0);
}

#[test]
fn get_total_size_of_files_single() {
    let mut fs = Fs::new();
    place_file(&mut fs, "tmp/file1", "hello");
    let files = vec![FsPath::parse("tmp/file1")];
    assert_eq!(get_total_size_of_files(&fs, &files), 5);
}

#[test]
fn get_total_size_of_files_multiple() {
    let mut fs = Fs::new();
    place_file(&mut fs, "tmp/file1", "abc");
    place_file(&mut fs, "tmp/file2", "defgh");
    let files = vec![FsPath::parse("tmp/file1"), FsPath::parse("tmp/file2")];
    assert_eq!(get_total_size_of_files(&fs, &files), 8);
}

fn source_tree(fs: &mut Fs, root: &str) -> Vec<String> {
    let rel_paths =
        ["file1", "file2", "subdir/subfile1", "subdir/subfile2", "subdir/nested/nested_file"];
    let mut placed = Vec::new();
    for path in rel_paths {
        let full = format!("{}/{}", root, path);
        place_file(fs, &full, &format!("From source: {path}"));
        placed.push(path.to_string());
    }
    placed
}

fn dest_tree(fs: &mut Fs, root: &str) -> Vec<String> {
    let rel_paths = ["file1", "file3", "subdir/subfile1", "subdir/subfile3", "subdir/nested/nested_file"];
    let mut placed = Vec::new();
    for path in rel_paths {
        let full = format!("{}/{}", root, path);
        place_file(fs, &full, &format!("From dest: {path}"));
        placed.push(path.to_string());
    }
    placed
}

#[test]
fn merge_directory_basic() {
    let mut fs = Fs::new();
    let src_rel_paths = source_tree(&mut fs, "src_dir");
    let dest_rel_paths = dest_tree(&mut fs, "dest_dir");
    let r = merge_or_copy(
        &mut fs,
        &FsPath::parse("src_dir"),
        &FsPath::parse("dest_dir"),
        &ctx(MoveOrCopy::Move, true, false),
        &no_cancel(),
    )
    .unwrap();
    assert!(matches!(r, MergeStatus::Finished(_)));
    for path in &src_rel_paths {
        assert_file_moved(
            &fs,
            &format!("src_dir/{path}"),
            &format!("dest_dir/{path}"),
            &format!("From source: {path}"),
        );
    }
    for path in &dest_rel_paths {
        assert!(entry_present(&fs, &format!("dest_dir/{path}")), "File '{}' should exist", path);
    }
}

#[test]
fn copy_directory_basic() {
    let mut fs = Fs::new();
    let src_rel_paths = source_tree(&mut fs, "src_dir");
    let dest_rel_paths = dest_tree(&mut fs, "dest_dir");
    let r = merge_or_copy(
        &mut fs,
        &FsPath::parse("src_dir"),
        &FsPath::parse("dest_dir"),
        &ctx(MoveOrCopy::Copy, true, false),
        &no_cancel(),
    )
    .unwrap();
    assert!(matches!(r, MergeStatus::Finished(_)));
    for path in &src_rel_paths {
        assert_file_copied(&fs, &format!("src_dir/{path}"), &format!("dest_dir/{path}"));
    }
    for path in &dest_rel_paths {
        assert!(entry_present(&fs, &format!("dest_dir/{path}")), "File '{}' should exist", path);
    }
}

#[test]
fn collect_files_in_dir_works() {
    let mut fs = Fs::new();
    let rel_paths = source_tree(&mut fs, "tmp");
    let collected: Vec<String> = collect_files_in_dir(&fs, &FsPath::parse("tmp"))
        .iter()
        .map(|p| mvx::path::render_comps(&p.comps))
        .collect();
    assert_eq!(collected.len(), rel_paths.len());
    for path in &rel_paths {
        let full = format!("tmp/{path}");
        assert!(collected.contains(&full), "missing {}", full);
    }
}

#[test]
fn collect_files_in_empty_dir_works() {
    let mut fs = Fs::new();
    mkdir_all(&mut fs, "tmp");
    assert!(
        collect_files_in_dir(&fs, &FsPath::parse("tmp")).is_empty(),
        "Result should be empty for an empty directory"
    );
}

#[test]
fn move_file_basic() {
    let mut fs = Fs::new();
    let src_content = "This is a test file";
    place_file(&mut fs, "work/a", src_content);
    batch(&mut fs, &["work/a"], "work/b", &ctx(MoveOrCopy::Move, false, false), &no_cancel())
        .unwrap();
    assert_file_moved(&fs, "work/a", "work/b", src_content);
}

#[test]
fn move_multiple_files() {
    let mut fs = Fs::new();
    let src_content = "This is a test file";
    place_file(&mut fs, "work/a", src_content);
    place_file(&mut fs, "work/b", src_content);
    mkdir_all(&mut fs, "work/dest");
    batch(
        &mut fs,
        &["work/a", "work/b"],
        "work/dest",
        &ctx(MoveOrCopy::Move, false, false),
        &no_cancel(),
    )
    .unwrap();
    assert_file_moved(&fs, "work/a", "work/dest/a", src_content);
    assert_file_moved(&fs, "work/b", "work/dest/b", src_content);
}

#[test]
fn move_multiple_files_fails_if_dest_not_dir() {
    let mut fs = Fs::new();
    let src_content = "This is a test file";
    place_file(&mut fs, "work/a", src_content);
    place_file(&mut fs, "work/b", src_content);
    let err = batch(
        &mut fs,
        &["work/a", "work/b"],
        "work/dest",
        &ctx(MoveOrCopy::Move, false, false),
        &no_cancel(),
    )
    .expect_err("expected an error, but got success");
    assert!(
        err.message().contains("When copying multiple sources, the destination must be a directory."),
        "unexpected message: {}",
        err.message()
    );
    assert!(entry_present(&fs, "work/a") && entry_present(&fs, "work/b"));
    assert!(!entry_present(&fs, "work/dest/a") && !entry_present(&fs, "work/dest/b"));
}

#[test]
fn copy_file_basic() {
    let mut fs = Fs::new();
    place_file(&mut fs, "work/a", "This is a test file");
    batch(&mut fs, &["work/a"], "work/b", &ctx(MoveOrCopy::Copy, false, false), &no_cancel())
        .unwrap();
    assert_file_copied(&fs, "work/a", "work/b");
}

#[test]
fn move_file_to_directory() {
    let mut fs = Fs::new();
    let src_content = "This is a test file";
    place_file(&mut fs, "work/a", src_content);
    batch(&mut fs, &["work/a"], "work/b/c/", &ctx(MoveOrCopy::Move, false, false), &no_cancel())
        .unwrap();
    assert_file_moved(&fs, "work/a", "work/b/c/a", src_content);
}

#[test]
fn copy_file_to_directory() {
    let mut fs = Fs::new();
    place_file(&mut fs, "work/a", "This is a test file");
    batch(&mut fs, &["work/a"], "work/b/c/", &ctx(MoveOrCopy::Copy, false, false), &no_cancel())
        .unwrap();
    assert_file_copied(&fs, "work/a", "work/b/c/a");
}

#[test]
fn merge_directories_basic() {
    let mut fs = Fs::new();
    let src_rel_paths = source_tree(&mut fs, "src_dir");
    mkdir_all(&mut fs, "dest_dir");
    batch(&mut fs, &["src_dir"], "dest_dir", &ctx(MoveOrCopy::Move, false, false), &no_cancel())
        .unwrap();
    for path in &src_rel_paths {
        assert_file_moved(
            &fs,
            &format!("src_dir/{path}"),
            &format!("dest_dir/{path}"),
            &format!("From source: {path}"),
        );
    }
}

#[test]
fn merge_multiple_directories() {
    let mut fs = Fs::new();
    let mut roots: Vec<String> = Vec::new();
    for i in 0..5 {
        let root = format!("d{i}");
        place_file(&mut fs, &format!("{root}/nested{i}/file{i}"), &format!("content{i}"));
        roots.push(root);
    }
    mkdir_all(&mut fs, "dest");
    let sources: Vec<&str> = roots.iter().map(|r| r.as_str()).collect();
    batch(&mut fs, &sources, "dest", &ctx(MoveOrCopy::Move, false, false), &no_cancel()).unwrap();
    for i in 0..5 {
        assert_file_moved(
            &fs,
            &format!("d{i}/nested{i}/file{i}"),
            &format!("dest/nested{i}/file{i}"),
            &format!("content{i}"),
        );
    }
}

#[test]
fn copy_directories_basic() {
    let mut fs = Fs::new();
    let src_rel_paths = source_tree(&mut fs, "src_dir");
    mkdir_all(&mut fs, "dest_dir");
    batch(&mut fs, &["src_dir"], "dest_dir", &ctx(MoveOrCopy::Copy, false, false), &no_cancel())
        .unwrap();
    for path in &src_rel_paths {
        assert_file_copied(&fs, &format!("src_dir/{path}"), &format!("dest_dir/{path}"));
    }
}

#[test]
fn test_move_file_to_directory() {
    let mut fs = Fs::new();
    let file_content = "This is a test file for directory move";
    place_file(&mut fs, "tmp/source_file", file_content);
    mkdir_all(&mut fs, "dest_dir");
    let result = batch(
        &mut fs,
        &["tmp/source_file"],
        "dest_dir",
        &ctx(MoveOrCopy::Move, false, false),
        &no_cancel(),
    );
    assert!(result.is_ok(), "Failed to move file to directory: {:?}", result.err().map(|e| e.message()));
    assert_file_moved(&fs, "tmp/source_file", "dest_dir/source_file", file_content);
}

#[test]
fn test_merge_directories() {
    let mut fs = Fs::new();
    place_file(&mut fs, "src/file1.txt", "Content of file 1");
    place_file(&mut fs, "src/file2.txt", "Content of file 2");
    place_file(&mut fs, "src/subdir/subfile.txt", "Content of subdir file");
    place_file(&mut fs, "dst/existing_subdir/existing_subfile.txt", "Pre-existing subdir file content");
    let result = batch(&mut fs, &["src"], "dst", &ctx(MoveOrCopy::Move, false, false), &no_cancel());
    assert!(result.is_ok(), "Failed to merge directories: {:?}", result.err().map(|e| e.message()));
    assert!(!entry_present(&fs, "src"), "Source directory still exists");
    for (rel, body) in [
        ("file1.txt", "Content of file 1"),
        ("file2.txt", "Content of file 2"),
        ("subdir/subfile.txt", "Content of subdir file"),
    ] {
        let dest = format!("dst/{rel}");
        assert!(entry_present(&fs, &dest), "File {} not found in destination", rel);
        assert_eq!(content(&fs, &dest), body, "Content doesn't match for moved file {}", rel);
    }
    assert!(fs.is_dir_at(&FsPath::parse("dst/subdir")), "Subdirectory not found in destination");
    assert!(
        entry_present(&fs, "dst/existing_subdir/existing_subfile.txt"),
        "Pre-existing subdirectory no longer exists after merge"
    );
}

#[test]
fn test_overwrite_file_in_directory_merge() {
    let mut fs = Fs::new();
    place_file(&mut fs, "src/file1.txt", "Source content that wins");
    place_file(&mut fs, "dst/file1.txt", "This is the original destination file that should be overwritten");
    assert!(entry_present(&fs, "src/file1.txt"), "Source conflict file doesn't exist");
    assert!(entry_present(&fs, "dst/file1.txt"), "Destination conflict file doesn't exist");
    let result = merge_or_copy(
        &mut fs,
        &FsPath::parse("src"),
        &FsPath::parse("dst"),
        &ctx(MoveOrCopy::Move, true, false),
        &no_cancel(),
    );
    assert!(result.is_ok(), "Failed to merge directories: {:?}", result.err().map(|e| e.message()));
    assert_eq!(
        content(&fs, "dst/file1.txt"),
        "Source content that wins",
        "Destination file was not properly overwritten during directory merge"
    );
    assert!(!entry_present(&fs, "src"), "Source directory still exists after merge");
}

#[test]
fn merge_overlap_without_force_fails_fast() {
    let mut fs = Fs::new();
    place_file(&mut fs, "src/x", "from source");
    place_file(&mut fs, "dst/x", "from destination");
    let err = merge_or_copy(
        &mut fs,
        &FsPath::parse("src"),
        &FsPath::parse("dst"),
        &ctx(MoveOrCopy::Move, false, false),
        &no_cancel(),
    )
    .expect_err("overlapping merge without force must fail");
    let text = err.message();
    assert!(text.contains("dst/x"), "error does not name the conflicting path: {}", text);
    assert!(entry_present(&fs, "src/x"), "move must not have deleted the source tree");
    assert_eq!(content(&fs, "src/x"), "from source");
    assert_eq!(content(&fs, "dst/x"), "from destination");
}

#[test]
fn merge_creates_empty_subdirectories() {
    let mut fs = Fs::new();
    mkdir_all(&mut fs, "src/empty/inner");
    place_file(&mut fs, "src/a", "payload");
    mkdir_all(&mut fs, "dst");
    batch(&mut fs, &["src"], "dst", &ctx(MoveOrCopy::Move, false, false), &no_cancel()).unwrap();
    assert!(fs.is_dir_at(&FsPath::parse("dst/empty/inner")));
    assert!(!entry_present(&fs, "src"), "move removes emptied source directories bottom-up");
}

#[test]
fn merge_into_own_subtree_is_rejected() {
    let mut fs = Fs::new();
    place_file(&mut fs, "top/a", "payload");
    let err = merge_or_copy(
        &mut fs,
        &FsPath::parse("top"),
        &FsPath::parse("top/inner"),
        &ctx(MoveOrCopy::Move, false, false),
        &no_cancel(),
    )
    .expect_err("a tree cannot be merged into itself");
    assert!(err.message().contains("one contains the other"), "{}", err.message());
    assert_eq!(content(&fs, "top/a"), "payload");
}

#[test]
fn batch_mixed_sources_rejected() {
    let mut fs = Fs::new();
    place_file(&mut fs, "file_a", "payload");
    place_file(&mut fs, "dir_b/inner", "payload");
    mkdir_all(&mut fs, "dest");
    let err = batch(
        &mut fs,
        &["file_a", "dir_b"],
        "dest",
        &ctx(MoveOrCopy::Move, false, false),
        &no_cancel(),
    )
    .expect_err("mixed batches are rejected");
    assert!(matches!(err, TransferError::MixedSourceKinds));
    // Rejected even when the destination is no directory.
    let mut fs2 = Fs::new();
    place_file(&mut fs2, "file_a", "payload");
    place_file(&mut fs2, "dir_b/inner", "payload");
    place_file(&mut fs2, "dest", "a file");
    let err2 = batch(
        &mut fs2,
        &["file_a", "dir_b"],
        "dest",
        &ctx(MoveOrCopy::Move, false, false),
        &no_cancel(),
    )
    .expect_err("mixed batches are rejected regardless of the destination");
    assert!(matches!(err2, TransferError::MixedSourceKinds));
}

#[test]
fn batch_invalid_source_rejected_before_any_work() {
    let mut fs = Fs::new();
    place_file(&mut fs, "a", "payload");
    mkdir_all(&mut fs, "dest");
    let err = batch(
        &mut fs,
        &["a", "missing"],
        "dest",
        &ctx(MoveOrCopy::Move, false, false),
        &no_cancel(),
    )
    .expect_err("a source that names nothing fails the batch");
    assert!(err.message().contains("is neither a file nor directory"), "{}", err.message());
    assert!(entry_present(&fs, "a"), "nothing may have been transferred");
    assert!(!entry_present(&fs, "dest/a"));
}

#[test]
fn dry_run_changes_nothing() {
    let mut fs = Fs::new();
    place_file(&mut fs, "a", "alpha");
    place_file(&mut fs, "b", "beta");
    mkdir_all(&mut fs, "dest");
    let outcome = batch(
        &mut fs,
        &["a", "b"],
        "dest",
        &ctx(MoveOrCopy::Move, false, true),
        &no_cancel(),
    )
    .unwrap();
    match outcome {
        BatchOutcome::Done { summaries } => {
            assert_eq!(summaries, vec!["a -> dest".to_string(), "b -> dest".to_string()]);
        },
        BatchOutcome::Cancelled { .. } => panic!("a dry run is never cancelled"),
    }
    assert_eq!(content(&fs, "a"), "alpha");
    assert_eq!(content(&fs, "b"), "beta");
    assert!(!entry_present(&fs, "dest/a") && !entry_present(&fs, "dest/b"));
}

#[test]
fn preset_cancellation_stops_batch_before_work() {
    let mut fs = Fs::new();
    place_file(&mut fs, "a", "alpha");
    mkdir_all(&mut fs, "dest");
    let outcome = batch(
        &mut fs,
        &["a"],
        "dest",
        &ctx(MoveOrCopy::Move, false, false),
        &CancelToken { set: true },
    )
    .unwrap();
    assert!(matches!(outcome, BatchOutcome::Cancelled { .. }));
    assert_eq!(content(&fs, "a"), "alpha");
    assert!(!entry_present(&fs, "dest/a"));
}

#[test]
fn batch_summaries_stream_one_line_per_source() {
    let mut fs = Fs::new();
    place_file(&mut fs, "a", "alpha");
    place_file(&mut fs, "b", "beta");
    mkdir_all(&mut fs, "dest");
    let outcome = batch(
        &mut fs,
        &["a", "b"],
        "dest",
        &ctx(MoveOrCopy::Copy, false, false),
        &no_cancel(),
    )
    .unwrap();
    match outcome {
        BatchOutcome::Done { summaries } => {
            assert_eq!(summaries, vec!["a => dest".to_string(), "b => dest".to_string()]);
        },
        BatchOutcome::Cancelled { .. } => panic!("nothing requested cancellation"),
    }
}

#[test]
fn merge_reports_total_bytes() {
    let mut fs = Fs::new();
    place_file(&mut fs, "src/one", "ab");
    place_file(&mut fs, "src/sub/two", "cdef");
    mkdir_all(&mut fs, "dst");
    let r = merge_or_copy(
        &mut fs,
        &FsPath::parse("src"),
        &FsPath::parse("dst"),
        &ctx(MoveOrCopy::Copy, false, false),
        &no_cancel(),
    )
    .unwrap();
    match r {
        MergeStatus::Finished(out) => assert_eq!(out.bytes, 6),
        MergeStatus::Cancelled { .. } => panic!("nothing requested cancellation"),
    }
}

#[test]
fn path_parse_components_and_trailing_separator() {
    let p = FsPath::parse("b/c/");
    assert_eq!(p.comps, vec!["b".to_string(), "c".to_string()]);
    assert!(p.trailing_sep);
    let q = FsPath::parse("//a///b");
    assert_eq!(q.comps, vec!["a".to_string(), "b".to_string()]);
    assert!(!q.trailing_sep);
    let r = FsPath::parse("");
    assert!(r.comps.is_empty());
    assert!(!r.trailing_sep);
    assert_eq!(mvx::path::render_comps(&p.comps), "b/c");
}

#[test]
fn message_with_arrow_renders_mode() {
    assert_eq!(message_with_arrow("src", "dst", &MoveOrCopy::Move), "src -> dst");
    assert_eq!(message_with_arrow("src", "dst", &MoveOrCopy::Copy), "src => dst");
}

#[test]
fn os_error_classification_drives_the_ladder() {
    let cross: i32 = 18;
    let unsupported: i32 = 95;
    assert_eq!(classify_os_error(18, cross, unsupported), OsErrorClass::CrossDeviceFallback);
    assert_eq!(classify_os_error(95, cross, unsupported), OsErrorClass::UnsupportedPrimitive);
    assert_eq!(classify_os_error(13, cross, unsupported), OsErrorClass::Fatal);
    assert_eq!(next_step(OsErrorClass::CrossDeviceFallback), LadderStep::FallBack);
    assert_eq!(next_step(OsErrorClass::UnsupportedPrimitive), LadderStep::FallBack);
    assert_eq!(next_step(OsErrorClass::Fatal), LadderStep::Abort);
    assert_eq!(preferred_strategy(&MoveOrCopy::Move), Strategy::Rename);
    assert_eq!(preferred_strategy(&MoveOrCopy::Copy), Strategy::Reflink);
}

#[test]
fn destination_name_resolution_decision() {
    assert!(dest_appends_name(true, true, false));
    assert!(dest_appends_name(false, false, true));
    assert!(!dest_appends_name(false, true, true));
    assert!(!dest_appends_name(false, false, false));
}

#[test]
fn progress_positions_reach_exactly_the_length() {
    let positions = chunk_positions(10, 4);
    assert_eq!(positions, vec![4, 8, 10]);
    let empty = chunk_positions(0, 1024);
    assert_eq!(empty, vec![0]);
    let exact = chunk_positions(8, 4);
    assert_eq!(exact, vec![4, 8]);
}

#[test]
fn progress_cursor_offsets_and_saturates() {
    let cursor = ProgressCursor { base: 100 };
    assert_eq!(cursor.position(20), 120);
    let next = cursor.advanced(20);
    assert_eq!(next.base, 120);
    let near_top = ProgressCursor { base: u64::MAX - 1 };
    assert_eq!(near_top.position(5), u64::MAX);
}

#[test]
fn error_messages_name_their_condition() {
    let e = TransferError::SourceNotFound { path: "p".to_string() };
    assert_eq!(e.message(), "Source 'p' does not exist");
    let e = TransferError::DestinationExists { path: "q".to_string() };
    assert_eq!(e.message(), "Destination 'q' already exists (pass force to overwrite)");
    let e = TransferError::MixedSourceKinds;
    assert_eq!(e.message(), "Cannot mix file and directory sources in one batch.");
    let e = TransferError::NotADirectory { path: "r".to_string() };
    assert_eq!(e.message(), "Not a directory: 'r'");
}
