//! Single-file transfers: destination resolution, the conflict policy,
//! parent creation, and the error taxonomy.

use mvx::error::TransferError;
use mvx::file::move_or_copy;
use mvx::fsmodel::Fs;
use mvx::path::FsPath;
use mvx::{CancelToken, MoveOrCopy, TransferContext};

fn ctx(mode: MoveOrCopy, force: bool) -> TransferContext {
    TransferContext { mode, force, dry_run: false }
}

fn place_file(fs: &mut Fs, path: &str, content: &str) {
    let p = FsPath::parse(path);
    if p.comps.len() > 1 {
        assert!(fs.create_dir_all(&p.parent()));
    }
    fs.write_file(&p, content.as_bytes().to_vec());
}

fn entry_present(fs: &Fs, path: &str) -> bool {
    fs.exists_at(&FsPath::parse(path))
}

fn content(fs: &Fs, path: &str) -> String {
    let bytes = fs.read_file(&FsPath::parse(path)).expect("expected a regular file");
    String::from_utf8(bytes).expect("test contents are text")
}

fn move_file(fs: &mut Fs, src: &str, dest: &str, force: bool) -> Result<(), TransferError> {
    move_or_copy(fs, &FsPath::parse(src), &FsPath::parse(dest), &ctx(MoveOrCopy::Move, force))
        .map(|_| ())
}

fn copy_file(fs: &mut Fs, src: &str, dest: &str, force: bool) -> Result<(), TransferError> {
    move_or_copy(fs, &FsPath::parse(src), &FsPath::parse(dest), &ctx(MoveOrCopy::Copy, force))
        .map(|_| ())
}

fn assert_file_moved(fs: &Fs, src: &str, dest: &str, expected: &str) {
    assert!(!entry_present(fs, src), "source still exists at {}", src);
    assert!(entry_present(fs, dest), "destination does not exist at {}", dest);
    assert_eq!(content(fs, dest), expected, "content does not match after move");
}

fn assert_file_copied(fs: &Fs, src: &str, dest: &str) {
    assert!(entry_present(fs, src), "source does not exist at {}", src);
    assert!(entry_present(fs, dest), "destination does not exist at {}", dest);
    assert_eq!(content(fs, src), content(fs, dest), "content differs after copy");
}

fn assert_file_not_moved(fs: &Fs, src: &str, dest: &str) {
    assert!(entry_present(fs, src), "source does not exist at {}", src);
    assert!(!entry_present(fs, dest), "destination should not exist at {}", dest);
}

fn assert_error_with_msg(result: Result<(), TransferError>, msg: &str) {
    let e = result.expect_err("expected an error, but got success");
    let text = e.message();
    assert!(text.contains(msg), "error message lacks '{}': {}", msg, text);
}

#[test]
fn move_file_with_absolute_path() {
    let mut fs = Fs::new();
    let src_content = "This is a test file";
    place_file(&mut fs, "work/a", src_content);
    move_file(&mut fs, "work/a", "work/b", false).unwrap();
    assert_file_moved(&fs, "work/a", "work/b", src_content);
}

#[test]
fn copy_file_with_absolute_path() {
    let mut fs = Fs::new();
    place_file(&mut fs, "work/a", "This is a test file");
    copy_file(&mut fs, "work/a", "work/b", false).unwrap();
    assert_file_copied(&fs, "work/a", "work/b");
}

#[test]
fn move_file_with_relative_paths() {
    let mut fs = Fs::new();
    let src_content = "This is a test file";
    place_file(&mut fs, "a", src_content);
    move_file(&mut fs, "a", "b", false).unwrap();
    assert_file_moved(&fs, "a", "b", src_content);
}

#[test]
fn copy_file_with_relative_paths() {
    let mut fs = Fs::new();
    place_file(&mut fs, "a", "This is a test file");
    copy_file(&mut fs, "a", "b", false).unwrap();
    assert_file_copied(&fs, "a", "b");
}

#[test]
fn move_file_overwrites() {
    let mut fs = Fs::new();
    let src_content = "This is a test file";
    place_file(&mut fs, "work/a", src_content);
    place_file(&mut fs, "work/b", "This is a different file");
    move_file(&mut fs, "work/a", "work/b", true).unwrap();
    assert_file_moved(&fs, "work/a", "work/b", src_content);
}

#[test]
fn copy_file_overwrites() {
    let mut fs = Fs::new();
    place_file(&mut fs, "work/a", "This is a test file");
    place_file(&mut fs, "work/b", "This is a different file");
    copy_file(&mut fs, "work/a", "work/b", true).unwrap();
    assert_file_copied(&fs, "work/a", "work/b");
}

#[test]
fn move_file_fails_with_nonexistent_source() {
    let mut fs = Fs::new();
    let dest_content = "This is a test file";
    place_file(&mut fs, "work/b", dest_content);
    assert!(!entry_present(&fs, "work/a"), "Source file should not exist initially");
    assert_error_with_msg(move_file(&mut fs, "work/a", "/dest/does/not/matter", false), "does not exist");
    assert_eq!(content(&fs, "work/b"), dest_content, "Destination file content should remain unchanged");
}

#[test]
fn copy_file_fails_with_nonexistent_source() {
    let mut fs = Fs::new();
    let dest_content = "This is a test file";
    place_file(&mut fs, "work/b", dest_content);
    assert!(!entry_present(&fs, "work/a"), "Source file should not exist initially");
    assert_error_with_msg(copy_file(&mut fs, "work/a", "/dest/does/not/matter", false), "does not exist");
    assert_eq!(content(&fs, "work/b"), dest_content, "Destination file content should remain unchanged");
}

#[test]
fn move_file_creates_intermediate_directories() {
    let mut fs = Fs::new();
    let src_content = "This is a test file";
    place_file(&mut fs, "work/a", src_content);
    let deep = "work/b/c/d/e/f/g/h/i/j/k/l/m/n/o/p/q/r/s/t/u/v/w/x/y/z";
    move_file(&mut fs, "work/a", deep, false).unwrap();
    assert_file_moved(&fs, "work/a", deep, src_content);
    assert!(fs.is_dir_at(&FsPath::parse("work/b/c/d")));
}

#[test]
fn copy_file_creates_intermediate_directories() {
    let mut fs = Fs::new();
    place_file(&mut fs, "work/a", "This is a test file");
    let deep = "work/b/c/d/e/f/g/h/i/j/k/l/m/n/o/p/q/r/s/t/u/v/w/x/y/z";
    copy_file(&mut fs, "work/a", deep, false).unwrap();
    assert_file_copied(&fs, "work/a", deep);
}

#[test]
fn move_file_fails_when_cant_create_intermediate_directories() {
    let mut fs = Fs::new();
    place_file(&mut fs, "work/a", "This is a test file");
    place_file(&mut fs, "work/b/c/d", "");
    let deep = "work/b/c/d/e/f/g/h/i/j/k/l/m/n/o/p/q/r/s/t/u/v/w/x/y/z";
    assert_error_with_msg(move_file(&mut fs, "work/a", deep, false), "Not a directory");
    assert_file_not_moved(&fs, "work/a", deep);
}

#[test]
fn copy_file_fails_when_cant_create_intermediate_directories() {
    let mut fs = Fs::new();
    place_file(&mut fs, "work/a", "This is a test file");
    place_file(&mut fs, "work/b/c/d", "");
    let deep = "work/b/c/d/e/f/g/h/i/j/k/l/m/n/o/p/q/r/s/t/u/v/w/x/y/z";
    assert_error_with_msg(copy_file(&mut fs, "work/a", deep, false), "Not a directory");
    assert_file_not_moved(&fs, "work/a", deep);
}

#[test]
fn move_conflict_without_force_is_policy_rejection() {
    let mut fs = Fs::new();
    place_file(&mut fs, "a", "new content");
    place_file(&mut fs, "b", "original content");
    let err = move_file(&mut fs, "a", "b", false).expect_err("conflict must be rejected");
    match &err {
        TransferError::DestinationExists { path } => assert_eq!(path, "b"),
        other => panic!("expected DestinationExists, got: {}", other.message()),
    }
    assert_eq!(content(&fs, "b"), "original content");
    assert_eq!(content(&fs, "a"), "new content");
}

#[test]
fn copy_conflict_without_force_is_policy_rejection() {
    let mut fs = Fs::new();
    place_file(&mut fs, "a", "new content");
    place_file(&mut fs, "b", "original content");
    assert_error_with_msg(copy_file(&mut fs, "a", "b", false), "already exists");
    assert_eq!(content(&fs, "b"), "original content");
}

#[test]
fn conflict_with_force_overwrites() {
    let mut fs = Fs::new();
    place_file(&mut fs, "a", "new content");
    place_file(&mut fs, "b", "original content");
    move_file(&mut fs, "a", "b", true).unwrap();
    assert_eq!(content(&fs, "b"), "new content");
    assert!(!entry_present(&fs, "a"));
}

#[test]
fn move_source_that_is_directory_is_rejected() {
    let mut fs = Fs::new();
    assert!(fs.create_dir_all(&FsPath::parse("d")));
    assert_error_with_msg(move_file(&mut fs, "d", "e", false), "is not a file");
}

#[test]
fn destination_kind_mismatch_is_reported() {
    let mut fs = Fs::new();
    place_file(&mut fs, "a", "payload");
    // The destination directory already contains a directory named "a".
    assert!(fs.create_dir_all(&FsPath::parse("dest/a")));
    assert_error_with_msg(move_file(&mut fs, "a", "dest", false), "is not a file");
    assert_eq!(content(&fs, "a"), "payload");
}

#[test]
fn trailing_separator_creates_directory() {
    let mut fs = Fs::new();
    place_file(&mut fs, "file_a", "payload");
    move_file(&mut fs, "file_a", "newdir/", false).unwrap();
    assert!(fs.is_dir_at(&FsPath::parse("newdir")));
    assert_eq!(content(&fs, "newdir/file_a"), "payload");
    assert!(!entry_present(&fs, "file_a"));
}

#[test]
fn move_into_existing_directory_takes_source_name() {
    let mut fs = Fs::new();
    place_file(&mut fs, "a", "payload");
    assert!(fs.create_dir_all(&FsPath::parse("d")));
    move_file(&mut fs, "a", "d", false).unwrap();
    assert_eq!(content(&fs, "d/a"), "payload");
}

#[test]
fn transfer_reports_bytes_and_summary_line() {
    let mut fs = Fs::new();
    place_file(&mut fs, "a", "12345");
    let out = move_or_copy(
        &mut fs,
        &FsPath::parse("a"),
        &FsPath::parse("b"),
        &ctx(MoveOrCopy::Move, false),
    )
    .unwrap();
    assert_eq!(out.bytes, 5);
    assert_eq!(out.message, "a -> b");
    let mut fs2 = Fs::new();
    place_file(&mut fs2, "a", "12345");
    let out2 = move_or_copy(
        &mut fs2,
        &FsPath::parse("a"),
        &FsPath::parse("b"),
        &ctx(MoveOrCopy::Copy, false),
    )
    .unwrap();
    assert_eq!(out2.message, "a => b");
}

#[test]
fn cancel_token_reads_back_its_flag() {
    let set = CancelToken { set: true };
    let unset = CancelToken { set: false };
    assert!(set.is_set());
    assert!(!unset.is_set());
}
