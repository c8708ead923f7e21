//! Concrete scenarios for the properties the coordinator keeps: staging,
//! copy and cut round trips, failure modes, and the partial progress of a
//! failing batch paste.

use explorer_core::clipboard::{ClipboardContent, ClipboardOperation, ClipboardState};
use explorer_core::commands::{archive_naming, ArchiveNaming};
use explorer_core::errors::FsErrorKind;
use explorer_core::fs_model::{FileSystem, FsPath};

fn path(components: &[&str]) -> FsPath {
    let mut p = FsPath::root();
    for c in components {
        p = p.join(c);
    }
    p
}

fn write(fs: &mut FileSystem, components: &[&str], data: &[u8]) -> FsPath {
    let p = path(components);
    fs.write_file(&p, data.to_vec()).expect("Failed to create test file");
    p
}

fn mkdir(fs: &mut FileSystem, components: &[&str]) -> FsPath {
    let p = path(components);
    fs.create_dir(&p).expect("Failed to create test directory");
    p
}

#[test]
fn stage_existing_path_always_loads_clipboard() {
    let mut fs = FileSystem::new();
    let file = write(&mut fs, &["f.txt"], b"x");
    let dir = mkdir(&mut fs, &["d"]);

    let mut clipboard = ClipboardState::new();
    clipboard.copy_path(&fs, &file).expect("Failed to stage file");
    assert!(clipboard.has_content());
    assert_eq!(clipboard.get_operation(), ClipboardOperation::Copy);

    let mut clipboard = ClipboardState::new();
    clipboard.copy_path(&fs, &dir).expect("Failed to stage directory");
    assert!(clipboard.has_content());
    assert_eq!(clipboard.get_operation(), ClipboardOperation::Copy);
}

#[test]
fn cut_paste_moves_bytes_and_resets_operation() {
    let mut fs = FileSystem::new();
    mkdir(&mut fs, &["from"]);
    let dest = mkdir(&mut fs, &["to"]);
    let src = write(&mut fs, &["from", "note.txt"], b"exact bytes");

    let mut clipboard = ClipboardState::new();
    clipboard.cut_item(&fs, &src).expect("Failed to stage cut");
    clipboard.paste_to_location(&mut fs, &dest).expect("Failed to paste");

    assert!(!fs.exists_at(&src), "Source must be gone after a cut-paste");
    let moved = fs.read_file(&path(&["to", "note.txt"])).expect("Destination must hold the file");
    assert_eq!(moved.as_slice(), b"exact bytes");
    assert_eq!(clipboard.get_operation(), ClipboardOperation::Idle);
}

#[test]
fn copy_paste_keeps_source_and_operation() {
    let mut fs = FileSystem::new();
    mkdir(&mut fs, &["from"]);
    let dest = mkdir(&mut fs, &["to"]);
    let src = write(&mut fs, &["from", "note.txt"], b"exact bytes");

    let mut clipboard = ClipboardState::new();
    clipboard.copy_path(&fs, &src).expect("Failed to stage copy");
    clipboard.paste_to_location(&mut fs, &dest).expect("Failed to paste");

    let original = fs.read_file(&src).expect("Source must remain after a copy-paste");
    assert_eq!(original.as_slice(), b"exact bytes");
    let copied = fs.read_file(&path(&["to", "note.txt"])).expect("Destination must hold the file");
    assert_eq!(copied.as_slice(), b"exact bytes");
    assert_eq!(clipboard.get_operation(), ClipboardOperation::Copy);
}

#[test]
fn paste_empty_leaves_destination_untouched() {
    let mut fs = FileSystem::new();
    let dest = mkdir(&mut fs, &["to"]);

    let mut clipboard = ClipboardState::new();
    let err = clipboard.paste_to_location(&mut fs, &dest).unwrap_err();
    assert_eq!(err.kind, FsErrorKind::EmptyClipboard);
    assert!(!fs.exists_at(&path(&["to", "clipboard_content.txt"])));
    assert!(!fs.exists_at(&path(&["to", "clipboard_content.bin"])));
}

#[test]
fn paste_to_file_destination_writes_nothing() {
    let mut fs = FileSystem::new();
    mkdir(&mut fs, &["from"]);
    let src = write(&mut fs, &["from", "note.txt"], b"bytes");
    let not_a_dir = write(&mut fs, &["plain.txt"], b"occupied");

    let mut clipboard = ClipboardState::new();
    clipboard.cut_item(&fs, &src).expect("Failed to stage cut");
    let err = clipboard.paste_to_location(&mut fs, &not_a_dir).unwrap_err();
    assert_eq!(err.kind, FsErrorKind::NotADirectory);

    // nothing moved, nothing written
    assert!(fs.exists_at(&src), "Source must be untouched");
    let untouched = fs.read_file(&not_a_dir).expect("Destination file must be untouched");
    assert_eq!(untouched.as_slice(), b"occupied");
    assert_eq!(clipboard.get_operation(), ClipboardOperation::Cut);
}

#[test]
fn paste_text_writes_exact_file_regardless_of_tag() {
    for operation in [ClipboardOperation::Copy, ClipboardOperation::Cut] {
        let mut fs = FileSystem::new();
        let dest = mkdir(&mut fs, &["to"]);
        let mut clipboard = ClipboardState::new_with_content(
            ClipboardContent::TextPayload("hello".to_string()),
            operation,
        );
        clipboard.paste_to_location(&mut fs, &dest).expect("Failed to paste text");
        let written = fs
            .read_file(&path(&["to", "clipboard_content.txt"]))
            .expect("clipboard_content.txt must be created");
        assert_eq!(written.as_slice(), b"hello");
    }
}

#[test]
fn paste_binary_writes_exact_file() {
    let mut fs = FileSystem::new();
    let dest = mkdir(&mut fs, &["to"]);
    let payload = [0xDEu8, 0xAD, 0xBE, 0xEF];
    let mut clipboard = ClipboardState::new_with_content(
        ClipboardContent::BinaryPayload(payload.to_vec()),
        ClipboardOperation::Copy,
    );
    clipboard.paste_to_location(&mut fs, &dest).expect("Failed to paste bytes");
    let written = fs
        .read_file(&path(&["to", "clipboard_content.bin"]))
        .expect("clipboard_content.bin must be created");
    assert_eq!(written.as_slice(), &payload);
}

#[test]
fn paste_empty_text_creates_empty_file() {
    let mut fs = FileSystem::new();
    let dest = mkdir(&mut fs, &["to"]);
    let mut clipboard = ClipboardState::new();
    clipboard.copy_text("").expect("Failed to stage empty text");
    clipboard.paste_to_location(&mut fs, &dest).expect("Failed to paste empty text");
    let written = fs
        .read_file(&path(&["to", "clipboard_content.txt"]))
        .expect("clipboard_content.txt must be created");
    assert!(written.is_empty());
}

#[test]
fn folder_copy_preserves_tree_and_source() {
    let mut fs = FileSystem::new();
    let src = mkdir(&mut fs, &["src"]);
    write(&mut fs, &["src", "a.txt"], b"alpha");
    mkdir(&mut fs, &["src", "sub"]);
    write(&mut fs, &["src", "sub", "b.txt"], b"beta");
    let dst = mkdir(&mut fs, &["dst"]);

    let mut clipboard = ClipboardState::new();
    clipboard.copy_path(&fs, &src).expect("Failed to stage folder");
    clipboard.paste_to_location(&mut fs, &dst).expect("Failed to paste folder");

    let a = fs.read_file(&path(&["dst", "src", "a.txt"])).expect("dst/src/a.txt must exist");
    assert_eq!(a.as_slice(), b"alpha");
    let b = fs
        .read_file(&path(&["dst", "src", "sub", "b.txt"]))
        .expect("dst/src/sub/b.txt must exist");
    assert_eq!(b.as_slice(), b"beta");

    // the source tree is intact after a copy
    assert_eq!(fs.read_file(&path(&["src", "a.txt"])).unwrap().as_slice(), b"alpha");
    assert_eq!(fs.read_file(&path(&["src", "sub", "b.txt"])).unwrap().as_slice(), b"beta");
}

#[test]
fn folder_cut_removes_whole_source_tree() {
    let mut fs = FileSystem::new();
    let src = mkdir(&mut fs, &["src"]);
    write(&mut fs, &["src", "a.txt"], b"alpha");
    mkdir(&mut fs, &["src", "sub"]);
    write(&mut fs, &["src", "sub", "b.txt"], b"beta");
    let dst = mkdir(&mut fs, &["dst"]);

    let mut clipboard = ClipboardState::new();
    clipboard.cut_item(&fs, &src).expect("Failed to stage folder cut");
    clipboard.paste_to_location(&mut fs, &dst).expect("Failed to paste folder");

    assert!(!fs.exists_at(&src), "Source root must be gone");
    assert!(!fs.exists_at(&path(&["src", "a.txt"])), "Source file must be gone");
    assert!(!fs.exists_at(&path(&["src", "sub"])), "Source subfolder must be gone");
    assert!(!fs.exists_at(&path(&["src", "sub", "b.txt"])), "Nested source file must be gone");

    assert_eq!(fs.read_file(&path(&["dst", "src", "a.txt"])).unwrap().as_slice(), b"alpha");
    assert_eq!(
        fs.read_file(&path(&["dst", "src", "sub", "b.txt"])).unwrap().as_slice(),
        b"beta"
    );
}

#[test]
fn multi_cut_paste_stops_at_vanished_item() {
    let mut fs = FileSystem::new();
    mkdir(&mut fs, &["from"]);
    let dest = mkdir(&mut fs, &["to"]);
    let a = write(&mut fs, &["from", "a.txt"], b"aa");
    let b = write(&mut fs, &["from", "b.txt"], b"bb");
    let c = write(&mut fs, &["from", "c.txt"], b"cc");

    let mut clipboard = ClipboardState::new();
    clipboard
        .cut_multiple_items(vec![a.duplicate(), b.duplicate(), c.duplicate()])
        .expect("Failed to stage batch cut");

    // the second item disappears between stage and commit
    fs.remove_path(&b).expect("Failed to remove the staged item");

    let err = clipboard.paste_to_location(&mut fs, &dest).unwrap_err();
    assert_eq!(err.kind, FsErrorKind::NotFound);
    assert_eq!(err.message(), "Path does not exist: /from/b.txt");

    // the first item was moved and stays moved
    assert!(!fs.exists_at(&a), "Earlier item must stay moved");
    assert_eq!(fs.read_file(&path(&["to", "a.txt"])).unwrap().as_slice(), b"aa");

    // the later item is untouched: not moved, still at its source
    assert!(fs.exists_at(&c), "Later item must be untouched");
    assert!(!fs.exists_at(&path(&["to", "c.txt"])), "Later item must not be at the destination");

    // the failed paste does not reset the cut flag
    assert_eq!(clipboard.get_operation(), ClipboardOperation::Cut);
}

#[test]
fn empty_batch_is_a_no_op() {
    let mut clipboard = ClipboardState::new();
    clipboard.copy_multiple_items(Vec::new()).expect("An empty batch is not an error");
    assert!(!clipboard.has_content());
    assert_eq!(clipboard.get_operation(), ClipboardOperation::Idle);

    clipboard.cut_multiple_items(Vec::new()).expect("An empty batch is not an error");
    assert!(!clipboard.has_content());
    assert_eq!(clipboard.get_operation(), ClipboardOperation::Idle);
}

#[test]
fn copy_into_occupied_destination_is_refused() {
    let mut fs = FileSystem::new();
    mkdir(&mut fs, &["from"]);
    let dest = mkdir(&mut fs, &["to"]);
    let src = write(&mut fs, &["from", "x.txt"], b"new");
    write(&mut fs, &["to", "x.txt"], b"old");

    let mut clipboard = ClipboardState::new();
    clipboard.copy_path(&fs, &src).expect("Failed to stage copy");
    let err = clipboard.paste_to_location(&mut fs, &dest).unwrap_err();
    assert_eq!(err.kind, FsErrorKind::AlreadyExists);

    // the occupant is untouched
    assert_eq!(fs.read_file(&path(&["to", "x.txt"])).unwrap().as_slice(), b"old");
}

#[test]
fn cut_folder_into_itself_is_refused() {
    let mut fs = FileSystem::new();
    let src = mkdir(&mut fs, &["src"]);
    let inner = mkdir(&mut fs, &["src", "inner"]);
    write(&mut fs, &["src", "f.txt"], b"f");

    let mut clipboard = ClipboardState::new();
    clipboard.cut_item(&fs, &src).expect("Failed to stage folder cut");
    let err = clipboard.paste_to_location(&mut fs, &inner).unwrap_err();
    assert_eq!(err.kind, FsErrorKind::InvalidPath);

    // the whole tree is untouched
    assert!(fs.exists_at(&src));
    assert!(fs.exists_at(&inner));
    assert_eq!(fs.read_file(&path(&["src", "f.txt"])).unwrap().as_slice(), b"f");
}

#[test]
fn mirror_follows_staged_text_and_paths() {
    let mut fs = FileSystem::new();
    let file = write(&mut fs, &["dir_a.txt"], b"x");

    let mut clipboard = ClipboardState::new();
    assert!(clipboard.mirror_text().is_none());

    clipboard.copy_text("hello").expect("Failed to stage text");
    assert_eq!(clipboard.mirror_text().as_deref(), Some("hello"));

    clipboard.copy_path(&fs, &file).expect("Failed to stage path");
    assert_eq!(clipboard.mirror_text().as_deref(), Some("/dir_a.txt"));
}

#[test]
fn error_messages_name_the_failing_path() {
    let mut fs = FileSystem::new();
    mkdir(&mut fs, &["a"]);
    let missing = path(&["a", "b.txt"]);

    let mut clipboard = ClipboardState::new();
    let err = explorer_core::commands::copy_to_clipboard_impl(&mut clipboard, &fs, &missing)
        .unwrap_err();
    assert_eq!(err.message(), "Path does not exist: /a/b.txt");
    assert_eq!(missing.to_text(), "/a/b.txt");
}

#[test]
fn nameless_batch_item_is_skipped() {
    let mut fs = FileSystem::new();
    mkdir(&mut fs, &["from"]);
    let dest = mkdir(&mut fs, &["to"]);
    let a = write(&mut fs, &["from", "a.txt"], b"aa");
    let c = write(&mut fs, &["from", "c.txt"], b"cc");

    // the middle item has no final name: it is skipped with a logged
    // error, and the paste goes on with the remaining items
    let mut clipboard = ClipboardState::new_with_content(
        ClipboardContent::MultipleItems(vec![a.duplicate(), FsPath::root(), c.duplicate()]),
        ClipboardOperation::Cut,
    );
    clipboard.paste_to_location(&mut fs, &dest).expect("A nameless item must not abort");

    assert!(!fs.exists_at(&a));
    assert!(!fs.exists_at(&c));
    assert_eq!(fs.read_file(&path(&["to", "a.txt"])).unwrap().as_slice(), b"aa");
    assert_eq!(fs.read_file(&path(&["to", "c.txt"])).unwrap().as_slice(), b"cc");
    assert_eq!(clipboard.get_operation(), ClipboardOperation::Idle);
}

#[test]
fn batch_stage_error_names_first_missing() {
    let mut fs = FileSystem::new();
    let present = write(&mut fs, &["here.txt"], b"x");
    let missing_one = path(&["gone_one.txt"]);
    let missing_two = path(&["gone_two.txt"]);

    let mut clipboard = ClipboardState::new();
    let err = explorer_core::commands::copy_multiple_items_impl(
        &mut clipboard,
        &fs,
        vec![present.duplicate(), missing_one.duplicate(), missing_two.duplicate()],
    )
    .unwrap_err();
    assert_eq!(err.message(), "Path does not exist: /gone_one.txt");

    let err = explorer_core::commands::cut_multiple_items_impl(
        &mut clipboard,
        &fs,
        vec![missing_two.duplicate(), missing_one.duplicate()],
    )
    .unwrap_err();
    assert_eq!(err.message(), "Path does not exist: /gone_two.txt");
}

#[test]
fn archive_naming_follows_the_rule() {
    assert!(matches!(archive_naming(0, None), ArchiveNaming::NoInputs));
    assert!(matches!(
        archive_naming(0, Some("ignored.zip".to_string())),
        ArchiveNaming::NoInputs
    ));
    assert!(matches!(archive_naming(1, None), ArchiveNaming::DerivedFromInput));
    match archive_naming(1, Some("out.zip".to_string())) {
        ArchiveNaming::Explicit(d) => assert_eq!(d, "out.zip"),
        _ => panic!("A given destination must be used"),
    }
    match archive_naming(3, Some("all.zip".to_string())) {
        ArchiveNaming::Explicit(d) => assert_eq!(d, "all.zip"),
        _ => panic!("A given destination must be used"),
    }
    assert!(matches!(archive_naming(2, None), ArchiveNaming::MissingDestination));
}
