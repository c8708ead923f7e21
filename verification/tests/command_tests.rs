//! The operations surface exercised against the modelled filesystem:
//! file and directory creation, renaming, copying, and the clipboard
//! commands with their validation.

use explorer_core::clipboard::{ClipboardContent, ClipboardOperation, ClipboardState};
use explorer_core::commands::{
    copy_file_content_to_clipboard_impl, copy_file_or_dir, copy_multiple_items_impl,
    copy_to_clipboard_impl, create_directory, create_file, cut_impl, cut_multiple_items_impl,
    get_clipboard_operation_impl, open_file, paste_from_clipboard_impl, rename,
};
use explorer_core::errors::FsErrorKind;
use explorer_core::fs_model::{FileSystem, FsPath};

fn path(components: &[&str]) -> FsPath {
    let mut p = FsPath::root();
    for c in components {
        p = p.join(c);
    }
    p
}

fn write(fs: &mut FileSystem, components: &[&str], data: &[u8]) -> FsPath {
    let p = path(components);
    fs.write_file(&p, data.to_vec()).expect("Failed to create test file");
    p
}

fn mkdir(fs: &mut FileSystem, components: &[&str]) -> FsPath {
    let p = path(components);
    fs.create_dir(&p).expect("Failed to create test directory");
    p
}

#[test]
fn open_file_test() {
    let mut fs = FileSystem::new();
    let test_path = write(&mut fs, &["open_file_test.txt"], b"Hello, world!\n");

    assert!(fs.exists_at(&test_path), "Test file should exist before reading");

    let result = open_file(&fs, &test_path);
    assert!(result.is_ok(), "Failed to open file");
    assert_eq!(
        result.unwrap(),
        "Hello, world!\n",
        "File contents do not match expected value"
    );
}

#[test]
fn create_file_test() {
    let mut fs = FileSystem::new();
    let base = mkdir(&mut fs, &["workdir"]);

    let result = create_file(&mut fs, &base, "create_file_test.txt");
    assert!(result.is_ok(), "Failed to create file");

    let test_path = path(&["workdir", "create_file_test.txt"]);
    assert!(fs.exists_at(&test_path), "File should exist after creation");
}

#[test]
fn create_directory_test() {
    let mut fs = FileSystem::new();
    let base = mkdir(&mut fs, &["workdir"]);

    let result = create_directory(&mut fs, &base, "create_directory_test");
    assert!(result.is_ok(), "Failed to create directory");

    let test_path = path(&["workdir", "create_directory_test"]);
    assert!(fs.exists_at(&test_path), "Directory should exist after creation");
}

#[test]
fn rename_file_test() {
    let mut fs = FileSystem::new();
    let test_path = write(&mut fs, &["rename_file_test.txt"], b"");

    assert!(fs.exists_at(&test_path), "Test file should exist before renaming");

    let new_path = path(&["renamed_file.txt"]);
    let result = rename(&mut fs, &test_path, &new_path);
    assert!(result.is_ok(), "Failed to rename file");

    assert!(fs.exists_at(&new_path), "File should exist at the new path");
}

#[test]
fn rename_directory_test() {
    let mut fs = FileSystem::new();
    let test_path = mkdir(&mut fs, &["rename_directory_test"]);

    assert!(fs.exists_at(&test_path), "Test directory should exist before renaming");

    let new_path = path(&["renamed_directory"]);
    let result = rename(&mut fs, &test_path, &new_path);
    assert!(result.is_ok(), "Failed to rename directory");

    assert!(fs.exists_at(&new_path), "Directory should exist at the new path");
}

#[test]
fn copy_file_test() {
    let mut fs = FileSystem::new();
    let test_path = write(&mut fs, &["copy_file_test.txt"], b"");

    assert!(fs.exists_at(&test_path), "Test file should exist before copying");

    let new_path = path(&["copied_file.txt"]);
    let result = copy_file_or_dir(&mut fs, &test_path, &new_path);
    assert!(result.is_ok(), "Failed to copy file");

    assert!(fs.exists_at(&new_path), "Copied file should exist at the new path");
    assert!(fs.exists_at(&test_path), "Original file should still exist");
}

#[test]
fn copy_directory_test() {
    let mut fs = FileSystem::new();
    let test_path = mkdir(&mut fs, &["copy_directory_test"]);
    let file_in_dir = write(
        &mut fs,
        &["copy_directory_test", "file_in_dir.txt"],
        b"Content of file in directory\n",
    );
    let subdir = mkdir(&mut fs, &["copy_directory_test", "subdir"]);
    let file_in_subdir = write(
        &mut fs,
        &["copy_directory_test", "subdir", "file_in_subdir.txt"],
        b"Content of file in subdirectory\n",
    );

    assert!(fs.exists_at(&test_path), "Test directory should exist before copying");
    assert!(fs.exists_at(&file_in_dir), "File in directory should exist before copying");
    assert!(fs.exists_at(&subdir), "Subdirectory should exist before copying");
    assert!(fs.exists_at(&file_in_subdir), "File in subdirectory should exist before copying");

    let copied_dir = path(&["copied_directory"]);
    let result = copy_file_or_dir(&mut fs, &test_path, &copied_dir);
    assert!(result.is_ok(), "Failed to copy directory");

    assert!(fs.exists_at(&copied_dir), "Copied directory should exist");
    assert!(
        fs.exists_at(&path(&["copied_directory", "file_in_dir.txt"])),
        "Copied file in directory should exist"
    );
    assert!(
        fs.exists_at(&path(&["copied_directory", "subdir"])),
        "Copied subdirectory should exist"
    );
    assert!(
        fs.exists_at(&path(&["copied_directory", "subdir", "file_in_subdir.txt"])),
        "Copied file in subdirectory should exist"
    );

    assert!(fs.exists_at(&test_path), "Original directory should still exist");
    assert!(fs.exists_at(&file_in_dir), "Original file in directory should still exist");
    assert!(fs.exists_at(&subdir), "Original subdirectory should still exist");
    assert!(fs.exists_at(&file_in_subdir), "Original file in subdirectory should still exist");
}

#[test]
fn paste_from_clipboard_file_test() {
    let mut fs = FileSystem::new();
    mkdir(&mut fs, &["source"]);
    let dest_dir = mkdir(&mut fs, &["dest"]);
    let test_file = write(&mut fs, &["source", "test_file.txt"], b"Test content");

    let mut clipboard = ClipboardState::new_with_content(
        ClipboardContent::SingleFile(test_file.duplicate()),
        ClipboardOperation::Copy,
    );

    let result = paste_from_clipboard_impl(&mut clipboard, &mut fs, &dest_dir);
    assert!(result.is_ok(), "Paste operation failed");

    let dest_file = path(&["dest", "test_file.txt"]);
    let content = fs.read_file(&dest_file).expect("File should exist at destination after paste");
    assert!(fs.exists_at(&test_file), "Source file should still exist after copy operation");
    assert_eq!(content.as_slice(), b"Test content", "File content should match");
}

#[test]
fn paste_from_clipboard_cut_file_test() {
    let mut fs = FileSystem::new();
    mkdir(&mut fs, &["source"]);
    let dest_dir = mkdir(&mut fs, &["dest"]);
    let test_file = write(&mut fs, &["source", "cut_test_file.txt"], b"Cut file content");

    let mut clipboard = ClipboardState::new_with_content(
        ClipboardContent::SingleFile(test_file.duplicate()),
        ClipboardOperation::Cut,
    );

    let result = paste_from_clipboard_impl(&mut clipboard, &mut fs, &dest_dir);
    assert!(result.is_ok(), "Paste operation failed");

    let dest_file = path(&["dest", "cut_test_file.txt"]);
    let content = fs.read_file(&dest_file).expect("File should exist at destination after paste");
    assert!(!fs.exists_at(&test_file), "Source file should no longer exist after cut operation");
    assert_eq!(content.as_slice(), b"Cut file content", "File content should match");
}

#[test]
fn paste_from_clipboard_directory_test() {
    let mut fs = FileSystem::new();
    mkdir(&mut fs, &["source"]);
    let dest_dir = mkdir(&mut fs, &["dest"]);
    let test_dir = mkdir(&mut fs, &["source", "test_dir"]);
    write(&mut fs, &["source", "test_dir", "file_in_dir.txt"], b"Directory test content");

    let mut clipboard = ClipboardState::new_with_content(
        ClipboardContent::SingleFolder(test_dir.duplicate()),
        ClipboardOperation::Copy,
    );

    let result = paste_from_clipboard_impl(&mut clipboard, &mut fs, &dest_dir);
    assert!(result.is_ok(), "Paste operation failed");

    let dest_dir_path = path(&["dest", "test_dir"]);
    let dest_file_path = path(&["dest", "test_dir", "file_in_dir.txt"]);

    assert!(fs.is_dir_at(&dest_dir_path), "Directory should exist at destination after paste");
    let content = fs
        .read_file(&dest_file_path)
        .expect("File in directory should exist at destination after paste");
    assert_eq!(content.as_slice(), b"Directory test content", "File content should match");
}

#[test]
fn paste_from_clipboard_text_test() {
    let mut fs = FileSystem::new();
    let dest_dir = mkdir(&mut fs, &["dest"]);

    let mut clipboard = ClipboardState::new_with_content(
        ClipboardContent::TextPayload("Clipboard text content".to_string()),
        ClipboardOperation::Copy,
    );

    let result = paste_from_clipboard_impl(&mut clipboard, &mut fs, &dest_dir);
    assert!(result.is_ok(), "Paste operation failed");

    let dest_file = path(&["dest", "clipboard_content.txt"]);
    let content = fs
        .read_file(&dest_file)
        .expect("Text file should exist at destination after paste");
    assert_eq!(content.as_slice(), b"Clipboard text content", "Text content should match");
}

#[test]
fn paste_from_clipboard_multiple_items_test() {
    let mut fs = FileSystem::new();
    mkdir(&mut fs, &["source"]);
    let dest_dir = mkdir(&mut fs, &["dest"]);

    let file1 = write(&mut fs, &["source", "file1.txt"], b"File 1 content");
    let file2 = write(&mut fs, &["source", "file2.txt"], b"File 2 content");

    let mut clipboard = ClipboardState::new_with_content(
        ClipboardContent::MultipleItems(vec![file1.duplicate(), file2.duplicate()]),
        ClipboardOperation::Copy,
    );

    let result = paste_from_clipboard_impl(&mut clipboard, &mut fs, &dest_dir);
    assert!(result.is_ok(), "Paste operation failed");

    let dest_file1 = path(&["dest", "file1.txt"]);
    let dest_file2 = path(&["dest", "file2.txt"]);

    let content1 = fs.read_file(&dest_file1).expect("File1 should exist at destination");
    let content2 = fs.read_file(&dest_file2).expect("File2 should exist at destination");
    assert_eq!(content1.as_slice(), b"File 1 content", "File1 content should match");
    assert_eq!(content2.as_slice(), b"File 2 content", "File2 content should match");
}

#[test]
fn paste_from_clipboard_empty_clipboard_test() {
    let mut fs = FileSystem::new();
    let dest_dir = mkdir(&mut fs, &["dest"]);

    let mut clipboard = ClipboardState::new();

    let result = paste_from_clipboard_impl(&mut clipboard, &mut fs, &dest_dir);
    assert!(result.is_err(), "Paste operation should fail with empty clipboard");
    assert_eq!(result.unwrap_err().message(), "Clipboard is empty");
}

#[test]
fn paste_from_clipboard_invalid_destination_test() {
    let mut fs = FileSystem::new();
    mkdir(&mut fs, &["source"]);
    let test_file = write(&mut fs, &["source", "test_file.txt"], b"Test content");

    let mut clipboard = ClipboardState::new_with_content(
        ClipboardContent::SingleFile(test_file.duplicate()),
        ClipboardOperation::Copy,
    );

    let invalid = path(&["path", "that", "does", "not", "exist"]);
    let result = paste_from_clipboard_impl(&mut clipboard, &mut fs, &invalid);
    assert!(result.is_err(), "Paste operation should fail with invalid destination");
    assert!(result.unwrap_err().message().contains("Path does not exist"));
}

#[test]
fn test_clipboard_error_handling() {
    let mut fs = FileSystem::new();
    mkdir(&mut fs, &["source"]);
    let temp_file = write(&mut fs, &["source", "temp_file.txt"], b"Temporary content");

    let mut clipboard = ClipboardState::new();

    // Copy a non-existent file
    let non_existent = path(&["source", "non_existent.txt"]);
    let result = copy_to_clipboard_impl(&mut clipboard, &fs, &non_existent);
    assert!(result.is_err(), "Expected error when copying non-existent file");
    assert!(result.unwrap_err().message().contains("Path does not exist"));

    // Cut a non-existent file
    let result = cut_impl(&mut clipboard, &fs, &non_existent);
    assert!(result.is_err(), "Expected error when cutting non-existent file");
    assert!(result.unwrap_err().message().contains("Path does not exist"));

    // Paste to a non-existent directory
    let result = copy_to_clipboard_impl(&mut clipboard, &fs, &temp_file);
    assert!(result.is_ok(), "Failed to copy valid file to clipboard");

    let non_existent_dir = path(&["source", "non_existent_dir"]);
    let result = paste_from_clipboard_impl(&mut clipboard, &mut fs, &non_existent_dir);
    assert!(result.is_err(), "Expected error when pasting to non-existent directory");
    assert!(result.unwrap_err().message().contains("Path does not exist"));

    // Copy multiple non-existent items
    let also_missing = path(&["source", "also_not_exists.txt"]);
    let result = copy_multiple_items_impl(
        &mut clipboard,
        &fs,
        vec![non_existent.duplicate(), also_missing.duplicate()],
    );
    assert!(result.is_err(), "Expected error when copying multiple non-existent items");

    // Cut multiple items with at least one non-existent
    let result = cut_multiple_items_impl(
        &mut clipboard,
        &fs,
        vec![temp_file.duplicate(), non_existent.duplicate()],
    );
    assert!(result.is_err(), "Expected error when cutting multiple items with non-existent path");
}

#[test]
fn test_get_clipboard_operation() {
    let mut fs = FileSystem::new();
    let temp_file = write(&mut fs, &["test.txt"], b"Test content");

    let mut clipboard = ClipboardState::new();
    let operation = get_clipboard_operation_impl(&clipboard);
    assert_eq!(
        operation.unwrap(),
        ClipboardOperation::Idle,
        "New clipboard should have no operation"
    );

    clipboard.copy_path(&fs, &temp_file).expect("Failed to copy to clipboard");
    let operation = get_clipboard_operation_impl(&clipboard);
    assert_eq!(
        operation.unwrap(),
        ClipboardOperation::Copy,
        "Clipboard should have Copy operation"
    );

    clipboard.cut_item(&fs, &temp_file).expect("Failed to cut to clipboard");
    let operation = get_clipboard_operation_impl(&clipboard);
    assert_eq!(operation.unwrap(), ClipboardOperation::Cut, "Clipboard should have Cut operation");
}

#[test]
fn test_copy_file_content_to_clipboard() {
    let mut fs = FileSystem::new();
    let text_file = write(&mut fs, &["content.txt"], b"Test file content");
    let binary_file = write(&mut fs, &["binary.dat"], &[0u8, 1, 2, 3, 4, 5]);
    let test_dir = mkdir(&mut fs, &["test_dir"]);

    let mut clipboard = ClipboardState::new();

    // Copy text file content
    let result = copy_file_content_to_clipboard_impl(&mut clipboard, &fs, &text_file);
    assert!(result.is_ok(), "Failed to copy text file content");
    match clipboard.get_content() {
        ClipboardContent::TextPayload(content) => {
            assert_eq!(content.as_str(), "Test file content", "Text content should match original file");
        },
        _ => panic!("Expected TextPayload in clipboard after copying text file"),
    }

    // Copy binary file content
    let result = copy_file_content_to_clipboard_impl(&mut clipboard, &fs, &binary_file);
    assert!(result.is_ok(), "Failed to copy binary file content");

    // Copying a directory's content fails
    let result = copy_file_content_to_clipboard_impl(&mut clipboard, &fs, &test_dir);
    assert!(result.is_err(), "Should fail when trying to copy directory content");
    assert!(result.unwrap_err().message().contains("Path is not a file"));

    // Copying a non-existent file fails
    let non_existent = path(&["does_not_exist.txt"]);
    let result = copy_file_content_to_clipboard_impl(&mut clipboard, &fs, &non_existent);
    assert!(result.is_err(), "Should fail when trying to copy non-existent file");
    assert!(result.unwrap_err().message().contains("Path does not exist"));
}

#[test]
fn file_system_operation_commands_test_copy_multiple_items() {
    let mut fs = FileSystem::new();
    let file1 = write(&mut fs, &["file1.txt"], b"File 1 content");
    let file2 = write(&mut fs, &["file2.txt"], b"File 2 content");
    let subdir = mkdir(&mut fs, &["subdir"]);

    let mut clipboard = ClipboardState::new();

    let items = vec![file1.duplicate(), file2.duplicate(), subdir.duplicate()];
    let result = copy_multiple_items_impl(&mut clipboard, &fs, items);
    assert!(result.is_ok(), "Failed to copy multiple items");

    match clipboard.get_content() {
        ClipboardContent::MultipleItems(paths) => {
            assert_eq!(paths.len(), 3, "Clipboard should contain 3 items");
            assert!(paths.iter().any(|p| p.path_eq(&file1)), "Clipboard missing file1");
            assert!(paths.iter().any(|p| p.path_eq(&file2)), "Clipboard missing file2");
            assert!(paths.iter().any(|p| p.path_eq(&subdir)), "Clipboard missing subdirectory");
            assert_eq!(
                clipboard.get_operation(),
                ClipboardOperation::Copy,
                "Operation should be Copy"
            );
        },
        _ => panic!("Expected MultipleItems in clipboard"),
    }
}

#[test]
fn test_cut_multiple_items() {
    let mut fs = FileSystem::new();
    mkdir(&mut fs, &["source"]);
    let file1 = write(&mut fs, &["source", "file1.txt"], b"File 1 content");
    let file2 = write(&mut fs, &["source", "file2.txt"], b"File 2 content");

    let mut clipboard = ClipboardState::new();

    let items = vec![file1.duplicate(), file2.duplicate()];
    let result = cut_multiple_items_impl(&mut clipboard, &fs, items);
    assert!(result.is_ok(), "Failed to cut multiple items");

    match clipboard.get_content() {
        ClipboardContent::MultipleItems(paths) => {
            assert_eq!(paths.len(), 2, "Clipboard should contain 2 items");
            assert!(paths.iter().any(|p| p.path_eq(&file1)), "Clipboard missing file1");
            assert!(paths.iter().any(|p| p.path_eq(&file2)), "Clipboard missing file2");
            assert_eq!(
                clipboard.get_operation(),
                ClipboardOperation::Cut,
                "Operation should be Cut"
            );
        },
        _ => panic!("Expected MultipleItems in clipboard"),
    }

    // Files should still exist until paste operation
    assert!(fs.exists_at(&file1), "File1 should still exist after cut (before paste)");
    assert!(fs.exists_at(&file2), "File2 should still exist after cut (before paste)");

    // Create destination directory and paste
    let dest_dir = mkdir(&mut fs, &["dest"]);
    let result = paste_from_clipboard_impl(&mut clipboard, &mut fs, &dest_dir);
    assert!(result.is_ok(), "Failed to paste cut items");

    // After paste, original files should be gone and new files should exist
    assert!(!fs.exists_at(&file1), "File1 should no longer exist after paste");
    assert!(!fs.exists_at(&file2), "File2 should no longer exist after paste");

    let dest_file1 = path(&["dest", "file1.txt"]);
    let dest_file2 = path(&["dest", "file2.txt"]);

    let content1 = fs.read_file(&dest_file1).expect("File1 should exist at destination");
    let content2 = fs.read_file(&dest_file2).expect("File2 should exist at destination");
    assert_eq!(content1.as_slice(), b"File 1 content", "File1 content should match original");
    assert_eq!(content2.as_slice(), b"File 2 content", "File2 content should match original");
}

#[test]
fn open_file_rejects_missing_non_file_and_binary() {
    let mut fs = FileSystem::new();
    let dir = mkdir(&mut fs, &["a_dir"]);
    let binary = write(&mut fs, &["raw.bin"], &[0xC0u8, 0x00]);

    let missing = path(&["nowhere.txt"]);
    let err = open_file(&fs, &missing).unwrap_err();
    assert_eq!(err.kind, FsErrorKind::NotFound);

    let err = open_file(&fs, &dir).unwrap_err();
    assert_eq!(err.kind, FsErrorKind::NotAFile);

    let err = open_file(&fs, &binary).unwrap_err();
    assert_eq!(err.kind, FsErrorKind::InvalidData);
}

#[test]
fn rename_rejects_taken_destination() {
    let mut fs = FileSystem::new();
    let a = write(&mut fs, &["a.txt"], b"a");
    let b = write(&mut fs, &["b.txt"], b"b");

    let err = rename(&mut fs, &a, &b).unwrap_err();
    assert_eq!(err.kind, FsErrorKind::AlreadyExists);
    assert_eq!(err.message(), "Path already exists: /b.txt");
}

#[test]
fn copy_directory_creates_destination_chain() {
    let mut fs = FileSystem::new();
    let tree = mkdir(&mut fs, &["tree"]);
    write(&mut fs, &["tree", "leaf.txt"], b"leaf");

    // every missing ancestor of the destination is created on the way
    let deep = path(&["a", "b", "c"]);
    copy_file_or_dir(&mut fs, &tree, &deep).expect("Failed to copy into a fresh chain");
    assert!(fs.is_dir_at(&path(&["a"])));
    assert!(fs.is_dir_at(&path(&["a", "b"])));
    let copied = fs.read_file(&path(&["a", "b", "c", "leaf.txt"])).expect("Leaf must be copied");
    assert_eq!(copied.as_slice(), b"leaf");

    // a file on the chain stops the copy before anything is written
    write(&mut fs, &["blocked"], b"file");
    let err = copy_file_or_dir(&mut fs, &tree, &path(&["blocked", "c"])).unwrap_err();
    assert_eq!(err.kind, FsErrorKind::NotADirectory);
    assert!(!fs.exists_at(&path(&["blocked", "c"])));
}

#[test]
fn copy_file_or_dir_reports_total_size() {
    let mut fs = FileSystem::new();
    let tree = mkdir(&mut fs, &["tree"]);
    write(&mut fs, &["tree", "one.bin"], &[1u8, 2, 3, 4, 5]);
    mkdir(&mut fs, &["tree", "sub"]);
    write(&mut fs, &["tree", "sub", "two.bin"], &[6u8, 7, 8, 9, 10, 11, 12]);

    let dest = path(&["tree_copy"]);
    let size = copy_file_or_dir(&mut fs, &tree, &dest).expect("Failed to copy directory");
    assert_eq!(size, 12, "Total copied size should be the sum of the file sizes");

    let single = path(&["tree", "one.bin"]);
    let single_dest = path(&["one_copy.bin"]);
    let size = copy_file_or_dir(&mut fs, &single, &single_dest).expect("Failed to copy file");
    assert_eq!(size, 5, "Copied file size should be its length");
}
