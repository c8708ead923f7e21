//! The operations surface the embedding application exposes: validated
//! single-shot filesystem actions, and the clipboard commands that wrap
//! the coordinator.  Each command validates its inputs first and fails
//! before any write occurs.

use crate::clipboard::{
    batch_error_names_item, bytes_to_text, paste_spec, ClipboardOperation, ClipboardState,
};
use crate::errors::{FsError, FsErrorKind};
use crate::fs_model::{
    copy_file_spec, create_dir_all_spec, create_dir_spec, graft_map, is_proper_prefix_of,
    lemma_graft_into_fresh, move_tree_spec, valid_path_v, write_file_spec, FileSystem, FsPath,
    NodeV,
};
use vstd::prelude::*;
use vstd::utf8::{decode_utf8, valid_utf8};

verus! {

/// Open the text file at `path` and return its contents.
/// Fails on a missing path, a non-file, or bytes that are not UTF-8.
pub fn open_file(fs: &FileSystem, path: &FsPath) -> (r: Result<String, FsError>)
    requires
        fs.wf(),
    ensures
        (r is Ok) == (fs@.contains_key(path@) && fs@[path@] is File && valid_utf8(
            fs@[path@]->File_data,
        )),
        r matches Ok(text) ==> text@ == decode_utf8(fs@[path@]->File_data),
        r matches Err(e) ==> e.path@ == path@ && e.kind == (if !fs@.contains_key(path@) {
            FsErrorKind::NotFound
        } else if !(fs@[path@] is File) {
            FsErrorKind::NotAFile
        } else {
            FsErrorKind::InvalidData
        }),
{
    if !fs.exists_at(path) {
        return Err(FsError { kind: FsErrorKind::NotFound, path: path.duplicate() });
    }
    let data = match fs.read_file(path) {
        Some(data) => data,
        None => {
            return Err(FsError { kind: FsErrorKind::NotAFile, path: path.duplicate() });
        },
    };
    match bytes_to_text(data) {
        Ok(text) => Ok(text),
        Err(_) => Err(FsError { kind: FsErrorKind::InvalidData, path: path.duplicate() }),
    }
}

/// Create an empty file named `file_name` inside `folder`, truncating a
/// file already there.  The folder must exist and be a directory.
pub fn create_file(fs: &mut FileSystem, folder: &FsPath, file_name: &str) -> (r: Result<
    (),
    FsError,
>)
    requires
        old(fs).wf(),
    ensures
        final(fs).wf(),
        !old(fs)@.contains_key(folder@) && folder@.len() > 0 ==> (r matches Err(e) && e.kind
            == FsErrorKind::NotFound && final(fs)@ == old(fs)@),
        old(fs)@.contains_key(folder@) && !(old(fs)@[folder@] is Dir) ==> (r matches Err(e)
            && e.kind == FsErrorKind::NotADirectory && final(fs)@ == old(fs)@),
        (folder@.len() == 0 || (old(fs)@.contains_key(folder@) && old(fs)@[folder@] is Dir))
            ==> match r {
            Ok(u) => write_file_spec(old(fs)@, folder@.push(file_name@), Seq::empty()) is Ok
                && final(fs)@ == write_file_spec(
                old(fs)@,
                folder@.push(file_name@),
                Seq::empty(),
            )->Ok_0,
            Err(e) => write_file_spec(old(fs)@, folder@.push(file_name@), Seq::empty()) is Err
                && e.kind == write_file_spec(
                old(fs)@,
                folder@.push(file_name@),
                Seq::empty(),
            )->Err_0 && final(fs)@ == old(fs)@,
        },
{
    proof {
        fs.lemma_wf_closed();
        if fs@.contains_key(folder@) {
            assert(valid_path_v(folder@));
        }
    }
    if folder.depth() > 0 {
        if !fs.exists_at(folder) {
            return Err(FsError { kind: FsErrorKind::NotFound, path: folder.duplicate() });
        }
        if !fs.is_dir_at(folder) {
            return Err(FsError { kind: FsErrorKind::NotADirectory, path: folder.duplicate() });
        }
    }
    let target = folder.join(file_name);
    fs.write_file(&target, Vec::new())
}

/// Create a directory named `folder_name` inside `folder`.  The parent
/// must exist and be a directory; the new path must be free.
pub fn create_directory(fs: &mut FileSystem, folder: &FsPath, folder_name: &str) -> (r: Result<
    (),
    FsError,
>)
    requires
        old(fs).wf(),
    ensures
        final(fs).wf(),
        !old(fs)@.contains_key(folder@) && folder@.len() > 0 ==> (r matches Err(e) && e.kind
            == FsErrorKind::NotFound && final(fs)@ == old(fs)@),
        old(fs)@.contains_key(folder@) && !(old(fs)@[folder@] is Dir) ==> (r matches Err(e)
            && e.kind == FsErrorKind::NotADirectory && final(fs)@ == old(fs)@),
        (folder@.len() == 0 || (old(fs)@.contains_key(folder@) && old(fs)@[folder@] is Dir))
            ==> match r {
            Ok(u) => create_dir_spec(old(fs)@, folder@.push(folder_name@)) is Ok && final(fs)@
                == create_dir_spec(old(fs)@, folder@.push(folder_name@))->Ok_0,
            Err(e) => create_dir_spec(old(fs)@, folder@.push(folder_name@)) is Err && e.kind
                == create_dir_spec(old(fs)@, folder@.push(folder_name@))->Err_0 && final(fs)@
                == old(fs)@,
        },
{
    proof {
        fs.lemma_wf_closed();
        if fs@.contains_key(folder@) {
            assert(valid_path_v(folder@));
        }
    }
    if folder.depth() > 0 {
        if !fs.exists_at(folder) {
            return Err(FsError { kind: FsErrorKind::NotFound, path: folder.duplicate() });
        }
        if !fs.is_dir_at(folder) {
            return Err(FsError { kind: FsErrorKind::NotADirectory, path: folder.duplicate() });
        }
    }
    let target = folder.join(folder_name);
    fs.create_dir(&target)
}

/// Rename (move) a file or directory.  The old path must exist and the
/// new path must be free.
pub fn rename(fs: &mut FileSystem, old_path: &FsPath, new_path: &FsPath) -> (r: Result<
    (),
    FsError,
>)
    requires
        old(fs).wf(),
    ensures
        final(fs).wf(),
        match r {
            Ok(u) => move_tree_spec(old(fs)@, old_path@, new_path@) is Ok && final(fs)@
                == move_tree_spec(old(fs)@, old_path@, new_path@)->Ok_0,
            Err(e) => move_tree_spec(old(fs)@, old_path@, new_path@) is Err && e.kind
                == move_tree_spec(old(fs)@, old_path@, new_path@)->Err_0 && final(fs)@ == old(fs)@,
        },
{
    fs.rename_path(old_path, new_path)
}

/// The outcome of copying `src` (file or directory) to the free path
/// `dst`: what `copy_file_or_dir` does to the tree.  A directory copy
/// creates the destination chain first, as many directories as needed;
/// a file copy wants the destination's parent already present.
pub open spec fn copy_any_spec(
    m: Map<Seq<Seq<char>>, NodeV>,
    src: Seq<Seq<char>>,
    dst: Seq<Seq<char>>,
) -> Result<Map<Seq<Seq<char>>, NodeV>, FsErrorKind> {
    if !m.contains_key(src) {
        Err(FsErrorKind::NotFound)
    } else if m.contains_key(dst) {
        Err(FsErrorKind::AlreadyExists)
    } else if is_proper_prefix_of(src, dst) {
        Err(FsErrorKind::InvalidPath)
    } else if m[src] is File {
        copy_file_spec(m, src, dst)
    } else {
        match create_dir_all_spec(m, dst) {
            Ok(m2) => Ok(graft_map(m2, src, dst)),
            Err(k) => Err(k),
        }
    }
}

/// Copy a file or directory to a new, free path, returning the total
/// size in bytes of what was copied (saturating).  A directory is copied
/// recursively; the destination's parent must already exist.
pub fn copy_file_or_dir(fs: &mut FileSystem, source: &FsPath, destination: &FsPath) -> (r: Result<
    u64,
    FsError,
>)
    requires
        old(fs).wf(),
    ensures
        final(fs).wf(),
        match r {
            Ok(size) => copy_any_spec(old(fs)@, source@, destination@) is Ok && final(fs)@
                == copy_any_spec(old(fs)@, source@, destination@)->Ok_0 && (if old(fs).subtree_size(source@) > u64::MAX {
                size == u64::MAX
            } else {
                size as nat == old(fs).subtree_size(source@)
            }),
            Err(e) => copy_any_spec(old(fs)@, source@, destination@) is Err && e.kind
                == copy_any_spec(old(fs)@, source@, destination@)->Err_0 && final(fs)@ == old(fs)@,
        },
{
    proof {
        fs.lemma_wf_closed();
    }
    if !fs.exists_at(source) {
        return Err(FsError { kind: FsErrorKind::NotFound, path: source.duplicate() });
    }
    if fs.exists_at(destination) {
        return Err(FsError { kind: FsErrorKind::AlreadyExists, path: destination.duplicate() });
    }
    if destination.starts_with(source) && destination.depth() > source.depth() {
        return Err(FsError { kind: FsErrorKind::InvalidPath, path: destination.duplicate() });
    }
    let size = fs.measure_subtree(source);
    let copied = if fs.is_file_at(source) {
        fs.copy_file(source, destination)
    } else {
        let ghost m = fs@;
        match fs.create_dir_all(destination) {
            Ok(u) => {},
            Err(e) => {
                return Err(e);
            },
        }
        proof {
            lemma_graft_into_fresh(m, source@, destination@);
        }
        fs.graft_tree(source, destination)
    };
    match copied {
        Ok(u) => Ok(size),
        Err(e) => Err(e),
    }
}

/// Paste the staged clipboard content into `destination`.  The
/// destination must exist and be a directory, and something must be
/// staged; these are checked before any write.
pub fn paste_from_clipboard_impl(
    clipboard: &mut ClipboardState,
    fs: &mut FileSystem,
    destination: &FsPath,
) -> (r: Result<(), FsError>)
    requires
        old(fs).wf(),
    ensures
        final(fs).wf(),
        final(clipboard).clipboard.content == old(clipboard).clipboard.content,
        final(clipboard).clipboard.mirror == old(clipboard).clipboard.mirror,
        !old(fs)@.contains_key(destination@) ==> (r matches Err(e) && e.kind
            == FsErrorKind::NotFound && final(fs)@ == old(fs)@ && *final(clipboard) == *old(clipboard)),
        old(fs)@.contains_key(destination@) && !(old(fs)@[destination@] is Dir) ==> (r matches Err(
            e,
        ) && e.kind == FsErrorKind::NotADirectory && final(fs)@ == old(fs)@ && *final(clipboard)
            == *old(clipboard)),
        old(fs)@.contains_key(destination@) && old(fs)@[destination@] is Dir ==> (old(
            clipboard,
        ).clipboard.content matches crate::clipboard::ClipboardContent::MultipleItems(ps) ==> (
        r matches Err(e) ==> batch_error_names_item(
            old(fs)@,
            ps.deep_view(),
            destination@,
            old(clipboard).clipboard.operation is Cut,
            e,
        ))),
        old(fs)@.contains_key(destination@) && old(fs)@[destination@] is Dir ==> ({
            let outcome = paste_spec(
                old(fs)@,
                old(clipboard).clipboard.content,
                old(clipboard).clipboard.operation is Cut,
                destination@,
            );
            match r {
                Ok(u) => outcome is Ok && final(fs)@ == outcome->Ok_0 && final(clipboard).clipboard.operation == (if old(clipboard).clipboard.operation is Cut {
                    ClipboardOperation::Idle
                } else {
                    old(clipboard).clipboard.operation
                }),
                Err(e) => outcome is Err && e.kind == outcome->Err_0.1 && final(fs)@
                    == outcome->Err_0.0 && final(clipboard).clipboard.operation == old(clipboard).clipboard.operation,
            }
        }),
{
    if !fs.exists_at(destination) {
        return Err(FsError { kind: FsErrorKind::NotFound, path: destination.duplicate() });
    }
    if !fs.is_dir_at(destination) {
        return Err(FsError { kind: FsErrorKind::NotADirectory, path: destination.duplicate() });
    }
    if !clipboard.has_content() {
        return Err(FsError { kind: FsErrorKind::EmptyClipboard, path: FsPath::root() });
    }
    clipboard.paste_to_location(fs, destination)
}

/// Stage `path` for a later copy-paste.  The path must exist.
pub fn copy_to_clipboard_impl(
    clipboard: &mut ClipboardState,
    fs: &FileSystem,
    path: &FsPath,
) -> (r: Result<(), FsError>)
    requires
        fs.wf(),
    ensures
        (r is Ok) == fs@.contains_key(path@),
        r matches Err(e) ==> e.kind == FsErrorKind::NotFound && e.path@ == path@ && *final(clipboard) == *old(clipboard),
        r is Ok ==> final(clipboard).clipboard.operation is Copy && (fs@[path@] is File ==> (
        final(clipboard).clipboard.content matches crate::clipboard::ClipboardContent::SingleFile(
            q,
        ) && q@ == path@)) && (fs@[path@] is Dir ==> (final(clipboard).clipboard.content
            matches crate::clipboard::ClipboardContent::SingleFolder(q) && q@ == path@)),
{
    if !fs.exists_at(path) {
        return Err(FsError { kind: FsErrorKind::NotFound, path: path.duplicate() });
    }
    clipboard.copy_path(fs, path)
}

/// Stage `path` for a later cut-paste.  The path must exist.
pub fn cut_impl(clipboard: &mut ClipboardState, fs: &FileSystem, path: &FsPath) -> (r: Result<
    (),
    FsError,
>)
    requires
        fs.wf(),
    ensures
        (r is Ok) == fs@.contains_key(path@),
        r matches Err(e) ==> e.kind == FsErrorKind::NotFound && e.path@ == path@ && *final(clipboard) == *old(clipboard),
        r is Ok ==> final(clipboard).clipboard.operation is Cut && (fs@[path@] is File ==> (final(clipboard).clipboard.content matches crate::clipboard::ClipboardContent::SingleFile(q) && q@
            == path@)) && (fs@[path@] is Dir ==> (final(clipboard).clipboard.content
            matches crate::clipboard::ClipboardContent::SingleFolder(q) && q@ == path@)),
{
    if !fs.exists_at(path) {
        return Err(FsError { kind: FsErrorKind::NotFound, path: path.duplicate() });
    }
    clipboard.cut_item(fs, path)
}

/// Stage the contents of the file at `path`.  The path must exist and
/// hold a regular file.
pub fn copy_file_content_to_clipboard_impl(
    clipboard: &mut ClipboardState,
    fs: &FileSystem,
    path: &FsPath,
) -> (r: Result<(), FsError>)
    requires
        fs.wf(),
    ensures
        (r is Ok) == (fs@.contains_key(path@) && fs@[path@] is File),
        r matches Err(e) ==> e.path@ == path@ && *final(clipboard) == *old(clipboard) && e.kind
            == (if !fs@.contains_key(path@) {
            FsErrorKind::NotFound
        } else {
            FsErrorKind::NotAFile
        }),
        r is Ok ==> final(clipboard).clipboard.operation is Copy && ({
            let data = fs@[path@]->File_data;
            &&& (valid_utf8(data) ==> (final(clipboard).clipboard.content
                matches crate::clipboard::ClipboardContent::TextPayload(t) && t@ == decode_utf8(
                data,
            )))
            &&& (!valid_utf8(data) ==> (final(clipboard).clipboard.content
                matches crate::clipboard::ClipboardContent::BinaryPayload(b) && b@ == data))
        }),
{
    if !fs.exists_at(path) {
        return Err(FsError { kind: FsErrorKind::NotFound, path: path.duplicate() });
    }
    if !fs.is_file_at(path) {
        return Err(FsError { kind: FsErrorKind::NotAFile, path: path.duplicate() });
    }
    clipboard.copy_file_content(fs, path)
}

/// Stage a batch of paths for a later copy-paste.  Every path must exist;
/// the first missing one is reported and nothing is staged.
pub fn copy_multiple_items_impl(
    clipboard: &mut ClipboardState,
    fs: &FileSystem,
    paths: Vec<FsPath>,
) -> (r: Result<(), FsError>)
    requires
        fs.wf(),
    ensures
        (r is Ok) == (forall|j: int|
            0 <= j < paths@.len() ==> fs@.contains_key(#[trigger] paths@[j]@)),
        r matches Err(e) ==> e.kind == FsErrorKind::NotFound && *final(clipboard) == *old(
            clipboard,
        ) && (exists|j: int|
            0 <= j < paths@.len() && !fs@.contains_key(#[trigger] paths@[j]@) && e.path@
                == paths@[j]@ && (forall|l: int| 0 <= l < j ==> fs@.contains_key(paths@[l]@))),
        r is Ok && paths@.len() == 0 ==> *final(clipboard) == *old(clipboard),
        r is Ok && paths@.len() > 0 ==> final(clipboard).clipboard.operation is Copy && final(clipboard).clipboard.content == crate::clipboard::ClipboardContent::MultipleItems(paths),
{
    let n = paths.len();
    let mut i: usize = 0;
    while i < n
        invariant
            i <= n,
            n == paths@.len(),
            fs.wf(),
            forall|j: int| 0 <= j < i ==> fs@.contains_key(#[trigger] paths@[j]@),
        decreases n - i,
    {
        if !fs.exists_at(&paths[i]) {
            return Err(FsError { kind: FsErrorKind::NotFound, path: paths[i].duplicate() });
        }
        i = i + 1;
    }
    clipboard.copy_multiple_items(paths)
}

/// Stage a batch of paths for a later cut-paste.  Every path must exist;
/// the first missing one is reported and nothing is staged.
pub fn cut_multiple_items_impl(
    clipboard: &mut ClipboardState,
    fs: &FileSystem,
    paths: Vec<FsPath>,
) -> (r: Result<(), FsError>)
    requires
        fs.wf(),
    ensures
        (r is Ok) == (forall|j: int|
            0 <= j < paths@.len() ==> fs@.contains_key(#[trigger] paths@[j]@)),
        r matches Err(e) ==> e.kind == FsErrorKind::NotFound && *final(clipboard) == *old(
            clipboard,
        ) && (exists|j: int|
            0 <= j < paths@.len() && !fs@.contains_key(#[trigger] paths@[j]@) && e.path@
                == paths@[j]@ && (forall|l: int| 0 <= l < j ==> fs@.contains_key(paths@[l]@))),
        r is Ok && paths@.len() == 0 ==> *final(clipboard) == *old(clipboard),
        r is Ok && paths@.len() > 0 ==> final(clipboard).clipboard.operation is Cut && final(clipboard).clipboard.content == crate::clipboard::ClipboardContent::MultipleItems(paths),
{
    let n = paths.len();
    let mut i: usize = 0;
    while i < n
        invariant
            i <= n,
            n == paths@.len(),
            fs.wf(),
            forall|j: int| 0 <= j < i ==> fs@.contains_key(#[trigger] paths@[j]@),
        decreases n - i,
    {
        if !fs.exists_at(&paths[i]) {
            return Err(FsError { kind: FsErrorKind::NotFound, path: paths[i].duplicate() });
        }
        i = i + 1;
    }
    clipboard.cut_multiple_items(paths)
}

/// Where an archive operation puts its output: beside its single input,
/// at the destination the caller named, or nowhere because the request
/// is incomplete.
pub enum ArchiveNaming {
    /// One input and no destination given: the output is named after
    /// the input (the archive beside a single source; the stem-named
    /// directory beside a single archive).
    DerivedFromInput,
    /// A destination was given: the output goes there.
    Explicit(String),
    /// Nothing to work on.
    NoInputs,
    /// Several inputs need an explicit destination.
    MissingDestination,
}

/// The auto-naming rule the archive commands share: a single input with
/// no destination derives the output's name from the input; any given
/// destination is used as named; several inputs demand one.
pub fn archive_naming(n_inputs: usize, destination: Option<String>) -> (r: ArchiveNaming)
    ensures
        n_inputs == 0 ==> r is NoInputs,
        n_inputs == 1 && destination is None ==> r is DerivedFromInput,
        n_inputs >= 1 ==> (destination matches Some(d) ==> (r matches ArchiveNaming::Explicit(s)
            && s@ == d@)),
        n_inputs > 1 && destination is None ==> r is MissingDestination,
{
    if n_inputs == 0 {
        ArchiveNaming::NoInputs
    } else {
        match destination {
            Some(d) => ArchiveNaming::Explicit(d),
            None => {
                if n_inputs == 1 {
                    ArchiveNaming::DerivedFromInput
                } else {
                    ArchiveNaming::MissingDestination
                }
            },
        }
    }
}

/// The pending clipboard operation, for the interface to display.
pub fn get_clipboard_operation_impl(clipboard: &ClipboardState) -> (r: Result<
    ClipboardOperation,
    FsError,
>)
    ensures
        r matches Ok(op) && op == clipboard.clipboard.operation,
{
    Ok(clipboard.get_operation())
}

} // verus!
