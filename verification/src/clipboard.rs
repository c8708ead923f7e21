//! The clipboard coordinator: a single mutable slot holding a pending
//! filesystem intent (copy vs. cut, one item vs. many, path vs. raw
//! content), applied exactly once by `paste_to_location`.
//!
//! Staging records intent and mirrors text to the platform clipboard slot;
//! committing reads the operation once, applies the staged content to a
//! destination directory, and resets the cut flag on success.  Every
//! transition is stated against the filesystem model's map transformations.

use crate::errors::{path_text, FsError, FsErrorKind};
use crate::fs_model::{
    copy_bytes, copy_file_spec, graft_tree_spec, move_tree_spec, valid_path_v, write_file_spec,
    FileSystem, FsPath, NodeV,
};
use vstd::prelude::*;
use vstd::utf8::{decode_utf8, encode_utf8, valid_utf8};

verus! {

/// What is staged: nothing, one path known to be a file or a folder at
/// stage time, raw text or bytes, or a batch of paths whose kinds are
/// re-checked at commit time.
pub enum ClipboardContent {
    Empty,
    SingleFile(FsPath),
    SingleFolder(FsPath),
    TextPayload(String),
    BinaryPayload(Vec<u8>),
    MultipleItems(Vec<FsPath>),
}

/// Whether a commit duplicates or relocates the staged source.
#[derive(Clone, Copy, Debug, PartialEq, Eq, Structural)]
pub enum ClipboardOperation {
    Idle,
    Copy,
    Cut,
}

/// The coordinator's state: staged content, the pending operation, and the
/// text last handed to the platform clipboard mirror (a best-effort side
/// channel the embedding application forwards).
pub struct Clipboard {
    pub content: ClipboardContent,
    pub operation: ClipboardOperation,
    pub mirror: Option<String>,
}

impl Clipboard {
    /// A fresh clipboard: nothing staged, no pending operation.
    pub fn new() -> (r: Clipboard)
        ensures
            r.content is Empty,
            r.operation is Idle,
            r.mirror is None,
    {
        Clipboard { content: ClipboardContent::Empty, operation: ClipboardOperation::Idle, mirror: None }
    }
}

impl Default for Clipboard {
    fn default() -> (r: Clipboard)
        ensures
            r.content is Empty,
            r.operation is Idle,
            r.mirror is None,
    {
        Clipboard::new()
    }
}

/// The coordinator as the application holds it: one owned instance,
/// guarded by the embedding application's lock for its whole call.
pub struct ClipboardState {
    pub clipboard: Clipboard,
}

/// Decode `bytes` as UTF-8 text, handing the buffer back on failure.
///
/// Relies on `String::from_utf8` of std: it succeeds exactly on valid
/// UTF-8 input and returns the string those bytes encode; its error
/// value's `into_bytes` returns the untouched input buffer.
#[verifier::external_body]
pub(crate) fn bytes_to_text(bytes: Vec<u8>) -> (r: Result<String, Vec<u8>>)
    ensures
        (r is Ok) == valid_utf8(bytes@),
        r matches Ok(t) ==> t@ == decode_utf8(bytes@),
        r matches Err(b) ==> b@ == bytes@,
{
    match String::from_utf8(bytes) {
        Ok(t) => Ok(t),
        Err(e) => Err(e.into_bytes()),
    }
}

/// The UTF-8 bytes of a string.
fn text_bytes(s: &str) -> (r: Vec<u8>)
    ensures
        r@ == encode_utf8(s@),
{
    let b = s.as_bytes();
    let n = b.len();
    let mut out: Vec<u8> = Vec::new();
    let mut i: usize = 0;
    while i < n
        invariant
            i <= n,
            n == b@.len(),
            b@ == encode_utf8(s@),
            out@ == b@.take(i as int),
        decreases n - i,
    {
        out.push(b[i]);
        proof {
            assert(out@ =~= b@.take(i as int + 1));
        }
        i = i + 1;
    }
    proof {
        assert(out@ =~= b@);
    }
    out
}

/// The per-item commit rule: a staged single path is placed under the
/// destination by its final name.  A cut moves the subtree; a copy
/// duplicates a file byte for byte or grafts a folder recursively.
pub open spec fn single_paste_spec(
    m: Map<Seq<Seq<char>>, NodeV>,
    src: Seq<Seq<char>>,
    dest: Seq<Seq<char>>,
    cut: bool,
    as_dir: bool,
) -> Result<Map<Seq<Seq<char>>, NodeV>, FsErrorKind> {
    if src.len() == 0 {
        Err(FsErrorKind::InvalidPath)
    } else {
        let t = dest.push(src.last());
        if cut {
            move_tree_spec(m, src, t)
        } else if as_dir {
            graft_tree_spec(m, src, t)
        } else {
            copy_file_spec(m, src, t)
        }
    }
}

/// One batch item at commit time.  A path with no final name is skipped
/// with a logged error rather than aborting the batch; any other item's
/// kind is re-read from the filesystem, so a named item that disappeared
/// between stage and commit is a failure here.
pub open spec fn paste_one_spec(
    m: Map<Seq<Seq<char>>, NodeV>,
    p: Seq<Seq<char>>,
    dest: Seq<Seq<char>>,
    cut: bool,
) -> Result<Map<Seq<Seq<char>>, NodeV>, FsErrorKind> {
    if p.len() == 0 {
        Ok(m)
    } else if !m.contains_key(p) {
        Err(FsErrorKind::NotFound)
    } else if m[p] is File {
        if cut {
            move_tree_spec(m, p, dest.push(p.last()))
        } else {
            copy_file_spec(m, p, dest.push(p.last()))
        }
    } else {
        if cut {
            move_tree_spec(m, p, dest.push(p.last()))
        } else {
            graft_tree_spec(m, p, dest.push(p.last()))
        }
    }
}

/// A batch commit: items are processed in order and the first failure
/// aborts the whole paste.  `Err` carries the state at the failure point:
/// items already moved or copied stay, later items are untouched.
pub open spec fn multi_paste_spec(
    m: Map<Seq<Seq<char>>, NodeV>,
    items: Seq<Seq<Seq<char>>>,
    dest: Seq<Seq<char>>,
    cut: bool,
) -> Result<Map<Seq<Seq<char>>, NodeV>, (Map<Seq<Seq<char>>, NodeV>, FsErrorKind)>
    decreases items.len(),
{
    if items.len() == 0 {
        Ok(m)
    } else {
        match paste_one_spec(m, items[0], dest, cut) {
            Ok(m2) => multi_paste_spec(m2, items.skip(1), dest, cut),
            Err(e) => Err((m, e)),
        }
    }
}

/// A failed batch outcome points at its first failing item: the items
/// before index `k` succeeded, item `k` failed, and when that item is a
/// named path that is no longer stored, the error names it.
pub open spec fn batch_error_names_item(
    m: Map<Seq<Seq<char>>, NodeV>,
    items: Seq<Seq<Seq<char>>>,
    dest: Seq<Seq<char>>,
    cut: bool,
    e: FsError,
) -> bool {
    exists|k: int|
        {
            let pre = multi_paste_spec(m, #[trigger] items.take(k), dest, cut);
            &&& 0 <= k < items.len()
            &&& pre is Ok
            &&& paste_one_spec(pre->Ok_0, items[k], dest, cut) is Err
            &&& (items[k].len() > 0 && !pre->Ok_0.contains_key(items[k]) ==> e.path@ == items[k])
        }
}

/// Appending one item to a batch runs it after all the others.
pub proof fn lemma_multi_paste_push(
    m: Map<Seq<Seq<char>>, NodeV>,
    items: Seq<Seq<Seq<char>>>,
    x: Seq<Seq<char>>,
    dest: Seq<Seq<char>>,
    cut: bool,
)
    ensures
        multi_paste_spec(m, items.push(x), dest, cut) == (match multi_paste_spec(
            m,
            items,
            dest,
            cut,
        ) {
            Ok(m2) => match paste_one_spec(m2, x, dest, cut) {
                Ok(m3) => Ok::<Map<Seq<Seq<char>>, NodeV>, (Map<Seq<Seq<char>>, NodeV>, FsErrorKind)>(m3),
                Err(k) => Err((m2, k)),
            },
            Err(e) => Err(e),
        }),
    decreases items.len(),
{
    if items.len() == 0 {
        assert(items.push(x).len() == 1);
        assert(items.push(x)[0] == x);
        assert(items.push(x).skip(1) =~= Seq::<Seq<Seq<char>>>::empty());
        match paste_one_spec(m, x, dest, cut) {
            Ok(m3) => {
                assert(multi_paste_spec(m, items.push(x), dest, cut) == multi_paste_spec(
                    m3,
                    items.push(x).skip(1),
                    dest,
                    cut,
                ));
            },
            Err(k) => {},
        }
    } else {
        assert(items.push(x)[0] == items[0]);
        assert(items.push(x).skip(1) =~= items.skip(1).push(x));
        match paste_one_spec(m, items[0], dest, cut) {
            Ok(m2) => {
                assert(multi_paste_spec(m, items.push(x), dest, cut) == multi_paste_spec(
                    m2,
                    items.skip(1).push(x),
                    dest,
                    cut,
                ));
                assert(multi_paste_spec(m, items, dest, cut) == multi_paste_spec(
                    m2,
                    items.skip(1),
                    dest,
                    cut,
                ));
                lemma_multi_paste_push(m2, items.skip(1), x, dest, cut);
            },
            Err(k) => {},
        }
    }
}

/// The whole commit, for any staged content.  `Err` carries the state the
/// filesystem is left in, which for a batch may show partial progress.
pub open spec fn paste_spec(
    m: Map<Seq<Seq<char>>, NodeV>,
    content: ClipboardContent,
    cut: bool,
    dest: Seq<Seq<char>>,
) -> Result<Map<Seq<Seq<char>>, NodeV>, (Map<Seq<Seq<char>>, NodeV>, FsErrorKind)> {
    match content {
        ClipboardContent::Empty => Err((m, FsErrorKind::EmptyClipboard)),
        ClipboardContent::SingleFile(src) => match single_paste_spec(m, src@, dest, cut, false) {
            Ok(m2) => Ok(m2),
            Err(k) => Err((m, k)),
        },
        ClipboardContent::SingleFolder(src) => match single_paste_spec(m, src@, dest, cut, true) {
            Ok(m2) => Ok(m2),
            Err(k) => Err((m, k)),
        },
        ClipboardContent::TextPayload(text) => match write_file_spec(
            m,
            dest.push("clipboard_content.txt"@),
            encode_utf8(text@),
        ) {
            Ok(m2) => Ok(m2),
            Err(k) => Err((m, k)),
        },
        ClipboardContent::BinaryPayload(data) => match write_file_spec(
            m,
            dest.push("clipboard_content.bin"@),
            data@,
        ) {
            Ok(m2) => Ok(m2),
            Err(k) => Err((m, k)),
        },
        ClipboardContent::MultipleItems(paths) => multi_paste_spec(
            m,
            paths.deep_view(),
            dest,
            cut,
        ),
    }
}

impl ClipboardState {
    /// A coordinator with nothing staged.
    pub fn new() -> (r: ClipboardState)
        ensures
            r.clipboard.content is Empty,
            r.clipboard.operation is Idle,
            r.clipboard.mirror is None,
    {
        ClipboardState { clipboard: Clipboard::new() }
    }

    /// A coordinator started with the given slot, for embedding callers
    /// that restore a known state.
    pub fn new_with_content(content: ClipboardContent, operation: ClipboardOperation) -> (r:
        ClipboardState)
        ensures
            r.clipboard.content == content,
            r.clipboard.operation == operation,
            r.clipboard.mirror is None,
    {
        ClipboardState {
            clipboard: Clipboard { content, operation, mirror: None },
        }
    }

    /// Stage `path` for a later copy: classified as a file or a folder by
    /// what the filesystem holds now.  The path's text is mirrored to the
    /// platform clipboard slot.  A path that holds nothing leaves the
    /// staged content unchanged; the pending operation becomes `Copy`
    /// regardless.
    pub fn copy_path(&mut self, fs: &FileSystem, path: &FsPath) -> (r: Result<(), FsError>)
        requires
            fs.wf(),
        ensures
            r is Ok,
            final(self).clipboard.operation is Copy,
            final(self).clipboard.mirror matches Some(t) && t@ == path_text(path@),
            fs@.contains_key(path@) && fs@[path@] is File ==> (final(self).clipboard.content
                matches ClipboardContent::SingleFile(q) && q@ == path@),
            fs@.contains_key(path@) && fs@[path@] is Dir ==> (final(self).clipboard.content
                matches ClipboardContent::SingleFolder(q) && q@ == path@),
            !fs@.contains_key(path@) ==> final(self).clipboard.content == old(
                self,
            ).clipboard.content,
    {
        self.clipboard.mirror = Some(path.to_text());
        if fs.is_file_at(path) {
            self.clipboard.content = ClipboardContent::SingleFile(path.duplicate());
        } else if fs.is_dir_at(path) {
            self.clipboard.content = ClipboardContent::SingleFolder(path.duplicate());
        }
        self.clipboard.operation = ClipboardOperation::Copy;
        Ok(())
    }

    /// Stage `path` for a later move: like `copy_path`, but the pending
    /// operation becomes `Cut`.
    pub fn cut_item(&mut self, fs: &FileSystem, path: &FsPath) -> (r: Result<(), FsError>)
        requires
            fs.wf(),
        ensures
            r is Ok,
            final(self).clipboard.operation is Cut,
            final(self).clipboard.mirror matches Some(t) && t@ == path_text(path@),
            fs@.contains_key(path@) && fs@[path@] is File ==> (final(self).clipboard.content
                matches ClipboardContent::SingleFile(q) && q@ == path@),
            fs@.contains_key(path@) && fs@[path@] is Dir ==> (final(self).clipboard.content
                matches ClipboardContent::SingleFolder(q) && q@ == path@),
            !fs@.contains_key(path@) ==> final(self).clipboard.content == old(
                self,
            ).clipboard.content,
    {
        let staged = self.copy_path(fs, path);
        self.clipboard.operation = ClipboardOperation::Cut;
        staged
    }

    /// Stage the bytes of the file at `path`: text if they are valid
    /// UTF-8 (mirrored to the platform slot), raw bytes otherwise.
    /// Fails if `path` does not hold a regular file; the slot is then
    /// left unchanged.
    pub fn copy_file_content(&mut self, fs: &FileSystem, path: &FsPath) -> (r: Result<
        (),
        FsError,
    >)
        requires
            fs.wf(),
        ensures
            (r is Ok) == (fs@.contains_key(path@) && fs@[path@] is File),
            r is Ok ==> {
                let data = fs@[path@]->File_data;
                &&& final(self).clipboard.operation is Copy
                &&& (valid_utf8(data) ==> {
                    &&& final(self).clipboard.content matches ClipboardContent::TextPayload(t)
                        && t@ == decode_utf8(data)
                    &&& final(self).clipboard.mirror matches Some(t) && t@ == decode_utf8(data)
                })
                &&& (!valid_utf8(data) ==> {
                    &&& final(self).clipboard.content matches ClipboardContent::BinaryPayload(b)
                        && b@ == data
                    &&& final(self).clipboard.mirror == old(self).clipboard.mirror
                })
            },
            r is Err ==> *final(self) == *old(self) && r->Err_0.kind == FsErrorKind::NotAFile
                && r->Err_0.path@ == path@,
    {
        let data = match fs.read_file(path) {
            Some(data) => data,
            None => {
                return Err(FsError { kind: FsErrorKind::NotAFile, path: path.duplicate() });
            },
        };
        match bytes_to_text(data) {
            Ok(text) => {
                self.clipboard.mirror = Some(text.clone());
                self.clipboard.content = ClipboardContent::TextPayload(text);
            },
            Err(data) => {
                self.clipboard.content = ClipboardContent::BinaryPayload(data);
            },
        }
        self.clipboard.operation = ClipboardOperation::Copy;
        Ok(())
    }

    /// Stage raw text, mirroring it to the platform slot.
    pub fn copy_text(&mut self, text: &str) -> (r: Result<(), FsError>)
        ensures
            r is Ok,
            final(self).clipboard.operation is Copy,
            final(self).clipboard.content matches ClipboardContent::TextPayload(t) && t@ == text@,
            final(self).clipboard.mirror matches Some(t) && t@ == text@,
    {
        self.clipboard.mirror = Some(text.to_owned());
        self.clipboard.content = ClipboardContent::TextPayload(text.to_owned());
        self.clipboard.operation = ClipboardOperation::Copy;
        Ok(())
    }

    /// Stage a batch of paths for a later copy.  An empty batch is a
    /// no-op, not an error.
    pub fn copy_multiple_items(&mut self, paths: Vec<FsPath>) -> (r: Result<(), FsError>)
        ensures
            r is Ok,
            paths@.len() == 0 ==> *final(self) == *old(self),
            paths@.len() > 0 ==> final(self).clipboard.operation is Copy
                && final(self).clipboard.content == ClipboardContent::MultipleItems(paths)
                && final(self).clipboard.mirror == old(self).clipboard.mirror,
    {
        if paths.len() == 0 {
            return Ok(());
        }
        self.clipboard.content = ClipboardContent::MultipleItems(paths);
        self.clipboard.operation = ClipboardOperation::Copy;
        Ok(())
    }

    /// Stage a batch of paths for a later move.  An empty batch is a
    /// no-op, not an error.
    pub fn cut_multiple_items(&mut self, paths: Vec<FsPath>) -> (r: Result<(), FsError>)
        ensures
            r is Ok,
            paths@.len() == 0 ==> *final(self) == *old(self),
            paths@.len() > 0 ==> final(self).clipboard.operation is Cut
                && final(self).clipboard.content == ClipboardContent::MultipleItems(paths)
                && final(self).clipboard.mirror == old(self).clipboard.mirror,
    {
        if paths.len() == 0 {
            return Ok(());
        }
        self.clipboard.content = ClipboardContent::MultipleItems(paths);
        self.clipboard.operation = ClipboardOperation::Cut;
        Ok(())
    }

    /// Whether anything is staged.
    pub fn has_content(&self) -> (r: bool)
        ensures
            r == !(self.clipboard.content is Empty),
    {
        !matches!(self.clipboard.content, ClipboardContent::Empty)
    }

    /// The pending operation, as a momentary snapshot.
    pub fn get_operation(&self) -> (r: ClipboardOperation)
        ensures
            r == self.clipboard.operation,
    {
        self.clipboard.operation
    }

    /// The staged content, as a momentary snapshot.
    pub fn get_content(&self) -> (r: &ClipboardContent)
        ensures
            *r == self.clipboard.content,
    {
        &self.clipboard.content
    }

    /// The text last handed to the platform clipboard mirror, for the
    /// embedding application to forward.
    pub fn mirror_text(&self) -> (r: &Option<String>)
        ensures
            *r == self.clipboard.mirror,
    {
        &self.clipboard.mirror
    }

    /// Place one staged single path under `dest` by its final name.
    fn paste_single(
        fs: &mut FileSystem,
        src: &FsPath,
        dest: &FsPath,
        cut: bool,
        as_dir: bool,
    ) -> (r: Result<(), FsError>)
        requires
            old(fs).wf(),
        ensures
            final(fs).wf(),
            match r {
                Ok(u) => single_paste_spec(old(fs)@, src@, dest@, cut, as_dir) is Ok && final(fs)@
                    == single_paste_spec(old(fs)@, src@, dest@, cut, as_dir)->Ok_0,
                Err(e) => single_paste_spec(old(fs)@, src@, dest@, cut, as_dir) is Err && e.kind
                    == single_paste_spec(old(fs)@, src@, dest@, cut, as_dir)->Err_0 && final(fs)@
                    == old(fs)@,
            },
    {
        let name = match src.file_name() {
            Some(name) => name,
            None => {
                return Err(FsError { kind: FsErrorKind::InvalidPath, path: src.duplicate() });
            },
        };
        let target = dest.join(name.as_str());
        proof {
            assert(target@ == dest@.push(src@.last()));
        }
        if cut {
            fs.rename_path(src, &target)
        } else if as_dir {
            fs.graft_tree(src, &target)
        } else {
            fs.copy_file(src, &target)
        }
    }

    /// Commit one batch item, re-reading its kind from the filesystem.
    fn paste_one(fs: &mut FileSystem, p: &FsPath, dest: &FsPath, cut: bool) -> (r: Result<
        (),
        FsError,
    >)
        requires
            old(fs).wf(),
        ensures
            final(fs).wf(),
            match r {
                Ok(u) => paste_one_spec(old(fs)@, p@, dest@, cut) is Ok && final(fs)@
                    == paste_one_spec(old(fs)@, p@, dest@, cut)->Ok_0,
                Err(e) => paste_one_spec(old(fs)@, p@, dest@, cut) is Err && e.kind
                    == paste_one_spec(old(fs)@, p@, dest@, cut)->Err_0 && final(fs)@ == old(fs)@
                    && (!old(fs)@.contains_key(p@) ==> e.path@ == p@),
            },
    {
        if p.depth() == 0 {
            // a nameless path cannot be placed under the destination:
            // skipped, the batch goes on
            return Ok(());
        }
        if !self_exists(fs, p) {
            return Err(FsError { kind: FsErrorKind::NotFound, path: p.duplicate() });
        }
        let name = match src_name(fs, p) {
            Some(name) => name,
            None => {
                return Err(FsError { kind: FsErrorKind::NotFound, path: p.duplicate() });
            },
        };
        let target = dest.join(name.as_str());
        proof {
            assert(target@ == dest@.push(p@.last()));
        }
        if cut {
            fs.rename_path(p, &target)
        } else if fs.is_file_at(p) {
            fs.copy_file(p, &target)
        } else {
            fs.graft_tree(p, &target)
        }
    }

    /// Commit a staged batch: items in order, first failure aborts,
    /// earlier items stay where the paste put them.
    fn paste_multi(fs: &mut FileSystem, paths: &Vec<FsPath>, dest: &FsPath, cut: bool) -> (r:
        Result<(), FsError>)
        requires
            old(fs).wf(),
        ensures
            final(fs).wf(),
            match r {
                Ok(u) => multi_paste_spec(old(fs)@, paths.deep_view(), dest@, cut) is Ok
                    && final(fs)@ == multi_paste_spec(old(fs)@, paths.deep_view(), dest@, cut)->Ok_0,
                Err(e) => multi_paste_spec(old(fs)@, paths.deep_view(), dest@, cut) is Err
                    && e.kind == multi_paste_spec(old(fs)@, paths.deep_view(), dest@, cut)->Err_0.1
                    && final(fs)@ == multi_paste_spec(old(fs)@, paths.deep_view(), dest@, cut)->Err_0.0
                    && batch_error_names_item(old(fs)@, paths.deep_view(), dest@, cut, e),
            },
    {
        let ghost all = paths.deep_view();
        let ghost m0 = old(fs)@;
        let n = paths.len();
        let mut i: usize = 0;
        proof {
            assert(all.skip(0) =~= all);
            assert(all.take(0) =~= Seq::<Seq<Seq<char>>>::empty());
        }
        while i < n
            invariant
                i <= n,
                n == all.len(),
                all == paths.deep_view(),
                m0 == old(fs)@,
                fs.wf(),
                multi_paste_spec(m0, all, dest@, cut) == multi_paste_spec(
                    fs@,
                    all.skip(i as int),
                    dest@,
                    cut,
                ),
                multi_paste_spec(m0, all.take(i as int), dest@, cut) is Ok,
                multi_paste_spec(m0, all.take(i as int), dest@, cut)->Ok_0 == fs@,
            decreases n - i,
        {
            let ghost before = fs@;
            let outcome = Self::paste_one(fs, &paths[i], dest, cut);
            proof {
                assert(all.skip(i as int)[0] == all[i as int]);
                assert(all[i as int] == paths@[i as int]@);
                assert(all.skip(i as int).skip(1) =~= all.skip(i as int + 1));
                assert(all.take(i as int + 1) =~= all.take(i as int).push(all[i as int]));
                lemma_multi_paste_push(m0, all.take(i as int), all[i as int], dest@, cut);
            }
            match outcome {
                Ok(u) => {},
                Err(e) => {
                    proof {
                        // the successful prefix and this failing item
                        // witness the attribution of the error
                        assert(batch_error_names_item(m0, all, dest@, cut, e)) by {
                            let pre = multi_paste_spec(m0, all.take(i as int), dest@, cut);
                            assert(pre is Ok && pre->Ok_0 == before);
                            assert(paste_one_spec(before, all[i as int], dest@, cut) is Err);
                        }
                    }
                    return Err(e);
                },
            }
            i = i + 1;
        }
        proof {
            assert(all.skip(n as int) =~= Seq::<Seq<Seq<char>>>::empty());
        }
        Ok(())
    }

    /// Apply the staged content to the destination directory.  The pending
    /// operation is read once and frozen for the whole commit; after a
    /// successful cut-commit it resets to `Idle`, while the content stays
    /// staged, so a repeated paste re-applies it as a copy.  On failure
    /// the slot is unchanged and the filesystem is left in the state the
    /// outcome describes (partial progress for a batch).
    pub fn paste_to_location(&mut self, fs: &mut FileSystem, target_dir: &FsPath) -> (r: Result<
        (),
        FsError,
    >)
        requires
            old(fs).wf(),
        ensures
            final(fs).wf(),
            final(self).clipboard.content == old(self).clipboard.content,
            final(self).clipboard.mirror == old(self).clipboard.mirror,
            old(self).clipboard.content matches ClipboardContent::MultipleItems(ps) ==> (
            r matches Err(e) ==> batch_error_names_item(
                old(fs)@,
                ps.deep_view(),
                target_dir@,
                old(self).clipboard.operation is Cut,
                e,
            )),
            ({
                let outcome = paste_spec(
                    old(fs)@,
                    old(self).clipboard.content,
                    old(self).clipboard.operation is Cut,
                    target_dir@,
                );
                match r {
                    Ok(u) => outcome is Ok && final(fs)@ == outcome->Ok_0
                        && final(self).clipboard.operation == (
                        if old(self).clipboard.operation is Cut {
                            ClipboardOperation::Idle
                        } else {
                            old(self).clipboard.operation
                        }),
                    Err(e) => outcome is Err && e.kind == outcome->Err_0.1
                        && final(fs)@ == outcome->Err_0.0
                        && final(self).clipboard.operation == old(self).clipboard.operation,
                }
            }),
    {
        let cut = matches!(self.clipboard.operation, ClipboardOperation::Cut);
        let staged: Result<(), FsError> = match &self.clipboard.content {
            ClipboardContent::Empty => Err(
                FsError { kind: FsErrorKind::EmptyClipboard, path: FsPath::root() },
            ),
            ClipboardContent::SingleFile(src) => Self::paste_single(fs, src, target_dir, cut, false),
            ClipboardContent::SingleFolder(src) => Self::paste_single(fs, src, target_dir, cut, true),
            ClipboardContent::TextPayload(text) => {
                let target = target_dir.join("clipboard_content.txt");
                fs.write_file(&target, text_bytes(text.as_str()))
            },
            ClipboardContent::BinaryPayload(data) => {
                let target = target_dir.join("clipboard_content.bin");
                fs.write_file(&target, copy_bytes(data))
            },
            ClipboardContent::MultipleItems(paths) => Self::paste_multi(fs, paths, target_dir, cut),
        };
        match staged {
            Ok(u) => {
                if cut {
                    self.clipboard.operation = ClipboardOperation::Idle;
                }
                Ok(())
            },
            Err(e) => Err(e),
        }
    }
}

/// Whether anything is stored at `p`: a free-standing reading of
/// `FileSystem::exists_at` for use while `fs` is borrowed.
fn self_exists(fs: &FileSystem, p: &FsPath) -> (r: bool)
    ensures
        r == fs@.contains_key(p@),
{
    fs.exists_at(p)
}

/// The final name of `p`, when `p` is stored (a stored path always has
/// one).
fn src_name<'a>(fs: &FileSystem, p: &'a FsPath) -> (r: Option<&'a String>)
    requires
        fs.wf(),
        fs@.contains_key(p@),
    ensures
        r matches Some(name) && name@ == p@.last(),
{
    proof {
        fs.lemma_wf_closed();
        assert(valid_path_v(p@));
    }
    p.file_name()
}

} // verus!
