//! The properties the clipboard coordinator is meant to keep, proved once
//! and for all over the specification functions that the executable
//! functions are verified against.

use crate::clipboard::{
    multi_paste_spec, paste_one_spec, paste_spec, single_paste_spec, ClipboardContent,
    ClipboardState,
};
use crate::errors::FsErrorKind;
use crate::fs_model::{
    closed_map, copy_file_spec, graft_conflict, graft_map, graft_tree_spec, is_prefix_of,
    lemma_closed_ancestors, lemma_reroot_roundtrip, move_map, move_tree_spec, reroot,
    valid_path_v, write_file_spec, FileSystem, NodeV,
};
use vstd::prelude::*;
use vstd::utf8::encode_utf8;

verus! {

/// After staging an existing path for copy, something is staged and the
/// pending operation is `Copy`: the slot a successful `copy_path` leaves
/// behind can hold nothing but a single file or a single folder.
pub proof fn lemma_stage_path_yields_content(after: ClipboardState, fs: FileSystem, p: Seq<Seq<char>>)
    requires
        fs@.contains_key(p),
        after.clipboard.operation is Copy,
        fs@[p] is File ==> after.clipboard.content is SingleFile,
        fs@[p] is Dir ==> after.clipboard.content is SingleFolder,
    ensures
        !(after.clipboard.content is Empty),
        after.clipboard.operation is Copy,
{
}

/// A successful move leaves nothing under the source, places every
/// stored descendant under the destination with its old value, and
/// leaves every other path untouched.
pub proof fn lemma_move_effect(
    m: Map<Seq<Seq<char>>, NodeV>,
    src: Seq<Seq<char>>,
    dst: Seq<Seq<char>>,
)
    requires
        closed_map(m),
        move_tree_spec(m, src, dst) is Ok,
    ensures
        forall|k: Seq<Seq<char>>|
            is_prefix_of(src, k) ==> !move_tree_spec(m, src, dst)->Ok_0.contains_key(k),
        forall|k: Seq<Seq<char>>|
            m.contains_key(k) && is_prefix_of(src, k) ==> #[trigger] move_tree_spec(
                m,
                src,
                dst,
            )->Ok_0.contains_key(reroot(k, src, dst)) && move_tree_spec(m, src, dst)->Ok_0[reroot(
                k,
                src,
                dst,
            )] == m[k],
        forall|k: Seq<Seq<char>>|
            m.contains_key(k) && !is_prefix_of(src, k) ==> #[trigger] move_tree_spec(
                m,
                src,
                dst,
            )->Ok_0.contains_key(k) && move_tree_spec(m, src, dst)->Ok_0[k] == m[k],
{
    let m2 = move_map(m, src, dst);
    assert forall|k: Seq<Seq<char>>| is_prefix_of(src, k) implies !m2.contains_key(k) by {
        if is_prefix_of(dst, k) && m.contains_key(reroot(k, dst, src)) {
            // src and dst would be prefixes of the same path, so one would
            // be a prefix of the other; both are ruled out
            if src.len() <= dst.len() {
                assert(dst.take(src.len() as int) =~= k.take(src.len() as int));
                assert(is_prefix_of(src, dst));
            } else {
                assert(src.take(dst.len() as int) =~= k.take(dst.len() as int));
                assert(is_prefix_of(dst, src));
                lemma_closed_ancestors(m, dst, src);
            }
        }
    }
    assert forall|k: Seq<Seq<char>>|
        m.contains_key(k) && is_prefix_of(src, k) implies #[trigger] m2.contains_key(
        reroot(k, src, dst),
    ) && m2[reroot(k, src, dst)] == m[k] by {
        lemma_reroot_roundtrip(k, src, dst);
    }
    assert forall|k: Seq<Seq<char>>|
        m.contains_key(k) && !is_prefix_of(src, k) implies #[trigger] m2.contains_key(k) && m2[k]
        == m[k] by {
        if is_prefix_of(dst, k) && m.contains_key(reroot(k, dst, src)) {
            lemma_closed_ancestors(m, dst, k);
        }
    }
}

/// When the staged source exists, the destination is a stored directory
/// (or the root), the source's name is free under it, and the
/// destination does not lie inside the staged source, a single-item
/// paste is owed success -- the side conditions the paste scenarios
/// assume, collected once.
pub proof fn lemma_single_paste_success(
    m: Map<Seq<Seq<char>>, NodeV>,
    p: Seq<Seq<char>>,
    dest: Seq<Seq<char>>,
    cut: bool,
    as_dir: bool,
)
    requires
        closed_map(m),
        m.contains_key(p),
        !cut ==> (as_dir <==> m[p] is Dir),
        dest.len() == 0 || (m.contains_key(dest) && m[dest] is Dir),
        !m.contains_key(dest.push(p.last())),
        !is_prefix_of(p, dest),
    ensures
        single_paste_spec(m, p, dest, cut, as_dir) is Ok,
{
    let t = dest.push(p.last());
    assert(valid_path_v(p));
    assert(valid_path_v(t)) by {
        assert forall|i: int| 0 <= i < t.len() implies #[trigger] t[i].len() >= 1 by {
            if i < dest.len() {
                assert(t[i] == dest[i]);
            } else {
                assert(t[i] == p[p.len() - 1]);
            }
        }
    }
    assert(t.drop_last() =~= dest);
    assert(!is_prefix_of(p, t)) by {
        if is_prefix_of(p, t) {
            if p.len() <= dest.len() {
                assert(dest.take(p.len() as int) =~= t.take(p.len() as int));
                assert(is_prefix_of(p, dest));
            } else {
                assert(p.len() == t.len());
                assert(p =~= t);
            }
        }
    }
    if !cut && as_dir {
        assert(!graft_conflict(m, p, t)) by {
            if graft_conflict(m, p, t) {
                let k = choose|k: Seq<Seq<char>>|
                    #[trigger] m.contains_key(k) && is_prefix_of(p, k) && m.contains_key(
                        reroot(k, p, t),
                    ) && !(m[k] is Dir && m[reroot(k, p, t)] is Dir);
                lemma_reroot_roundtrip(k, p, t);
                if k.len() == p.len() {
                    // the root itself would map onto the free target
                    assert(k =~= k.take(p.len() as int));
                    assert(k == p);
                    assert(reroot(k, p, t) =~= t);
                } else {
                    // a strict descendant's image lies strictly under the
                    // free target, where nothing can be stored
                    assert(reroot(k, p, t).len() > t.len());
                    lemma_closed_ancestors(m, t, reroot(k, p, t));
                }
            }
        }
    }
}

/// Cutting a staged file and pasting it into a directory removes the
/// source and places its exact bytes under the destination by the
/// source's final name.  (That the pending operation then returns to
/// `Idle` is part of `paste_to_location`'s contract.)
pub proof fn lemma_cut_paste_moves_file(
    m: Map<Seq<Seq<char>>, NodeV>,
    p: Seq<Seq<char>>,
    dest: Seq<Seq<char>>,
)
    requires
        closed_map(m),
        m.contains_key(p),
        single_paste_spec(m, p, dest, true, false) is Ok,
    ensures
        !single_paste_spec(m, p, dest, true, false)->Ok_0.contains_key(p),
        single_paste_spec(m, p, dest, true, false)->Ok_0.contains_key(dest.push(p.last())),
        single_paste_spec(m, p, dest, true, false)->Ok_0[dest.push(p.last())] == m[p],
{
    let t = dest.push(p.last());
    lemma_move_effect(m, p, t);
    assert(p.take(p.len() as int) =~= p);
    assert(reroot(p, p, t) =~= t);
}

/// Copying a staged file and pasting it into a directory leaves the
/// source in place and gives the destination identical bytes.  (That the
/// pending operation stays `Copy` is part of `paste_to_location`'s
/// contract.)
pub proof fn lemma_copy_paste_duplicates_file(
    m: Map<Seq<Seq<char>>, NodeV>,
    p: Seq<Seq<char>>,
    dest: Seq<Seq<char>>,
)
    requires
        m.contains_key(p),
        single_paste_spec(m, p, dest, false, false) is Ok,
    ensures
        single_paste_spec(m, p, dest, false, false)->Ok_0.contains_key(p),
        single_paste_spec(m, p, dest, false, false)->Ok_0[p] == m[p],
        single_paste_spec(m, p, dest, false, false)->Ok_0.contains_key(dest.push(p.last())),
        single_paste_spec(m, p, dest, false, false)->Ok_0[dest.push(p.last())] == m[p],
{
    let t = dest.push(p.last());
    assert(copy_file_spec(m, p, t) is Ok);
    assert(!m.contains_key(t));
}

/// A paste with nothing staged fails with the empty-clipboard error and
/// leaves the filesystem exactly as it was.
pub proof fn lemma_paste_empty_fails(m: Map<Seq<Seq<char>>, NodeV>, cut: bool, dest: Seq<Seq<char>>)
    ensures
        paste_spec(m, ClipboardContent::Empty, cut, dest) matches Err(e) && e.0 == m && e.1
            == FsErrorKind::EmptyClipboard,
{
}

/// A paste to a destination that is missing or is not a directory fails
/// before any write: the failure outcome carries the filesystem
/// unchanged.  The staged contents left out: an empty batch, and a batch
/// of nameless paths only -- both have nothing to place and trivially
/// succeed, since nameless items are skipped.
pub proof fn lemma_paste_bad_destination_fails(
    m: Map<Seq<Seq<char>>, NodeV>,
    content: ClipboardContent,
    cut: bool,
    dest: Seq<Seq<char>>,
)
    requires
        closed_map(m),
        dest.len() >= 1,
        !(m.contains_key(dest) && m[dest] is Dir),
        content matches ClipboardContent::MultipleItems(ps) ==> exists|j: int|
            0 <= j < ps@.len() && #[trigger] ps@[j]@.len() > 0,
    ensures
        paste_spec(m, content, cut, dest) matches Err(e) && e.0 == m,
{
    match content {
        ClipboardContent::Empty => {},
        ClipboardContent::SingleFile(src) => {
            if src@.len() > 0 {
                lemma_child_of_bad_destination(m, dest, src@.last());
            }
        },
        ClipboardContent::SingleFolder(src) => {
            if src@.len() > 0 {
                lemma_child_of_bad_destination(m, dest, src@.last());
            }
        },
        ClipboardContent::TextPayload(text) => {
            lemma_child_of_bad_destination(m, dest, "clipboard_content.txt"@);
        },
        ClipboardContent::BinaryPayload(data) => {
            lemma_child_of_bad_destination(m, dest, "clipboard_content.bin"@);
        },
        ClipboardContent::MultipleItems(paths) => {
            let items = paths.deep_view();
            let j = choose|j: int| 0 <= j < paths@.len() && #[trigger] paths@[j]@.len() > 0;
            assert(items[j] == paths@[j]@);
            lemma_multi_bad_destination(m, items, dest, cut);
        },
    }
}

/// A batch holding at least one named item, pasted towards a missing or
/// non-directory destination, fails with the filesystem unchanged:
/// nameless items ahead of it are skipped without touching anything.
proof fn lemma_multi_bad_destination(
    m: Map<Seq<Seq<char>>, NodeV>,
    items: Seq<Seq<Seq<char>>>,
    dest: Seq<Seq<char>>,
    cut: bool,
)
    requires
        closed_map(m),
        dest.len() >= 1,
        !(m.contains_key(dest) && m[dest] is Dir),
        exists|j: int| 0 <= j < items.len() && #[trigger] items[j].len() > 0,
    ensures
        multi_paste_spec(m, items, dest, cut) matches Err(e) && e.0 == m,
    decreases items.len(),
{
    let j = choose|j: int| 0 <= j < items.len() && #[trigger] items[j].len() > 0;
    if items[0].len() == 0 {
        assert(paste_one_spec(m, items[0], dest, cut) == Ok::<
            Map<Seq<Seq<char>>, NodeV>,
            FsErrorKind,
        >(m));
        assert(items.skip(1)[j - 1] == items[j]);
        lemma_multi_bad_destination(m, items.skip(1), dest, cut);
    } else {
        lemma_paste_one_bad_destination(m, items[0], dest, cut);
    }
}

/// One named batch item pasted towards a missing or non-directory
/// destination fails, whatever the item holds.
proof fn lemma_paste_one_bad_destination(
    m: Map<Seq<Seq<char>>, NodeV>,
    p: Seq<Seq<char>>,
    dest: Seq<Seq<char>>,
    cut: bool,
)
    requires
        closed_map(m),
        dest.len() >= 1,
        !(m.contains_key(dest) && m[dest] is Dir),
        p.len() > 0,
    ensures
        paste_one_spec(m, p, dest, cut) is Err,
{
    if m.contains_key(p) {
        lemma_child_of_bad_destination(m, dest, p.last());
    }
}

/// A child of a missing or non-directory destination cannot be stored,
/// and its parent is the destination itself.
proof fn lemma_child_of_bad_destination(
    m: Map<Seq<Seq<char>>, NodeV>,
    dest: Seq<Seq<char>>,
    name: Seq<char>,
)
    requires
        closed_map(m),
        dest.len() >= 1,
        !(m.contains_key(dest) && m[dest] is Dir),
    ensures
        !m.contains_key(dest.push(name)),
        dest.push(name).drop_last() == dest,
        dest.push(name).len() > 1,
{
    let t = dest.push(name);
    assert(t.drop_last() =~= dest);
    if m.contains_key(t) {
        assert(is_prefix_of(dest, t)) by {
            assert(t.take(dest.len() as int) =~= dest);
        }
        lemma_closed_ancestors(m, dest, t);
    }
}

/// Pasting staged text into a directory writes exactly that text, UTF-8
/// encoded, to the file `clipboard_content.txt` in the destination,
/// whatever the pending operation tag is.  The one input left out: a
/// directory already named `clipboard_content.txt` there, which the
/// write refuses.
pub proof fn lemma_paste_text_writes_file(
    m: Map<Seq<Seq<char>>, NodeV>,
    text: String,
    cut: bool,
    dest: Seq<Seq<char>>,
)
    requires
        closed_map(m),
        m.contains_key(dest) && m[dest] is Dir,
        !(m.contains_key(dest.push("clipboard_content.txt"@)) && m[dest.push(
            "clipboard_content.txt"@,
        )] is Dir),
    ensures
        paste_spec(m, ClipboardContent::TextPayload(text), cut, dest) matches Ok(m2) && m2
            == m.insert(
            dest.push("clipboard_content.txt"@),
            NodeV::File { data: encode_utf8(text@) },
        ),
{
    let name = "clipboard_content.txt"@;
    let t = dest.push(name);
    reveal_strlit("clipboard_content.txt");
    assert(name.len() == 21);
    assert(valid_path_v(t)) by {
        assert(valid_path_v(dest));
        assert forall|i: int| 0 <= i < t.len() implies #[trigger] t[i].len() >= 1 by {
            if i < dest.len() {
                assert(t[i] == dest[i]);
            } else {
                assert(t[i] == name);
            }
        }
    }
    assert(t.drop_last() =~= dest);
    assert(write_file_spec(m, t, encode_utf8(text@)) is Ok);
}

/// A recursive folder copy carries every stored descendant of the source
/// to its place under the destination with identical contents, and the
/// source tree (with everything else) remains intact.
pub proof fn lemma_graft_copies_tree(
    m: Map<Seq<Seq<char>>, NodeV>,
    src: Seq<Seq<char>>,
    dst: Seq<Seq<char>>,
)
    requires
        graft_tree_spec(m, src, dst) is Ok,
    ensures
        forall|k: Seq<Seq<char>>|
            #[trigger] m.contains_key(k) ==> graft_tree_spec(m, src, dst)->Ok_0.contains_key(k)
                && graft_tree_spec(m, src, dst)->Ok_0[k] == m[k],
        forall|k: Seq<Seq<char>>|
            m.contains_key(k) && is_prefix_of(src, k) ==> #[trigger] graft_tree_spec(
                m,
                src,
                dst,
            )->Ok_0.contains_key(reroot(k, src, dst)) && graft_tree_spec(m, src, dst)->Ok_0[reroot(
                k,
                src,
                dst,
            )] == m[k],
{
    let m2 = graft_map(m, src, dst);
    assert forall|k: Seq<Seq<char>>| #[trigger]
        m.contains_key(k) implies m2.contains_key(k) && m2[k] == m[k] by {}
    assert forall|k: Seq<Seq<char>>|
        m.contains_key(k) && is_prefix_of(src, k) implies #[trigger] m2.contains_key(
        reroot(k, src, dst),
    ) && m2[reroot(k, src, dst)] == m[k] by {
        let t = reroot(k, src, dst);
        lemma_reroot_roundtrip(k, src, dst);
        if m.contains_key(t) {
            // the merge case: no conflict means both sides are directories
            assert(m[k] is Dir && m[t] is Dir) by {
                assert(!graft_conflict(m, src, dst));
            }
        }
    }
}

/// A batch cut-then-paste that fails part way through stops exactly at
/// the first failing item: the items before it are applied, the failing
/// item and everything after it are untouched, and the outcome carries
/// the filesystem state reached by the successful prefix.
pub proof fn lemma_multi_paste_partial_progress(
    m: Map<Seq<Seq<char>>, NodeV>,
    items: Seq<Seq<Seq<char>>>,
    dest: Seq<Seq<char>>,
    cut: bool,
)
    requires
        multi_paste_spec(m, items, dest, cut) is Err,
    ensures
        exists|k: int|
            {
                let prefix = multi_paste_spec(m, #[trigger] items.take(k), dest, cut);
                &&& 0 <= k < items.len()
                &&& prefix is Ok
                &&& paste_one_spec(prefix->Ok_0, items[k], dest, cut) is Err
                &&& multi_paste_spec(m, items, dest, cut)->Err_0.0 == prefix->Ok_0
                &&& multi_paste_spec(m, items, dest, cut)->Err_0.1 == paste_one_spec(
                    prefix->Ok_0,
                    items[k],
                    dest,
                    cut,
                )->Err_0
            },
    decreases items.len(),
{
    match paste_one_spec(m, items[0], dest, cut) {
        Ok(m2) => {
            lemma_multi_paste_partial_progress(m2, items.skip(1), dest, cut);
            let k2 = choose|k2: int|
                {
                    let prefix = multi_paste_spec(m2, #[trigger] items.skip(1).take(k2), dest, cut);
                    &&& 0 <= k2 < items.skip(1).len()
                    &&& prefix is Ok
                    &&& paste_one_spec(prefix->Ok_0, items.skip(1)[k2], dest, cut) is Err
                    &&& multi_paste_spec(m2, items.skip(1), dest, cut)->Err_0.0 == prefix->Ok_0
                    &&& multi_paste_spec(m2, items.skip(1), dest, cut)->Err_0.1 == paste_one_spec(
                        prefix->Ok_0,
                        items.skip(1)[k2],
                        dest,
                        cut,
                    )->Err_0
                };
            let k = k2 + 1;
            assert(items.take(k)[0] == items[0]);
            assert(items.take(k).skip(1) =~= items.skip(1).take(k2));
            assert(items.take(k).len() == k);
            assert(items.skip(1)[k2] == items[k]);
            assert(multi_paste_spec(m, items.take(k), dest, cut) == multi_paste_spec(
                m2,
                items.skip(1).take(k2),
                dest,
                cut,
            ));
        },
        Err(e) => {
            let k: int = 0;
            assert(items.take(0) =~= Seq::<Seq<Seq<char>>>::empty());
            assert(multi_paste_spec(m, items.take(0), dest, cut) is Ok);
        },
    }
}

} // verus!
