//! An explicit model of the directory tree that the clipboard coordinator
//! works against.
//!
//! A filesystem is a finite map from absolute paths (sequences of non-empty
//! name components) to nodes (a regular file with its bytes, or a directory).
//! The map is kept *closed*: the parent of every stored path is itself stored
//! and is a directory.  Every mutating operation states its effect as a map
//! transformation and is proved to preserve well-formedness.

use crate::errors::{FsError, FsErrorKind};
use vstd::prelude::*;

verus! {

/// A path: the sequence of name components from the root down.
/// The root itself is the empty sequence; it is never stored in a
/// [`FileSystem`], which models the root as an implicit directory.
#[derive(Debug)]
pub struct FsPath {
    pub components: Vec<String>,
}

impl View for FsPath {
    type V = Seq<Seq<char>>;

    open spec fn view(&self) -> Seq<Seq<char>> {
        self.components.deep_view()
    }
}

impl DeepView for FsPath {
    type V = Seq<Seq<char>>;

    open spec fn deep_view(&self) -> Seq<Seq<char>> {
        self.view()
    }
}

/// What a filesystem stores at a path.
pub enum FsNode {
    File { data: Vec<u8> },
    Dir,
}

/// The mathematical shape of a node.
pub enum NodeV {
    File { data: Seq<u8> },
    Dir,
}

impl View for FsNode {
    type V = NodeV;

    open spec fn view(&self) -> NodeV {
        match self {
            FsNode::File { data } => NodeV::File { data: data@ },
            FsNode::Dir => NodeV::Dir,
        }
    }
}

/// One stored path with its node.
pub struct FsEntry {
    pub path: FsPath,
    pub node: FsNode,
}

/// A storable path: at least one component, and no empty component.
pub open spec fn valid_path_v(p: Seq<Seq<char>>) -> bool {
    &&& p.len() >= 1
    &&& forall|i: int| 0 <= i < p.len() ==> #[trigger] p[i].len() >= 1
}

/// `p` is an ancestor of `k` or equal to it.
pub open spec fn is_prefix_of(p: Seq<Seq<char>>, k: Seq<Seq<char>>) -> bool {
    p.len() <= k.len() && k.take(p.len() as int) == p
}

/// `p` is a strict ancestor of `k`.
pub open spec fn is_proper_prefix_of(p: Seq<Seq<char>>, k: Seq<Seq<char>>) -> bool {
    is_prefix_of(p, k) && p.len() < k.len()
}

/// The path `k`, with its leading `src` components replaced by `dst`.
pub open spec fn reroot(k: Seq<Seq<char>>, src: Seq<Seq<char>>, dst: Seq<Seq<char>>) -> Seq<
    Seq<char>,
> {
    dst + k.skip(src.len() as int)
}

/// No two entries share a path.
pub open spec fn paths_unique(s: Seq<FsEntry>) -> bool {
    forall|i: int, j: int| 0 <= i < j < s.len() ==> s[i].path@ != s[j].path@
}

/// Every stored path is valid and hangs off a stored directory (or the root).
pub open spec fn closed_map(m: Map<Seq<Seq<char>>, NodeV>) -> bool {
    forall|k: Seq<Seq<char>>|
        #[trigger] m.contains_key(k) ==> valid_path_v(k) && (k.len() == 1 || (m.contains_key(
            k.drop_last(),
        ) && m[k.drop_last()] is Dir))
}

/// The map described by a sequence of entries (later entries win).
pub open spec fn map_of(s: Seq<FsEntry>) -> Map<Seq<Seq<char>>, NodeV>
    decreases s.len(),
{
    if s.len() == 0 {
        Map::empty()
    } else {
        map_of(s.drop_last()).insert(s.last().path@, s.last().node@)
    }
}

pub proof fn lemma_map_of_push(s: Seq<FsEntry>, e: FsEntry)
    ensures
        map_of(s.push(e)) == map_of(s).insert(e.path@, e.node@),
{
    assert(s.push(e).drop_last() =~= s);
    assert(s.push(e).last() == e);
}

/// A key is in the map exactly when some entry carries it.
pub proof fn lemma_map_of_contains(s: Seq<FsEntry>)
    ensures
        forall|k: Seq<Seq<char>>|
            map_of(s).contains_key(k) <==> exists|i: int|
                0 <= i < s.len() && #[trigger] s[i].path@ == k,
    decreases s.len(),
{
    if s.len() > 0 {
        lemma_map_of_contains(s.drop_last());
        assert forall|k: Seq<Seq<char>>| map_of(s).contains_key(k) implies exists|i: int|
            0 <= i < s.len() && #[trigger] s[i].path@ == k by {
            if k == s.last().path@ {
                assert(s[s.len() - 1].path@ == k);
            } else {
                assert(map_of(s.drop_last()).contains_key(k));
                let i = choose|i: int|
                    0 <= i < s.drop_last().len() && #[trigger] s.drop_last()[i].path@ == k;
                assert(s.drop_last()[i] == s[i]);
                assert(s[i].path@ == k);
            }
        }
        assert forall|k: Seq<Seq<char>>|
            (exists|i: int| 0 <= i < s.len() && #[trigger] s[i].path@ == k) implies map_of(
            s,
        ).contains_key(k) by {
            let i = choose|i: int| 0 <= i < s.len() && #[trigger] s[i].path@ == k;
            if i < s.len() - 1 {
                assert(s.drop_last()[i].path@ == k);
                assert(map_of(s.drop_last()).contains_key(k));
            } else {
                assert(s.last().path@ == k);
            }
        }
    }
}

/// With unique paths, each entry decides the value at its own path.
pub proof fn lemma_map_of_index(s: Seq<FsEntry>)
    requires
        paths_unique(s),
    ensures
        forall|i: int|
            0 <= i < s.len() ==> map_of(s).contains_key(#[trigger] s[i].path@) && map_of(
                s,
            )[s[i].path@] == s[i].node@,
    decreases s.len(),
{
    if s.len() > 0 {
        assert(paths_unique(s.drop_last()));
        lemma_map_of_index(s.drop_last());
        assert forall|i: int| 0 <= i < s.len() implies map_of(s).contains_key(
            #[trigger] s[i].path@,
        ) && map_of(s)[s[i].path@] == s[i].node@ by {
            if i < s.len() - 1 {
                assert(s.drop_last()[i] == s[i]);
                assert(s[i].path@ != s[s.len() - 1].path@);
            }
        }
    }
}

/// In a closed map, every non-empty prefix of a stored path is itself stored,
/// and every strict prefix is a directory.  In particular a missing path has
/// no stored descendants.
pub proof fn lemma_closed_ancestors(
    m: Map<Seq<Seq<char>>, NodeV>,
    p: Seq<Seq<char>>,
    k: Seq<Seq<char>>,
)
    requires
        closed_map(m),
        p.len() >= 1,
        m.contains_key(k),
        is_prefix_of(p, k),
    ensures
        m.contains_key(p),
        p.len() < k.len() ==> m[p] is Dir,
    decreases k.len(),
{
    if k.len() == p.len() {
        assert(k.take(p.len() as int) =~= k);
    } else {
        assert(k.len() >= 2);
        let parent = k.drop_last();
        assert(parent =~= k.take(k.len() - 1));
        assert(parent.take(p.len() as int) =~= k.take(p.len() as int));
        lemma_closed_ancestors(m, p, parent);
        if p.len() == parent.len() {
            assert(p =~= parent);
        }
    }
}

impl FsPath {
    /// The path of the root directory.
    pub fn root() -> (r: FsPath)
        ensures
            r@ == Seq::<Seq<char>>::empty(),
    {
        let r = FsPath { components: Vec::new() };
        proof {
            assert(r@ =~= Seq::<Seq<char>>::empty());
        }
        r
    }

    /// An exact copy of this path.
    pub fn duplicate(&self) -> (r: FsPath)
        ensures
            r@ == self@,
    {
        let n = self.components.len();
        let mut out: Vec<String> = Vec::new();
        let mut i: usize = 0;
        while i < n
            invariant
                i <= n,
                n == self.components.len(),
                out@.len() == i,
                forall|j: int| 0 <= j < i ==> out@[j]@ == self@[j],
            decreases n - i,
        {
            out.push(self.components[i].clone());
            i = i + 1;
        }
        let r = FsPath { components: out };
        proof {
            assert(r@ =~= self@);
        }
        r
    }

    /// This path extended by one further component.
    pub fn join(&self, name: &str) -> (r: FsPath)
        ensures
            r@ == self@.push(name@),
    {
        let mut r = self.duplicate();
        r.components.push(name.to_owned());
        proof {
            assert(r@ =~= self@.push(name@));
        }
        r
    }

    /// The number of components.
    pub fn depth(&self) -> (r: usize)
        ensures
            r == self@.len(),
    {
        self.components.len()
    }

    /// The last component, if there is one: the name the path ends in.
    pub fn file_name(&self) -> (r: Option<&String>)
        ensures
            match r {
                Some(name) => self@.len() >= 1 && name@ == self@.last(),
                None => self@.len() == 0,
            },
    {
        let n = self.components.len();
        if n == 0 {
            None
        } else {
            Some(&self.components[n - 1])
        }
    }

    /// Whether the two paths are the same.
    pub fn path_eq(&self, other: &FsPath) -> (r: bool)
        ensures
            r == (self@ == other@),
    {
        let n = self.components.len();
        if n != other.components.len() {
            proof {
                assert(self@.len() != other@.len());
            }
            return false;
        }
        let mut i: usize = 0;
        while i < n
            invariant
                i <= n,
                n == self.components.len(),
                n == other.components.len(),
                forall|j: int| 0 <= j < i ==> self@[j] == other@[j],
            decreases n - i,
        {
            if !(self.components[i] == other.components[i]) {
                proof {
                    assert(self@[i as int] != other@[i as int]);
                }
                return false;
            }
            i = i + 1;
        }
        proof {
            assert(self@ =~= other@);
        }
        true
    }

    /// Whether `p` is this path or one of its ancestors.
    pub fn starts_with(&self, p: &FsPath) -> (r: bool)
        ensures
            r == is_prefix_of(p@, self@),
    {
        let n = p.components.len();
        if n > self.components.len() {
            return false;
        }
        let mut i: usize = 0;
        while i < n
            invariant
                i <= n,
                n == p.components.len(),
                n <= self.components.len(),
                forall|j: int| 0 <= j < i ==> self@[j] == p@[j],
            decreases n - i,
        {
            if !(self.components[i] == p.components[i]) {
                proof {
                    assert(self@.take(n as int)[i as int] != p@[i as int]);
                }
                return false;
            }
            i = i + 1;
        }
        proof {
            assert(self@.take(n as int) =~= p@);
        }
        true
    }

    /// Whether every component is non-empty and there is at least one.
    pub fn is_valid(&self) -> (r: bool)
        ensures
            r == valid_path_v(self@),
    {
        let n = self.components.len();
        if n == 0 {
            return false;
        }
        let mut i: usize = 0;
        while i < n
            invariant
                i <= n,
                n == self.components.len(),
                forall|j: int| 0 <= j < i ==> #[trigger] self@[j].len() >= 1,
            decreases n - i,
        {
            if self.components[i].as_str().is_empty() {
                proof {
                    assert(self@[i as int].len() == 0);
                }
                return false;
            }
            i = i + 1;
        }
        true
    }

    /// The path one component shorter: the directory this path hangs off.
    pub fn parent(&self) -> (r: FsPath)
        requires
            self@.len() >= 1,
        ensures
            r@ == self@.drop_last(),
    {
        let mut r = self.duplicate();
        let popped = r.components.pop();
        proof {
            assert(popped is Some);
            assert(r@ =~= self@.drop_last());
        }
        r
    }

    /// The first `i` components of this path.
    pub fn prefix(&self, i: usize) -> (r: FsPath)
        requires
            i <= self@.len(),
        ensures
            r@ == self@.take(i as int),
    {
        let mut out: Vec<String> = Vec::new();
        let mut j: usize = 0;
        while j < i
            invariant
                j <= i,
                i <= self.components.len(),
                out@.len() == j,
                forall|l: int| 0 <= l < j ==> out@[l]@ == self@[l],
            decreases i - j,
        {
            out.push(self.components[j].clone());
            j = j + 1;
        }
        let r = FsPath { components: out };
        proof {
            assert(r@ =~= self@.take(i as int));
        }
        r
    }

    /// This path with `src` replaced by `dst` as its leading components.
    pub fn rerooted(&self, src: &FsPath, dst: &FsPath) -> (r: FsPath)
        requires
            is_prefix_of(src@, self@),
        ensures
            r@ == reroot(self@, src@, dst@),
    {
        let mut out = dst.duplicate();
        let n = self.components.len();
        let mut i: usize = src.components.len();
        proof {
            assert(out@ =~= dst@ + self@.subrange(src@.len() as int, i as int));
        }
        while i < n
            invariant
                src.components.len() <= i <= n,
                n == self.components.len(),
                out@ == dst@ + self@.subrange(src@.len() as int, i as int),
            decreases n - i,
        {
            let ghost prev = out@;
            out.components.push(self.components[i].clone());
            proof {
                let target = dst@ + self@.subrange(src@.len() as int, i as int + 1);
                assert(out@.len() == prev.len() + 1);
                assert(forall|j: int| 0 <= j < prev.len() ==> out@[j] == prev[j]);
                assert(out@[prev.len() as int] == self@[i as int]);
                assert forall|j: int| 0 <= j < out@.len() implies out@[j] == target[j] by {
                    if j < dst@.len() {
                        assert(target[j] == dst@[j]);
                        assert(prev[j] == dst@[j]);
                    } else {
                        assert(target[j] == self@[src@.len() + j - dst@.len()]);
                        if j < prev.len() {
                            assert(prev[j] == self@.subrange(src@.len() as int, i as int)[j - dst@.len()]);
                        }
                    }
                }
                assert(out@ =~= target);
            }
            i = i + 1;
        }
        proof {
            assert(self@.subrange(src@.len() as int, n as int) =~= self@.skip(src@.len() as int));
            assert(out@ == reroot(self@, src@, dst@));
        }
        out
    }
}

/// An exact copy of a byte vector.
pub fn copy_bytes(v: &Vec<u8>) -> (r: Vec<u8>)
    ensures
        r@ == v@,
{
    let n = v.len();
    let mut out: Vec<u8> = Vec::new();
    let mut i: usize = 0;
    while i < n
        invariant
            i <= n,
            n == v.len(),
            out@ == v@.take(i as int),
        decreases n - i,
    {
        out.push(v[i]);
        proof {
            assert(out@ =~= v@.take(i as int + 1));
        }
        i = i + 1;
    }
    proof {
        assert(out@ =~= v@);
    }
    out
}

impl FsNode {
    /// An exact copy of this node.
    pub fn duplicate(&self) -> (r: FsNode)
        ensures
            r@ == self@,
    {
        match self {
            FsNode::File { data } => FsNode::File { data: copy_bytes(data) },
            FsNode::Dir => FsNode::Dir,
        }
    }

    /// The bytes of a file node, or nothing for a directory.
    pub fn file_data(&self) -> (r: Option<Vec<u8>>)
        ensures
            (r is Some) == (self@ is File),
            r is Some ==> r.unwrap()@ == self@->File_data,
    {
        match self {
            FsNode::File { data } => Some(copy_bytes(data)),
            FsNode::Dir => None,
        }
    }

    /// Whether this node is a directory.
    pub fn is_dir(&self) -> (r: bool)
        ensures
            r == (self@ is Dir),
    {
        match self {
            FsNode::File { .. } => false,
            FsNode::Dir => true,
        }
    }
}

/// The bytes a node accounts for: a file's length; a directory itself
/// holds none.
pub open spec fn node_size(n: NodeV) -> nat {
    match n {
        NodeV::File { data } => data.len(),
        NodeV::Dir => 0,
    }
}

/// The bytes stored in the subtree at `p`, summed over the entries.
pub open spec fn seq_size(s: Seq<FsEntry>, p: Seq<Seq<char>>) -> nat
    decreases s.len(),
{
    if s.len() == 0 {
        0
    } else {
        seq_size(s.drop_last(), p) + (if is_prefix_of(p, s.last().path@) {
            node_size(s.last().node@)
        } else {
            0
        })
    }
}

/// `m` with the whole subtree rooted at `p` taken out.
pub open spec fn prune_map(m: Map<Seq<Seq<char>>, NodeV>, p: Seq<Seq<char>>) -> Map<
    Seq<Seq<char>>,
    NodeV,
> {
    Map::new(|k: Seq<Seq<char>>| m.contains_key(k) && !is_prefix_of(p, k), |k: Seq<Seq<char>>| m[k])
}

/// Only the subtree of `m` rooted at `p`.
pub open spec fn restrict_map(m: Map<Seq<Seq<char>>, NodeV>, p: Seq<Seq<char>>) -> Map<
    Seq<Seq<char>>,
    NodeV,
> {
    Map::new(|k: Seq<Seq<char>>| m.contains_key(k) && is_prefix_of(p, k), |k: Seq<Seq<char>>| m[k])
}

/// An ancestor of an ancestor is an ancestor.
pub proof fn lemma_prefix_transitive(a: Seq<Seq<char>>, b: Seq<Seq<char>>, c: Seq<Seq<char>>)
    requires
        is_prefix_of(a, b),
        is_prefix_of(b, c),
    ensures
        is_prefix_of(a, c),
{
    assert(c.take(a.len() as int) =~= c.take(b.len() as int).take(a.len() as int));
}

/// Storing a node at a ready path keeps the map closed, as long as a
/// directory is never silently replaced by a file.
pub proof fn lemma_insert_closed(m: Map<Seq<Seq<char>>, NodeV>, p: Seq<Seq<char>>, node: NodeV)
    requires
        closed_map(m),
        valid_path_v(p),
        parent_ready(m, p),
        m.contains_key(p) ==> ((m[p] is Dir) <==> (node is Dir)),
    ensures
        closed_map(m.insert(p, node)),
{
    let m2 = m.insert(p, node);
    assert forall|k: Seq<Seq<char>>| #[trigger]
        m2.contains_key(k) implies valid_path_v(k) && (k.len() == 1 || (m2.contains_key(
        k.drop_last(),
    ) && m2[k.drop_last()] is Dir)) by {
        if k == p {
            if p.len() > 1 {
                assert(p.drop_last().len() < p.len());
            }
        } else {
            assert(m.contains_key(k));
            if k.len() > 1 {
                if k.drop_last() == p {
                    assert(m[p] is Dir);
                }
            }
        }
    }
}

/// Cutting out a whole subtree keeps the map closed.
pub proof fn lemma_prune_closed(m: Map<Seq<Seq<char>>, NodeV>, p: Seq<Seq<char>>)
    requires
        closed_map(m),
    ensures
        closed_map(prune_map(m, p)),
{
    let m2 = prune_map(m, p);
    assert forall|k: Seq<Seq<char>>| #[trigger]
        m2.contains_key(k) implies valid_path_v(k) && (k.len() == 1 || (m2.contains_key(
        k.drop_last(),
    ) && m2[k.drop_last()] is Dir)) by {
        if k.len() > 1 {
            assert(is_prefix_of(k.drop_last(), k)) by {
                assert(k.take(k.len() - 1) =~= k.drop_last());
            }
            if is_prefix_of(p, k.drop_last()) {
                lemma_prefix_transitive(p, k.drop_last(), k);
            }
        }
    }
}

/// The parent of `p` is ready to receive an entry: `p` hangs directly off
/// the root, or its parent is a stored directory.
pub open spec fn parent_ready(m: Map<Seq<Seq<char>>, NodeV>, p: Seq<Seq<char>>) -> bool {
    p.len() == 1 || (m.contains_key(p.drop_last()) && m[p.drop_last()] is Dir)
}

/// The outcome of creating or overwriting the file at `p` with `data`:
/// what `write_file` does, stated on the map.
pub open spec fn write_file_spec(
    m: Map<Seq<Seq<char>>, NodeV>,
    p: Seq<Seq<char>>,
    data: Seq<u8>,
) -> Result<Map<Seq<Seq<char>>, NodeV>, FsErrorKind> {
    if !valid_path_v(p) {
        Err(FsErrorKind::InvalidPath)
    } else if p.len() > 1 && !m.contains_key(p.drop_last()) {
        Err(FsErrorKind::NotFound)
    } else if p.len() > 1 && !(m[p.drop_last()] is Dir) {
        Err(FsErrorKind::NotADirectory)
    } else if m.contains_key(p) && m[p] is Dir {
        Err(FsErrorKind::NotAFile)
    } else {
        Ok(m.insert(p, NodeV::File { data }))
    }
}

/// The outcome of creating the directory at `p`: what `create_dir` does.
pub open spec fn create_dir_spec(m: Map<Seq<Seq<char>>, NodeV>, p: Seq<Seq<char>>) -> Result<
    Map<Seq<Seq<char>>, NodeV>,
    FsErrorKind,
> {
    if !valid_path_v(p) {
        Err(FsErrorKind::InvalidPath)
    } else if p.len() > 1 && !m.contains_key(p.drop_last()) {
        Err(FsErrorKind::NotFound)
    } else if p.len() > 1 && !(m[p.drop_last()] is Dir) {
        Err(FsErrorKind::NotADirectory)
    } else if m.contains_key(p) {
        Err(FsErrorKind::AlreadyExists)
    } else {
        Ok(m.insert(p, NodeV::Dir))
    }
}

/// The outcome of duplicating the single file `src` as `dst`:
/// what `copy_file` does.  An existing destination is refused.
pub open spec fn copy_file_spec(
    m: Map<Seq<Seq<char>>, NodeV>,
    src: Seq<Seq<char>>,
    dst: Seq<Seq<char>>,
) -> Result<Map<Seq<Seq<char>>, NodeV>, FsErrorKind> {
    if !m.contains_key(src) {
        Err(FsErrorKind::NotFound)
    } else if !(m[src] is File) {
        Err(FsErrorKind::NotAFile)
    } else if !valid_path_v(dst) {
        Err(FsErrorKind::InvalidPath)
    } else if m.contains_key(dst) {
        Err(FsErrorKind::AlreadyExists)
    } else if dst.len() > 1 && !m.contains_key(dst.drop_last()) {
        Err(FsErrorKind::NotFound)
    } else if dst.len() > 1 && !(m[dst.drop_last()] is Dir) {
        Err(FsErrorKind::NotADirectory)
    } else {
        Ok(m.insert(dst, m[src]))
    }
}

/// The outcome of deleting the whole subtree at `p`: what `remove_path` does.
pub open spec fn remove_path_spec(m: Map<Seq<Seq<char>>, NodeV>, p: Seq<Seq<char>>) -> Result<
    Map<Seq<Seq<char>>, NodeV>,
    FsErrorKind,
> {
    if !m.contains_key(p) {
        Err(FsErrorKind::NotFound)
    } else {
        Ok(prune_map(m, p))
    }
}

/// Concatenation splits back into its parts.
pub proof fn lemma_concat_parts(a: Seq<Seq<char>>, b: Seq<Seq<char>>)
    ensures
        (a + b).take(a.len() as int) == a,
        (a + b).skip(a.len() as int) == b,
{
    assert((a + b).take(a.len() as int) =~= a);
    assert((a + b).skip(a.len() as int) =~= b);
}

/// Rerooting is undone by rerooting back.
pub proof fn lemma_reroot_roundtrip(k: Seq<Seq<char>>, a: Seq<Seq<char>>, b: Seq<Seq<char>>)
    requires
        is_prefix_of(a, k),
    ensures
        is_prefix_of(b, reroot(k, a, b)),
        reroot(reroot(k, a, b), b, a) == k,
{
    lemma_concat_parts(b, k.skip(a.len() as int));
    assert(a + k.skip(a.len() as int) =~= k);
}

/// `m` with the subtree at `src` moved to `dst`: the `src` side disappears,
/// and every stored descendant reappears under `dst`.
pub open spec fn move_map(
    m: Map<Seq<Seq<char>>, NodeV>,
    src: Seq<Seq<char>>,
    dst: Seq<Seq<char>>,
) -> Map<Seq<Seq<char>>, NodeV> {
    Map::new(
        |k: Seq<Seq<char>>|
            (m.contains_key(k) && !is_prefix_of(src, k)) || (is_prefix_of(dst, k)
                && m.contains_key(reroot(k, dst, src))),
        |k: Seq<Seq<char>>|
            if is_prefix_of(dst, k) && m.contains_key(reroot(k, dst, src)) {
                m[reroot(k, dst, src)]
            } else {
                m[k]
            },
    )
}

/// The entries a merge copy adds: the stored descendants of `src` whose
/// image under `dst` is not already stored.
pub open spec fn graft_new(
    m: Map<Seq<Seq<char>>, NodeV>,
    src: Seq<Seq<char>>,
    dst: Seq<Seq<char>>,
) -> Map<Seq<Seq<char>>, NodeV> {
    Map::new(
        |k: Seq<Seq<char>>|
            is_prefix_of(dst, k) && m.contains_key(reroot(k, dst, src)) && !m.contains_key(k),
        |k: Seq<Seq<char>>| m[reroot(k, dst, src)],
    )
}

/// `m` with the subtree at `src` also copied to `dst`, merging into
/// directories that already exist there.
pub open spec fn graft_map(
    m: Map<Seq<Seq<char>>, NodeV>,
    src: Seq<Seq<char>>,
    dst: Seq<Seq<char>>,
) -> Map<Seq<Seq<char>>, NodeV> {
    m.union_prefer_right(graft_new(m, src, dst))
}

/// A merge copy of `src` to `dst` hits an occupied slot: some stored
/// descendant's image already exists and the two are not both directories.
pub open spec fn graft_conflict(
    m: Map<Seq<Seq<char>>, NodeV>,
    src: Seq<Seq<char>>,
    dst: Seq<Seq<char>>,
) -> bool {
    exists|k: Seq<Seq<char>>|
        #[trigger] m.contains_key(k) && is_prefix_of(src, k) && m.contains_key(
            reroot(k, src, dst),
        ) && !(m[k] is Dir && m[reroot(k, src, dst)] is Dir)
}

/// The outcome of moving the subtree at `src` to `dst`: what `rename_path`
/// does.  The destination must be free and outside the moved subtree.
pub open spec fn move_tree_spec(
    m: Map<Seq<Seq<char>>, NodeV>,
    src: Seq<Seq<char>>,
    dst: Seq<Seq<char>>,
) -> Result<Map<Seq<Seq<char>>, NodeV>, FsErrorKind> {
    if !m.contains_key(src) {
        Err(FsErrorKind::NotFound)
    } else if !valid_path_v(dst) {
        Err(FsErrorKind::InvalidPath)
    } else if m.contains_key(dst) {
        Err(FsErrorKind::AlreadyExists)
    } else if is_prefix_of(src, dst) {
        Err(FsErrorKind::InvalidPath)
    } else if dst.len() > 1 && !m.contains_key(dst.drop_last()) {
        Err(FsErrorKind::NotFound)
    } else if dst.len() > 1 && !(m[dst.drop_last()] is Dir) {
        Err(FsErrorKind::NotADirectory)
    } else {
        Ok(move_map(m, src, dst))
    }
}

/// The outcome of recursively copying the directory `src` to `dst`: what
/// `graft_tree` does.  Directories merge; any other collision is refused,
/// and a conflict is detected before anything is written.
pub open spec fn graft_tree_spec(
    m: Map<Seq<Seq<char>>, NodeV>,
    src: Seq<Seq<char>>,
    dst: Seq<Seq<char>>,
) -> Result<Map<Seq<Seq<char>>, NodeV>, FsErrorKind> {
    if !m.contains_key(src) {
        Err(FsErrorKind::NotFound)
    } else if !(m[src] is Dir) {
        Err(FsErrorKind::NotADirectory)
    } else if !valid_path_v(dst) {
        Err(FsErrorKind::InvalidPath)
    } else if is_proper_prefix_of(src, dst) {
        Err(FsErrorKind::InvalidPath)
    } else if dst.len() > 1 && !m.contains_key(dst.drop_last()) {
        Err(FsErrorKind::NotFound)
    } else if dst.len() > 1 && !(m[dst.drop_last()] is Dir) {
        Err(FsErrorKind::NotADirectory)
    } else if m.contains_key(dst) && !(m[dst] is Dir) {
        Err(FsErrorKind::AlreadyExists)
    } else if graft_conflict(m, src, dst) {
        Err(FsErrorKind::AlreadyExists)
    } else {
        Ok(graft_map(m, src, dst))
    }
}

/// Moving a subtree to a free destination keeps the map closed.
pub proof fn lemma_move_map_closed(
    m: Map<Seq<Seq<char>>, NodeV>,
    src: Seq<Seq<char>>,
    dst: Seq<Seq<char>>,
)
    requires
        closed_map(m),
        m.contains_key(src),
        !m.contains_key(dst),
        valid_path_v(dst),
        !is_prefix_of(src, dst),
        parent_ready(m, dst),
    ensures
        closed_map(move_map(m, src, dst)),
{
    let m2 = move_map(m, src, dst);
    assert forall|k: Seq<Seq<char>>| #[trigger]
        m2.contains_key(k) implies valid_path_v(k) && (k.len() == 1 || (m2.contains_key(
        k.drop_last(),
    ) && m2[k.drop_last()] is Dir)) by {
        if is_prefix_of(dst, k) && m.contains_key(reroot(k, dst, src)) {
            let q = reroot(k, dst, src);
            lemma_reroot_roundtrip(k, dst, src);
            assert(is_prefix_of(src, q)) by {
                lemma_concat_parts(src, k.skip(dst.len() as int));
            }
            assert(valid_path_v(k)) by {
                assert forall|i: int| 0 <= i < k.len() implies #[trigger] k[i].len() >= 1 by {
                    if i >= dst.len() {
                        assert(k[i] == q[src.len() + i - dst.len()]);
                    }
                }
            }
            if k.len() == dst.len() {
                // the moved root itself
                assert(k =~= dst);
                if dst.len() > 1 {
                    let par = dst.drop_last();
                    assert(!is_prefix_of(src, par)) by {
                        if is_prefix_of(src, par) {
                            assert(is_prefix_of(par, dst)) by {
                                assert(dst.take(dst.len() - 1) =~= par);
                            }
                            lemma_prefix_transitive(src, par, dst);
                        }
                    }
                    assert(!(is_prefix_of(dst, par) && m.contains_key(reroot(par, dst, src))))
                        by {
                        assert(!is_prefix_of(dst, par));
                    }
                    assert(m2.contains_key(par) && m2[par] is Dir);
                }
            } else {
                // a strict descendant of the moved root
                assert(q.len() > src.len());
                let qpar = q.drop_last();
                let kpar = k.drop_last();
                assert(m.contains_key(qpar) && m[qpar] is Dir);
                assert(kpar =~= dst + q.skip(src.len() as int).drop_last());
                assert(qpar.skip(src.len() as int) =~= q.skip(src.len() as int).drop_last());
                assert(kpar == reroot(qpar, src, dst));
                assert(is_prefix_of(src, qpar)) by {
                    assert(qpar.take(src.len() as int) =~= q.take(src.len() as int));
                }
                lemma_reroot_roundtrip(qpar, src, dst);
                assert(m2.contains_key(kpar));
                assert(m2[kpar] == m[qpar]);
            }
        } else {
            assert(m.contains_key(k) && !is_prefix_of(src, k));
            if k.len() > 1 {
                let par = k.drop_last();
                assert(is_prefix_of(par, k)) by {
                    assert(k.take(k.len() - 1) =~= par);
                }
                assert(m.contains_key(par) && m[par] is Dir);
                assert(!is_prefix_of(src, par)) by {
                    if is_prefix_of(src, par) {
                        lemma_prefix_transitive(src, par, k);
                    }
                }
                assert(!is_prefix_of(dst, par)) by {
                    if is_prefix_of(dst, par) {
                        lemma_closed_ancestors(m, dst, par);
                    }
                }
                assert(m2.contains_key(par) && m2[par] is Dir);
            }
        }
    }
}

/// A conflict-free merge copy keeps the map closed.
pub proof fn lemma_graft_map_closed(
    m: Map<Seq<Seq<char>>, NodeV>,
    src: Seq<Seq<char>>,
    dst: Seq<Seq<char>>,
)
    requires
        closed_map(m),
        m.contains_key(src),
        m[src] is Dir,
        valid_path_v(dst),
        parent_ready(m, dst),
        m.contains_key(dst) ==> m[dst] is Dir,
        !graft_conflict(m, src, dst),
    ensures
        closed_map(graft_map(m, src, dst)),
{
    let m2 = graft_map(m, src, dst);
    assert forall|k: Seq<Seq<char>>| #[trigger]
        m2.contains_key(k) implies valid_path_v(k) && (k.len() == 1 || (m2.contains_key(
        k.drop_last(),
    ) && m2[k.drop_last()] is Dir)) by {
        if m.contains_key(k) {
            if k.len() > 1 {
                let par = k.drop_last();
                assert(m.contains_key(par) && m[par] is Dir);
                assert(m2.contains_key(par));
                assert(m2[par] == m[par]);
            }
        } else {
            // a key the graft added
            assert(is_prefix_of(dst, k) && m.contains_key(reroot(k, dst, src)));
            let q = reroot(k, dst, src);
            lemma_reroot_roundtrip(k, dst, src);
            assert(is_prefix_of(src, q)) by {
                lemma_concat_parts(src, k.skip(dst.len() as int));
            }
            assert(valid_path_v(k)) by {
                assert forall|i: int| 0 <= i < k.len() implies #[trigger] k[i].len() >= 1 by {
                    if i >= dst.len() {
                        assert(k[i] == q[src.len() + i - dst.len()]);
                    }
                }
            }
            if k.len() == dst.len() {
                assert(k =~= dst);
                if dst.len() > 1 {
                    let par = dst.drop_last();
                    assert(m.contains_key(par) && m[par] is Dir);
                    assert(m2.contains_key(par));
                    assert(m2[par] == m[par]);
                }
            } else {
                assert(q.len() > src.len());
                let qpar = q.drop_last();
                let kpar = k.drop_last();
                assert(m.contains_key(qpar) && m[qpar] is Dir);
                assert(kpar =~= dst + q.skip(src.len() as int).drop_last());
                assert(qpar.skip(src.len() as int) =~= q.skip(src.len() as int).drop_last());
                assert(kpar == reroot(qpar, src, dst));
                assert(is_prefix_of(src, qpar)) by {
                    assert(qpar.take(src.len() as int) =~= q.take(src.len() as int));
                }
                lemma_reroot_roundtrip(qpar, src, dst);
                if m.contains_key(kpar) {
                    // the merge target: both sides are directories
                    assert(reroot(qpar, src, dst) == kpar);
                    assert(m[kpar] is Dir);
                    assert(m2.contains_key(kpar));
                    assert(m2[kpar] == m[kpar]);
                } else {
                    assert(m2.contains_key(kpar));
                    assert(m2[kpar] == m[qpar]);
                }
            }
        }
    }
}

/// No stored prefix of `p` holds a file, so the whole chain of ancestors
/// down to `p` can be directories.
pub open spec fn ancestors_ready(m: Map<Seq<Seq<char>>, NodeV>, p: Seq<Seq<char>>) -> bool {
    forall|i: int|
        1 <= i <= p.len() ==> (m.contains_key(#[trigger] p.take(i)) ==> m[p.take(i)] is Dir)
}

/// `m` with every missing prefix of `p` filled in as a directory.
pub open spec fn with_dirs(m: Map<Seq<Seq<char>>, NodeV>, p: Seq<Seq<char>>) -> Map<
    Seq<Seq<char>>,
    NodeV,
> {
    Map::new(
        |k: Seq<Seq<char>>| m.contains_key(k) || (k.len() >= 1 && is_prefix_of(k, p)),
        |k: Seq<Seq<char>>|
            if m.contains_key(k) {
                m[k]
            } else {
                NodeV::Dir
            },
    )
}

/// The outcome of creating the directory at `p` together with all its
/// missing ancestors: what `create_dir_all` does.  Nothing is written if
/// a file occupies any prefix of the chain.
pub open spec fn create_dir_all_spec(m: Map<Seq<Seq<char>>, NodeV>, p: Seq<Seq<char>>) -> Result<
    Map<Seq<Seq<char>>, NodeV>,
    FsErrorKind,
> {
    if !valid_path_v(p) {
        Err(FsErrorKind::InvalidPath)
    } else if !ancestors_ready(m, p) {
        Err(FsErrorKind::NotADirectory)
    } else {
        Ok(with_dirs(m, p))
    }
}

/// Filling in a chain of directories keeps the map closed.
pub proof fn lemma_with_dirs_closed(m: Map<Seq<Seq<char>>, NodeV>, p: Seq<Seq<char>>)
    requires
        closed_map(m),
        valid_path_v(p),
        ancestors_ready(m, p),
    ensures
        closed_map(with_dirs(m, p)),
{
    let m2 = with_dirs(m, p);
    assert forall|k: Seq<Seq<char>>| #[trigger]
        m2.contains_key(k) implies valid_path_v(k) && (k.len() == 1 || (m2.contains_key(
        k.drop_last(),
    ) && m2[k.drop_last()] is Dir)) by {
        if m.contains_key(k) {
            if k.len() > 1 {
                let par = k.drop_last();
                assert(m2.contains_key(par));
                if m2.contains_key(par) && !m.contains_key(par) {
                    assert(m2[par] is Dir);
                } else {
                    assert(m2[par] == m[par]);
                }
            }
        } else {
            assert(k.len() >= 1 && is_prefix_of(k, p));
            assert(valid_path_v(k)) by {
                assert forall|i: int| 0 <= i < k.len() implies #[trigger] k[i].len() >= 1 by {
                    assert(p.take(k.len() as int)[i] == p[i]);
                    assert(k[i] == p[i]);
                }
            }
            if k.len() > 1 {
                let par = k.drop_last();
                assert(is_prefix_of(par, p)) by {
                    assert(par =~= k.take(k.len() - 1));
                    assert(p.take(par.len() as int) =~= k.take(k.len() - 1));
                }
                assert(m2.contains_key(par));
                if m.contains_key(par) {
                    assert(par == p.take(par.len() as int));
                    assert(m[par] is Dir);
                    assert(m2[par] == m[par]);
                } else {
                    assert(m2[par] is Dir);
                }
            }
        }
    }
}

/// A conflict-free merge copy is owed whenever the destination chain was
/// just created fresh: grafting `src` onto the new `dst` cannot fail.
pub proof fn lemma_graft_into_fresh(m: Map<Seq<Seq<char>>, NodeV>, src: Seq<Seq<char>>, dst: Seq<
    Seq<char>,
>)
    requires
        closed_map(m),
        m.contains_key(src),
        m[src] is Dir,
        valid_path_v(dst),
        !m.contains_key(dst),
        !is_proper_prefix_of(src, dst),
        ancestors_ready(m, dst),
    ensures
        create_dir_all_spec(m, dst) == Ok::<Map<Seq<Seq<char>>, NodeV>, FsErrorKind>(
            with_dirs(m, dst),
        ),
        graft_tree_spec(with_dirs(m, dst), src, dst) == Ok::<
            Map<Seq<Seq<char>>, NodeV>,
            FsErrorKind,
        >(graft_map(with_dirs(m, dst), src, dst)),
{
    let m2 = with_dirs(m, dst);
    assert(m2.contains_key(src) && m2[src] is Dir);
    assert(m2.contains_key(dst) && m2[dst] is Dir) by {
        assert(dst.take(dst.len() as int) =~= dst);
    }
    if dst.len() > 1 {
        let par = dst.drop_last();
        assert(is_prefix_of(par, dst)) by {
            assert(dst.take(dst.len() - 1) =~= par);
        }
        assert(m2.contains_key(par));
        if m.contains_key(par) {
            assert(par == dst.take(par.len() as int));
            assert(m2[par] == m[par]);
        }
        assert(m2[par] is Dir);
    }
    assert(!graft_conflict(m2, src, dst)) by {
        if graft_conflict(m2, src, dst) {
            let k = choose|k: Seq<Seq<char>>|
                #[trigger] m2.contains_key(k) && is_prefix_of(src, k) && m2.contains_key(
                    reroot(k, src, dst),
                ) && !(m2[k] is Dir && m2[reroot(k, src, dst)] is Dir);
            let t = reroot(k, src, dst);
            lemma_reroot_roundtrip(k, src, dst);
            if k.len() == src.len() {
                // the root maps to the fresh destination: both directories
                assert(k =~= k.take(src.len() as int));
                assert(k == src);
                assert(t =~= dst);
                assert(m2[k] is Dir);
                assert(m2[t] is Dir);
            } else {
                // a strict descendant's image lies strictly under `dst`,
                // where nothing is stored
                assert(t.len() > dst.len());
                if m.contains_key(t) {
                    lemma_closed_ancestors(m, dst, t);
                } else {
                    assert(is_prefix_of(t, dst));
                }
            }
        }
    }
}

/// The image of the stored subtree at `src`, relocated under `dst`.
pub open spec fn image_map(
    m: Map<Seq<Seq<char>>, NodeV>,
    src: Seq<Seq<char>>,
    dst: Seq<Seq<char>>,
) -> Map<Seq<Seq<char>>, NodeV> {
    Map::new(
        |k: Seq<Seq<char>>| is_prefix_of(dst, k) && m.contains_key(reroot(k, dst, src)),
        |k: Seq<Seq<char>>| m[reroot(k, dst, src)],
    )
}

/// Entries that carry the subtree of `m` at `src`, rerooted to `dst`,
/// describe exactly the image map.
pub proof fn lemma_rerooted_entries_map(
    m: Map<Seq<Seq<char>>, NodeV>,
    src: Seq<Seq<char>>,
    dst: Seq<Seq<char>>,
    snap: Seq<FsEntry>,
    moved: Seq<FsEntry>,
)
    requires
        paths_unique(snap),
        map_of(snap) == restrict_map(m, src),
        forall|j: int| 0 <= j < snap.len() ==> is_prefix_of(src, #[trigger] snap[j].path@),
        moved.len() == snap.len(),
        forall|j: int|
            0 <= j < moved.len() ==> #[trigger] moved[j].path@ == reroot(snap[j].path@, src, dst)
                && moved[j].node@ == snap[j].node@,
    ensures
        paths_unique(moved),
        map_of(moved) == image_map(m, src, dst),
{
    lemma_map_of_contains(snap);
    lemma_map_of_index(snap);
    assert forall|i: int, j: int|
        0 <= i < j < moved.len() implies moved[i].path@ != moved[j].path@ by {
        if moved[i].path@ == moved[j].path@ {
            lemma_reroot_roundtrip(snap[i].path@, src, dst);
            lemma_reroot_roundtrip(snap[j].path@, src, dst);
            assert(snap[i].path@ == snap[j].path@);
        }
    }
    lemma_map_of_contains(moved);
    lemma_map_of_index(moved);
    let target = image_map(m, src, dst);
    assert forall|k: Seq<Seq<char>>| #[trigger]
        map_of(moved).dom().contains(k) implies target.dom().contains(k) && map_of(moved)[k]
        == target[k] by {
        assert(map_of(moved).contains_key(k));
        let j = choose|j: int| 0 <= j < moved.len() && #[trigger] moved[j].path@ == k;
        lemma_reroot_roundtrip(snap[j].path@, src, dst);
        assert(reroot(k, dst, src) == snap[j].path@);
        assert(map_of(snap).contains_key(snap[j].path@));
        assert(m.contains_key(snap[j].path@));
        assert(target.contains_key(k));
        assert(map_of(moved)[k] == moved[j].node@);
        assert(map_of(snap)[snap[j].path@] == snap[j].node@);
        assert(target[k] == m[snap[j].path@]);
    }
    assert forall|k: Seq<Seq<char>>| #[trigger]
        target.dom().contains(k) implies map_of(moved).dom().contains(k) by {
        assert(target.contains_key(k));
        let q = reroot(k, dst, src);
        assert(is_prefix_of(src, q)) by {
            lemma_concat_parts(src, k.skip(dst.len() as int));
        }
        assert(map_of(snap).contains_key(q));
        let j = choose|j: int| 0 <= j < snap.len() && #[trigger] snap[j].path@ == q;
        lemma_reroot_roundtrip(k, dst, src);
        assert(moved[j].path@ == k);
        assert(map_of(moved).contains_key(k));
    }
    assert(map_of(moved).dom() =~= target.dom());
    assert(map_of(moved) =~= target);
}

/// The modelled directory tree: a closed map from paths to nodes, stored as
/// a vector of entries with pairwise distinct paths.
pub struct FileSystem {
    entries: Vec<FsEntry>,
}

impl View for FileSystem {
    type V = Map<Seq<Seq<char>>, NodeV>;

    closed spec fn view(&self) -> Map<Seq<Seq<char>>, NodeV> {
        map_of(self.entries@)
    }
}

impl FileSystem {
    /// The representation invariant: distinct paths, and a closed map.
    pub closed spec fn wf(&self) -> bool {
        paths_unique(self.entries@) && closed_map(self@)
    }

    /// What well-formedness gives callers: the map is closed.
    pub proof fn lemma_wf_closed(&self)
        requires
            self.wf(),
        ensures
            closed_map(self@),
    {
    }

    /// An empty tree: just the implicit root directory.
    pub fn new() -> (r: FileSystem)
        ensures
            r.wf(),
            r@ == Map::<Seq<Seq<char>>, NodeV>::empty(),
    {
        let r = FileSystem { entries: Vec::new() };
        proof {
            assert(r@ =~= Map::<Seq<Seq<char>>, NodeV>::empty());
        }
        r
    }

    /// The index of the entry at `p`, if one is stored.
    fn find_index(&self, p: &FsPath) -> (r: Option<usize>)
        ensures
            match r {
                Some(i) => i < self.entries@.len() && self.entries@[i as int].path@ == p@,
                None => !self@.contains_key(p@),
            },
    {
        proof {
            lemma_map_of_contains(self.entries@);
        }
        let n = self.entries.len();
        let mut i: usize = 0;
        while i < n
            invariant
                i <= n,
                n == self.entries@.len(),
                forall|j: int| 0 <= j < i ==> #[trigger] self.entries@[j].path@ != p@,
            decreases n - i,
        {
            if self.entries[i].path.path_eq(p) {
                return Some(i);
            }
            i = i + 1;
        }
        None
    }

    /// Whether anything is stored at `p`.
    pub fn exists_at(&self, p: &FsPath) -> (r: bool)
        ensures
            r == self@.contains_key(p@),
    {
        proof {
            lemma_map_of_contains(self.entries@);
        }
        match self.find_index(p) {
            Some(i) => {
                proof {
                    assert(self.entries@[i as int].path@ == p@);
                }
                true
            },
            None => false,
        }
    }

    /// Whether a regular file is stored at `p`.
    pub fn is_file_at(&self, p: &FsPath) -> (r: bool)
        requires
            self.wf(),
        ensures
            r == (self@.contains_key(p@) && self@[p@] is File),
    {
        proof {
            lemma_map_of_contains(self.entries@);
            lemma_map_of_index(self.entries@);
        }
        match self.find_index(p) {
            Some(i) => !self.entries[i].node.is_dir(),
            None => false,
        }
    }

    /// Whether a directory is stored at `p`.
    pub fn is_dir_at(&self, p: &FsPath) -> (r: bool)
        requires
            self.wf(),
        ensures
            r == (self@.contains_key(p@) && self@[p@] is Dir),
    {
        proof {
            lemma_map_of_contains(self.entries@);
            lemma_map_of_index(self.entries@);
        }
        match self.find_index(p) {
            Some(i) => self.entries[i].node.is_dir(),
            None => false,
        }
    }

    /// The bytes of the file stored at `p`, if `p` holds a file.
    pub fn read_file(&self, p: &FsPath) -> (r: Option<Vec<u8>>)
        requires
            self.wf(),
        ensures
            (r is Some) == (self@.contains_key(p@) && self@[p@] is File),
            r is Some ==> r.unwrap()@ == self@[p@]->File_data,
    {
        proof {
            lemma_map_of_contains(self.entries@);
            lemma_map_of_index(self.entries@);
        }
        match self.find_index(p) {
            Some(i) => self.entries[i].node.file_data(),
            None => None,
        }
    }

    /// Store `node` at `p`, replacing whatever single entry was there.
    /// Touches nothing else; callers establish closure at the map level.
    fn upsert(&mut self, p: &FsPath, node: FsNode)
        requires
            paths_unique(old(self).entries@),
        ensures
            paths_unique(final(self).entries@),
            final(self)@ == old(self)@.insert(p@, node@),
    {
        let ghost s = self.entries@;
        proof {
            lemma_map_of_contains(s);
        }
        let n = self.entries.len();
        let mut out: Vec<FsEntry> = Vec::new();
        let mut i: usize = 0;
        proof {
            assert(s.take(0) =~= Seq::<FsEntry>::empty());
            assert(map_of(out@) =~= map_of(s.take(0)).remove(p@));
        }
        while i < n
            invariant
                i <= n,
                n == s.len(),
                self.entries@ == s,
                paths_unique(s),
                paths_unique(out@),
                forall|j: int| 0 <= j < out@.len() ==> #[trigger] out@[j].path@ != p@,
                forall|j: int|
                    0 <= j < out@.len() ==> exists|l: int|
                        0 <= l < i && #[trigger] out@[j].path@ == s[l].path@,
                map_of(out@) == map_of(s.take(i as int)).remove(p@),
            decreases n - i,
        {
            proof {
                assert(s.take(i as int + 1) =~= s.take(i as int).push(s[i as int]));
                lemma_map_of_push(s.take(i as int), s[i as int]);
            }
            if self.entries[i].path.path_eq(p) {
                proof {
                    assert(map_of(s.take(i as int + 1)).remove(p@) =~= map_of(
                        s.take(i as int),
                    ).remove(p@));
                }
            } else {
                let e = FsEntry {
                    path: self.entries[i].path.duplicate(),
                    node: self.entries[i].node.duplicate(),
                };
                let ghost prev = out@;
                proof {
                    assert forall|j: int| 0 <= j < prev.len() implies prev[j].path@ != e.path@ by {
                        let l = choose|l: int| 0 <= l < i && #[trigger] prev[j].path@ == s[l].path@;
                        assert(s[l].path@ != s[i as int].path@);
                    }
                }
                out.push(e);
                proof {
                    lemma_map_of_push(prev, e);
                    assert(map_of(out@) =~= map_of(s.take(i as int + 1)).remove(p@));
                    assert forall|j: int| 0 <= j < out@.len() implies exists|l: int|
                        0 <= l < i + 1 && #[trigger] out@[j].path@ == s[l].path@ by {
                        if j < prev.len() {
                            let l = choose|l: int|
                                0 <= l < i && #[trigger] prev[j].path@ == s[l].path@;
                            assert(out@[j].path@ == s[l].path@);
                        } else {
                            assert(out@[j].path@ == s[i as int].path@);
                        }
                    }
                }
            }
            i = i + 1;
        }
        proof {
            assert(s.take(n as int) =~= s);
        }
        let e = FsEntry { path: p.duplicate(), node };
        let ghost prev = out@;
        out.push(e);
        proof {
            lemma_map_of_push(prev, e);
            assert(map_of(out@) =~= map_of(s).insert(p@, node@));
        }
        self.entries = out;
    }

    /// Drop every entry whose path lies in the subtree rooted at `p`.
    /// Touches nothing else; callers establish closure at the map level.
    fn remove_subtree_raw(&mut self, p: &FsPath)
        requires
            paths_unique(old(self).entries@),
        ensures
            paths_unique(final(self).entries@),
            final(self)@ == prune_map(old(self)@, p@),
    {
        let ghost s = self.entries@;
        let n = self.entries.len();
        let mut out: Vec<FsEntry> = Vec::new();
        let mut i: usize = 0;
        proof {
            assert(s.take(0) =~= Seq::<FsEntry>::empty());
            assert(map_of(out@) =~= prune_map(map_of(s.take(0)), p@));
        }
        while i < n
            invariant
                i <= n,
                n == s.len(),
                self.entries@ == s,
                paths_unique(s),
                paths_unique(out@),
                forall|j: int|
                    0 <= j < out@.len() ==> exists|l: int|
                        0 <= l < i && #[trigger] out@[j].path@ == s[l].path@,
                map_of(out@) == prune_map(map_of(s.take(i as int)), p@),
            decreases n - i,
        {
            proof {
                assert(s.take(i as int + 1) =~= s.take(i as int).push(s[i as int]));
                lemma_map_of_push(s.take(i as int), s[i as int]);
            }
            if self.entries[i].path.starts_with(p) {
                proof {
                    assert(prune_map(map_of(s.take(i as int + 1)), p@) =~= prune_map(
                        map_of(s.take(i as int)),
                        p@,
                    ));
                }
            } else {
                let e = FsEntry {
                    path: self.entries[i].path.duplicate(),
                    node: self.entries[i].node.duplicate(),
                };
                let ghost prev = out@;
                proof {
                    assert forall|j: int| 0 <= j < prev.len() implies prev[j].path@ != e.path@ by {
                        let l = choose|l: int| 0 <= l < i && #[trigger] prev[j].path@ == s[l].path@;
                        assert(s[l].path@ != s[i as int].path@);
                    }
                }
                out.push(e);
                proof {
                    lemma_map_of_push(prev, e);
                    assert(map_of(out@) =~= prune_map(map_of(s.take(i as int + 1)), p@));
                    assert forall|j: int| 0 <= j < out@.len() implies exists|l: int|
                        0 <= l < i + 1 && #[trigger] out@[j].path@ == s[l].path@ by {
                        if j < prev.len() {
                            let l = choose|l: int|
                                0 <= l < i && #[trigger] prev[j].path@ == s[l].path@;
                            assert(out@[j].path@ == s[l].path@);
                        } else {
                            assert(out@[j].path@ == s[i as int].path@);
                        }
                    }
                }
            }
            i = i + 1;
        }
        proof {
            assert(s.take(n as int) =~= s);
        }
        self.entries = out;
    }

    /// Copies of all entries in the subtree rooted at `p`.
    fn collect_subtree(&self, p: &FsPath) -> (r: Vec<FsEntry>)
        requires
            paths_unique(self.entries@),
        ensures
            paths_unique(r@),
            map_of(r@) == restrict_map(self@, p@),
            forall|j: int| 0 <= j < r@.len() ==> is_prefix_of(p@, #[trigger] r@[j].path@),
    {
        let ghost s = self.entries@;
        let n = self.entries.len();
        let mut out: Vec<FsEntry> = Vec::new();
        let mut i: usize = 0;
        proof {
            assert(s.take(0) =~= Seq::<FsEntry>::empty());
            assert(map_of(out@) =~= restrict_map(map_of(s.take(0)), p@));
        }
        while i < n
            invariant
                i <= n,
                n == s.len(),
                s == self.entries@,
                paths_unique(s),
                paths_unique(out@),
                forall|j: int| 0 <= j < out@.len() ==> is_prefix_of(p@, #[trigger] out@[j].path@),
                forall|j: int|
                    0 <= j < out@.len() ==> exists|l: int|
                        0 <= l < i && #[trigger] out@[j].path@ == s[l].path@,
                map_of(out@) == restrict_map(map_of(s.take(i as int)), p@),
            decreases n - i,
        {
            proof {
                assert(s.take(i as int + 1) =~= s.take(i as int).push(s[i as int]));
                lemma_map_of_push(s.take(i as int), s[i as int]);
            }
            if self.entries[i].path.starts_with(p) {
                let e = FsEntry {
                    path: self.entries[i].path.duplicate(),
                    node: self.entries[i].node.duplicate(),
                };
                let ghost prev = out@;
                proof {
                    assert forall|j: int| 0 <= j < prev.len() implies prev[j].path@ != e.path@ by {
                        let l = choose|l: int| 0 <= l < i && #[trigger] prev[j].path@ == s[l].path@;
                        assert(s[l].path@ != s[i as int].path@);
                    }
                }
                out.push(e);
                proof {
                    lemma_map_of_push(prev, e);
                    assert(map_of(out@) =~= restrict_map(map_of(s.take(i as int + 1)), p@));
                    assert forall|j: int| 0 <= j < out@.len() implies exists|l: int|
                        0 <= l < i + 1 && #[trigger] out@[j].path@ == s[l].path@ by {
                        if j < prev.len() {
                            let l = choose|l: int|
                                0 <= l < i && #[trigger] prev[j].path@ == s[l].path@;
                            assert(out@[j].path@ == s[l].path@);
                        } else {
                            assert(out@[j].path@ == s[i as int].path@);
                        }
                    }
                }
            } else {
                proof {
                    assert(restrict_map(map_of(s.take(i as int + 1)), p@) =~= restrict_map(
                        map_of(s.take(i as int)),
                        p@,
                    ));
                }
            }
            i = i + 1;
        }
        proof {
            assert(s.take(n as int) =~= s);
        }
        out
    }

    /// Append entries whose paths are fresh: absent from the tree and
    /// pairwise distinct.  The result is the map union.
    fn append_entries(&mut self, items: Vec<FsEntry>)
        requires
            paths_unique(old(self).entries@),
            paths_unique(items@),
            forall|j: int|
                0 <= j < items@.len() ==> !old(self)@.contains_key(#[trigger] items@[j].path@),
        ensures
            paths_unique(final(self).entries@),
            final(self)@ == old(self)@.union_prefer_right(map_of(items@)),
    {
        let ghost s0 = self.entries@;
        let ghost m0 = map_of(s0);
        proof {
            lemma_map_of_contains(s0);
        }
        let n = items.len();
        let mut i: usize = 0;
        proof {
            assert(items@.take(0) =~= Seq::<FsEntry>::empty());
            assert(map_of(self.entries@) =~= m0.union_prefer_right(map_of(items@.take(0))));
        }
        while i < n
            invariant
                i <= n,
                n == items@.len(),
                paths_unique(items@),
                paths_unique(s0),
                m0 == map_of(s0),
                forall|j: int| 0 <= j < n ==> !m0.contains_key(#[trigger] items@[j].path@),
                self.entries@.len() == s0.len() + i,
                forall|j: int| 0 <= j < s0.len() ==> self.entries@[j] == s0[j],
                forall|j: int|
                    s0.len() <= j < self.entries@.len() ==> #[trigger] self.entries@[j].path@
                        == items@[j - s0.len()].path@,
                paths_unique(self.entries@),
                map_of(self.entries@) == m0.union_prefer_right(map_of(items@.take(i as int))),
            decreases n - i,
        {
            let e = FsEntry { path: items[i].path.duplicate(), node: items[i].node.duplicate() };
            let ghost prev = self.entries@;
            proof {
                lemma_map_of_contains(s0);
                assert forall|j: int| 0 <= j < prev.len() implies prev[j].path@ != e.path@ by {
                    assert(e.path@ == items@[i as int].path@);
                    if j < s0.len() {
                        assert(s0[j].path@ == prev[j].path@);
                        if s0[j].path@ == e.path@ {
                            assert(s0[j].path@ == items@[i as int].path@);
                            assert(exists|l: int|
                                0 <= l < s0.len() && #[trigger] s0[l].path@ == items@[i as int].path@);
                            assert(map_of(s0).contains_key(items@[i as int].path@));
                        }
                    } else {
                        assert(prev[j].path@ == items@[j - s0.len()].path@);
                        assert(0 <= j - s0.len() < i < items@.len());
                        assert(items@[j - s0.len()].path@ != items@[i as int].path@);
                    }
                }
            }
            self.entries.push(e);
            proof {
                lemma_map_of_push(prev, e);
                assert(items@.take(i as int + 1) =~= items@.take(i as int).push(items@[i as int]));
                lemma_map_of_push(items@.take(i as int), items@[i as int]);
                assert(map_of(self.entries@) =~= m0.union_prefer_right(
                    map_of(items@.take(i as int + 1)),
                ));
            }
            i = i + 1;
        }
        proof {
            assert(items@.take(n as int) =~= items@);
        }
    }

    /// Create the file at `p` with the given bytes, or overwrite the file
    /// already there.  Fails on an invalid path, a missing or non-directory
    /// parent, or a directory at `p`.
    pub fn write_file(&mut self, p: &FsPath, data: Vec<u8>) -> (r: Result<(), FsError>)
        requires
            old(self).wf(),
        ensures
            final(self).wf(),
            match r {
                Ok(u) => write_file_spec(old(self)@, p@, data@) is Ok && final(self)@
                    == write_file_spec(old(self)@, p@, data@)->Ok_0,
                Err(e) => write_file_spec(old(self)@, p@, data@) is Err && e.kind
                    == write_file_spec(old(self)@, p@, data@)->Err_0 && e.path@ == p@
                    && final(self)@ == old(self)@,
            },
    {
        if !p.is_valid() {
            return Err(FsError { kind: FsErrorKind::InvalidPath, path: p.duplicate() });
        }
        if p.depth() > 1 {
            let par = p.parent();
            if !self.exists_at(&par) {
                return Err(FsError { kind: FsErrorKind::NotFound, path: p.duplicate() });
            }
            if !self.is_dir_at(&par) {
                return Err(FsError { kind: FsErrorKind::NotADirectory, path: p.duplicate() });
            }
        }
        if self.is_dir_at(p) {
            return Err(FsError { kind: FsErrorKind::NotAFile, path: p.duplicate() });
        }
        proof {
            lemma_insert_closed(self@, p@, NodeV::File { data: data@ });
        }
        self.upsert(p, FsNode::File { data });
        Ok(())
    }

    /// Create the directory at `p`.  Fails on an invalid path, a missing or
    /// non-directory parent, or anything already stored at `p`.
    pub fn create_dir(&mut self, p: &FsPath) -> (r: Result<(), FsError>)
        requires
            old(self).wf(),
        ensures
            final(self).wf(),
            match r {
                Ok(u) => create_dir_spec(old(self)@, p@) is Ok && final(self)@ == create_dir_spec(
                    old(self)@,
                    p@,
                )->Ok_0,
                Err(e) => create_dir_spec(old(self)@, p@) is Err && e.kind == create_dir_spec(
                    old(self)@,
                    p@,
                )->Err_0 && e.path@ == p@ && final(self)@ == old(self)@,
            },
    {
        if !p.is_valid() {
            return Err(FsError { kind: FsErrorKind::InvalidPath, path: p.duplicate() });
        }
        if p.depth() > 1 {
            let par = p.parent();
            if !self.exists_at(&par) {
                return Err(FsError { kind: FsErrorKind::NotFound, path: p.duplicate() });
            }
            if !self.is_dir_at(&par) {
                return Err(FsError { kind: FsErrorKind::NotADirectory, path: p.duplicate() });
            }
        }
        if self.exists_at(p) {
            return Err(FsError { kind: FsErrorKind::AlreadyExists, path: p.duplicate() });
        }
        proof {
            lemma_insert_closed(self@, p@, NodeV::Dir);
        }
        self.upsert(p, FsNode::Dir);
        Ok(())
    }

    /// Duplicate the regular file at `src` as `dst`, byte for byte.
    /// An existing destination of any kind is refused.
    pub fn copy_file(&mut self, src: &FsPath, dst: &FsPath) -> (r: Result<(), FsError>)
        requires
            old(self).wf(),
        ensures
            final(self).wf(),
            match r {
                Ok(u) => copy_file_spec(old(self)@, src@, dst@) is Ok && final(self)@
                    == copy_file_spec(old(self)@, src@, dst@)->Ok_0,
                Err(e) => copy_file_spec(old(self)@, src@, dst@) is Err && e.kind
                    == copy_file_spec(old(self)@, src@, dst@)->Err_0 && final(self)@ == old(self)@
                    && e.path@ == (if !old(self)@.contains_key(src@) || !(old(self)@[src@]
                    is File) {
                    src@
                } else {
                    dst@
                }),
            },
    {
        let data = match self.read_file(src) {
            Some(data) => data,
            None => {
                if !self.exists_at(src) {
                    return Err(FsError { kind: FsErrorKind::NotFound, path: src.duplicate() });
                } else {
                    return Err(FsError { kind: FsErrorKind::NotAFile, path: src.duplicate() });
                }
            },
        };
        if !dst.is_valid() {
            return Err(FsError { kind: FsErrorKind::InvalidPath, path: dst.duplicate() });
        }
        if self.exists_at(dst) {
            return Err(FsError { kind: FsErrorKind::AlreadyExists, path: dst.duplicate() });
        }
        if dst.depth() > 1 {
            let par = dst.parent();
            if !self.exists_at(&par) {
                return Err(FsError { kind: FsErrorKind::NotFound, path: dst.duplicate() });
            }
            if !self.is_dir_at(&par) {
                return Err(FsError { kind: FsErrorKind::NotADirectory, path: dst.duplicate() });
            }
        }
        proof {
            lemma_insert_closed(self@, dst@, NodeV::File { data: data@ });
        }
        self.upsert(dst, FsNode::File { data });
        Ok(())
    }

    /// Move the whole subtree at `src` to `dst`, as an atomic rename.
    /// The destination must be free, outside the moved subtree, and under
    /// a ready parent.
    pub fn rename_path(&mut self, src: &FsPath, dst: &FsPath) -> (r: Result<(), FsError>)
        requires
            old(self).wf(),
        ensures
            final(self).wf(),
            match r {
                Ok(u) => move_tree_spec(old(self)@, src@, dst@) is Ok && final(self)@ == move_map(
                    old(self)@,
                    src@,
                    dst@,
                ),
                Err(e) => move_tree_spec(old(self)@, src@, dst@) is Err && e.kind
                    == move_tree_spec(old(self)@, src@, dst@)->Err_0 && final(self)@ == old(self)@
                    && e.path@ == (if !old(self)@.contains_key(src@) {
                    src@
                } else {
                    dst@
                }),
            },
    {
        let ghost m = self@;
        if !self.exists_at(src) {
            return Err(FsError { kind: FsErrorKind::NotFound, path: src.duplicate() });
        }
        if !dst.is_valid() {
            return Err(FsError { kind: FsErrorKind::InvalidPath, path: dst.duplicate() });
        }
        if self.exists_at(dst) {
            return Err(FsError { kind: FsErrorKind::AlreadyExists, path: dst.duplicate() });
        }
        if dst.starts_with(src) {
            return Err(FsError { kind: FsErrorKind::InvalidPath, path: dst.duplicate() });
        }
        if dst.depth() > 1 {
            let par = dst.parent();
            if !self.exists_at(&par) {
                return Err(FsError { kind: FsErrorKind::NotFound, path: dst.duplicate() });
            }
            if !self.is_dir_at(&par) {
                return Err(FsError { kind: FsErrorKind::NotADirectory, path: dst.duplicate() });
            }
        }
        let snap = self.collect_subtree(src);
        let n = snap.len();
        let mut moved: Vec<FsEntry> = Vec::new();
        let mut i: usize = 0;
        while i < n
            invariant
                i <= n,
                n == snap@.len(),
                forall|j: int| 0 <= j < n ==> is_prefix_of(src@, #[trigger] snap@[j].path@),
                moved@.len() == i,
                forall|j: int|
                    0 <= j < i ==> #[trigger] moved@[j].path@ == reroot(snap@[j].path@, src@, dst@)
                        && moved@[j].node@ == snap@[j].node@,
            decreases n - i,
        {
            let e = FsEntry {
                path: snap[i].path.rerooted(src, dst),
                node: snap[i].node.duplicate(),
            };
            moved.push(e);
            i = i + 1;
        }
        proof {
            lemma_rerooted_entries_map(m, src@, dst@, snap@, moved@);
            // the relocated paths are fresh: nothing is stored under `dst`
            assert forall|j: int| 0 <= j < moved@.len() implies !prune_map(m, src@).contains_key(
                #[trigger] moved@[j].path@,
            ) by {
                lemma_map_of_index(moved@);
                if m.contains_key(moved@[j].path@) {
                    lemma_closed_ancestors(m, dst@, moved@[j].path@);
                }
            }
            lemma_prune_closed(m, src@);
        }
        self.remove_subtree_raw(src);
        self.append_entries(moved);
        proof {
            assert(self@ =~= move_map(m, src@, dst@)) by {
                assert forall|k: Seq<Seq<char>>| #[trigger]
                    self@.dom().contains(k) implies move_map(m, src@, dst@).dom().contains(k)
                    && self@[k] == move_map(m, src@, dst@)[k] by {
                    if image_map(m, src@, dst@).contains_key(k) {
                        if m.contains_key(k) {
                            lemma_closed_ancestors(m, dst@, k);
                        }
                    }
                }
                assert forall|k: Seq<Seq<char>>| #[trigger]
                    move_map(m, src@, dst@).dom().contains(k) implies self@.dom().contains(k) by {
                    assert(move_map(m, src@, dst@).contains_key(k));
                }
                assert(self@.dom() =~= move_map(m, src@, dst@).dom());
            }
            lemma_move_map_closed(m, src@, dst@);
        }
        Ok(())
    }

    /// Create the directory at `p` and every missing ancestor on the way.
    /// Nothing is written if a file occupies any prefix of the chain; a
    /// chain that already exists as directories is left as it is.
    pub fn create_dir_all(&mut self, p: &FsPath) -> (r: Result<(), FsError>)
        requires
            old(self).wf(),
        ensures
            final(self).wf(),
            match r {
                Ok(u) => create_dir_all_spec(old(self)@, p@) is Ok && final(self)@ == with_dirs(
                    old(self)@,
                    p@,
                ),
                Err(e) => create_dir_all_spec(old(self)@, p@) is Err && e.kind
                    == create_dir_all_spec(old(self)@, p@)->Err_0 && final(self)@ == old(self)@,
            },
    {
        let ghost m0 = self@;
        if !p.is_valid() {
            return Err(FsError { kind: FsErrorKind::InvalidPath, path: p.duplicate() });
        }
        let n = p.depth();
        // first pass: nothing on the chain may be a file
        let mut i: usize = 0;
        while i < n
            invariant
                i <= n,
                n == p@.len(),
                m0 == old(self)@,
                valid_path_v(p@),
                self@ == m0,
                self.wf(),
                forall|j: int|
                    1 <= j <= i ==> (m0.contains_key(#[trigger] p@.take(j)) ==> m0[p@.take(j)]
                        is Dir),
            decreases n - i,
        {
            let q = p.prefix(i + 1);
            if self.exists_at(&q) && !self.is_dir_at(&q) {
                proof {
                    assert(m0.contains_key(p@.take(i + 1)) && !(m0[p@.take(i + 1)] is Dir));
                    assert(!ancestors_ready(m0, p@));
                }
                return Err(FsError { kind: FsErrorKind::NotADirectory, path: q });
            }
            i = i + 1;
        }
        proof {
            assert(ancestors_ready(m0, p@));
        }
        // second pass: fill in what is missing, parents first
        let mut i: usize = 0;
        proof {
            assert(with_dirs(m0, p@.take(0)) =~= m0);
        }
        while i < n
            invariant
                i <= n,
                n == p@.len(),
                m0 == old(self)@,
                valid_path_v(p@),
                ancestors_ready(m0, p@),
                self.wf(),
                self@ == with_dirs(m0, p@.take(i as int)),
                i >= 1 ==> self@.contains_key(p@.take(i as int)) && self@[p@.take(i as int)]
                    is Dir,
            decreases n - i,
        {
            let q = p.prefix(i + 1);
            let ghost before = self@;
            let ghost target = with_dirs(m0, p@.take(i + 1));
            proof {
                // prefixes of the longer chain: those of the shorter one,
                // plus the new link itself
                assert forall|k: Seq<Seq<char>>|
                    is_prefix_of(k, p@.take(i + 1)) && k.len() >= 1 implies (is_prefix_of(
                    k,
                    p@.take(i as int),
                ) && k.len() >= 1) || k == q@ by {
                    if k.len() <= i {
                        assert(p@.take(i as int).take(k.len() as int) =~= p@.take(i + 1).take(
                            k.len() as int,
                        ));
                    } else {
                        assert(k =~= p@.take(i + 1));
                    }
                }
                assert forall|k: Seq<Seq<char>>|
                    is_prefix_of(k, p@.take(i as int)) && k.len() >= 1 implies is_prefix_of(
                    k,
                    p@.take(i + 1),
                ) && k.len() >= 1 by {
                    assert(p@.take(i + 1).take(k.len() as int) =~= p@.take(i as int).take(
                        k.len() as int,
                    ));
                }
                assert(is_prefix_of(q@, p@.take(i + 1))) by {
                    assert(p@.take(i + 1).take(i + 1) =~= q@);
                }
            }
            if !self.exists_at(&q) {
                proof {
                    assert(valid_path_v(q@)) by {
                        assert forall|l: int| 0 <= l < q@.len() implies #[trigger] q@[l].len()
                            >= 1 by {
                            assert(q@[l] == p@[l]);
                        }
                    }
                    if i >= 1 {
                        assert(q@.drop_last() =~= p@.take(i as int));
                    }
                }
                let created = self.create_dir(&q);
                proof {
                    assert(created is Ok);
                    assert(self@ =~= target);
                }
            } else {
                proof {
                    // the link already exists; it can only come from the
                    // original map, where the chain holds directories
                    assert(before.contains_key(q@));
                    if !m0.contains_key(q@) {
                        assert(is_prefix_of(q@, p@.take(i as int)));
                        assert(q@.len() <= i);
                    }
                    assert(m0.contains_key(q@));
                    assert(self@ =~= target);
                }
            }
            proof {
                assert(self@.contains_key(q@));
                assert(self@[q@] is Dir) by {
                    if m0.contains_key(q@) {
                        assert(m0[q@] is Dir);
                    }
                }
            }
            i = i + 1;
        }
        proof {
            assert(p@.take(n as int) =~= p@);
            lemma_with_dirs_closed(m0, p@);
        }
        Ok(())
    }

    /// Recursively copy the directory at `src` to `dst`, depth by depth:
    /// the destination directory is created if absent, directories merge,
    /// and any other collision is refused before anything is written.
    pub fn graft_tree(&mut self, src: &FsPath, dst: &FsPath) -> (r: Result<(), FsError>)
        requires
            old(self).wf(),
        ensures
            final(self).wf(),
            match r {
                Ok(u) => graft_tree_spec(old(self)@, src@, dst@) is Ok && final(self)@
                    == graft_map(old(self)@, src@, dst@),
                Err(e) => graft_tree_spec(old(self)@, src@, dst@) is Err && e.kind
                    == graft_tree_spec(old(self)@, src@, dst@)->Err_0 && final(self)@ == old(
                    self,
                )@,
            },
    {
        let ghost m = self@;
        if !self.exists_at(src) {
            return Err(FsError { kind: FsErrorKind::NotFound, path: src.duplicate() });
        }
        if !self.is_dir_at(src) {
            return Err(FsError { kind: FsErrorKind::NotADirectory, path: src.duplicate() });
        }
        if !dst.is_valid() {
            return Err(FsError { kind: FsErrorKind::InvalidPath, path: dst.duplicate() });
        }
        if dst.starts_with(src) && dst.depth() > src.depth() {
            return Err(FsError { kind: FsErrorKind::InvalidPath, path: dst.duplicate() });
        }
        if dst.depth() > 1 {
            let par = dst.parent();
            if !self.exists_at(&par) {
                return Err(FsError { kind: FsErrorKind::NotFound, path: dst.duplicate() });
            }
            if !self.is_dir_at(&par) {
                return Err(FsError { kind: FsErrorKind::NotADirectory, path: dst.duplicate() });
            }
        }
        if self.exists_at(dst) && !self.is_dir_at(dst) {
            return Err(FsError { kind: FsErrorKind::AlreadyExists, path: dst.duplicate() });
        }
        let snap = self.collect_subtree(src);
        let n = snap.len();
        let mut l: usize = 0;
        while l < n
            invariant
                l <= n,
                n == snap@.len(),
                self.wf(),
                self@ == m,
                m.contains_key(src@),
                m[src@] is Dir,
                valid_path_v(dst@),
                !is_proper_prefix_of(src@, dst@),
                parent_ready(m, dst@),
                m.contains_key(dst@) ==> m[dst@] is Dir,
                paths_unique(snap@),
                map_of(snap@) == restrict_map(m, src@),
                forall|j: int| 0 <= j < n ==> is_prefix_of(src@, #[trigger] snap@[j].path@),
                forall|l2: int|
                    0 <= l2 < l ==> (m.contains_key(
                        reroot(#[trigger] snap@[l2].path@, src@, dst@),
                    ) ==> (snap@[l2].node@ is Dir && m[reroot(snap@[l2].path@, src@, dst@)]
                        is Dir)),
            decreases n - l,
        {
            let t = snap[l].path.rerooted(src, dst);
            if self.exists_at(&t) {
                if !(snap[l].node.is_dir() && self.is_dir_at(&t)) {
                    proof {
                        lemma_map_of_index(snap@);
                        assert(map_of(snap@).contains_key(snap@[l as int].path@));
                        assert(m.contains_key(snap@[l as int].path@));
                        assert(m[snap@[l as int].path@] == snap@[l as int].node@);
                        assert(graft_conflict(m, src@, dst@));
                    }
                    return Err(FsError { kind: FsErrorKind::AlreadyExists, path: t });
                }
            }
            l = l + 1;
        }
        proof {
            assert(!graft_conflict(m, src@, dst@)) by {
                if graft_conflict(m, src@, dst@) {
                    let k = choose|k: Seq<Seq<char>>|
                        #[trigger] m.contains_key(k) && is_prefix_of(src@, k) && m.contains_key(
                            reroot(k, src@, dst@),
                        ) && !(m[k] is Dir && m[reroot(k, src@, dst@)] is Dir);
                    assert(restrict_map(m, src@).contains_key(k));
                    lemma_map_of_contains(snap@);
                    let l2 = choose|l2: int|
                        0 <= l2 < snap@.len() && #[trigger] snap@[l2].path@ == k;
                    lemma_map_of_index(snap@);
                    assert(m[k] == snap@[l2].node@);
                }
            }
        }
        let mut fresh: Vec<FsEntry> = Vec::new();
        let mut i: usize = 0;
        while i < n
            invariant
                i <= n,
                n == snap@.len(),
                self.wf(),
                self@ == m,
                paths_unique(snap@),
                map_of(snap@) == restrict_map(m, src@),
                forall|j: int| 0 <= j < n ==> is_prefix_of(src@, #[trigger] snap@[j].path@),
                paths_unique(fresh@),
                forall|j: int|
                    0 <= j < fresh@.len() ==> !m.contains_key(#[trigger] fresh@[j].path@),
                forall|j: int|
                    0 <= j < fresh@.len() ==> exists|l2: int|
                        0 <= l2 < i && #[trigger] fresh@[j].path@ == reroot(
                            snap@[l2].path@,
                            src@,
                            dst@,
                        ) && fresh@[j].node@ == snap@[l2].node@,
                forall|l2: int|
                    0 <= l2 < i && !m.contains_key(
                        reroot(#[trigger] snap@[l2].path@, src@, dst@),
                    ) ==> exists|j: int|
                        0 <= j < fresh@.len() && #[trigger] fresh@[j].path@ == reroot(
                            snap@[l2].path@,
                            src@,
                            dst@,
                        ),
            decreases n - i,
        {
            let t = snap[i].path.rerooted(src, dst);
            if !self.exists_at(&t) {
                let e = FsEntry { path: t, node: snap[i].node.duplicate() };
                let ghost prev = fresh@;
                proof {
                    assert forall|j: int| 0 <= j < prev.len() implies prev[j].path@ != e.path@ by {
                        let l2 = choose|l2: int|
                            0 <= l2 < i && #[trigger] prev[j].path@ == reroot(
                                snap@[l2].path@,
                                src@,
                                dst@,
                            ) && prev[j].node@ == snap@[l2].node@;
                        if prev[j].path@ == e.path@ {
                            lemma_reroot_roundtrip(snap@[l2].path@, src@, dst@);
                            lemma_reroot_roundtrip(snap@[i as int].path@, src@, dst@);
                            assert(snap@[l2].path@ == snap@[i as int].path@);
                        }
                    }
                }
                fresh.push(e);
                proof {
                    assert forall|j: int| 0 <= j < fresh@.len() implies exists|l2: int|
                        0 <= l2 < i + 1 && #[trigger] fresh@[j].path@ == reroot(
                            snap@[l2].path@,
                            src@,
                            dst@,
                        ) && fresh@[j].node@ == snap@[l2].node@ by {
                        if j < prev.len() {
                            let l2 = choose|l2: int|
                                0 <= l2 < i && #[trigger] prev[j].path@ == reroot(
                                    snap@[l2].path@,
                                    src@,
                                    dst@,
                                ) && prev[j].node@ == snap@[l2].node@;
                            assert(fresh@[j].path@ == reroot(snap@[l2].path@, src@, dst@)
                                && fresh@[j].node@ == snap@[l2].node@);
                        } else {
                            assert(fresh@[j].path@ == reroot(snap@[i as int].path@, src@, dst@)
                                && fresh@[j].node@ == snap@[i as int].node@);
                        }
                    }
                    assert forall|l2: int|
                        0 <= l2 < i + 1 && !m.contains_key(
                            reroot(#[trigger] snap@[l2].path@, src@, dst@),
                        ) implies exists|j: int|
                        0 <= j < fresh@.len() && #[trigger] fresh@[j].path@ == reroot(
                            snap@[l2].path@,
                            src@,
                            dst@,
                        ) by {
                        if l2 < i {
                            let j = choose|j: int|
                                0 <= j < prev.len() && #[trigger] prev[j].path@ == reroot(
                                    snap@[l2].path@,
                                    src@,
                                    dst@,
                                );
                            assert(fresh@[j].path@ == reroot(snap@[l2].path@, src@, dst@));
                        } else {
                            assert(fresh@[fresh@.len() - 1].path@ == reroot(
                                snap@[i as int].path@,
                                src@,
                                dst@,
                            ));
                        }
                    }
                }
            }
            i = i + 1;
        }
        proof {
            lemma_map_of_contains(fresh@);
            lemma_map_of_index(fresh@);
            lemma_map_of_contains(snap@);
            lemma_map_of_index(snap@);
            let target = graft_new(m, src@, dst@);
            assert forall|k: Seq<Seq<char>>| #[trigger]
                map_of(fresh@).dom().contains(k) implies target.dom().contains(k) && map_of(
                fresh@,
            )[k] == target[k] by {
                let j = choose|j: int| 0 <= j < fresh@.len() && #[trigger] fresh@[j].path@ == k;
                let l2 = choose|l2: int|
                    0 <= l2 < n && #[trigger] fresh@[j].path@ == reroot(
                        snap@[l2].path@,
                        src@,
                        dst@,
                    ) && fresh@[j].node@ == snap@[l2].node@;
                lemma_reroot_roundtrip(snap@[l2].path@, src@, dst@);
                assert(map_of(snap@).contains_key(snap@[l2].path@));
                assert(m.contains_key(snap@[l2].path@));
                assert(reroot(k, dst@, src@) == snap@[l2].path@);
                assert(target.contains_key(k));
                assert(map_of(fresh@)[k] == fresh@[j].node@);
                assert(m[snap@[l2].path@] == snap@[l2].node@);
            }
            assert forall|k: Seq<Seq<char>>| #[trigger]
                target.dom().contains(k) implies map_of(fresh@).dom().contains(k) by {
                let q = reroot(k, dst@, src@);
                assert(is_prefix_of(src@, q)) by {
                    lemma_concat_parts(src@, k.skip(dst@.len() as int));
                }
                assert(restrict_map(m, src@).contains_key(q));
                assert(map_of(snap@).contains_key(q));
                let l2 = choose|l2: int| 0 <= l2 < snap@.len() && #[trigger] snap@[l2].path@ == q;
                lemma_reroot_roundtrip(k, dst@, src@);
                assert(reroot(snap@[l2].path@, src@, dst@) == k);
                let j = choose|j: int|
                    0 <= j < fresh@.len() && #[trigger] fresh@[j].path@ == reroot(
                        snap@[l2].path@,
                        src@,
                        dst@,
                    );
                assert(map_of(fresh@).contains_key(k));
            }
            assert(map_of(fresh@).dom() =~= target.dom());
            assert(map_of(fresh@) =~= target);
        }
        self.append_entries(fresh);
        proof {
            lemma_graft_map_closed(m, src@, dst@);
        }
        Ok(())
    }

    /// Every stored entry, as copies: what an embedding application walks
    /// to mirror the model onto a real directory tree.
    pub fn all_entries(&self) -> (r: Vec<FsEntry>)
        requires
            self.wf(),
        ensures
            paths_unique(r@),
            map_of(r@) == self@,
            forall|j: int| 0 <= j < r@.len() ==> self@.contains_key(#[trigger] r@[j].path@),
    {
        let root = FsPath::root();
        let r = self.collect_subtree(&root);
        proof {
            assert forall|k: Seq<Seq<char>>| true implies is_prefix_of(root@, k) by {
                assert(k.take(0) =~= root@);
            }
            assert(map_of(r@) =~= self@);
            lemma_map_of_contains(r@);
        }
        r
    }

    /// The bytes stored in the subtree at `p`.
    pub closed spec fn subtree_size(&self, p: Seq<Seq<char>>) -> nat {
        seq_size(self.entries@, p)
    }

    /// The bytes stored in the subtree at `p`, saturating at the largest
    /// reportable count.
    pub fn measure_subtree(&self, p: &FsPath) -> (r: u64)
        ensures
            self.subtree_size(p@) > u64::MAX ==> r == u64::MAX,
            self.subtree_size(p@) <= u64::MAX ==> r as nat == self.subtree_size(p@),
    {
        let ghost s = self.entries@;
        let n = self.entries.len();
        let mut acc: u64 = 0;
        let mut i: usize = 0;
        proof {
            assert(s.take(0) =~= Seq::<FsEntry>::empty());
        }
        while i < n
            invariant
                i <= n,
                n == s.len(),
                self.entries@ == s,
                seq_size(s.take(i as int), p@) > u64::MAX ==> acc == u64::MAX,
                seq_size(s.take(i as int), p@) <= u64::MAX ==> acc as nat == seq_size(
                    s.take(i as int),
                    p@,
                ),
            decreases n - i,
        {
            proof {
                assert(s.take(i as int + 1).drop_last() =~= s.take(i as int));
                assert(s.take(i as int + 1).last() == s[i as int]);
            }
            if self.entries[i].path.starts_with(p) {
                let add: u64 = match &self.entries[i].node {
                    FsNode::File { data } => data.len() as u64,
                    FsNode::Dir => 0,
                };
                proof {
                    assert(add as nat == node_size(s[i as int].node@));
                }
                if acc > u64::MAX - add {
                    acc = u64::MAX;
                } else {
                    acc = acc + add;
                }
            }
            i = i + 1;
        }
        proof {
            assert(s.take(n as int) =~= s);
        }
        acc
    }

    /// Delete the whole subtree rooted at `p`.
    pub fn remove_path(&mut self, p: &FsPath) -> (r: Result<(), FsError>)
        requires
            old(self).wf(),
        ensures
            final(self).wf(),
            match r {
                Ok(u) => remove_path_spec(old(self)@, p@) is Ok && final(self)@ == prune_map(
                    old(self)@,
                    p@,
                ),
                Err(e) => !old(self)@.contains_key(p@) && e.kind == FsErrorKind::NotFound
                    && e.path@ == p@ && final(self)@ == old(self)@,
            },
    {
        if !self.exists_at(p) {
            return Err(FsError { kind: FsErrorKind::NotFound, path: p.duplicate() });
        }
        proof {
            lemma_prune_closed(self@, p@);
        }
        self.remove_subtree_raw(p);
        Ok(())
    }
}

} // verus!
