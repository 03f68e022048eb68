//! An in-memory file system: numbered nodes, directories that map names to
//! numbers, and files that hold bytes.

use std::collections::BTreeMap;
use vstd::prelude::*;
use crate::mount::error::{FsError, FsErrorModel};
use crate::mount::path::{
    components, law_slash_separates, lemma_components_plain, lemma_single_component, plain,
    split_path, texts,
};
use crate::text::{lemma_text_less_strict, text_less};
use crate::textmap::{TextMap, lemma_map_of_entry, lemma_map_of_len};

verus! {

broadcast use {vstd::std_specs::btree::group_btree_axioms, vstd::laws_cmp::group_laws_cmp};

/// The number of a node. Numbers are never used twice.
pub type Ino = u64;

/// The number of the root directory.
pub const ROOT_INO: u64 = 1;

/// What a node is.
#[derive(Clone, Copy, Debug, PartialEq, Eq, Structural)]
pub enum NodeKind {
    /// A file.
    File,
    /// A directory.
    Directory,
}

/// One entry of a directory listing.
#[derive(Clone, Debug, PartialEq, Eq)]
pub struct DirEntry {
    /// The name within the directory.
    pub name: String,
    /// The node.
    pub ino: Ino,
    /// What the node is.
    pub kind: NodeKind,
}

/// What a [`DirEntry`] says.
#[verifier::ext_equal]
pub struct DirEntryModel {
    pub name: Seq<char>,
    pub ino: u64,
    pub kind: NodeKind,
}

impl View for DirEntry {
    type V = DirEntryModel;

    open spec fn view(&self) -> DirEntryModel {
        DirEntryModel { name: self.name@, ino: self.ino, kind: self.kind }
    }
}

/// The attributes of a node.
#[derive(Clone, Debug, PartialEq, Eq, Structural)]
pub struct Attr {
    /// What it is.
    pub kind: NodeKind,
    /// The length of a file; zero for a directory.
    pub size: u64,
    /// The number of entries of a directory; zero for a file.
    pub children: usize,
}

// ---------------------------------------------------------------------------
// The tree
// ---------------------------------------------------------------------------

/// A node: what it is, the names in it, and the bytes in it.
#[verifier::ext_equal]
pub struct NodeModel {
    pub kind: NodeKind,
    pub children: Map<Seq<char>, u64>,
    pub data: Seq<u8>,
}

/// A tree: its nodes, and the number that the next node gets.
#[verifier::ext_equal]
pub struct FsModel {
    pub nodes: Map<u64, NodeModel>,
    pub next: u64,
}

/// A directory without entries.
pub open spec fn empty_dir() -> NodeModel {
    NodeModel { kind: NodeKind::Directory, children: Map::empty(), data: Seq::empty() }
}

/// A file with these bytes.
pub open spec fn file_of(data: Seq<u8>) -> NodeModel {
    NodeModel { kind: NodeKind::File, children: Map::empty(), data }
}

/// The tree with nothing but its root.
pub open spec fn empty_fs() -> FsModel {
    FsModel { nodes: Map::empty().insert(ROOT_INO, empty_dir()), next: 2 }
}

/// Directory `d` has an entry `name` for node `i`.
pub open spec fn entry(fs: FsModel, d: u64, name: Seq<char>, i: u64) -> bool {
    &&& fs.nodes.contains_key(d)
    &&& fs.nodes[d].children.contains_key(name)
    &&& fs.nodes[d].children[name] == i
}

/// The nodes form a tree: the root is a directory and nobody's entry, every
/// other node that is an entry is the entry of one directory under one name,
/// and every entry is a node with a name.
pub open spec fn fs_wf(fs: FsModel) -> bool {
    &&& fs.nodes.contains_key(ROOT_INO)
    &&& fs.nodes[ROOT_INO].kind is Directory
    &&& forall|i: u64| #[trigger] fs.nodes.contains_key(i) ==> i < fs.next
    &&& forall|i: u64| #[trigger] fs.nodes.contains_key(i) ==> node_wf(fs.nodes[i])
    &&& forall|d: u64, name: Seq<char>, i: u64| #[trigger]
        entry(fs, d, name, i) ==> fs.nodes.contains_key(i) && i != ROOT_INO && plain(name)
    &&& forall|d: u64, name: Seq<char>, e: u64, other: Seq<char>, i: u64|
        #![trigger entry(fs, d, name, i), entry(fs, e, other, i)]
        entry(fs, d, name, i) && entry(fs, e, other, i) ==> d == e && name == other
}

/// A file has no entries, a directory no bytes, and the entries are finitely
/// many.
pub open spec fn node_wf(n: NodeModel) -> bool {
    &&& n.kind is File ==> n.children == Map::<Seq<char>, u64>::empty()
    &&& n.kind is Directory ==> n.data == Seq::<u8>::empty()
    &&& n.children.dom().finite()
}

/// Why a walk stopped.
pub enum WalkFail {
    /// At something that is not a directory.
    NotADirectory,
    /// At a name that is not there.
    Missing,
}

/// Follows the names from a node.
pub open spec fn walk(fs: FsModel, from: u64, names: Seq<Seq<char>>) -> Result<u64, WalkFail>
    decreases names.len(),
{
    if names.len() == 0 {
        Ok(from)
    } else if !(fs.nodes[from].kind is Directory) {
        Err(WalkFail::NotADirectory)
    } else if !fs.nodes[from].children.contains_key(names[0]) {
        Err(WalkFail::Missing)
    } else {
        walk(fs, fs.nodes[from].children[names[0]], names.skip(1))
    }
}

/// The error that a stopped walk is for a path.
pub open spec fn walk_error(f: WalkFail, path: Seq<char>) -> FsErrorModel {
    match f {
        WalkFail::NotADirectory => FsErrorModel::NotADirectory { path },
        WalkFail::Missing => FsErrorModel::NotFound { path },
    }
}

/// The node that a path leads to.
pub open spec fn resolve(fs: FsModel, path: Seq<char>) -> Result<u64, FsErrorModel> {
    match walk(fs, ROOT_INO, components(path)) {
        Ok(i) => Ok(i),
        Err(f) => Err(walk_error(f, path)),
    }
}

/// The directory that a path's last name belongs to, and that name.
pub open spec fn parent_of(fs: FsModel, path: Seq<char>) -> Result<(u64, Seq<char>), FsErrorModel> {
    let names = components(path);
    if names.len() == 0 {
        Err(FsErrorModel::InvalidPath { path })
    } else {
        match walk(fs, ROOT_INO, names.drop_last()) {
            Err(f) => Err(walk_error(f, path)),
            Ok(d) => if fs.nodes[d].kind is Directory {
                Ok((d, names.last()))
            } else {
                Err(FsErrorModel::NotADirectory { path })
            },
        }
    }
}

/// The attributes at a path.
pub open spec fn lookup_model(fs: FsModel, path: Seq<char>) -> Result<Attr, FsErrorModel> {
    match resolve(fs, path) {
        Err(e) => Err(e),
        Ok(i) => Ok(
            Attr {
                kind: fs.nodes[i].kind,
                size: fs.nodes[i].data.len() as u64,
                children: fs.nodes[i].children.dom().len() as usize,
            },
        ),
    }
}

/// The bytes of the file at a path.
pub open spec fn read_model(fs: FsModel, path: Seq<char>) -> Result<Seq<u8>, FsErrorModel> {
    match resolve(fs, path) {
        Err(e) => Err(e),
        Ok(i) => if fs.nodes[i].kind is Directory {
            Err(FsErrorModel::IsADirectory { path })
        } else {
            Ok(fs.nodes[i].data)
        },
    }
}

/// `list` is the listing of directory `i`: all its entries, by rising name.
pub open spec fn lists(fs: FsModel, i: u64, list: Seq<DirEntryModel>) -> bool {
    &&& forall|a: int, b: int|
        0 <= a < b < list.len() ==> text_less((#[trigger] list[a]).name, (#[trigger] list[b]).name)
    &&& forall|a: int|
        0 <= a < list.len() ==> {
            &&& entry(fs, i, (#[trigger] list[a]).name, list[a].ino)
            &&& list[a].kind == fs.nodes[list[a].ino].kind
        }
    &&& forall|name: Seq<char>, c: u64| #[trigger]
        entry(fs, i, name, c) ==> exists|a: int| 0 <= a < list.len() && (#[trigger] list[a]).name == name
}

/// What a listing of a path may be.
pub open spec fn read_dir_model(
    fs: FsModel,
    path: Seq<char>,
    r: Result<Seq<DirEntryModel>, FsErrorModel>,
) -> bool {
    match resolve(fs, path) {
        Err(e) => r == Err::<Seq<DirEntryModel>, FsErrorModel>(e),
        Ok(i) => if fs.nodes[i].kind is Directory {
            r matches Ok(list) && lists(fs, i, list)
        } else {
            r == Err::<Seq<DirEntryModel>, FsErrorModel>(FsErrorModel::NotADirectory { path })
        },
    }
}

/// A new node under a new name.
pub open spec fn add_child(fs: FsModel, d: u64, name: Seq<char>, node: NodeModel) -> FsModel {
    FsModel {
        nodes: fs.nodes.insert(
            d,
            NodeModel { children: fs.nodes[d].children.insert(name, fs.next), ..fs.nodes[d] },
        ).insert(fs.next, node),
        next: (fs.next + 1) as u64,
    }
}

/// The node under a name is gone.
pub open spec fn drop_child(fs: FsModel, d: u64, name: Seq<char>) -> FsModel {
    let child = fs.nodes[d].children[name];
    FsModel {
        nodes: fs.nodes.insert(
            d,
            NodeModel { children: fs.nodes[d].children.remove(name), ..fs.nodes[d] },
        ).remove(child),
        ..fs
    }
}

/// Making a directory: the result and the tree behind it.
pub open spec fn mkdir_model(fs: FsModel, path: Seq<char>) -> (Result<u64, FsErrorModel>, FsModel) {
    match parent_of(fs, path) {
        Err(e) => (Err(e), fs),
        Ok((d, name)) => if fs.nodes[d].children.contains_key(name) {
            (Err(FsErrorModel::AlreadyExists { path }), fs)
        } else {
            (Ok(fs.next), add_child(fs, d, name, empty_dir()))
        },
    }
}

/// Writing a file, new or not: the result and the tree behind it.
pub open spec fn write_model(fs: FsModel, path: Seq<char>, data: Seq<u8>) -> (
    Result<u64, FsErrorModel>,
    FsModel,
) {
    match parent_of(fs, path) {
        Err(e) => (Err(e), fs),
        Ok((d, name)) => if fs.nodes[d].children.contains_key(name) {
            let i = fs.nodes[d].children[name];
            if fs.nodes[i].kind is Directory {
                (Err(FsErrorModel::AlreadyExists { path }), fs)
            } else {
                (
                    Ok(i),
                    FsModel { nodes: fs.nodes.insert(i, NodeModel { data, ..fs.nodes[i] }), ..fs },
                )
            }
        } else {
            (Ok(fs.next), add_child(fs, d, name, file_of(data)))
        },
    }
}

/// Removing a file: the result and the tree behind it.
pub open spec fn remove_model(fs: FsModel, path: Seq<char>) -> (Result<(), FsErrorModel>, FsModel) {
    match parent_of(fs, path) {
        Err(e) => (Err(e), fs),
        Ok((d, name)) => if !fs.nodes[d].children.contains_key(name) {
            (Err(FsErrorModel::NotFound { path }), fs)
        } else if fs.nodes[fs.nodes[d].children[name]].kind is Directory {
            (Err(FsErrorModel::IsADirectory { path }), fs)
        } else {
            (Ok(()), drop_child(fs, d, name))
        },
    }
}

// ---------------------------------------------------------------------------
// How walks behave
// ---------------------------------------------------------------------------

/// A walk along `a + b` is a walk along `a` and on along `b`.
pub proof fn lemma_walk_append(fs: FsModel, from: u64, a: Seq<Seq<char>>, b: Seq<Seq<char>>)
    ensures
        walk(fs, from, a + b) == match walk(fs, from, a) {
            Ok(m) => walk(fs, m, b),
            Err(f) => Err(f),
        },
    decreases a.len(),
{
    if a.len() == 0 {
        assert(a + b =~= b);
    } else {
        assert((a + b)[0] == a[0]);
        assert((a + b).skip(1) =~= a.skip(1) + b);
        if fs.nodes[from].kind is Directory && fs.nodes[from].children.contains_key(a[0]) {
            lemma_walk_append(fs, fs.nodes[from].children[a[0]], a.skip(1), b);
        }
    }
}

/// The last step of a walk.
pub proof fn lemma_walk_last(fs: FsModel, from: u64, a: Seq<Seq<char>>, name: Seq<char>)
    ensures
        walk(fs, from, a.push(name)) == match walk(fs, from, a) {
            Err(f) => Err::<u64, WalkFail>(f),
            Ok(d) => if !(fs.nodes[d].kind is Directory) {
                Err(WalkFail::NotADirectory)
            } else if !fs.nodes[d].children.contains_key(name) {
                Err(WalkFail::Missing)
            } else {
                Ok(fs.nodes[d].children[name])
            },
        },
{
    lemma_walk_append(fs, from, a, seq![name]);
    assert(a + seq![name] =~= a.push(name));
    if let Ok(d) = walk(fs, from, a) {
        reveal_with_fuel(walk, 2);
        assert(seq![name].skip(1) =~= Seq::<Seq<char>>::empty());
    }
}

/// A walk stays within the tree.
pub proof fn lemma_walk_in_tree(fs: FsModel, from: u64, names: Seq<Seq<char>>)
    requires
        fs_wf(fs),
        fs.nodes.contains_key(from),
    ensures
        walk(fs, from, names) matches Ok(i) ==> fs.nodes.contains_key(i),
    decreases names.len(),
{
    if names.len() > 0 && fs.nodes[from].kind is Directory
        && fs.nodes[from].children.contains_key(names[0]) {
        assert(entry(fs, from, names[0], fs.nodes[from].children[names[0]]));
        lemma_walk_in_tree(fs, fs.nodes[from].children[names[0]], names.skip(1));
    }
}

/// There is one way to every node.
pub proof fn law_one_path_to_a_node(fs: FsModel, a: Seq<Seq<char>>, b: Seq<Seq<char>>)
    requires
        fs_wf(fs),
        walk(fs, ROOT_INO, a) is Ok,
        walk(fs, ROOT_INO, a) == walk(fs, ROOT_INO, b),
    ensures
        a == b,
    decreases a.len() + b.len(),
{
    if a.len() > 0 {
        let pa = a.drop_last();
        assert(pa.push(a.last()) =~= a);
        lemma_walk_last(fs, ROOT_INO, pa, a.last());
        lemma_walk_in_tree(fs, ROOT_INO, pa);
        let da = walk(fs, ROOT_INO, pa)->Ok_0;
        let i = walk(fs, ROOT_INO, a)->Ok_0;
        assert(entry(fs, da, a.last(), i));
        if b.len() > 0 {
            let pb = b.drop_last();
            assert(pb.push(b.last()) =~= b);
            lemma_walk_last(fs, ROOT_INO, pb, b.last());
            lemma_walk_in_tree(fs, ROOT_INO, pb);
            let db = walk(fs, ROOT_INO, pb)->Ok_0;
            assert(entry(fs, db, b.last(), i));
            law_one_path_to_a_node(fs, pa, pb);
        }
    } else if b.len() > 0 {
        let pb = b.drop_last();
        assert(pb.push(b.last()) =~= b);
        lemma_walk_last(fs, ROOT_INO, pb, b.last());
        lemma_walk_in_tree(fs, ROOT_INO, pb);
        assert(entry(fs, walk(fs, ROOT_INO, pb)->Ok_0, b.last(), ROOT_INO));
        assert(false);
    }
}

/// `b` begins with `a`.
pub open spec fn starts_with(b: Seq<Seq<char>>, a: Seq<Seq<char>>) -> bool {
    a.len() <= b.len() && b.take(a.len() as int) == a
}

/// `after` differs from `before` only under the name `name` of directory `d`,
/// apart from bytes and from nodes that no name leads to.
pub open spec fn differs_at(before: FsModel, after: FsModel, d: u64, name: Seq<char>) -> bool {
    forall|i: u64| #[trigger]
        before.nodes.contains_key(i) ==> {
            &&& after.nodes[i].kind == before.nodes[i].kind || entry(before, d, name, i)
            &&& i != d && !entry(before, d, name, i) ==> after.nodes[i].children
                == before.nodes[i].children
            &&& i == d ==> forall|n: Seq<char>|
                n != name ==> (#[trigger] after.nodes[d].children.contains_key(n)
                    <==> before.nodes[d].children.contains_key(n))
                    && (before.nodes[d].children.contains_key(n) ==> after.nodes[d].children[n]
                    == before.nodes[d].children[n])
        }
}

/// A walk that does not lead through the changed name is unchanged.
proof fn lemma_walk_elsewhere(
    before: FsModel,
    after: FsModel,
    trail: Seq<Seq<char>>,
    names: Seq<Seq<char>>,
    up: Seq<Seq<char>>,
    name: Seq<char>,
)
    requires
        fs_wf(before),
        walk(before, ROOT_INO, up) is Ok,
        differs_at(before, after, walk(before, ROOT_INO, up)->Ok_0, name),
        walk(before, ROOT_INO, trail) is Ok,
        !starts_with(trail + names, up.push(name)),
    ensures
        walk(after, walk(before, ROOT_INO, trail)->Ok_0, names) == walk(
            before,
            walk(before, ROOT_INO, trail)->Ok_0,
            names,
        ),
    decreases names.len(),
{
    let d = walk(before, ROOT_INO, up)->Ok_0;
    let cur = walk(before, ROOT_INO, trail)->Ok_0;
    lemma_walk_in_tree(before, ROOT_INO, trail);
    lemma_walk_in_tree(before, ROOT_INO, up);
    if names.len() > 0 {
        if entry(before, d, name, cur) {
            // then the trail itself led through the name
            if before.nodes[d].kind is Directory {
                lemma_walk_last(before, ROOT_INO, up, name);
                law_one_path_to_a_node(before, trail, up.push(name));
                assert((trail + names).take(up.push(name).len() as int) =~= up.push(name));
            }
            assert(node_wf(before.nodes[d]));
            assert(false);
        }
        let n = names[0];
        if cur == d && n == name {
            law_one_path_to_a_node(before, trail, up);
            assert((trail + names).take(up.push(name).len() as int) =~= up.push(name));
            assert(false);
        }
        if before.nodes[cur].kind is Directory && before.nodes[cur].children.contains_key(n) {
            lemma_walk_last(before, ROOT_INO, trail, n);
            assert(trail.push(n) + names.skip(1) =~= trail + names);
            lemma_walk_elsewhere(before, after, trail.push(n), names.skip(1), up, name);
        }
    }
}

/// What a path that does not lead through `up` and `name` leads to is
/// unchanged.
proof fn lemma_resolve_elsewhere(
    before: FsModel,
    after: FsModel,
    up: Seq<Seq<char>>,
    name: Seq<char>,
    path: Seq<char>,
)
    requires
        fs_wf(before),
        walk(before, ROOT_INO, up) is Ok,
        differs_at(before, after, walk(before, ROOT_INO, up)->Ok_0, name),
        !starts_with(components(path), up.push(name)),
    ensures
        resolve(after, path) == resolve(before, path),
        resolve(before, path) matches Ok(i) ==> !entry(
            before,
            walk(before, ROOT_INO, up)->Ok_0,
            name,
            i,
        ),
{
    let none = Seq::<Seq<char>>::empty();
    assert(none + components(path) =~= components(path));
    lemma_walk_elsewhere(before, after, none, components(path), up, name);
    let d = walk(before, ROOT_INO, up)->Ok_0;
    if let Ok(i) = resolve(before, path) {
        if entry(before, d, name, i) {
            lemma_walk_in_tree(before, ROOT_INO, up);
            assert(node_wf(before.nodes[d]));
            lemma_walk_last(before, ROOT_INO, up, name);
            law_one_path_to_a_node(before, components(path), up.push(name));
            assert(components(path).take(components(path).len() as int) =~= components(path));
        }
    }
}

/// What a parent and a name say of a path.
pub proof fn lemma_parent_facts(fs: FsModel, path: Seq<char>)
    requires
        fs_wf(fs),
        parent_of(fs, path) is Ok,
    ensures
        ({
            let (d, name) = parent_of(fs, path)->Ok_0;
            let up = components(path).drop_last();
            &&& up.push(name) == components(path)
            &&& plain(name)
            &&& walk(fs, ROOT_INO, up) == Ok::<u64, WalkFail>(d)
            &&& fs.nodes.contains_key(d)
            &&& fs.nodes[d].kind is Directory
            &&& fs.nodes[d].children.contains_key(name) ==> resolve(fs, path) == Ok::<
                u64,
                FsErrorModel,
            >(fs.nodes[d].children[name]) && entry(fs, d, name, fs.nodes[d].children[name])
            &&& !fs.nodes[d].children.contains_key(name) ==> resolve(fs, path) == Err::<
                u64,
                FsErrorModel,
            >(FsErrorModel::NotFound { path })
        }),
{
    let names = components(path);
    let up = names.drop_last();
    lemma_components_plain(path);
    assert(plain(names[names.len() - 1]));
    assert(up.push(names.last()) =~= names);
    lemma_walk_in_tree(fs, ROOT_INO, up);
    lemma_walk_last(fs, ROOT_INO, up, names.last());
}

// ---------------------------------------------------------------------------
// Trees stay trees
// ---------------------------------------------------------------------------

proof fn lemma_add_child_wf(fs: FsModel, d: u64, name: Seq<char>, node: NodeModel)
    requires
        fs_wf(fs),
        fs.nodes.contains_key(d),
        fs.nodes[d].kind is Directory,
        !fs.nodes[d].children.contains_key(name),
        fs.next < u64::MAX,
        plain(name),
        node_wf(node),
        node.children == Map::<Seq<char>, u64>::empty(),
    ensures
        fs_wf(add_child(fs, d, name, node)),
        differs_at(fs, add_child(fs, d, name, node), d, name),
{
    let g = add_child(fs, d, name, node);
    let n = fs.next;
    assert(fs.nodes.contains_key(d) && d != n);
    assert(!fs.nodes.contains_key(n));
    assert forall|i: u64| #[trigger] g.nodes.contains_key(i) implies node_wf(g.nodes[i]) && i
        < g.next by {
        if i == d {
            assert(node_wf(fs.nodes[d]));
        } else if i != n {
            assert(fs.nodes.contains_key(i));
        }
    }
    assert forall|e: u64, m: Seq<char>, i: u64| #[trigger] entry(g, e, m, i) implies (if e == d
        && m == name {
        i == n
    } else {
        entry(fs, e, m, i) && i != n
    }) by {
        if !(e == d && m == name) {
            if e == n {
                assert(false);
            }
            assert(fs.nodes.contains_key(e));
            assert(entry(fs, e, m, i));
        }
    }
    assert forall|e: u64, m: Seq<char>, i: u64| #[trigger] entry(g, e, m, i) implies
        g.nodes.contains_key(i) && i != ROOT_INO && plain(m) by {
        if !(e == d && m == name) {
            assert(entry(fs, e, m, i));
        }
    }
    assert forall|e: u64, m: Seq<char>, e2: u64, m2: Seq<char>, i: u64|
        #![trigger entry(g, e, m, i), entry(g, e2, m2, i)]
        entry(g, e, m, i) && entry(g, e2, m2, i) implies e == e2 && m == m2 by {
        if !(e == d && m == name) && !(e2 == d && m2 == name) {
            assert(entry(fs, e, m, i) && entry(fs, e2, m2, i));
        }
    }
}

proof fn lemma_set_data_wf(fs: FsModel, i: u64, data: Seq<u8>, d: u64, name: Seq<char>)
    requires
        fs_wf(fs),
        fs.nodes.contains_key(i),
        fs.nodes[i].kind is File,
    ensures
        ({
            let g = FsModel { nodes: fs.nodes.insert(i, NodeModel { data, ..fs.nodes[i] }), ..fs };
            fs_wf(g) && differs_at(fs, g, d, name)
        }),
{
    let g = FsModel { nodes: fs.nodes.insert(i, NodeModel { data, ..fs.nodes[i] }), ..fs };
    assert forall|j: u64| #[trigger] g.nodes.contains_key(j) implies node_wf(g.nodes[j]) && j
        < g.next by {
        assert(fs.nodes.contains_key(j));
    }
    assert forall|e: u64, m: Seq<char>, j: u64| #[trigger] entry(g, e, m, j) <==> entry(fs, e, m, j) by {
        assert(node_wf(fs.nodes[i]));
    }
    assert forall|e: u64, m: Seq<char>, j: u64| #[trigger] entry(g, e, m, j) implies
        g.nodes.contains_key(j) && j != ROOT_INO && plain(m) by {
        assert(entry(fs, e, m, j));
    }
    assert forall|e: u64, m: Seq<char>, e2: u64, m2: Seq<char>, j: u64|
        #![trigger entry(g, e, m, j), entry(g, e2, m2, j)]
        entry(g, e, m, j) && entry(g, e2, m2, j) implies e == e2 && m == m2 by {
        assert(entry(fs, e, m, j) && entry(fs, e2, m2, j));
    }
}

proof fn lemma_drop_child_wf(fs: FsModel, d: u64, name: Seq<char>)
    requires
        fs_wf(fs),
        fs.nodes.contains_key(d),
        fs.nodes[d].kind is Directory,
        fs.nodes[d].children.contains_key(name),
        fs.nodes[fs.nodes[d].children[name]].kind is File,
    ensures
        fs_wf(drop_child(fs, d, name)),
        differs_at(fs, drop_child(fs, d, name), d, name),
{
    let g = drop_child(fs, d, name);
    let c = fs.nodes[d].children[name];
    assert(entry(fs, d, name, c));
    assert(c != d);
    assert forall|j: u64| #[trigger] g.nodes.contains_key(j) implies node_wf(g.nodes[j]) && j
        < g.next by {
        assert(fs.nodes.contains_key(j));
        assert(node_wf(fs.nodes[d]));
        if j == d {
            vstd::set::axiom_set_remove_len(fs.nodes[d].children.dom(), name);
            assert(g.nodes[d].children.dom() =~= fs.nodes[d].children.dom().remove(name));
        }
    }
    assert forall|e: u64, m: Seq<char>, j: u64| #[trigger] entry(g, e, m, j) implies entry(
        fs,
        e,
        m,
        j,
    ) && j != c by {
        assert(entry(fs, e, m, j));
        if j == c {
            assert(e == d && m == name);
        }
    }
    assert forall|e: u64, m: Seq<char>, e2: u64, m2: Seq<char>, j: u64|
        #![trigger entry(g, e, m, j), entry(g, e2, m2, j)]
        entry(g, e, m, j) && entry(g, e2, m2, j) implies e == e2 && m == m2 by {
        assert(entry(fs, e, m, j) && entry(fs, e2, m2, j));
    }
}

// ---------------------------------------------------------------------------
// What writes do to reads
// ---------------------------------------------------------------------------

/// A file reads back as it was written, under any spelling of its path.
pub proof fn law_read_your_write(fs: FsModel, path: Seq<char>, data: Seq<u8>, again: Seq<char>)
    requires
        fs_wf(fs),
        fs.next < u64::MAX,
        write_model(fs, path, data).0 is Ok,
        components(again) == components(path),
    ensures
        read_model(write_model(fs, path, data).1, again) == Ok::<Seq<u8>, FsErrorModel>(data),
{
    let (d, name) = parent_of(fs, path)->Ok_0;
    let up = components(path).drop_last();
    let g = write_model(fs, path, data).1;
    lemma_parent_facts(fs, path);
    if fs.nodes[d].children.contains_key(name) {
        let i = fs.nodes[d].children[name];
        lemma_set_data_wf(fs, i, data, d, name);
    } else {
        lemma_add_child_wf(fs, d, name, file_of(data));
    }
    lemma_up_unchanged(fs, g, up, name);
    lemma_walk_last(g, ROOT_INO, up, name);
}

proof fn lemma_up_unchanged(
    before: FsModel,
    after: FsModel,
    up: Seq<Seq<char>>,
    name: Seq<char>,
)
    requires
        fs_wf(before),
        walk(before, ROOT_INO, up) is Ok,
        differs_at(before, after, walk(before, ROOT_INO, up)->Ok_0, name),
    ensures
        walk(after, ROOT_INO, up) == walk(before, ROOT_INO, up),
{
    let none = Seq::<Seq<char>>::empty();
    assert(none + up =~= up);
    lemma_walk_elsewhere(before, after, none, up, up, name);
}

/// Making a directory makes it, empty.
pub proof fn law_new_directory_is_there(fs: FsModel, path: Seq<char>)
    requires
        fs_wf(fs),
        fs.next < u64::MAX,
        mkdir_model(fs, path).0 is Ok,
    ensures
        lookup_model(mkdir_model(fs, path).1, path) == Ok::<Attr, FsErrorModel>(
            Attr { kind: NodeKind::Directory, size: 0, children: 0 },
        ),
{
    let (d, name) = parent_of(fs, path)->Ok_0;
    let up = components(path).drop_last();
    let g = mkdir_model(fs, path).1;
    lemma_parent_facts(fs, path);
    lemma_add_child_wf(fs, d, name, empty_dir());
    lemma_up_unchanged(fs, g, up, name);
    lemma_walk_last(g, ROOT_INO, up, name);
}

/// A removed file is gone.
pub proof fn law_removed_file_is_gone(fs: FsModel, path: Seq<char>)
    requires
        fs_wf(fs),
        remove_model(fs, path).0 is Ok,
    ensures
        resolve(remove_model(fs, path).1, path) == Err::<u64, FsErrorModel>(
            FsErrorModel::NotFound { path },
        ),
{
    let (d, name) = parent_of(fs, path)->Ok_0;
    let up = components(path).drop_last();
    let g = remove_model(fs, path).1;
    lemma_parent_facts(fs, path);
    assert(fs.nodes[d].children[name] != d);
    lemma_drop_child_wf(fs, d, name);
    lemma_up_unchanged(fs, g, up, name);
    lemma_walk_last(g, ROOT_INO, up, name);
}

/// Writing a file over itself keeps its node.
pub proof fn law_overwrite_keeps_the_node(
    fs: FsModel,
    path: Seq<char>,
    first: Seq<u8>,
    second: Seq<u8>,
)
    requires
        fs_wf(fs),
        fs.next < u64::MAX,
        write_model(fs, path, first).0 is Ok,
    ensures
        write_model(write_model(fs, path, first).1, path, second).0 == write_model(
            fs,
            path,
            first,
        ).0,
{
    let (d, name) = parent_of(fs, path)->Ok_0;
    let up = components(path).drop_last();
    let g = write_model(fs, path, first).1;
    lemma_parent_facts(fs, path);
    if fs.nodes[d].children.contains_key(name) {
        let i = fs.nodes[d].children[name];
        lemma_set_data_wf(fs, i, first, d, name);
    } else {
        lemma_add_child_wf(fs, d, name, file_of(first));
    }
    lemma_up_unchanged(fs, g, up, name);
}

/// `g` is the tree behind a successful change at `path`; a change that may
/// need a new node finds a number left.
pub open spec fn changed(fs: FsModel, g: FsModel, path: Seq<char>) -> bool {
    ||| fs.next < u64::MAX && mkdir_model(fs, path) == (Ok::<u64, FsErrorModel>(fs.next), g)
    ||| fs.next < u64::MAX && exists|data: Seq<u8>|
        #![trigger write_model(fs, path, data)]
        write_model(fs, path, data).0 is Ok && g == write_model(fs, path, data).1
    ||| remove_model(fs, path) == (Ok::<(), FsErrorModel>(()), g)
}

/// What a successful change leaves as it was.
pub proof fn lemma_changed(fs: FsModel, g: FsModel, path: Seq<char>)
    requires
        fs_wf(fs),
        changed(fs, g, path),
    ensures
        fs_wf(g),
        parent_of(fs, path) is Ok,
        ({
            let (d, name) = parent_of(fs, path)->Ok_0;
            let up = components(path).drop_last();
            &&& up.push(name) == components(path)
            &&& walk(fs, ROOT_INO, up) == Ok::<u64, WalkFail>(d)
            &&& fs.nodes.contains_key(d)
            &&& differs_at(fs, g, d, name)
            &&& forall|i: u64| #[trigger]
                fs.nodes.contains_key(i) && i != d && !entry(fs, d, name, i) ==> g.nodes[i]
                    == fs.nodes[i] && g.nodes.contains_key(i)
            &&& g.nodes[d].kind == fs.nodes[d].kind
            &&& g.nodes[d].data == fs.nodes[d].data
            &&& g.nodes.contains_key(d)
        }),
{
    let (d, name) = parent_of(fs, path)->Ok_0;
    lemma_parent_facts(fs, path);
    if remove_model(fs, path) == (Ok::<(), FsErrorModel>(()), g) {
        let c = fs.nodes[d].children[name];
        assert(entry(fs, d, name, c));
        lemma_drop_child_wf(fs, d, name);
    } else if mkdir_model(fs, path) == (Ok::<u64, FsErrorModel>(fs.next), g) {
        lemma_add_child_wf(fs, d, name, empty_dir());
    } else {
        let data = choose|data: Seq<u8>|
            #![trigger write_model(fs, path, data)]
            write_model(fs, path, data).0 is Ok && g == write_model(fs, path, data).1;
        if fs.nodes[d].children.contains_key(name) {
            let i = fs.nodes[d].children[name];
            assert(entry(fs, d, name, i));
            lemma_set_data_wf(fs, i, data, d, name);
        } else {
            lemma_add_child_wf(fs, d, name, file_of(data));
        }
    }
}

/// A change at one path leaves every file alone whose path does not lead
/// through it.
pub proof fn law_other_files_are_untouched(
    fs: FsModel,
    g: FsModel,
    path: Seq<char>,
    other: Seq<char>,
)
    requires
        fs_wf(fs),
        changed(fs, g, path),
        !starts_with(components(other), components(path)),
    ensures
        read_model(g, other) == read_model(fs, other),
{
    lemma_changed(fs, g, path);
    let (d, name) = parent_of(fs, path)->Ok_0;
    let up = components(path).drop_last();
    lemma_resolve_elsewhere(fs, g, up, name, other);
    lemma_walk_in_tree(fs, ROOT_INO, components(other));
}

/// A change at one path leaves every listing alone but that of the directory
/// it happened in, for paths that do not lead through it.
pub proof fn law_other_listings_are_untouched(
    fs: FsModel,
    g: FsModel,
    path: Seq<char>,
    other: Seq<char>,
    r: Result<Seq<DirEntryModel>, FsErrorModel>,
)
    requires
        fs_wf(fs),
        changed(fs, g, path),
        !starts_with(components(other), components(path)),
        components(other) != components(path).drop_last(),
        read_dir_model(fs, other, r),
    ensures
        read_dir_model(g, other, r),
{
    lemma_changed(fs, g, path);
    let (d, name) = parent_of(fs, path)->Ok_0;
    let up = components(path).drop_last();
    lemma_resolve_elsewhere(fs, g, up, name, other);
    lemma_walk_in_tree(fs, ROOT_INO, components(other));
    if let Ok(i) = resolve(fs, other) {
        if i == d {
            law_one_path_to_a_node(fs, components(other), up);
        }
        if fs.nodes[i].kind is Directory {
            let list = r->Ok_0;
            assert forall|n: Seq<char>, c: u64| #[trigger] entry(g, i, n, c) <==> entry(fs, i, n, c) by {}
            assert forall|a: int| 0 <= a < list.len() implies entry(
                g,
                i,
                (#[trigger] list[a]).name,
                list[a].ino,
            ) && list[a].kind == g.nodes[list[a].ino].kind by {
                let c = list[a].ino;
                assert(entry(fs, i, list[a].name, c));
                assert(!entry(fs, d, name, c));
            }
        }
    }
}

/// There is one listing of a directory.
pub proof fn law_listing_is_unique(
    fs: FsModel,
    path: Seq<char>,
    a: Result<Seq<DirEntryModel>, FsErrorModel>,
    b: Result<Seq<DirEntryModel>, FsErrorModel>,
)
    requires
        read_dir_model(fs, path, a),
        read_dir_model(fs, path, b),
    ensures
        a == b,
{
    if let Ok(i) = resolve(fs, path) {
        if fs.nodes[i].kind is Directory {
            lemma_lists_unique(fs, i, a->Ok_0, b->Ok_0);
        }
    }
}

proof fn lemma_lists_unique(fs: FsModel, i: u64, a: Seq<DirEntryModel>, b: Seq<DirEntryModel>)
    requires
        lists(fs, i, a),
        lists(fs, i, b),
    ensures
        a == b,
{
    lemma_lists_prefix(fs, i, a, b, a.len());
    lemma_lists_prefix(fs, i, b, a, b.len());
    assert(a =~= b);
}

/// The first `n` entries of one listing are those of the other.
proof fn lemma_lists_prefix(
    fs: FsModel,
    i: u64,
    a: Seq<DirEntryModel>,
    b: Seq<DirEntryModel>,
    n: nat,
)
    requires
        lists(fs, i, a),
        lists(fs, i, b),
        n <= a.len(),
    ensures
        n <= b.len(),
        forall|k: int| 0 <= k < n ==> a[k] == b[k],
    decreases n,
{
    if n > 0 {
        lemma_lists_prefix(fs, i, a, b, (n - 1) as nat);
        let m = n - 1;
        let x = a[m];
        assert(entry(fs, i, x.name, x.ino));
        let q = choose|q: int| 0 <= q < b.len() && (#[trigger] b[q]).name == x.name;
        if q < m {
            assert(a[q] == b[q]);
            lemma_text_less_strict(a[q].name, a[m].name);
        }
        let y = b[m];
        assert(entry(fs, i, y.name, y.ino));
        let p = choose|p: int| 0 <= p < a.len() && (#[trigger] a[p]).name == y.name;
        if p < m {
            assert(a[p] == b[p]);
            lemma_text_less_strict(b[p].name, b[m].name);
        }
        if q > m && p > m {
            // both say that the other one's entry comes later
            lemma_text_less_strict(b[m].name, b[q].name);
            lemma_text_less_strict(a[m].name, a[p].name);
        } else if q > m {
            lemma_text_less_strict(b[m].name, b[q].name);
        } else if p > m {
            lemma_text_less_strict(a[m].name, a[p].name);
        }
        assert(entry(fs, i, b[m].name, b[m].ino));
    }
}

/// A change at one path leaves every lookup alone, for paths that do not lead
/// through it, but for the number of entries of the directory it happened in.
pub proof fn law_other_lookups_are_untouched(
    fs: FsModel,
    g: FsModel,
    path: Seq<char>,
    other: Seq<char>,
)
    requires
        fs_wf(fs),
        changed(fs, g, path),
        !starts_with(components(other), components(path)),
    ensures
        resolve(g, other) == resolve(fs, other),
        components(other) != components(path).drop_last() ==> lookup_model(g, other)
            == lookup_model(fs, other),
        components(other) == components(path).drop_last() ==> {
            let before = lookup_model(fs, other);
            let after = lookup_model(g, other);
            &&& before is Ok
            &&& before->Ok_0.kind is Directory
            &&& after == Ok::<Attr, FsErrorModel>(
                Attr { children: after->Ok_0.children, ..before->Ok_0 },
            )
        },
{
    lemma_changed(fs, g, path);
    lemma_parent_facts(fs, path);
    let (d, name) = parent_of(fs, path)->Ok_0;
    let up = components(path).drop_last();
    lemma_resolve_elsewhere(fs, g, up, name, other);
    lemma_walk_in_tree(fs, ROOT_INO, components(other));
    if let Ok(i) = resolve(fs, other) {
        if i == d {
            law_one_path_to_a_node(fs, components(other), up);
        }
    }
}

/// The number of entries of the directory at a path.
pub open spec fn entries_at(fs: FsModel, path: Seq<char>) -> nat {
    match resolve(fs, path) {
        Ok(i) => fs.nodes[i].children.dom().len(),
        Err(_) => 0,
    }
}

/// A new node is one entry more of its directory, a removed file one less, and a
/// file that is written over keeps the number.
pub proof fn law_entries_are_counted(fs: FsModel, path: Seq<char>, data: Seq<u8>, dir: Seq<char>)
    requires
        fs_wf(fs),
        fs.next < u64::MAX,
        components(path).len() > 0,
        components(dir) == components(path).drop_last(),
    ensures
        mkdir_model(fs, path).0 is Ok ==> entries_at(mkdir_model(fs, path).1, dir) == entries_at(
            fs,
            dir,
        ) + 1,
        write_model(fs, path, data).0 is Ok ==> entries_at(write_model(fs, path, data).1, dir)
            == entries_at(fs, dir) + if resolve(fs, path) is Ok {
            0int
        } else {
            1int
        },
        remove_model(fs, path).0 is Ok ==> entries_at(remove_model(fs, path).1, dir) == entries_at(
            fs,
            dir,
        ) - 1,
        lookup_model(fs, dir) matches Ok(a) ==> a.children == entries_at(fs, dir) as usize,
{
    if parent_of(fs, path) is Ok {
        lemma_parent_facts(fs, path);
        let (d, name) = parent_of(fs, path)->Ok_0;
        let up = components(path).drop_last();
        let s = fs.nodes[d].children;
        assert(node_wf(fs.nodes[d]));
        if mkdir_model(fs, path).0 is Ok {
            let g = mkdir_model(fs, path).1;
            lemma_add_child_wf(fs, d, name, empty_dir());
            lemma_up_unchanged(fs, g, up, name);
            assert(g.nodes[d].children.dom() =~= s.dom().insert(name));
        }
        if write_model(fs, path, data).0 is Ok {
            let g = write_model(fs, path, data).1;
            if s.contains_key(name) {
                let i = s[name];
                lemma_set_data_wf(fs, i, data, d, name);
                assert(entry(fs, d, name, i));
            } else {
                lemma_add_child_wf(fs, d, name, file_of(data));
                assert(g.nodes[d].children.dom() =~= s.dom().insert(name));
            }
            lemma_up_unchanged(fs, g, up, name);
        }
        if remove_model(fs, path).0 is Ok {
            let g = remove_model(fs, path).1;
            let c = s[name];
            assert(entry(fs, d, name, c));
            lemma_drop_child_wf(fs, d, name);
            lemma_up_unchanged(fs, g, up, name);
            assert(g.nodes[d].children.dom() =~= s.dom().remove(name));
        }
    }
}

/// Behind a path, a slash and a name is the entry of that name.
proof fn lemma_resolve_child(fs: FsModel, path: Seq<char>, name: Seq<char>)
    requires
        plain(name),
        resolve(fs, path) is Ok,
    ensures
        ({
            let i = resolve(fs, path)->Ok_0;
            let below = path + seq!['/'] + name;
            &&& fs.nodes[i].kind is Directory && fs.nodes[i].children.contains_key(name)
                ==> resolve(fs, below) == Ok::<u64, FsErrorModel>(fs.nodes[i].children[name])
            &&& resolve(fs, below) is Ok ==> fs.nodes[i].kind is Directory
                && fs.nodes[i].children.contains_key(name)
        }),
{
    law_slash_separates(path, name);
    lemma_single_component(name);
    assert(components(path) + seq![name] =~= components(path).push(name));
    lemma_walk_last(fs, ROOT_INO, components(path), name);
}

/// A listing is that of a directory with as many entries. Whatever is listed is
/// found under the path, a slash and its name, and is what the listing says;
/// whatever is found there is listed.
pub proof fn law_listed_is_found(fs: FsModel, path: Seq<char>, list: Seq<DirEntryModel>)
    requires
        fs_wf(fs),
        read_dir_model(fs, path, Ok(list)),
    ensures
        lookup_model(fs, path) matches Ok(a) && a.kind is Directory && a.children
            == list.len() as usize,
        entries_at(fs, path) == list.len(),
        forall|k: int|
            0 <= k < list.len() ==> (lookup_model(
                fs,
                path + seq!['/'] + (#[trigger] list[k]).name,
            ) matches Ok(a) && a.kind == list[k].kind),
        forall|name: Seq<char>|
            plain(name) && #[trigger] lookup_model(fs, path + seq!['/'] + name) is Ok ==> exists|
                k: int,
            | 0 <= k < list.len() && (#[trigger] list[k]).name == name,
{
    lemma_walk_in_tree(fs, ROOT_INO, components(path));
    let i = resolve(fs, path)->Ok_0;
    lemma_listing_len(fs, i, list);
    assert forall|k: int| 0 <= k < list.len() implies (lookup_model(
        fs,
        path + seq!['/'] + (#[trigger] list[k]).name,
    ) matches Ok(a) && a.kind == list[k].kind) by {
        assert(entry(fs, i, list[k].name, list[k].ino));
        lemma_resolve_child(fs, path, list[k].name);
    }
    assert forall|name: Seq<char>|
        plain(name) && #[trigger] lookup_model(fs, path + seq!['/'] + name) is Ok implies exists|
        k: int,
    | 0 <= k < list.len() && (#[trigger] list[k]).name == name by {
        lemma_resolve_child(fs, path, name);
        assert(entry(fs, i, name, fs.nodes[i].children[name]));
    }
}

/// Only directories are listed: a file is not a directory, and where a lookup finds
/// nothing, a listing ends in the same error.
pub proof fn law_only_directories_are_listed(
    fs: FsModel,
    path: Seq<char>,
    r: Result<Seq<DirEntryModel>, FsErrorModel>,
)
    requires
        read_dir_model(fs, path, r),
    ensures
        match lookup_model(fs, path) {
            Err(e) => r == Err::<Seq<DirEntryModel>, FsErrorModel>(e),
            Ok(a) => match a.kind {
                NodeKind::Directory => r is Ok,
                NodeKind::File => r == Err::<Seq<DirEntryModel>, FsErrorModel>(
                    FsErrorModel::NotADirectory { path },
                ),
            },
        },
{
}

/// A listing is as long as there are entries.
proof fn lemma_listing_len(fs: FsModel, i: u64, list: Seq<DirEntryModel>)
    requires
        fs.nodes.contains_key(i),
        lists(fs, i, list),
    ensures
        fs.nodes[i].children.dom().len() == list.len(),
{
    let names = list.map_values(|e: DirEntryModel| e.name);
    assert(names.no_duplicates()) by {
        assert forall|a: int, b: int|
            0 <= a < names.len() && 0 <= b < names.len() && a != b implies names[a] != names[b] by {
            if a < b {
                lemma_text_less_strict(list[a].name, list[b].name);
            } else {
                lemma_text_less_strict(list[b].name, list[a].name);
            }
        }
    }
    names.unique_seq_to_set();
    let dom = fs.nodes[i].children.dom();
    assert forall|n: Seq<char>| names.to_set().contains(n) == #[trigger] dom.contains(n) by {
        if names.to_set().contains(n) {
            let k = choose|k: int| 0 <= k < names.len() && names[k] == n;
            assert(entry(fs, i, list[k].name, list[k].ino));
        }
        if dom.contains(n) {
            assert(entry(fs, i, n, fs.nodes[i].children[n]));
            let k = choose|k: int| 0 <= k < list.len() && (#[trigger] list[k]).name == n;
            assert(names[k] == n);
        }
    }
    assert(names.to_set() =~= dom);
}

/// What is read is what a lookup finds: the bytes of a file, as many as its size;
/// an error for a directory; and the error of the lookup where it has one.
pub proof fn law_read_agrees_with_lookup(fs: FsModel, path: Seq<char>)
    ensures
        match lookup_model(fs, path) {
            Err(e) => read_model(fs, path) == Err::<Seq<u8>, FsErrorModel>(e),
            Ok(a) => match a.kind {
                NodeKind::Directory => read_model(fs, path) == Err::<Seq<u8>, FsErrorModel>(
                    FsErrorModel::IsADirectory { path },
                ),
                NodeKind::File => read_model(fs, path) matches Ok(data) && a.size
                    == data.len() as u64,
            },
        },
{
}

// ---------------------------------------------------------------------------
// The tree as a map from paths
// ---------------------------------------------------------------------------

/// What stands at a path.
#[verifier::ext_equal]
pub enum NodeAt {
    /// A directory.
    Directory,
    /// A file with these bytes.
    File(Seq<u8>),
}

/// What stands behind these names, if anything does.
pub open spec fn at(fs: FsModel, names: Seq<Seq<char>>) -> Option<NodeAt> {
    match walk(fs, ROOT_INO, names) {
        Err(_) => None,
        Ok(i) => Some(
            match fs.nodes[i].kind {
                NodeKind::Directory => NodeAt::Directory,
                NodeKind::File => NodeAt::File(fs.nodes[i].data),
            },
        ),
    }
}

/// What stands elsewhere stays as it is.
proof fn lemma_at_elsewhere(fs: FsModel, g: FsModel, path: Seq<char>, names: Seq<Seq<char>>)
    requires
        fs_wf(fs),
        changed(fs, g, path),
        !starts_with(names, components(path)),
    ensures
        at(g, names) == at(fs, names),
{
    lemma_changed(fs, g, path);
    lemma_parent_facts(fs, path);
    let (d, name) = parent_of(fs, path)->Ok_0;
    let up = components(path).drop_last();
    let none = Seq::<Seq<char>>::empty();
    assert(none + names =~= names);
    lemma_walk_elsewhere(fs, g, none, names, up, name);
    lemma_walk_in_tree(fs, ROOT_INO, names);
    if let Ok(i) = walk(fs, ROOT_INO, names) {
        if entry(fs, d, name, i) {
            lemma_walk_last(fs, ROOT_INO, up, name);
            law_one_path_to_a_node(fs, names, up.push(name));
            assert(names.take(names.len() as int) =~= names);
        }
    }
}

/// A new directory stands at its path, and everything else stays as it is.
pub proof fn lemma_at_mkdir(fs: FsModel, path: Seq<char>, names: Seq<Seq<char>>)
    requires
        fs_wf(fs),
        fs.next < u64::MAX,
        mkdir_model(fs, path).0 is Ok,
    ensures
        fs_wf(mkdir_model(fs, path).1),
        at(fs, components(path)) is None,
        at(mkdir_model(fs, path).1, names) == if names == components(path) {
            Some(NodeAt::Directory)
        } else {
            at(fs, names)
        },
{
    let g = mkdir_model(fs, path).1;
    let c = components(path);
    lemma_changed(fs, g, path);
    lemma_parent_facts(fs, path);
    if starts_with(names, c) {
        let t = names.skip(c.len() as int);
        assert(c + t =~= names);
        let (d, name) = parent_of(fs, path)->Ok_0;
        let up = c.drop_last();
        lemma_add_child_wf(fs, d, name, empty_dir());
        lemma_up_unchanged(fs, g, up, name);
        lemma_walk_last(g, ROOT_INO, up, name);
        lemma_walk_append(g, ROOT_INO, c, t);
        lemma_walk_append(fs, ROOT_INO, c, t);
        if t.len() == 0 {
            assert(names =~= c);
        }
    } else {
        lemma_at_elsewhere(fs, g, path, names);
        if names == c {
            assert(names.take(c.len() as int) =~= c);
        }
    }
}

/// A file that is written stands at its path, and everything else stays as it is.
pub proof fn lemma_at_write(fs: FsModel, path: Seq<char>, data: Seq<u8>, names: Seq<Seq<char>>)
    requires
        fs_wf(fs),
        fs.next < u64::MAX,
        write_model(fs, path, data).0 is Ok,
    ensures
        fs_wf(write_model(fs, path, data).1),
        at(fs, components(path).drop_last()) == Some(NodeAt::Directory),
        at(fs, components(path)) !is Some || at(fs, components(path))->0 is File,
        at(write_model(fs, path, data).1, names) == if names == components(path) {
            Some(NodeAt::File(data))
        } else {
            at(fs, names)
        },
{
    let g = write_model(fs, path, data).1;
    let c = components(path);
    lemma_changed(fs, g, path);
    lemma_parent_facts(fs, path);
    if starts_with(names, c) {
        let t = names.skip(c.len() as int);
        assert(c + t =~= names);
        law_read_your_write(fs, path, data, path);
        lemma_walk_append(g, ROOT_INO, c, t);
        lemma_walk_append(fs, ROOT_INO, c, t);
        if t.len() == 0 {
            assert(names =~= c);
        }
    } else {
        lemma_at_elsewhere(fs, g, path, names);
        if names == c {
            assert(names.take(c.len() as int) =~= c);
        }
    }
}

/// What a new tree holds: the root, and nothing else.
pub proof fn law_new_tree_is_empty(names: Seq<Seq<char>>)
    ensures
        fs_wf(empty_fs()),
        at(empty_fs(), names) == if names.len() == 0 {
            Some(NodeAt::Directory)
        } else {
            None
        },
{
    let fs = empty_fs();
    assert(fs.nodes[ROOT_INO].children =~= Map::<Seq<char>, u64>::empty());
}

/// When a change goes well, and what is wrong otherwise. There must be a directory for
/// it; then a directory is made where nothing stands, a file is written where no
/// directory stands, and a file is removed. What does not go well changes nothing.
pub proof fn law_when_a_change_goes_well(fs: FsModel, path: Seq<char>, data: Seq<u8>)
    requires
        fs_wf(fs),
    ensures
        ({
            let names = components(path);
            let room = names.len() > 0 && at(fs, names.drop_last()) == Some(NodeAt::Directory);
            let here = at(fs, names);
            let made = mkdir_model(fs, path);
            let written = write_model(fs, path, data);
            let removed = remove_model(fs, path);
            &&& made.0 is Ok <==> room && here is None
            &&& written.0 is Ok <==> room && here != Some(NodeAt::Directory)
            &&& removed.0 is Ok <==> room && here is Some && here != Some(NodeAt::Directory)
            &&& made.0 is Err ==> made.1 == fs
            &&& written.0 is Err ==> written.1 == fs
            &&& removed.0 is Err ==> removed.1 == fs
            &&& room && here is Some ==> made.0 == Err::<u64, FsErrorModel>(
                FsErrorModel::AlreadyExists { path },
            )
            &&& room && here == Some(NodeAt::Directory) ==> written.0 == Err::<u64, FsErrorModel>(
                FsErrorModel::AlreadyExists { path },
            ) && removed.0 == Err::<(), FsErrorModel>(FsErrorModel::IsADirectory { path })
            &&& room && here is None ==> removed.0 == Err::<(), FsErrorModel>(
                FsErrorModel::NotFound { path },
            )
            &&& names.len() == 0 ==> made.0 == Err::<u64, FsErrorModel>(
                FsErrorModel::InvalidPath { path },
            ) && written.0 == Err::<u64, FsErrorModel>(FsErrorModel::InvalidPath { path })
                && removed.0 == Err::<(), FsErrorModel>(FsErrorModel::InvalidPath { path })
        }),
{
    let names = components(path);
    if names.len() > 0 {
        let up = names.drop_last();
        assert(up.push(names.last()) =~= names);
        lemma_walk_last(fs, ROOT_INO, up, names.last());
    }
}

/// What stands at a path is what is found there, and a file reads as the bytes that
/// stand there; nothing else reads.
pub proof fn law_what_stands_at_a_path_is_read(fs: FsModel, path: Seq<char>)
    requires
        fs_wf(fs),
    ensures
        ({
            let here = at(fs, components(path));
            &&& lookup_model(fs, path) is Ok <==> here is Some
            &&& read_model(fs, path) is Ok <==> here is Some && here != Some(NodeAt::Directory)
            &&& here matches Some(NodeAt::File(data)) ==> {
                &&& read_model(fs, path) == Ok::<Seq<u8>, FsErrorModel>(data)
                &&& lookup_model(fs, path)->Ok_0.kind == NodeKind::File
                &&& lookup_model(fs, path)->Ok_0.size == data.len() as u64
            }
            &&& here == Some(NodeAt::Directory) ==> {
                &&& read_model(fs, path) == Err::<Seq<u8>, FsErrorModel>(
                    FsErrorModel::IsADirectory { path },
                )
                &&& lookup_model(fs, path)->Ok_0.kind == NodeKind::Directory
            }
        }),
{
}

/// The first of the names that leads nowhere tells what is wrong with a path: it is
/// not there, or what stands before it is no directory.
pub proof fn law_why_a_path_leads_nowhere(fs: FsModel, path: Seq<char>, k: int)
    requires
        fs_wf(fs),
        0 < k <= components(path).len(),
        at(fs, components(path).take(k - 1)) is Some,
        at(fs, components(path).take(k)) is None,
    ensures
        resolve(fs, path) == Err::<u64, FsErrorModel>(
            if at(fs, components(path).take(k - 1)) == Some(NodeAt::Directory) {
                FsErrorModel::NotFound { path }
            } else {
                FsErrorModel::NotADirectory { path }
            },
        ),
{
    let names = components(path);
    let up = names.take(k - 1);
    assert(up.push(names[k - 1]) =~= names.take(k));
    lemma_walk_last(fs, ROOT_INO, up, names[k - 1]);
    assert(names.take(k) + names.skip(k) =~= names);
    lemma_walk_append(fs, ROOT_INO, names.take(k), names.skip(k));
}

/// A file that is removed is gone from its path, and everything else stays as it is.
pub proof fn law_tree_after_remove(fs: FsModel, path: Seq<char>, names: Seq<Seq<char>>)
    requires
        fs_wf(fs),
        remove_model(fs, path).0 is Ok,
    ensures
        fs_wf(remove_model(fs, path).1),
        at(remove_model(fs, path).1, names) == if names == components(path) {
            None
        } else {
            at(fs, names)
        },
{
    let g = remove_model(fs, path).1;
    let c = components(path);
    lemma_changed(fs, g, path);
    lemma_parent_facts(fs, path);
    if starts_with(names, c) {
        let t = names.skip(c.len() as int);
        assert(c + t =~= names);
        law_removed_file_is_gone(fs, path);
        lemma_walk_append(g, ROOT_INO, c, t);
        lemma_walk_append(fs, ROOT_INO, c, t);
        if t.len() == 0 {
            assert(names =~= c);
        }
    } else {
        lemma_at_elsewhere(fs, g, path, names);
        if names == c {
            assert(names.take(c.len() as int) =~= c);
        }
    }
}

/// The listing has this name.
pub open spec fn has_entry(list: Seq<DirEntryModel>, name: Seq<char>) -> bool {
    exists|k: int| 0 <= k < list.len() && (#[trigger] list[k]).name == name
}

/// A directory lists what stands behind it.
pub proof fn lemma_listed_at(
    fs: FsModel,
    path: Seq<char>,
    list: Seq<DirEntryModel>,
    name: Seq<char>,
)
    requires
        fs_wf(fs),
        read_dir_model(fs, path, Ok(list)),
    ensures
        has_entry(list, name) <==> at(fs, components(path).push(name)) is Some,
{
    let i = resolve(fs, path)->Ok_0;
    lemma_walk_in_tree(fs, ROOT_INO, components(path));
    lemma_walk_last(fs, ROOT_INO, components(path), name);
    if has_entry(list, name) {
        let k = choose|k: int| 0 <= k < list.len() && (#[trigger] list[k]).name == name;
        assert(entry(fs, i, list[k].name, list[k].ino));
    }
    if fs.nodes[i].children.contains_key(name) {
        assert(entry(fs, i, name, fs.nodes[i].children[name]));
    }
}

/// A listing says what stands in a directory: its names rise, each is that of something
/// in the directory and says of which kind it is, and nothing is left out.
pub proof fn law_listing_says_what_stands_there(
    fs: FsModel,
    path: Seq<char>,
    list: Seq<DirEntryModel>,
)
    requires
        fs_wf(fs),
        read_dir_model(fs, path, Ok(list)),
    ensures
        at(fs, components(path)) == Some(NodeAt::Directory),
        forall|a: int, b: int|
            0 <= a < b < list.len() ==> text_less((#[trigger] list[a]).name, (#[trigger] list[b]).name),
        forall|a: int|
            0 <= a < list.len() ==> {
                let here = at(fs, components(path).push((#[trigger] list[a]).name));
                &&& here is Some
                &&& list[a].kind == NodeKind::Directory <==> here == Some(NodeAt::Directory)
            },
        forall|name: Seq<char>|
            at(fs, #[trigger] components(path).push(name)) is Some ==> has_entry(list, name),
{
    let i = resolve(fs, path)->Ok_0;
    lemma_walk_in_tree(fs, ROOT_INO, components(path));
    assert forall|a: int| 0 <= a < list.len() implies {
        let here = at(fs, components(path).push((#[trigger] list[a]).name));
        &&& here is Some
        &&& list[a].kind == NodeKind::Directory <==> here == Some(NodeAt::Directory)
    } by {
        lemma_walk_last(fs, ROOT_INO, components(path), list[a].name);
        assert(entry(fs, i, list[a].name, list[a].ino));
    }
    assert forall|name: Seq<char>|
        at(fs, #[trigger] components(path).push(name)) is Some implies has_entry(list, name) by {
        lemma_listed_at(fs, path, list, name);
    }
}

// ---------------------------------------------------------------------------
// Sequences of changes
// ---------------------------------------------------------------------------

/// A change that may be asked for.
pub enum FsOp {
    /// Make a directory at a path.
    Mkdir(Seq<char>),
    /// Write bytes to a path.
    Write(Seq<char>, Seq<u8>),
    /// Remove the file at a path.
    Remove(Seq<char>),
}

/// The path at which a change is asked for.
pub open spec fn op_path(op: FsOp) -> Seq<char> {
    match op {
        FsOp::Mkdir(path) => path,
        FsOp::Write(path, _) => path,
        FsOp::Remove(path) => path,
    }
}

/// Whether the change can be made.
pub open spec fn op_succeeds(fs: FsModel, op: FsOp) -> bool {
    match op {
        FsOp::Mkdir(path) => mkdir_model(fs, path).0 is Ok,
        FsOp::Write(path, data) => write_model(fs, path, data).0 is Ok,
        FsOp::Remove(path) => remove_model(fs, path).0 is Ok,
    }
}

/// The tree behind a change, made or not.
pub open spec fn after_op(fs: FsModel, op: FsOp) -> FsModel {
    match op {
        FsOp::Mkdir(path) => mkdir_model(fs, path).1,
        FsOp::Write(path, data) => write_model(fs, path, data).1,
        FsOp::Remove(path) => remove_model(fs, path).1,
    }
}

/// The change may be asked for: one that may need a new node finds a number left.
pub open spec fn op_allowed(fs: FsModel, op: FsOp) -> bool {
    op is Remove || fs.next < u64::MAX
}

/// Each of the changes may be asked for when its turn comes.
pub open spec fn ops_allowed(fs: FsModel, ops: Seq<FsOp>) -> bool {
    forall|k: int| 0 <= k < ops.len() ==> op_allowed(after_ops(fs, ops.take(k)), #[trigger] ops[k])
}

/// The tree behind a sequence of changes.
pub open spec fn after_ops(fs: FsModel, ops: Seq<FsOp>) -> FsModel
    decreases ops.len(),
{
    if ops.len() == 0 {
        fs
    } else {
        after_op(after_ops(fs, ops.drop_last()), ops.last())
    }
}

/// A change that cannot be made changes nothing; one that can is a change.
pub proof fn lemma_after_op(fs: FsModel, op: FsOp)
    requires
        fs_wf(fs),
        op_allowed(fs, op),
    ensures
        fs_wf(after_op(fs, op)),
        fs.next <= after_op(fs, op).next,
        !op_succeeds(fs, op) ==> after_op(fs, op) == fs,
        op_succeeds(fs, op) ==> changed(fs, after_op(fs, op), op_path(op)),
{
    if op_succeeds(fs, op) {
        if let FsOp::Write(path, data) = op {
            assert(write_model(fs, path, data).0 is Ok);
        }
        lemma_changed(fs, after_op(fs, op), op_path(op));
    }
}

proof fn lemma_fewer_allowed(fs: FsModel, ops: Seq<FsOp>)
    requires
        ops_allowed(fs, ops),
        ops.len() > 0,
    ensures
        ops_allowed(fs, ops.drop_last()),
        op_allowed(after_ops(fs, ops.drop_last()), ops.last()),
{
    let most = ops.drop_last();
    assert forall|k: int| 0 <= k < most.len() implies op_allowed(
        after_ops(fs, most.take(k)),
        #[trigger] most[k],
    ) by {
        assert(most.take(k) =~= ops.take(k));
        assert(most[k] == ops[k]);
    }
    assert(ops.take(ops.len() - 1) =~= most);
    assert(ops[ops.len() - 1] == ops.last());
}

/// Sequences of changes keep the tree a tree, and give no number back.
pub proof fn lemma_after_ops(fs: FsModel, ops: Seq<FsOp>)
    requires
        fs_wf(fs),
        ops_allowed(fs, ops),
    ensures
        fs_wf(after_ops(fs, ops)),
        fs.next <= after_ops(fs, ops).next,
    decreases ops.len(),
{
    if ops.len() > 0 {
        lemma_fewer_allowed(fs, ops);
        lemma_after_ops(fs, ops.drop_last());
        lemma_after_op(after_ops(fs, ops.drop_last()), ops.last());
    }
}

/// A new node has a number that no node had before, not even one that was
/// removed since.
pub proof fn law_numbers_are_never_used_again(
    fs: FsModel,
    ops: Seq<FsOp>,
    path: Seq<char>,
    data: Seq<u8>,
    ino: u64,
)
    requires
        fs_wf(fs),
        ops_allowed(fs, ops),
        after_ops(fs, ops).next < u64::MAX,
        ({
            let g = after_ops(fs, ops);
            ||| mkdir_model(g, path).0 == Ok::<u64, FsErrorModel>(ino)
            ||| resolve(g, path) is Err && write_model(g, path, data).0 == Ok::<
                u64,
                FsErrorModel,
            >(ino)
        }),
    ensures
        forall|i: u64| #[trigger] fs.nodes.contains_key(i) ==> i < ino,
        forall|i: u64| #[trigger] after_ops(fs, ops).nodes.contains_key(i) ==> i < ino,
{
    lemma_after_ops(fs, ops);
    let g = after_ops(fs, ops);
    if parent_of(g, path) is Ok {
        lemma_parent_facts(g, path);
    }
}

/// A file lies behind no place at which a change can be made, but its own.
proof fn lemma_file_not_behind(fs: FsModel, g: FsModel, path: Seq<char>, file: Seq<char>)
    requires
        fs_wf(fs),
        changed(fs, g, path),
        read_model(fs, file) is Ok,
        components(file) != components(path),
    ensures
        !starts_with(components(file), components(path)),
{
    lemma_changed(fs, g, path);
    lemma_parent_facts(fs, path);
    let c = components(path);
    let k = components(file);
    if starts_with(k, c) {
        let t = k.skip(c.len() as int);
        assert(c + t =~= k);
        lemma_walk_append(fs, ROOT_INO, c, t);
        if t.len() == 0 {
            assert(k =~= c);
        }
        if let Ok(i) = walk(fs, ROOT_INO, c) {
            assert(resolve(fs, path) == Ok::<u64, FsErrorModel>(i));
            assert(fs.nodes[i].kind is Directory);
        }
    }
}

/// A file reads as it was last written, whatever else was asked for since: if the
/// write at place `at` went well, and no later write to the file and no later
/// removal of it did, the file holds the bytes of that write, under any spelling
/// of its path.
pub proof fn law_read_gives_the_last_write(
    fs: FsModel,
    ops: Seq<FsOp>,
    at: int,
    path: Seq<char>,
    data: Seq<u8>,
    again: Seq<char>,
)
    requires
        fs_wf(fs),
        ops_allowed(fs, ops),
        0 <= at < ops.len(),
        ops[at] == FsOp::Write(path, data),
        op_succeeds(after_ops(fs, ops.take(at)), ops[at]),
        forall|k: int|
            at < k < ops.len() && components(op_path(#[trigger] ops[k])) == components(path)
                && !(ops[k] is Mkdir) ==> !op_succeeds(after_ops(fs, ops.take(k)), ops[k]),
        components(again) == components(path),
    ensures
        read_model(after_ops(fs, ops), again) == Ok::<Seq<u8>, FsErrorModel>(data),
    decreases ops.len(),
{
    let most = ops.drop_last();
    let f = after_ops(fs, most);
    lemma_fewer_allowed(fs, ops);
    lemma_after_ops(fs, most);
    assert(most =~= ops.take(ops.len() - 1));
    if at == ops.len() - 1 {
        law_read_your_write(f, path, data, again);
    } else {
        assert(most.take(at) =~= ops.take(at));
        assert forall|k: int|
            at < k < most.len() && components(op_path(#[trigger] most[k])) == components(path)
                && !(most[k] is Mkdir) implies !op_succeeds(
            after_ops(fs, most.take(k)),
            most[k],
        ) by {
            assert(most.take(k) =~= ops.take(k));
            assert(most[k] == ops[k]);
        }
        law_read_gives_the_last_write(fs, most, at, path, data, again);
        let op = ops.last();
        assert(op == ops[ops.len() - 1]);
        lemma_after_op(f, op);
        if op_succeeds(f, op) {
            let g = after_op(f, op);
            if components(op_path(op)) == components(again) {
                assert(op is Mkdir);
                lemma_parent_facts(f, op_path(op));
                assert(resolve(f, op_path(op)) is Err);
                assert(resolve(f, again) is Ok);
            } else {
                lemma_file_not_behind(f, g, op_path(op), again);
                law_other_files_are_untouched(f, g, op_path(op), again);
            }
        }
    }
}

// ---------------------------------------------------------------------------
// The file system
// ---------------------------------------------------------------------------

#[derive(Debug)]
struct Node {
    kind: NodeKind,
    children: TextMap<u64>,
    data: Vec<u8>,
}

impl Node {
    closed spec fn model(&self) -> NodeModel {
        NodeModel { kind: self.kind, children: self.children@, data: self.data@ }
    }
}

/// An in-memory file system.
#[derive(Debug)]
pub struct MemFs {
    nodes: BTreeMap<Ino, Node>,
    next_ino: Ino,
}

impl View for MemFs {
    type V = FsModel;

    closed spec fn view(&self) -> FsModel {
        FsModel {
            nodes: Map::new(
                |i: u64| self.nodes@.contains_key(i),
                |i: u64| self.nodes@[i].model(),
            ),
            next: self.next_ino,
        }
    }
}

fn not_found(path: &str) -> (e: FsError)
    ensures
        e@ == (FsErrorModel::NotFound { path: path@ }),
{
    FsError::NotFound { path: path.to_owned() }
}

fn not_a_directory(path: &str) -> (e: FsError)
    ensures
        e@ == (FsErrorModel::NotADirectory { path: path@ }),
{
    FsError::NotADirectory { path: path.to_owned() }
}

impl MemFs {
    /// The nodes form a tree, and every directory keeps its names in order.
    pub closed spec fn wf(&self) -> bool {
        &&& fs_wf(self@)
        &&& forall|i: u64| #[trigger]
            self.nodes@.contains_key(i) ==> self.nodes@[i].children.wf()
    }

    /// What holds between calls.
    pub proof fn law_is_a_tree(&self)
        requires
            self.wf(),
        ensures
            fs_wf(self@),
    {
    }

    /// An empty root directory.
    #[must_use]
    pub fn new() -> (fs: Self)
        ensures
            fs.wf(),
            fs@ == empty_fs(),
    {
        let mut nodes: BTreeMap<u64, Node> = BTreeMap::new();
        let root = Node {
            kind: NodeKind::Directory,
            children: TextMap::new(),
            data: Vec::new(),
        };
        nodes.insert(ROOT_INO, root);
        let fs = MemFs { nodes, next_ino: ROOT_INO + 1 };
        proof {
            assert(root.data@ =~= Seq::<u8>::empty());
            assert(fs@.nodes =~= empty_fs().nodes);
            assert(Map::<Seq<char>, u64>::empty().dom() =~= Set::<Seq<char>>::empty());
        }
        fs
    }

    /// Follows the first `count` names from the root.
    fn descend(&self, names: &Vec<String>, count: usize, path: &str) -> (r: Result<Ino, FsError>)
        requires
            self.wf(),
            count <= names@.len(),
        ensures
            match walk(self@, ROOT_INO, texts(names@).take(count as int)) {
                Ok(i) => r == Ok::<u64, FsError>(i) && self.nodes@.contains_key(i),
                Err(f) => r is Err && r->Err_0@ == walk_error(f, path@),
            },
    {
        let ghost all = texts(names@).take(count as int);
        let mut cur: u64 = ROOT_INO;
        let mut k: usize = 0;
        assert(all.skip(0) =~= all);
        while k < count
            invariant
                k <= count <= names@.len(),
                all == texts(names@).take(count as int),
                self.wf(),
                self.nodes@.contains_key(cur),
                walk(self@, ROOT_INO, all) == walk(self@, cur, all.skip(k as int)),
            decreases count - k,
        {
            let ghost rest = all.skip(k as int);
            assert(rest[0] == names@[k as int]@);
            assert(rest.skip(1) =~= all.skip(k + 1));
            match self.nodes.get(&cur) {
                None => {
                    return Err(FsError::InodeGone { ino: cur });
                },
                Some(node) => {
                    assert(self@.nodes[cur] == node.model());
                    if node.kind != NodeKind::Directory {
                        return Err(not_a_directory(path));
                    }
                    match node.children.get(names[k].as_str()) {
                        None => {
                            return Err(not_found(path));
                        },
                        Some(child) => {
                            assert(entry(self@, cur, rest[0], *child));
                            cur = *child;
                        },
                    }
                },
            }
            k = k + 1;
        }
        assert(all.skip(count as int) =~= Seq::<Seq<char>>::empty());
        Ok(cur)
    }

    /// The node that a path leads to.
    fn resolve(&self, path: &str) -> (r: Result<Ino, FsError>)
        requires
            self.wf(),
        ensures
            match resolve(self@, path@) {
                Ok(i) => r == Ok::<u64, FsError>(i) && self.nodes@.contains_key(i),
                Err(e) => r is Err && r->Err_0@ == e,
            },
    {
        let names = split_path(path);
        assert(texts(names@).take(names@.len() as int) =~= texts(names@));
        self.descend(&names, names.len(), path)
    }

    /// The attributes at a path.
    pub fn lookup(&self, path: &str) -> (r: Result<Attr, FsError>)
        requires
            self.wf(),
        ensures
            match lookup_model(self@, path@) {
                Ok(a) => r == Ok::<Attr, FsError>(a),
                Err(e) => r is Err && r->Err_0@ == e,
            },
    {
        let ino: u64 = self.resolve(path)?;
        match self.nodes.get(&ino) {
            None => Err(FsError::InodeGone { ino }),
            Some(node) => {
                assert(self@.nodes[ino] == node.model());
                proof {
                    lemma_map_of_len(node.children.listing());
                }
                Ok(
                    Attr {
                        kind: node.kind,
                        size: node.data.len() as u64,
                        children: node.children.len(),
                    },
                )
            },
        }
    }

    /// The entries of the directory at a path, by rising name.
    pub fn read_dir(&self, path: &str) -> (r: Result<Vec<DirEntry>, FsError>)
        requires
            self.wf(),
        ensures
            read_dir_model(
                self@,
                path@,
                match r {
                    Ok(list) => Ok(list@.map_values(|e: DirEntry| e@)),
                    Err(e) => Err(e@),
                },
            ),
    {
        let ino: u64 = self.resolve(path)?;
        let node = match self.nodes.get(&ino) {
            None => {
                return Err(FsError::InodeGone { ino });
            },
            Some(node) => node,
        };
        assert(self@.nodes[ino] == node.model());
        if node.kind != NodeKind::Directory {
            return Err(not_a_directory(path));
        }
        let mut out: Vec<DirEntry> = Vec::new();
        let n: usize = node.children.len();
        let mut k: usize = 0;
        let ghost listing = node.children.listing();
        while k < n
            invariant
                self.wf(),
                self.nodes@.contains_key(ino),
                *node == self.nodes@[ino],
                listing == node.children.listing(),
                k <= n == listing.len(),
                out@.len() == k,
                forall|a: int|
                    0 <= a < k ==> {
                        &&& (#[trigger] out@[a])@.name == listing[a].0
                        &&& out@[a]@.ino == listing[a].1
                        &&& out@[a]@.kind == self@.nodes[listing[a].1].kind
                    },
            decreases n - k,
        {
            let name = node.children.key_at(k);
            let child: u64 = *node.children.value_at(k);
            proof {
                lemma_map_of_entry(listing, k as int);
                assert(entry(self@, ino, listing[k as int].0, child));
            }
            let kind = match self.nodes.get(&child) {
                None => {
                    assert(false);
                    NodeKind::File
                },
                Some(c) => c.kind,
            };
            out.push(DirEntry { name: name.clone(), ino: child, kind });
            k = k + 1;
        }
        proof {
            let list = out@.map_values(|e: DirEntry| e@);
            assert forall|a: int| 0 <= a < list.len() implies entry(
                self@,
                ino,
                (#[trigger] list[a]).name,
                list[a].ino,
            ) && list[a].kind == self@.nodes[list[a].ino].kind by {
                assert(list[a] == out@[a]@);
                lemma_map_of_entry(listing, a);
            }
            assert forall|a: int, b: int| 0 <= a < b < list.len() implies text_less(
                (#[trigger] list[a]).name,
                (#[trigger] list[b]).name,
            ) by {
                assert(list[a] == out@[a]@ && list[b] == out@[b]@);
                assert(text_less(listing[a].0, listing[b].0));
            }
            assert forall|name: Seq<char>, c: u64| #[trigger] entry(self@, ino, name, c) implies exists|
                a: int,
            | 0 <= a < list.len() && (#[trigger] list[a]).name == name by {
                let a = choose|a: int| 0 <= a < listing.len() && (#[trigger] listing[a]).0 == name;
                assert(list[a] == out@[a]@);
            }
        }
        Ok(out)
    }

    /// The bytes of the file at a path.
    pub fn read(&self, path: &str) -> (r: Result<&[u8], FsError>)
        requires
            self.wf(),
        ensures
            match read_model(self@, path@) {
                Ok(data) => r is Ok && r->Ok_0@ == data,
                Err(e) => r is Err && r->Err_0@ == e,
            },
    {
        let ino: u64 = self.resolve(path)?;
        match self.nodes.get(&ino) {
            None => Err(FsError::InodeGone { ino }),
            Some(node) => {
                assert(self@.nodes[ino] == node.model());
                if node.kind == NodeKind::Directory {
                    Err(FsError::IsADirectory { path: path.to_owned() })
                } else {
                    Ok(node.data.as_slice())
                }
            },
        }
    }

    /// The directory that a path's last name belongs to, and that name.
    fn split_parent(&self, path: &str) -> (r: Result<(Ino, String), FsError>)
        requires
            self.wf(),
        ensures
            match parent_of(self@, path@) {
                Ok((d, name)) => {
                    &&& r is Ok
                    &&& r->Ok_0.0 == d
                    &&& r->Ok_0.1@ == name
                    &&& plain(name)
                    &&& self.nodes@.contains_key(d)
                    &&& self@.nodes[d].kind is Directory
                },
                Err(e) => r is Err && r->Err_0@ == e,
            },
    {
        let names = split_path(path);
        let n: usize = names.len();
        if n == 0 {
            return Err(FsError::InvalidPath { path: path.to_owned() });
        }
        proof {
            lemma_components_plain(path@);
            assert(plain(texts(names@)[n - 1]));
        }
        assert(texts(names@).take(n - 1) =~= texts(names@).drop_last());
        let d: u64 = self.descend(&names, n - 1, path)?;
        match self.nodes.get(&d) {
            None => Err(FsError::InodeGone { ino: d }),
            Some(node) => {
                assert(self@.nodes[d] == node.model());
                if node.kind != NodeKind::Directory {
                    return Err(not_a_directory(path));
                }
                Ok((d, names[n - 1].clone()))
            },
        }
    }

    /// The entry of a directory under a name.
    fn child_of(&self, d: Ino, name: &str) -> (r: Option<Ino>)
        requires
            self.wf(),
            self.nodes@.contains_key(d),
        ensures
            match r {
                Some(i) => entry(self@, d, name@, i) && self.nodes@.contains_key(i),
                None => !self@.nodes[d].children.contains_key(name@),
            },
    {
        match self.nodes.get(&d) {
            None => None,
            Some(node) => match node.children.get(name) {
                Some(i) => {
                    assert(entry(self@, d, name@, *i));
                    Some(*i)
                },
                None => None,
            },
        }
    }

    /// What a node is.
    fn kind_of(&self, i: Ino) -> (r: NodeKind)
        requires
            self.nodes@.contains_key(i),
        ensures
            r == self@.nodes[i].kind,
    {
        match self.nodes.get(&i) {
            Some(node) => node.kind,
            None => NodeKind::File,
        }
    }

    /// Gives a node the next number and enters it under a new name.
    fn link_new(&mut self, d: Ino, name: String, node: Node) -> (ino: Ino)
        requires
            old(self).wf(),
            old(self)@.next < u64::MAX,
            old(self).nodes@.contains_key(d),
            old(self)@.nodes[d].kind is Directory,
            !old(self)@.nodes[d].children.contains_key(name@),
            plain(name@),
            node.children.wf(),
            node_wf(node.model()),
            node.model().children == Map::<Seq<char>, u64>::empty(),
        ensures
            final(self).wf(),
            ino == old(self)@.next,
            final(self)@ == add_child(old(self)@, d, name@, node.model()),
    {
        let ghost before = self@;
        let ghost label = name@;
        let ghost fresh = node.model();
        let ino: u64 = self.next_ino;
        proof {
            lemma_add_child_wf(before, d, label, fresh);
            assert(before.nodes.contains_key(d));
        }
        self.next_ino = self.next_ino + 1;
        if let Some(mut parent) = self.nodes.remove(&d) {
            parent.children.insert(name, ino);
            self.nodes.insert(d, parent);
        }
        self.nodes.insert(ino, node);
        proof {
            assert(self@.nodes =~= add_child(before, d, label, fresh).nodes);
        }
        ino
    }

    /// Makes a directory. Its parent must be there, its name must be new.
    pub fn mkdir(&mut self, path: &str) -> (r: Result<Ino, FsError>)
        requires
            old(self).wf(),
            old(self)@.next < u64::MAX,
        ensures
            final(self).wf(),
            final(self)@ == mkdir_model(old(self)@, path@).1,
            match mkdir_model(old(self)@, path@).0 {
                Ok(i) => r == Ok::<u64, FsError>(i),
                Err(e) => r is Err && r->Err_0@ == e,
            },
    {
        let (d, name) = self.split_parent(path)?;
        if self.child_of(d, name.as_str()).is_some() {
            return Err(FsError::AlreadyExists { path: path.to_owned() });
        }
        let node = Node { kind: NodeKind::Directory, children: TextMap::new(), data: Vec::new() };
        proof {
            assert(node.model() =~= empty_dir());
            assert(Map::<Seq<char>, u64>::empty().dom() =~= Set::<Seq<char>>::empty());
            assert(self@.nodes.contains_key(d));
        }
        Ok(self.link_new(d, name, node))
    }

    /// Writes a file, new or not. Its parent must be there; a file that is
    /// there keeps its node.
    pub fn write_file(&mut self, path: &str, data: &[u8]) -> (r: Result<Ino, FsError>)
        requires
            old(self).wf(),
            old(self)@.next < u64::MAX,
        ensures
            final(self).wf(),
            final(self)@ == write_model(old(self)@, path@, data@).1,
            match write_model(old(self)@, path@, data@).0 {
                Ok(i) => r == Ok::<u64, FsError>(i),
                Err(e) => r is Err && r->Err_0@ == e,
            },
    {
        let (d, name) = self.split_parent(path)?;
        let bytes = crate::octets::copy_range(data, 0, data.len());
        assert(bytes@ =~= data@);
        match self.child_of(d, name.as_str()) {
            Some(child) => {
                if self.kind_of(child) == NodeKind::Directory {
                    return Err(FsError::AlreadyExists { path: path.to_owned() });
                }
                let ghost before = self@;
                proof {
                    lemma_set_data_wf(before, child, data@, d, name@);
                }
                if let Some(mut node) = self.nodes.remove(&child) {
                    node.data = bytes;
                    self.nodes.insert(child, node);
                }
                proof {
                    assert(self@.nodes =~= before.nodes.insert(
                        child,
                        NodeModel { data: data@, ..before.nodes[child] },
                    ));
                }
                Ok(child)
            },
            None => {
                let node = Node { kind: NodeKind::File, children: TextMap::new(), data: bytes };
                proof {
                    assert(node.model() =~= file_of(data@));
                    assert(Map::<Seq<char>, u64>::empty().dom() =~= Set::<Seq<char>>::empty());
                    assert(self@.nodes.contains_key(d));
                }
                Ok(self.link_new(d, name, node))
            },
        }
    }

    /// Removes a file. Directories cannot be removed.
    pub fn remove_file(&mut self, path: &str) -> (r: Result<(), FsError>)
        requires
            old(self).wf(),
        ensures
            final(self).wf(),
            final(self)@ == remove_model(old(self)@, path@).1,
            match remove_model(old(self)@, path@).0 {
                Ok(_) => r == Ok::<(), FsError>(()),
                Err(e) => r is Err && r->Err_0@ == e,
            },
    {
        let (d, name) = self.split_parent(path)?;
        let child: u64 = match self.child_of(d, name.as_str()) {
            None => {
                return Err(not_found(path));
            },
            Some(child) => child,
        };
        if self.kind_of(child) == NodeKind::Directory {
            return Err(FsError::IsADirectory { path: path.to_owned() });
        }
        let ghost before = self@;
        proof {
            assert(before.nodes.contains_key(d));
            lemma_drop_child_wf(before, d, name@);
        }
        if let Some(mut parent) = self.nodes.remove(&d) {
            let _ = parent.children.remove(name.as_str());
            self.nodes.insert(d, parent);
        }
        let _ = self.nodes.remove(&child);
        proof {
            assert(self@.nodes =~= drop_child(before, d, name@).nodes);
        }
        Ok(())
    }
}

impl Default for MemFs {
    fn default() -> (fs: Self)
        ensures
            fs.wf(),
            fs@ == empty_fs(),
    {
        Self::new()
    }
}

} // verus!
