//! Derives a dependency-respecting ordering of the files of a C/C++ source
//! tree from their `#include` directives, detecting cyclic includes.

use vstd::prelude::*;

pub mod counting;
pub mod directives;
pub mod ordering;
pub mod paths;
pub mod simple_graph;

use crate::counting::count_occ;
use crate::counting::lemma_count_occ_push;
use crate::counting::lemma_count_occ_zero;
use crate::directives::extract_includes;
use crate::directives::targets_of;
use crate::ordering::is_include_order;
use crate::ordering::lemma_include_order_ok;
use crate::ordering::sieve;
use crate::ordering::spec_include_order;
use crate::paths::classify_ext;
use crate::paths::ext_of;
use crate::paths::file_name_of;
use crate::paths::has_stem;
use crate::paths::is_header_ext;
use crate::paths::is_source_ext;
use crate::paths::is_source_like;
use crate::paths::key_of;
use crate::paths::last_dot_pos;
use crate::paths::rel_path;
use crate::paths::relative_path;
use crate::paths::scan_name;
use crate::paths::stem_of;
use crate::paths::tag_of;
use crate::simple_graph::valid_topo;
use crate::simple_graph::SimpleGraph;
use vstd::string::StrSliceExecFns;
use vstd::string::StringExecFns;

verus! {

/// Turns a path or an include target into the canonical key that tracks it
/// in the dependency forest.
///
/// The key is the file stem, with `_hdr` appended when the extension is
/// missing or one of `h`, `hpp`, `hxx`, with `_src` appended when it is one
/// of `c`, `cpp`, `cxx`, and with nothing appended for any other extension.
/// An input without a usable file stem (empty, ending in `/`, or reducing
/// to `.` or `..`) is rejected.
pub fn keyify(path: &str) -> (r: Result<String, &'static str>)
    ensures
        r is Ok <==> has_stem(path@),
        r matches Ok(k) ==> k@ == key_of(path@),
        r matches Err(m) ==> m@ == "Cannot determine filestem of path."@,
{
    let len = path.unicode_len();
    let (start, dot, has_dot) = scan_name(path);
    let ghost name = file_name_of(path@);

    // reject inputs without a usable stem: empty names, `.` and `..`
    if start == len {
        return Err("Cannot determine filestem of path.");
    }
    if len - start == 1 && path.get_char(start) == '.' {
        proof {
            assert(name =~= seq!['.']);
        }
        return Err("Cannot determine filestem of path.");
    }
    if len - start == 2 && path.get_char(start) == '.' && path.get_char(start + 1) == '.' {
        proof {
            assert(name =~= seq!['.', '.']);
        }
        return Err("Cannot determine filestem of path.");
    }
    proof {
        assert(has_stem(path@)) by {
            if name == seq!['.'] {
                assert(name.len() == 1 && path@[start as int] == '.');
            }
            if name == seq!['.', '.'] {
                assert(name.len() == 2 && path@[start as int] == '.' && path@[start as int + 1]
                    == '.');
            }
        }
    }

    // the extension starts right after the last `.` of the name, unless
    // that `.` is the name's first character
    let stem_end: usize = if has_dot && dot > start {
        dot
    } else {
        len
    };
    let tag: &'static str = if has_dot && dot > start {
        classify_ext(path, dot + 1)
    } else {
        proof {
            reveal_strlit("_hdr");
        }
        "_hdr"
    };
    proof {
        assert(tag@ == tag_of(name)) by {
            if has_dot && dot > start {
                assert(ext_of(name) == Some(
                    path@.subrange(dot as int + 1, len as int),
                )) by {
                    assert(name.subrange(
                        last_dot_pos(name) + 1,
                        name.len() as int,
                    ) =~= path@.subrange(dot as int + 1, len as int));
                }
            }
        }
        assert(path@.subrange(start as int, stem_end as int) == stem_of(name)) by {
            if has_dot && dot > start {
                assert(path@.subrange(start as int, stem_end as int) =~= name.take(
                    last_dot_pos(name),
                ));
            } else {
                assert(path@.subrange(start as int, stem_end as int) =~= name);
            }
        }
    }
    let stem_str = path.substring_char(start, stem_end);
    let mut key = stem_str.to_owned();
    key.append(tag);
    Ok(key)
}

/// Whether a file takes part in the forest: its extension, if it has one,
/// must be header-like or source-like.
fn source_like(path: &str) -> (b: bool)
    ensures
        b == is_source_like(path@),
{
    let len = path.unicode_len();
    let (start, dot, has_dot) = scan_name(path);
    let ghost name = file_name_of(path@);
    if !(has_dot && dot > start) {
        proof {
            assert(ext_of(name) is None);
        }
        true
    } else {
        let tag = classify_ext(path, dot + 1);
        proof {
            assert(ext_of(name) == Some(path@.subrange(dot as int + 1, len as int))) by {
                assert(name.subrange(last_dot_pos(name) + 1, name.len() as int) =~= path@.subrange(
                    dot as int + 1,
                    len as int,
                ));
            }
        }
        tag.unicode_len() > 0
    }
}

/// A node in the dependency forest.
///
/// The nodes are collected from all the `#include`s found in the scanned
/// directory.  Edges are kept twice: as the keys the directives resolve to,
/// and as indices into the forest's node arena, so that the ordering
/// algorithm works in constant time per edge.
#[derive(Debug)]
pub struct DependencyNode {
    /// a unique identifier
    pub key: String,
    /// path to the file, relative to the scanned directory, if the file
    /// exists there; absent for a target only ever seen in a directive
    pub path: Option<String>,
    /// adjacency list (who depends on me), as keys
    pub used_by: Vec<String>,
    /// adjacency list (who do I depend on), as keys
    pub uses: Vec<String>,
    /// `used_by`, as indices into the forest's node arena
    pub used_by_idx: Vec<usize>,
    /// `uses`, as indices into the forest's node arena
    pub uses_idx: Vec<usize>,
}

/// The mathematical value of a [`DependencyNode`].
#[verifier::ext_equal]
pub ghost struct NodeModel {
    pub key: Seq<char>,
    pub path: Option<Seq<char>>,
    pub used_by: Seq<Seq<char>>,
    pub uses: Seq<Seq<char>>,
    pub used_by_idx: Seq<usize>,
    pub uses_idx: Seq<usize>,
}

impl View for DependencyNode {
    type V = NodeModel;

    open spec fn view(&self) -> NodeModel {
        NodeModel {
            key: self.key@,
            path: self.path.deep_view(),
            used_by: self.used_by.deep_view(),
            uses: self.uses.deep_view(),
            used_by_idx: self.used_by_idx@,
            uses_idx: self.uses_idx@,
        }
    }
}

impl DeepView for DependencyNode {
    type V = NodeModel;

    open spec fn deep_view(&self) -> NodeModel {
        self.view()
    }
}

impl Clone for DependencyNode {
    fn clone(&self) -> (r: Self)
        ensures
            r@ == self@,
    {
        let r = DependencyNode {
            key: self.key.clone(),
            path: match &self.path {
                Some(p) => Some(p.clone()),
                None => None,
            },
            used_by: self.used_by.clone(),
            uses: self.uses.clone(),
            used_by_idx: self.used_by_idx.clone(),
            uses_idx: self.uses_idx.clone(),
        };
        proof {
            assert(r.used_by.deep_view() =~= self.used_by.deep_view());
            assert(r.uses.deep_view() =~= self.uses.deep_view());
            assert(r.used_by_idx@ =~= self.used_by_idx@);
            assert(r.uses_idx@ =~= self.uses_idx@);
        }
        r
    }
}

/// The node that a key starts out as: no path, no edges.
pub open spec fn blank_node(k: Seq<char>) -> NodeModel {
    NodeModel {
        key: k,
        path: None,
        used_by: Seq::empty(),
        uses: Seq::empty(),
        used_by_idx: Seq::empty(),
        uses_idx: Seq::empty(),
    }
}

/// The first index at or after `i` whose node carries key `k`, or `-1`.
pub open spec fn key_index(nodes: Seq<NodeModel>, k: Seq<char>, i: int) -> int
    decreases nodes.len() - i,
{
    if 0 <= i < nodes.len() {
        if nodes[i].key == k {
            i
        } else {
            key_index(nodes, k, i + 1)
        }
    } else {
        -1
    }
}

/// The arena after a get-or-insert of key `k`.
pub open spec fn ensure_node(nodes: Seq<NodeModel>, k: Seq<char>) -> Seq<NodeModel> {
    if key_index(nodes, k, 0) >= 0 {
        nodes
    } else {
        nodes.push(blank_node(k))
    }
}

/// The arena after recording that node `i` depends on key `dk`: the node
/// for `dk` is created if missing, `dk` is appended to `i`'s forward edges,
/// and `i`'s key to `dk`'s reverse edges, both simultaneously.
pub open spec fn add_edge(nodes: Seq<NodeModel>, i: int, dk: Seq<char>) -> Seq<NodeModel> {
    let grown = ensure_node(nodes, dk);
    let d = key_index(grown, dk, 0);
    let a = grown[i];
    let linked = grown.update(
        i,
        NodeModel { uses: a.uses.push(dk), uses_idx: a.uses_idx.push(d as usize), ..a },
    );
    let b = linked[d];
    linked.update(
        d,
        NodeModel {
            used_by: b.used_by.push(a.key),
            used_by_idx: b.used_by_idx.push(i as usize),
            ..b
        },
    )
}

/// The arena after node `i` has recorded, in order, every target it
/// depends on; a target without a usable stem is skipped.
pub open spec fn add_edges(nodes: Seq<NodeModel>, i: int, targets: Seq<Seq<char>>) -> Seq<
    NodeModel,
>
    decreases targets.len(),
{
    if targets.len() == 0 {
        nodes
    } else {
        let prev = add_edges(nodes, i, targets.drop_last());
        if has_stem(targets.last()) {
            add_edge(prev, i, key_of(targets.last()))
        } else {
            prev
        }
    }
}

/// The arena after one file has been ingested: nothing changes for a file
/// filtered out by its extension or without a usable key; otherwise the
/// file's node is created or found, its location relative to `dir` is
/// recorded, and every target of its text is wired in, in order.
pub open spec fn spec_ingest(
    nodes: Seq<NodeModel>,
    dir: Seq<char>,
    path: Seq<char>,
    text: Seq<char>,
) -> Seq<NodeModel> {
    if !is_source_like(path) || !has_stem(path) {
        nodes
    } else {
        let k = key_of(path);
        let grown = ensure_node(nodes, k);
        let i = key_index(grown, k, 0);
        let nd = grown[i];
        let placed = grown.update(i, NodeModel { path: Some(rel_path(dir, path)), ..nd });
        add_edges(placed, i, targets_of(text))
    }
}

/// The tag suffix of a key is decided by the extension class alone: a
/// missing or header-like extension yields a key ending `_hdr`, a
/// source-like one a key ending `_src`, and any other extension leaves the
/// bare stem as the key.
pub proof fn lemma_key_tag_classes(p: Seq<char>)
    requires
        has_stem(p),
    ensures
        (ext_of(file_name_of(p)) is None || is_header_ext(ext_of(file_name_of(p)).unwrap()))
            ==> key_of(p) == stem_of(file_name_of(p)) + seq!['_', 'h', 'd', 'r'],
        (ext_of(file_name_of(p)) is Some && is_source_ext(ext_of(file_name_of(p)).unwrap()))
            ==> key_of(p) == stem_of(file_name_of(p)) + seq!['_', 's', 'r', 'c'],
        (ext_of(file_name_of(p)) is Some && !is_header_ext(ext_of(file_name_of(p)).unwrap())
            && !is_source_ext(ext_of(file_name_of(p)).unwrap())) ==> key_of(p) == stem_of(
            file_name_of(p),
        ),
{
    if ext_of(file_name_of(p)) is Some {
        let e = ext_of(file_name_of(p)).unwrap();
        if is_source_ext(e) {
            // an extension is never header-like and source-like at once:
            // the classes differ in their first character
            assert(!is_header_ext(e)) by {
                assert(e[0] == 'c');
                if is_header_ext(e) {
                    assert(e[0] == 'h');
                }
            }
        }
        if !is_header_ext(e) && !is_source_ext(e) {
            assert(stem_of(file_name_of(p)) + Seq::<char>::empty() =~= stem_of(file_name_of(p)));
        }
    }
}

/// Reciprocity of a well-formed forest: node `b`'s key stands among node
/// `a`'s forward keys exactly when node `a`'s key stands among node `b`'s
/// reverse keys.
pub proof fn lemma_reciprocity(nodes: Seq<NodeModel>, a: int, b: int)
    requires
        forest_wf(nodes),
        nodes.len() <= usize::MAX,
        0 <= a < nodes.len(),
        0 <= b < nodes.len(),
    ensures
        nodes[a].uses.contains(nodes[b].key) <==> nodes[b].used_by.contains(nodes[a].key),
{
    assert(node_wf(nodes, a));
    assert(node_wf(nodes, b));
    assert(count_occ(nodes[a].uses_idx, b as usize) == count_occ(
        nodes[b].used_by_idx,
        a as usize,
    ));
    if nodes[a].uses.contains(nodes[b].key) {
        let j = choose|j: int| 0 <= j < nodes[a].uses.len() && nodes[a].uses[j] == nodes[b].key;
        let d = nodes[a].uses_idx[j];
        assert(nodes[d as int].key == nodes[b].key);
        assert(d as int == b) by {
            if (d as int) < b {
                assert(nodes[d as int].key != nodes[b].key);
            } else if (d as int) > b {
                assert(nodes[b].key != nodes[d as int].key);
            }
        }
        assert(nodes[a].uses_idx.contains(b as usize));
        lemma_count_occ_zero(nodes[a].uses_idx, b as usize);
        lemma_count_occ_zero(nodes[b].used_by_idx, a as usize);
        assert(nodes[b].used_by_idx.contains(a as usize));
        let jj = choose|j: int|
            0 <= j < nodes[b].used_by_idx.len() && nodes[b].used_by_idx[j] == a as usize;
        assert(nodes[b].used_by[jj] == nodes[a].key);
    }
    if nodes[b].used_by.contains(nodes[a].key) {
        let j = choose|j: int|
            0 <= j < nodes[b].used_by.len() && nodes[b].used_by[j] == nodes[a].key;
        let d = nodes[b].used_by_idx[j];
        assert(nodes[d as int].key == nodes[a].key);
        assert(d as int == a) by {
            if (d as int) < a {
                assert(nodes[d as int].key != nodes[a].key);
            } else if (d as int) > a {
                assert(nodes[a].key != nodes[d as int].key);
            }
        }
        assert(nodes[b].used_by_idx.contains(a as usize));
        lemma_count_occ_zero(nodes[b].used_by_idx, a as usize);
        lemma_count_occ_zero(nodes[a].uses_idx, b as usize);
        assert(nodes[a].uses_idx.contains(b as usize));
        let jj = choose|j: int|
            0 <= j < nodes[a].uses_idx.len() && nodes[a].uses_idx[j] == b as usize;
        assert(nodes[a].uses[jj] == nodes[b].key);
    }
}

/// The adjacency structure that the arena induces: entry `i` holds node
/// `i`'s forward index edges.
pub open spec fn graph_of(nodes: Seq<NodeModel>) -> Seq<Seq<usize>> {
    nodes.map_values(|nd: NodeModel| nd.uses_idx)
}

/// Structural soundness of one node of the arena: index edges mirror key
/// edges and stay in bounds, and a node never found as a file has no
/// forward edges.
pub open spec fn node_wf(nodes: Seq<NodeModel>, i: int) -> bool {
    let nd = nodes[i];
    &&& nd.uses_idx.len() == nd.uses.len()
    &&& nd.used_by_idx.len() == nd.used_by.len()
    &&& forall|j: int|
        0 <= j < nd.uses_idx.len() ==> (#[trigger] nd.uses_idx[j]) < nodes.len()
            && nodes[nd.uses_idx[j] as int].key == nd.uses[j]
    &&& forall|j: int|
        0 <= j < nd.used_by_idx.len() ==> (#[trigger] nd.used_by_idx[j]) < nodes.len()
            && nodes[nd.used_by_idx[j] as int].key == nd.used_by[j]
    &&& (nd.path is None ==> nd.uses.len() == 0)
}

/// Well-formedness of the whole arena: keys are unique, every node is
/// structurally sound, and edges are reciprocal — node `a` depends on node
/// `b` exactly as often as node `b` records being used by node `a`.
pub open spec fn forest_wf(nodes: Seq<NodeModel>) -> bool {
    &&& forall|i: int, j: int| 0 <= i < j < nodes.len() ==> nodes[i].key != nodes[j].key
    &&& forall|i: int| 0 <= i < nodes.len() ==> node_wf(nodes, i)
    &&& forall|a: int, b: int|
        0 <= a < nodes.len() && 0 <= b < nodes.len() ==> count_occ(
            #[trigger] nodes[a].uses_idx,
            b as usize,
        ) == count_occ(#[trigger] nodes[b].used_by_idx, a as usize)
}

/// `key_index` is pinned down by the prefix of other keys it skips.
proof fn lemma_key_index(nodes: Seq<NodeModel>, k: Seq<char>, i: int, m: int)
    requires
        0 <= i <= m <= nodes.len(),
        forall|j: int| i <= j < m ==> nodes[j].key != k,
        m == nodes.len() || nodes[m].key == k,
    ensures
        key_index(nodes, k, i) == if m == nodes.len() {
            -1int
        } else {
            m
        },
    decreases m - i,
{
    if i < m {
        lemma_key_index(nodes, k, i + 1, m);
    }
}

/// One file of the scanned tree, as handed to the forest: where it lies
/// and what its text is.
pub struct SourceFile {
    /// the file's path, which must lie under the scanned directory
    pub path: String,
    /// the file's full text
    pub text: String,
}

impl View for SourceFile {
    type V = (Seq<char>, Seq<char>);

    open spec fn view(&self) -> (Seq<char>, Seq<char>) {
        (self.path@, self.text@)
    }
}

impl DeepView for SourceFile {
    type V = (Seq<char>, Seq<char>);

    open spec fn deep_view(&self) -> (Seq<char>, Seq<char>) {
        self.view()
    }
}

/// The arena after every listed file has been ingested, in order.
pub open spec fn spec_ingest_all(
    nodes: Seq<NodeModel>,
    dir: Seq<char>,
    files: Seq<(Seq<char>, Seq<char>)>,
) -> Seq<NodeModel>
    decreases files.len(),
{
    if files.len() == 0 {
        nodes
    } else {
        let prev = spec_ingest_all(nodes, dir, files.drop_last());
        spec_ingest(prev, dir, files.last().0, files.last().1)
    }
}

/// A class that implements the dependency forest, i.e. a set of trees.
///
/// The nodes live in an append-only arena; a key names a node by its
/// position there.  The forest implements [`SimpleGraph`] over the index
/// edges, which is where its ordering comes from.
#[derive(Debug)]
pub struct DependencyForest {
    /// The source directory
    pub directory: String,
    /// the node arena
    pub nodes: Vec<DependencyNode>,
}

impl View for DependencyForest {
    type V = Seq<NodeModel>;

    open spec fn view(&self) -> Seq<NodeModel> {
        self.nodes.deep_view()
    }
}

impl Default for DependencyForest {
    /// The empty forest.
    fn default() -> (r: Self)
        ensures
            r@ == Seq::<NodeModel>::empty(),
            r.directory@ == Seq::<char>::empty(),
            forest_wf(r@),
    {
        let r = DependencyForest { directory: String::new(), nodes: Vec::new() };
        proof {
            assert(r@ =~= Seq::<NodeModel>::empty());
        }
        r
    }
}

impl DependencyForest {
    /// Finds the arena index of the node carrying `key`, if any.
    fn find_index(&self, key: &String) -> (r: Option<usize>)
        ensures
            match r {
                Some(d) => d < self@.len() && self@[d as int].key == key@ && key_index(
                    self@,
                    key@,
                    0,
                ) == d as int,
                None => key_index(self@, key@, 0) == -1 && (forall|j: int|
                    0 <= j < self@.len() ==> self@[j].key != key@),
            },
    {
        let mut t: usize = 0;
        let n = self.nodes.len();
        while t < n
            invariant
                n == self@.len(),
                t <= n,
                forall|j: int| 0 <= j < t ==> self@[j].key != key@,
            decreases n - t,
        {
            if self.nodes[t].key == *key {
                proof {
                    assert(self@[t as int].key == key@);
                    lemma_key_index(self@, key@, 0, t as int);
                }
                return Some(t);
            }
            proof {
                assert(self@[t as int].key != key@);
            }
            t = t + 1;
        }
        proof {
            lemma_key_index(self@, key@, 0, n as int);
        }
        None
    }

    /// Gets the arena index for `key`, appending a blank node when the key
    /// is new.
    fn get_or_insert(&mut self, key: &String) -> (i: usize)
        requires
            forest_wf(old(self)@),
        ensures
            forest_wf(final(self)@),
            final(self)@ == ensure_node(old(self)@, key@),
            i < final(self)@.len(),
            final(self)@[i as int].key == key@,
            key_index(final(self)@, key@, 0) == i as int,
            final(self).directory == old(self).directory,
            old(self)@.len() <= final(self)@.len(),
            forall|j: int| 0 <= j < old(self)@.len() ==> final(self)@[j] == old(self)@[j],
    {
        match self.find_index(key) {
            Some(d) => d,
            None => {
                let ghost pre = self@;
                let n0 = self.nodes.len();
                let nd = DependencyNode {
                    key: key.clone(),
                    path: None,
                    used_by: Vec::new(),
                    uses: Vec::new(),
                    used_by_idx: Vec::new(),
                    uses_idx: Vec::new(),
                };
                proof {
                    assert(nd@ == blank_node(key@)) by {
                        assert(nd.used_by.deep_view() =~= Seq::<Seq<char>>::empty());
                        assert(nd.uses.deep_view() =~= Seq::<Seq<char>>::empty());
                        assert(nd.used_by_idx@ =~= Seq::<usize>::empty());
                        assert(nd.uses_idx@ =~= Seq::<usize>::empty());
                    }
                }
                self.nodes.push(nd);
                proof {
                    assert(self@ =~= pre.push(blank_node(key@)));
                    let cur = self@;
                    let w: int = n0 as int;
                    assert(pre.len() == w && pre.len() <= usize::MAX);
                    lemma_key_index(cur, key@, 0, w);
                    assert(forest_wf(cur)) by {
                        assert forall|i: int| 0 <= i < cur.len() implies node_wf(cur, i) by {
                            if i < w {
                                assert(node_wf(pre, i));
                            }
                        }
                        assert forall|a: int, b: int|
                            0 <= a < cur.len() && 0 <= b
                                < cur.len() implies count_occ(
                            #[trigger] cur[a].uses_idx,
                            b as usize,
                        ) == count_occ(#[trigger] cur[b].used_by_idx, a as usize) by {
                            if a < w && b < w {
                                assert(count_occ(pre[a].uses_idx, b as usize) == count_occ(
                                    pre[b].used_by_idx,
                                    a as usize,
                                ));
                            } else if a < w && b == w {
                                // the new node is outside every old index list
                                assert(!pre[a].uses_idx.contains(b as usize)) by {
                                    if pre[a].uses_idx.contains(b as usize) {
                                        let j = choose|j: int|
                                            0 <= j < pre[a].uses_idx.len() && pre[a].uses_idx[j]
                                                == b as usize;
                                        assert(node_wf(pre, a));
                                        assert(pre[a].uses_idx[j] < pre.len());
                                    }
                                }
                                lemma_count_occ_zero(cur[a].uses_idx, b as usize);
                                lemma_count_occ_zero(cur[b].used_by_idx, a as usize);
                            } else if a == w && b < w {
                                assert(!pre[b].used_by_idx.contains(a as usize)) by {
                                    if pre[b].used_by_idx.contains(a as usize) {
                                        let j = choose|j: int|
                                            0 <= j < pre[b].used_by_idx.len()
                                                && pre[b].used_by_idx[j] == a as usize;
                                        assert(node_wf(pre, b));
                                        assert(pre[b].used_by_idx[j] < pre.len());
                                    }
                                }
                                lemma_count_occ_zero(cur[a].uses_idx, b as usize);
                                lemma_count_occ_zero(cur[b].used_by_idx, a as usize);
                            } else {
                                lemma_count_occ_zero(cur[a].uses_idx, b as usize);
                                lemma_count_occ_zero(cur[b].used_by_idx, a as usize);
                            }
                        }
                    }
                }
                self.nodes.len() - 1
            },
        }
    }

    /// Records that node `i` depends on key `dk`: gets or inserts `dk`'s
    /// node, then appends both edge directions simultaneously, keeping the
    /// forest's reciprocity invariant.
    fn push_edge(&mut self, i: usize, dk: String)
        requires
            forest_wf(old(self)@),
            i < old(self)@.len(),
            old(self)@[i as int].path is Some,
        ensures
            forest_wf(final(self)@),
            final(self)@ == add_edge(old(self)@, i as int, dk@),
            final(self).directory == old(self).directory,
            old(self)@.len() <= final(self)@.len(),
            final(self)@[i as int].path == old(self)@[i as int].path,
    {
        let ghost pre = self@;
        let d = self.get_or_insert(&dk);
        let ghost grown = self@;
        let n_now = self.nodes.len();
        let ki = self.nodes[i].key.clone();
        let ghost a = grown[i as int];
        {
            let nd = &mut self.nodes[i];
            nd.uses.push(dk);
            nd.uses_idx.push(d);
        }
        let ghost linked = self@;
        proof {
            assert(linked =~~= grown.update(
                i as int,
                (NodeModel {
                    uses: a.uses.push(dk@),
                    uses_idx: a.uses_idx.push(d),
                    ..a
                }),
            ));
        }
        {
            let nd2 = &mut self.nodes[d];
            nd2.used_by.push(ki);
            nd2.used_by_idx.push(i);
        }
        let ghost b = linked[d as int];
        let ghost cur = self@;
        proof {
            assert(cur =~~= linked.update(
                d as int,
                (NodeModel {
                    used_by: b.used_by.push(a.key),
                    used_by_idx: b.used_by_idx.push(i),
                    ..b
                }),
            ));
            assert(cur == add_edge(pre, i as int, dk@));
            let n = grown.len();
            // keys and paths survive both updates
            assert(forall|x: int| 0 <= x < n ==> (#[trigger] cur[x]).key == grown[x].key);
            assert(grown[d as int].key == dk@);
            assert(grown[i as int].path == pre[i as int].path);
            assert(forest_wf(cur)) by {
                assert forall|x: int| 0 <= x < n implies node_wf(cur, x) by {
                    assert(node_wf(grown, x));
                    let nx = cur[x];
                    let gx = grown[x];
                    if x == i && x == d as int {
                        assert forall|j: int|
                            0 <= j < nx.uses_idx.len() implies (#[trigger] nx.uses_idx[j]) < n
                            && cur[nx.uses_idx[j] as int].key == nx.uses[j] by {
                            if j < gx.uses_idx.len() {
                                assert(gx.uses_idx[j] < n);
                            }
                        }
                        assert forall|j: int|
                            0 <= j < nx.used_by_idx.len() implies (#[trigger] nx.used_by_idx[j])
                            < n && cur[nx.used_by_idx[j] as int].key == nx.used_by[j] by {
                            if j < gx.used_by_idx.len() {
                                assert(gx.used_by_idx[j] < n);
                            }
                        }
                    } else if x == i {
                        assert forall|j: int|
                            0 <= j < nx.uses_idx.len() implies (#[trigger] nx.uses_idx[j]) < n
                            && cur[nx.uses_idx[j] as int].key == nx.uses[j] by {
                            if j < gx.uses_idx.len() {
                                assert(gx.uses_idx[j] < n);
                            }
                        }
                    } else if x == d as int {
                        assert forall|j: int|
                            0 <= j < nx.used_by_idx.len() implies (#[trigger] nx.used_by_idx[j])
                            < n && cur[nx.used_by_idx[j] as int].key == nx.used_by[j] by {
                            if j < gx.used_by_idx.len() {
                                assert(gx.used_by_idx[j] < n);
                            }
                        }
                        assert forall|j: int|
                            0 <= j < nx.uses_idx.len() implies (#[trigger] nx.uses_idx[j]) < n
                            && cur[nx.uses_idx[j] as int].key == nx.uses[j] by {
                            assert(gx.uses_idx[j] < n);
                        }
                    } else {
                        assert forall|j: int|
                            0 <= j < nx.uses_idx.len() implies (#[trigger] nx.uses_idx[j]) < n
                            && cur[nx.uses_idx[j] as int].key == nx.uses[j] by {
                            assert(gx.uses_idx[j] < n);
                        }
                        assert forall|j: int|
                            0 <= j < nx.used_by_idx.len() implies (#[trigger] nx.used_by_idx[j])
                            < n && cur[nx.used_by_idx[j] as int].key == nx.used_by[j] by {
                            assert(gx.used_by_idx[j] < n);
                        }
                    }
                }
                assert forall|x: int, y: int|
                    0 <= x < n && 0 <= y < n implies count_occ(
                    #[trigger] cur[x].uses_idx,
                    y as usize,
                ) == count_occ(#[trigger] cur[y].used_by_idx, x as usize) by {
                    assert(n == n_now as int);
                    assert((y as usize) as int == y && (x as usize) as int == x);
                    assert(count_occ(grown[x].uses_idx, y as usize) == count_occ(
                        grown[y].used_by_idx,
                        x as usize,
                    ));
                    assert(cur[x].uses_idx == if x == i as int {
                        grown[x].uses_idx.push(d)
                    } else {
                        grown[x].uses_idx
                    });
                    assert(cur[y].used_by_idx == if y == d as int {
                        grown[y].used_by_idx.push(i)
                    } else {
                        grown[y].used_by_idx
                    });
                    if x == i as int {
                        lemma_count_occ_push(grown[x].uses_idx, d, y as usize);
                    }
                    if y == d as int {
                        lemma_count_occ_push(grown[y].used_by_idx, i, x as usize);
                    }
                }
            }
        }
    }

    /// Adds all the `#include`s of one file to the forest.
    ///
    /// The file must lie under the forest's directory; its text is scanned
    /// line by line for directives.  A file filtered out by its extension,
    /// or whose path yields no key, leaves the forest unchanged; a single
    /// target without a usable key is skipped while the file's other
    /// targets still count.
    pub fn add_includes_from_file(&mut self, path: &str, text: &str)
        requires
            forest_wf(old(self)@),
            old(self).directory@.is_prefix_of(path@),
        ensures
            forest_wf(final(self)@),
            final(self).directory == old(self).directory,
            final(self)@ == spec_ingest(old(self)@, old(self).directory@, path@, text@),
    {
        if !source_like(path) {
            return ;
        }
        let key = match keyify(path) {
            Ok(k) => k,
            Err(_) => {
                return ;
            },
        };
        let ghost pre = self@;
        let ghost dirv = self.directory@;
        let i = self.get_or_insert(&key);
        let ghost grown = self@;
        let rel = relative_path(self.directory.as_str(), path);
        {
            let nd = &mut self.nodes[i];
            nd.path = Some(rel);
        }
        let ghost based = self@;
        proof {
            assert(based =~~= grown.update(
                i as int,
                (NodeModel { path: Some(rel_path(dirv, path@)), ..grown[i as int] }),
            ));
            assert(forest_wf(based)) by {
                assert forall|x: int| 0 <= x < based.len() implies node_wf(based, x) by {
                    assert(node_wf(grown, x));
                    assert forall|j: int|
                        0 <= j < based[x].uses_idx.len() implies (#[trigger] based[x].uses_idx[j])
                        < based.len() && based[based[x].uses_idx[j] as int].key
                        == based[x].uses[j] by {
                        assert(grown[x].uses_idx[j] < grown.len());
                    }
                    assert forall|j: int|
                        0 <= j < based[x].used_by_idx.len() implies (
                    #[trigger] based[x].used_by_idx[j]) < based.len()
                        && based[based[x].used_by_idx[j] as int].key == based[x].used_by[j] by {
                        assert(grown[x].used_by_idx[j] < grown.len());
                    }
                }
                assert forall|a: int, b: int|
                    0 <= a < based.len() && 0 <= b < based.len() implies count_occ(
                    #[trigger] based[a].uses_idx,
                    b as usize,
                ) == count_occ(#[trigger] based[b].used_by_idx, a as usize) by {
                    assert(based[a].uses_idx == grown[a].uses_idx);
                    assert(based[b].used_by_idx == grown[b].used_by_idx);
                }
            }
        }
        let deps = extract_includes(text);
        let ghost targets = targets_of(text@);
        let dn = deps.len();
        let mut t: usize = 0;
        proof {
            assert(targets.take(0) =~= Seq::<Seq<char>>::empty());
        }
        while t < dn
            invariant
                forest_wf(self@),
                self.directory@ == dirv,
                self.directory == old(self).directory,
                deps.deep_view() == targets,
                dn == deps@.len(),
                t <= dn,
                i < self@.len(),
                self@[i as int].path is Some,
                self@ == add_edges(based, i as int, targets.take(t as int)),
            decreases dn - t,
        {
            let dep = &deps[t];
            let ghost before = self@;
            match keyify(dep.as_str()) {
                Ok(dkey) => {
                    self.push_edge(i, dkey);
                    proof {
                        assert(targets.take(t as int + 1).drop_last() =~= targets.take(t as int));
                        assert(targets.take(t as int + 1).last() == dep@);
                        assert(self@ == add_edges(based, i as int, targets.take(t as int + 1)));
                    }
                },
                Err(_) => {
                    proof {
                        assert(targets.take(t as int + 1).drop_last() =~= targets.take(t as int));
                        assert(targets.take(t as int + 1).last() == dep@);
                        assert(!has_stem(dep@));
                        assert(self@ == add_edges(based, i as int, targets.take(t as int + 1)));
                    }
                },
            }
            t = t + 1;
        }
        proof {
            assert(targets.take(dn as int) =~= targets);
        }
    }

    /// Fills the dependency forest from the header and source files of a
    /// directory, whose enumerated contents are handed in.
    ///
    /// Records `dir` for relative-path computation, then ingests every
    /// file in order.  Each file's path must lie under `dir`.  Nothing is
    /// reset first: refilling from another tree mixes the results, which
    /// is the caller's responsibility.
    pub fn fill_from_directory(&mut self, dir: &str, files: &Vec<SourceFile>)
        requires
            forest_wf(old(self)@),
            forall|t: int| 0 <= t < files@.len() ==> dir@.is_prefix_of((#[trigger] files@[t]).path@),
        ensures
            forest_wf(final(self)@),
            final(self).directory@ == dir@,
            final(self)@ == spec_ingest_all(old(self)@, dir@, files.deep_view()),
    {
        self.directory = dir.to_owned();
        let ghost pre = self@;
        let ghost fv = files.deep_view();
        let n = files.len();
        let mut t: usize = 0;
        proof {
            assert(fv.take(0) =~= Seq::<(Seq<char>, Seq<char>)>::empty());
        }
        while t < n
            invariant
                forest_wf(self@),
                self.directory@ == dir@,
                n == files@.len(),
                fv == files.deep_view(),
                forall|q: int|
                    0 <= q < files@.len() ==> dir@.is_prefix_of((#[trigger] files@[q]).path@),
                t <= n,
                self@ == spec_ingest_all(pre, dir@, fv.take(t as int)),
            decreases n - t,
        {
            let f = &files[t];
            self.add_includes_from_file(f.path.as_str(), f.text.as_str());
            proof {
                assert(fv.take(t as int + 1).drop_last() =~= fv.take(t as int));
                assert(fv.take(t as int + 1).last() == (f.path@, f.text@));
                assert(self@ == spec_ingest_all(pre, dir@, fv.take(t as int + 1)));
            }
            t = t + 1;
        }
        proof {
            assert(fv.take(n as int) =~= fv);
        }
    }

    /// The number of nodes in the dependency forest.
    pub fn len(&self) -> (n: usize)
        ensures
            n == self@.len(),
    {
        self.nodes.len()
    }

    /// The arena index of the node carrying `key`, if any.
    pub fn index_of(&self, key: &str) -> (r: Option<usize>)
        ensures
            match r {
                Some(d) => d < self@.len() && self@[d as int].key == key@,
                None => forall|j: int| 0 <= j < self@.len() ==> self@[j].key != key@,
            },
    {
        let owned = key.to_owned();
        self.find_index(&owned)
    }

    /// Direct read access to the node carrying `key`, for ad-hoc queries.
    pub fn get_node(&self, key: &str) -> (r: Option<&DependencyNode>)
        ensures
            match r {
                Some(nd) => exists|d: int|
                    0 <= d < self@.len() && self@[d] == nd@ && nd@.key == key@,
                None => forall|j: int| 0 <= j < self@.len() ==> self@[j].key != key@,
            },
    {
        let owned = key.to_owned();
        match self.find_index(&owned) {
            Some(d) => {
                let nd = &self.nodes[d];
                proof {
                    assert(0 <= d < self@.len() && self@[d as int] == nd@ && nd@.key == key@);
                }
                Some(nd)
            },
            None => None,
        }
    }

    /// The include order of the scanned tree: every node, dependencies
    /// before their dependents.
    ///
    /// With `with_external` set, the external nodes — include targets never
    /// found as files under the directory — come first, before every real
    /// file; with it clear, only the real files are returned.  An error is
    /// returned exactly when the forest holds a circular chain of includes.
    pub fn include_order(&self, with_external: bool) -> (r: Result<
        Vec<DependencyNode>,
        &'static str,
    >)
        requires
            forest_wf(self@),
        ensures
            r is Ok ==> is_include_order(self@, (r->Ok_0).deep_view(), with_external),
            r is Ok ==> exists|ord: Seq<usize>|
                valid_topo(graph_of(self@), ord) && (r->Ok_0).deep_view() == spec_include_order(
                    self@,
                    ord,
                    with_external,
                ),
            r is Err ==> forall|s: Seq<usize>| !valid_topo(graph_of(self@), s),
    {
        let order = match self.get_topological_order() {
            Ok(o) => o,
            Err(m) => {
                proof {
                    assert forall|s: Seq<usize>| !valid_topo(graph_of(self@), s) by {
                        assert(!valid_topo(self.graph(), s));
                    }
                }
                return Err(m);
            },
        };
        let ghost ordv = order@;
        let n = order.len();
        let mut v: Vec<DependencyNode> = Vec::new();
        if with_external {
            let mut p: usize = 0;
            proof {
                assert(ordv.take(0) =~= Seq::<usize>::empty());
                assert(v.deep_view() =~= sieve(self@, ordv.take(0), true).map_values(
                    |x: usize| self@[x as int],
                ));
            }
            while p < n
                invariant
                    forest_wf(self@),
                    valid_topo(graph_of(self@), ordv),
                    ordv == order@,
                    n == order@.len(),
                    n == self.nodes@.len(),
                    p <= n,
                    v.deep_view() == sieve(self@, ordv.take(p as int), true).map_values(
                        |x: usize| self@[x as int],
                    ),
                decreases n - p,
            {
                let idx = order[p];
                let ghost dv0 = v.deep_view();
                let nd = &self.nodes[idx];
                if nd.path.is_none() {
                    v.push(nd.clone());
                }
                proof {
                    assert(ordv.take(p as int + 1).drop_last() =~= ordv.take(p as int));
                    assert(ordv.take(p as int + 1).last() == idx);
                    if self@[idx as int].path is None {
                        assert(v.deep_view() =~= dv0.push(self@[idx as int]));
                        assert(v.deep_view() =~= sieve(self@, ordv.take(p as int + 1), true)
                            .map_values(|x: usize| self@[x as int]));
                    } else {
                        assert(v.deep_view() =~= sieve(self@, ordv.take(p as int + 1), true)
                            .map_values(|x: usize| self@[x as int]));
                    }
                }
                p = p + 1;
            }
        }
        let ghost base = v.deep_view();
        proof {
            if with_external {
                assert(ordv.take(n as int) =~= ordv);
            }
        }
        let mut p: usize = 0;
        proof {
            assert(ordv.take(0) =~= Seq::<usize>::empty());
            assert(v.deep_view() =~= base + sieve(self@, ordv.take(0), false).map_values(
                |x: usize| self@[x as int],
            ));
        }
        while p < n
            invariant
                forest_wf(self@),
                valid_topo(graph_of(self@), ordv),
                ordv == order@,
                n == order@.len(),
                n == self.nodes@.len(),
                p <= n,
                v.deep_view() == base + sieve(self@, ordv.take(p as int), false).map_values(
                    |x: usize| self@[x as int],
                ),
            decreases n - p,
        {
            let idx = order[p];
            let ghost dv0 = v.deep_view();
            let nd = &self.nodes[idx];
            if nd.path.is_some() {
                v.push(nd.clone());
            }
            proof {
                assert(ordv.take(p as int + 1).drop_last() =~= ordv.take(p as int));
                assert(ordv.take(p as int + 1).last() == idx);
                if self@[idx as int].path is Some {
                    assert(v.deep_view() =~= dv0.push(self@[idx as int]));
                    assert(v.deep_view() =~= base + sieve(self@, ordv.take(p as int + 1), false)
                        .map_values(|x: usize| self@[x as int]));
                } else {
                    assert(v.deep_view() =~= base + sieve(self@, ordv.take(p as int + 1), false)
                        .map_values(|x: usize| self@[x as int]));
                }
            }
            p = p + 1;
        }
        proof {
            assert(ordv.take(n as int) =~= ordv);
            assert(v.deep_view() == spec_include_order(self@, ordv, with_external)) by {
                if !with_external {
                    assert(base =~= Seq::<NodeModel>::empty());
                    assert(v.deep_view() =~= sieve(self@, ordv, false).map_values(
                        |x: usize| self@[x as int],
                    ));
                }
            }
            lemma_include_order_ok(self@, ordv, with_external);
        }
        Ok(v)
    }
}

impl SimpleGraph for DependencyForest {
    /// The adjacency structure is the arena's forward index edges.
    open spec fn graph(&self) -> Seq<Seq<usize>> {
        graph_of(self@)
    }

    open spec fn wf(&self) -> bool {
        forest_wf(self@)
    }

    proof fn wf_implies_bounds(&self) {
        let g = self.graph();
        assert forall|i: int, j: int|
            0 <= i < g.len() && 0 <= j < g[i].len() implies (#[trigger] g[i][j]) < g.len() by {
            assert(node_wf(self@, i));
            assert(self@[i].uses_idx[j] < self@.len());
        }
    }

    fn node_count(&self) -> (n: usize) {
        self.nodes.len()
    }

    fn children(&self, i: usize) -> (v: Vec<usize>) {
        let v = self.nodes[i].uses_idx.clone();
        proof {
            assert(v@ =~= self.graph()[i as int]);
        }
        v
    }

    /// The forest keeps a direct reverse-edge index, so `ancestors` is a
    /// plain lookup rather than the default scan of every adjacency list.
    fn ancestors(&self, i: usize) -> (v: Vec<usize>) {
        let v = self.nodes[i].used_by_idx.clone();
        proof {
            assert(v@ =~= self@[i as int].used_by_idx);
            assert(node_wf(self@, i as int));
            assert forall|j: usize|
                j < self.graph().len() implies #[trigger] count_occ(v@, j) == count_occ(
                self.graph()[j as int],
                i,
            ) by {
                assert(count_occ(self@[j as int].uses_idx, i) == count_occ(
                    self@[i as int].used_by_idx,
                    j,
                )) by {
                    assert((i as int) as usize == i && (j as int) as usize == j);
                    assert(count_occ(self@[j as int].uses_idx, (i as int) as usize) == count_occ(
                        self@[i as int].used_by_idx,
                        (j as int) as usize,
                    ));
                }
                assert(self.graph()[j as int] == self@[j as int].uses_idx);
            }
        }
        v
    }
}

} // verus!
