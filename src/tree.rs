//! A directory tree as read from disk, and the search for the build-output
//! folders of the projects in it.

use vstd::prelude::*;

use crate::target::TargetItem;

verus! {

/// A moment in time: whole seconds since the Unix epoch and the nanoseconds
/// past them.
#[derive(Debug, Clone, Copy, PartialEq, Eq, Structural)]
pub struct Timestamp {
    pub secs: i64,
    pub nanos: u32,
}

/// What an entry of a directory is.
#[derive(Debug, Clone, Copy, PartialEq, Eq)]
pub enum NodeKind {
    /// A regular file, with its length when it could be read.
    File { size: Option<u64> },
    /// A directory: whether its entries could be listed, and its last
    /// modification time when it could be read.
    Dir { listed: bool, modified: Option<Timestamp> },
    /// Anything else: a symbolic link, a socket, a device.
    Other,
}

/// One entry of the tree. `parent` is the index of the directory that holds
/// it; the root's is unused.
#[derive(Debug)]
pub struct Node {
    pub name: String,
    pub parent: usize,
    pub kind: NodeKind,
}

/// A directory tree as a list of entries in which every entry comes after
/// the directory that holds it. Entry 0 is the root directory, named by the
/// path the walk started from.
pub struct DirTree {
    nodes: Vec<Node>,
    /// For each entry, the indices of the entries directly inside it.
    kids: Vec<Vec<usize>>,
}

/// What a reported build-output folder is: its path, as the names from the
/// root down, the total size of its files and its modification time.
pub type TargetView = (Seq<Seq<char>>, u64, Timestamp);

/// Why a scan could not report a build-output folder it found.
#[derive(Debug, Clone, Copy, PartialEq, Eq, Structural)]
pub enum ScanError {
    /// A directory or a file inside the folder could not be read.
    Unreadable,
    /// The folder's modification time could not be read.
    NoModifiedTime,
    /// The folder's size does not fit in 64 bits.
    TooLarge,
}

/// The name of a project's manifest file.
pub open spec fn manifest_name() -> Seq<char> {
    seq!['C', 'a', 'r', 'g', 'o', '.', 't', 'o', 'm', 'l']
}

/// The name of a project's build-output folder.
pub open spec fn build_dir_name() -> Seq<char> {
    seq!['t', 'a', 'r', 'g', 'e', 't']
}

pub open spec fn is_dir(k: NodeKind) -> bool {
    k is Dir
}

pub open spec fn is_listed_dir(k: NodeKind) -> bool {
    match k {
        NodeKind::Dir { listed, .. } => listed,
        _ => false,
    }
}

pub open spec fn is_file(k: NodeKind) -> bool {
    k is File
}

/// Every entry but the root sits in a listed directory that comes before it,
/// and no two entries of one directory have the same name.
pub open spec fn tree_wf(nodes: Seq<Node>) -> bool {
    &&& nodes.len() > 0
    &&& is_dir(nodes[0].kind)
    &&& forall|i: int|
        0 < i < nodes.len() ==> {
            &&& #[trigger] nodes[i].parent < i
            &&& is_listed_dir(nodes[nodes[i].parent as int].kind)
        }
    &&& forall|i: int, j: int|
        0 < i < j < nodes.len() && #[trigger] nodes[i].parent == #[trigger] nodes[j].parent
            ==> nodes[i].name@ != nodes[j].name@
}

/// Entry `i` lies in directory `d` itself (not deeper).
pub open spec fn is_child(nodes: Seq<Node>, i: int, d: int) -> bool {
    0 < i < nodes.len() && nodes[i].parent == d
}

/// Directory `d` directly holds a manifest file.
pub open spec fn has_manifest(nodes: Seq<Node>, d: int) -> bool {
    exists|f: int|
        #![trigger nodes[f]]
        is_child(nodes, f, d) && is_file(nodes[f].kind) && nodes[f].name@ == manifest_name()
}

/// Directory `d` directly holds a build-output folder.
pub open spec fn has_build_dir(nodes: Seq<Node>, d: int) -> bool {
    exists|t: int|
        #![trigger nodes[t]]
        is_child(nodes, t, d) && is_dir(nodes[t].kind) && nodes[t].name@ == build_dir_name()
}

/// Directory `d` is the root of a project: it directly holds both a manifest
/// file and a build-output folder.
pub open spec fn is_project_root(nodes: Seq<Node>, d: int) -> bool {
    0 <= d < nodes.len() && is_dir(nodes[d].kind) && has_manifest(nodes, d) && has_build_dir(
        nodes,
        d,
    )
}

/// Entry `t` is the build-output folder of a project root.
pub open spec fn is_build_output(nodes: Seq<Node>, t: int) -> bool {
    &&& 0 < t < nodes.len()
    &&& is_dir(nodes[t].kind)
    &&& nodes[t].name@ == build_dir_name()
    &&& has_manifest(nodes, nodes[t].parent as int)
}

/// The build-output folders among the first `k` entries, in order.
pub open spec fn build_outputs(nodes: Seq<Node>, k: int) -> Seq<int>
    decreases k,
{
    if k <= 0 {
        Seq::empty()
    } else if is_build_output(nodes, k - 1) {
        build_outputs(nodes, k - 1).push(k - 1)
    } else {
        build_outputs(nodes, k - 1)
    }
}

/// Entry `i` is `t` or lies somewhere below it.
pub open spec fn is_within(nodes: Seq<Node>, i: int, t: int) -> bool
    decreases i,
{
    if i == t {
        true
    } else if i <= t || i >= nodes.len() || nodes[i].parent >= i {
        false
    } else {
        is_within(nodes, nodes[i].parent as int, t)
    }
}

/// The size of a regular file whose size is known, else 0.
pub open spec fn file_size(k: NodeKind) -> nat {
    match k {
        NodeKind::File { size: Some(s) } => s as nat,
        _ => 0,
    }
}

/// An entry could be read in full: a listed directory, a file whose size is
/// known, or anything else.
pub open spec fn is_readable(k: NodeKind) -> bool {
    match k {
        NodeKind::Dir { listed, .. } => listed,
        NodeKind::File { size } => size is Some,
        NodeKind::Other => true,
    }
}

/// The sum of the sizes of the regular files among the first `k` entries
/// that lie within `t`.
pub open spec fn size_within(nodes: Seq<Node>, t: int, k: int) -> nat
    decreases k,
{
    if k <= 0 {
        0
    } else {
        size_within(nodes, t, k - 1) + if is_within(nodes, k - 1, t) {
            file_size(nodes[k - 1].kind)
        } else {
            0
        }
    }
}

/// Everything within `t` could be read.
pub open spec fn readable_within(nodes: Seq<Node>, t: int) -> bool {
    forall|i: int| 0 <= i < nodes.len() && #[trigger] is_within(nodes, i, t) ==> is_readable(nodes[i].kind)
}

/// The names from the root down to entry `i`.
pub open spec fn path_of(nodes: Seq<Node>, i: int) -> Seq<Seq<char>>
    decreases i,
{
    if i <= 0 || i >= nodes.len() || nodes[i].parent >= i {
        seq![nodes[0].name@]
    } else {
        path_of(nodes, nodes[i].parent as int).push(nodes[i].name@)
    }
}

pub open spec fn modified_of(k: NodeKind) -> Option<Timestamp> {
    match k {
        NodeKind::Dir { modified, .. } => modified,
        _ => None,
    }
}

/// What is reported of build-output folder `t`, or why it cannot be.
pub open spec fn target_record(nodes: Seq<Node>, t: int) -> Result<TargetView, ScanError> {
    if !readable_within(nodes, t) {
        Err(ScanError::Unreadable)
    } else if modified_of(nodes[t].kind) is None {
        Err(ScanError::NoModifiedTime)
    } else if size_within(nodes, t, nodes.len() as int) > u64::MAX {
        Err(ScanError::TooLarge)
    } else {
        Ok(
            (
                path_of(nodes, t),
                size_within(nodes, t, nodes.len() as int) as u64,
                modified_of(nodes[t].kind)->Some_0,
            ),
        )
    }
}


impl View for DirTree {
    type V = Seq<Node>;

    closed spec fn view(&self) -> Seq<Node> {
        self.nodes@
    }
}

fn kind_is_listed_dir(k: &NodeKind) -> (r: bool)
    ensures
        r == is_listed_dir(*k),
{
    match k {
        NodeKind::Dir { listed, .. } => *listed,
        _ => false,
    }
}

impl DirTree {
    pub open spec fn wf(&self) -> bool {
        tree_wf(self@) && self.kids_wf()
    }

    /// The child lists name exactly the entries of each directory.
    pub closed spec fn kids_wf(&self) -> bool {
        &&& self.kids@.len() == self.nodes@.len()
        &&& forall|d: int, k: int|
            0 <= d < self.kids@.len() && 0 <= k < self.kids@[d]@.len() ==> {
                let c = #[trigger] self.kids@[d]@[k] as int;
                &&& 0 < c < self.nodes@.len()
                &&& self.nodes@[c].parent == d
            }
        &&& forall|i: int|
            0 < i < self.nodes@.len() ==> self.kids@[#[trigger] self.nodes@[i].parent as int]@.contains(
                i as usize,
            )
    }

    /// A tree that holds only its root directory.
    pub fn new(root: String, listed: bool, modified: Option<Timestamp>) -> (r: DirTree)
        ensures
            r.wf(),
            r@.len() == 1,
            r@[0].name@ == root@,
            r@[0].kind == (NodeKind::Dir { listed, modified }),
    {
        let mut nodes: Vec<Node> = Vec::new();
        nodes.push(Node { name: root, parent: 0, kind: NodeKind::Dir { listed, modified } });
        let mut kids: Vec<Vec<usize>> = Vec::new();
        kids.push(Vec::new());
        DirTree { nodes, kids }
    }

    /// The number of entries, the root included.
    pub fn len(&self) -> (r: usize)
        ensures
            r == self@.len(),
    {
        self.nodes.len()
    }

    /// Adds an entry to directory `parent` and returns its index, or returns
    /// `None` and changes nothing when `parent` is not a listed directory of
    /// the tree or already holds an entry of that name.
    pub fn add(&mut self, parent: usize, name: String, kind: NodeKind) -> (r: Option<usize>)
        requires
            old(self).wf(),
        ensures
            final(self).wf(),
            can_add(old(self)@, parent as int, name@) ==> {
                &&& r == Some(old(self)@.len() as usize)
                &&& final(self)@.len() == old(self)@.len() + 1
                &&& final(self)@.take(old(self)@.len() as int) == old(self)@
                &&& final(self)@.last().name@ == name@
                &&& final(self)@.last().parent == parent
                &&& final(self)@.last().kind == kind
            },
            !can_add(old(self)@, parent as int, name@) ==> {
                &&& r is None
                &&& final(self)@ == old(self)@
            },
    {
        if parent >= self.nodes.len() || !kind_is_listed_dir(&self.nodes[parent].kind) {
            return None;
        }
        let m = self.kids[parent].len();
        let mut k: usize = 0;
        while k < m
            invariant
                *old(self) == *self,
                self.wf(),
                parent < self@.len(),
                m == self.kids@[parent as int]@.len(),
                forall|q: int|
                    0 <= q < k ==> self@[#[trigger] self.kids@[parent as int]@[q] as int].name@
                        != name@,
            decreases m - k,
        {
            let c = self.kids[parent][k];
            if self.nodes[c].name == name {
                assert(is_child(self@, c as int, parent as int));
                return None;
            }
            k = k + 1;
        }
        proof {
            assert forall|j: int| is_child(self@, j, parent as int) implies self@[j].name@
                != name@ by {
                assert(self.kids@[self@[j].parent as int]@.contains(j as usize));
                let q = choose|q: int|
                    0 <= q < m && self.kids@[parent as int]@[q] == j as usize;
                assert(self@[self.kids@[parent as int]@[q] as int].name@ != name@);
            }
        }
        let i = self.nodes.len();
        let ghost old_nodes = self.nodes@;
        let ghost old_kids = self.kids@;
        self.nodes.push(Node { name, parent, kind });
        self.kids[parent].push(i);
        self.kids.push(Vec::new());
        proof {
            let nodes = self.nodes@;
            assert(nodes.take(i as int) =~= old_nodes);
            assert forall|j: int| 0 < j < nodes.len() implies {
                &&& #[trigger] nodes[j].parent < j
                &&& is_listed_dir(nodes[nodes[j].parent as int].kind)
            } by {
                if j < i {
                    assert(nodes[j] == old_nodes[j]);
                }
            }
            assert forall|a: int, b: int|
                0 < a < b < nodes.len() && #[trigger] nodes[a].parent == #[trigger] nodes[b].parent
                    implies nodes[a].name@ != nodes[b].name@ by {
                assert(nodes[a] == old_nodes[a]);
                if b < i {
                    assert(nodes[b] == old_nodes[b]);
                } else {
                    assert(is_child(old_nodes, a, parent as int));
                }
            }
            assert forall|d: int, k: int|
                0 <= d < self.kids@.len() && 0 <= k < self.kids@[d]@.len() implies {
                    let c = #[trigger] self.kids@[d]@[k] as int;
                    &&& 0 < c < self.nodes@.len()
                    &&& self.nodes@[c].parent == d
                } by {
                if d < i && d != parent {
                    assert(self.kids@[d] == old_kids[d]);
                    assert(nodes[old_kids[d]@[k] as int] == old_nodes[old_kids[d]@[k] as int]);
                } else if d == parent {
                    if k < old_kids[d]@.len() {
                        assert(self.kids@[d]@[k] == old_kids[d]@[k]);
                        assert(nodes[old_kids[d]@[k] as int] == old_nodes[old_kids[d]@[k] as int]);
                    }
                }
            }
            assert forall|j: int| 0 < j < nodes.len() implies self.kids@[
                #[trigger] nodes[j].parent as int]@.contains(j as usize) by {
                if j < i {
                    assert(nodes[j] == old_nodes[j]);
                    let p = nodes[j].parent as int;
                    assert(old_kids[p]@.contains(j as usize));
                    let q = choose|q: int| 0 <= q < old_kids[p]@.len() && old_kids[p]@[q] == j as usize;
                    if p == parent {
                        assert(self.kids@[p]@[q] == j as usize);
                    } else {
                        assert(self.kids@[p] == old_kids[p]);
                    }
                } else {
                    assert(self.kids@[parent as int]@.last() == i);
                }
            }
        }
        Some(i)
    }
}

/// An entry named `name` can go into directory `d`: it is a listed
/// directory that holds no entry of that name yet.
pub open spec fn can_add(nodes: Seq<Node>, d: int, name: Seq<char>) -> bool {
    &&& 0 <= d < nodes.len()
    &&& is_listed_dir(nodes[d].kind)
    &&& forall|j: int| #[trigger] is_child(nodes, j, d) ==> nodes[j].name@ != name
}

impl DirTree {
    /// Whether directory `d` directly holds a file named `manifest`.
    fn has_manifest_at(&self, d: usize, manifest: &String) -> (r: bool)
        requires
            manifest@ == manifest_name(),
        ensures
            r == has_manifest(self@, d as int),
    {
        let n = self.nodes.len();
        let mut f: usize = 1;
        while f < n
            invariant
                n == self@.len(),
                1 <= f,
                manifest@ == manifest_name(),
                forall|g: int|
                    #![trigger self@[g]]
                    1 <= g < f ==> !(is_child(self@, g, d as int) && is_file(self@[g].kind)
                        && self@[g].name@ == manifest_name()),
            decreases n - f,
        {
            let node = &self.nodes[f];
            if node.parent == d && matches!(node.kind, NodeKind::File { .. }) && node.name == *manifest {
                assert(is_child(self@, f as int, d as int) && is_file(self@[f as int].kind)
                    && self@[f as int].name@ == manifest_name());
                return true;
            }
            f = f + 1;
        }
        false
    }

    /// Whether entry `t` is the build-output folder of a project root.
    fn is_build_output_at(&self, t: usize, manifest: &String, build: &String) -> (r: bool)
        requires
            manifest@ == manifest_name(),
            build@ == build_dir_name(),
        ensures
            r == is_build_output(self@, t as int),
    {
        if t == 0 || t >= self.nodes.len() {
            return false;
        }
        let node = &self.nodes[t];
        matches!(node.kind, NodeKind::Dir { .. }) && node.name == *build && self.has_manifest_at(node.parent, manifest)
    }

    /// The names from the root down to entry `t`.
    fn path_to(&self, t: usize) -> (r: Vec<String>)
        requires
            self.wf(),
            t < self@.len(),
        ensures
            r.deep_view() == path_of(self@, t as int),
    {
        let mut comps: Vec<String> = Vec::new();
        let mut j = t;
        while j > 0
            invariant
                self.wf(),
                j < self@.len(),
                path_of(self@, t as int) == path_of(self@, j as int) + comps.deep_view(),
            decreases j,
        {
            let ghost before = comps.deep_view();
            comps.insert(0, self.nodes[j].name.clone());
            proof {
                assert(comps.deep_view() =~= seq![self@[j as int].name@] + before);
                assert(path_of(self@, j as int) == path_of(self@, self@[j as int].parent as int).push(
                    self@[j as int].name@,
                ));
                assert(path_of(self@, t as int) =~= path_of(self@, self@[j as int].parent as int)
                    + comps.deep_view());
            }
            j = self.nodes[j].parent;
        }
        comps.insert(0, self.nodes[0].name.clone());
        assert(comps.deep_view() =~= path_of(self@, t as int));
        comps
    }

    /// What is reported of build-output folder `t`.
    fn record(&self, t: usize) -> (r: Result<TargetItem, ScanError>)
        requires
            self.wf(),
            0 < t < self@.len(),
        ensures
            match r {
                Ok(item) => target_record(self@, t as int) == Ok::<TargetView, ScanError>(item@),
                Err(e) => target_record(self@, t as int) == Err::<TargetView, ScanError>(e),
            },
    {
        let n = self.nodes.len();
        let mut within: Vec<bool> = Vec::new();
        let mut total: u128 = 0;
        let mut readable = true;
        let mut i: usize = 0;
        while i < n
            invariant
                self.wf(),
                n == self@.len(),
                0 < t < n,
                i <= n,
                within@.len() == i,
                forall|j: int| 0 <= j < i ==> within@[j] == is_within(self@, j, t as int),
                total == size_within(self@, t as int, i as int),
                total <= i * 0xffff_ffff_ffff_ffffu128,
                readable == (forall|j: int|
                    0 <= j < i && #[trigger] is_within(self@, j, t as int) ==> is_readable(
                        self@[j].kind,
                    )),
            decreases n - i,
        {
            let node = &self.nodes[i];
            let w = i == t || (i > t && within[node.parent]);
            assert(w == is_within(self@, i as int, t as int));
            within.push(w);
            if w {
                match node.kind {
                    NodeKind::File { size: Some(s) } => {
                        total = total + s as u128;
                    },
                    NodeKind::File { size: None } => {
                        readable = false;
                    },
                    NodeKind::Dir { listed, .. } => {
                        if !listed {
                            readable = false;
                        }
                    },
                    NodeKind::Other => {},
                }
            }
            proof {
                assert(total <= (i + 1) * 0xffff_ffff_ffff_ffffu128) by (nonlinear_arith)
                    requires
                        total <= i * 0xffff_ffff_ffff_ffffu128 + 0xffff_ffff_ffff_ffffu128,
                ;
                assert(readable == (forall|j: int|
                    0 <= j < i + 1 && #[trigger] is_within(self@, j, t as int) ==> is_readable(
                        self@[j].kind,
                    ))) by {
                    if !readable {
                        if !is_readable(self@[i as int].kind) && w {
                        } else {
                            let j = choose|j: int|
                                0 <= j < i && #[trigger] is_within(self@, j, t as int)
                                    && !is_readable(self@[j].kind);
                        }
                    }
                }
            }
            i = i + 1;
        }
        if !readable {
            assert(!readable_within(self@, t as int));
            return Err(ScanError::Unreadable);
        }
        assert(readable_within(self@, t as int));
        let time = match self.nodes[t].kind {
            NodeKind::Dir { modified: Some(m), .. } => m,
            _ => {
                return Err(ScanError::NoModifiedTime);
            },
        };
        if total > 0xffff_ffff_ffff_ffffu128 {
            return Err(ScanError::TooLarge);
        }
        let path = self.path_to(t);
        Ok(TargetItem::new(path, total as u64, time))
    }

    /// Finds the build-output folder of every project root in the tree: every
    /// directory named `target` that sits beside a regular file named
    /// `Cargo.toml`, in the order of the tree's entries. Fails on the first
    /// such folder that cannot be reported.
    pub fn find_targets(&self) -> (r: Result<Vec<TargetItem>, ScanError>)
        requires
            self.wf(),
        ensures
            r is Ok <==> forall|t: int|
                #![trigger target_record(self@, t)]
                is_build_output(self@, t) ==> target_record(self@, t) is Ok,
            r is Ok ==> {
                let outs = build_outputs(self@, self@.len() as int);
                &&& r->Ok_0@.len() == outs.len()
                &&& forall|k: int|
                    0 <= k < outs.len() ==> Ok::<TargetView, ScanError>(#[trigger] r->Ok_0@[k]@)
                        == target_record(self@, outs[k])
            },
            r is Err ==> exists|t: int|
                {
                    &&& is_build_output(self@, t)
                    &&& #[trigger] target_record(self@, t) == Err::<TargetView, ScanError>(
                        r->Err_0,
                    )
                    &&& forall|u: int|
                        #![trigger target_record(self@, u)]
                        u < t && is_build_output(self@, u) ==> target_record(self@, u) is Ok
                },
    {
        let manifest = String::from_str("Cargo.toml");
        let build = String::from_str("target");
        proof {
            reveal_strlit("Cargo.toml");
            reveal_strlit("target");
            assert(manifest@ =~= manifest_name());
            assert(build@ =~= build_dir_name());
        }
        let n = self.nodes.len();
        let mut out: Vec<TargetItem> = Vec::new();
        let mut t: usize = 0;
        while t < n
            invariant
                self.wf(),
                n == self@.len(),
                t <= n,
                manifest@ == manifest_name(),
                build@ == build_dir_name(),
                out@.len() == build_outputs(self@, t as int).len(),
                forall|k: int|
                    0 <= k < out@.len() ==> Ok::<TargetView, ScanError>(#[trigger] out@[k]@)
                        == target_record(self@, build_outputs(self@, t as int)[k]),
                forall|u: int|
                    #![trigger target_record(self@, u)]
                    u < t && is_build_output(self@, u) ==> target_record(self@, u) is Ok,
            decreases n - t,
        {
            if self.is_build_output_at(t, &manifest, &build) {
                match self.record(t) {
                    Ok(item) => {
                        out.push(item);
                    },
                    Err(e) => {
                        return Err(e);
                    },
                }
            }
            t = t + 1;
        }
        Ok(out)
    }
}

/// The build-output folders listed are exactly the build-output folders
/// among the first `k` entries.
pub proof fn lemma_build_outputs_members(nodes: Seq<Node>, k: int, x: int)
    ensures
        build_outputs(nodes, k).contains(x) <==> 0 <= x < k && is_build_output(nodes, x),
    decreases k,
{
    if k > 0 {
        lemma_build_outputs_members(nodes, k - 1, x);
        let prev = build_outputs(nodes, k - 1);
        let cur = build_outputs(nodes, k);
        if is_build_output(nodes, k - 1) {
            assert(cur == prev.push(k - 1));
            if cur.contains(x) && x != k - 1 {
                let i = choose|i: int| 0 <= i < cur.len() && #[trigger] cur[i] == x;
                assert(prev[i] == x);
            }
            if prev.contains(x) {
                let i = choose|i: int| 0 <= i < prev.len() && #[trigger] prev[i] == x;
                assert(cur[i] == x);
            }
            if x == k - 1 {
                assert(cur[prev.len() as int] == x);
            }
        }
    }
}

/// A directory is reported by a scan (it holds one of the folders that
/// `find_targets` lists) if and only if it directly contains both a
/// manifest file and a build-output folder.
pub proof fn lemma_reported_iff_project_root(nodes: Seq<Node>, d: int)
    requires
        tree_wf(nodes),
    ensures
        (exists|k: int|
            0 <= k < build_outputs(nodes, nodes.len() as int).len() && nodes[#[trigger] build_outputs(
                nodes,
                nodes.len() as int,
            )[k]].parent == d) <==> is_project_root(nodes, d),
{
    let outs = build_outputs(nodes, nodes.len() as int);
    if exists|k: int| 0 <= k < outs.len() && nodes[#[trigger] outs[k]].parent == d {
        let k = choose|k: int| 0 <= k < outs.len() && nodes[#[trigger] outs[k]].parent == d;
        let t = outs[k];
        lemma_build_outputs_members(nodes, nodes.len() as int, t);
        assert(outs.contains(t));
        assert(nodes[t].parent < t);
        assert(is_child(nodes, t, d));
        assert(is_dir(nodes[t].kind) && nodes[t].name@ == build_dir_name());
    }
    if is_project_root(nodes, d) {
        let t = choose|t: int|
            #![trigger nodes[t]]
            is_child(nodes, t, d) && is_dir(nodes[t].kind) && nodes[t].name@ == build_dir_name();
        lemma_build_outputs_members(nodes, nodes.len() as int, t);
        assert(is_build_output(nodes, t));
        let k = choose|k: int| 0 <= k < outs.len() && outs[k] == t;
        assert(nodes[outs[k]].parent == d);
    }
}

/// The size reported for a build-output folder is the sum of the sizes of
/// all regular files anywhere below it, and its path is the names from the
/// root down to it.
pub proof fn lemma_reported_record(nodes: Seq<Node>, t: int)
    requires
        tree_wf(nodes),
        is_build_output(nodes, t),
        target_record(nodes, t) is Ok,
    ensures
        target_record(nodes, t)->Ok_0.1 as nat == size_within(nodes, t, nodes.len() as int),
        target_record(nodes, t)->Ok_0.0 == path_of(nodes, t),
        path_of(nodes, t).last() == build_dir_name(),
{
}

/// The build-output folders are listed in increasing entry order.
pub proof fn lemma_build_outputs_increasing(nodes: Seq<Node>, k: int)
    ensures
        forall|a: int, b: int|
            0 <= a < b < build_outputs(nodes, k).len() ==> #[trigger] build_outputs(nodes, k)[a]
                < #[trigger] build_outputs(nodes, k)[b],
        forall|a: int|
            0 <= a < build_outputs(nodes, k).len() ==> #[trigger] build_outputs(nodes, k)[a] < k,
    decreases k,
{
    if k > 0 {
        lemma_build_outputs_increasing(nodes, k - 1);
        let prev = build_outputs(nodes, k - 1);
        let cur = build_outputs(nodes, k);
        if is_build_output(nodes, k - 1) {
            assert forall|a: int| 0 <= a < prev.len() implies cur[a] == prev[a] by {}
        }
    }
}

proof fn lemma_path_len(nodes: Seq<Node>, a: int)
    ensures
        path_of(nodes, a).len() >= 1,
    decreases a,
{
    if !(a <= 0 || a >= nodes.len() || nodes[a].parent >= a) {
        lemma_path_len(nodes, nodes[a].parent as int);
    }
}

/// Distinct entries have distinct paths, since no directory holds two
/// entries of one name.
pub proof fn lemma_paths_distinct(nodes: Seq<Node>, a: int, b: int)
    requires
        tree_wf(nodes),
        0 <= a < nodes.len(),
        0 <= b < nodes.len(),
        a != b,
    ensures
        path_of(nodes, a) != path_of(nodes, b),
    decreases a + b,
{
    if a > 0 && b > 0 {
        let pa = nodes[a].parent as int;
        let pb = nodes[b].parent as int;
        if path_of(nodes, a) == path_of(nodes, b) {
            assert(path_of(nodes, a).drop_last() =~= path_of(nodes, pa));
            assert(path_of(nodes, b).drop_last() =~= path_of(nodes, pb));
            assert(path_of(nodes, a).last() == nodes[a].name@);
            assert(path_of(nodes, b).last() == nodes[b].name@);
            if pa != pb {
                lemma_paths_distinct(nodes, pa, pb);
            } else if a < b {
                assert(nodes[a].name@ != nodes[b].name@);
            } else {
                assert(nodes[b].name@ != nodes[a].name@);
            }
        }
    } else if a > 0 {
        lemma_path_len(nodes, nodes[a].parent as int);
        assert(path_of(nodes, a).len() >= 2);
    } else {
        lemma_path_len(nodes, nodes[b].parent as int);
        assert(path_of(nodes, b).len() >= 2);
    }
}

/// No project root is reported twice: two folders that `find_targets` lists
/// sit in different directories and have different paths.
pub proof fn lemma_reported_once(nodes: Seq<Node>, k1: int, k2: int)
    requires
        tree_wf(nodes),
        0 <= k1 < k2 < build_outputs(nodes, nodes.len() as int).len(),
    ensures
        ({
            let outs = build_outputs(nodes, nodes.len() as int);
            &&& nodes[outs[k1]].parent != nodes[outs[k2]].parent
            &&& path_of(nodes, outs[k1]) != path_of(nodes, outs[k2])
        }),
{
    let outs = build_outputs(nodes, nodes.len() as int);
    lemma_build_outputs_increasing(nodes, nodes.len() as int);
    let t1 = outs[k1];
    let t2 = outs[k2];
    assert(t1 < t2);
    lemma_build_outputs_members(nodes, nodes.len() as int, t1);
    lemma_build_outputs_members(nodes, nodes.len() as int, t2);
    assert(outs.contains(t1));
    assert(outs.contains(t2));
    assert(nodes[t1].name@ == nodes[t2].name@);
    assert(0 < t1);
    lemma_paths_distinct(nodes, t1, t2);
}

} // verus!
