//! Parsed tree to a build plan: what is new, what exists already, what is in
//! the way, and what sits under something in the way. The plan never asks
//! for anything outside the target folder, and never for replacing what is
//! on disk.

use vstd::prelude::*;

use crate::parser::{node_views, Kind, Node, NodeModel};
use crate::text::{chars_of, path_parts, split_where};

verus! {

#[derive(Debug, Clone, Copy, PartialEq, Eq, Structural)]
pub enum Status {
    New,
    Exists,
    /// A file sits where a folder should go, or the other way round.
    Conflict,
    /// Under a conflicting entry.
    Blocked,
}

/// What is on disk at a node's path, without following links.
#[derive(Debug, Clone, Copy, PartialEq, Eq, Structural)]
pub enum OnDisk {
    Missing,
    Folder,
    /// Anything that is not a folder.
    Other,
}

#[derive(Debug)]
pub struct Item {
    pub node: Node,
    pub status: Status,
}

pub struct ItemModel {
    pub node: NodeModel,
    pub status: Status,
}

impl View for Item {
    type V = ItemModel;

    open spec fn view(&self) -> ItemModel {
        ItemModel { node: self.node@, status: self.status }
    }
}

pub open spec fn item_views(v: Seq<Item>) -> Seq<ItemModel> {
    Seq::new(v.len(), |i: int| v[i]@)
}

/// A node's path would leave the target folder.
#[derive(Debug)]
pub struct Escape {
    /// The offending path.
    pub path: String,
}

/// Whether one of the pieces is `..`.
pub open spec fn any_dotdot(ps: Seq<Seq<char>>) -> bool
    decreases ps.len(),
{
    ps.len() > 0 && (any_dotdot(ps.drop_last()) || ps.last() == seq!['.', '.'])
}

/// Whether a `/`-separated path has a `..` component.
pub open spec fn climbs(path: Seq<char>) -> bool {
    any_dotdot(path_parts(path))
}

/// Whether `path` lies under the folder written `b` (which ends in `/`).
pub open spec fn under(path: Seq<char>, b: Seq<char>) -> bool {
    b.len() <= path.len() && path.take(b.len() as int) == b
}

pub open spec fn under_any(path: Seq<char>, blocked: Seq<Seq<char>>) -> bool {
    exists|j: int| 0 <= j < blocked.len() && under(path, #[trigger] blocked[j])
}

/// The status of a node that no earlier conflict blocks.
pub open spec fn status_on_disk(kind: Kind, disk: OnDisk) -> Status {
    match disk {
        OnDisk::Missing => Status::New,
        OnDisk::Folder => if kind == Kind::Folder {
            Status::Exists
        } else {
            Status::Conflict
        },
        OnDisk::Other => if kind == Kind::File {
            Status::Exists
        } else {
            Status::Conflict
        },
    }
}

/// The folders (each written with a trailing `/`) of the conflicts among the
/// first `i` nodes.
pub open spec fn blocked_before(nodes: Seq<NodeModel>, disk: Seq<OnDisk>, i: int) -> Seq<Seq<char>>
    decreases i, 0int,
{
    if i <= 0 {
        Seq::empty()
    } else {
        let prev = blocked_before(nodes, disk, i - 1);
        if plan_status(nodes, disk, i - 1) == Status::Conflict {
            prev.push(nodes[i - 1].path.push('/'))
        } else {
            prev
        }
    }
}

/// The status of node `i`: blocked when it lies under an earlier conflict,
/// else decided by what is on disk at its path.
pub open spec fn plan_status(nodes: Seq<NodeModel>, disk: Seq<OnDisk>, i: int) -> Status
    decreases i, 1int,
{
    if i < 0 {
        Status::New
    } else if under_any(nodes[i].path, blocked_before(nodes, disk, i)) {
        Status::Blocked
    } else {
        status_on_disk(nodes[i].kind, disk[i])
    }
}

} // verus!

verus! {

fn has_dotdot(p: &[char]) -> (b: bool)
    ensures
        b == climbs(p@),
{
    let ghost sep = |c: char| c == '/';
    let mut found = false;
    let mut cur: Vec<char> = Vec::new();
    let n = p.len();
    for i in 0..n
        invariant
            n == p@.len(),
            sep == (|c: char| c == '/'),
            split_where(p@.take(i as int), sep).len() >= 1,
            found == any_dotdot(split_where(p@.take(i as int), sep).drop_last()),
            cur@ == split_where(p@.take(i as int), sep).last(),
    {
        let ghost prev = split_where(p@.take(i as int), sep);
        let c = p[i];
        assert(p@.take(i + 1).drop_last() =~= p@.take(i as int));
        assert(p@.take(i + 1).last() == c);
        if c == '/' {
            let dd = cur.len() == 2 && cur[0] == '.' && cur[1] == '.';
            assert(dd == (cur@ == seq!['.', '.'])) by {
                if cur@ == seq!['.', '.'] {
                    assert(cur@[0] == '.' && cur@[1] == '.');
                }
                if dd {
                    assert(cur@ =~= seq!['.', '.']);
                }
            }
            assert(prev.drop_last().push(prev.last()) =~= prev);
            assert(split_where(p@.take(i + 1), sep).drop_last() =~= prev);
            found = found || dd;
            cur = Vec::new();
        } else {
            cur.push(c);
            assert(split_where(p@.take(i + 1), sep).drop_last() =~= prev.drop_last());
        }
    }
    let ghost ps = split_where(p@.take(n as int), sep);
    assert(p@.take(n as int) =~= p@);
    let dd = cur.len() == 2 && cur[0] == '.' && cur[1] == '.';
    assert(dd == (cur@ == seq!['.', '.'])) by {
        if cur@ == seq!['.', '.'] {
            assert(cur@[0] == '.' && cur@[1] == '.');
        }
        if dd {
            assert(cur@ =~= seq!['.', '.']);
        }
    }
    found || dd
}

fn under_exec(path: &[char], b: &[char]) -> (r: bool)
    ensures
        r == under(path@, b@),
{
    crate::text::has_prefix(path, b)
}

/// The plan for the parsed nodes, given what is on disk at each node's
/// path: each node with its status, in order. Refused, with the first such
/// path, when a path has a `..` component.
pub fn plan_items(nodes: &Vec<Node>, disk: &Vec<OnDisk>) -> (r: Result<Vec<Item>, Escape>)
    requires
        disk@.len() == nodes@.len(),
    ensures
        r is Err <==> exists|i: int| 0 <= i < nodes@.len() && climbs(#[trigger] nodes@[i].path@),
        r matches Err(e) ==> exists|i: int|
            0 <= i < nodes@.len() && e.path@ == nodes@[i].path@ && climbs(nodes@[i].path@) && forall|
                j: int,
            | 0 <= j < i ==> !climbs(#[trigger] nodes@[j].path@),
        r matches Ok(items) ==> items@.len() == nodes@.len() && forall|i: int|
            0 <= i < nodes@.len() ==> (#[trigger] items@[i])@.node == nodes@[i]@ && items@[i].status
                == plan_status(node_views(nodes@), disk@, i),
{
    let ghost nv = node_views(nodes@);
    let mut items: Vec<Item> = Vec::new();
    let mut blocked: Vec<Vec<char>> = Vec::new();
    let n = nodes.len();
    for i in 0..n
        invariant
            n == nodes@.len(),
            disk@.len() == n,
            nv == node_views(nodes@),
            crate::text::views(blocked@) == blocked_before(nv, disk@, i as int),
            items@.len() == i,
            forall|k: int| 0 <= k < i ==> !climbs(#[trigger] nodes@[k].path@),
            forall|k: int|
                0 <= k < i ==> (#[trigger] items@[k])@.node == nodes@[k]@ && items@[k].status
                    == plan_status(nv, disk@, k),
    {
        let node = &nodes[i];
        let path = chars_of(node.path.as_str());
        if has_dotdot(&path) {
            return Err(Escape { path: node.path.clone() });
        }
        let mut is_blocked = false;
        let nb = blocked.len();
        for j in 0..nb
            invariant
                nb == blocked@.len(),
                is_blocked == exists|q: int| 0 <= q < j && under(path@, #[trigger] blocked@[q]@),
        {
            if under_exec(&path, &blocked[j]) {
                is_blocked = true;
            }
        }
        assert(is_blocked == under_any(nv[i as int].path, blocked_before(nv, disk@, i as int))) by {
            let bb = blocked_before(nv, disk@, i as int);
            assert(bb.len() == blocked@.len());
            assert forall|q: int| 0 <= q < bb.len() implies #[trigger] bb[q] == blocked@[q]@ by {}
            if is_blocked {
                let q = choose|q: int| 0 <= q < nb && under(path@, #[trigger] blocked@[q]@);
                assert(under(nv[i as int].path, bb[q]));
            }
            if under_any(nv[i as int].path, bb) {
                let q = choose|q: int| 0 <= q < bb.len() && under(nv[i as int].path, #[trigger] bb[q]);
                assert(under(path@, blocked@[q]@));
            }
        }
        let status = if is_blocked {
            Status::Blocked
        } else {
            match disk[i] {
                OnDisk::Missing => Status::New,
                OnDisk::Folder => if node.kind == Kind::Folder {
                    Status::Exists
                } else {
                    Status::Conflict
                },
                OnDisk::Other => if node.kind == Kind::File {
                    Status::Exists
                } else {
                    Status::Conflict
                },
            }
        };
        assert(status == plan_status(nv, disk@, i as int));
        if status == Status::Conflict {
            let mut b = path;
            b.push('/');
            let ghost before = crate::text::views(blocked@);
            blocked.push(b);
            assert(crate::text::views(blocked@) =~= before.push(nv[i as int].path.push('/')));
        }
        let copy = Node {
            path: node.path.clone(),
            name: node.name.clone(),
            kind: node.kind,
            line: node.line,
            depth: node.depth,
        };
        items.push(Item { node: copy, status });
    }
    Ok(items)
}

} // verus!

verus! {

/// The plan never replaces anything: an item is new only where nothing is
/// on disk, exists only where what is on disk is of its kind, and what sits
/// under a conflicting item is blocked rather than built.
pub proof fn plan_never_overwrites(nodes: Seq<NodeModel>, disk: Seq<OnDisk>, i: int)
    requires
        0 <= i < nodes.len(),
        disk.len() == nodes.len(),
    ensures
        plan_status(nodes, disk, i) == Status::New ==> disk[i] == OnDisk::Missing,
        plan_status(nodes, disk, i) == Status::Exists ==> (disk[i] == OnDisk::Folder) == (
        nodes[i].kind == Kind::Folder) && disk[i] != OnDisk::Missing,
        plan_status(nodes, disk, i) == Status::Conflict ==> disk[i] != OnDisk::Missing,
        (plan_status(nodes, disk, i) == Status::Blocked) == under_any(
            nodes[i].path,
            blocked_before(nodes, disk, i),
        ),
{
}

/// What a conflict blocks: node `j` after a conflicting node `i` is blocked
/// when its path lies under `i`'s.
pub proof fn conflicts_block_what_is_under_them(
    nodes: Seq<NodeModel>,
    disk: Seq<OnDisk>,
    i: int,
    j: int,
)
    requires
        0 <= i < j < nodes.len(),
        disk.len() == nodes.len(),
        plan_status(nodes, disk, i) == Status::Conflict,
        under(nodes[j].path, nodes[i].path.push('/')),
    ensures
        plan_status(nodes, disk, j) == Status::Blocked,
{
    lemma_blocked_grows(nodes, disk, i + 1, j);
    let b = blocked_before(nodes, disk, i + 1);
    assert(b.last() == nodes[i].path.push('/'));
    let bj = blocked_before(nodes, disk, j);
    assert(bj[b.len() - 1] == b[b.len() - 1]);
    assert(under(nodes[j].path, bj[b.len() - 1]));
}

proof fn lemma_blocked_grows(nodes: Seq<NodeModel>, disk: Seq<OnDisk>, a: int, b: int)
    requires
        0 <= a <= b,
    ensures
        blocked_before(nodes, disk, a).len() <= blocked_before(nodes, disk, b).len(),
        forall|k: int|
            0 <= k < blocked_before(nodes, disk, a).len() ==> #[trigger] blocked_before(nodes, disk, b)[k]
                == blocked_before(nodes, disk, a)[k],
    decreases b - a,
{
    if a < b {
        lemma_blocked_grows(nodes, disk, a, b - 1);
    }
}

/// A conflict skips nothing beside what lies under it: a node under no
/// earlier conflicting node gets the status that the disk at its own path
/// gives, so the rest of the tree is still built.
pub proof fn only_what_is_under_a_conflict_is_skipped(nodes: Seq<NodeModel>, disk: Seq<OnDisk>, j: int)
    requires
        0 <= j < nodes.len(),
        disk.len() == nodes.len(),
        forall|i: int|
            0 <= i < j && #[trigger] plan_status(nodes, disk, i) == Status::Conflict ==> !under(
                nodes[j].path,
                nodes[i].path.push('/'),
            ),
    ensures
        plan_status(nodes, disk, j) == status_on_disk(nodes[j].kind, disk[j]),
{
    lemma_blocked_are_conflicts(nodes, disk, j);
    let b = blocked_before(nodes, disk, j);
    if under_any(nodes[j].path, b) {
        let k = choose|k: int| 0 <= k < b.len() && under(nodes[j].path, #[trigger] b[k]);
        assert(conflict_folder(nodes, disk, j, b[k]));
        let i = choose|i: int|
            0 <= i < j && #[trigger] plan_status(nodes, disk, i) == Status::Conflict && b[k]
                == nodes[i].path.push('/');
        assert(plan_status(nodes, disk, i) == Status::Conflict);
    }
}

/// `b` is the folder of a conflicting node before node `j`.
spec fn conflict_folder(nodes: Seq<NodeModel>, disk: Seq<OnDisk>, j: int, b: Seq<char>) -> bool {
    exists|i: int|
        0 <= i < j && #[trigger] plan_status(nodes, disk, i) == Status::Conflict && b == nodes[i].path.push(
            '/',
        )
}

proof fn lemma_blocked_are_conflicts(nodes: Seq<NodeModel>, disk: Seq<OnDisk>, j: int)
    requires
        0 <= j,
    ensures
        forall|k: int|
            0 <= k < blocked_before(nodes, disk, j).len() ==> conflict_folder(
                nodes,
                disk,
                j,
                #[trigger] blocked_before(nodes, disk, j)[k],
            ),
    decreases j,
{
    if j > 0 {
        lemma_blocked_are_conflicts(nodes, disk, j - 1);
        let prev = blocked_before(nodes, disk, j - 1);
        let cur = blocked_before(nodes, disk, j);
        assert forall|k: int| 0 <= k < cur.len() implies conflict_folder(nodes, disk, j, #[trigger] cur[k]) by {
            if k < prev.len() {
                assert(cur[k] == prev[k]);
                assert(conflict_folder(nodes, disk, j - 1, prev[k]));
                let i = choose|i: int|
                    0 <= i < j - 1 && #[trigger] plan_status(nodes, disk, i) == Status::Conflict && prev[k]
                        == nodes[i].path.push('/');
                assert(plan_status(nodes, disk, i) == Status::Conflict);
            } else {
                assert(plan_status(nodes, disk, j - 1) == Status::Conflict);
                assert(cur[k] == nodes[j - 1].path.push('/'));
            }
        }
    }
}

} // verus!

verus! {

/// Where a parsed tree is built when no folder is given.
#[derive(Debug, Clone, Copy, PartialEq, Eq, Structural)]
pub enum Base {
    /// The folder given on the command line.
    Out,
    /// A folder named after the tree's file.
    Stem,
    /// The current folder.
    Here,
}

/// The number of top-level nodes.
pub open spec fn top_count(nodes: Seq<NodeModel>) -> nat
    decreases nodes.len(),
{
    if nodes.len() == 0 {
        0
    } else {
        top_count(nodes.drop_last()) + if nodes.last().depth == 0 {
            1nat
        } else {
            0nat
        }
    }
}

/// The index of the first top-level node, or `nodes.len()`.
pub open spec fn first_top(nodes: Seq<NodeModel>, i: int) -> int
    decreases nodes.len() - i,
{
    if i < 0 || i >= nodes.len() {
        nodes.len() as int
    } else if nodes[i].depth == 0 {
        i
    } else {
        first_top(nodes, i + 1)
    }
}

/// A tree with one top-level entry, a folder, names its own root.
pub open spec fn self_rooted(nodes: Seq<NodeModel>) -> bool {
    top_count(nodes) == 1 && nodes[first_top(nodes, 0)].kind == Kind::Folder
}

/// A given folder wins; else loose entries of a tree read from a file go in a
/// folder named after the file; else the tree is built here.
pub open spec fn spec_base(nodes: Seq<NodeModel>, out_given: bool, stem_given: bool) -> Base {
    if out_given {
        Base::Out
    } else if stem_given && !self_rooted(nodes) {
        Base::Stem
    } else {
        Base::Here
    }
}

proof fn lemma_first_top(nodes: Seq<NodeModel>, i: int, k: int)
    requires
        0 <= i <= k < nodes.len(),
        nodes[k].depth == 0,
        forall|j: int| i <= j < k ==> nodes[j].depth != 0,
    ensures
        first_top(nodes, i) == k,
    decreases k - i,
{
    if i < k {
        lemma_first_top(nodes, i + 1, k);
    }
}

/// Where to build a parsed tree: in the folder given, in a folder named after
/// the tree's file, or here.
pub fn choose_base(nodes: &Vec<Node>, out_given: bool, stem_given: bool) -> (b: Base)
    ensures
        b == spec_base(node_views(nodes@), out_given, stem_given),
{
    let ghost nv = node_views(nodes@);
    if out_given {
        return Base::Out;
    }
    let mut tops: usize = 0;
    let mut first: usize = 0;
    let n = nodes.len();
    for i in 0..n
        invariant
            n == nodes@.len(),
            nv == node_views(nodes@),
            tops == top_count(nv.take(i as int)),
            tops <= i,
            tops == 0 ==> forall|j: int| 0 <= j < i ==> nv[j].depth != 0,
            tops > 0 ==> first < i && nv[first as int].depth == 0 && forall|j: int|
                0 <= j < first ==> nv[j].depth != 0,
    {
        assert(nv.take(i + 1).drop_last() =~= nv.take(i as int));
        assert(nv[i as int] == nodes@[i as int]@);
        if nodes[i].depth == 0 {
            if tops == 0 {
                first = i;
            }
            tops = tops + 1;
        }
    }
    assert(nv.take(n as int) =~= nv);
    let rooted = if tops == 1 {
        proof {
            lemma_first_top(nv, 0, first as int);
        }
        nodes[first].kind == Kind::Folder
    } else {
        false
    };
    if stem_given && !rooted {
        Base::Stem
    } else {
        Base::Here
    }
}

/// Exactly one node is at the top, and it is a folder.
pub open spec fn lone_top_folder(nodes: Seq<NodeModel>) -> bool {
    exists|i: int|
        0 <= i < nodes.len() && (#[trigger] nodes[i]).depth == 0 && nodes[i].kind == Kind::Folder
            && forall|j: int| 0 <= j < nodes.len() && j != i ==> (#[trigger] nodes[j]).depth != 0
}

proof fn lemma_no_top(nodes: Seq<NodeModel>)
    ensures
        top_count(nodes) == 0 <==> forall|j: int| 0 <= j < nodes.len() ==> (#[trigger] nodes[j]).depth != 0,
    decreases nodes.len(),
{
    if nodes.len() > 0 {
        let d = nodes.drop_last();
        lemma_no_top(d);
        if forall|j: int| 0 <= j < nodes.len() ==> (#[trigger] nodes[j]).depth != 0 {
            assert forall|j: int| 0 <= j < d.len() implies (#[trigger] d[j]).depth != 0 by {
                assert(d[j] == nodes[j]);
            }
            assert(nodes[nodes.len() - 1].depth != 0);
        }
        if top_count(nodes) == 0 {
            assert forall|j: int| 0 <= j < nodes.len() implies (#[trigger] nodes[j]).depth != 0 by {
                if j < d.len() {
                    assert(d[j] == nodes[j]);
                }
            }
        }
    }
}

proof fn lemma_one_top(nodes: Seq<NodeModel>, i: int)
    requires
        0 <= i < nodes.len(),
        nodes[i].depth == 0,
        forall|j: int| 0 <= j < nodes.len() && j != i ==> (#[trigger] nodes[j]).depth != 0,
    ensures
        top_count(nodes) == 1,
    decreases nodes.len(),
{
    let d = nodes.drop_last();
    if i == nodes.len() - 1 {
        assert forall|j: int| 0 <= j < d.len() implies (#[trigger] d[j]).depth != 0 by {
            assert(d[j] == nodes[j]);
        }
        lemma_no_top(d);
    } else {
        assert forall|j: int| 0 <= j < d.len() && j != i implies (#[trigger] d[j]).depth != 0 by {
            assert(d[j] == nodes[j]);
        }
        assert(d[i] == nodes[i]);
        lemma_one_top(d, i);
        assert(nodes[nodes.len() - 1].depth != 0);
    }
}

proof fn lemma_top_of_one(nodes: Seq<NodeModel>)
    requires
        top_count(nodes) == 1,
    ensures
        exists|i: int|
            0 <= i < nodes.len() && (#[trigger] nodes[i]).depth == 0 && forall|j: int|
                0 <= j < nodes.len() && j != i ==> (#[trigger] nodes[j]).depth != 0,
    decreases nodes.len(),
{
    let d = nodes.drop_last();
    let n = nodes.len() - 1;
    if nodes[n].depth == 0 {
        lemma_no_top(d);
        assert forall|j: int| 0 <= j < nodes.len() && j != n implies (#[trigger] nodes[j]).depth != 0 by {
            assert(d[j] == nodes[j]);
        }
    } else {
        lemma_top_of_one(d);
        let i = choose|i: int|
            0 <= i < d.len() && (#[trigger] d[i]).depth == 0 && forall|j: int|
                0 <= j < d.len() && j != i ==> (#[trigger] d[j]).depth != 0;
        assert(nodes[i] == d[i]);
        assert forall|j: int| 0 <= j < nodes.len() && j != i implies (#[trigger] nodes[j]).depth != 0 by {
            if j < n {
                assert(d[j] == nodes[j]);
            }
        }
    }
}

/// Where a tree is built: in the folder given when one is; else, for a tree
/// read from a file, here exactly when the tree has one top-level entry and
/// it is a folder (it names its own root), and in a folder named after the
/// file otherwise; a tree from standard input is built here.
pub proof fn where_a_tree_is_built(nodes: Seq<NodeModel>, out_given: bool, stem_given: bool)
    ensures
        out_given ==> spec_base(nodes, out_given, stem_given) == Base::Out,
        !out_given && !stem_given ==> spec_base(nodes, out_given, stem_given) == Base::Here,
        !out_given && stem_given ==> (spec_base(nodes, out_given, stem_given) == Base::Here
            <==> lone_top_folder(nodes)),
        !out_given && stem_given ==> (spec_base(nodes, out_given, stem_given) == Base::Stem
            <==> !lone_top_folder(nodes)),
{
    lemma_rooted_iff_lone(nodes);
}

proof fn lemma_lone_rooted(nodes: Seq<NodeModel>, i: int)
    requires
        0 <= i < nodes.len(),
        nodes[i].depth == 0,
        nodes[i].kind == Kind::Folder,
        forall|j: int| 0 <= j < nodes.len() && j != i ==> (#[trigger] nodes[j]).depth != 0,
    ensures
        self_rooted(nodes),
{
    lemma_one_top(nodes, i);
    lemma_first_top(nodes, 0, i);
}

proof fn lemma_rooted_lone(nodes: Seq<NodeModel>)
    requires
        self_rooted(nodes),
    ensures
        lone_top_folder(nodes),
{
    lemma_top_of_one(nodes);
    let i = choose|i: int|
        0 <= i < nodes.len() && (#[trigger] nodes[i]).depth == 0 && forall|j: int|
            0 <= j < nodes.len() && j != i ==> (#[trigger] nodes[j]).depth != 0;
    lemma_first_top(nodes, 0, i);
    assert(nodes[i].kind == Kind::Folder);
}

#[verifier::rlimit(30)]
proof fn lemma_rooted_iff_lone(nodes: Seq<NodeModel>)
    ensures
        self_rooted(nodes) <==> lone_top_folder(nodes),
{
    if lone_top_folder(nodes) {
        let i = choose|i: int|
            0 <= i < nodes.len() && (#[trigger] nodes[i]).depth == 0 && nodes[i].kind == Kind::Folder
                && forall|j: int| 0 <= j < nodes.len() && j != i ==> (#[trigger] nodes[j]).depth != 0;
        lemma_lone_rooted(nodes, i);
    }
    if self_rooted(nodes) {
        lemma_rooted_lone(nodes);
    }
}

} // verus!
