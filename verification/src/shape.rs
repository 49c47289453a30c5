//! What every parse result looks like, whatever the text: each path is made
//! of safe segments, no path occurs twice, and every node below the top has
//! its folder as an earlier node.

use vstd::prelude::*;

use crate::entry::{
    clean_line, first_bad, is_bad_segment, is_path_sep, keep_segments, name_of, segments_of,
    spec_read_entry, EntryModel, has_forbidden,
};
use crate::line::{is_forbidden, spec_prefix_len};
use crate::parser::{
    add_node, add_prefixes, as_folder, index_from, index_of_path, mark_parent, pop_to, read_from,
    run, spec_parse, step, strip_cr, text_lines, top_segments, FrameModel, Kind, NodeModel,
    ParseState, ProblemModel,
};
use crate::plan::ItemModel;
use crate::ui::{
    closed_plan, is_item, last_slash, listed_from, occurrences, parent_of, path_at, spec_tree_order,
    tree_order_lists_each_item_once,
};
use crate::text::{
    all_chars, join_slash, lemma_split_join, lemma_split_pieces, lemma_split_where_nonempty, lemma_trim_chars, no_char, path_parts, split_where,
    trim, trim_end, trim_start,
};
use crate::spec_is_whitespace;

verus! {

/// A path segment that may stand in a path: not empty, not `.` or `..`,
/// without `/` or `\`, and without a character that may not stand in a file
/// name.
pub open spec fn valid_segment(s: Seq<char>) -> bool {
    &&& s.len() > 0
    &&& s != seq!['.']
    &&& s != seq!['.', '.']
    &&& no_char(s, |c: char| c == '/' || c == '\\')
    &&& no_char(s, |c: char| is_forbidden(c))
}

pub open spec fn valid_segments(segs: Seq<Seq<char>>) -> bool {
    forall|k: int| 0 <= k < segs.len() ==> valid_segment(#[trigger] segs[k])
}

/// An entry as reading can give it: a root marker, or non-empty valid
/// segments.
pub open spec fn entry_ok(e: EntryModel) -> bool {
    &&& valid_segments(e.segments)
    &&& !e.root_marker ==> e.segments.len() > 0
}

proof fn lemma_keep_segments(ps: Seq<Seq<char>>)
    requires
        forall|k: int| 0 <= k < ps.len() ==> no_char(#[trigger] ps[k], |c: char| is_path_sep(c)),
    ensures
        forall|k: int|
            0 <= k < keep_segments(ps).len() ==> {
                let s = #[trigger] keep_segments(ps)[k];
                &&& s.len() > 0
                &&& s != seq!['.']
                &&& no_char(s, |c: char| c == '/' || c == '\\')
            },
    decreases ps.len(),
{
    if ps.len() > 0 {
        let d = ps.drop_last();
        assert forall|k: int| 0 <= k < d.len() implies no_char(#[trigger] d[k], |c: char| is_path_sep(c)) by {
            assert(d[k] == ps[k]);
        }
        lemma_keep_segments(d);
        let t = trim(ps.last());
        let p = |c: char| !(c == '/' || c == '\\');
        assert(all_chars(ps.last(), p)) by {
            assert(no_char(ps[ps.len() - 1], |c: char| is_path_sep(c)));
        }
        lemma_trim_chars(ps.last(), p);
        assert(no_char(t, |c: char| c == '/' || c == '\\')) by {
            assert forall|i: int| 0 <= i < t.len() implies !(#[trigger] t[i] == '/' || t[i] == '\\') by {
                assert(p(t[i]));
            }
        }
        let kp = keep_segments(ps);
        let kd = keep_segments(d);
        assert forall|k: int| 0 <= k < kp.len() implies {
            let s = #[trigger] kp[k];
            &&& s.len() > 0
            &&& s != seq!['.']
            &&& no_char(s, |c: char| c == '/' || c == '\\')
        } by {
            if k < kd.len() {
                assert(kp[k] == kd[k]);
            } else {
                assert(kp[k] == t);
            }
        }
    }
}

proof fn lemma_first_bad(segs: Seq<Seq<char>>, i: int)
    requires
        0 <= i <= segs.len(),
        first_bad(segs, i) >= segs.len(),
    ensures
        forall|k: int| i <= k < segs.len() ==> !is_bad_segment(#[trigger] segs[k]),
    decreases segs.len() - i,
{
    if i < segs.len() {
        lemma_first_bad(segs, i + 1);
    }
}

/// What reading a line gives is a root marker or non-empty valid segments.
pub proof fn lemma_read_entry_ok(raw: Seq<char>, line_no: usize)
    ensures
        spec_read_entry(raw, line_no).0 matches Some(e) ==> entry_ok(e),
{
    if let Some(e) = spec_read_entry(raw, line_no).0 {
        if !e.root_marker {
            let name = crate::entry::name_of(
                crate::entry::clean_line(raw).skip(
                    crate::line::spec_prefix_len(crate::entry::clean_line(raw)),
                ),
            );
            let ps = split_where(name, |c: char| is_path_sep(c));
            lemma_split_pieces(name, |c: char| is_path_sep(c));
            lemma_keep_segments(ps);
            let segs = segments_of(name);
            assert(e.segments == segs);
            lemma_first_bad(segs, 0);
            assert forall|k: int| 0 <= k < segs.len() implies valid_segment(#[trigger] segs[k]) by {
                assert(!is_bad_segment(segs[k]));
                assert(!has_forbidden(segs[k]));
                assert forall|i: int| 0 <= i < segs[k].len() implies !is_forbidden(
                    #[trigger] segs[k][i],
                ) by {
                    if is_forbidden(segs[k][i]) {
                        assert(has_forbidden(segs[k]));
                    }
                }
            }
        }
    }
}

} // verus!

verus! {

/// A node's path is made of valid segments, its name is the last of them
/// and its depth counts the ones before it.
pub open spec fn node_shape_ok(n: NodeModel) -> bool {
    let parts = path_parts(n.path);
    &&& valid_segments(parts)
    &&& n.name == parts.last()
    &&& n.depth == (parts.len() - 1) as usize
}

pub open spec fn paths_unique(nodes: Seq<NodeModel>) -> bool {
    forall|i: int, j: int|
        0 <= i < j < nodes.len() ==> (#[trigger] nodes[i]).path != (#[trigger] nodes[j]).path
}

pub open spec fn has_path(nodes: Seq<NodeModel>, q: Seq<char>) -> bool {
    exists|j: int| 0 <= j < nodes.len() && (#[trigger] nodes[j]).path == q
}

pub open spec fn has_folder(nodes: Seq<NodeModel>, q: Seq<char>) -> bool {
    exists|j: int| 0 <= j < nodes.len() && (#[trigger] nodes[j]).path == q && nodes[j].kind == Kind::Folder
}

/// Node `i`'s folder, when its path has more than one segment, is a folder
/// node before it.
pub open spec fn parent_before(nodes: Seq<NodeModel>, i: int) -> bool {
    path_parts(nodes[i].path).len() > 1 ==> exists|j: int|
        0 <= j < i && (#[trigger] nodes[j]).path == parent_of(nodes[i].path) && nodes[j].kind
            == Kind::Folder
}

pub open spec fn parents_present(nodes: Seq<NodeModel>) -> bool {
    forall|i: int| 0 <= i < nodes.len() ==> #[trigger] parent_before(nodes, i)
}

pub open spec fn nodes_ok(nodes: Seq<NodeModel>) -> bool {
    &&& forall|i: int| 0 <= i < nodes.len() ==> node_shape_ok(#[trigger] nodes[i])
    &&& paths_unique(nodes)
    &&& parents_present(nodes)
}

pub proof fn lemma_index_from(nodes: Seq<NodeModel>, p: Seq<char>, i: int)
    requires
        0 <= i <= nodes.len(),
    ensures
        index_from(nodes, p, i) == -1 ==> forall|k: int| i <= k < nodes.len() ==> (#[trigger] nodes[k]).path != p,
        index_from(nodes, p, i) != -1 ==> i <= index_from(nodes, p, i) < nodes.len()
            && nodes[index_from(nodes, p, i)].path == p,
    decreases nodes.len() - i,
{
    if i < nodes.len() {
        lemma_index_from(nodes, p, i + 1);
    }
}

proof fn lemma_slash_free(s: Seq<char>)
    requires
        valid_segment(s),
    ensures
        no_char(s, |c: char| c == '/'),
{
    assert forall|i: int| 0 <= i < s.len() implies !(#[trigger] s[i] == '/') by {
        assert(!(s[i] == '/' || s[i] == '\\'));
    }
}

pub proof fn lemma_parts_of_join(segs: Seq<Seq<char>>)
    requires
        segs.len() >= 1,
        valid_segments(segs),
    ensures
        path_parts(join_slash(segs)) == segs,
{
    assert forall|k: int| 0 <= k < segs.len() implies no_char(#[trigger] segs[k], |c: char| c == '/') by {
        lemma_slash_free(segs[k]);
    }
    lemma_split_join(segs);
}

proof fn lemma_last_slash_in(a: Seq<char>, b: Seq<char>, j: int)
    requires
        no_char(b, |c: char| c == '/'),
        a.len() + 1 <= j <= a.len() + 1 + b.len(),
    ensures
        last_slash(a + seq!['/'] + b, j) == a.len(),
    decreases j,
{
    let p = a + seq!['/'] + b;
    if j > a.len() + 1 {
        assert(p[j - 1] == b[j - 1 - a.len() - 1]);
        lemma_last_slash_in(a, b, j - 1);
    } else {
        assert(p[j - 1] == '/');
    }
}

proof fn lemma_parent_of_join(segs: Seq<Seq<char>>)
    requires
        segs.len() >= 2,
        valid_segments(segs),
    ensures
        parent_of(join_slash(segs)) == join_slash(segs.drop_last()),
{
    let a = join_slash(segs.drop_last());
    lemma_slash_free(segs[segs.len() - 1]);
    lemma_last_slash_in(a, segs.last(), (a + seq!['/'] + segs.last()).len() as int);
    assert((a + seq!['/'] + segs.last()).take(a.len() as int) =~= a);
}

proof fn lemma_valid_prefix(segs: Seq<Seq<char>>, k: int)
    requires
        valid_segments(segs),
        0 <= k <= segs.len(),
    ensures
        valid_segments(segs.take(k)),
{
    assert forall|q: int| 0 <= q < segs.take(k).len() implies valid_segment(#[trigger] segs.take(k)[q]) by {
        assert(segs.take(k)[q] == segs[q]);
    }
}

/// Adding a path whose folder is already a folder node keeps the nodes
/// well formed, and loses no path or folder.
proof fn lemma_add_node(nodes: Seq<NodeModel>, segs: Seq<Seq<char>>, kind: Kind, line: Option<usize>)
    requires
        nodes_ok(nodes),
        valid_segments(segs),
        segs.len() >= 1,
        segs.len() >= 2 ==> has_folder(nodes, join_slash(segs.drop_last())),
    ensures
        nodes_ok(add_node(nodes, segs, kind, line)),
        has_path(add_node(nodes, segs, kind, line), join_slash(segs)),
        kind == Kind::Folder ==> has_folder(add_node(nodes, segs, kind, line), join_slash(segs)),
        forall|q: Seq<char>| has_path(nodes, q) ==> has_path(add_node(nodes, segs, kind, line), q),
        forall|q: Seq<char>| has_folder(nodes, q) ==> has_folder(add_node(nodes, segs, kind, line), q),
        add_node(nodes, segs, kind, line).len() >= nodes.len(),
{
    let p = join_slash(segs);
    let r = add_node(nodes, segs, kind, line);
    lemma_index_from(nodes, p, 0);
    let i = index_of_path(nodes, p);
    if i >= 0 {
        if kind == Kind::Folder {
            lemma_upgrade(nodes, i);
        }
        assert(nodes[i].path == p);
        assert(r[i].path == p);
    } else {
        let n = NodeModel {
            path: p,
            name: segs.last(),
            kind,
            line,
            depth: (segs.len() - 1) as usize,
        };
        assert(r == nodes.push(n));
        lemma_parts_of_join(segs);
        assert(node_shape_ok(n));
        assert forall|k: int| 0 <= k < r.len() implies node_shape_ok(#[trigger] r[k]) by {
            if k < nodes.len() {
                assert(r[k] == nodes[k]);
            }
        }
        assert forall|a: int, b: int| 0 <= a < b < r.len() implies (#[trigger] r[a]).path != (
        #[trigger] r[b]).path by {
            if b < nodes.len() {
                assert(r[a] == nodes[a] && r[b] == nodes[b]);
            } else {
                assert(r[a] == nodes[a]);
            }
        }
        assert forall|k: int| 0 <= k < r.len() implies #[trigger] parent_before(r, k) by {
            if k < nodes.len() {
                assert(parent_before(nodes, k));
                assert(r[k] == nodes[k]);
                if path_parts(r[k].path).len() > 1 {
                    let j = choose|j: int|
                        0 <= j < k && (#[trigger] nodes[j]).path == parent_of(nodes[k].path)
                            && nodes[j].kind == Kind::Folder;
                    assert(r[j] == nodes[j]);
                }
            } else {
                assert(r[k] == n);
                if segs.len() > 1 {
                    lemma_parent_of_join(segs);
                    let j = choose|j: int|
                        0 <= j < nodes.len() && (#[trigger] nodes[j]).path == join_slash(segs.drop_last())
                            && nodes[j].kind == Kind::Folder;
                    assert(r[j] == nodes[j]);
                }
            }
        }
        assert(r[nodes.len() as int].path == p);
        assert forall|q: Seq<char>| has_path(nodes, q) implies has_path(r, q) by {
            let j = choose|j: int| 0 <= j < nodes.len() && (#[trigger] nodes[j]).path == q;
            assert(r[j] == nodes[j]);
        }
        assert forall|q: Seq<char>| has_folder(nodes, q) implies has_folder(r, q) by {
            let j = choose|j: int|
                0 <= j < nodes.len() && (#[trigger] nodes[j]).path == q && nodes[j].kind == Kind::Folder;
            assert(r[j] == nodes[j]);
        }
        if kind == Kind::Folder {
            assert(r[nodes.len() as int].kind == Kind::Folder);
        }
    }
}

/// Making node `i` a folder keeps the nodes well formed, and loses no path
/// or folder.
proof fn lemma_upgrade(nodes: Seq<NodeModel>, i: int)
    requires
        nodes_ok(nodes),
        0 <= i < nodes.len(),
    ensures
        nodes_ok(nodes.update(i, as_folder(nodes[i]))),
        nodes.update(i, as_folder(nodes[i])).len() == nodes.len(),
        nodes.update(i, as_folder(nodes[i]))[i].kind == Kind::Folder,
        nodes.update(i, as_folder(nodes[i]))[i].path == nodes[i].path,
        forall|q: Seq<char>| has_path(nodes, q) ==> has_path(nodes.update(i, as_folder(nodes[i])), q),
        forall|q: Seq<char>|
            has_folder(nodes, q) ==> has_folder(nodes.update(i, as_folder(nodes[i])), q),
{
    let r = nodes.update(i, as_folder(nodes[i]));
    assert forall|k: int| 0 <= k < r.len() implies node_shape_ok(#[trigger] r[k]) by {
        assert(node_shape_ok(nodes[k]));
    }
    assert forall|a: int, b: int| 0 <= a < b < r.len() implies (#[trigger] r[a]).path != (
    #[trigger] r[b]).path by {
        assert(r[a].path == nodes[a].path && r[b].path == nodes[b].path);
    }
    assert forall|k: int| 0 <= k < r.len() implies #[trigger] parent_before(r, k) by {
        assert(parent_before(nodes, k));
        assert(r[k].path == nodes[k].path);
        if path_parts(r[k].path).len() > 1 {
            let j = choose|j: int|
                0 <= j < k && (#[trigger] nodes[j]).path == parent_of(nodes[k].path) && nodes[j].kind
                    == Kind::Folder;
            assert(r[j].path == nodes[j].path && r[j].kind == Kind::Folder);
        }
    }
    assert forall|q: Seq<char>| has_path(nodes, q) implies has_path(r, q) by {
        let j = choose|j: int| 0 <= j < nodes.len() && (#[trigger] nodes[j]).path == q;
        assert(r[j].path == q);
    }
    assert forall|q: Seq<char>| has_folder(nodes, q) implies has_folder(r, q) by {
        let j = choose|j: int|
            0 <= j < nodes.len() && (#[trigger] nodes[j]).path == q && nodes[j].kind == Kind::Folder;
        assert(r[j].path == q && r[j].kind == Kind::Folder);
    }
}

} // verus!

verus! {

proof fn lemma_has_path_index(nodes: Seq<NodeModel>, q: Seq<char>)
    requires
        has_path(nodes, q),
    ensures
        0 <= index_of_path(nodes, q) < nodes.len(),
        nodes[index_of_path(nodes, q)].path == q,
{
    lemma_index_from(nodes, q, 0);
    let j = choose|j: int| 0 <= j < nodes.len() && (#[trigger] nodes[j]).path == q;
    if index_of_path(nodes, q) == -1 {
        assert(nodes[j].path != q);
    }
}

proof fn lemma_add_prefixes(nodes: Seq<NodeModel>, full: Seq<Seq<char>>, lo: int, hi: int)
    requires
        nodes_ok(nodes),
        valid_segments(full),
        1 <= lo <= hi <= full.len(),
        lo >= 2 ==> has_folder(nodes, join_slash(full.take(lo - 1))),
    ensures
        nodes_ok(add_prefixes(nodes, full, lo, hi)),
        hi >= 2 ==> has_folder(add_prefixes(nodes, full, lo, hi), join_slash(full.take(hi - 1))),
        forall|q: Seq<char>| has_path(nodes, q) ==> has_path(add_prefixes(nodes, full, lo, hi), q),
        forall|q: Seq<char>| has_folder(nodes, q) ==> has_folder(add_prefixes(nodes, full, lo, hi), q),
    decreases hi - lo,
{
    if lo < hi {
        let t = full.take(lo);
        lemma_valid_prefix(full, lo);
        assert(t.drop_last() =~= full.take(lo - 1));
        lemma_add_node(nodes, t, Kind::Folder, None);
        let n1 = add_node(nodes, t, Kind::Folder, None);
        lemma_add_prefixes(n1, full, lo + 1, hi);
    }
}

proof fn lemma_mark_parent(
    nodes: Seq<NodeModel>,
    problems: Seq<ProblemModel>,
    parent: Seq<Seq<char>>,
)
    requires
        nodes_ok(nodes),
        parent.len() > 0 ==> has_path(nodes, join_slash(parent)),
    ensures
        nodes_ok(mark_parent(nodes, problems, parent).0),
        parent.len() > 0 ==> has_folder(mark_parent(nodes, problems, parent).0, join_slash(parent)),
        forall|q: Seq<char>| has_path(nodes, q) ==> has_path(mark_parent(nodes, problems, parent).0, q),
        forall|q: Seq<char>|
            has_folder(nodes, q) ==> has_folder(mark_parent(nodes, problems, parent).0, q),
{
    if parent.len() > 0 {
        let key = join_slash(parent);
        lemma_has_path_index(nodes, key);
        let i = index_of_path(nodes, key);
        if nodes[i].kind == Kind::File {
            lemma_upgrade(nodes, i);
        }
    }
}

/// The open folders on the stack have valid segments, and each non-empty
/// one is a node.
pub open spec fn frames_ok(nodes: Seq<NodeModel>, stack: Seq<FrameModel>) -> bool {
    forall|k: int|
        0 <= k < stack.len() ==> valid_segments((#[trigger] stack[k]).segments) && (
        stack[k].segments.len() > 0 ==> has_path(nodes, join_slash(stack[k].segments)))
}

pub open spec fn state_ok(st: ParseState) -> bool {
    nodes_ok(st.nodes) && frames_ok(st.nodes, st.stack)
}

proof fn lemma_pop_to(stack: Seq<FrameModel>, column: usize)
    ensures
        pop_to(stack, column).len() <= stack.len(),
        forall|k: int| 0 <= k < pop_to(stack, column).len() ==> #[trigger] pop_to(stack, column)[k] == stack[k],
    decreases stack.len(),
{
    if stack.len() > 0 && stack.last().column >= column {
        lemma_pop_to(stack.drop_last(), column);
    }
}

proof fn lemma_frames_grow(nodes: Seq<NodeModel>, r: Seq<NodeModel>, stack: Seq<FrameModel>)
    requires
        frames_ok(nodes, stack),
        forall|q: Seq<char>| has_path(nodes, q) ==> has_path(r, q),
    ensures
        frames_ok(r, stack),
{
    assert forall|k: int| 0 <= k < stack.len() implies valid_segments((#[trigger] stack[k]).segments) && (
    stack[k].segments.len() > 0 ==> has_path(r, join_slash(stack[k].segments))) by {
        if stack[k].segments.len() > 0 {
            assert(has_path(nodes, join_slash(stack[k].segments)));
        }
    }
}

proof fn lemma_step(st: ParseState, e: EntryModel)
    requires
        state_ok(st),
        entry_ok(e),
    ensures
        state_ok(step(st, e)),
{
    let stack = pop_to(st.stack, e.column);
    lemma_pop_to(st.stack, e.column);
    assert(frames_ok(st.nodes, stack)) by {
        assert forall|k: int| 0 <= k < stack.len() implies valid_segments((#[trigger] stack[k]).segments)
            && (stack[k].segments.len() > 0 ==> has_path(st.nodes, join_slash(stack[k].segments))) by {
            assert(stack[k] == st.stack[k]);
        }
    }
    let parent = top_segments(stack);
    if stack.len() > 0 {
        assert(stack[stack.len() - 1].segments == parent);
    }
    assert(valid_segments(parent));
    lemma_mark_parent(st.nodes, st.problems, parent);
    let nodes1 = mark_parent(st.nodes, st.problems, parent).0;
    lemma_frames_grow(st.nodes, nodes1, stack);
    if e.root_marker {
        let ns = stack.push(FrameModel { column: e.column, segments: parent });
        assert forall|k: int| 0 <= k < ns.len() implies valid_segments((#[trigger] ns[k]).segments) && (
        ns[k].segments.len() > 0 ==> has_path(nodes1, join_slash(ns[k].segments))) by {
            if k < stack.len() {
                assert(ns[k] == stack[k]);
            } else {
                assert(has_folder(nodes1, join_slash(parent)) ==> has_path(nodes1, join_slash(parent)));
                if parent.len() > 0 {
                    let j = choose|j: int|
                        0 <= j < nodes1.len() && (#[trigger] nodes1[j]).path == join_slash(parent)
                            && nodes1[j].kind == Kind::Folder;
                }
            }
        }
    } else {
        let full = parent + e.segments;
        assert(valid_segments(full)) by {
            assert forall|k: int| 0 <= k < full.len() implies valid_segment(#[trigger] full[k]) by {
                if k < parent.len() {
                    assert(full[k] == parent[k]);
                } else {
                    assert(full[k] == e.segments[k - parent.len()]);
                }
            }
        }
        let lo = parent.len() + 1int;
        let hi = full.len() as int;
        assert(full.take(lo - 1) =~= parent);
        lemma_add_prefixes(nodes1, full, lo, hi);
        let nodes2 = add_prefixes(nodes1, full, lo, hi);
        assert(full.take(hi - 1) =~= full.drop_last());
        let kind = if e.explicit_folder {
            Kind::Folder
        } else {
            Kind::File
        };
        lemma_add_node(nodes2, full, kind, Some(e.line));
        let nodes3 = add_node(nodes2, full, kind, Some(e.line));
        lemma_frames_grow(nodes1, nodes2, stack);
        lemma_frames_grow(nodes2, nodes3, stack);
        let ns = stack.push(FrameModel { column: e.column, segments: full });
        assert forall|k: int| 0 <= k < ns.len() implies valid_segments((#[trigger] ns[k]).segments) && (
        ns[k].segments.len() > 0 ==> has_path(nodes3, join_slash(ns[k].segments))) by {
            if k < stack.len() {
                assert(ns[k] == stack[k]);
            }
        }
        assert(step(st, e).stack == ns);
        assert(step(st, e).nodes == nodes3);
    }
}

proof fn lemma_run(st: ParseState, entries: Seq<EntryModel>)
    requires
        state_ok(st),
        forall|k: int| 0 <= k < entries.len() ==> entry_ok(#[trigger] entries[k]),
    ensures
        state_ok(run(st, entries)),
    decreases entries.len(),
{
    if entries.len() > 0 {
        lemma_step(st, entries[0]);
        let rest = entries.drop_first();
        assert forall|k: int| 0 <= k < rest.len() implies entry_ok(#[trigger] rest[k]) by {
            assert(rest[k] == entries[k + 1]);
        }
        lemma_run(step(st, entries[0]), rest);
    }
}

proof fn lemma_read_from_ok(lines: Seq<Seq<char>>, i: int)
    requires
        0 <= i,
    ensures
        forall|k: int| 0 <= k < read_from(lines, i).0.len() ==> entry_ok(#[trigger] read_from(lines, i).0[k]),
    decreases lines.len() - i,
{
    if i < lines.len() {
        lemma_read_from_ok(lines, i + 1);
        lemma_read_entry_ok(strip_cr(lines[i]), i as usize);
        let es = read_from(lines, i).0;
        let rest = read_from(lines, i + 1).0;
        let first: Seq<EntryModel> = match spec_read_entry(strip_cr(lines[i]), i as usize).0 {
            Some(x) => seq![x],
            None => Seq::empty(),
        };
        assert(es == first + rest);
        assert forall|k: int| 0 <= k < es.len() implies entry_ok(#[trigger] es[k]) by {
            if k < first.len() {
                assert(es[k] == first[k]);
            } else {
                assert(es[k] == rest[k - first.len()]);
            }
        }
    }
}

/// Whatever the text, every node that parsing gives has a path made of
/// valid segments (none empty, `.` or `..`, none with `/`, `\` or a
/// character that may not stand in a file name), its name is the last of
/// them and its depth counts the ones before it; no two nodes share a path;
/// and every node whose path has more than one segment comes after a folder
/// node for the path it sits in.
pub proof fn parse_gives_safe_tree(text: Seq<char>)
    ensures
        nodes_ok(spec_parse(text).0),
{
    let (entries, problems) = read_from(text_lines(text), 0);
    lemma_read_from_ok(text_lines(text), 0);
    let init = ParseState { nodes: Seq::empty(), problems, stack: Seq::empty() };
    assert(state_ok(init));
    lemma_run(init, entries);
}

} // verus!

verus! {

proof fn lemma_no_slash_before(p: Seq<char>, j: int)
    requires
        0 <= j <= p.len(),
        split_where(p.take(j), |c: char| c == '/').len() == 1,
    ensures
        last_slash(p, j) == -1,
    decreases j,
{
    let sep = |c: char| c == '/';
    if j > 0 {
        assert(p.take(j).drop_last() =~= p.take(j - 1));
        assert(p.take(j).last() == p[j - 1]);
        lemma_split_where_nonempty(p.take(j - 1), sep);
        lemma_no_slash_before(p, j - 1);
    }
}

/// A path of one segment sits in the target folder itself.
proof fn lemma_one_part_no_parent(p: Seq<char>)
    requires
        path_parts(p).len() == 1,
    ensures
        parent_of(p).len() == 0,
{
    assert(p.take(p.len() as int) =~= p);
    lemma_no_slash_before(p, p.len() as int);
}

proof fn lemma_parsed_plan_closed(nodes: Seq<NodeModel>, items: Seq<ItemModel>)
    requires
        nodes_ok(nodes),
        items.len() == nodes.len(),
        forall|k: int| 0 <= k < items.len() ==> (#[trigger] items[k]).node == nodes[k],
    ensures
        closed_plan(items),
{
    assert forall|k: int| 0 <= k < items.len() implies (#[trigger] path_at(items, k)).len() > 0 by {
        assert(items[k].node == nodes[k]);
        assert(node_shape_ok(nodes[k]));
        let p = nodes[k].path;
        lemma_split_where_nonempty(p, |c: char| c == '/');
        assert(valid_segment(path_parts(p)[0]));
        if p.len() == 0 {
            assert(path_parts(p) == seq![Seq::<char>::empty()]);
        }
    }
    assert forall|a: int, b: int|
        0 <= a < items.len() && 0 <= b < items.len() && a != b implies #[trigger] path_at(items, a)
        != #[trigger] path_at(items, b) by {
        assert(items[a].node == nodes[a] && items[b].node == nodes[b]);
        if a < b {
            assert(nodes[a].path != nodes[b].path);
        } else {
            assert(nodes[b].path != nodes[a].path);
        }
    }
    assert forall|k: int|
        0 <= k < items.len() && parent_of(#[trigger] path_at(items, k)).len() > 0 implies listed_from(
        items,
        parent_of(path_at(items, k)),
        0,
    ) by {
        assert(items[k].node == nodes[k]);
        let p = nodes[k].path;
        assert(node_shape_ok(nodes[k]));
        lemma_split_where_nonempty(p, |c: char| c == '/');
        if path_parts(p).len() == 1 {
            lemma_one_part_no_parent(p);
        }
        assert(parent_before(nodes, k));
        let j = choose|j: int|
            0 <= j < k && (#[trigger] nodes[j]).path == parent_of(nodes[k].path) && nodes[j].kind
                == Kind::Folder;
        assert(items[j].node == nodes[j]);
        assert(path_at(items, j) == parent_of(p));
    }
}

/// Printed in tree order, the plan of a parsed tree shows each of its items
/// exactly once and nothing else, whatever the text and whatever is on disk:
/// entries that the text lists apart are gathered under their folder, none
/// lost and none repeated.
pub proof fn planned_tree_lists_each_item_once(text: Seq<char>, items: Seq<ItemModel>)
    requires
        items.len() == spec_parse(text).0.len(),
        forall|k: int| 0 <= k < items.len() ==> (#[trigger] items[k]).node == spec_parse(text).0[k],
    ensures
        forall|j: int|
            0 <= j < items.len() ==> occurrences(spec_tree_order(items), #[trigger] items[j]) == 1,
        forall|p: int|
            0 <= p < spec_tree_order(items).len() ==> is_item(
                items,
                #[trigger] spec_tree_order(items)[p].0,
            ),
{
    parse_gives_safe_tree(text);
    lemma_parsed_plan_closed(spec_parse(text).0, items);
    tree_order_lists_each_item_once(items);
}

proof fn lemma_join_split(p: Seq<char>)
    ensures
        join_slash(path_parts(p)) == p,
    decreases p.len(),
{
    let sep = |c: char| c == '/';
    if p.len() > 0 {
        let d = p.drop_last();
        let prev = split_where(d, sep);
        lemma_join_split(d);
        lemma_split_where_nonempty(d, sep);
        let c = p.last();
        if c == '/' {
            let r = prev.push(Seq::<char>::empty());
            assert(r.drop_last() =~= prev);
            assert(join_slash(r) =~= d + seq!['/'] + Seq::<char>::empty());
            assert(d + seq!['/'] + Seq::<char>::empty() =~= p);
        } else {
            let r = prev.update(prev.len() - 1, prev.last().push(c));
            if prev.len() == 1 {
                assert(join_slash(r) == r[0]);
                assert(r[0] =~= p);
            } else {
                assert(r.drop_last() =~= prev.drop_last());
                assert(join_slash(prev) == join_slash(prev.drop_last()) + seq!['/'] + prev.last());
                assert(join_slash(r) == join_slash(prev.drop_last()) + seq!['/'] + prev.last().push(c));
                assert(prev == path_parts(d));
                assert(join_slash(prev) == d);
                assert(d.push(c) =~= p);
                assert(join_slash(prev.drop_last()) + seq!['/'] + prev.last().push(c) =~= (join_slash(
                    prev.drop_last(),
                ) + seq!['/'] + prev.last()).push(c));
            }
        }
    }
}

proof fn lemma_folders_on_the_way(nodes: Seq<NodeModel>, i: int, m: int)
    requires
        nodes_ok(nodes),
        0 <= i < nodes.len(),
        1 <= m < path_parts(nodes[i].path).len(),
    ensures
        exists|j: int|
            0 <= j < i && (#[trigger] nodes[j]).path == join_slash(path_parts(nodes[i].path).take(m))
                && nodes[j].kind == Kind::Folder,
    decreases i,
{
    let parts = path_parts(nodes[i].path);
    assert(node_shape_ok(nodes[i]));
    assert(parent_before(nodes, i));
    let j = choose|j: int|
        0 <= j < i && (#[trigger] nodes[j]).path == parent_of(nodes[i].path) && nodes[j].kind
            == Kind::Folder;
    lemma_join_split(nodes[i].path);
    lemma_parent_of_join(parts);
    let up = parts.drop_last();
    assert(nodes[j].path == join_slash(up));
    if m == parts.len() - 1 {
        assert(parts.take(m) =~= up);
    } else {
        lemma_valid_prefix(parts, parts.len() - 1);
        assert(parts.take(parts.len() - 1) =~= up);
        lemma_parts_of_join(up);
        assert(path_parts(nodes[j].path) == up);
        lemma_folders_on_the_way(nodes, j, m);
        assert(up.take(m) =~= parts.take(m));
    }
}

/// Every folder on the way to a parsed node is itself a folder node before
/// it: for each of the node's first `m` segments (short of all of them),
/// an earlier folder node has that path. So nothing is ever nested under a
/// file.
pub proof fn parse_lists_every_folder_on_the_way(text: Seq<char>, i: int, m: int)
    requires
        0 <= i < spec_parse(text).0.len(),
        1 <= m < path_parts(spec_parse(text).0[i].path).len(),
    ensures
        exists|j: int|
            0 <= j < i && (#[trigger] spec_parse(text).0[j]).path == join_slash(
                path_parts(spec_parse(text).0[i].path).take(m),
            ) && spec_parse(text).0[j].kind == Kind::Folder,
{
    parse_gives_safe_tree(text);
    lemma_folders_on_the_way(spec_parse(text).0, i, m);
}

/// `s` neither starts nor ends with whitespace.
pub open spec fn no_edge_space(s: Seq<char>) -> bool {
    s.len() > 0 ==> !spec_is_whitespace(s[0]) && !spec_is_whitespace(s.last())
}

proof fn lemma_trim_end_edge(s: Seq<char>)
    ensures
        trim_end(s).len() > 0 ==> !spec_is_whitespace(trim_end(s).last()),
    decreases s.len(),
{
    if s.len() > 0 && spec_is_whitespace(s.last()) {
        lemma_trim_end_edge(s.drop_last());
    }
}

proof fn lemma_trim_start_edge(s: Seq<char>)
    ensures
        trim_start(s).len() > 0 ==> !spec_is_whitespace(trim_start(s)[0]),
        trim_start(s).len() > 0 ==> trim_start(s).last() == s.last(),
    decreases s.len(),
{
    if s.len() > 0 && spec_is_whitespace(s[0]) {
        lemma_trim_start_edge(s.drop_first());
        if s.drop_first().len() > 0 {
            assert(s.drop_first().last() == s.last());
        }
    }
}

proof fn lemma_trim_edges(s: Seq<char>)
    ensures
        no_edge_space(trim(s)),
{
    lemma_trim_end_edge(s);
    lemma_trim_start_edge(trim_end(s));
}

proof fn lemma_kept_segments_trimmed(ps: Seq<Seq<char>>)
    ensures
        forall|k: int| 0 <= k < keep_segments(ps).len() ==> no_edge_space(#[trigger] keep_segments(ps)[k]),
    decreases ps.len(),
{
    if ps.len() > 0 {
        lemma_kept_segments_trimmed(ps.drop_last());
        lemma_trim_edges(ps.last());
        let kd = keep_segments(ps.drop_last());
        let kp = keep_segments(ps);
        assert forall|k: int| 0 <= k < kp.len() implies no_edge_space(#[trigger] kp[k]) by {
            if k < kd.len() {
                assert(kp[k] == kd[k]);
            }
        }
    }
}

/// Reading a line adds at most two problems, each about that line. An entry
/// it gives is on that line, and is a root marker with no segments, or has
/// segments that are all valid (none empty, `.` or `..`, none holding a
/// separator or a character not allowed in file names) and none with
/// whitespace at either end.
pub proof fn reading_a_line(raw: Seq<char>, line_no: usize)
    ensures
        spec_read_entry(raw, line_no).1.len() <= 2,
        forall|k: int|
            0 <= k < spec_read_entry(raw, line_no).1.len() ==> (#[trigger] spec_read_entry(
                raw,
                line_no,
            ).1[k]).line == Some(line_no),
        spec_read_entry(raw, line_no).0 matches Some(e) ==> {
            &&& e.line == line_no
            &&& e.root_marker ==> e.segments.len() == 0
            &&& !e.root_marker ==> e.segments.len() > 0 && valid_segments(e.segments)
            &&& forall|k: int| 0 <= k < e.segments.len() ==> no_edge_space(#[trigger] e.segments[k])
        },
{
    lemma_read_entry_ok(raw, line_no);
    let line = clean_line(raw);
    let name = name_of(line.skip(spec_prefix_len(line)));
    lemma_kept_segments_trimmed(split_where(name, |c: char| is_path_sep(c)));
}

/// Every node without a source line is a folder.
pub open spec fn unlined_are_folders(nodes: Seq<NodeModel>) -> bool {
    forall|i: int| 0 <= i < nodes.len() && (#[trigger] nodes[i]).line is None ==> nodes[i].kind == Kind::Folder
}

proof fn lemma_add_node_unlined(nodes: Seq<NodeModel>, segs: Seq<Seq<char>>, kind: Kind, line: Option<usize>)
    requires
        unlined_are_folders(nodes),
        line is None ==> kind == Kind::Folder,
    ensures
        unlined_are_folders(add_node(nodes, segs, kind, line)),
{
    let r = add_node(nodes, segs, kind, line);
    let p = join_slash(segs);
    lemma_index_from(nodes, p, 0);
    let j = index_of_path(nodes, p);
    assert forall|i: int| 0 <= i < r.len() && (#[trigger] r[i]).line is None implies r[i].kind == Kind::Folder by {
        if j >= 0 {
            if kind == Kind::Folder {
                if i == j {
                    assert(r[i] == as_folder(nodes[j]));
                } else {
                    assert(r[i] == nodes[i]);
                }
            } else {
                assert(r[i] == nodes[i]);
            }
        } else if i < nodes.len() {
            assert(r[i] == nodes[i]);
        }
    }
}

proof fn lemma_add_prefixes_unlined(nodes: Seq<NodeModel>, full: Seq<Seq<char>>, lo: int, hi: int)
    requires
        unlined_are_folders(nodes),
    ensures
        unlined_are_folders(add_prefixes(nodes, full, lo, hi)),
    decreases hi - lo,
{
    if lo < hi {
        lemma_add_node_unlined(nodes, full.take(lo), Kind::Folder, None);
        lemma_add_prefixes_unlined(add_node(nodes, full.take(lo), Kind::Folder, None), full, lo + 1, hi);
    }
}

proof fn lemma_run_unlined(st: ParseState, entries: Seq<EntryModel>)
    requires
        unlined_are_folders(st.nodes),
    ensures
        unlined_are_folders(run(st, entries).nodes),
    decreases entries.len(),
{
    if entries.len() > 0 {
        let e = entries[0];
        let stack = pop_to(st.stack, e.column);
        let parent = top_segments(stack);
        let (nodes1, problems1) = mark_parent(st.nodes, st.problems, parent);
        assert(unlined_are_folders(nodes1)) by {
            let k = index_of_path(st.nodes, join_slash(parent));
            lemma_index_from(st.nodes, join_slash(parent), 0);
            assert forall|i: int| 0 <= i < nodes1.len() && (#[trigger] nodes1[i]).line is None implies nodes1[i].kind
                == Kind::Folder by {
                if parent.len() > 0 && k >= 0 && st.nodes[k].kind == Kind::File {
                    if i == k {
                        assert(nodes1[i] == as_folder(st.nodes[k]));
                    } else {
                        assert(nodes1[i] == st.nodes[i]);
                    }
                } else {
                    assert(nodes1[i] == st.nodes[i]);
                }
            }
        }
        if !e.root_marker {
            let full = parent + e.segments;
            lemma_add_prefixes_unlined(nodes1, full, parent.len() + 1int, full.len() as int);
            let nodes2 = add_prefixes(nodes1, full, parent.len() + 1int, full.len() as int);
            let kind = if e.explicit_folder {
                Kind::Folder
            } else {
                Kind::File
            };
            lemma_add_node_unlined(nodes2, full, kind, Some(e.line));
        }
        lemma_run_unlined(step(st, e), entries.drop_first());
    }
}

/// Only folders are ever made up: every parsed node that no line of the text
/// names (a folder implied by `a/b/c` shorthand) is a folder.
pub proof fn parse_makes_up_only_folders(text: Seq<char>)
    ensures
        unlined_are_folders(spec_parse(text).0),
{
    let (entries, problems) = read_from(text_lines(text), 0);
    let init = ParseState { nodes: Seq::empty(), problems, stack: Seq::empty() };
    lemma_run_unlined(init, entries);
}

} // verus!
