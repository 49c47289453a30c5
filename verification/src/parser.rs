//! Tree text to a flat list of files and folders. No filesystem access.
//!
//! Understands plain indentation (any width, tabs count as four spaces),
//! unicode `tree` output, Windows `tree /F` and `tree /F /A` output, ASCII
//! `|--` trees, markdown bullet lists and the `a/b/c.txt` shorthand, which
//! creates the intermediate folders. Depth is taken from the column where the
//! name starts, so any indent width works as long as siblings line up.

use vstd::prelude::*;

pub use crate::line::is_noise;

use crate::entry::{quoted, read_entry, spec_read_entry, Entry, EntryModel};
use crate::text::{chars_of, join_slash, join_with_slash, slice_chars, split_where, string_of, views};

verus! {

#[derive(Debug, Clone, Copy, PartialEq, Eq, Structural)]
pub enum Kind {
    File,
    Folder,
}

#[derive(Debug, Clone)]
pub struct Node {
    /// Path relative to the target folder, `/`-separated.
    pub path: String,
    pub name: String,
    pub kind: Kind,
    /// Zero-based source line; `None` for folders implied by `a/b/c` shorthand.
    pub line: Option<usize>,
    pub depth: usize,
}

/// What a [`Node`] holds, with its strings as character sequences.
pub struct NodeModel {
    pub path: Seq<char>,
    pub name: Seq<char>,
    pub kind: Kind,
    pub line: Option<usize>,
    pub depth: usize,
}

impl View for Node {
    type V = NodeModel;

    open spec fn view(&self) -> NodeModel {
        NodeModel {
            path: self.path@,
            name: self.name@,
            kind: self.kind,
            line: self.line,
            depth: self.depth,
        }
    }
}

#[derive(Debug, Clone)]
pub struct Problem {
    pub line: Option<usize>,
    pub message: String,
}

/// What a [`Problem`] holds.
pub struct ProblemModel {
    pub line: Option<usize>,
    pub message: Seq<char>,
}

impl View for Problem {
    type V = ProblemModel;

    open spec fn view(&self) -> ProblemModel {
        ProblemModel { line: self.line, message: self.message@ }
    }
}

#[derive(Debug)]
pub struct Parsed {
    pub nodes: Vec<Node>,
    pub problems: Vec<Problem>,
}

pub open spec fn node_views(v: Seq<Node>) -> Seq<NodeModel> {
    Seq::new(v.len(), |i: int| v[i]@)
}

pub open spec fn problem_views(v: Seq<Problem>) -> Seq<ProblemModel> {
    Seq::new(v.len(), |i: int| v[i]@)
}

/// The line with any `\r` at its end removed.
pub open spec fn strip_cr(l: Seq<char>) -> Seq<char>
    decreases l.len(),
{
    if l.len() > 0 && l.last() == '\r' {
        strip_cr(l.drop_last())
    } else {
        l
    }
}

/// The lines of the text: the pieces between `\n` characters.
pub open spec fn text_lines(text: Seq<char>) -> Seq<Seq<char>> {
    split_where(text, |c: char| c == '\n')
}

/// The entries and problems read from lines `i` onwards.
pub open spec fn read_from(lines: Seq<Seq<char>>, i: int) -> (Seq<EntryModel>, Seq<ProblemModel>)
    decreases lines.len() - i,
{
    if i < 0 || i >= lines.len() {
        (Seq::empty(), Seq::empty())
    } else {
        let (e, p) = spec_read_entry(strip_cr(lines[i]), i as usize);
        let (es, ps) = read_from(lines, i + 1);
        let first = match e {
            Some(x) => seq![x],
            None => Seq::empty(),
        };
        (first + es, p + ps)
    }
}

/// An open folder on the stack: the column its entry started at, and its
/// path segments.
pub struct FrameModel {
    pub column: usize,
    pub segments: Seq<Seq<char>>,
}

/// What the parser holds between entries.
pub struct ParseState {
    pub nodes: Seq<NodeModel>,
    pub problems: Seq<ProblemModel>,
    pub stack: Seq<FrameModel>,
}

/// The index of the first node at or after `i` with path `p`, or -1.
pub open spec fn index_from(nodes: Seq<NodeModel>, p: Seq<char>, i: int) -> int
    decreases nodes.len() - i,
{
    if i < 0 || i >= nodes.len() {
        -1
    } else if nodes[i].path == p {
        i
    } else {
        index_from(nodes, p, i + 1)
    }
}

pub open spec fn index_of_path(nodes: Seq<NodeModel>, p: Seq<char>) -> int {
    index_from(nodes, p, 0)
}

pub open spec fn as_folder(n: NodeModel) -> NodeModel {
    NodeModel { path: n.path, name: n.name, kind: Kind::Folder, line: n.line, depth: n.depth }
}

/// Records the path made of `segs`: a new node when the path is not there
/// yet, else the existing node, which becomes a folder when `kind` is one.
pub open spec fn add_node(
    nodes: Seq<NodeModel>,
    segs: Seq<Seq<char>>,
    kind: Kind,
    line: Option<usize>,
) -> Seq<NodeModel> {
    let p = join_slash(segs);
    let i = index_of_path(nodes, p);
    if i >= 0 {
        if kind == Kind::Folder {
            nodes.update(i, as_folder(nodes[i]))
        } else {
            nodes
        }
    } else {
        nodes.push(
            NodeModel {
                path: p,
                name: segs.last(),
                kind,
                line,
                depth: (segs.len() - 1) as usize,
            },
        )
    }
}

/// Adds the folders `full[..i]` for `i` in `lo..hi`, in that order.
pub open spec fn add_prefixes(nodes: Seq<NodeModel>, full: Seq<Seq<char>>, lo: int, hi: int) -> Seq<
    NodeModel,
>
    decreases hi - lo,
{
    if lo < hi {
        add_prefixes(add_node(nodes, full.take(lo), Kind::Folder, None), full, lo + 1, hi)
    } else {
        nodes
    }
}

/// The stack without the frames whose column is at or right of `column`.
pub open spec fn pop_to(stack: Seq<FrameModel>, column: usize) -> Seq<FrameModel>
    decreases stack.len(),
{
    if stack.len() > 0 && stack.last().column >= column {
        pop_to(stack.drop_last(), column)
    } else {
        stack
    }
}

pub open spec fn top_segments(stack: Seq<FrameModel>) -> Seq<Seq<char>> {
    if stack.len() == 0 {
        Seq::empty()
    } else {
        stack.last().segments
    }
}

pub open spec fn nested_message(name: Seq<char>) -> Seq<char> {
    quoted(name, " has entries nested under it, so it will be a folder"@)
}

/// A file that gets an entry nested under it becomes a folder, with a
/// problem that says so.
pub open spec fn mark_parent(
    nodes: Seq<NodeModel>,
    problems: Seq<ProblemModel>,
    parent: Seq<Seq<char>>,
) -> (Seq<NodeModel>, Seq<ProblemModel>) {
    let i = index_of_path(nodes, join_slash(parent));
    if parent.len() > 0 && i >= 0 && nodes[i].kind == Kind::File {
        (
            nodes.update(i, as_folder(nodes[i])),
            problems.push(ProblemModel { line: nodes[i].line, message: nested_message(nodes[i].name) }),
        )
    } else {
        (nodes, problems)
    }
}

/// What one entry does to the parser's state. Its parent is the innermost
/// open folder that started left of it; it becomes an open folder itself.
pub open spec fn step(st: ParseState, e: EntryModel) -> ParseState {
    let stack = pop_to(st.stack, e.column);
    let parent = top_segments(stack);
    let (nodes1, problems1) = mark_parent(st.nodes, st.problems, parent);
    if e.root_marker {
        ParseState {
            nodes: nodes1,
            problems: problems1,
            stack: stack.push(FrameModel { column: e.column, segments: parent }),
        }
    } else {
        let full = parent + e.segments;
        let nodes2 = add_prefixes(nodes1, full, parent.len() + 1int, full.len() as int);
        let kind = if e.explicit_folder {
            Kind::Folder
        } else {
            Kind::File
        };
        ParseState {
            nodes: add_node(nodes2, full, kind, Some(e.line)),
            problems: problems1,
            stack: stack.push(FrameModel { column: e.column, segments: full }),
        }
    }
}

/// The state after all the entries, in order.
pub open spec fn run(st: ParseState, entries: Seq<EntryModel>) -> ParseState
    decreases entries.len(),
{
    if entries.len() == 0 {
        st
    } else {
        run(step(st, entries[0]), entries.drop_first())
    }
}

/// The nodes and problems that parsing `text` gives. Problems found while
/// reading lines come first, in line order; those found while nesting
/// entries follow.
pub open spec fn spec_parse(text: Seq<char>) -> (Seq<NodeModel>, Seq<ProblemModel>) {
    let (entries, problems) = read_from(text_lines(text), 0);
    let st = run(
        ParseState { nodes: Seq::empty(), problems, stack: Seq::empty() },
        entries,
    );
    (st.nodes, st.problems)
}

/// An open folder on the stack.
struct Frame {
    column: usize,
    segments: Vec<Vec<char>>,
}

spec fn frame_views(v: Seq<Frame>) -> Seq<FrameModel> {
    Seq::new(v.len(), |i: int| FrameModel { column: v[i].column, segments: views(v[i].segments@) })
}

fn clone_segments(v: &Vec<Vec<char>>) -> (r: Vec<Vec<char>>)
    ensures
        views(r@) == views(v@),
{
    let mut r: Vec<Vec<char>> = Vec::new();
    let n = v.len();
    for i in 0..n
        invariant
            n == v@.len(),
            views(r@) == views(v@).take(i as int),
    {
        let c = slice_chars(&v[i], 0, v[i].len());
        assert(c@ =~= v@[i as int]@);
        let ghost before = views(r@);
        r.push(c);
        assert(views(r@) =~= before.push(c@));
        assert(views(r@) =~= views(v@).take(i + 1));
    }
    assert(views(v@).take(n as int) =~= views(v@));
    r
}

fn find_path(nodes: &Vec<Node>, p: &String) -> (r: Option<usize>)
    ensures
        match r {
            Some(i) => i < nodes@.len() && i == index_of_path(node_views(nodes@), p@),
            None => index_of_path(node_views(nodes@), p@) == -1,
        },
{
    let ghost nv = node_views(nodes@);
    let n = nodes.len();
    for i in 0..n
        invariant
            n == nodes@.len(),
            nv == node_views(nodes@),
            index_from(nv, p@, i as int) == index_from(nv, p@, 0),
    {
        if nodes[i].path == *p {
            return Some(i);
        }
    }
    None
}

fn make_folder(nodes: &mut Vec<Node>, i: usize)
    requires
        i < old(nodes)@.len(),
    ensures
        node_views(final(nodes)@) == node_views(old(nodes)@).update(
            i as int,
            as_folder(old(nodes)@[i as int]@),
        ),
{
    let n = Node {
        path: nodes[i].path.clone(),
        name: nodes[i].name.clone(),
        kind: Kind::Folder,
        line: nodes[i].line,
        depth: nodes[i].depth,
    };
    let ghost before = node_views(nodes@);
    nodes.set(i, n);
    assert(node_views(nodes@) =~= before.update(i as int, as_folder(old(nodes)@[i as int]@)));
}

fn add_node_exec(nodes: &mut Vec<Node>, segs: &Vec<Vec<char>>, kind: Kind, line: Option<usize>)
    requires
        segs@.len() >= 1,
    ensures
        node_views(final(nodes)@) == add_node(node_views(old(nodes)@), views(segs@), kind, line),
{
    let joined = join_with_slash(segs);
    let path = string_of(&joined);
    match find_path(nodes, &path) {
        Some(i) => {
            if kind == Kind::Folder {
                make_folder(nodes, i);
            }
        },
        None => {
            let last = &segs[segs.len() - 1];
            let name = string_of(last);
            let ghost before = node_views(nodes@);
            nodes.push(Node { path, name, kind, line, depth: segs.len() - 1 });
            assert(node_views(nodes@) =~= before.push(
                NodeModel {
                    path: join_slash(views(segs@)),
                    name: views(segs@).last(),
                    kind,
                    line,
                    depth: (views(segs@).len() - 1) as usize,
                },
            ));
        },
    }
}

fn mark_parent_exec(nodes: &mut Vec<Node>, problems: &mut Vec<Problem>, parent: &Vec<Vec<char>>)
    ensures
        (node_views(final(nodes)@), problem_views(final(problems)@)) == mark_parent(
            node_views(old(nodes)@),
            problem_views(old(problems)@),
            views(parent@),
        ),
{
    if parent.len() == 0 {
        return;
    }
    let joined = join_with_slash(parent);
    let key = string_of(&joined);
    match find_path(nodes, &key) {
        Some(i) => {
            if nodes[i].kind == Kind::File {
                let name = chars_of(nodes[i].name.as_str());
                let message = quoted_message_text(&name);
                let line = nodes[i].line;
                let ghost before = problem_views(problems@);
                problems.push(Problem { line, message });
                assert(problem_views(problems@) =~= before.push(
                    ProblemModel { line, message: nested_message(name@) },
                ));
                make_folder(nodes, i);
            }
        },
        None => {},
    }
}

fn quoted_message_text(name: &[char]) -> (r: String)
    ensures
        r@ == nested_message(name@),
{
    let mut v: Vec<char> = Vec::new();
    v.push('"');
    crate::text::extend_chars(&mut v, name);
    v.push('"');
    let t = chars_of(" has entries nested under it, so it will be a folder");
    crate::text::extend_chars(&mut v, &t);
    assert(v@ =~= nested_message(name@));
    string_of(&v)
}

fn split_lines(text: &[char]) -> (lines: Vec<Vec<char>>)
    ensures
        views(lines@) == text_lines(text@),
{
    let ghost sep = |c: char| c == '\n';
    let mut done: Vec<Vec<char>> = Vec::new();
    let mut cur: Vec<char> = Vec::new();
    let n = text.len();
    for i in 0..n
        invariant
            n == text@.len(),
            sep == (|c: char| c == '\n'),
            split_where(text@.take(i as int), sep).len() >= 1,
            views(done@) == split_where(text@.take(i as int), sep).drop_last(),
            cur@ == split_where(text@.take(i as int), sep).last(),
    {
        let ghost prev = split_where(text@.take(i as int), sep);
        let c = text[i];
        assert(text@.take(i + 1).drop_last() =~= text@.take(i as int));
        assert(text@.take(i + 1).last() == c);
        if c == '\n' {
            let ghost d0 = views(done@);
            done.push(cur);
            cur = Vec::new();
            assert(views(done@) =~= d0.push(prev.last()));
            assert(prev.drop_last().push(prev.last()) =~= prev);
            assert(split_where(text@.take(i + 1), sep).drop_last() =~= prev);
        } else {
            cur.push(c);
            assert(split_where(text@.take(i + 1), sep).drop_last() =~= prev.drop_last());
        }
    }
    let ghost ps = split_where(text@.take(n as int), sep);
    assert(text@.take(n as int) == text@);
    let ghost d0 = views(done@);
    done.push(cur);
    assert(views(done@) =~= d0.push(ps.last()));
    assert(ps.drop_last().push(ps.last()) =~= ps);
    done
}

fn without_cr(l: &Vec<char>) -> (r: Vec<char>)
    ensures
        r@ == strip_cr(l@),
{
    let mut j = l.len();
    assert(l@.take(l@.len() as int) == l@);
    while j > 0 && l[j - 1] == '\r'
        invariant
            j <= l@.len(),
            strip_cr(l@.take(j as int)) == strip_cr(l@),
        decreases j,
    {
        assert(l@.take(j as int).drop_last() == l@.take(j - 1));
        j = j - 1;
    }
    slice_chars(l, 0, j)
}

spec fn entry_views(v: Seq<Entry>) -> Seq<EntryModel> {
    Seq::new(v.len(), |i: int| v[i]@)
}

fn prefix_segments(v: &Vec<Vec<char>>, n: usize) -> (r: Vec<Vec<char>>)
    requires
        n <= v@.len(),
    ensures
        views(r@) == views(v@).take(n as int),
{
    let mut r: Vec<Vec<char>> = Vec::new();
    for i in 0..n
        invariant
            n <= v@.len(),
            views(r@) == views(v@).take(i as int),
    {
        let c = slice_chars(&v[i], 0, v[i].len());
        assert(c@ =~= v@[i as int]@);
        let ghost before = views(r@);
        r.push(c);
        assert(views(r@) =~= before.push(c@));
        assert(views(r@) =~= views(v@).take(i + 1));
    }
    r
}

fn concat_segments(a: &Vec<Vec<char>>, b: &Vec<Vec<char>>) -> (r: Vec<Vec<char>>)
    ensures
        views(r@) == views(a@) + views(b@),
{
    let mut r = clone_segments(a);
    let n = b.len();
    for i in 0..n
        invariant
            n == b@.len(),
            views(r@) == views(a@) + views(b@).take(i as int),
    {
        let c = slice_chars(&b[i], 0, b[i].len());
        assert(c@ =~= b@[i as int]@);
        let ghost before = views(r@);
        r.push(c);
        assert(views(r@) =~= before.push(c@));
        assert(views(r@) =~= views(a@) + views(b@).take(i + 1));
    }
    assert(views(b@).take(n as int) =~= views(b@));
    r
}

spec fn state_of(nodes: Seq<Node>, problems: Seq<Problem>, stack: Seq<Frame>) -> ParseState {
    ParseState {
        nodes: node_views(nodes),
        problems: problem_views(problems),
        stack: frame_views(stack),
    }
}

/// Applies one entry to the parser's state.
fn apply_entry(
    nodes: &mut Vec<Node>,
    problems: &mut Vec<Problem>,
    stack: &mut Vec<Frame>,
    e: &Entry,
)
    requires
        e.root_marker || e.segments@.len() > 0,
    ensures
        state_of(final(nodes)@, final(problems)@, final(stack)@) == step(
            state_of(old(nodes)@, old(problems)@, old(stack)@),
            e@,
        ),
{
    let ghost st = state_of(nodes@, problems@, stack@);
    let ghost col = e.column;
    while stack.len() > 0 && stack[stack.len() - 1].column >= e.column
        invariant
            pop_to(frame_views(stack@), col) == pop_to(st.stack, col),
            col == e.column,
        decreases stack@.len(),
    {
        let ghost before = frame_views(stack@);
        stack.pop();
        assert(frame_views(stack@) =~= before.drop_last());
    }
    let ghost popped = frame_views(stack@);
    assert(popped == pop_to(st.stack, e.column));
    let parent = if stack.len() == 0 {
        Vec::new()
    } else {
        clone_segments(&stack[stack.len() - 1].segments)
    };
    assert(views(parent@) =~= top_segments(popped));
    mark_parent_exec(nodes, problems, &parent);
    let ghost marked = mark_parent(st.nodes, st.problems, views(parent@));
    if e.root_marker {
        let ghost before = frame_views(stack@);
        stack.push(Frame { column: e.column, segments: parent });
        assert(frame_views(stack@) =~= before.push(
            FrameModel { column: e.column, segments: top_segments(popped) },
        ));
    } else {
        let full = concat_segments(&parent, &e.segments);
        assert(full@.len() == views(full@).len());
        assert(views(full@).len() == parent@.len() + e.segments@.len());
        assert(e.segments@.len() > 0);
        let hi = full.len();
        assert(parent@.len() + 1 <= hi);
        let lo = parent.len() + 1;
        let ghost n1 = node_views(nodes@);
        for i in lo..hi
            invariant
                views(full@) == views(parent@) + e@.segments,
                hi == full@.len(),
                lo == parent@.len() + 1,
                lo <= hi,
                add_prefixes(node_views(nodes@), views(full@), i as int, hi as int) == add_prefixes(
                    n1,
                    views(full@),
                    lo as int,
                    hi as int,
                ),
        {
            let pre = prefix_segments(&full, i);
            add_node_exec(nodes, &pre, Kind::Folder, None);
        }
        let kind = if e.explicit_folder {
            Kind::Folder
        } else {
            Kind::File
        };
        add_node_exec(nodes, &full, kind, Some(e.line));
        let ghost before = frame_views(stack@);
        stack.push(Frame { column: e.column, segments: full });
        assert(frame_views(stack@) =~= before.push(
            FrameModel { column: e.column, segments: views(parent@) + e@.segments },
        ));
    }
}

/// Parses tree text into its files and folders, and the problems found on
/// the way.
pub fn parse(text: &str) -> (r: Parsed)
    ensures
        (node_views(r.nodes@), problem_views(r.problems@)) == spec_parse(text@),
{
    let chars = chars_of(text);
    let lines = split_lines(&chars);
    let ghost ls = text_lines(text@);
    let mut problems: Vec<Problem> = Vec::new();
    let mut entries: Vec<Entry> = Vec::new();
    let n = lines.len();
    assert(entry_views(entries@) + read_from(ls, 0).0 =~= read_from(ls, 0).0);
    assert(problem_views(problems@) + read_from(ls, 0).1 =~= read_from(ls, 0).1);
    for i in 0..n
        invariant
            n == lines@.len(),
            views(lines@) == ls,
            entry_views(entries@) + read_from(ls, i as int).0 == read_from(ls, 0).0,
            problem_views(problems@) + read_from(ls, i as int).1 == read_from(ls, 0).1,
            forall|k: int|
                0 <= k < entries@.len() ==> (#[trigger] entries@[k]).root_marker
                    || entries@[k].segments@.len() > 0,
    {
        let l = without_cr(&lines[i]);
        assert(l@ == strip_cr(ls[i as int]));
        let ghost p_before = problem_views(problems@);
        let ghost e_before = entry_views(entries@);
        let got = read_entry(&l, i, &mut problems);
        let ghost rest = read_from(ls, i + 1);
        let ghost here = spec_read_entry(strip_cr(ls[i as int]), i);
        assert(problem_views(problems@) + rest.1 =~= p_before + (here.1 + rest.1));
        match got {
            Some(e) => {
                entries.push(e);
                assert(entry_views(entries@) =~= e_before.push(here.0.unwrap()));
                assert(entry_views(entries@) + rest.0 =~= e_before + (seq![here.0.unwrap()]
                    + rest.0));
            },
            None => {
                assert(e_before + rest.0 =~= e_before + (Seq::<EntryModel>::empty() + rest.0));
            },
        }
    }
    let ghost es = read_from(ls, 0).0;
    assert(read_from(ls, n as int).0 =~= Seq::<EntryModel>::empty());
    assert(read_from(ls, n as int).1 =~= Seq::<ProblemModel>::empty());
    assert(entry_views(entries@) + read_from(ls, n as int).0 =~= entry_views(entries@));
    assert(problem_views(problems@) + read_from(ls, n as int).1 =~= problem_views(problems@));
    assert(entry_views(entries@) =~= es);
    assert(problem_views(problems@) =~= read_from(ls, 0).1);
    let mut nodes: Vec<Node> = Vec::new();
    let mut stack: Vec<Frame> = Vec::new();
    let ghost init = ParseState { nodes: Seq::empty(), problems: read_from(ls, 0).1, stack: Seq::empty() };
    assert(node_views(nodes@) =~= Seq::<NodeModel>::empty());
    assert(frame_views(stack@) =~= Seq::<FrameModel>::empty());
    assert(state_of(nodes@, problems@, stack@) == init);
    assert(es.skip(0) =~= es);
    let m = entries.len();
    for k in 0..m
        invariant
            m == entries@.len(),
            entry_views(entries@) == es,
            run(state_of(nodes@, problems@, stack@), es.skip(k as int)) == run(init, es),
            forall|j: int|
                0 <= j < entries@.len() ==> (#[trigger] entries@[j]).root_marker
                    || entries@[j].segments@.len() > 0,
    {
        let ghost before = state_of(nodes@, problems@, stack@);
        apply_entry(&mut nodes, &mut problems, &mut stack, &entries[k]);
        assert(es.skip(k as int)[0] == entries@[k as int]@);
        assert(es.skip(k as int).drop_first() =~= es.skip(k + 1));
    }
    Parsed { nodes, problems }
}

} // verus!
