//! Drawing a listing and reading the drawing back gives the listing's
//! entries, in drawing order, each with its path from the root.

use vstd::prelude::*;

use crate::entry::{
    clean_line, skipped_line, spec_read_entry, EntryModel, expand, first_bad, has_forbidden, is_bad_segment, is_path_sep, is_unicode_space, keep_segments,
    name_of, segments_of,
};
use crate::line::{
    all_ascii_digits, ascii_lower, ascii_lower_char, glyph_end, spec_prefix_len, is_branch, is_branch_tail, is_comment, is_forbidden, is_vertical,
    is_word_sep, nonempty_pieces, note_cut, skip_dashes, skip_tail, spec_is_ellipsis,
    spec_is_root_marker, spec_strip_note, spec_strip_wrapping, words,
};
use crate::text::{
    join_slash, lemma_split_append_plain, lemma_split_where_nonempty, no_char, spec_is_whitespace, split_where,
    starts_with, trim, trim_end, trim_start,
};
use crate::parser::{
    add_node, add_prefixes, index_of_path, mark_parent, pop_to, read_from, run, spec_parse, step,
    strip_cr, text_lines, top_segments, FrameModel, Kind, NodeModel, ParseState, ProblemModel,
};
use crate::shape::{lemma_index_from, lemma_parts_of_join, valid_segment, valid_segments};
use crate::render::{
    child_rel, glyphs, is_folder_model, label_of, render_text, spec_lines, walk_lines, walk_seq, LineModel, ListingModel,
    Style,
};

verus! {

/// A character of a plain name: an ASCII letter or digit, `.`, `_` or `-`.
pub open spec fn plain_char(c: char) -> bool {
    ('a' <= c && c <= 'z') || ('A' <= c && c <= 'Z') || ('0' <= c && c <= '9') || c == '.' || c
        == '_' || c == '-'
}

/// A name that reads back as itself: plain characters, not only dots, and
/// not the placeholder `etc` or `etc.` in any case.
pub open spec fn plain_name(n: Seq<char>) -> bool {
    &&& n.len() > 0
    &&& forall|i: int| 0 <= i < n.len() ==> plain_char(#[trigger] n[i])
    &&& exists|i: int| 0 <= i < n.len() && #[trigger] n[i] != '.'
    &&& crate::line::ascii_lower(n) != seq!['e', 't', 'c']
    &&& crate::line::ascii_lower(n) != seq!['e', 't', 'c', '.']
}

/// A listing whose names are all plain, and whose folders never hold two
/// entries of one name.
pub open spec fn plain_tree(m: ListingModel) -> bool
    decreases m, 1int,
{
    plain_name(m.name) && match m.children {
        Some(cs) => plain_seq(cs) && distinct_names(cs),
        None => true,
    }
}

pub open spec fn plain_seq(cs: Seq<ListingModel>) -> bool
    decreases cs, 0int,
{
    cs.len() == 0 || (plain_seq(cs.drop_last()) && plain_tree(cs.last()))
}

pub open spec fn distinct_names(cs: Seq<ListingModel>) -> bool {
    forall|i: int, j: int| 0 <= i < j < cs.len() ==> (#[trigger] cs[i]).name != (#[trigger] cs[j]).name
}

/// One entry of a listing: the names on its path from the root, and
/// whether it is a folder.
pub struct Row {
    pub segs: Seq<Seq<char>>,
    pub folder: bool,
}

/// The entries below `m`, whose path is `segs`, in drawing order.
pub open spec fn rows_below(m: ListingModel, segs: Seq<Seq<char>>) -> Seq<Row>
    decreases m, 1int,
{
    match m.children {
        Some(cs) => rows_seq(cs, segs),
        None => Seq::empty(),
    }
}

pub open spec fn rows_seq(cs: Seq<ListingModel>, segs: Seq<Seq<char>>) -> Seq<Row>
    decreases cs, 0int,
{
    if cs.len() == 0 {
        Seq::empty()
    } else {
        let c = cs.last();
        rows_seq(cs.drop_last(), segs) + seq![
            Row { segs: segs.push(c.name), folder: is_folder_model(c) },
        ] + rows_below(c, segs.push(c.name))
    }
}

/// A listing's entries in drawing order: the root, then what is below it.
pub open spec fn listing_rows(root: ListingModel) -> Seq<Row> {
    seq![Row { segs: seq![root.name], folder: is_folder_model(root) }] + rows_below(
        root,
        seq![root.name],
    )
}

pub open spec fn is_prefix(a: Seq<Seq<char>>, b: Seq<Seq<char>>) -> bool {
    a.len() <= b.len() && b.take(a.len() as int) == a
}

/// The shape of the entries drawn below the entry whose path is `segs`:
/// each extends `segs` with plain names; the first is a direct entry; each
/// one's folder path is a prefix of the path before it; each one's folder
/// is the block's own folder or a folder entry before it; no path repeats.
pub open spec fn block_ok(r: Seq<Row>, segs: Seq<Seq<char>>) -> bool {
    &&& forall|k: int| 0 <= k < r.len() ==> ext_ok(#[trigger] r[k], segs)
    &&& r.len() > 0 ==> r[0].segs.len() == segs.len() + 1
    &&& forall|k: int| 1 <= k < r.len() ==> is_prefix((#[trigger] r[k]).segs.drop_last(), r[k - 1].segs)
    &&& forall|k: int| 0 <= k < r.len() ==> #[trigger] parent_row(r, k, segs)
    &&& forall|i: int, j: int| 0 <= i < j < r.len() ==> (#[trigger] r[i]).segs != (#[trigger] r[j]).segs
}

/// A row extends `segs` by plain names.
pub open spec fn ext_ok(row: Row, segs: Seq<Seq<char>>) -> bool {
    &&& row.segs.len() > segs.len()
    &&& is_prefix(segs, row.segs)
    &&& forall|j: int| segs.len() <= j < row.segs.len() ==> plain_name(#[trigger] row.segs[j])
}

/// Row `k`'s folder is the block's folder, or a folder row before it.
pub open spec fn parent_row(r: Seq<Row>, k: int, segs: Seq<Seq<char>>) -> bool {
    r[k].segs.len() == segs.len() + 1 || exists|p: int|
        0 <= p < k && (#[trigger] r[p]).segs == r[k].segs.drop_last() && r[p].folder
}

} // verus!

verus! {

pub proof fn lemma_rows_below(m: ListingModel, segs: Seq<Seq<char>>)
    requires
        plain_tree(m),
    ensures
        block_ok(rows_below(m, segs), segs),
        rows_below(m, segs).len() > 0 ==> is_folder_model(m),
    decreases m, 1int,
{
    match m.children {
        Some(cs) => {
            lemma_rows_seq(cs, segs);
        },
        None => {},
    }
}

/// Row `k` of the block names an entry of `cs` right after `segs`.
pub open spec fn names_child(r: Seq<Row>, k: int, segs: Seq<Seq<char>>, cs: Seq<ListingModel>) -> bool {
    exists|i: int| 0 <= i < cs.len() && r[k].segs[segs.len() as int] == cs[i].name
}

proof fn lemma_ext_push(row: Row, segs: Seq<Seq<char>>, name: Seq<char>)
    requires
        ext_ok(row, segs.push(name)),
        plain_name(name),
    ensures
        ext_ok(row, segs),
        row.segs[segs.len() as int] == name,
{
    let s2 = segs.push(name);
    assert(row.segs.take(s2.len() as int)[segs.len() as int] == s2[segs.len() as int]);
    assert(row.segs.take(segs.len() as int) =~= row.segs.take(s2.len() as int).take(segs.len() as int));
    assert(s2.take(segs.len() as int) =~= segs);
}

proof fn lemma_concat_ext(a: Seq<Row>, row: Row, b: Seq<Row>, segs: Seq<Seq<char>>, name: Seq<char>)
    requires
        forall|k: int| 0 <= k < a.len() ==> ext_ok(#[trigger] a[k], segs),
        forall|k: int| 0 <= k < b.len() ==> ext_ok(#[trigger] b[k], segs.push(name)),
        row.segs == segs.push(name),
        plain_name(name),
    ensures
        forall|k: int| 0 <= k < (a + seq![row] + b).len() ==> ext_ok(#[trigger] (a + seq![row] + b)[k], segs),
        forall|k: int| 0 <= k < b.len() ==> (#[trigger] b[k]).segs[segs.len() as int] == name,
{
    let r = a + seq![row] + b;
    let na = a.len() as int;
    assert forall|k: int| 0 <= k < b.len() implies (#[trigger] b[k]).segs[segs.len() as int] == name by {
        lemma_ext_push(b[k], segs, name);
    }
    assert forall|k: int| 0 <= k < r.len() implies ext_ok(#[trigger] r[k], segs) by {
        if k < na {
            assert(r[k] == a[k]);
        } else if k == na {
            assert(r[k] == row);
            assert(row.segs.take(segs.len() as int) =~= segs);
        } else {
            assert(r[k] == b[k - na - 1]);
            lemma_ext_push(b[k - na - 1], segs, name);
        }
    }
}

proof fn lemma_concat_chain(a: Seq<Row>, row: Row, b: Seq<Row>, segs: Seq<Seq<char>>, name: Seq<char>)
    requires
        forall|k: int| 0 <= k < a.len() ==> ext_ok(#[trigger] a[k], segs),
        forall|k: int| 1 <= k < a.len() ==> is_prefix((#[trigger] a[k]).segs.drop_last(), a[k - 1].segs),
        forall|k: int| 1 <= k < b.len() ==> is_prefix((#[trigger] b[k]).segs.drop_last(), b[k - 1].segs),
        b.len() > 0 ==> b[0].segs.len() == segs.len() + 2,
        forall|k: int| 0 <= k < b.len() ==> ext_ok(#[trigger] b[k], segs.push(name)),
        row.segs == segs.push(name),
    ensures
        forall|k: int|
            1 <= k < (a + seq![row] + b).len() ==> is_prefix(
                (#[trigger] (a + seq![row] + b)[k]).segs.drop_last(),
                (a + seq![row] + b)[k - 1].segs,
            ),
{
    let r = a + seq![row] + b;
    let na = a.len() as int;
    let s2 = segs.push(name);
    assert forall|k: int| 1 <= k < r.len() implies is_prefix(
        (#[trigger] r[k]).segs.drop_last(),
        r[k - 1].segs,
    ) by {
        if k < na {
            assert(r[k] == a[k] && r[k - 1] == a[k - 1]);
        } else if k == na {
            assert(r[k - 1] == a[na - 1]);
            assert(r[k] == row);
            assert(s2.drop_last() =~= segs);
        } else if k == na + 1 {
            assert(r[k] == b[0]);
            assert(r[k - 1] == row);
            assert(b[0].segs.drop_last() =~= b[0].segs.take(s2.len() as int));
            assert(s2.take(s2.len() as int) =~= s2);
        } else {
            assert(r[k] == b[k - na - 1] && r[k - 1] == b[k - na - 2]);
        }
    }
}

proof fn lemma_concat_parents(a: Seq<Row>, row: Row, b: Seq<Row>, segs: Seq<Seq<char>>, name: Seq<char>)
    requires
        forall|k: int| 0 <= k < a.len() ==> #[trigger] parent_row(a, k, segs),
        forall|k: int| 0 <= k < b.len() ==> #[trigger] parent_row(b, k, segs.push(name)),
        forall|k: int| 0 <= k < b.len() ==> ext_ok(#[trigger] b[k], segs.push(name)),
        row.segs == segs.push(name),
        b.len() > 0 ==> row.folder,
    ensures
        forall|k: int| 0 <= k < (a + seq![row] + b).len() ==> #[trigger] parent_row(a + seq![row] + b, k, segs),
{
    let r = a + seq![row] + b;
    let na = a.len() as int;
    let s2 = segs.push(name);
    assert forall|k: int| 0 <= k < r.len() implies #[trigger] parent_row(r, k, segs) by {
        if k < na {
            assert(r[k] == a[k]);
            assert(parent_row(a, k, segs));
            if a[k].segs.len() != segs.len() + 1 {
                let p = choose|p: int| 0 <= p < k && (#[trigger] a[p]).segs == a[k].segs.drop_last() && a[p].folder;
                assert(r[p] == a[p]);
            }
        } else if k == na {
            assert(r[k] == row);
        } else {
            let q = k - na - 1;
            assert(r[k] == b[q]);
            assert(parent_row(b, q, s2));
            if b[q].segs.len() == s2.len() + 1 {
                assert(b[q].segs.drop_last() =~= b[q].segs.take(s2.len() as int));
                assert(r[na] == row);
                assert(r[na].segs == r[k].segs.drop_last());
            } else {
                let p = choose|p: int| 0 <= p < q && (#[trigger] b[p]).segs == b[q].segs.drop_last() && b[p].folder;
                assert(r[na + 1 + p] == b[p]);
            }
        }
    }
}

proof fn lemma_concat_distinct(
    a: Seq<Row>,
    row: Row,
    b: Seq<Row>,
    segs: Seq<Seq<char>>,
    name: Seq<char>,
    d: Seq<ListingModel>,
)
    requires
        forall|i: int, j: int| 0 <= i < j < a.len() ==> (#[trigger] a[i]).segs != (#[trigger] a[j]).segs,
        forall|i: int, j: int| 0 <= i < j < b.len() ==> (#[trigger] b[i]).segs != (#[trigger] b[j]).segs,
        forall|k: int| 0 <= k < a.len() ==> #[trigger] names_child(a, k, segs, d),
        forall|k: int| 0 <= k < d.len() ==> (#[trigger] d[k]).name != name,
        forall|k: int| 0 <= k < b.len() ==> (#[trigger] b[k]).segs[segs.len() as int] == name,
        forall|k: int| 0 <= k < b.len() ==> (#[trigger] b[k]).segs.len() > segs.len() + 1,
        row.segs == segs.push(name),
    ensures
        forall|i: int, j: int|
            0 <= i < j < (a + seq![row] + b).len() ==> (#[trigger] (a + seq![row] + b)[i]).segs != (
            #[trigger] (a + seq![row] + b)[j]).segs,
{
    let r = a + seq![row] + b;
    let na = a.len() as int;
    assert forall|i: int, j: int| 0 <= i < j < r.len() implies (#[trigger] r[i]).segs != (
    #[trigger] r[j]).segs by {
        if j < na {
            assert(r[i] == a[i] && r[j] == a[j]);
        } else if i < na {
            assert(r[i] == a[i]);
            assert(names_child(a, i, segs, d));
            let q = choose|q: int| 0 <= q < d.len() && a[i].segs[segs.len() as int] == d[q].name;
            if j == na {
                assert(r[j].segs[segs.len() as int] == name);
            } else {
                assert(r[j] == b[j - na - 1]);
            }
        } else if i == na {
            assert(r[i] == row);
            assert(r[j] == b[j - na - 1]);
        } else {
            assert(r[i] == b[i - na - 1] && r[j] == b[j - na - 1]);
        }
    }
}

pub proof fn lemma_rows_seq(cs: Seq<ListingModel>, segs: Seq<Seq<char>>)
    requires
        plain_seq(cs),
        distinct_names(cs),
    ensures
        block_ok(rows_seq(cs, segs), segs),
        forall|k: int| 0 <= k < rows_seq(cs, segs).len() ==> #[trigger] names_child(rows_seq(cs, segs), k, segs, cs),
    decreases cs, 0int,
{
    if cs.len() > 0 {
        let d = cs.drop_last();
        let c = cs.last();
        assert(distinct_names(d)) by {
            assert forall|i: int, j: int| 0 <= i < j < d.len() implies (#[trigger] d[i]).name != (
            #[trigger] d[j]).name by {
                assert(d[i] == cs[i] && d[j] == cs[j]);
            }
        }
        assert forall|k: int| 0 <= k < d.len() implies (#[trigger] d[k]).name != c.name by {
            assert(d[k] == cs[k]);
        }
        lemma_rows_seq(d, segs);
        assert(plain_tree(c));
        assert(plain_name(c.name));
        let s2 = segs.push(c.name);
        lemma_rows_below(c, s2);
        let a = rows_seq(d, segs);
        let row = Row { segs: s2, folder: is_folder_model(c) };
        let b = rows_below(c, s2);
        let r = rows_seq(cs, segs);
        assert(r == a + seq![row] + b);
        lemma_concat_ext(a, row, b, segs, c.name);
        lemma_concat_chain(a, row, b, segs, c.name);
        lemma_concat_parents(a, row, b, segs, c.name);
        lemma_concat_distinct(a, row, b, segs, c.name, d);
        if a.len() > 0 {
            assert(r[0] == a[0]);
        } else {
            assert(r[0] == row);
        }
        let na = a.len() as int;
        assert forall|k: int| 0 <= k < r.len() implies #[trigger] names_child(r, k, segs, cs) by {
            if k < na {
                assert(r[k] == a[k]);
                assert(names_child(a, k, segs, d));
                let q = choose|q: int| 0 <= q < d.len() && a[k].segs[segs.len() as int] == d[q].name;
                assert(cs[q] == d[q]);
            } else if k == na {
                assert(r[k] == row);
                assert(cs[cs.len() - 1] == c);
            } else {
                assert(r[k] == b[k - na - 1]);
                assert(cs[cs.len() - 1] == c);
            }
        }
    }
}

} // verus!

verus! {

/// The width of one level of indentation in a style.
pub open spec fn width(style: Style) -> nat {
    match style {
        Style::Indent => 2,
        _ => 4,
    }
}

/// The column at which a name `d` levels deep starts.
pub open spec fn indent(d: nat, w: nat) -> nat
    decreases d,
{
    if d == 0 {
        0
    } else {
        indent((d - 1) as nat, w) + w
    }
}

proof fn lemma_indent_mono(a: nat, b: nat, w: nat)
    requires
        w > 0,
    ensures
        a < b ==> indent(a, w) < indent(b, w),
        a <= b ==> indent(a, w) <= indent(b, w),
    decreases b,
{
    if b > 0 && a < b {
        lemma_indent_mono(a, (b - 1) as nat, w);
    }
}

/// Characters that tree glyphs are drawn with.
pub open spec fn glyph_char(c: char) -> bool {
    c == ' ' || c == '│' || c == '├' || c == '└' || c == '─' || c == '|' || c == '`' || c == '-'
}

/// A drawn prefix: glyph characters only, and each backtick followed by a
/// dash.
pub open spec fn prefix_chars_ok(p: Seq<char>) -> bool {
    &&& forall|i: int| 0 <= i < p.len() ==> glyph_char(#[trigger] p[i])
    &&& forall|i: int| 0 <= i < p.len() && #[trigger] p[i] == '`' ==> i + 1 < p.len() && p[i + 1] == '-'
}

/// Reading glyphs from the start of any line that begins with `q` gets at
/// least to the end of `q`.
pub open spec fn scans_to(q: Seq<char>) -> bool {
    forall|x: Seq<char>|
        x.len() >= q.len() && x.take(q.len() as int) == q ==> #[trigger] glyph_end(x, 0) == glyph_end(
            x,
            q.len() as int,
        )
}

/// Reading glyphs from the start of a line that begins with `p` followed by
/// a plain character stops right at the end of `p`.
pub open spec fn scans_line(p: Seq<char>) -> bool {
    forall|x: Seq<char>|
        x.len() > p.len() && x.take(p.len() as int) == p && plain_char(x[p.len() as int])
            ==> #[trigger] glyph_end(x, 0) == p.len()
}

proof fn lemma_vertical_run(x: Seq<char>, a: int, n: int)
    requires
        0 <= a,
        0 <= n,
        a + n <= x.len(),
        forall|i: int| a <= i < a + n ==> is_vertical(#[trigger] x[i]),
    ensures
        glyph_end(x, a) == glyph_end(x, a + n),
    decreases n,
{
    if n > 0 {
        assert(is_vertical(x[a]));
        lemma_vertical_run(x, a + 1, n - 1);
    }
}

proof fn lemma_stop(x: Seq<char>, a: int)
    requires
        0 <= a < x.len(),
        plain_char(x[a]),
    ensures
        glyph_end(x, a) == a,
{
}

/// An inner unit (the `│   ` or blank column of a style) at `a`.
proof fn lemma_inner_unit(x: Seq<char>, a: int, style: Style, u: Seq<char>)
    requires
        0 <= a,
        a + u.len() <= x.len(),
        x.subrange(a, a + u.len()) == u,
        u == glyphs(style).pipe || u == glyphs(style).blank,
    ensures
        glyph_end(x, a) == glyph_end(x, a + u.len()),
        u.len() == width(style),
{
    assert forall|i: int| 0 <= i < u.len() implies x[a + i] == #[trigger] u[i] by {
        assert(x.subrange(a, a + u.len())[i] == x[a + i]);
    }
    if style == Style::Ascii && u == glyphs(style).pipe {
        assert(x[a] == '|' && x[a + 1] == ' ');
        assert(x[a + 1] == u[1] && x[a + 2] == u[2] && x[a + 3] == u[3]);
        lemma_vertical_run(x, a + 1, 3);
    } else {
        assert forall|i: int| a <= i < a + u.len() implies is_vertical(#[trigger] x[i]) by {
            assert(x[i] == u[i - a]);
        }
        lemma_vertical_run(x, a, u.len() as int);
    }
}

/// A branch unit (`├── `, `└── `, `|-- `, `` `-- `` or two spaces) at `a`,
/// followed by a plain character.
proof fn lemma_branch_unit(x: Seq<char>, a: int, style: Style, u: Seq<char>)
    requires
        0 <= a,
        a + u.len() < x.len(),
        x.subrange(a, a + u.len()) == u,
        u == glyphs(style).tee || u == glyphs(style).elbow,
        plain_char(x[a + u.len()]),
    ensures
        glyph_end(x, a) == a + u.len(),
        u.len() == width(style),
{
    assert forall|i: int| 0 <= i < u.len() implies x[a + i] == #[trigger] u[i] by {
        assert(x.subrange(a, a + u.len())[i] == x[a + i]);
    }
    assert(x[a] == u[0] && x[a + 1] == u[1]);
    lemma_stop(x, a + u.len());
    if style == Style::Indent {
        lemma_vertical_run(x, a, 2);
    } else if style == Style::Unicode {
        assert(x[a + 2] == u[2] && x[a + 3] == u[3]);
        assert(!is_branch_tail(x[a + 4]));
        assert(skip_tail(x, a + 4) == a + 4);
        assert(skip_tail(x, a + 3) == a + 4);
        assert(skip_tail(x, a + 2) == a + 4);
        assert(skip_tail(x, a + 1) == a + 4);
        assert(glyph_end(x, a) == glyph_end(x, a + 4));
    } else {
        assert(x[a + 2] == u[2] && x[a + 3] == u[3]);
        assert(skip_dashes(x, a + 3) == a + 3);
        assert(skip_dashes(x, a + 2) == a + 3);
        assert(skip_dashes(x, a + 1) == a + 3);
        assert(glyph_end(x, a) == glyph_end(x, a + 4));
    }
}

proof fn lemma_scans_inner(q: Seq<char>, style: Style, u: Seq<char>)
    requires
        scans_to(q),
        u == glyphs(style).pipe || u == glyphs(style).blank,
    ensures
        scans_to(q + u),
{
    let p = q + u;
    assert forall|x: Seq<char>|
        x.len() >= p.len() && x.take(p.len() as int) == p implies #[trigger] glyph_end(x, 0)
        == glyph_end(x, p.len() as int) by {
        assert(x.take(q.len() as int) =~= p.take(q.len() as int));
        assert(p.take(q.len() as int) =~= q);
        assert(glyph_end(x, 0) == glyph_end(x, q.len() as int));
        assert(x.subrange(q.len() as int, (q.len() + u.len()) as int) =~= u) by {
            assert forall|i: int| 0 <= i < u.len() implies #[trigger] x.subrange(
                q.len() as int,
                (q.len() + u.len()) as int,
            )[i] == u[i] by {
                assert(x.take(p.len() as int)[q.len() + i] == p[q.len() + i]);
            }
        }
        lemma_inner_unit(x, q.len() as int, style, u);
    }
}

proof fn lemma_scans_branch(q: Seq<char>, style: Style, u: Seq<char>)
    requires
        scans_to(q),
        u == glyphs(style).tee || u == glyphs(style).elbow,
    ensures
        scans_line(q + u),
{
    let p = q + u;
    assert forall|x: Seq<char>|
        x.len() > p.len() && x.take(p.len() as int) == p && plain_char(x[p.len() as int]) implies #[trigger] glyph_end(
        x,
        0,
    ) == p.len() by {
        assert(x.take(q.len() as int) =~= p.take(q.len() as int));
        assert(p.take(q.len() as int) =~= q);
        assert(glyph_end(x, 0) == glyph_end(x, q.len() as int));
        assert(x.subrange(q.len() as int, (q.len() + u.len()) as int) =~= u) by {
            assert forall|i: int| 0 <= i < u.len() implies #[trigger] x.subrange(
                q.len() as int,
                (q.len() + u.len()) as int,
            )[i] == u[i] by {
                assert(x.take(p.len() as int)[q.len() + i] == p[q.len() + i]);
            }
        }
        lemma_branch_unit(x, q.len() as int, style, u);
    }
}

proof fn lemma_chars_append(q: Seq<char>, style: Style, u: Seq<char>)
    requires
        prefix_chars_ok(q),
        u == glyphs(style).pipe || u == glyphs(style).blank || u == glyphs(style).tee || u
            == glyphs(style).elbow,
    ensures
        prefix_chars_ok(q + u),
{
    let p = q + u;
    assert forall|i: int| 0 <= i < p.len() implies glyph_char(#[trigger] p[i]) by {
        if i >= q.len() {
            assert(p[i] == u[i - q.len()]);
        }
    }
    assert forall|i: int| 0 <= i < p.len() && #[trigger] p[i] == '`' implies i + 1 < p.len() && p[i
        + 1] == '-' by {
        if i >= q.len() {
            assert(p[i] == u[i - q.len()]);
            assert(p[i + 1] == u[i - q.len() + 1]);
        } else {
            assert(p[i] == q[i]);
            assert(p[i + 1] == q[i + 1]);
        }
    }
}

} // verus!

verus! {

/// A drawn line matches an entry: same name and kind, a prefix of the
/// entry's depth made of glyphs, which reading stops right after.
pub open spec fn line_ok(line: LineModel, row: Row, style: Style) -> bool {
    &&& line.node.name == row.segs.last()
    &&& is_folder_model(line.node) == row.folder
    &&& line.prefix.len() == indent((row.segs.len() - 1) as nat, width(style))
    &&& prefix_chars_ok(line.prefix)
    &&& scans_line(line.prefix)
}

proof fn lemma_glyph_widths(style: Style)
    ensures
        glyphs(style).tee.len() == width(style),
        glyphs(style).elbow.len() == width(style),
        glyphs(style).pipe.len() == width(style),
        glyphs(style).blank.len() == width(style),
{
}

proof fn lemma_walk_rows(m: ListingModel, prefix: Seq<char>, rel: Seq<char>, style: Style, segs: Seq<Seq<char>>)
    requires
        scans_to(prefix),
        prefix_chars_ok(prefix),
        segs.len() >= 1,
        prefix.len() == indent((segs.len() - 1) as nat, width(style)),
    ensures
        walk_lines(m, prefix, rel, glyphs(style)).len() == rows_below(m, segs).len(),
        forall|k: int|
            0 <= k < rows_below(m, segs).len() ==> line_ok(
                #[trigger] walk_lines(m, prefix, rel, glyphs(style))[k],
                rows_below(m, segs)[k],
                style,
            ),
    decreases m, 1int,
{
    match m.children {
        Some(cs) => lemma_walk_seq_rows(cs, cs.len(), prefix, rel, style, segs),
        None => {},
    }
}

proof fn lemma_walk_seq_rows(
    cs: Seq<ListingModel>,
    n: nat,
    prefix: Seq<char>,
    rel: Seq<char>,
    style: Style,
    segs: Seq<Seq<char>>,
)
    requires
        scans_to(prefix),
        prefix_chars_ok(prefix),
        segs.len() >= 1,
        prefix.len() == indent((segs.len() - 1) as nat, width(style)),
    ensures
        walk_seq(cs, n, prefix, rel, glyphs(style)).len() == rows_seq(cs, segs).len(),
        forall|k: int|
            0 <= k < rows_seq(cs, segs).len() ==> line_ok(
                #[trigger] walk_seq(cs, n, prefix, rel, glyphs(style))[k],
                rows_seq(cs, segs)[k],
                style,
            ),
    decreases cs, 0int,
{
    if cs.len() > 0 {
        let g = glyphs(style);
        let c = cs.last();
        let last = cs.len() == n;
        let rp = child_rel(rel, c.name);
        let unit = if last {
            g.elbow
        } else {
            g.tee
        };
        let inner = if last {
            g.blank
        } else {
            g.pipe
        };
        let own = prefix + unit;
        let below = prefix + inner;
        let s2 = segs.push(c.name);
        lemma_walk_seq_rows(cs.drop_last(), n, prefix, rel, style, segs);
        lemma_glyph_widths(style);
        lemma_scans_inner(prefix, style, inner);
        lemma_chars_append(prefix, style, inner);
        lemma_scans_branch(prefix, style, unit);
        lemma_chars_append(prefix, style, unit);
        assert(indent((s2.len() - 1) as nat, width(style)) == indent((segs.len() - 1) as nat, width(
            style,
        )) + width(style));
        lemma_walk_rows(c, below, rp, style, s2);
        let la = walk_seq(cs.drop_last(), n, prefix, rel, g);
        let lb = walk_lines(c, below, rp, g);
        let line = LineModel { prefix: own, node: c, rel_path: rp };
        let ra = rows_seq(cs.drop_last(), segs);
        let rb = rows_below(c, s2);
        let row = Row { segs: s2, folder: is_folder_model(c) };
        let l = walk_seq(cs, n, prefix, rel, g);
        let r = rows_seq(cs, segs);
        assert(l == la + seq![line] + lb);
        assert(r == ra + seq![row] + rb);
        assert(line_ok(line, row, style));
        let na = ra.len() as int;
        assert forall|k: int| 0 <= k < r.len() implies line_ok(#[trigger] l[k], r[k], style) by {
            if k < na {
                assert(l[k] == la[k] && r[k] == ra[k]);
            } else if k == na {
                assert(l[k] == line && r[k] == row);
            } else {
                assert(l[k] == lb[k - na - 1] && r[k] == rb[k - na - 1]);
            }
        }
    }
}

/// Every drawn line matches the entry in the same place.
proof fn lemma_lines_rows(root: ListingModel, style: Style)
    ensures
        spec_lines(root, style).len() == listing_rows(root).len(),
        forall|k: int|
            0 <= k < listing_rows(root).len() ==> line_ok(
                #[trigger] spec_lines(root, style)[k],
                listing_rows(root)[k],
                style,
            ),
{
    let e = Seq::<char>::empty();
    assert(scans_to(e)) by {
        assert forall|x: Seq<char>| x.len() >= e.len() && x.take(e.len() as int) == e implies #[trigger] glyph_end(
            x,
            0,
        ) == glyph_end(x, e.len() as int) by {}
    }
    assert(scans_line(e)) by {
        assert forall|x: Seq<char>|
            x.len() > e.len() && x.take(e.len() as int) == e && plain_char(x[e.len() as int]) implies #[trigger] glyph_end(
            x,
            0,
        ) == e.len() by {
            lemma_stop(x, 0);
        }
    }
    let segs = seq![root.name];
    lemma_walk_rows(root, e, e, style, segs);
    let l = spec_lines(root, style);
    let r = listing_rows(root);
    let lw = walk_lines(root, e, e, glyphs(style));
    let rw = rows_below(root, segs);
    assert(l == seq![LineModel { prefix: e, node: root, rel_path: e }] + lw);
    assert(r == seq![Row { segs: segs, folder: is_folder_model(root) }] + rw);
    assert forall|k: int| 0 <= k < r.len() implies line_ok(#[trigger] l[k], r[k], style) by {
        if k == 0 {
            assert(l[0].prefix == e);
        } else {
            assert(l[k] == lw[k - 1] && r[k] == rw[k - 1]);
        }
    }
}

/// Drawing lists the listing in preorder: line `k` is for entry `k` of the
/// root followed, entry by entry in stored order, by what each folder holds.
/// Its name and kind are that entry's, and its glyphs take one level's width
/// (four characters, two in the indent style) for each folder above it
/// below the root, so the root's line has none.
pub proof fn lines_follow_the_listing(root: ListingModel, style: Style)
    ensures
        spec_lines(root, style).len() == listing_rows(root).len(),
        forall|k: int|
            0 <= k < listing_rows(root).len() ==> {
                let l = #[trigger] spec_lines(root, style)[k];
                let r = listing_rows(root)[k];
                &&& l.node.name == r.segs.last()
                &&& is_folder_model(l.node) == r.folder
                &&& l.prefix.len() == indent((r.segs.len() - 1) as nat, width(style))
            },
{
    lemma_lines_rows(root, style);
}

} // verus!

verus! {

/// A name's label: the name, with `/` after it for a folder.
pub open spec fn name_label(name: Seq<char>, folder: bool) -> Seq<char> {
    if folder {
        name.push('/')
    } else {
        name
    }
}

proof fn lemma_expand_id(s: Seq<char>)
    requires
        forall|i: int| 0 <= i < s.len() ==> #[trigger] s[i] != '\t' && !is_unicode_space(s[i]),
    ensures
        expand(s) == s,
    decreases s.len(),
{
    if s.len() > 0 {
        let d = s.drop_last();
        assert forall|i: int| 0 <= i < d.len() implies #[trigger] d[i] != '\t' && !is_unicode_space(d[i]) by {
            assert(d[i] == s[i]);
        }
        lemma_expand_id(d);
        assert(s[s.len() - 1] != '\t');
        assert(d + seq![s.last()] =~= s);
    }
}

proof fn lemma_no_ws_trim(s: Seq<char>)
    requires
        forall|i: int| 0 <= i < s.len() ==> !spec_is_whitespace(#[trigger] s[i]),
    ensures
        trim_end(s) == s,
        trim_start(s) == s,
        trim(s) == s,
{
    if s.len() > 0 {
        assert(!spec_is_whitespace(s[s.len() - 1]));
        assert(!spec_is_whitespace(s[0]));
    }
}

/// The number of whitespace characters at the start of `s`.
pub open spec fn lead_ws(s: Seq<char>) -> int
    decreases s.len(),
{
    if s.len() > 0 && spec_is_whitespace(s[0]) {
        1 + lead_ws(s.drop_first())
    } else {
        0
    }
}

pub(crate) proof fn lemma_lead_ws(s: Seq<char>, k: int)
    requires
        0 <= k < s.len(),
        !spec_is_whitespace(s[k]),
    ensures
        0 <= lead_ws(s) <= k,
        trim_start(s) == s.skip(lead_ws(s)),
        forall|j: int| 0 <= j < lead_ws(s) ==> spec_is_whitespace(#[trigger] s[j]),
        !spec_is_whitespace(s[lead_ws(s)]),
    decreases s.len(),
{
    if spec_is_whitespace(s[0]) {
        let d = s.drop_first();
        assert(d[k - 1] == s[k]);
        lemma_lead_ws(d, k - 1);
        assert(s.skip(lead_ws(s)) =~= d.skip(lead_ws(d)));
        assert forall|j: int| 0 <= j < lead_ws(s) implies spec_is_whitespace(#[trigger] s[j]) by {
            if j > 0 {
                assert(s[j] == d[j - 1]);
            }
        }
        assert(s[lead_ws(s)] == d[lead_ws(d)]);
    } else {
        assert(s.skip(0) =~= s);
    }
}

proof fn lemma_words_single(s: Seq<char>)
    requires
        s.len() > 0,
        forall|i: int| 0 <= i < s.len() ==> !is_word_sep(#[trigger] s[i]),
    ensures
        words(s) == seq![s],
{
    let sep = |c: char| is_word_sep(c);
    assert(no_char(s, sep));
    lemma_split_append_plain(Seq::<char>::empty(), s, sep);
    assert(Seq::<char>::empty() + s =~= s);
    assert(split_where(Seq::<char>::empty(), sep) == seq![Seq::<char>::empty()]);
    assert(split_where(s, sep) =~= seq![s]);
    assert(seq![s].drop_last() =~= Seq::<Seq<char>>::empty());
    assert(nonempty_pieces(Seq::<Seq<char>>::empty()) == Seq::<Seq<char>>::empty());
    assert(nonempty_pieces(seq![s]) =~= seq![s]);
}

pub(crate) proof fn lemma_first_word(s: Seq<char>)
    requires
        s.len() > 0,
        !is_word_sep(s[0]),
    ensures
        words(s).len() > 0,
        words(s)[0].len() > 0,
        words(s)[0][0] == s[0],
{
    lemma_first_piece(s, |c: char| is_word_sep(c));
    lemma_nonempty_first(split_where(s, |c: char| is_word_sep(c)));
}

/// The first piece of a split starts with the first character, when that
/// is no separator.
proof fn lemma_first_piece(s: Seq<char>, sep: spec_fn(char) -> bool)
    requires
        s.len() > 0,
        !sep(s[0]),
    ensures
        split_where(s, sep).len() >= 1,
        split_where(s, sep)[0].len() > 0,
        split_where(s, sep)[0][0] == s[0],
    decreases s.len(),
{
    lemma_split_where_nonempty(s, sep);
    if s.len() > 1 {
        let d = s.drop_last();
        assert(d[0] == s[0]);
        lemma_first_piece(d, sep);
        let prev = split_where(d, sep);
        if !sep(s.last()) && prev.len() == 1 {
            assert(split_where(s, sep)[0] == prev[0].push(s.last()));
        }
    } else {
        assert(s.drop_last() =~= Seq::<char>::empty());
        assert(split_where(s.drop_last(), sep) == seq![Seq::<char>::empty()]);
        assert(s.last() == s[0]);
        assert(split_where(s, sep) == seq![Seq::<char>::empty()].update(0, Seq::<char>::empty().push(s[0])));
        assert(split_where(s, sep)[0] =~= seq![s[0]]);
    }
}

proof fn lemma_nonempty_first(ps: Seq<Seq<char>>)
    requires
        ps.len() >= 1,
        ps[0].len() > 0,
    ensures
        nonempty_pieces(ps).len() > 0,
        nonempty_pieces(ps)[0] == ps[0],
    decreases ps.len(),
{
    if ps.len() > 1 {
        assert(ps.drop_last()[0] == ps[0]);
        lemma_nonempty_first(ps.drop_last());
        let prev = nonempty_pieces(ps.drop_last());
        if ps.last().len() > 0 {
            assert(nonempty_pieces(ps) == prev.push(ps.last()));
            assert(nonempty_pieces(ps)[0] == prev[0]);
        }
    } else {
        assert(ps.drop_last() =~= Seq::<Seq<char>>::empty());
        assert(nonempty_pieces(Seq::<Seq<char>>::empty()) == Seq::<Seq<char>>::empty());
        assert(nonempty_pieces(ps) == Seq::<Seq<char>>::empty().push(ps[0]));
    }
}

proof fn lemma_note_cut_plain(s: Seq<char>, k: int)
    requires
        0 <= k <= s.len(),
        forall|i: int| 0 <= i < s.len() ==> !spec_is_whitespace(#[trigger] s[i]),
    ensures
        note_cut(s, k) == s.len(),
    decreases s.len() - k,
{
    if k < s.len() {
        assert(!spec_is_whitespace(s[k]));
        if k + 1 < s.len() {
            assert(!spec_is_whitespace(s[k + 1]));
        }
        lemma_note_cut_plain(s, k + 1);
    }
}

} // verus!

verus! {

pub open spec fn label_char(c: char) -> bool {
    plain_char(c) || c == '/'
}

proof fn lemma_plain_not_dots(name: Seq<char>)
    requires
        plain_name(name),
    ensures
        name != seq!['.'],
        name != seq!['.', '.'],
{
    let i = choose|i: int| 0 <= i < name.len() && #[trigger] name[i] != '.';
    if name == seq!['.'] {
        assert(name[i] == '.');
    }
    if name == seq!['.', '.'] {
        assert(name[i] == '.');
    }
}

proof fn lemma_keep_one(x: Seq<char>)
    requires
        trim(x) == x,
        x.len() > 0,
        x != seq!['.'],
    ensures
        keep_segments(seq![x]) == seq![x],
        keep_segments(seq![x, Seq::<char>::empty()]) == seq![x],
{
    assert(seq![x].drop_last() =~= Seq::<Seq<char>>::empty());
    assert(keep_segments(Seq::<Seq<char>>::empty()) == Seq::<Seq<char>>::empty());
    assert(keep_segments(seq![x]) =~= seq![x]);
    assert(seq![x, Seq::<char>::empty()].drop_last() =~= seq![x]);
    lemma_no_ws_trim(Seq::<char>::empty());
}

/// How a label reads back: as the name, folder or not, with nothing refused.
proof fn lemma_label(name: Seq<char>, folder: bool)
    requires
        plain_name(name),
    ensures
        ({
            let lab = name_label(name, folder);
            &&& lab.len() > 0
            &&& forall|i: int| 0 <= i < lab.len() ==> label_char(#[trigger] lab[i])
            &&& plain_char(lab[0])
            &&& name_of(lab) == lab
            &&& !is_comment(lab)
            &&& !spec_is_ellipsis(lab)
            &&& !spec_is_root_marker(lab)
            &&& !is_path_sep(lab[0])
            &&& segments_of(lab) == seq![name]
            &&& first_bad(seq![name], 0) == 1
            &&& (is_path_sep(lab.last()) == folder)
        }),
{
    let lab = name_label(name, folder);
    assert forall|i: int| 0 <= i < lab.len() implies label_char(#[trigger] lab[i]) by {
        if i < name.len() {
            assert(lab[i] == name[i]);
        }
    }
    assert(lab[0] == name[0]);
    assert forall|i: int| 0 <= i < lab.len() implies !spec_is_whitespace(#[trigger] lab[i]) by {
        assert(label_char(lab[i]));
    }
    assert forall|i: int| 0 <= i < name.len() implies !spec_is_whitespace(#[trigger] name[i]) by {
        assert(plain_char(name[i]));
    }
    lemma_no_ws_trim(lab);
    lemma_no_ws_trim(name);
    lemma_note_cut_plain(lab, 0);
    assert(lab.take(lab.len() as int) =~= lab);
    assert(spec_strip_note(lab) == lab);
    if starts_with(lab, seq!['`']) {
        assert(lab.take(1)[0] == lab[0]);
    }
    if starts_with(lab, seq!['*', '*']) {
        assert(lab.take(2)[0] == lab[0]);
    }
    assert(spec_strip_wrapping(lab, seq!['`'], seq!['`']) == lab);
    assert(spec_strip_wrapping(lab, seq!['*', '*'], seq!['*', '*']) == lab);
    if starts_with(lab, seq!['#']) {
        assert(lab.take(1)[0] == lab[0]);
    }
    if starts_with(lab, seq!['/', '/']) {
        assert(lab.take(2)[0] == lab[0]);
    }
    lemma_plain_not_dots(name);
    // not a placeholder
    let k = choose|k: int| 0 <= k < name.len() && #[trigger] name[k] != '.';
    assert(lab[k] == name[k]);
    if lab == seq!['…'] || lab == seq!['[', '.', '.', '.', ']'] || lab == seq!['(', '.', '.', '.', ')'] {
        assert(lab[0] == seq!['…'][0] || lab[0] == '[' || lab[0] == '(');
    }
    assert(ascii_lower(lab).len() == lab.len());
    if folder {
        assert(ascii_lower(lab)[lab.len() - 1] == '/');
        if ascii_lower(lab) == seq!['e', 't', 'c'] {
            assert(seq!['e', 't', 'c'][2] == 'c');
        }
        if ascii_lower(lab) == seq!['e', 't', 'c', '.'] {
            assert(seq!['e', 't', 'c', '.'][3] == '.');
        }
    }
    // not a root marker
    if lab == seq!['.'] || lab == seq!['.', '/'] || lab == seq!['.', '\\'] {
        assert(lab[0] == '.');
        if folder {
            assert(name =~= seq!['.']);
        } else {
            assert(lab.len() == 1);
            assert(name =~= seq!['.']);
        }
    }
    if lab.len() >= 2 {
        assert(label_char(lab[1]));
    }
    // the segments
    let sep = |c: char| is_path_sep(c);
    assert(no_char(name, sep)) by {
        assert forall|i: int| 0 <= i < name.len() implies !sep(#[trigger] name[i]) by {
            assert(plain_char(name[i]));
        }
    }
    lemma_split_append_plain(Seq::<char>::empty(), name, sep);
    assert(Seq::<char>::empty() + name =~= name);
    assert(split_where(Seq::<char>::empty(), sep) == seq![Seq::<char>::empty()]);
    assert(split_where(name, sep) =~= seq![name]);
    lemma_keep_one(name);
    if folder {
        assert(lab.drop_last() =~= name);
        assert(split_where(lab, sep) =~= seq![name, Seq::<char>::empty()]);
    }
    // nothing refused
    assert(!has_forbidden(name)) by {
        if has_forbidden(name) {
            let i = choose|i: int| 0 <= i < name.len() && is_forbidden(#[trigger] name[i]);
            assert(plain_char(name[i]));
        }
    }
    assert(!is_bad_segment(seq![name][0]));
    assert(first_bad(seq![name], 1) == 1);
}

} // verus!

verus! {

proof fn lemma_not_phrase(lower: Seq<char>, phrase: Seq<char>, k: int)
    requires
        0 <= k < phrase.len(),
        phrase[k] == ' ',
        forall|i: int| 0 <= i < lower.len() ==> #[trigger] lower[i] != ' ',
    ensures
        !starts_with(lower, phrase),
{
    if starts_with(lower, phrase) {
        assert(lower.take(phrase.len() as int)[k] == lower[k]);
    }
}

proof fn lemma_not_phrase_start(lower: Seq<char>, phrase: Seq<char>)
    requires
        phrase.len() > 0,
        lower.len() > 0,
        lower[0] != phrase[0],
    ensures
        !starts_with(lower, phrase),
{
    if starts_with(lower, phrase) {
        assert(lower.take(phrase.len() as int)[0] == lower[0]);
    }
}

/// A drawn line, its prefix then a label, is not skipped when read.
proof fn lemma_line_not_skipped(p: Seq<char>, lab: Seq<char>)
    requires
        prefix_chars_ok(p),
        lab.len() > 0,
        plain_char(lab[0]),
        forall|i: int| 0 <= i < lab.len() ==> label_char(#[trigger] lab[i]),
    ensures
        !skipped_line(p + lab),
{
    let t = p + lab;
    assert(t[p.len() as int] == lab[0]);
    lemma_lead_ws(t, p.len() as int);
    let z = lead_ws(t);
    assert(!spec_is_whitespace(t.last())) by {
        assert(t.last() == lab[lab.len() - 1]);
        assert(label_char(lab[lab.len() - 1]));
    }
    assert(trim_end(t) == t);
    let u = trim(t);
    assert(u == t.skip(z));
    assert(u.len() > 0);
    assert(u[0] == t[z]);
    let lower = ascii_lower(u);
    reveal_strlit("folder path listing");
    reveal_strlit("volume serial number is");
    reveal_strlit("no subfolders exist");
    reveal_strlit("invalid path");
    if z < p.len() {
        assert(t[z] == p[z]);
        assert(glyph_char(p[z]));
        if starts_with(u, seq!['`', '`', '`']) {
            assert(u.take(3)[0] == u[0]);
            assert(u.take(3)[1] == u[1]);
            assert(p[z] == '`');
            assert(u[1] == t[z + 1]);
            assert(t[z + 1] == p[z + 1]);
        }
        if starts_with(u, seq!['~', '~', '~']) {
            assert(u.take(3)[0] == u[0]);
        }
        assert(lower[0] == p[z]);
        lemma_not_phrase_start(lower, "folder path listing"@);
        lemma_not_phrase_start(lower, "volume serial number is"@);
        lemma_not_phrase_start(lower, "no subfolders exist"@);
        lemma_not_phrase_start(lower, "invalid path"@);
        lemma_first_word(lower);
        let w = words(lower);
        assert(!all_ascii_digits(w[0])) by {
            assert(w[0][0] == p[z]);
        }
    } else {
        assert(z == p.len());
        assert(u =~= lab);
        if starts_with(u, seq!['`', '`', '`']) || starts_with(u, seq!['~', '~', '~']) {
            assert(u.take(3)[0] == u[0]);
        }
        assert forall|i: int| 0 <= i < lower.len() implies #[trigger] lower[i] != ' ' && !is_word_sep(lower[i]) by {
            assert(lower[i] == ascii_lower_char(lab[i]));
            assert(label_char(lab[i]));
        }
        assert(forall|i: int| 0 <= i < lower.len() ==> #[trigger] lower[i] != ' ');
        lemma_not_phrase(lower, "folder path listing"@, 6);
        lemma_not_phrase(lower, "volume serial number is"@, 6);
        lemma_not_phrase(lower, "no subfolders exist"@, 2);
        lemma_not_phrase(lower, "invalid path"@, 7);
        lemma_words_single(lower);
    }
}

/// Reading a drawn line gives its entry: the column where its label
/// starts, its name as the one segment, folder or not, and no problem.
proof fn lemma_line_read(p: Seq<char>, name: Seq<char>, folder: bool, i: usize)
    requires
        plain_name(name),
        prefix_chars_ok(p),
        scans_line(p),
        p.len() <= usize::MAX,
    ensures
        strip_cr(p + name_label(name, folder)) == p + name_label(name, folder),
        spec_read_entry(p + name_label(name, folder), i) == (
            Some(
                EntryModel {
                    line: i,
                    column: p.len() as usize,
                    segments: seq![name],
                    explicit_folder: folder,
                    root_marker: false,
                },
            ),
            Seq::<ProblemModel>::empty(),
        ),
{
    let lab = name_label(name, folder);
    lemma_label(name, folder);
    let t = p + lab;
    assert(t.last() == lab.last());
    assert(label_char(lab[lab.len() - 1]));
    assert(strip_cr(t) == t);
    assert forall|k: int| 0 <= k < t.len() implies #[trigger] t[k] != '\t' && !is_unicode_space(t[k]) by {
        if k < p.len() {
            assert(t[k] == p[k]);
            assert(glyph_char(p[k]));
        } else {
            assert(t[k] == lab[k - p.len()]);
            assert(label_char(lab[k - p.len()]));
        }
    }
    lemma_expand_id(t);
    assert(!spec_is_whitespace(t.last()));
    assert(clean_line(t) == t);
    assert(t.take(p.len() as int) =~= p);
    assert(t[p.len() as int] == lab[0]);
    assert(glyph_end(t, 0) == p.len());
    if p.len() + 1 < t.len() {
        assert(t[p.len() + 1int] == lab[1]);
        assert(label_char(lab[1]));
    }
    assert(spec_prefix_len(t) == p.len());
    assert(t.skip(p.len() as int) =~= lab);
    lemma_line_not_skipped(p, lab);
}

} // verus!

verus! {

/// The text of drawn line `k`: its prefix and its label.
pub open spec fn line_text(l: LineModel) -> Seq<char> {
    l.prefix + label_of(l.node)
}

proof fn lemma_render_lines(ls: Seq<LineModel>)
    requires
        forall|k: int|
            0 <= k < ls.len() ==> no_char(#[trigger] line_text(ls[k]), |c: char| c == '\n'),
    ensures
        text_lines(render_text(ls)) == Seq::new(ls.len(), |k: int| line_text(ls[k])).push(
            Seq::<char>::empty(),
        ),
        render_text(ls).len() >= ls.len(),
        forall|k: int| 0 <= k < ls.len() ==> #[trigger] ls[k].prefix.len() <= render_text(ls).len(),
    decreases ls.len(),
{
    let nl = |c: char| c == '\n';
    if ls.len() == 0 {
        assert(Seq::new(0, |k: int| line_text(ls[k])).push(Seq::<char>::empty()) =~= seq![
            Seq::<char>::empty(),
        ]);
    } else {
        let d = ls.drop_last();
        assert forall|k: int| 0 <= k < d.len() implies no_char(#[trigger] line_text(d[k]), nl) by {
            assert(d[k] == ls[k]);
        }
        lemma_render_lines(d);
        let a = render_text(d);
        let t = line_text(ls.last());
        assert(no_char(t, nl)) by {
            assert(ls.last() == ls[ls.len() - 1]);
        }
        assert(render_text(ls) == a + ls.last().prefix + label_of(ls.last().node) + seq!['\n']);
        assert(render_text(ls) =~= (a + t) + seq!['\n']);
        lemma_split_append_plain(a, t, nl);
        let sa = split_where(a, nl);
        assert(sa == Seq::new(d.len(), |k: int| line_text(d[k])).push(Seq::<char>::empty()));
        assert(((a + t) + seq!['\n']).drop_last() =~= a + t);
        assert(((a + t) + seq!['\n']).last() == '\n');
        assert(Seq::<char>::empty() + t =~= t);
        assert(split_where((a + t) + seq!['\n'], nl) == split_where(a + t, nl).push(Seq::<char>::empty()));
        assert(split_where(a + t, nl) =~= Seq::new(ls.len(), |k: int| line_text(ls[k]))) by {
            assert(sa.last() == Seq::<char>::empty());
        }
        assert forall|k: int| 0 <= k < ls.len() implies #[trigger] ls[k].prefix.len() <= render_text(
            ls,
        ).len() by {
            if k < d.len() {
                assert(d[k] == ls[k]);
            }
        }
    }
}

/// The entry that a drawn row reads back as.
pub open spec fn row_entry(r: Row, k: int, style: Style) -> EntryModel {
    EntryModel {
        line: k as usize,
        column: indent((r.segs.len() - 1) as nat, width(style)) as usize,
        segments: seq![r.segs.last()],
        explicit_folder: r.folder,
        root_marker: false,
    }
}

proof fn lemma_read_rows(lines: Seq<Seq<char>>, rows: Seq<Row>, style: Style, i: int)
    requires
        lines.len() == rows.len() + 1,
        lines.last() == Seq::<char>::empty(),
        0 <= i <= rows.len(),
        forall|k: int|
            0 <= k < rows.len() ==> strip_cr(#[trigger] lines[k]) == lines[k] && spec_read_entry(
                lines[k],
                k as usize,
            ) == (Some(row_entry(rows[k], k, style)), Seq::<ProblemModel>::empty()),
    ensures
        read_from(lines, i) == (
            Seq::new((rows.len() - i) as nat, |j: int| row_entry(rows[i + j], i + j, style)),
            Seq::<ProblemModel>::empty(),
        ),
    decreases rows.len() - i,
{
    if i == rows.len() {
        let e = lines[i];
        assert(e == Seq::<char>::empty());
        assert(strip_cr(e) == e);
        lemma_no_ws_trim(e);
        assert(skipped_line(crate::entry::clean_line(e))) by {
            assert(expand(e) == e);
            assert(trim(crate::entry::clean_line(e)).len() == 0);
        }
        assert(read_from(lines, i + 1) == (Seq::<EntryModel>::empty(), Seq::<ProblemModel>::empty()));
        assert(read_from(lines, i).0 =~= Seq::new(0, |j: int| row_entry(rows[i + j], i + j, style)));
        assert(read_from(lines, i).1 =~= Seq::<ProblemModel>::empty());
    } else {
        lemma_read_rows(lines, rows, style, i + 1);
        let rest = read_from(lines, i + 1);
        assert(read_from(lines, i).0 =~= seq![row_entry(rows[i], i, style)] + rest.0);
        assert(read_from(lines, i).0 =~= Seq::new(
            (rows.len() - i) as nat,
            |j: int| row_entry(rows[i + j], i + j, style),
        ));
        assert(read_from(lines, i).1 =~= Seq::<ProblemModel>::empty() + rest.1);
    }
}

} // verus!

verus! {

/// The node that reading gives for drawn row `k`.
pub open spec fn row_node(r: Row, k: int) -> NodeModel {
    NodeModel {
        path: join_slash(r.segs),
        name: r.segs.last(),
        kind: if r.folder {
            Kind::Folder
        } else {
            Kind::File
        },
        line: Some(k as usize),
        depth: (r.segs.len() - 1) as usize,
    }
}

/// The nodes of the rows, in order, each with its path from the root.
pub open spec fn expected_nodes(rows: Seq<Row>) -> Seq<NodeModel> {
    Seq::new(rows.len(), |k: int| row_node(rows[k], k))
}

/// The entries that reading the drawn rows gives.
pub open spec fn row_entries(rows: Seq<Row>, style: Style) -> Seq<EntryModel> {
    Seq::new(rows.len(), |k: int| row_entry(rows[k], k, style))
}

/// The open folders after reading a row whose path is `t`.
pub open spec fn frames_of(t: Seq<Seq<char>>, w: nat) -> Seq<FrameModel> {
    Seq::new(t.len(), |j: int| FrameModel { column: indent(j as nat, w) as usize, segments: t.take(j + 1) })
}

/// The rows of a drawing, as reading needs them.
#[verifier::opaque]
pub open spec fn rows_ok(r: Seq<Row>) -> bool {
    &&& r.len() >= 1
    &&& r[0].segs.len() == 1
    &&& forall|k: int| 0 <= k < r.len() ==> (#[trigger] r[k]).segs.len() >= 1 && valid_segments(r[k].segs)
    &&& forall|k: int|
        1 <= k < r.len() ==> (#[trigger] r[k]).segs.len() >= 2 && is_prefix(r[k].segs.drop_last(), r[k - 1].segs)
    &&& forall|k: int| 1 <= k < r.len() ==> #[trigger] has_parent_row(r, k)
    &&& forall|i: int, j: int| 0 <= i < j < r.len() ==> (#[trigger] r[i]).segs != (#[trigger] r[j]).segs
}

/// Row `k`'s folder is a folder row before it.
#[verifier::opaque]
pub open spec fn has_parent_row(r: Seq<Row>, k: int) -> bool {
    exists|p: int| 0 <= p < k && (#[trigger] r[p]).segs == r[k].segs.drop_last() && r[p].folder
}

proof fn lemma_plain_valid(n: Seq<char>)
    requires
        plain_name(n),
    ensures
        valid_segment(n),
{
    lemma_plain_not_dots(n);
    assert forall|i: int| 0 <= i < n.len() implies !(#[trigger] n[i] == '/' || n[i] == '\\') by {
        assert(plain_char(n[i]));
    }
    assert forall|i: int| 0 <= i < n.len() implies !is_forbidden(#[trigger] n[i]) by {
        assert(plain_char(n[i]));
    }
}

proof fn lemma_listing_rows_ok(root: ListingModel)
    requires
        plain_tree(root),
    ensures
        rows_ok(listing_rows(root)),
        forall|k: int|
            0 <= k < listing_rows(root).len() ==> plain_name((#[trigger] listing_rows(root)[k]).segs.last()),
{
    reveal(rows_ok);
    let segs = seq![root.name];
    lemma_rows_below(root, segs);
    let b = rows_below(root, segs);
    let row0 = Row { segs: segs, folder: is_folder_model(root) };
    let r = listing_rows(root);
    assert(r == seq![row0] + b);
    assert(r[0] == row0);
    assert forall|k: int| 1 <= k < r.len() implies #[trigger] r[k] == b[k - 1] by {}
    assert forall|k: int| 0 <= k < r.len() implies (#[trigger] r[k]).segs.len() >= 1 && valid_segments(
        r[k].segs,
    ) && plain_name(r[k].segs.last()) by {
        if k == 0 {
            lemma_plain_valid(root.name);
        } else {
            let bk = b[k - 1];
            assert(ext_ok(bk, segs));
            assert(plain_name(bk.segs[bk.segs.len() - 1]));
            assert forall|j: int| 0 <= j < bk.segs.len() implies valid_segment(#[trigger] bk.segs[j]) by {
                if j == 0 {
                    assert(bk.segs.take(1)[0] == bk.segs[0]);
                    lemma_plain_valid(root.name);
                } else {
                    assert(plain_name(bk.segs[j]));
                    lemma_plain_valid(bk.segs[j]);
                }
            }
        }
    }
    assert forall|k: int| 1 <= k < r.len() implies (#[trigger] r[k]).segs.len() >= 2 && is_prefix(
        r[k].segs.drop_last(),
        r[k - 1].segs,
    ) by {
        assert(ext_ok(b[k - 1], segs));
        assert(r[k] == b[k - 1]);
        if k == 1 {
            assert(b[0].segs.len() == 2);
            assert(b[0].segs.drop_last() =~= b[0].segs.take(1));
            assert(r[0].segs == segs);
            assert(segs.take(1) =~= segs);
        } else {
            assert(r[k - 1] == b[k - 2]);
            assert(is_prefix(b[k - 1].segs.drop_last(), b[k - 2].segs));
        }
    }
    assert forall|k: int| 1 <= k < r.len() implies #[trigger] has_parent_row(r, k) by {
        reveal(has_parent_row);
        assert(parent_row(b, k - 1, segs));
        assert(ext_ok(b[k - 1], segs));
        if b[k - 1].segs.len() == 2 {
            assert(b[k - 1].segs.drop_last() =~= b[k - 1].segs.take(1));
            assert(r[0].segs == r[k].segs.drop_last());
        } else {
            let p = choose|p: int|
                0 <= p < k - 1 && (#[trigger] b[p]).segs == b[k - 1].segs.drop_last() && b[p].folder;
            assert(r[p + 1] == b[p]);
        }
    }
    assert forall|i: int, j: int| 0 <= i < j < r.len() implies (#[trigger] r[i]).segs != (
    #[trigger] r[j]).segs by {
        if i == 0 {
            assert(ext_ok(b[j - 1], segs));
        } else {
            assert(r[i] == b[i - 1] && r[j] == b[j - 1]);
        }
    }
}

} // verus!

verus! {

/// The parser's state after reading the first `k` rows.
pub open spec fn state_after(rows: Seq<Row>, k: int, style: Style) -> ParseState {
    ParseState {
        nodes: expected_nodes(rows.take(k)),
        problems: Seq::empty(),
        stack: if k == 0 {
            Seq::empty()
        } else {
            frames_of(rows[k - 1].segs, width(style))
        },
    }
}

proof fn lemma_pop_frames(t: Seq<Seq<char>>, m: nat, w: nat)
    requires
        w > 0,
        m <= t.len(),
        indent(m, w) <= usize::MAX,
        t.len() > 0 ==> indent((t.len() - 1) as nat, w) <= usize::MAX,
    ensures
        pop_to(frames_of(t, w), indent(m, w) as usize) == frames_of(t, w).take(m as int),
    decreases t.len(),
{
    let f = frames_of(t, w);
    if t.len() > m {
        let d = t.drop_last();
        lemma_indent_mono(m, (t.len() - 1) as nat, w);
        assert(f.last().column == indent((t.len() - 1) as nat, w) as usize);
        assert(f.drop_last() =~= frames_of(d, w)) by {
            assert forall|j: int| 0 <= j < d.len() implies #[trigger] f.drop_last()[j] == frames_of(d, w)[j] by {
                assert(d.take(j + 1) =~= t.take(j + 1));
            }
        }
        if d.len() > 0 {
            lemma_indent_mono((d.len() - 1) as nat, (t.len() - 1) as nat, w);
        }
        lemma_pop_frames(d, m, w);
        assert(frames_of(d, w).take(m as int) =~= f.take(m as int));
    } else {
        assert(f.take(m as int) =~= f);
        if t.len() > 0 {
            lemma_indent_mono((t.len() - 1) as nat, m, w);
            assert(f.last().column == indent((t.len() - 1) as nat, w) as usize);
        }
    }
}

proof fn lemma_expected_index(rows: Seq<Row>, k: int, segs: Seq<Seq<char>>)
    requires
        rows_ok(rows),
        0 <= k <= rows.len(),
        segs.len() >= 1,
        valid_segments(segs),
    ensures
        (forall|q: int| 0 <= q < k ==> (#[trigger] rows[q]).segs != segs) ==> index_of_path(
            expected_nodes(rows.take(k)),
            join_slash(segs),
        ) == -1,
        forall|p: int|
            0 <= p < k && (#[trigger] rows[p]).segs == segs ==> index_of_path(
                expected_nodes(rows.take(k)),
                join_slash(segs),
            ) == p,
{
    reveal(rows_ok);
    let nodes = expected_nodes(rows.take(k));
    let q = join_slash(segs);
    lemma_index_from(nodes, q, 0);
    lemma_parts_of_join(segs);
    let r = index_of_path(nodes, q);
    if r != -1 {
        assert(nodes[r] == row_node(rows[r], r));
        assert(rows.take(k)[r] == rows[r]);
        lemma_parts_of_join(rows[r].segs);
        assert(rows[r].segs == segs);
        assert forall|p: int| 0 <= p < k && (#[trigger] rows[p]).segs == segs implies r == p by {
            if r != p {
                if r < p {
                    assert(rows[r].segs != rows[p].segs);
                } else {
                    assert(rows[p].segs != rows[r].segs);
                }
            }
        }
    } else {
        assert forall|p: int| 0 <= p < k && (#[trigger] rows[p]).segs == segs implies false by {
            assert(nodes[p] == row_node(rows[p], p));
            assert(rows.take(k)[p] == rows[p]);
        }
    }
}

proof fn lemma_row_facts(rows: Seq<Row>, k: int)
    requires
        rows_ok(rows),
        0 <= k < rows.len(),
    ensures
        rows[k].segs.len() >= 1,
        valid_segments(rows[k].segs),
        k == 0 ==> rows[k].segs.len() == 1,
        k >= 1 ==> rows[k].segs.len() >= 2 && is_prefix(rows[k].segs.drop_last(), rows[k - 1].segs),
        k >= 1 ==> has_parent_row(rows, k),
        forall|q: int| 0 <= q < rows.len() && q != k ==> (#[trigger] rows[q]).segs != rows[k].segs,
{
    reveal(rows_ok);
    assert forall|q: int| 0 <= q < rows.len() && q != k implies (#[trigger] rows[q]).segs != rows[k].segs by {
        if q < k {
            assert(rows[q].segs != rows[k].segs);
        } else {
            assert(rows[k].segs != rows[q].segs);
        }
    }
}

proof fn lemma_sim_stack(rows: Seq<Row>, style: Style, k: int)
    requires
        rows_ok(rows),
        0 <= k < rows.len(),
        forall|q: int|
            0 <= q < rows.len() ==> indent(((#[trigger] rows[q]).segs.len() - 1) as nat, width(style))
                <= usize::MAX,
    ensures
        pop_to(state_after(rows, k, style).stack, row_entry(rows[k], k, style).column) == frames_of(
            rows[k].segs.drop_last(),
            width(style),
        ),
        top_segments(frames_of(rows[k].segs.drop_last(), width(style))) == rows[k].segs.drop_last(),
{
    lemma_row_facts(rows, k);
    let w = width(style);
    let st = state_after(rows, k, style);
    let e = row_entry(rows[k], k, style);
    let s = rows[k].segs;
    let m = (s.len() - 1) as nat;
    let sp = s.drop_last();
    let f_sp = frames_of(sp, w);
    if k == 0 {
        assert(pop_to(st.stack, e.column) == Seq::<FrameModel>::empty());
        assert(sp =~= Seq::<Seq<char>>::empty());
        assert(f_sp =~= Seq::<FrameModel>::empty());
    } else {
        let t = rows[k - 1].segs;
        assert(is_prefix(sp, t));
        assert(indent(m, w) <= usize::MAX);
        assert(indent((t.len() - 1) as nat, w) <= usize::MAX);
        lemma_pop_frames(t, m, w);
        assert(frames_of(t, w).take(m as int) =~= f_sp) by {
            assert forall|j: int| 0 <= j < m implies #[trigger] frames_of(t, w).take(m as int)[j] == f_sp[j] by {
                assert(t.take(m as int) == sp);
                assert(sp.take(j + 1) =~= t.take(j + 1));
            }
        }
    }
    if sp.len() > 0 {
        assert(f_sp.last().segments == sp.take(sp.len() as int));
        assert(sp.take(sp.len() as int) =~= sp);
    }
}

proof fn lemma_sim_mark(rows: Seq<Row>, k: int)
    requires
        rows_ok(rows),
        0 <= k < rows.len(),
    ensures
        mark_parent(expected_nodes(rows.take(k)), Seq::<ProblemModel>::empty(), rows[k].segs.drop_last())
            == (expected_nodes(rows.take(k)), Seq::<ProblemModel>::empty()),
{
    lemma_row_facts(rows, k);
    let s = rows[k].segs;
    let sp = s.drop_last();
    let nodes = expected_nodes(rows.take(k));
    if sp.len() > 0 {
        assert(k >= 1);
        assert(has_parent_row(rows, k));
        reveal(has_parent_row);
        let p = choose|p: int| 0 <= p < k && (#[trigger] rows[p]).segs == rows[k].segs.drop_last() && rows[p].folder;
        assert(valid_segments(sp)) by {
            assert(valid_segments(s));
            assert forall|j: int| 0 <= j < sp.len() implies valid_segment(#[trigger] sp[j]) by {
                assert(sp[j] == s[j]);
            }
        }
        lemma_expected_index(rows, k, sp);
        assert(index_of_path(nodes, join_slash(sp)) == p);
        assert(nodes[p] == row_node(rows[p], p));
        assert(rows.take(k)[p] == rows[p]);
    }
}

proof fn lemma_sim_add(rows: Seq<Row>, style: Style, k: int)
    requires
        rows_ok(rows),
        0 <= k < rows.len(),
    ensures
        ({
            let e = row_entry(rows[k], k, style);
            let kind = if e.explicit_folder {
                Kind::Folder
            } else {
                Kind::File
            };
            add_node(expected_nodes(rows.take(k)), rows[k].segs, kind, Some(e.line))
                == expected_nodes(rows.take(k + 1))
        }),
{
    lemma_row_facts(rows, k);
    let e = row_entry(rows[k], k, style);
    let s = rows[k].segs;
    let nodes = expected_nodes(rows.take(k));
    assert forall|q: int| 0 <= q < k implies (#[trigger] rows[q]).segs != s by {
        assert(q != k);
    }
    lemma_expected_index(rows, k, s);
    let kind = if e.explicit_folder {
        Kind::Folder
    } else {
        Kind::File
    };
    assert(add_node(nodes, s, kind, Some(e.line)) =~= expected_nodes(rows.take(k + 1))) by {
        assert forall|q: int| 0 <= q < k + 1 implies #[trigger] add_node(nodes, s, kind, Some(e.line))[q]
            == expected_nodes(rows.take(k + 1))[q] by {
            assert(rows.take(k + 1)[q] == rows[q]);
            if q < k {
                assert(rows.take(k)[q] == rows[q]);
            }
        }
    }
}

proof fn lemma_sim_frames(s: Seq<Seq<char>>, w: nat)
    requires
        s.len() >= 1,
    ensures
        frames_of(s.drop_last(), w).push(
            FrameModel { column: indent((s.len() - 1) as nat, w) as usize, segments: s },
        ) == frames_of(s, w),
{
    let sp = s.drop_last();
    assert forall|j: int| 0 <= j < s.len() implies #[trigger] frames_of(sp, w).push(
        FrameModel { column: indent((s.len() - 1) as nat, w) as usize, segments: s },
    )[j] == frames_of(s, w)[j] by {
        if j < s.len() - 1 {
            assert(sp.take(j + 1) =~= s.take(j + 1));
        } else {
            assert(s.take(j + 1) =~= s);
        }
    }
    assert(frames_of(sp, w).push(
        FrameModel { column: indent((s.len() - 1) as nat, w) as usize, segments: s },
    ) =~= frames_of(s, w));
}

#[verifier::rlimit(40)]
proof fn lemma_sim_step(rows: Seq<Row>, style: Style, k: int)
    requires
        rows_ok(rows),
        0 <= k < rows.len(),
        forall|q: int|
            0 <= q < rows.len() ==> indent(((#[trigger] rows[q]).segs.len() - 1) as nat, width(style))
                <= usize::MAX,
    ensures
        step(state_after(rows, k, style), row_entry(rows[k], k, style)) == state_after(
            rows,
            k + 1,
            style,
        ),
{
    lemma_row_facts(rows, k);
    let s = rows[k].segs;
    let sp = s.drop_last();
    lemma_sim_stack(rows, style, k);
    lemma_sim_mark(rows, k);
    lemma_sim_add(rows, style, k);
    lemma_sim_frames(s, width(style));
    let e = row_entry(rows[k], k, style);
    assert(sp + e.segments =~= s);
    assert(add_prefixes(expected_nodes(rows.take(k)), s, sp.len() + 1int, s.len() as int)
        == expected_nodes(rows.take(k)));
}

#[verifier::rlimit(40)]
proof fn lemma_sim(rows: Seq<Row>, style: Style, k: int)
    requires
        rows_ok(rows),
        0 <= k <= rows.len(),
        forall|q: int|
            0 <= q < rows.len() ==> indent(((#[trigger] rows[q]).segs.len() - 1) as nat, width(style))
                <= usize::MAX,
    ensures
        run(state_after(rows, k, style), row_entries(rows, style).skip(k)) == state_after(
            rows,
            rows.len() as int,
            style,
        ),
    decreases rows.len() - k,
{
    let es = row_entries(rows, style);
    if k == rows.len() {
        assert(es.skip(k) =~= Seq::<EntryModel>::empty());
    } else {
        let st = state_after(rows, k, style);
        lemma_sim_step(rows, style, k);
        assert(es.skip(k)[0] == row_entry(rows[k], k, style));
        assert(es.skip(k).drop_first() =~= es.skip(k + 1));
        lemma_sim(rows, style, k + 1);
        assert(run(st, es.skip(k)) == run(step(st, es.skip(k)[0]), es.skip(k).drop_first()));
    }
}

/// A drawn listing reads back as its entries: drawing a listing whose names
/// are plain and whose folders hold no two entries of one name, in any
/// style, and parsing the drawing, gives one node per entry, in drawing
/// order, each with its path from the root (the names on the way joined by
/// `/`), its name, folder or file as in the listing, the line it was drawn
/// on and its depth; and no problem.
pub proof fn drawing_reads_back(root: ListingModel, style: Style)
    requires
        plain_tree(root),
        render_text(spec_lines(root, style)).len() <= usize::MAX,
    ensures
        spec_parse(render_text(spec_lines(root, style))) == (
            expected_nodes(listing_rows(root)),
            Seq::<ProblemModel>::empty(),
        ),
{
    let r = listing_rows(root);
    let l = spec_lines(root, style);
    let text = render_text(l);
    lemma_listing_rows_ok(root);
    lemma_lines_rows(root, style);
    assert forall|k: int| 0 <= k < l.len() implies no_char(#[trigger] line_text(l[k]), |c: char| c == '\n') by {
        assert(line_ok(l[k], r[k], style));
        let name = r[k].segs.last();
        lemma_label(name, r[k].folder);
        let t = line_text(l[k]);
        assert(label_of(l[k].node) == name_label(name, r[k].folder));
        assert forall|i: int| 0 <= i < t.len() implies !(#[trigger] t[i] == '\n') by {
            if i < l[k].prefix.len() {
                assert(glyph_char(l[k].prefix[i]));
            } else {
                assert(label_char(name_label(name, r[k].folder)[i - l[k].prefix.len()]));
            }
        }
    }
    lemma_render_lines(l);
    let lines = text_lines(text);
    assert forall|k: int|
        0 <= k < r.len() implies strip_cr(#[trigger] lines[k]) == lines[k] && spec_read_entry(
        lines[k],
        k as usize,
    ) == (Some(row_entry(r[k], k, style)), Seq::<ProblemModel>::empty()) by {
        assert(line_ok(l[k], r[k], style));
        assert(lines[k] == line_text(l[k]));
        let name = r[k].segs.last();
        assert(label_of(l[k].node) == name_label(name, r[k].folder));
        assert(l[k].prefix.len() <= text.len());
        lemma_line_read(l[k].prefix, name, r[k].folder, k as usize);
    }
    assert(lines.last() == Seq::<char>::empty());
    lemma_read_rows(lines, r, style, 0);
    assert(read_from(lines, 0).0 =~= row_entries(r, style));
    assert(row_entries(r, style).skip(0) =~= row_entries(r, style));
    assert forall|q: int| 0 <= q < r.len() implies indent(
        ((#[trigger] r[q]).segs.len() - 1) as nat,
        width(style),
    ) <= usize::MAX by {
        assert(line_ok(l[q], r[q], style));
        assert(l[q].prefix.len() <= text.len());
    }
    lemma_sim(r, style, 0);
    let init = ParseState { nodes: Seq::empty(), problems: Seq::empty(), stack: Seq::empty() };
    assert(state_after(r, 0, style) =~= init) by {
        assert(expected_nodes(r.take(0)) =~= Seq::<NodeModel>::empty());
    }
    assert(r.take(r.len() as int) =~= r);
}

} // verus!
