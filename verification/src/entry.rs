//! One line of tree text to an entry: its column, its path segments and
//! whether it names a folder or a root marker.

use vstd::prelude::*;

use crate::line::{
    comment, is_comment, is_ellipsis, is_root_marker, noise, prefix_len, spec_is_ellipsis,
    spec_is_noise, spec_is_root_marker, spec_prefix_len, spec_strip_note, spec_strip_wrapping,
    strip_note, strip_wrapping, is_forbidden, forbidden,
};
use crate::parser::{Problem, ProblemModel, problem_views};
use crate::text::{
    chars_of, ends_with, extend_chars, has_prefix, has_suffix, is_whitespace, slice_chars,
    split_where, starts_with, string_of, trim, trim_end, trimmed, trimmed_end, views,
};

verus! {

/// An entry read from one line.
pub struct Entry {
    pub line: usize,
    pub column: usize,
    pub segments: Vec<Vec<char>>,
    pub explicit_folder: bool,
    pub root_marker: bool,
}

pub struct EntryModel {
    pub line: usize,
    pub column: usize,
    pub segments: Seq<Seq<char>>,
    pub explicit_folder: bool,
    pub root_marker: bool,
}

impl View for Entry {
    type V = EntryModel;

    open spec fn view(&self) -> EntryModel {
        EntryModel {
            line: self.line,
            column: self.column,
            segments: views(self.segments@),
            explicit_folder: self.explicit_folder,
            root_marker: self.root_marker,
        }
    }
}

/// Spaces other than U+0020 that are read as a plain space.
pub open spec fn is_unicode_space(c: char) -> bool {
    ||| c == '\u{a0}'
    ||| ('\u{2000}' <= c && c <= '\u{200b}')
    ||| c == '\u{202f}'
    ||| c == '\u{205f}'
    ||| c == '\u{3000}'
}

pub open spec fn expand_char(c: char) -> Seq<char> {
    if c == '\t' {
        seq![' ', ' ', ' ', ' ']
    } else if is_unicode_space(c) {
        seq![' ']
    } else {
        seq![c]
    }
}

/// The line with each tab replaced by four spaces and each unicode space by
/// a plain space.
pub open spec fn expand(s: Seq<char>) -> Seq<char>
    decreases s.len(),
{
    if s.len() == 0 {
        Seq::<char>::empty()
    } else {
        expand(s.drop_last()) + expand_char(s.last())
    }
}

pub open spec fn is_path_sep(c: char) -> bool {
    c == '/' || c == '\\'
}

/// The trimmed pieces that are neither empty nor `.`.
pub open spec fn keep_segments(ps: Seq<Seq<char>>) -> Seq<Seq<char>>
    decreases ps.len(),
{
    if ps.len() == 0 {
        Seq::<Seq<char>>::empty()
    } else {
        let prev = keep_segments(ps.drop_last());
        let t = trim(ps.last());
        if t.len() > 0 && t != seq!['.'] {
            prev.push(t)
        } else {
            prev
        }
    }
}

/// The path segments of a name, split at `/` and `\`.
pub open spec fn segments_of(name: Seq<char>) -> Seq<Seq<char>> {
    keep_segments(split_where(name, |c: char| is_path_sep(c)))
}

pub open spec fn has_forbidden(seg: Seq<char>) -> bool {
    exists|i: int| 0 <= i < seg.len() && is_forbidden(#[trigger] seg[i])
}

/// A segment that is refused: `..`, or one holding a character that may not
/// stand in a file name.
pub open spec fn is_bad_segment(seg: Seq<char>) -> bool {
    seg == seq!['.', '.'] || has_forbidden(seg)
}

/// The index of the first refused segment at or after `i`, or the number of
/// segments when there is none.
pub open spec fn first_bad(segs: Seq<Seq<char>>, i: int) -> int
    decreases segs.len() - i,
{
    if i < 0 || i >= segs.len() {
        segs.len() as int
    } else if is_bad_segment(segs[i]) {
        i
    } else {
        first_bad(segs, i + 1)
    }
}

pub open spec fn quoted(text: Seq<char>, tail: Seq<char>) -> Seq<char> {
    seq!['"'] + text + seq!['"'] + tail
}

pub open spec fn absolute_message(name: Seq<char>) -> Seq<char> {
    quoted(name, " is an absolute path; treating it as relative"@)
}

pub open spec fn climb_message(name: Seq<char>) -> Seq<char> {
    quoted(name, " climbs out of the target folder; skipped"@)
}

pub open spec fn forbidden_message(seg: Seq<char>) -> Seq<char> {
    quoted(seg, " contains characters that aren't allowed in file names; skipped"@)
}

/// The name written on a line, once the glyphs in front of it (`rest` is
/// what follows them), its note, surrounding backticks or `**` and
/// surrounding whitespace are taken off.
pub open spec fn name_of(rest: Seq<char>) -> Seq<char> {
    let n1 = trim(spec_strip_note(rest));
    let n2 = spec_strip_wrapping(n1, seq!['`'], seq!['`']);
    trim(spec_strip_wrapping(n2, seq!['*', '*'], seq!['*', '*']))
}

/// The line as it is read: tabs and unicode spaces expanded, trailing
/// whitespace removed.
pub open spec fn clean_line(raw: Seq<char>) -> Seq<char> {
    trim_end(expand(raw))
}

/// Whether a line is skipped outright: blank, a code fence, or a header or
/// footer line of `tree`.
pub open spec fn skipped_line(line: Seq<char>) -> bool {
    let t = trim(line);
    t.len() == 0 || starts_with(t, seq!['`', '`', '`']) || starts_with(t, seq!['~', '~', '~'])
        || spec_is_noise(t)
}

/// What reading line `line_no` (its text is `raw`) gives: an entry or none,
/// and the problems found, in order.
pub open spec fn spec_read_entry(raw: Seq<char>, line_no: usize) -> (
    Option<EntryModel>,
    Seq<ProblemModel>,
) {
    let line = clean_line(raw);
    let column = spec_prefix_len(line);
    let rest = line.skip(column);
    let name = name_of(rest);
    let none = Seq::<ProblemModel>::empty();
    if skipped_line(line) || is_comment(rest) || rest.len() == 0 {
        (None, none)
    } else if name.len() == 0 || spec_is_ellipsis(name) {
        (None, none)
    } else if spec_is_root_marker(name) {
        (
            Some(
                EntryModel {
                    line: line_no,
                    column: column as usize,
                    segments: Seq::empty(),
                    explicit_folder: true,
                    root_marker: true,
                },
            ),
            none,
        )
    } else {
        let abs = if name.len() > 0 && is_path_sep(name[0]) {
            seq![ProblemModel { line: Some(line_no), message: absolute_message(name) }]
        } else {
            none
        };
        let segs = segments_of(name);
        let k = first_bad(segs, 0);
        if segs.len() == 0 {
            (None, abs)
        } else if k < segs.len() {
            let msg = if segs[k] == seq!['.', '.'] {
                climb_message(name)
            } else {
                forbidden_message(segs[k])
            };
            (None, abs.push(ProblemModel { line: Some(line_no), message: msg }))
        } else {
            (
                Some(
                    EntryModel {
                        line: line_no,
                        column: column as usize,
                        segments: segs,
                        explicit_folder: name.len() > 0 && is_path_sep(name.last()),
                        root_marker: false,
                    },
                ),
                abs,
            )
        }
    }
}

fn unicode_space(c: char) -> (b: bool)
    ensures
        b == is_unicode_space(c),
{
    c == '\u{a0}' || ('\u{2000}' <= c && c <= '\u{200b}') || c == '\u{202f}' || c == '\u{205f}'
        || c == '\u{3000}'
}

fn expand_line(raw: &[char]) -> (r: Vec<char>)
    ensures
        r@ == expand(raw@),
{
    let mut r: Vec<char> = Vec::new();
    let n = raw.len();
    for i in 0..n
        invariant
            n == raw@.len(),
            r@ == expand(raw@.take(i as int)),
    {
        let c = raw[i];
        assert(raw@.take(i + 1).drop_last() =~= raw@.take(i as int));
        if c == '\t' {
            r.push(' ');
            r.push(' ');
            r.push(' ');
            r.push(' ');
        } else if unicode_space(c) {
            r.push(' ');
        } else {
            r.push(c);
        }
        assert(r@ =~= expand(raw@.take(i + 1)));
    }
    assert(raw@.take(n as int) == raw@);
    r
}

proof fn lemma_keep_segments_push(ps: Seq<Seq<char>>, x: Seq<char>)
    ensures
        keep_segments(ps.push(x)) == if trim(x).len() > 0 && trim(x) != seq!['.'] {
            keep_segments(ps).push(trim(x))
        } else {
            keep_segments(ps)
        },
{
    assert(ps.push(x).drop_last() =~= ps);
}

fn is_dot(v: &[char]) -> (b: bool)
    ensures
        b == (v@ == seq!['.']),
{
    let r = v.len() == 1 && v[0] == '.';
    proof {
        if v@ == seq!['.'] {
            assert(v@[0] == '.');
        }
        if r {
            assert(v@ =~= seq!['.']);
        }
    }
    r
}

fn is_dot_dot(v: &[char]) -> (b: bool)
    ensures
        b == (v@ == seq!['.', '.']),
{
    let r = v.len() == 2 && v[0] == '.' && v[1] == '.';
    proof {
        if v@ == seq!['.', '.'] {
            assert(v@[0] == '.' && v@[1] == '.');
        }
        if r {
            assert(v@ =~= seq!['.', '.']);
        }
    }
    r
}

fn push_segment(segs: &mut Vec<Vec<char>>, piece: &[char])
    ensures
        views(final(segs)@) == if trim(piece@).len() > 0 && trim(piece@) != seq!['.'] {
            views(old(segs)@).push(trim(piece@))
        } else {
            views(old(segs)@)
        },
{
    let t = trimmed(piece);
    if t.len() > 0 && !is_dot(&t) {
        let ghost before = views(segs@);
        segs.push(t);
        assert(views(segs@) =~= before.push(trim(piece@)));
    }
}

fn split_segments(name: &[char]) -> (segs: Vec<Vec<char>>)
    ensures
        views(segs@) == segments_of(name@),
{
    let ghost sep = |c: char| is_path_sep(c);
    let mut done: Vec<Vec<char>> = Vec::new();
    let mut cur: Vec<char> = Vec::new();
    let n = name.len();
    for i in 0..n
        invariant
            n == name@.len(),
            sep == (|c: char| is_path_sep(c)),
            split_where(name@.take(i as int), sep).len() >= 1,
            views(done@) == keep_segments(split_where(name@.take(i as int), sep).drop_last()),
            cur@ == split_where(name@.take(i as int), sep).last(),
    {
        let ghost prev = split_where(name@.take(i as int), sep);
        let c = name[i];
        assert(name@.take(i + 1).drop_last() =~= name@.take(i as int));
        assert(name@.take(i + 1).last() == c);
        if c == '/' || c == '\\' {
            proof {
                lemma_keep_segments_push(prev.drop_last(), prev.last());
                assert(prev.drop_last().push(prev.last()) =~= prev);
                assert(split_where(name@.take(i + 1), sep).drop_last() =~= prev);
            }
            push_segment(&mut done, &cur);
            cur = Vec::new();
        } else {
            cur.push(c);
            assert(split_where(name@.take(i + 1), sep).drop_last() =~= prev.drop_last());
        }
    }
    proof {
        let ps = split_where(name@.take(n as int), sep);
        assert(name@.take(n as int) == name@);
        lemma_keep_segments_push(ps.drop_last(), ps.last());
        assert(ps.drop_last().push(ps.last()) =~= ps);
    }
    push_segment(&mut done, &cur);
    done
}

fn any_forbidden(seg: &[char]) -> (b: bool)
    ensures
        b == has_forbidden(seg@),
{
    let n = seg.len();
    for i in 0..n
        invariant
            n == seg@.len(),
            forall|j: int| 0 <= j < i ==> !is_forbidden(#[trigger] seg@[j]),
    {
        if forbidden(seg[i]) {
            return true;
        }
    }
    false
}

/// `"text"` followed by `tail`, as a string.
fn quoted_message(text: &[char], tail: &str) -> (r: String)
    ensures
        r@ == quoted(text@, tail@),
{
    let mut v: Vec<char> = Vec::new();
    v.push('"');
    extend_chars(&mut v, text);
    v.push('"');
    let t = chars_of(tail);
    extend_chars(&mut v, &t);
    assert(v@ =~= quoted(text@, tail@));
    string_of(&v)
}

/// Reads line `line_no`, whose text is `raw`; the problems it finds are
/// appended to `problems`.
pub fn read_entry(raw: &[char], line_no: usize, problems: &mut Vec<Problem>) -> (r: Option<Entry>)
    ensures
        r matches Some(e) ==> spec_read_entry(raw@, line_no).0 == Some(e@),
        r is None ==> spec_read_entry(raw@, line_no).0 is None,
        r matches Some(e) ==> e.root_marker || e.segments@.len() > 0,
        problem_views(final(problems)@) == problem_views(old(problems)@) + spec_read_entry(
            raw@,
            line_no,
        ).1,
{
    let ghost spec = spec_read_entry(raw@, line_no);
    let ghost p0 = problem_views(problems@);
    assert(p0 + Seq::<ProblemModel>::empty() =~= p0);
    let expanded = expand_line(raw);
    let line = trimmed_end(&expanded);
    let t = trimmed(&line);
    let fence1 = ['`', '`', '`'];
    let fence2 = ['~', '~', '~'];
    assert(fence1@ == seq!['`', '`', '`']);
    assert(fence2@ == seq!['~', '~', '~']);
    if t.len() == 0 || has_prefix(&t, &fence1) || has_prefix(&t, &fence2) || noise(&t) {
        return None;
    }
    let column = prefix_len(&line);
    let rest = slice_chars(&line, column, line.len());
    assert(rest@ =~= line@.skip(column as int));
    if comment(&rest) || rest.len() == 0 {
        return None;
    }
    let n0 = strip_note(&rest);
    let n1 = trimmed(&n0);
    let tick = ['`'];
    let stars = ['*', '*'];
    assert(tick@ == seq!['`']);
    assert(stars@ == seq!['*', '*']);
    let n2 = strip_wrapping(&n1, &tick, &tick);
    let n3 = strip_wrapping(&n2, &stars, &stars);
    let name = trimmed(&n3);
    if name.len() == 0 || is_ellipsis(&name) {
        return None;
    }
    if is_root_marker(&name) {
        let e = Entry {
            line: line_no,
            column,
            segments: Vec::new(),
            explicit_folder: true,
            root_marker: true,
        };
        assert(e@.segments =~= Seq::<Seq<char>>::empty());
        return Some(e);
    }
    let absolute = name[0] == '/' || name[0] == '\\';
    if absolute {
        let message = quoted_message(&name, " is an absolute path; treating it as relative");
        problems.push(Problem { line: Some(line_no), message });
        assert(problem_views(problems@) =~= p0 + spec.1.take(1));
    }
    let ghost abs = if absolute {
        seq![ProblemModel { line: Some(line_no), message: absolute_message(name@) }]
    } else {
        Seq::<ProblemModel>::empty()
    };
    let ghost p1 = problem_views(problems@);
    assert(p1 =~= p0 + abs);
    let explicit_folder = name[name.len() - 1] == '/' || name[name.len() - 1] == '\\';
    let segments = split_segments(&name);
    if segments.len() == 0 {
        assert(spec.1 =~= spec.1.take(if absolute { 1 } else { 0 }));
        return None;
    }
    let nsegs = segments.len();
    assert(name@ == name_of(rest@));
    for k in 0..nsegs
        invariant
            nsegs == segments@.len(),
            views(segments@) == segments_of(name@),
            first_bad(views(segments@), k as int) == first_bad(views(segments@), 0),
            problem_views(problems@) == p1,
            p1 == p0 + abs,
            p0 == problem_views(old(problems)@),
            spec == spec_read_entry(raw@, line_no),
            line@ == clean_line(raw@),
            column == spec_prefix_len(line@),
            rest@ == line@.skip(column as int),
            name@ == name_of(rest@),
            !skipped_line(line@),
            !is_comment(rest@),
            rest@.len() > 0,
            name@.len() > 0,
            !spec_is_ellipsis(name@),
            !spec_is_root_marker(name@),
            absolute == is_path_sep(name@[0]),
            abs == (if absolute {
                seq![ProblemModel { line: Some(line_no), message: absolute_message(name@) }]
            } else {
                Seq::<ProblemModel>::empty()
            }),
    {
        assert(segments@[k as int]@ == views(segments@)[k as int]);
        if is_dot_dot(&segments[k]) {
            let message = quoted_message(&name, " climbs out of the target folder; skipped");
            problems.push(Problem { line: Some(line_no), message });
            assert(problem_views(problems@) =~= p1.push(
                ProblemModel { line: Some(line_no), message: climb_message(name@) },
            ));
            assert(spec.1 == abs.push(
                ProblemModel { line: Some(line_no), message: climb_message(name@) },
            ));
            assert(problem_views(problems@) =~= p0 + spec.1);
            return None;
        }
        if any_forbidden(&segments[k]) {
            let message = quoted_message(
                &segments[k],
                " contains characters that aren't allowed in file names; skipped",
            );
            problems.push(Problem { line: Some(line_no), message });
            assert(problem_views(problems@) =~= p1.push(
                ProblemModel {
                    line: Some(line_no),
                    message: forbidden_message(views(segments@)[k as int]),
                },
            ));
            assert(spec.1 == abs.push(
                ProblemModel {
                    line: Some(line_no),
                    message: forbidden_message(views(segments@)[k as int]),
                },
            ));
            assert(problem_views(problems@) =~= p0 + spec.1);
            return None;
        }
    }
    assert(p1 =~= p0 + spec.1);
    Some(Entry { line: line_no, column, segments, explicit_folder, root_marker: false })
}

} // verus!
