//! Line ends and tabs do not change what a tree text reads as: CRLF reads
//! as LF, and a tab as four spaces.

use vstd::prelude::*;

use crate::entry::{clean_line, expand, expand_char, is_unicode_space, skipped_line, spec_read_entry};
use crate::line::{
    all_ascii_digits, ascii_lower, ascii_lower_char, markdown_bullets_are_skipped, spaces, spec_is_noise,
    spec_prefix_len, words,
};
use crate::round_trip::{lead_ws, lemma_first_word, lemma_lead_ws};
use crate::text::{spec_is_whitespace, starts_with, trim, trim_end, trim_start};
use crate::parser::{read_from, spec_parse, strip_cr, text_lines};
use crate::text::{lemma_split_append_plain, lemma_split_where_nonempty, no_char, split_where};

verus! {

/// The text with each `\n` written `\r\n`.
pub open spec fn crlf(t: Seq<char>) -> Seq<char>
    decreases t.len(),
{
    if t.len() == 0 {
        Seq::empty()
    } else {
        crlf(t.drop_last()) + if t.last() == '\n' {
            seq!['\r', '\n']
        } else {
            seq![t.last()]
        }
    }
}

/// What a character is written as once tabs become four spaces.
pub open spec fn detab_char(c: char) -> Seq<char> {
    if c == '\t' {
        seq![' ', ' ', ' ', ' ']
    } else {
        seq![c]
    }
}

/// The text with each tab written as four spaces.
pub open spec fn detab(t: Seq<char>) -> Seq<char>
    decreases t.len(),
{
    if t.len() == 0 {
        Seq::empty()
    } else {
        detab(t.drop_last()) + detab_char(t.last())
    }
}

proof fn lemma_read_from_same(a: Seq<Seq<char>>, b: Seq<Seq<char>>, i: int)
    requires
        a.len() == b.len(),
        0 <= i,
        forall|k: int|
            0 <= k < a.len() ==> spec_read_entry(strip_cr(#[trigger] a[k]), k as usize)
                == spec_read_entry(strip_cr(b[k]), k as usize),
    ensures
        read_from(a, i) == read_from(b, i),
    decreases a.len() - i,
{
    if i < a.len() {
        lemma_read_from_same(a, b, i + 1);
        assert(spec_read_entry(strip_cr(a[i]), i as usize) == spec_read_entry(strip_cr(b[i]), i as usize));
    }
}

proof fn lemma_crlf_lines(t: Seq<char>)
    ensures
        text_lines(crlf(t)).len() == text_lines(t).len(),
        forall|k: int|
            0 <= k < text_lines(t).len() - 1 ==> #[trigger] text_lines(crlf(t))[k] == text_lines(t)[k].push(
                '\r',
            ),
        text_lines(crlf(t)).last() == text_lines(t).last(),
    decreases t.len(),
{
    let nl = |c: char| c == '\n';
    if t.len() == 0 {
        assert(crlf(t) =~= Seq::<char>::empty());
    } else {
        let d = t.drop_last();
        let c = t.last();
        lemma_crlf_lines(d);
        let a0 = text_lines(crlf(d));
        let b0 = text_lines(d);
        lemma_split_where_nonempty(crlf(d), nl);
        lemma_split_where_nonempty(d, nl);
        if c == '\n' {
            let x = crlf(d).push('\r');
            assert(crlf(t) =~= x.push('\n'));
            assert(x.push('\n').drop_last() =~= x);
            assert(x.drop_last() =~= crlf(d));
            assert(text_lines(x) == a0.update(a0.len() - 1, a0.last().push('\r')));
            assert(text_lines(crlf(t)) == text_lines(x).push(Seq::<char>::empty()));
            assert(text_lines(t) == b0.push(Seq::<char>::empty()));
        } else {
            assert(crlf(t) =~= crlf(d).push(c));
            assert(crlf(d).push(c).drop_last() =~= crlf(d));
            assert(text_lines(crlf(t)) == a0.update(a0.len() - 1, a0.last().push(c)));
            assert(text_lines(t) == b0.update(b0.len() - 1, b0.last().push(c)));
        }
    }
}

/// A tree text reads the same with CRLF line ends as with LF ones: the same
/// nodes, the same problems.
pub proof fn crlf_reads_as_lf(t: Seq<char>)
    ensures
        spec_parse(crlf(t)) == spec_parse(t),
{
    lemma_crlf_lines(t);
    let a = text_lines(crlf(t));
    let b = text_lines(t);
    lemma_split_where_nonempty(t, |c: char| c == '\n');
    assert forall|k: int| 0 <= k < a.len() implies spec_read_entry(strip_cr(#[trigger] a[k]), k as usize)
        == spec_read_entry(strip_cr(b[k]), k as usize) by {
        if k < b.len() - 1 {
            assert(b[k].push('\r').drop_last() =~= b[k]);
            assert(strip_cr(a[k]) == strip_cr(b[k]));
        } else {
            assert(a[k] == b[k]);
        }
    }
    lemma_read_from_same(a, b, 0);
}

proof fn lemma_detab_lines(t: Seq<char>)
    ensures
        text_lines(detab(t)).len() == text_lines(t).len(),
        forall|k: int|
            0 <= k < text_lines(t).len() ==> #[trigger] text_lines(detab(t))[k] == detab(text_lines(t)[k]),
    decreases t.len(),
{
    let nl = |c: char| c == '\n';
    if t.len() == 0 {
        assert(detab(t) =~= Seq::<char>::empty());
        assert(detab(Seq::<char>::empty()) =~= Seq::<char>::empty());
    } else {
        let d = t.drop_last();
        let c = t.last();
        lemma_detab_lines(d);
        let a0 = text_lines(detab(d));
        let b0 = text_lines(d);
        lemma_split_where_nonempty(detab(d), nl);
        lemma_split_where_nonempty(d, nl);
        if c == '\n' {
            assert(detab(t) =~= detab(d).push('\n'));
            assert(detab(d).push('\n').drop_last() =~= detab(d));
            assert(text_lines(detab(t)) == a0.push(Seq::<char>::empty()));
            assert(text_lines(t) == b0.push(Seq::<char>::empty()));
            assert(detab(Seq::<char>::empty()) =~= Seq::<char>::empty());
        } else {
            let piece = detab_char(c);
            assert(no_char(piece, nl));
            lemma_split_append_plain(detab(d), piece, nl);
            assert(text_lines(detab(t)) == a0.update(a0.len() - 1, a0.last() + piece));
            assert(text_lines(t) == b0.update(b0.len() - 1, b0.last().push(c)));
            let l = b0.last().push(c);
            assert(l.drop_last() =~= b0.last());
            assert(detab(l) == detab(b0.last()) + piece);
            assert forall|k: int| 0 <= k < text_lines(t).len() implies #[trigger] text_lines(detab(t))[k]
                == detab(text_lines(t)[k]) by {
                if k < b0.len() - 1 {
                } else {
                    assert(a0.last() == detab(b0.last()));
                }
            }
        }
    }
}

proof fn lemma_strip_cr_detab(l: Seq<char>)
    ensures
        strip_cr(detab(l)) == detab(strip_cr(l)),
    decreases l.len(),
{
    if l.len() > 0 {
        let d = l.drop_last();
        if l.last() == '\r' {
            lemma_strip_cr_detab(d);
            assert(detab(l) =~= detab(d).push('\r'));
            assert(detab(d).push('\r').drop_last() =~= detab(d));
        } else {
            let e = detab(l);
            assert(e == detab(d) + detab_char(l.last()));
            assert(e.last() != '\r');
        }
    } else {
        assert(detab(l) =~= Seq::<char>::empty());
    }
}

proof fn lemma_expand_concat(x: Seq<char>, y: Seq<char>)
    ensures
        expand(x + y) == expand(x) + expand(y),
    decreases y.len(),
{
    if y.len() == 0 {
        assert(x + y =~= x);
        assert(expand(x) + expand(y) =~= expand(x));
    } else {
        lemma_expand_concat(x, y.drop_last());
        assert((x + y).drop_last() =~= x + y.drop_last());
        assert((x + y).last() == y.last());
        assert(expand(x) + expand(y.drop_last()) + expand_char(y.last()) =~= expand(x) + (expand(
            y.drop_last(),
        ) + expand_char(y.last())));
    }
}

proof fn lemma_expand_spaces(p: Seq<char>)
    requires
        forall|i: int| 0 <= i < p.len() ==> #[trigger] p[i] == ' ',
    ensures
        expand(p) == p,
    decreases p.len(),
{
    if p.len() > 0 {
        let d = p.drop_last();
        assert forall|i: int| 0 <= i < d.len() implies #[trigger] d[i] == ' ' by {
            assert(d[i] == p[i]);
        }
        lemma_expand_spaces(d);
        assert(p.last() == p[p.len() - 1]);
        assert(d.push(' ') =~= p);
    } else {
        assert(p =~= Seq::<char>::empty());
    }
}

proof fn lemma_expand_detab(r: Seq<char>)
    ensures
        expand(detab(r)) == expand(r),
    decreases r.len(),
{
    if r.len() > 0 {
        let d = r.drop_last();
        let c = r.last();
        lemma_expand_detab(d);
        lemma_expand_concat(detab(d), detab_char(c));
        let p = detab_char(c);
        if c == '\t' {
            lemma_expand_spaces(p);
        } else {
            assert(p.drop_last() =~= Seq::<char>::empty());
            assert(expand(Seq::<char>::empty()) =~= Seq::<char>::empty());
            assert(expand(p) =~= expand_char(c));
        }
    }
}

/// A tree text reads the same with tabs as with four spaces for each: the
/// same nodes, the same problems.
pub proof fn tabs_read_as_four_spaces(t: Seq<char>)
    ensures
        spec_parse(detab(t)) == spec_parse(t),
{
    lemma_detab_lines(t);
    let a = text_lines(detab(t));
    let b = text_lines(t);
    assert forall|k: int| 0 <= k < a.len() implies spec_read_entry(strip_cr(#[trigger] a[k]), k as usize)
        == spec_read_entry(strip_cr(b[k]), k as usize) by {
        lemma_strip_cr_detab(b[k]);
        lemma_expand_detab(strip_cr(b[k]));
        assert(clean_line(strip_cr(a[k])) == clean_line(strip_cr(b[k])));
    }
    lemma_read_from_same(a, b, 0);
}

proof fn lemma_trim_end_concat(p: Seq<char>, x: Seq<char>)
    requires
        trim_end(x).len() > 0,
    ensures
        trim_end(p + x) == p + trim_end(x),
    decreases x.len(),
{
    if x.len() > 0 && spec_is_whitespace(x.last()) {
        assert((p + x).last() == x.last());
        assert((p + x).drop_last() =~= p + x.drop_last());
        lemma_trim_end_concat(p, x.drop_last());
    }
}

proof fn lemma_trim_end_keeps_first(x: Seq<char>)
    requires
        x.len() > 0,
        !spec_is_whitespace(x[0]),
    ensures
        trim_end(x).len() > 0,
        trim_end(x)[0] == x[0],
        !spec_is_whitespace(trim_end(x).last()),
    decreases x.len(),
{
    if spec_is_whitespace(x.last()) {
        assert(x.len() > 1);
        assert(x.drop_last()[0] == x[0]);
        lemma_trim_end_keeps_first(x.drop_last());
    }
}

/// The line of a markdown bullet: indentation, the bullet, a space, and what
/// follows.
pub open spec fn bullet_line(k: nat, bullet: char, rest: Seq<char>) -> Seq<char> {
    spaces(k) + seq![bullet, ' '] + rest
}

proof fn lemma_bullet_clean(k: nat, bullet: char, rest: Seq<char>)
    requires
        bullet == '-' || bullet == '*' || bullet == '+',
        rest.len() > 0,
        !spec_is_whitespace(rest[0]),
        !is_unicode_space(rest[0]),
    ensures
        ({
            let t = trim_end(expand(rest));
            &&& t.len() > 0
            &&& !spec_is_whitespace(t[0])
            &&& clean_line(bullet_line(k, bullet, rest)) == spaces(k) + seq![bullet, ' '] + t
            &&& trim(clean_line(bullet_line(k, bullet, rest))) == seq![bullet, ' '] + t
        }),
{
    let p = spaces(k) + seq![bullet, ' '];
    let raw = bullet_line(k, bullet, rest);
    assert(raw == p + rest);
    lemma_expand_concat(p, rest);
    lemma_expand_concat(spaces(k), seq![bullet, ' ']);
    assert forall|i: int| 0 <= i < spaces(k).len() implies #[trigger] spaces(k)[i] == ' ' by {}
    lemma_expand_spaces(spaces(k));
    let bs = seq![bullet, ' '];
    assert(bs.drop_last() =~= seq![bullet]);
    assert(seq![bullet].drop_last() =~= Seq::<char>::empty());
    assert(expand(Seq::<char>::empty()) =~= Seq::<char>::empty());
    assert(!is_unicode_space(bullet) && !is_unicode_space(' '));
    assert(expand(seq![bullet]) =~= seq![bullet]);
    assert(expand(bs) =~= bs);
    let e = expand(rest);
    lemma_expand_concat(seq![rest[0]], rest.drop_first());
    assert(seq![rest[0]] + rest.drop_first() =~= rest);
    assert(seq![rest[0]].drop_last() =~= Seq::<char>::empty());
    assert(rest[0] != '\t');
    assert(expand(seq![rest[0]]) =~= seq![rest[0]]);
    assert(e[0] == rest[0]);
    lemma_trim_end_keeps_first(e);
    let t = trim_end(e);
    lemma_trim_end_concat(p, e);
    let line = p + t;
    assert(clean_line(raw) == line);
    // trimming the line: its end is already trimmed, its start is the indentation
    assert(line.last() == t.last());
    assert(trim_end(line) == line);
    assert(line[k as int] == bullet);
    assert forall|j: int| 0 <= j < k implies spec_is_whitespace(#[trigger] line[j]) by {
        assert(line[j] == ' ');
    }
    lemma_lead_ws(line, k as int);
    if lead_ws(line) < k {
        assert(line[lead_ws(line)] == ' ');
    }
    assert(line.skip(k as int) =~= seq![bullet, ' '] + t);
}

proof fn lemma_bullet_not_skipped(line: Seq<char>, bullet: char, t: Seq<char>)
    requires
        bullet == '-' || bullet == '*' || bullet == '+',
        trim(line) == seq![bullet, ' '] + t,
    ensures
        !skipped_line(line),
{
    let tt = trim(line);
    assert(tt[0] == bullet);
    reveal_strlit("folder path listing");
    reveal_strlit("volume serial number is");
    reveal_strlit("no subfolders exist");
    reveal_strlit("invalid path");
    let lower = ascii_lower(tt);
    assert(lower[0] == ascii_lower_char(tt[0]));
    assert(lower[0] == bullet);
    assert(!starts_with(tt, seq!['`', '`', '`'])) by {
        if starts_with(tt, seq!['`', '`', '`']) {
            assert(tt.take(3)[0] == tt[0]);
        }
    }
    assert(!starts_with(tt, seq!['~', '~', '~'])) by {
        if starts_with(tt, seq!['~', '~', '~']) {
            assert(tt.take(3)[0] == tt[0]);
        }
    }
    assert(!starts_with(lower, "folder path listing"@)) by {
        if starts_with(lower, "folder path listing"@) {
            assert(lower.take(19)[0] == lower[0]);
        }
    }
    assert(!starts_with(lower, "volume serial number is"@)) by {
        if starts_with(lower, "volume serial number is"@) {
            assert(lower.take(23)[0] == lower[0]);
        }
    }
    assert(!starts_with(lower, "no subfolders exist"@)) by {
        if starts_with(lower, "no subfolders exist"@) {
            assert(lower.take(19)[0] == lower[0]);
        }
    }
    assert(!starts_with(lower, "invalid path"@)) by {
        if starts_with(lower, "invalid path"@) {
            assert(lower.take(12)[0] == lower[0]);
        }
    }
    lemma_first_word(lower);
    assert(!all_ascii_digits(words(lower)[0]));
    assert(!spec_is_noise(tt));
}

/// A markdown bullet reads the same whichever of `-`, `*` or `+` it is
/// written with: reading a line gives the same entry and the same problems,
/// and the name starts after the bullet and its space.
pub proof fn bullets_read_alike(k: nat, b1: char, b2: char, rest: Seq<char>, line_no: usize)
    requires
        b1 == '-' || b1 == '*' || b1 == '+',
        b2 == '-' || b2 == '*' || b2 == '+',
        rest.len() > 0,
        !spec_is_whitespace(rest[0]),
        !is_unicode_space(rest[0]),
    ensures
        spec_read_entry(bullet_line(k, b1, rest), line_no) == spec_read_entry(
            bullet_line(k, b2, rest),
            line_no,
        ),
        spec_prefix_len(clean_line(bullet_line(k, b1, rest))) == k + 2,
{
    lemma_bullet_clean(k, b1, rest);
    lemma_bullet_clean(k, b2, rest);
    let t = trim_end(expand(rest));
    markdown_bullets_are_skipped(k, b1, t);
    markdown_bullets_are_skipped(k, b2, t);
    let l1 = clean_line(bullet_line(k, b1, rest));
    let l2 = clean_line(bullet_line(k, b2, rest));
    lemma_bullet_not_skipped(l1, b1, t);
    lemma_bullet_not_skipped(l2, b2, t);
    assert(l1.skip(k + 2int) =~= t);
    assert(l2.skip(k + 2int) =~= t);
    assert(trim(l1) == seq![b1, ' '] + t);
    assert(trim(l2) == seq![b2, ' '] + t);
    assert(!skipped_line(l1));
    assert(!skipped_line(l2));
}

} // verus!
