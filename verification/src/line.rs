//! Recognisers for the parts of one line of tree text: the indentation and
//! tree glyphs in front of a name, trailing notes, comments, placeholders,
//! root markers and the header and footer lines that `tree` prints.

use vstd::prelude::*;

use crate::text::{
    chars_of, has_prefix, has_prefix_at, is_whitespace, spec_is_whitespace, split_where,
    starts_with, ends_with, slice_chars, views, lemma_split_where_nonempty,
};

verus! {

/// Vertical tree lines, and the space, that may stand in front of a name.
pub open spec fn is_vertical(c: char) -> bool {
    c == ' ' || c == '│' || c == '┃' || c == '║' || c == '┆' || c == '┊' || c == '┇' || c == '┋'
}

/// Branch corners that start a `├──` style connector.
pub open spec fn is_branch(c: char) -> bool {
    c == '├' || c == '└' || c == '┣' || c == '┗' || c == '╠' || c == '╚' || c == '╟' || c == '╙'
        || c == '╰' || c == '┠' || c == '┖'
}

/// Characters that may follow a branch corner.
pub open spec fn is_branch_tail(c: char) -> bool {
    c == '─' || c == '━' || c == '═' || c == '┬' || c == '┴' || c == '╴' || c == ' '
}

/// Characters that start an ASCII connector when a `-` follows them.
pub open spec fn is_ascii_connector(c: char) -> bool {
    c == '|' || c == '+' || c == '\\' || c == '`'
}

#[verifier::when_used_as_spec(is_vertical)]
fn vertical(c: char) -> (b: bool)
    ensures
        b == is_vertical(c),
{
    c == ' ' || c == '│' || c == '┃' || c == '║' || c == '┆' || c == '┊' || c == '┇' || c == '┋'
}

#[verifier::when_used_as_spec(is_branch)]
fn branch(c: char) -> (b: bool)
    ensures
        b == is_branch(c),
{
    c == '├' || c == '└' || c == '┣' || c == '┗' || c == '╠' || c == '╚' || c == '╟' || c == '╙'
        || c == '╰' || c == '┠' || c == '┖'
}

#[verifier::when_used_as_spec(is_branch_tail)]
fn branch_tail(c: char) -> (b: bool)
    ensures
        b == is_branch_tail(c),
{
    c == '─' || c == '━' || c == '═' || c == '┬' || c == '┴' || c == '╴' || c == ' '
}

/// The first index at or after `i` whose character is not a branch tail.
pub open spec fn skip_tail(s: Seq<char>, i: int) -> int
    decreases s.len() - i,
{
    if 0 <= i < s.len() && is_branch_tail(s[i]) {
        skip_tail(s, i + 1)
    } else {
        i
    }
}

/// The first index at or after `i` whose character is not `-`.
pub open spec fn skip_dashes(s: Seq<char>, i: int) -> int
    decreases s.len() - i,
{
    if 0 <= i < s.len() && s[i] == '-' {
        skip_dashes(s, i + 1)
    } else {
        i
    }
}

pub proof fn lemma_skip_tail_range(s: Seq<char>, i: int)
    requires
        0 <= i <= s.len(),
    ensures
        i <= skip_tail(s, i) <= s.len(),
    decreases s.len() - i,
{
    if i < s.len() && is_branch_tail(s[i]) {
        lemma_skip_tail_range(s, i + 1);
    }
}

pub proof fn lemma_skip_dashes_range(s: Seq<char>, i: int)
    requires
        0 <= i <= s.len(),
    ensures
        i <= skip_dashes(s, i) <= s.len(),
    decreases s.len() - i,
{
    if i < s.len() && s[i] == '-' {
        lemma_skip_dashes_range(s, i + 1);
    }
}

/// Where the run of indentation and tree glyphs that starts at `i` ends.
pub open spec fn glyph_end(s: Seq<char>, i: int) -> int
    decreases s.len() - i,
{
    if i < 0 || i >= s.len() {
        i
    } else if is_vertical(s[i]) {
        glyph_end(s, i + 1)
    } else if is_branch(s[i]) {
        proof {
            lemma_skip_tail_range(s, i + 1);
        }
        glyph_end(s, skip_tail(s, i + 1))
    } else if is_ascii_connector(s[i]) && i + 1 < s.len() && s[i + 1] == '-' {
        proof {
            lemma_skip_dashes_range(s, i + 1);
        }
        let j = skip_dashes(s, i + 1);
        glyph_end(s, if j < s.len() && s[j] == ' ' { j + 1 } else { j })
    } else if s[i] == '|' && i + 1 < s.len() && s[i + 1] == ' ' {
        glyph_end(s, i + 1)
    } else {
        i
    }
}

/// A markdown bullet (`- `, `* `, `+ ` followed by a non-blank) at `i` is
/// skipped too.
pub open spec fn bullet_end(s: Seq<char>, i: int) -> int {
    if 0 <= i && i + 2 < s.len() && (s[i] == '-' || s[i] == '*' || s[i] == '+') && s[i + 1] == ' '
        && !spec_is_whitespace(s[i + 2]) {
        i + 2
    } else {
        i
    }
}

/// Length of the indentation, tree glyphs and list bullet in front of a name.
pub open spec fn spec_prefix_len(s: Seq<char>) -> int {
    bullet_end(s, glyph_end(s, 0))
}

pub proof fn lemma_glyph_end_range(s: Seq<char>, i: int)
    requires
        0 <= i <= s.len(),
    ensures
        i <= glyph_end(s, i) <= s.len(),
    decreases s.len() - i,
{
    if i < s.len() {
        if is_vertical(s[i]) {
            lemma_glyph_end_range(s, i + 1);
        } else if is_branch(s[i]) {
            lemma_skip_tail_range(s, i + 1);
            lemma_glyph_end_range(s, skip_tail(s, i + 1));
        } else if is_ascii_connector(s[i]) && i + 1 < s.len() && s[i + 1] == '-' {
            lemma_skip_dashes_range(s, i + 1);
            let j = skip_dashes(s, i + 1);
            lemma_glyph_end_range(s, if j < s.len() && s[j] == ' ' { j + 1 } else { j });
        } else if s[i] == '|' && i + 1 < s.len() && s[i + 1] == ' ' {
            lemma_glyph_end_range(s, i + 1);
        }
    }
}

/// Length in characters of the indentation, tree glyphs and list bullet in
/// front of a name.
pub fn prefix_len(chars: &[char]) -> (n: usize)
    ensures
        n == spec_prefix_len(chars@),
        n <= chars@.len(),
{
    let len = chars.len();
    let mut i: usize = 0;
    while i < len
        invariant
            len == chars@.len(),
            i <= len,
            glyph_end(chars@, i as int) == glyph_end(chars@, 0),
        ensures
            i <= len,
            glyph_end(chars@, 0) == i,
        decreases len - i,
    {
        let c = chars[i];
        if vertical(c) {
            i = i + 1;
        } else if branch(c) {
            let ghost start = i;
            i = i + 1;
            while i < len && branch_tail(chars[i])
                invariant
                    len == chars@.len(),
                    start < i <= len,
                    skip_tail(chars@, i as int) == skip_tail(chars@, start + 1),
                    glyph_end(chars@, start as int) == glyph_end(chars@, 0),
                    is_branch(chars@[start as int]),
                    !is_vertical(chars@[start as int]),
                decreases len - i,
            {
                i = i + 1;
            }
        } else if (c == '|' || c == '+' || c == '\\' || c == '`') && i + 1 < len && chars[i + 1] == '-' {
            let ghost start = i;
            i = i + 1;
            while i < len && chars[i] == '-'
                invariant
                    len == chars@.len(),
                    start < i <= len,
                    skip_dashes(chars@, i as int) == skip_dashes(chars@, start + 1),
                decreases len - i,
            {
                i = i + 1;
            }
            if i < len && chars[i] == ' ' {
                i = i + 1;
            }
        } else if c == '|' && i + 1 < len && chars[i + 1] == ' ' {
            i = i + 1;
        } else {
            break;
        }
    }
    proof {
        lemma_glyph_end_range(chars@, 0);
    }
    if i < len && len - i > 2 && (chars[i] == '-' || chars[i] == '*' || chars[i] == '+') && chars[i + 1] == ' '
        && !is_whitespace(chars[i + 2]) {
        i = i + 2;
    }
    i
}

} // verus!

verus! {

/// Whether `t` begins with one of the markers that introduce a note after a
/// single space: `#`, `//`, `<-`, `←`, `→`, `-->`.
pub open spec fn starts_note_marker(t: Seq<char>) -> bool {
    ||| starts_with(t, seq!['#'])
    ||| starts_with(t, seq!['/', '/'])
    ||| starts_with(t, seq!['<', '-'])
    ||| starts_with(t, seq!['←'])
    ||| starts_with(t, seq!['→'])
    ||| starts_with(t, seq!['-', '-', '>'])
}

/// Where the name in `s` ends, searching from index `k`: before two
/// whitespace characters in a row, before a whitespace character followed by
/// a note marker, or right after a `/` or `\` that is followed by whitespace.
pub open spec fn note_cut(s: Seq<char>, k: int) -> int
    decreases s.len() - k,
{
    if k < 0 || k >= s.len() {
        s.len() as int
    } else if spec_is_whitespace(s[k]) && k + 1 < s.len() && spec_is_whitespace(s[k + 1]) {
        k
    } else if spec_is_whitespace(s[k]) && starts_note_marker(s.skip(k + 1)) {
        k
    } else if (s[k] == '/' || s[k] == '\\') && k + 1 < s.len() && spec_is_whitespace(s[k + 1]) {
        k + 1
    } else {
        note_cut(s, k + 1)
    }
}

/// The part of `rest` before its note.
pub open spec fn spec_strip_note(rest: Seq<char>) -> Seq<char> {
    rest.take(note_cut(rest, 0))
}

fn note_marker_at(v: &[char], at: usize) -> (b: bool)
    requires
        at <= v@.len(),
    ensures
        b == starts_note_marker(v@.skip(at as int)),
{
    let m1 = ['#'];
    let m2 = ['/', '/'];
    let m3 = ['<', '-'];
    let m4 = ['←'];
    let m5 = ['→'];
    let m6 = ['-', '-', '>'];
    assert(m1@ == seq!['#']);
    assert(m2@ == seq!['/', '/']);
    assert(m3@ == seq!['<', '-']);
    assert(m4@ == seq!['←']);
    assert(m5@ == seq!['→']);
    assert(m6@ == seq!['-', '-', '>']);
    has_prefix_at(v, at, &m1) || has_prefix_at(v, at, &m2) || has_prefix_at(v, at, &m3)
        || has_prefix_at(v, at, &m4) || has_prefix_at(v, at, &m5) || has_prefix_at(v, at, &m6)
}

/// Where the name ends and a note begins: two or more spaces, ` #`, ` //`,
/// ` <-`, ` ←`, ` →`, ` -->`, or right after a `/` that's followed by
/// whitespace.
pub fn strip_note(rest: &[char]) -> (r: Vec<char>)
    ensures
        r@ == spec_strip_note(rest@),
{
    let len = rest.len();
    let mut k: usize = 0;
    while k < len
        invariant
            len == rest@.len(),
            k <= len,
            note_cut(rest@, k as int) == note_cut(rest@, 0),
        decreases len - k,
    {
        let c = rest[k];
        if is_whitespace(c) {
            if k + 1 < len && is_whitespace(rest[k + 1]) {
                return slice_chars(rest, 0, k);
            }
            if note_marker_at(rest, k + 1) {
                return slice_chars(rest, 0, k);
            }
        } else if (c == '/' || c == '\\') && k + 1 < len && is_whitespace(rest[k + 1]) {
            return slice_chars(rest, 0, k + 1);
        }
        k = k + 1;
    }
    slice_chars(rest, 0, len)
}

/// `s` without `open` in front and `close` behind, when it has both and
/// something is left between them.
pub open spec fn spec_strip_wrapping(s: Seq<char>, open: Seq<char>, close: Seq<char>) -> Seq<char> {
    if s.len() > open.len() + close.len() && starts_with(s, open) && ends_with(s, close) {
        s.subrange(open.len() as int, s.len() - close.len())
    } else {
        s
    }
}

pub fn strip_wrapping(s: &[char], open: &[char], close: &[char]) -> (r: Vec<char>)
    ensures
        r@ == spec_strip_wrapping(s@, open@, close@),
{
    if s.len() >= open.len() && s.len() - open.len() > close.len() && has_prefix(s, open)
        && crate::text::has_suffix(s, close) {
        slice_chars(s, open.len(), s.len() - close.len())
    } else {
        slice_chars(s, 0, s.len())
    }
}

/// ASCII letters lowered; everything else unchanged.
pub open spec fn ascii_lower_char(c: char) -> char {
    if 'A' <= c && c <= 'Z' {
        ((c as u32) + 32) as char
    } else {
        c
    }
}

pub open spec fn ascii_lower(s: Seq<char>) -> Seq<char> {
    s.map_values(|c: char| ascii_lower_char(c))
}

fn lower_char(c: char) -> (r: char)
    ensures
        r == ascii_lower_char(c),
{
    if 'A' <= c && c <= 'Z' {
        let u: u8 = c as u8;
        (u + 32) as char
    } else {
        c
    }
}

fn lowered(v: &[char]) -> (r: Vec<char>)
    ensures
        r@ == ascii_lower(v@),
{
    let mut r: Vec<char> = Vec::new();
    let n = v.len();
    for i in 0..n
        invariant
            n == v@.len(),
            r@ == ascii_lower(v@.take(i as int)),
    {
        r.push(lower_char(v[i]));
        assert(ascii_lower(v@.take(i + 1)) =~= ascii_lower(v@.take(i as int)).push(
            ascii_lower_char(v@[i as int]),
        ));
    }
    assert(v@.take(n as int) == v@);
    r
}

/// A placeholder for "more here": three or more dots, `…`, `[...]`,
/// `(...)`, `etc` or `etc.` in any case.
pub open spec fn spec_is_ellipsis(s: Seq<char>) -> bool {
    ||| (s.len() >= 3 && forall|i: int| 0 <= i < s.len() ==> s[i] == '.')
    ||| s == seq!['…']
    ||| s == seq!['[', '.', '.', '.', ']']
    ||| s == seq!['(', '.', '.', '.', ')']
    ||| ascii_lower(s) == seq!['e', 't', 'c']
    ||| ascii_lower(s) == seq!['e', 't', 'c', '.']
}

fn same_chars(a: &[char], b: &[char]) -> (r: bool)
    ensures
        r == (a@ == b@),
{
    if a.len() != b.len() {
        return false;
    }
    let r = has_prefix(a, b);
    assert(a@.take(b@.len() as int) =~= a@);
    r
}

pub fn is_ellipsis(s: &[char]) -> (b: bool)
    ensures
        b == spec_is_ellipsis(s@),
{
    let n = s.len();
    let mut dots = n >= 3;
    let mut i: usize = 0;
    while i < n && dots
        invariant
            n == s@.len(),
            i <= n,
            dots ==> n >= 3 && forall|j: int| 0 <= j < i ==> s@[j] == '.',
            !dots ==> !(s@.len() >= 3 && forall|j: int| 0 <= j < s@.len() ==> s@[j] == '.'),
        decreases n - i,
    {
        if s[i] != '.' {
            dots = false;
        }
        i = i + 1;
    }
    if dots {
        return true;
    }
    let low = lowered(s);
    let e1 = ['…'];
    let e2 = ['[', '.', '.', '.', ']'];
    let e3 = ['(', '.', '.', '.', ')'];
    let e4 = ['e', 't', 'c'];
    let e5 = ['e', 't', 'c', '.'];
    assert(e1@ == seq!['…']);
    assert(e2@ == seq!['[', '.', '.', '.', ']']);
    assert(e3@ == seq!['(', '.', '.', '.', ')']);
    assert(e4@ == seq!['e', 't', 'c']);
    assert(e5@ == seq!['e', 't', 'c', '.']);
    same_chars(s, &e1) || same_chars(s, &e2) || same_chars(s, &e3) || same_chars(&low, &e4)
        || same_chars(&low, &e5)
}

pub open spec fn is_ascii_alpha(c: char) -> bool {
    ('a' <= c && c <= 'z') || ('A' <= c && c <= 'Z')
}

/// `.`, `./`, `.\`, `C:.`, `C:\projects\app`: the folder being listed, not an
/// entry.
pub open spec fn spec_is_root_marker(s: Seq<char>) -> bool {
    ||| s == seq!['.']
    ||| s == seq!['.', '/']
    ||| s == seq!['.', '\\']
    ||| (s.len() >= 2 && is_ascii_alpha(s[0]) && s[1] == ':' && (s.len() == 2 || (s[2] == '.'
        && s.len() == 3) || s[2] == '/' || s[2] == '\\'))
}

pub fn is_root_marker(s: &[char]) -> (b: bool)
    ensures
        b == spec_is_root_marker(s@),
{
    let n = s.len();
    if n == 1 && s[0] == '.' {
        assert(s@ == seq!['.']);
        return true;
    }
    if n == 2 && s[0] == '.' && (s[1] == '/' || s[1] == '\\') {
        assert(s@ == seq!['.', s@[1]]);
        return true;
    }
    proof {
        if s@ == seq!['.'] {
            assert(s@[0] == '.');
        }
        if s@ == seq!['.', '/'] || s@ == seq!['.', '\\'] {
            assert(s@[0] == '.' && s@.len() == 2);
        }
    }
    n >= 2 && (('a' <= s[0] && s[0] <= 'z') || ('A' <= s[0] && s[0] <= 'Z')) && s[1] == ':' && (n
        == 2 || (s[2] == '.' && n == 3) || s[2] == '/' || s[2] == '\\')
}

/// A whole-line comment: `#` or `//` alone or followed by whitespace.
pub open spec fn is_comment(rest: Seq<char>) -> bool {
    ||| (starts_with(rest, seq!['#']) && (rest.len() == 1 || spec_is_whitespace(rest[1])))
    ||| (starts_with(rest, seq!['/', '/']) && (rest.len() == 2 || spec_is_whitespace(rest[2])))
}

pub fn comment(rest: &[char]) -> (b: bool)
    ensures
        b == is_comment(rest@),
{
    let n = rest.len();
    let a = n >= 1 && rest[0] == '#' && (n == 1 || is_whitespace(rest[1]));
    let b = n >= 2 && rest[0] == '/' && rest[1] == '/' && (n == 2 || is_whitespace(rest[2]));
    proof {
        if n >= 1 {
            assert(rest@.take(1) =~= seq![rest@[0]]);
            if starts_with(rest@, seq!['#']) {
                assert(rest@.take(1)[0] == '#');
            }
        }
        if n >= 2 {
            assert(rest@.take(2) =~= seq![rest@[0], rest@[1]]);
            if starts_with(rest@, seq!['/', '/']) {
                assert(rest@.take(2)[0] == '/');
                assert(rest@.take(2)[1] == '/');
            }
        }
    }
    a || b
}

/// Characters that may not stand in a file name.
pub open spec fn is_forbidden(c: char) -> bool {
    ||| c == '<' || c == '>' || c == ':' || c == '"' || c == '|' || c == '?' || c == '*'
    ||| c <= '\u{1f}'
    ||| ('\u{7f}' <= c && c <= '\u{9f}')
}

pub fn forbidden(c: char) -> (b: bool)
    ensures
        b == is_forbidden(c),
{
    c == '<' || c == '>' || c == ':' || c == '"' || c == '|' || c == '?' || c == '*' || c <= '\u{1f}'
        || ('\u{7f}' <= c && c <= '\u{9f}')
}

} // verus!

verus! {

/// The non-empty pieces, in order.
pub open spec fn nonempty_pieces(ps: Seq<Seq<char>>) -> Seq<Seq<char>>
    decreases ps.len(),
{
    if ps.len() == 0 {
        Seq::<Seq<char>>::empty()
    } else {
        let prev = nonempty_pieces(ps.drop_last());
        if ps.last().len() > 0 {
            prev.push(ps.last())
        } else {
            prev
        }
    }
}

pub open spec fn is_word_sep(c: char) -> bool {
    c == ' ' || c == ','
}

/// The words of `s`: the non-empty pieces between spaces and commas.
pub open spec fn words(s: Seq<char>) -> Seq<Seq<char>> {
    nonempty_pieces(split_where(s, |c: char| is_word_sep(c)))
}

pub open spec fn all_ascii_digits(w: Seq<char>) -> bool {
    forall|i: int| 0 <= i < w.len() ==> '0' <= #[trigger] w[i] && w[i] <= '9'
}

pub open spec fn is_dir_word(w: Seq<char>) -> bool {
    w == "directory"@ || w == "directories"@
}

pub open spec fn is_file_word(w: Seq<char>) -> bool {
    w == "file"@ || w == "files"@
}

/// A header or footer line of `tree` output: `Folder PATH listing...`,
/// `Volume serial number is ...`, `No subfolders exist`, `Invalid path`, or
/// a count such as `3 directories, 5 files` or `1 directory`. Letters are
/// compared after ASCII lowering. Full Unicode lowering gives the same
/// answer: the only other characters whose lowercase holds an ASCII letter
/// are U+212A (to `k`, which none of these words has) and U+0130 (to `i` and
/// a combining dot, which no word here has after an `i`), and no character
/// lowers to a digit, a space or a comma.
pub open spec fn spec_is_noise(s: Seq<char>) -> bool {
    let lower = ascii_lower(s);
    let w = words(lower);
    ||| starts_with(lower, "folder path listing"@)
    ||| starts_with(lower, "volume serial number is"@)
    ||| starts_with(lower, "no subfolders exist"@)
    ||| starts_with(lower, "invalid path"@)
    ||| (w.len() == 2 && all_ascii_digits(w[0]) && is_dir_word(w[1]))
    ||| (w.len() == 4 && all_ascii_digits(w[0]) && is_dir_word(w[1]) && is_file_word(w[3]))
}

pub proof fn lemma_nonempty_pieces_push(ps: Seq<Seq<char>>, x: Seq<char>)
    ensures
        nonempty_pieces(ps.push(x)) == if x.len() > 0 {
            nonempty_pieces(ps).push(x)
        } else {
            nonempty_pieces(ps)
        },
{
    assert(ps.push(x).drop_last() =~= ps);
}

fn words_of(l: &[char]) -> (w: Vec<Vec<char>>)
    ensures
        views(w@) == words(l@),
{
    let ghost sep = |c: char| is_word_sep(c);
    let mut done: Vec<Vec<char>> = Vec::new();
    let mut cur: Vec<char> = Vec::new();
    let n = l.len();
    for i in 0..n
        invariant
            n == l@.len(),
            sep == (|c: char| is_word_sep(c)),
            split_where(l@.take(i as int), sep).len() >= 1,
            views(done@) == nonempty_pieces(split_where(l@.take(i as int), sep).drop_last()),
            cur@ == split_where(l@.take(i as int), sep).last(),
    {
        let ghost prev = split_where(l@.take(i as int), sep);
        let c = l[i];
        assert(l@.take(i + 1).drop_last() =~= l@.take(i as int));
        assert(l@.take(i + 1).last() == c);
        if c == ' ' || c == ',' {
            proof {
                lemma_nonempty_pieces_push(prev.drop_last(), prev.last());
                assert(prev.drop_last().push(prev.last()) =~= prev);
                assert(split_where(l@.take(i + 1), sep).drop_last() =~= prev);
            }
            if cur.len() > 0 {
                let ghost d0 = views(done@);
                done.push(cur);
                assert(views(done@) =~= d0.push(prev.last()));
            }
            cur = Vec::new();
        } else {
            cur.push(c);
            assert(split_where(l@.take(i + 1), sep).drop_last() =~= prev.drop_last());
        }
    }
    proof {
        let ps = split_where(l@.take(n as int), sep);
        assert(l@.take(n as int) == l@);
        lemma_nonempty_pieces_push(ps.drop_last(), ps.last());
        assert(ps.drop_last().push(ps.last()) =~= ps);
    }
    if cur.len() > 0 {
        let ghost d0 = views(done@);
        done.push(cur);
        assert(views(done@) =~= d0.push(cur@));
    }
    done
}

fn digits_only(w: &[char]) -> (b: bool)
    ensures
        b == all_ascii_digits(w@),
{
    let n = w.len();
    for i in 0..n
        invariant
            n == w@.len(),
            forall|j: int| 0 <= j < i ==> '0' <= #[trigger] w@[j] && w@[j] <= '9',
    {
        if !('0' <= w[i] && w[i] <= '9') {
            return false;
        }
    }
    true
}

fn dir_word(w: &[char]) -> (b: bool)
    ensures
        b == is_dir_word(w@),
{
    let a = chars_of("directory");
    let b = chars_of("directories");
    same_chars(w, &a) || same_chars(w, &b)
}

fn file_word(w: &[char]) -> (b: bool)
    ensures
        b == is_file_word(w@),
{
    let a = chars_of("file");
    let b = chars_of("files");
    same_chars(w, &a) || same_chars(w, &b)
}

pub fn noise(s: &[char]) -> (b: bool)
    ensures
        b == spec_is_noise(s@),
{
    let lower = lowered(s);
    let p1 = chars_of("folder path listing");
    let p2 = chars_of("volume serial number is");
    let p3 = chars_of("no subfolders exist");
    let p4 = chars_of("invalid path");
    if has_prefix(&lower, &p1) || has_prefix(&lower, &p2) || has_prefix(&lower, &p3) || has_prefix(
        &lower,
        &p4,
    ) {
        return true;
    }
    let w = words_of(&lower);
    proof {
        assert forall|i: int| 0 <= i < w@.len() implies #[trigger] w@[i]@ == views(w@)[i] by {}
    }
    if w.len() == 2 {
        digits_only(&w[0]) && dir_word(&w[1])
    } else if w.len() == 4 {
        digits_only(&w[0]) && dir_word(&w[1]) && file_word(&w[3])
    } else {
        false
    }
}

/// Whether a trimmed line is a header or footer line of `tree` output.
pub fn is_noise(trimmed: &str) -> (b: bool)
    ensures
        b == spec_is_noise(trimmed@),
{
    let v = chars_of(trimmed);
    noise(&v)
}

/// `k` spaces.
pub open spec fn spaces(k: nat) -> Seq<char> {
    Seq::new(k, |i: int| ' ')
}

/// `t` is `s` behind `k` more characters.
pub open spec fn shifted(t: Seq<char>, s: Seq<char>, k: int) -> bool {
    &&& 0 <= k
    &&& t.len() == k + s.len()
    &&& forall|j: int| 0 <= j < s.len() ==> #[trigger] t[k + j] == s[j]
}

proof fn lemma_skip_tail_shift(t: Seq<char>, s: Seq<char>, k: int, i: int)
    requires
        shifted(t, s, k),
        0 <= i <= s.len(),
    ensures
        skip_tail(t, k + i) == k + skip_tail(s, i),
    decreases s.len() - i,
{
    if i < s.len() {
        assert(t[k + i] == s[i]);
        if is_branch_tail(s[i]) {
            lemma_skip_tail_shift(t, s, k, i + 1);
        }
    }
}

proof fn lemma_skip_dashes_shift(t: Seq<char>, s: Seq<char>, k: int, i: int)
    requires
        shifted(t, s, k),
        0 <= i <= s.len(),
    ensures
        skip_dashes(t, k + i) == k + skip_dashes(s, i),
    decreases s.len() - i,
{
    if i < s.len() {
        assert(t[k + i] == s[i]);
        if s[i] == '-' {
            lemma_skip_dashes_shift(t, s, k, i + 1);
        }
    }
}

proof fn lemma_glyph_end_shift(t: Seq<char>, s: Seq<char>, k: int, i: int)
    requires
        shifted(t, s, k),
        0 <= i <= s.len(),
    ensures
        glyph_end(t, k + i) == k + glyph_end(s, i),
    decreases s.len() - i,
{
    if i < s.len() {
        assert(t[k + i] == s[i]);
        if i + 1 < s.len() {
            assert(t[k + (i + 1)] == s[i + 1]);
        }
        if is_vertical(s[i]) {
            lemma_glyph_end_shift(t, s, k, i + 1);
        } else if is_branch(s[i]) {
            lemma_skip_tail_range(s, i + 1);
            lemma_skip_tail_shift(t, s, k, i + 1);
            lemma_glyph_end_shift(t, s, k, skip_tail(s, i + 1));
        } else if is_ascii_connector(s[i]) && i + 1 < s.len() && s[i + 1] == '-' {
            lemma_skip_dashes_range(s, i + 1);
            lemma_skip_dashes_shift(t, s, k, i + 1);
            let j = skip_dashes(s, i + 1);
            if j < s.len() {
                assert(t[k + j] == s[j]);
            }
            lemma_glyph_end_shift(t, s, k, if j < s.len() && s[j] == ' ' { j + 1 } else { j });
        } else if s[i] == '|' && i + 1 < s.len() && s[i + 1] == ' ' {
            lemma_glyph_end_shift(t, s, k, i + 1);
        }
    }
}

proof fn lemma_glyph_end_spaces(t: Seq<char>, k: int, i: int)
    requires
        0 <= i <= k <= t.len(),
        forall|j: int| 0 <= j < k ==> #[trigger] t[j] == ' ',
    ensures
        glyph_end(t, i) == glyph_end(t, k),
    decreases k - i,
{
    if i < k {
        assert(t[i] == ' ');
        lemma_glyph_end_spaces(t, k, i + 1);
    }
}

/// Extra indentation only moves where a name starts: `k` more spaces in
/// front of a line put its name `k` characters further on, whatever glyphs
/// or bullet follow; and a name never starts past the end of its line.
pub proof fn indentation_only_shifts_the_name(s: Seq<char>, k: nat)
    ensures
        spec_prefix_len(spaces(k) + s) == k + spec_prefix_len(s),
        0 <= spec_prefix_len(s) <= s.len(),
{
    let t = spaces(k) + s;
    assert(shifted(t, s, k as int)) by {
        assert forall|j: int| 0 <= j < s.len() implies #[trigger] t[k + j] == s[j] by {}
    }
    assert forall|j: int| 0 <= j < k implies #[trigger] t[j] == ' ' by {}
    lemma_glyph_end_spaces(t, k as int, 0);
    lemma_glyph_end_shift(t, s, k as int, 0);
    lemma_glyph_end_range(s, 0);
    let g = glyph_end(s, 0);
    if 0 <= g && g + 2 < s.len() {
        assert(t[k + g] == s[g]);
        assert(t[k + (g + 1)] == s[g + 1]);
        assert(t[k + (g + 2)] == s[g + 2]);
    }
}

/// A markdown bullet is skipped whichever of `-`, `*` or `+` it is written
/// with: when a line is some indentation, then the bullet and a space, then
/// a character that is not whitespace, its name starts after the bullet and
/// the space.
pub proof fn markdown_bullets_are_skipped(k: nat, bullet: char, rest: Seq<char>)
    requires
        bullet == '-' || bullet == '*' || bullet == '+',
        rest.len() > 0,
        !spec_is_whitespace(rest[0]),
    ensures
        spec_prefix_len(spaces(k) + seq![bullet, ' '] + rest) == k + 2,
{
    let s = seq![bullet, ' '] + rest;
    assert(s[0] == bullet && s[1] == ' ' && s[2] == rest[0]);
    assert(glyph_end(s, 0) == 0);
    indentation_only_shifts_the_name(s, k);
    assert(spaces(k) + seq![bullet, ' '] + rest =~= spaces(k) + s);
}

} // verus!
