//! Character-level helpers shared by the parser and the renderer.

use vstd::prelude::*;

verus! {

/// Whether `c` has the Unicode `White_Space` property, which is what
/// `char::is_whitespace` tests.
pub open spec fn spec_is_whitespace(c: char) -> bool {
    ||| c == ' '
    ||| ('\u{9}' <= c && c <= '\u{d}')
    ||| c == '\u{85}'
    ||| c == '\u{a0}'
    ||| c == '\u{1680}'
    ||| ('\u{2000}' <= c && c <= '\u{200a}')
    ||| c == '\u{2028}'
    ||| c == '\u{2029}'
    ||| c == '\u{202f}'
    ||| c == '\u{205f}'
    ||| c == '\u{3000}'
}

#[verifier::when_used_as_spec(spec_is_whitespace)]
pub fn is_whitespace(c: char) -> (b: bool)
    ensures
        b == spec_is_whitespace(c),
{
    c == ' ' || ('\u{9}' <= c && c <= '\u{d}') || c == '\u{85}' || c == '\u{a0}' || c == '\u{1680}'
        || ('\u{2000}' <= c && c <= '\u{200a}') || c == '\u{2028}' || c == '\u{2029}' || c
        == '\u{202f}' || c == '\u{205f}' || c == '\u{3000}'
}

/// The characters of `s`, in order.
pub fn chars_of(s: &str) -> (v: Vec<char>)
    ensures
        v@ == s@,
{
    let mut v: Vec<char> = Vec::new();
    for c in it: s.chars()
        invariant
            v@ == it.seq().take(it.index() as int),
            it.seq() == s@,
    {
        v.push(c);
    }
    v
}

/// Appends one character to a string (`String::push`).
#[verifier::external_body]
fn push_char(s: &mut String, c: char)
    ensures
        final(s)@ == old(s)@.push(c),
{
    s.push(c);
}

/// A string holding exactly the characters of `v`.
pub fn string_of(v: &[char]) -> (s: String)
    ensures
        s@ == v@,
{
    let mut s = String::new();
    let n = v.len();
    for i in 0..n
        invariant
            n == v@.len(),
            s@ == v@.take(i as int),
    {
        push_char(&mut s, v[i]);
        assert(v@.take(i + 1) == v@.take(i as int).push(v@[i as int]));
    }
    assert(v@.take(n as int) == v@);
    s
}

} // verus!

verus! {

/// `s` with trailing whitespace removed.
pub open spec fn trim_end(s: Seq<char>) -> Seq<char>
    decreases s.len(),
{
    if s.len() > 0 && spec_is_whitespace(s.last()) {
        trim_end(s.drop_last())
    } else {
        s
    }
}

/// `s` with leading whitespace removed.
pub open spec fn trim_start(s: Seq<char>) -> Seq<char>
    decreases s.len(),
{
    if s.len() > 0 && spec_is_whitespace(s[0]) {
        trim_start(s.drop_first())
    } else {
        s
    }
}

/// `s` with whitespace removed at both ends.
pub open spec fn trim(s: Seq<char>) -> Seq<char> {
    trim_start(trim_end(s))
}

pub open spec fn starts_with(s: Seq<char>, p: Seq<char>) -> bool {
    p.len() <= s.len() && s.take(p.len() as int) == p
}

pub open spec fn ends_with(s: Seq<char>, p: Seq<char>) -> bool {
    p.len() <= s.len() && s.skip(s.len() - p.len()) == p
}

/// The pieces of `s` between the characters for which `sep` holds; there is
/// always one piece more than there are separators.
pub open spec fn split_where(s: Seq<char>, sep: spec_fn(char) -> bool) -> Seq<Seq<char>>
    decreases s.len(),
{
    if s.len() == 0 {
        seq![Seq::<char>::empty()]
    } else {
        let prev = split_where(s.drop_last(), sep);
        if sep(s.last()) {
            prev.push(Seq::<char>::empty())
        } else {
            prev.update(prev.len() - 1, prev.last().push(s.last()))
        }
    }
}

pub proof fn lemma_split_where_nonempty(s: Seq<char>, sep: spec_fn(char) -> bool)
    ensures
        split_where(s, sep).len() >= 1,
    decreases s.len(),
{
    if s.len() > 0 {
        lemma_split_where_nonempty(s.drop_last(), sep);
    }
}

/// The character sequences held in a vector of character vectors.
pub open spec fn views(v: Seq<Vec<char>>) -> Seq<Seq<char>> {
    Seq::new(v.len(), |i: int| v[i]@)
}

/// The components of a `/`-separated path.
pub open spec fn path_parts(path: Seq<char>) -> Seq<Seq<char>> {
    split_where(path, |c: char| c == '/')
}

/// The pieces joined with `/` between them.
pub open spec fn join_slash(segs: Seq<Seq<char>>) -> Seq<char>
    decreases segs.len(),
{
    if segs.len() == 0 {
        Seq::<char>::empty()
    } else if segs.len() == 1 {
        segs[0]
    } else {
        join_slash(segs.drop_last()) + seq!['/'] + segs.last()
    }
}

/// A copy of `v[lo..hi]`.
pub fn slice_chars(v: &[char], lo: usize, hi: usize) -> (r: Vec<char>)
    requires
        lo <= hi <= v@.len(),
    ensures
        r@ == v@.subrange(lo as int, hi as int),
{
    let mut r: Vec<char> = Vec::new();
    let mut i = lo;
    while i < hi
        invariant
            lo <= i <= hi <= v@.len(),
            r@ == v@.subrange(lo as int, i as int),
        decreases hi - i,
    {
        r.push(v[i]);
        assert(v@.subrange(lo as int, i + 1) == v@.subrange(lo as int, i as int).push(v@[i as int]));
        i = i + 1;
    }
    r
}

/// Appends all of `w` to `v`.
pub fn extend_chars(v: &mut Vec<char>, w: &[char])
    ensures
        final(v)@ == old(v)@ + w@,
{
    let n = w.len();
    for i in 0..n
        invariant
            n == w@.len(),
            v@ == old(v)@ + w@.take(i as int),
    {
        v.push(w[i]);
        assert(w@.take(i + 1) == w@.take(i as int).push(w@[i as int]));
    }
    assert(w@.take(n as int) == w@);
}

/// Whether `v`, from index `at` on, begins with `p`.
pub fn has_prefix_at(v: &[char], at: usize, p: &[char]) -> (b: bool)
    requires
        at <= v@.len(),
    ensures
        b == starts_with(v@.skip(at as int), p@),
{
    if p.len() > v.len() - at {
        return false;
    }
    let n = p.len();
    for i in 0..n
        invariant
            n == p@.len(),
            at + n <= v@.len(),
            v@.len() == v.len(),
            forall|j: int| 0 <= j < i ==> v@[at + j] == p@[j],
    {
        if v[at + i] != p[i] {
            assert(v@.skip(at as int).take(n as int)[i as int] != p@[i as int]);
            return false;
        }
    }
    assert(v@.skip(at as int).take(n as int) =~= p@);
    true
}

/// Whether `v` begins with `p`.
pub fn has_prefix(v: &[char], p: &[char]) -> (b: bool)
    ensures
        b == starts_with(v@, p@),
{
    assert(v@.skip(0) == v@);
    has_prefix_at(v, 0, p)
}

/// Whether `v` ends with `p`.
pub fn has_suffix(v: &[char], p: &[char]) -> (b: bool)
    ensures
        b == ends_with(v@, p@),
{
    if p.len() > v.len() {
        return false;
    }
    let n = p.len();
    let off = v.len() - n;
    for i in 0..n
        invariant
            n == p@.len() <= v@.len(),
            off + n == v@.len(),
            v@.len() == v.len(),
            forall|j: int| 0 <= j < i ==> v@[off + j] == p@[j],
    {
        if v[off + i] != p[i] {
            assert(v@.skip(off as int)[i as int] != p@[i as int]);
            return false;
        }
    }
    assert(v@.skip(off as int) =~= p@);
    true
}

/// `v` without trailing whitespace.
pub fn trimmed_end(v: &[char]) -> (r: Vec<char>)
    ensures
        r@ == trim_end(v@),
{
    let mut j = v.len();
    assert(v@.take(v@.len() as int) == v@);
    while j > 0 && is_whitespace(v[j - 1])
        invariant
            j <= v@.len(),
            trim_end(v@.take(j as int)) == trim_end(v@),
        decreases j,
    {
        assert(v@.take(j as int).drop_last() == v@.take(j - 1));
        j = j - 1;
    }
    assert(v@.take(v@.len() as int) == v@);
    slice_chars(v, 0, j)
}

/// `v` without leading whitespace.
pub fn trimmed_start(v: &[char]) -> (r: Vec<char>)
    ensures
        r@ == trim_start(v@),
{
    let mut i: usize = 0;
    assert(v@.skip(0) == v@);
    while i < v.len() && is_whitespace(v[i])
        invariant
            i <= v@.len(),
            trim_start(v@.skip(i as int)) == trim_start(v@),
        decreases v@.len() - i,
    {
        assert(v@.skip(i as int).drop_first() == v@.skip(i + 1));
        i = i + 1;
    }
    assert(v@.skip(0) == v@);
    assert(v@.skip(i as int) == v@.subrange(i as int, v@.len() as int));
    slice_chars(v, i, v.len())
}

/// `v` without whitespace at either end.
pub fn trimmed(v: &[char]) -> (r: Vec<char>)
    ensures
        r@ == trim(v@),
{
    let e = trimmed_end(v);
    trimmed_start(&e)
}

/// The segments joined with `/`.
pub fn join_with_slash(segs: &Vec<Vec<char>>) -> (r: Vec<char>)
    ensures
        r@ == join_slash(views(segs@)),
{
    let mut r: Vec<char> = Vec::new();
    let n = segs.len();
    for i in 0..n
        invariant
            n == segs@.len(),
            r@ == join_slash(views(segs@).take(i as int)),
    {
        let ghost prev = views(segs@).take(i as int);
        assert(views(segs@).take(i + 1).drop_last() == prev);
        if i > 0 {
            r.push('/');
        }
        extend_chars(&mut r, segs[i].as_slice());
        assert(views(segs@).take(i + 1).last() == segs[i as int]@);
    }
    assert(views(segs@).take(n as int) == views(segs@));
    r
}

/// Whether `a` and `b` hold the same characters.
pub fn eq_chars(a: &[char], b: &[char]) -> (r: bool)
    ensures
        r == (a@ == b@),
{
    if a.len() != b.len() {
        return false;
    }
    let r = has_prefix(a, b);
    assert(a@.take(b@.len() as int) =~= a@);
    r
}

} // verus!

verus! {

/// Every character of `s` satisfies `p`.
pub open spec fn all_chars(s: Seq<char>, p: spec_fn(char) -> bool) -> bool {
    forall|i: int| 0 <= i < s.len() ==> p(#[trigger] s[i])
}

/// No character of `s` satisfies `sep`.
pub open spec fn no_char(s: Seq<char>, sep: spec_fn(char) -> bool) -> bool {
    forall|i: int| 0 <= i < s.len() ==> !sep(#[trigger] s[i])
}

pub proof fn lemma_trim_end_chars(s: Seq<char>, p: spec_fn(char) -> bool)
    requires
        all_chars(s, p),
    ensures
        all_chars(trim_end(s), p),
        trim_end(s).len() <= s.len(),
    decreases s.len(),
{
    if s.len() > 0 && spec_is_whitespace(s.last()) {
        assert(all_chars(s.drop_last(), p)) by {
            assert forall|i: int| 0 <= i < s.drop_last().len() implies p(#[trigger] s.drop_last()[i]) by {
                assert(s.drop_last()[i] == s[i]);
            }
        }
        lemma_trim_end_chars(s.drop_last(), p);
    }
}

pub proof fn lemma_trim_start_chars(s: Seq<char>, p: spec_fn(char) -> bool)
    requires
        all_chars(s, p),
    ensures
        all_chars(trim_start(s), p),
        trim_start(s).len() <= s.len(),
    decreases s.len(),
{
    if s.len() > 0 && spec_is_whitespace(s[0]) {
        assert(all_chars(s.drop_first(), p)) by {
            assert forall|i: int| 0 <= i < s.drop_first().len() implies p(#[trigger] s.drop_first()[i]) by {
                assert(s.drop_first()[i] == s[i + 1]);
            }
        }
        lemma_trim_start_chars(s.drop_first(), p);
    }
}

pub proof fn lemma_trim_chars(s: Seq<char>, p: spec_fn(char) -> bool)
    requires
        all_chars(s, p),
    ensures
        all_chars(trim(s), p),
{
    lemma_trim_end_chars(s, p);
    lemma_trim_start_chars(trim_end(s), p);
}

/// No piece of `split_where(s, sep)` holds a separator.
pub proof fn lemma_split_pieces(s: Seq<char>, sep: spec_fn(char) -> bool)
    ensures
        split_where(s, sep).len() >= 1,
        forall|k: int|
            0 <= k < split_where(s, sep).len() ==> no_char(#[trigger] split_where(s, sep)[k], sep),
    decreases s.len(),
{
    if s.len() > 0 {
        let prev = split_where(s.drop_last(), sep);
        lemma_split_pieces(s.drop_last(), sep);
        let cur = split_where(s, sep);
        if sep(s.last()) {
            assert forall|k: int| 0 <= k < cur.len() implies no_char(#[trigger] cur[k], sep) by {
                if k < prev.len() {
                    assert(cur[k] == prev[k]);
                } else {
                    assert(cur[k] =~= Seq::<char>::empty());
                }
            }
        } else {
            assert forall|k: int| 0 <= k < cur.len() implies no_char(#[trigger] cur[k], sep) by {
                if k < prev.len() - 1 {
                    assert(cur[k] == prev[k]);
                } else {
                    let l = prev.last().push(s.last());
                    assert(cur[k] == l);
                    assert(no_char(prev[prev.len() - 1], sep));
                    assert forall|i: int| 0 <= i < l.len() implies !sep(#[trigger] l[i]) by {
                        if i < l.len() - 1 {
                            assert(l[i] == prev[prev.len() - 1][i]);
                        }
                    }
                }
            }
        }
    }
}

/// Splitting, at characters for which `sep` holds, text with no such
/// character appended to `a` extends the last piece of `a`'s split.
pub proof fn lemma_split_append_plain(a: Seq<char>, b: Seq<char>, sep: spec_fn(char) -> bool)
    requires
        no_char(b, sep),
    ensures
        split_where(a + b, sep) == split_where(a, sep).update(
            split_where(a, sep).len() - 1,
            split_where(a, sep).last() + b,
        ),
    decreases b.len(),
{
    lemma_split_where_nonempty(a, sep);
    if b.len() == 0 {
        assert(a + b =~= a);
        assert(split_where(a, sep).last() + b =~= split_where(a, sep).last());
        assert(split_where(a, sep).update(split_where(a, sep).len() - 1, split_where(a, sep).last())
            =~= split_where(a, sep));
    } else {
        let b0 = b.drop_last();
        assert(no_char(b0, sep)) by {
            assert forall|i: int| 0 <= i < b0.len() implies !sep(#[trigger] b0[i]) by {
                assert(b0[i] == b[i]);
            }
        }
        lemma_split_append_plain(a, b0, sep);
        assert((a + b).drop_last() =~= a + b0);
        assert((a + b).last() == b.last());
        assert(!sep(b.last())) by {
            assert(!sep(b[b.len() - 1]));
        }
        let sa = split_where(a, sep);
        assert(split_where(a + b, sep) =~= sa.update(sa.len() - 1, sa.last() + b0).update(
            sa.len() - 1,
            (sa.last() + b0).push(b.last()),
        ));
        assert((sa.last() + b0).push(b.last()) =~= sa.last() + b);
        assert(sa.update(sa.len() - 1, sa.last() + b0).update(sa.len() - 1, sa.last() + b) =~= sa.update(
            sa.len() - 1,
            sa.last() + b,
        ));
    }
}

/// Splitting joined segments at `/` gives the segments back, when none of
/// them holds a `/`.
pub proof fn lemma_split_join(segs: Seq<Seq<char>>)
    requires
        segs.len() >= 1,
        forall|k: int| 0 <= k < segs.len() ==> no_char(#[trigger] segs[k], |c: char| c == '/'),
    ensures
        split_where(join_slash(segs), |c: char| c == '/') == segs,
    decreases segs.len(),
{
    let sep = |c: char| c == '/';
    let last = segs.last();
    assert(no_char(last, sep)) by {
        assert(no_char(segs[segs.len() - 1], sep));
    }
    if segs.len() == 1 {
        lemma_split_append_plain(Seq::<char>::empty(), last, sep);
        assert(Seq::<char>::empty() + last =~= last);
        assert(Seq::<char>::empty() + last =~= segs[0]);
        assert(split_where(Seq::<char>::empty(), sep).update(0, Seq::<char>::empty() + last) =~= segs);
    } else {
        let d = segs.drop_last();
        assert forall|k: int| 0 <= k < d.len() implies no_char(#[trigger] d[k], |c: char| c == '/') by {
            assert(d[k] == segs[k]);
        }
        lemma_split_join(d);
        let a = join_slash(d) + seq!['/'];
        assert(a.drop_last() =~= join_slash(d));
        assert(a.last() == '/');
        assert(split_where(a, sep) == split_where(join_slash(d), sep).push(Seq::<char>::empty()));
        lemma_split_append_plain(a, last, sep);
        assert(join_slash(segs) == a + last);
        assert(Seq::<char>::empty() + last =~= last);
        assert(d.push(Seq::<char>::empty()).update(d.len() as int, Seq::<char>::empty() + last) =~= segs);
    }
}

} // verus!
