//! Nested listing to tree text.

use vstd::prelude::*;

use crate::text::{chars_of, extend_chars, string_of};

verus! {

/// How a tree is drawn.
#[derive(Debug, Clone, Copy, PartialEq, Eq, Structural)]
pub enum Style {
    /// `├──` box-drawing characters, like `tree`
    Unicode,
    /// `|--` plain ASCII
    Ascii,
    /// two-space indentation only
    Indent,
}

/// A file, or a folder with what it holds.
#[derive(Debug)]
pub struct Listing {
    pub name: String,
    /// `Some` means folder.
    pub children: Option<Vec<Listing>>,
}

/// What a [`Listing`] holds, with its name as characters.
pub struct ListingModel {
    pub name: Seq<char>,
    pub children: Option<Seq<ListingModel>>,
}

pub open spec fn model(l: Listing) -> ListingModel
    decreases l,
{
    ListingModel {
        name: l.name@,
        children: match l.children {
            Some(v) => Some(models(v@)),
            None => None,
        },
    }
}

pub open spec fn models(s: Seq<Listing>) -> Seq<ListingModel>
    decreases s,
{
    if s.len() == 0 {
        Seq::empty()
    } else {
        models(s.drop_last()).push(model(s.last()))
    }
}

impl View for Listing {
    type V = ListingModel;

    open spec fn view(&self) -> ListingModel {
        model(*self)
    }
}

pub proof fn lemma_models(s: Seq<Listing>)
    ensures
        models(s).len() == s.len(),
        forall|i: int| 0 <= i < s.len() ==> #[trigger] models(s)[i] == model(s[i]),
    decreases s.len(),
{
    if s.len() > 0 {
        lemma_models(s.drop_last());
        assert forall|i: int| 0 <= i < s.len() implies #[trigger] models(s)[i] == model(s[i]) by {
            if i < s.len() - 1 {
                assert(models(s.drop_last())[i] == model(s.drop_last()[i]));
            }
        }
    }
}

pub open spec fn is_folder_model(m: ListingModel) -> bool {
    m.children is Some
}

/// (folders, files) among the first entries of `cs`, each folder counted
/// with everything below it.
pub open spec fn counts_seq(cs: Seq<ListingModel>) -> (nat, nat)
    decreases cs,
{
    if cs.len() == 0 {
        (0, 0)
    } else {
        let (d, f) = counts_seq(cs.drop_last());
        let c = cs.last();
        if is_folder_model(c) {
            let (cd, cf) = counts_below(c);
            (d + 1 + cd, f + cf)
        } else {
            (d, f + 1)
        }
    }
}

/// (folders, files) below a listing.
pub open spec fn counts_below(m: ListingModel) -> (nat, nat)
    decreases m,
{
    match m.children {
        Some(cs) => counts_seq(cs),
        None => (0, 0),
    }
}

pub proof fn lemma_counts_seq_prefix(cs: Seq<ListingModel>, i: int)
    requires
        0 <= i <= cs.len(),
    ensures
        counts_seq(cs.take(i)).0 <= counts_seq(cs).0,
        counts_seq(cs.take(i)).1 <= counts_seq(cs).1,
    decreases cs.len(),
{
    if i < cs.len() {
        assert(cs.drop_last().take(i) =~= cs.take(i));
        lemma_counts_seq_prefix(cs.drop_last(), i);
    } else {
        assert(cs.take(i) =~= cs);
    }
}

impl Listing {
    pub fn file(name: &str) -> (l: Self)
        ensures
            l@.name == name@,
            l@.children is None,
    {
        Listing { name: String::from_str(name), children: None }
    }

    pub fn folder(name: &str, children: Vec<Listing>) -> (l: Self)
        ensures
            l@.name == name@,
            l@.children == Some(models(children@)),
    {
        Listing { name: String::from_str(name), children: Some(children) }
    }

    pub fn is_folder(&self) -> (b: bool)
        ensures
            b == is_folder_model(self@),
    {
        self.children.is_some()
    }

    /// (folders, files) below this node; the node itself is not counted.
    pub fn counts(&self) -> (r: (usize, usize))
        ensures
            r.0 == counts_below(self@).0,
            r.1 == counts_below(self@).1,
    {
        // one line per entry, and a vector's length fits in `usize`
        let ls = lines(self, Style::Indent);
        let n = ls.len();
        proof {
            one_line_per_node(self@, Style::Indent);
            assert(line_views(ls@).len() == ls@.len());
            assert(spec_lines(self@, Style::Indent).len() == n);
        }
        self.counts_within()
    }

    fn counts_within(&self) -> (r: (usize, usize))
        requires
            counts_below(self@).0 + counts_below(self@).1 <= usize::MAX,
        ensures
            r.0 == counts_below(self@).0,
            r.1 == counts_below(self@).1,
        decreases self,
    {
        match &self.children {
            None => (0, 0),
            Some(children) => {
                let ghost cs = models(children@);
                proof {
                    lemma_models(children@);
                }
                let mut d: usize = 0;
                let mut f: usize = 0;
                let n = children.len();
                for i in 0..n
                    invariant
                        n == children@.len(),
                        self.children == Some(*children),
                        cs == models(children@),
                        cs.len() == n,
                        forall|j: int| 0 <= j < n ==> #[trigger] cs[j] == model(children@[j]),
                        counts_seq(cs).0 + counts_seq(cs).1 <= usize::MAX,
                        d == counts_seq(cs.take(i as int)).0,
                        f == counts_seq(cs.take(i as int)).1,
                {
                    proof {
                        lemma_counts_seq_prefix(cs, i + 1);
                        assert(cs.take(i + 1).drop_last() =~= cs.take(i as int));
                    }
                    let c = &children[i];
                    assert(cs.take(i + 1).last() == c@);
                    if c.is_folder() {
                        proof {
                            let ch = self.children->0;
                            assert(ch == *children);
                            assert(decreases_to!(self.children => ch));
                            assert(decreases_to!(ch => ch@));
                            assert(decreases_to!(ch@ => ch@[i as int]));
                            assert(decreases_to!(*self => children@[i as int]));
                        }
                        let (cd, cf) = c.counts_within();
                        d = d + 1 + cd;
                        f = f + cf;
                    } else {
                        f = f + 1;
                    }
                }
                assert(cs.take(n as int) =~= cs);
                (d, f)
            },
        }
    }
}

} // verus!

verus! {

/// What `str::to_lowercase` returns for a string: its full Unicode lowercase
/// mapping, which depends on the string alone.
pub uninterp spec fn lowercase(s: Seq<char>) -> Seq<char>;

/// The Unicode lowercase form of `s` (`str::to_lowercase`).
#[verifier::external_body]
pub(crate) fn lowercased(s: &str) -> (r: String)
    ensures
        r@ == lowercase(s@),
{
    s.to_lowercase()
}

/// `a` comes strictly before `b` in lexicographic order of code points,
/// which is the order of `String`'s comparison.
pub open spec fn lex_lt(a: Seq<char>, b: Seq<char>) -> bool
    decreases a.len(),
{
    if a.len() == 0 {
        b.len() > 0
    } else if b.len() == 0 {
        false
    } else if a[0] != b[0] {
        a[0] < b[0]
    } else {
        lex_lt(a.drop_first(), b.drop_first())
    }
}

fn chars_lt(a: &[char], b: &[char]) -> (r: bool)
    ensures
        r == lex_lt(a@, b@),
{
    let mut i: usize = 0;
    assert(a@.skip(0) =~= a@);
    assert(b@.skip(0) =~= b@);
    while i < a.len() && i < b.len() && a[i] == b[i]
        invariant
            i <= a@.len(),
            i <= b@.len(),
            lex_lt(a@.skip(i as int), b@.skip(i as int)) == lex_lt(a@, b@),
        decreases a@.len() - i,
    {
        assert(a@.skip(i as int).drop_first() =~= a@.skip(i + 1));
        assert(b@.skip(i as int).drop_first() =~= b@.skip(i + 1));
        i = i + 1;
    }
    if i == a.len() {
        i < b.len()
    } else if i == b.len() {
        false
    } else {
        a[i] < b[i]
    }
}

/// `a` sorts strictly after `b`: folders come before files, then names in
/// the order of their lowercase forms.
pub open spec fn sorts_after(a: ListingModel, b: ListingModel) -> bool {
    ||| (!is_folder_model(a) && is_folder_model(b))
    ||| (is_folder_model(a) == is_folder_model(b) && lex_lt(lowercase(b.name), lowercase(a.name)))
}

/// `t` with `x` inserted after every element that does not sort after it.
pub open spec fn insert_sorted(t: Seq<ListingModel>, x: ListingModel) -> Seq<ListingModel>
    decreases t.len(),
{
    if t.len() == 0 {
        seq![x]
    } else if sorts_after(t.last(), x) {
        insert_sorted(t.drop_last(), x).push(t.last())
    } else {
        t.push(x)
    }
}

/// Stable sort of `s` by the order of `sorts_after`.
pub open spec fn sort_stable(s: Seq<ListingModel>) -> Seq<ListingModel>
    decreases s.len(),
{
    if s.len() == 0 {
        Seq::empty()
    } else {
        insert_sorted(sort_stable(s.drop_last()), s.last())
    }
}

/// The listing with every folder's entries sorted, at every level.
pub open spec fn sorted_model(m: ListingModel) -> ListingModel
    decreases m,
{
    ListingModel {
        name: m.name,
        children: match m.children {
            Some(cs) => Some(sort_stable(sort_each(cs))),
            None => None,
        },
    }
}

pub open spec fn sort_each(cs: Seq<ListingModel>) -> Seq<ListingModel>
    decreases cs,
{
    if cs.len() == 0 {
        Seq::empty()
    } else {
        sort_each(cs.drop_last()).push(sorted_model(cs.last()))
    }
}

/// Where `insert_sorted` puts `x`, searching down from index `j`.
pub open spec fn insert_pos(t: Seq<ListingModel>, x: ListingModel, j: int) -> int
    decreases j,
{
    if j <= 0 {
        0
    } else if sorts_after(t[j - 1], x) {
        insert_pos(t, x, j - 1)
    } else {
        j
    }
}

pub proof fn lemma_insert_sorted_at(t: Seq<ListingModel>, x: ListingModel)
    ensures
        0 <= insert_pos(t, x, t.len() as int) <= t.len(),
        insert_sorted(t, x) == t.take(insert_pos(t, x, t.len() as int)).push(x) + t.skip(
            insert_pos(t, x, t.len() as int),
        ),
    decreases t.len(),
{
    if t.len() > 0 {
        let d = t.drop_last();
        lemma_insert_sorted_at(d, x);
        lemma_insert_pos_prefix(t, x, d.len() as int);
        if sorts_after(t.last(), x) {
            let p = insert_pos(d, x, d.len() as int);
            assert(insert_pos(t, x, t.len() as int) == p);
            assert(d.take(p) =~= t.take(p));
            assert((d.take(p).push(x) + d.skip(p)).push(t.last()) =~= t.take(p).push(x) + t.skip(
                p,
            ));
        } else {
            assert(t.take(t.len() as int) =~= t);
            assert(t.skip(t.len() as int) =~= Seq::<ListingModel>::empty());
            assert(t.push(x) =~= t.take(t.len() as int).push(x) + t.skip(t.len() as int));
        }
    } else {
        assert(seq![x] =~= t.take(0).push(x) + t.skip(0));
    }
}

pub proof fn lemma_insert_pos_prefix(t: Seq<ListingModel>, x: ListingModel, j: int)
    requires
        0 <= j <= t.len(),
    ensures
        insert_pos(t, x, j) == insert_pos(t.take(t.len() as int).take(j), x, j),
        t.len() > 0 && j == t.len() - 1 ==> insert_pos(t, x, j) == insert_pos(t.drop_last(), x, j),
        0 <= insert_pos(t, x, j) <= j,
    decreases j,
{
    if j > 0 {
        lemma_insert_pos_prefix(t, x, j - 1);
        if t.len() > 0 && j == t.len() - 1 {
            lemma_insert_pos_same(t, t.drop_last(), x, j);
        }
    }
    lemma_insert_pos_same(t, t.take(t.len() as int).take(j), x, j);
}

pub proof fn lemma_insert_pos_same(t: Seq<ListingModel>, u: Seq<ListingModel>, x: ListingModel, j: int)
    requires
        0 <= j <= t.len(),
        j <= u.len(),
        forall|k: int| 0 <= k < j ==> t[k] == u[k],
    ensures
        insert_pos(t, x, j) == insert_pos(u, x, j),
        0 <= insert_pos(t, x, j) <= j,
    decreases j,
{
    if j > 0 {
        lemma_insert_pos_same(t, u, x, j - 1);
    }
}

} // verus!

verus! {

fn key_of(l: &Listing) -> (k: Vec<char>)
    ensures
        k@ == lowercase(l@.name),
{
    let s = lowercased(l.name.as_str());
    chars_of(s.as_str())
}

/// Whether an entry (folder or not, lowercase name `a_key`) sorts after
/// another.
fn after(a_folder: bool, a_key: &[char], b_folder: bool, b_key: &[char]) -> (r: bool)
    ensures
        r == ((!a_folder && b_folder) || (a_folder == b_folder && lex_lt(b_key@, a_key@))),
{
    (!a_folder && b_folder) || (a_folder == b_folder && chars_lt(b_key, a_key))
}

proof fn lemma_models_insert(s: Seq<Listing>, j: int, y: Listing)
    requires
        0 <= j <= s.len(),
    ensures
        models(s.insert(j, y)) == models(s).take(j).push(model(y)) + models(s).skip(j),
{
    lemma_models(s);
    lemma_models(s.insert(j, y));
    assert(models(s.insert(j, y)) =~= models(s).take(j).push(model(y)) + models(s).skip(j));
}

impl Listing {
    /// Folders first, then case-insensitive by name, recursively. The sort is
    /// stable: entries that compare equal keep their order.
    pub fn sort(&mut self)
        ensures
            final(self)@ == sorted_model(old(self)@),
        decreases *old(self),
    {
        let taken = self.children.take();
        match taken {
            None => {},
            Some(v) => {
                let mut v = v;
                let ghost v0 = v@;
                proof {
                    lemma_models(v0);
                }
                let mut out: Vec<Listing> = Vec::new();
                let mut keys: Vec<Vec<char>> = Vec::new();
                let n = v.len();
                assert(v0.skip(0) =~= v0);
                assert(sort_each(models(v0).take(0)) =~= Seq::<ListingModel>::empty());
                for i in 0..n
                    invariant
                        n == v0.len(),
                        old(self).children is Some,
                        old(self).children->0@ == v0,
                        v@ == v0.skip(i as int),
                        models(v0).len() == v0.len(),
                        forall|k: int| 0 <= k < v0.len() ==> #[trigger] models(v0)[k] == model(v0[k]),
                        models(out@) == sort_stable(sort_each(models(v0).take(i as int))),
                        keys@.len() == out@.len(),
                        forall|k: int|
                            0 <= k < keys@.len() ==> #[trigger] keys@[k]@ == lowercase(out@[k]@.name),
                {
                    assert(v@[0] == v0[i as int]);
                    let mut c = v.remove(0);
                    assert(v@ =~= v0.skip(i + 1));
                    proof {
                        assert(decreases_to!(*old(self) => v0[i as int])) by {
                            let ch = old(self).children->0;
                            assert(decreases_to!(old(self).children => ch));
                            assert(decreases_to!(ch => ch@));
                            assert(decreases_to!(ch@ => ch@[i as int]));
                        }
                    }
                    c.sort();
                    let ghost x = c@;
                    assert(x == sorted_model(models(v0)[i as int]));
                    let k = key_of(&c);
                    let f = c.is_folder();
                    let ghost m = models(out@);
                    proof {
                        lemma_models(out@);
                    }
                    let mut j = out.len();
                    while j > 0 && after(out[j - 1].is_folder(), &keys[j - 1], f, &k)
                        invariant
                            j <= out@.len(),
                            m == models(out@),
                            m.len() == out@.len(),
                            forall|q: int| 0 <= q < out@.len() ==> #[trigger] m[q] == model(out@[q]),
                            keys@.len() == out@.len(),
                            forall|q: int|
                                0 <= q < keys@.len() ==> #[trigger] keys@[q]@ == lowercase(
                                    out@[q]@.name,
                                ),
                            k@ == lowercase(x.name),
                            f == is_folder_model(x),
                            insert_pos(m, x, j as int) == insert_pos(m, x, m.len() as int),
                        decreases j,
                    {
                        assert(m[j - 1] == out@[j - 1]@);
                        j = j - 1;
                    }
                    proof {
                        if j > 0 {
                            assert(m[j - 1] == out@[j - 1]@);
                        }
                        lemma_insert_sorted_at(m, x);
                        lemma_models_insert(out@, j as int, c);
                        let pre = models(v0).take(i + 1);
                        assert(pre.drop_last() =~= models(v0).take(i as int));
                        assert(sort_each(pre).drop_last() =~= sort_each(models(v0).take(i as int)));
                    }
                    let ghost keys0 = keys@;
                    let ghost out0 = out@;
                    out.insert(j, c);
                    keys.insert(j, k);
                    proof {
                        assert forall|q: int| 0 <= q < keys@.len() implies #[trigger] keys@[q]@
                            == lowercase(out@[q]@.name) by {
                            if q < j {
                            } else if q == j {
                            } else {
                                assert(keys@[q] == keys0[q - 1]);
                                assert(out@[q] == out0[q - 1]);
                            }
                        }
                    }
                }
                assert(models(v0).take(n as int) =~= models(v0));
                self.children = Some(out);
            },
        }
    }
}

} // verus!

verus! {

/// One rendered line, split so the caller can color glyphs and names
/// separately.
pub struct Line<'a> {
    pub prefix: String,
    pub node: &'a Listing,
    /// Path from the root, for looking up colors by path.
    pub rel_path: String,
}

pub struct LineModel {
    pub prefix: Seq<char>,
    pub node: ListingModel,
    pub rel_path: Seq<char>,
}

impl<'a> View for Line<'a> {
    type V = LineModel;

    open spec fn view(&self) -> LineModel {
        LineModel { prefix: self.prefix@, node: model(*self.node), rel_path: self.rel_path@ }
    }
}

pub open spec fn line_views<'a>(v: Seq<Line<'a>>) -> Seq<LineModel> {
    Seq::new(v.len(), |i: int| v[i]@)
}

/// The glyphs of a style: (tee, elbow, pipe, blank).
pub struct Glyphs {
    pub tee: Seq<char>,
    pub elbow: Seq<char>,
    pub pipe: Seq<char>,
    pub blank: Seq<char>,
}

pub open spec fn glyphs(style: Style) -> Glyphs {
    match style {
        Style::Unicode => Glyphs {
            tee: seq!['├', '─', '─', ' '],
            elbow: seq!['└', '─', '─', ' '],
            pipe: seq!['│', ' ', ' ', ' '],
            blank: seq![' ', ' ', ' ', ' '],
        },
        Style::Ascii => Glyphs {
            tee: seq!['|', '-', '-', ' '],
            elbow: seq!['`', '-', '-', ' '],
            pipe: seq!['|', ' ', ' ', ' '],
            blank: seq![' ', ' ', ' ', ' '],
        },
        Style::Indent => Glyphs {
            tee: seq![' ', ' '],
            elbow: seq![' ', ' '],
            pipe: seq![' ', ' '],
            blank: seq![' ', ' '],
        },
    }
}

/// The path of a child named `name` under `rel`.
pub open spec fn child_rel(rel: Seq<char>, name: Seq<char>) -> Seq<char> {
    if rel.len() == 0 {
        name
    } else {
        rel + seq!['/'] + name
    }
}

/// The lines below `m`, each prefixed with `prefix`.
pub open spec fn walk_lines(m: ListingModel, prefix: Seq<char>, rel: Seq<char>, g: Glyphs) -> Seq<
    LineModel,
>
    decreases m,
{
    match m.children {
        Some(cs) => walk_seq(cs, cs.len(), prefix, rel, g),
        None => Seq::empty(),
    }
}

/// The lines of the first entries `cs` of a folder with `n` entries, and of
/// what is below them.
pub open spec fn walk_seq(
    cs: Seq<ListingModel>,
    n: nat,
    prefix: Seq<char>,
    rel: Seq<char>,
    g: Glyphs,
) -> Seq<LineModel>
    decreases cs,
{
    if cs.len() == 0 {
        Seq::empty()
    } else {
        let c = cs.last();
        let last = cs.len() == n;
        let rp = child_rel(rel, c.name);
        walk_seq(cs.drop_last(), n, prefix, rel, g) + seq![
            LineModel { prefix: prefix + if last { g.elbow } else { g.tee }, node: c, rel_path: rp },
        ] + walk_lines(c, prefix + if last { g.blank } else { g.pipe }, rp, g)
    }
}

/// The lines of a listing drawn in a style: the root, then everything
/// below it, depth first, in order.
pub open spec fn spec_lines(root: ListingModel, style: Style) -> Seq<LineModel> {
    seq![LineModel { prefix: Seq::empty(), node: root, rel_path: Seq::empty() }] + walk_lines(
        root,
        Seq::empty(),
        Seq::empty(),
        glyphs(style),
    )
}

struct GlyphChars {
    tee: Vec<char>,
    elbow: Vec<char>,
    pipe: Vec<char>,
    blank: Vec<char>,
}

fn glyph_chars(style: Style) -> (g: GlyphChars)
    ensures
        g.tee@ == glyphs(style).tee,
        g.elbow@ == glyphs(style).elbow,
        g.pipe@ == glyphs(style).pipe,
        g.blank@ == glyphs(style).blank,
{
    let (tee, elbow, pipe, blank) = match style {
        Style::Unicode => ("├── ", "└── ", "│   ", "    "),
        Style::Ascii => ("|-- ", "`-- ", "|   ", "    "),
        Style::Indent => ("  ", "  ", "  ", "  "),
    };
    proof {
        reveal_strlit("├── ");
        reveal_strlit("└── ");
        reveal_strlit("│   ");
        reveal_strlit("    ");
        reveal_strlit("|-- ");
        reveal_strlit("`-- ");
        reveal_strlit("|   ");
        reveal_strlit("  ");
    }
    let g = GlyphChars {
        tee: chars_of(tee),
        elbow: chars_of(elbow),
        pipe: chars_of(pipe),
        blank: chars_of(blank),
    };
    assert(g.tee@ =~= glyphs(style).tee);
    assert(g.elbow@ =~= glyphs(style).elbow);
    assert(g.pipe@ =~= glyphs(style).pipe);
    assert(g.blank@ =~= glyphs(style).blank);
    g
}

spec fn glyph_model(g: &GlyphChars) -> Glyphs {
    Glyphs { tee: g.tee@, elbow: g.elbow@, pipe: g.pipe@, blank: g.blank@ }
}

fn concat_chars(a: &[char], b: &[char]) -> (r: Vec<char>)
    ensures
        r@ == a@ + b@,
{
    let mut r = crate::text::slice_chars(a, 0, a.len());
    assert(a@.subrange(0, a@.len() as int) =~= a@);
    extend_chars(&mut r, b);
    r
}

fn walk<'a>(n: &'a Listing, prefix: &[char], rel: &[char], g: &GlyphChars, out: &mut Vec<Line<'a>>)
    ensures
        line_views(final(out)@) == line_views(old(out)@) + walk_lines(
            n@,
            prefix@,
            rel@,
            glyph_model(g),
        ),
    decreases *n,
{
    match &n.children {
        None => {
            assert(line_views(out@) =~= line_views(out@) + Seq::<LineModel>::empty());
        },
        Some(children) => {
            let ghost cs = models(children@);
            let ghost gm = glyph_model(g);
            proof {
                lemma_models(children@);
            }
            let len = children.len();
            let ghost out0 = line_views(out@);
            assert(cs.take(0) =~= Seq::<ListingModel>::empty());
            assert(out0 =~= out0 + walk_seq(cs.take(0), cs.len(), prefix@, rel@, gm));
            for i in 0..len
                invariant
                    len == children@.len(),
                    n.children == Some(*children),
                    cs == models(children@),
                    cs.len() == len,
                    gm == glyph_model(g),
                    forall|k: int| 0 <= k < len ==> #[trigger] cs[k] == model(children@[k]),
                    line_views(out@) == out0 + walk_seq(cs.take(i as int), cs.len(), prefix@, rel@, gm),
            {
                let c = &children[i];
                let last = i + 1 == len;
                let rel_path = if rel.len() == 0 {
                    c_name_chars(c)
                } else {
                    let mut r = concat_chars(rel, &['/']);
                    let nm = c_name_chars(c);
                    extend_chars(&mut r, &nm);
                    r
                };
                assert(rel_path@ =~= child_rel(rel@, cs[i as int].name));
                let own = concat_chars(prefix, if last { &g.elbow } else { &g.tee });
                let below = concat_chars(prefix, if last { &g.blank } else { &g.pipe });
                let ghost before = line_views(out@);
                out.push(Line { prefix: string_of(&own), node: c, rel_path: string_of(&rel_path) });
                assert(line_views(out@) =~= before.push(
                    LineModel { prefix: own@, node: cs[i as int], rel_path: rel_path@ },
                ));
                proof {
                    let ch = n.children->0;
                    assert(decreases_to!(n.children => ch));
                    assert(decreases_to!(ch => ch@));
                    assert(decreases_to!(ch@ => ch@[i as int]));
                }
                walk(c, &below, &rel_path, g, out);
                let ghost t = cs.take(i + 1);
                assert(t.drop_last() =~= cs.take(i as int));
                assert(t.last() == cs[i as int]);
            }
            assert(cs.take(len as int) =~= cs);
        },
    }
}

fn c_name_chars(c: &Listing) -> (r: Vec<char>)
    ensures
        r@ == c@.name,
{
    chars_of(c.name.as_str())
}

/// The lines of a listing drawn in `style`. Expects a sorted listing.
pub fn lines<'a>(root: &'a Listing, style: Style) -> (r: Vec<Line<'a>>)
    ensures
        line_views(r@) == spec_lines(root@, style),
{
    let g = glyph_chars(style);
    let mut out: Vec<Line<'a>> = Vec::new();
    out.push(Line { prefix: String::new(), node: root, rel_path: String::new() });
    let empty: Vec<char> = Vec::new();
    let ghost first = line_views(out@);
    assert(first =~= seq![LineModel { prefix: Seq::empty(), node: root@, rel_path: Seq::empty() }]);
    walk(root, &empty, &empty, &g, &mut out);
    out
}

} // verus!

verus! {

/// The name shown for a node: folders get a trailing `/`.
pub open spec fn label_of(m: ListingModel) -> Seq<char> {
    if is_folder_model(m) {
        m.name.push('/')
    } else {
        m.name
    }
}

pub fn label(n: &Listing) -> (s: String)
    ensures
        s@ == label_of(n@),
{
    let mut v = c_name_chars(n);
    if n.is_folder() {
        v.push('/');
    }
    string_of(&v)
}

/// The text of the lines: each line's prefix and label, then a newline.
pub open spec fn render_text(ls: Seq<LineModel>) -> Seq<char>
    decreases ls.len(),
{
    if ls.len() == 0 {
        Seq::empty()
    } else {
        render_text(ls.drop_last()) + ls.last().prefix + label_of(ls.last().node) + seq!['\n']
    }
}

/// The listing drawn as text in `style`.
pub fn render(root: &Listing, style: Style) -> (s: String)
    ensures
        s@ == render_text(spec_lines(root@, style)),
{
    let ls = lines(root, style);
    let ghost lv = line_views(ls@);
    let mut v: Vec<char> = Vec::new();
    let n = ls.len();
    for i in 0..n
        invariant
            n == ls@.len(),
            lv == line_views(ls@),
            v@ == render_text(lv.take(i as int)),
    {
        let p = chars_of(ls[i].prefix.as_str());
        extend_chars(&mut v, &p);
        let l = label(ls[i].node);
        let lc = chars_of(l.as_str());
        extend_chars(&mut v, &lc);
        v.push('\n');
        assert(lv.take(i + 1).drop_last() =~= lv.take(i as int));
        assert(lv.take(i + 1).last() == ls@[i as int]@);
    }
    assert(lv.take(n as int) =~= lv);
    string_of(&v)
}

} // verus!

verus! {

/// What one entry adds to its folder's (folders, files).
pub open spec fn entry_counts(c: ListingModel) -> (nat, nat) {
    if is_folder_model(c) {
        (1 + counts_below(c).0, counts_below(c).1)
    } else {
        (0, 1)
    }
}

proof fn lemma_counts_push(s: Seq<ListingModel>, c: ListingModel)
    ensures
        counts_seq(s.push(c)) == (counts_seq(s).0 + entry_counts(c).0, counts_seq(s).1 + entry_counts(c).1),
{
    assert(s.push(c).drop_last() =~= s);
}

proof fn lemma_counts_add(a: Seq<ListingModel>, b: Seq<ListingModel>)
    ensures
        counts_seq(a + b) == (counts_seq(a).0 + counts_seq(b).0, counts_seq(a).1 + counts_seq(b).1),
    decreases b.len(),
{
    if b.len() == 0 {
        assert(a + b =~= a);
    } else {
        lemma_counts_add(a, b.drop_last());
        assert((a + b).drop_last() =~= a + b.drop_last());
        assert((a + b).last() == b.last());
    }
}

proof fn lemma_counts_insert(t: Seq<ListingModel>, p: int, x: ListingModel)
    requires
        0 <= p <= t.len(),
    ensures
        counts_seq(t.take(p).push(x) + t.skip(p)) == (
            counts_seq(t).0 + entry_counts(x).0,
            counts_seq(t).1 + entry_counts(x).1,
        ),
{
    lemma_counts_add(t.take(p).push(x), t.skip(p));
    lemma_counts_push(t.take(p), x);
    lemma_counts_add(t.take(p), t.skip(p));
    assert(t.take(p) + t.skip(p) =~= t);
}

proof fn lemma_sort_stable_counts(s: Seq<ListingModel>)
    ensures
        counts_seq(sort_stable(s)) == counts_seq(s),
    decreases s.len(),
{
    if s.len() > 0 {
        lemma_sort_stable_counts(s.drop_last());
        let t = sort_stable(s.drop_last());
        lemma_insert_sorted_at(t, s.last());
        lemma_counts_insert(t, insert_pos(t, s.last(), t.len() as int), s.last());
        lemma_counts_push(s.drop_last(), s.last());
        assert(s.drop_last().push(s.last()) =~= s);
    }
}

/// Sorting keeps a listing's name, whether it is a folder, and how many
/// folders and files lie below it.
proof fn lemma_sorted_model_counts(m: ListingModel)
    ensures
        sorted_model(m).name == m.name,
        is_folder_model(sorted_model(m)) == is_folder_model(m),
        counts_below(sorted_model(m)) == counts_below(m),
    decreases m, 1int,
{
    match m.children {
        Some(cs) => {
            lemma_sort_each_counts(cs);
            lemma_sort_stable_counts(sort_each(cs));
        },
        None => {},
    }
}

proof fn lemma_sort_each_counts(cs: Seq<ListingModel>)
    ensures
        counts_seq(sort_each(cs)) == counts_seq(cs),
        sort_each(cs).len() == cs.len(),
        forall|i: int| 0 <= i < cs.len() ==> #[trigger] sort_each(cs)[i] == sorted_model(cs[i]),
    decreases cs, 0int,
{
    if cs.len() > 0 {
        lemma_sort_each_counts(cs.drop_last());
        lemma_sorted_model_counts(cs.last());
        lemma_counts_push(sort_each(cs.drop_last()), sorted_model(cs.last()));
        lemma_counts_push(cs.drop_last(), cs.last());
        assert(cs.drop_last().push(cs.last()) =~= cs);
        assert forall|i: int| 0 <= i < cs.len() implies #[trigger] sort_each(cs)[i] == sorted_model(
            cs[i],
        ) by {
            if i < cs.len() - 1 {
                assert(sort_each(cs.drop_last())[i] == sorted_model(cs.drop_last()[i]));
            }
        }
    }
}

proof fn lemma_lex_asym(a: Seq<char>, b: Seq<char>)
    ensures
        lex_lt(a, b) ==> !lex_lt(b, a),
    decreases a.len(),
{
    if a.len() > 0 && b.len() > 0 && a[0] == b[0] {
        lemma_lex_asym(a.drop_first(), b.drop_first());
    }
}

proof fn lemma_sorts_after_asym(a: ListingModel, b: ListingModel)
    ensures
        sorts_after(a, b) ==> !sorts_after(b, a),
{
    lemma_lex_asym(lowercase(a.name), lowercase(b.name));
    lemma_lex_asym(lowercase(b.name), lowercase(a.name));
}

/// No entry sorts after the one that follows it.
pub open spec fn sorted_seq(s: Seq<ListingModel>) -> bool {
    forall|i: int| 0 <= i < s.len() - 1 ==> !sorts_after(#[trigger] s[i], s[i + 1])
}

proof fn lemma_insert_pos_after(t: Seq<ListingModel>, x: ListingModel, j: int)
    requires
        0 <= j <= t.len(),
    ensures
        forall|k: int| insert_pos(t, x, j) <= k < j ==> sorts_after(#[trigger] t[k], x),
        insert_pos(t, x, j) > 0 ==> !sorts_after(t[insert_pos(t, x, j) - 1], x),
    decreases j,
{
    if j > 0 && sorts_after(t[j - 1], x) {
        lemma_insert_pos_after(t, x, j - 1);
    }
}

proof fn lemma_insert_sorted_sorted(t: Seq<ListingModel>, x: ListingModel)
    requires
        sorted_seq(t),
    ensures
        sorted_seq(insert_sorted(t, x)),
{
    lemma_insert_sorted_at(t, x);
    let p = insert_pos(t, x, t.len() as int);
    lemma_insert_pos_after(t, x, t.len() as int);
    let r = insert_sorted(t, x);
    assert(r.len() == t.len() + 1);
    assert forall|i: int| 0 <= i < r.len() - 1 implies !sorts_after(#[trigger] r[i], r[i + 1]) by {
        if i < p - 1 {
            assert(r[i] == t[i] && r[i + 1] == t[i + 1]);
        } else if i == p - 1 {
            assert(r[i] == t[p - 1] && r[i + 1] == x);
        } else if i == p {
            assert(r[i] == x && r[i + 1] == t[p]);
            lemma_sorts_after_asym(t[p], x);
        } else {
            assert(r[i] == t[i - 1] && r[i + 1] == t[i]);
        }
    }
}

proof fn lemma_sort_stable_sorted(s: Seq<ListingModel>)
    ensures
        sorted_seq(sort_stable(s)),
    decreases s.len(),
{
    if s.len() > 0 {
        lemma_sort_stable_sorted(s.drop_last());
        lemma_insert_sorted_sorted(sort_stable(s.drop_last()), s.last());
    }
}

proof fn lemma_sort_stable_perm(s: Seq<ListingModel>)
    ensures
        sort_stable(s).to_multiset() == s.to_multiset(),
        sort_stable(s).len() == s.len(),
    decreases s.len(),
{
    broadcast use vstd::seq_lib::to_multiset_build, vstd::seq_lib::to_multiset_insert;

    if s.len() == 0 {
        assert(sort_stable(s) =~= s);
    } else {
        lemma_sort_stable_perm(s.drop_last());
        let t = sort_stable(s.drop_last());
        lemma_insert_sorted_at(t, s.last());
        let p = insert_pos(t, s.last(), t.len() as int);
        assert(t.take(p).push(s.last()) + t.skip(p) =~= t.insert(p, s.last()));
        assert(s.drop_last().push(s.last()) =~= s);
    }
}

/// Every folder's entries are in order, at every level.
pub open spec fn all_sorted(m: ListingModel) -> bool
    decreases m, 1int,
{
    match m.children {
        Some(cs) => sorted_seq(cs) && all_sorted_seq(cs),
        None => true,
    }
}

pub open spec fn all_sorted_seq(cs: Seq<ListingModel>) -> bool
    decreases cs, 0int,
{
    cs.len() == 0 || (all_sorted_seq(cs.drop_last()) && all_sorted(cs.last()))
}

proof fn lemma_all_sorted_seq(cs: Seq<ListingModel>)
    ensures
        all_sorted_seq(cs) <==> forall|i: int| 0 <= i < cs.len() ==> all_sorted(#[trigger] cs[i]),
    decreases cs.len(),
{
    if cs.len() > 0 {
        lemma_all_sorted_seq(cs.drop_last());
        if forall|i: int| 0 <= i < cs.len() ==> all_sorted(#[trigger] cs[i]) {
            assert forall|i: int| 0 <= i < cs.drop_last().len() implies all_sorted(
                #[trigger] cs.drop_last()[i],
            ) by {
                assert(cs.drop_last()[i] == cs[i]);
            }
            assert(all_sorted(cs[cs.len() - 1]));
        }
        if all_sorted_seq(cs) {
            assert forall|i: int| 0 <= i < cs.len() implies all_sorted(#[trigger] cs[i]) by {
                if i < cs.len() - 1 {
                    assert(cs.drop_last()[i] == cs[i]);
                }
            }
        }
    }
}

proof fn lemma_sort_stable_elems(s: Seq<ListingModel>)
    ensures
        forall|i: int|
            0 <= i < sort_stable(s).len() ==> exists|j: int|
                0 <= j < s.len() && #[trigger] sort_stable(s)[i] == s[j],
    decreases s.len(),
{
    if s.len() > 0 {
        lemma_sort_stable_elems(s.drop_last());
        let t = sort_stable(s.drop_last());
        lemma_insert_sorted_at(t, s.last());
        let p = insert_pos(t, s.last(), t.len() as int);
        let r = sort_stable(s);
        assert forall|i: int| 0 <= i < r.len() implies exists|j: int|
            0 <= j < s.len() && #[trigger] r[i] == s[j] by {
            if i < p {
                assert(r[i] == t[i]);
                let j = choose|j: int| 0 <= j < s.drop_last().len() && t[i] == s.drop_last()[j];
                assert(r[i] == s[j]);
            } else if i == p {
                assert(r[i] == s[s.len() - 1]);
            } else {
                assert(r[i] == t[i - 1]);
                let j = choose|j: int| 0 <= j < s.drop_last().len() && t[i - 1] == s.drop_last()[j];
                assert(r[i] == s[j]);
            }
        }
    }
}

proof fn lemma_sorted_model_sorted(m: ListingModel)
    ensures
        all_sorted(sorted_model(m)),
    decreases m,
{
    match m.children {
        Some(cs) => {
            let e = sort_each(cs);
            lemma_sort_each_counts(cs);
            let r = sort_stable(e);
            lemma_sort_stable_sorted(e);
            lemma_sort_stable_elems(e);
            assert forall|i: int| 0 <= i < r.len() implies all_sorted(#[trigger] r[i]) by {
                let j = choose|j: int| 0 <= j < e.len() && #[trigger] r[i] == e[j];
                assert(e[j] == sorted_model(cs[j]));
                lemma_sorted_model_sorted(cs[j]);
            }
            lemma_all_sorted_seq(r);
        },
        None => {},
    }
}

proof fn lemma_sort_stable_of_sorted(s: Seq<ListingModel>)
    requires
        sorted_seq(s),
    ensures
        sort_stable(s) == s,
    decreases s.len(),
{
    if s.len() > 0 {
        let d = s.drop_last();
        assert(sorted_seq(d)) by {
            assert forall|i: int| 0 <= i < d.len() - 1 implies !sorts_after(#[trigger] d[i], d[i + 1]) by {
                assert(d[i] == s[i] && d[i + 1] == s[i + 1]);
            }
        }
        lemma_sort_stable_of_sorted(d);
        if d.len() > 0 {
            assert(d.last() == s[s.len() - 2]);
            assert(!sorts_after(s[s.len() - 2], s[s.len() - 1]));
        }
        assert(d.push(s.last()) =~= s);
    }
}

proof fn lemma_sorted_model_of_sorted(m: ListingModel)
    requires
        all_sorted(m),
    ensures
        sorted_model(m) == m,
    decreases m,
{
    match m.children {
        Some(cs) => {
            lemma_all_sorted_seq(cs);
            lemma_sort_each_counts(cs);
            assert forall|i: int| 0 <= i < cs.len() implies #[trigger] sort_each(cs)[i] == cs[i] by {
                lemma_sorted_model_of_sorted(cs[i]);
            }
            assert(sort_each(cs) =~= cs);
            lemma_sort_stable_of_sorted(cs);
        },
        None => {},
    }
}

/// Sorting a sorted listing changes nothing: a second sort gives what the
/// first gave.
pub proof fn sorting_twice_is_sorting_once(m: ListingModel)
    ensures
        sorted_model(sorted_model(m)) == sorted_model(m),
{
    lemma_sorted_model_sorted(m);
    lemma_sorted_model_of_sorted(sorted_model(m));
}

/// `a` and `b` sort as equals: both folders or both files, with the same
/// lowercase name.
pub open spec fn same_key(a: ListingModel, b: ListingModel) -> bool {
    is_folder_model(a) == is_folder_model(b) && lowercase(a.name) == lowercase(b.name)
}

/// The entries of `s` that sort as equals of `x`, in their order in `s`.
pub open spec fn key_run(s: Seq<ListingModel>, x: ListingModel) -> Seq<ListingModel>
    decreases s.len(),
{
    if s.len() == 0 {
        Seq::empty()
    } else if same_key(s.last(), x) {
        key_run(s.drop_last(), x).push(s.last())
    } else {
        key_run(s.drop_last(), x)
    }
}

proof fn lemma_key_run_concat(a: Seq<ListingModel>, b: Seq<ListingModel>, x: ListingModel)
    ensures
        key_run(a + b, x) == key_run(a, x) + key_run(b, x),
    decreases b.len(),
{
    if b.len() == 0 {
        assert(a + b =~= a);
        assert(key_run(a, x) + key_run(b, x) =~= key_run(a, x));
    } else {
        lemma_key_run_concat(a, b.drop_last(), x);
        assert((a + b).drop_last() =~= a + b.drop_last());
        assert((a + b).last() == b.last());
        assert(key_run(a, x) + key_run(b.drop_last(), x).push(b.last()) =~= (key_run(a, x) + key_run(
            b.drop_last(),
            x,
        )).push(b.last()));
    }
}

proof fn lemma_lex_irrefl(a: Seq<char>)
    ensures
        !lex_lt(a, a),
    decreases a.len(),
{
    if a.len() > 0 {
        lemma_lex_irrefl(a.drop_first());
    }
}

proof fn lemma_key_run_after(u: Seq<ListingModel>, y: ListingModel, x: ListingModel)
    requires
        same_key(y, x),
        forall|k: int| 0 <= k < u.len() ==> sorts_after(#[trigger] u[k], y),
    ensures
        key_run(u, x) == Seq::<ListingModel>::empty(),
    decreases u.len(),
{
    if u.len() > 0 {
        let d = u.drop_last();
        assert forall|k: int| 0 <= k < d.len() implies sorts_after(#[trigger] d[k], y) by {
            assert(d[k] == u[k]);
        }
        lemma_key_run_after(d, y, x);
        let z = u.last();
        assert(sorts_after(u[u.len() - 1], y));
        lemma_lex_irrefl(lowercase(y.name));
        if same_key(z, x) {
            assert(lowercase(z.name) == lowercase(y.name));
        }
    }
}

proof fn lemma_key_run_insert(t: Seq<ListingModel>, y: ListingModel, x: ListingModel)
    ensures
        key_run(insert_sorted(t, y), x) == if same_key(y, x) {
            key_run(t, x).push(y)
        } else {
            key_run(t, x)
        },
{
    lemma_insert_sorted_at(t, y);
    let p = insert_pos(t, y, t.len() as int);
    lemma_insert_pos_after(t, y, t.len() as int);
    let a = t.take(p);
    let b = t.skip(p);
    assert(t =~= a + b);
    lemma_key_run_concat(a, b, x);
    lemma_key_run_concat(a.push(y), b, x);
    assert(a.push(y).drop_last() =~= a);
    if same_key(y, x) {
        assert forall|k: int| 0 <= k < b.len() implies sorts_after(#[trigger] b[k], y) by {
            assert(b[k] == t[p + k]);
        }
        lemma_key_run_after(b, y, x);
        assert(key_run(a, x) + Seq::<ListingModel>::empty() =~= key_run(a, x));
        assert(key_run(a, x).push(y) + Seq::<ListingModel>::empty() =~= key_run(a, x).push(y));
    }
}

/// The sort is stable: the entries that sort as equals of any `x` keep
/// their order.
pub proof fn sort_keeps_the_order_of_equals(s: Seq<ListingModel>, x: ListingModel)
    ensures
        key_run(sort_stable(s), x) == key_run(s, x),
    decreases s.len(),
{
    if s.len() > 0 {
        sort_keeps_the_order_of_equals(s.drop_last(), x);
        lemma_key_run_insert(sort_stable(s.drop_last()), s.last(), x);
    }
}

/// `a` and `b` first differ at index `k`, where `a` has the smaller
/// character.
pub open spec fn first_difference_below(a: Seq<char>, b: Seq<char>, k: int) -> bool {
    0 <= k < a.len() && k < b.len() && a.take(k) == b.take(k) && a[k] < b[k]
}

/// Names are ordered as strings are: `a` comes before `b` exactly when `a`
/// is a proper prefix of `b`, or at the first index where they differ `a`
/// has the smaller character. So names that share a first letter are
/// ordered by the letters after it.
pub proof fn name_order_is_lexicographic(a: Seq<char>, b: Seq<char>)
    ensures
        lex_lt(a, b) <==> ((a.len() < b.len() && b.take(a.len() as int) == a) || exists|k: int|
            #[trigger] first_difference_below(a, b, k)),
    decreases a.len(),
{
    if a.len() == 0 {
        if b.len() > 0 {
            assert(b.take(0) =~= a);
        }
    } else if b.len() == 0 {
    } else if a[0] != b[0] {
        if a.len() < b.len() && b.take(a.len() as int) == a {
            assert(b.take(a.len() as int)[0] == b[0]);
        }
        if a[0] < b[0] {
            assert(a.take(0) =~= b.take(0));
            assert(first_difference_below(a, b, 0));
        }
        if exists|k: int| #[trigger] first_difference_below(a, b, k) {
            let k = choose|k: int| #[trigger] first_difference_below(a, b, k);
            if k > 0 {
                assert(a.take(k)[0] == b.take(k)[0]);
            }
        }
    } else {
        let a1 = a.drop_first();
        let b1 = b.drop_first();
        name_order_is_lexicographic(a1, b1);
        // the prefix case
        if a.len() < b.len() && b.take(a.len() as int) == a {
            assert(b1.take(a1.len() as int) =~= b.take(a.len() as int).drop_first());
        }
        if a1.len() < b1.len() && b1.take(a1.len() as int) == a1 {
            assert(b.take(a.len() as int) =~= seq![b[0]] + b1.take(a1.len() as int));
            assert(a =~= seq![a[0]] + a1);
        }
        // the difference case
        if exists|k: int| #[trigger] first_difference_below(a, b, k) {
            let k = choose|k: int| #[trigger] first_difference_below(a, b, k);
            assert(k != 0);
            assert(a1.take(k - 1) =~= a.take(k).drop_first());
            assert(b1.take(k - 1) =~= b.take(k).drop_first());
            assert(a1[k - 1] == a[k] && b1[k - 1] == b[k]);
            assert(first_difference_below(a1, b1, k - 1));
        }
        if exists|k: int| #[trigger] first_difference_below(a1, b1, k) {
            let k = choose|k: int| #[trigger] first_difference_below(a1, b1, k);
            assert(a.take(k + 1) =~= seq![a[0]] + a1.take(k));
            assert(b.take(k + 1) =~= seq![b[0]] + b1.take(k));
            assert(a[k + 1] == a1[k] && b[k + 1] == b1[k]);
            assert(first_difference_below(a, b, k + 1));
        }
    }
}

/// Sorting puts every folder's entries in order (folders first, then by
/// lowercase name), at every level; it keeps how many folders and files lie
/// below; and a folder's entries after sorting are its sorted entries, each
/// exactly as often as before.
pub proof fn sort_orders_and_keeps_entries(m: ListingModel)
    ensures
        all_sorted(sorted_model(m)),
        counts_below(sorted_model(m)) == counts_below(m),
        sorted_model(m).name == m.name,
        m.children matches Some(cs) ==> sorted_model(m).children->0.to_multiset() == sort_each(
            cs,
        ).to_multiset(),
{
    lemma_sorted_model_sorted(m);
    lemma_sorted_model_counts(m);
    if let Some(cs) = m.children {
        lemma_sort_stable_perm(sort_each(cs));
    }
}

} // verus!

verus! {

proof fn lemma_walk_len(m: ListingModel, prefix: Seq<char>, rel: Seq<char>, g: Glyphs)
    ensures
        walk_lines(m, prefix, rel, g).len() == counts_below(m).0 + counts_below(m).1,
    decreases m, 1int,
{
    match m.children {
        Some(cs) => lemma_walk_seq_len(cs, cs.len(), prefix, rel, g),
        None => {},
    }
}

proof fn lemma_walk_seq_len(cs: Seq<ListingModel>, n: nat, prefix: Seq<char>, rel: Seq<char>, g: Glyphs)
    ensures
        walk_seq(cs, n, prefix, rel, g).len() == counts_seq(cs).0 + counts_seq(cs).1,
    decreases cs, 0int,
{
    if cs.len() > 0 {
        let c = cs.last();
        let last = cs.len() == n;
        let rp = child_rel(rel, c.name);
        lemma_walk_seq_len(cs.drop_last(), n, prefix, rel, g);
        lemma_walk_len(c, prefix + if last { g.blank } else { g.pipe }, rp, g);
    }
}

pub open spec fn starts_with_chars(s: Seq<char>, p: Seq<char>) -> bool {
    p.len() <= s.len() && s.take(p.len() as int) == p
}

proof fn lemma_walk_prefix(m: ListingModel, prefix: Seq<char>, rel: Seq<char>, g: Glyphs)
    ensures
        forall|k: int|
            0 <= k < walk_lines(m, prefix, rel, g).len() ==> starts_with_chars(
                (#[trigger] walk_lines(m, prefix, rel, g)[k]).prefix,
                prefix,
            ),
    decreases m, 1int,
{
    match m.children {
        Some(cs) => lemma_walk_seq_prefix(cs, cs.len(), prefix, rel, g),
        None => {},
    }
}

proof fn lemma_walk_seq_prefix(cs: Seq<ListingModel>, n: nat, prefix: Seq<char>, rel: Seq<char>, g: Glyphs)
    ensures
        forall|k: int|
            0 <= k < walk_seq(cs, n, prefix, rel, g).len() ==> starts_with_chars(
                (#[trigger] walk_seq(cs, n, prefix, rel, g)[k]).prefix,
                prefix,
            ),
    decreases cs, 0int,
{
    if cs.len() > 0 {
        let c = cs.last();
        let last = cs.len() == n;
        let rp = child_rel(rel, c.name);
        let q = prefix + if last { g.blank } else { g.pipe };
        let own = prefix + if last { g.elbow } else { g.tee };
        lemma_walk_seq_prefix(cs.drop_last(), n, prefix, rel, g);
        lemma_walk_prefix(c, q, rp, g);
        let a = walk_seq(cs.drop_last(), n, prefix, rel, g);
        let h = seq![LineModel { prefix: own, node: c, rel_path: rp }];
        let b = walk_lines(c, q, rp, g);
        let w = walk_seq(cs, n, prefix, rel, g);
        assert(w == a + h + b);
        assert(own.take(prefix.len() as int) =~= prefix);
        assert forall|k: int| 0 <= k < w.len() implies starts_with_chars((#[trigger] w[k]).prefix, prefix) by {
            if k < a.len() {
                assert(w[k] == a[k]);
            } else if k == a.len() {
                assert(w[k] == h[0]);
            } else {
                assert(w[k] == b[k - a.len() - 1]);
                assert(starts_with_chars(b[k - a.len() - 1].prefix, q));
                assert(q.take(prefix.len() as int) =~= prefix);
                assert(b[k - a.len() - 1].prefix.take(prefix.len() as int) =~= b[k - a.len()
                    - 1].prefix.take(q.len() as int).take(prefix.len() as int));
            }
        }
    }
}

/// The width of one level of a drawing: four characters, two in the indent
/// style.
pub open spec fn level_width(style: Style) -> nat {
    match style {
        Style::Indent => 2,
        _ => 4,
    }
}

/// Below the last entry of a folder nothing continues: every line drawn
/// after a folder's last entry (the lines of what that entry holds) has only
/// spaces in that entry's column, one level wide, in every style; and that
/// entry's own line comes right after the lines of the entries before it.
pub proof fn below_the_last_entry_is_blank(cs: Seq<ListingModel>, prefix: Seq<char>, rel: Seq<char>, style: Style)
    requires
        cs.len() > 0,
    ensures
        ({
            let w = walk_seq(cs, cs.len(), prefix, rel, glyphs(style));
            let j = (counts_seq(cs.drop_last()).0 + counts_seq(cs.drop_last()).1) as int;
            &&& j < w.len()
            &&& w[j].node == cs.last()
            &&& forall|k: int|
                j < k < w.len() ==> {
                    let p = (#[trigger] w[k]).prefix;
                    &&& p.len() >= prefix.len() + level_width(style)
                    &&& forall|i: int|
                        prefix.len() <= i < prefix.len() + level_width(style) ==> p[i] == ' '
                }
        }),
{
    let g = glyphs(style);
    let c = cs.last();
    let rp = child_rel(rel, c.name);
    let q = prefix + g.blank;
    lemma_walk_seq_len(cs.drop_last(), cs.len(), prefix, rel, g);
    lemma_walk_prefix(c, q, rp, g);
    let a = walk_seq(cs.drop_last(), cs.len(), prefix, rel, g);
    let h = seq![LineModel { prefix: prefix + g.elbow, node: c, rel_path: rp }];
    let b = walk_lines(c, q, rp, g);
    let w = walk_seq(cs, cs.len(), prefix, rel, g);
    assert(w == a + h + b);
    assert(w[a.len() as int] == h[0]);
    assert forall|k: int| a.len() < k < w.len() implies {
        let p = (#[trigger] w[k]).prefix;
        &&& p.len() >= prefix.len() + level_width(style)
        &&& forall|i: int| prefix.len() <= i < prefix.len() + level_width(style) ==> p[i] == ' '
    } by {
        let l = b[k - a.len() - 1];
        assert(w[k] == l);
        assert(starts_with_chars(l.prefix, q));
        assert forall|i: int| prefix.len() <= i < prefix.len() + level_width(style) implies l.prefix[i] == ' ' by {
            assert(l.prefix.take(q.len() as int)[i] == q[i]);
        }
    }
}

/// Drawing a listing gives one line for it and one for each folder and file
/// below it, whatever the style.
pub proof fn one_line_per_node(root: ListingModel, style: Style)
    ensures
        spec_lines(root, style).len() == 1 + counts_below(root).0 + counts_below(root).1,
        spec_lines(root, style)[0] == (LineModel {
            prefix: Seq::empty(),
            node: root,
            rel_path: Seq::empty(),
        }),
{
    lemma_walk_len(root, Seq::empty(), Seq::empty(), glyphs(style));
}

/// What `counts` reports leaves the listing itself out: a file, or a folder
/// holding nothing, counts nothing below it; a folder counts each entry it
/// holds, and what lies below each.
pub proof fn counts_leave_the_listing_out(name: Seq<char>, cs: Seq<ListingModel>)
    ensures
        counts_below(ListingModel { name, children: None }) == (0nat, 0nat),
        counts_below(ListingModel { name, children: Some(Seq::empty()) }) == (0nat, 0nat),
        counts_below(ListingModel { name, children: Some(cs) }) == counts_seq(cs),
{
}

} // verus!
