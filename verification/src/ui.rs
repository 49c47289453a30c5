//! What the printed plan and summary are made of: the order and tree
//! glyphs of a plan's items, the counts of the summary line, and counted
//! words.

use vstd::prelude::*;

use crate::parser::Kind;
use crate::plan::{item_views, Item, ItemModel, Status};
use crate::render::{lowercase, lowercased};
use crate::text::{chars_of, eq_chars, extend_chars, slice_chars, string_of, trim, trimmed, views};

verus! {

/// The index of the last `/` before index `j`, or -1.
pub open spec fn last_slash(p: Seq<char>, j: int) -> int
    decreases j,
{
    if j <= 0 {
        -1
    } else if p[j - 1] == '/' {
        j - 1
    } else {
        last_slash(p, j - 1)
    }
}

/// The path of the folder holding `p`: what comes before its last `/`, or
/// nothing.
pub open spec fn parent_of(p: Seq<char>) -> Seq<char> {
    let k = last_slash(p, p.len() as int);
    if k < 0 {
        Seq::empty()
    } else {
        p.take(k)
    }
}

pub proof fn lemma_last_slash(p: Seq<char>, j: int)
    requires
        0 <= j <= p.len(),
    ensures
        -1 <= last_slash(p, j) < j,
    decreases j,
{
    if j > 0 {
        lemma_last_slash(p, j - 1);
    }
}

pub proof fn lemma_parent_shorter(p: Seq<char>)
    requires
        p.len() > 0,
    ensures
        parent_of(p).len() < p.len(),
{
    lemma_last_slash(p, p.len() as int);
}

/// The longest path among the items.
pub open spec fn max_path(items: Seq<ItemModel>) -> nat
    decreases items.len(),
{
    if items.len() == 0 {
        0
    } else {
        let m = max_path(items.drop_last());
        if items.last().node.path.len() > m {
            items.last().node.path.len()
        } else {
            m
        }
    }
}

pub proof fn lemma_max_path(items: Seq<ItemModel>, i: int)
    requires
        0 <= i < items.len(),
    ensures
        items[i].node.path.len() <= max_path(items),
    decreases items.len(),
{
    if i < items.len() - 1 {
        lemma_max_path(items.drop_last(), i);
    }
}

pub open spec fn is_kid(it: ItemModel, parent: Seq<char>) -> bool {
    parent_of(it.node.path) == parent
}

/// Whether an item from index `i` on sits directly in `parent`.
pub open spec fn kid_from(items: Seq<ItemModel>, parent: Seq<char>, i: int) -> bool
    decreases items.len() - i,
{
    0 <= i < items.len() && (is_kid(items[i], parent) || kid_from(items, parent, i + 1))
}

/// The items from index `i` on that sit in `parent`, each followed by what
/// sits in it, with their `├── ` / `└── ` prefixes.
pub open spec fn order_from(items: Seq<ItemModel>, parent: Seq<char>, prefix: Seq<char>, i: int) -> Seq<
    (ItemModel, Seq<char>),
>
    decreases max_path(items) - parent.len(), items.len() - i,
{
    if i < 0 || i >= items.len() {
        Seq::empty()
    } else if is_kid(items[i], parent) && items[i].node.path.len() > 0 {
        let last = !kid_from(items, parent, i + 1);
        let own = prefix + if last {
            seq!['└', '─', '─', ' ']
        } else {
            seq!['├', '─', '─', ' ']
        };
        let below = prefix + if last {
            seq![' ', ' ', ' ', ' ']
        } else {
            seq!['│', ' ', ' ', ' ']
        };
        proof {
            lemma_parent_shorter(items[i].node.path);
            lemma_max_path(items, i);
        }
        seq![(items[i], own)] + order_from(items, items[i].node.path, below, 0) + order_from(
            items,
            parent,
            prefix,
            i + 1,
        )
    } else {
        order_from(items, parent, prefix, i + 1)
    }
}

/// The top-level items from index `i` on, flush left, each followed by what
/// sits in it.
pub open spec fn top_from(items: Seq<ItemModel>, i: int) -> Seq<(ItemModel, Seq<char>)>
    decreases items.len() - i,
{
    if i < 0 || i >= items.len() {
        Seq::empty()
    } else if parent_of(items[i].node.path).len() == 0 {
        seq![(items[i], Seq::<char>::empty())] + order_from(
            items,
            items[i].node.path,
            Seq::empty(),
            0,
        ) + top_from(items, i + 1)
    } else {
        top_from(items, i + 1)
    }
}

/// Plan items in tree order with their prefixes. Items come in source
/// order, where a folder can gain entries after its siblings, so entries
/// are regrouped under their folder.
pub open spec fn spec_tree_order(items: Seq<ItemModel>) -> Seq<(ItemModel, Seq<char>)> {
    top_from(items, 0)
}

pub proof fn lemma_kid_from(items: Seq<ItemModel>, parent: Seq<char>, a: int, k: int)
    requires
        0 <= a <= k < items.len(),
        is_kid(items[k], parent),
    ensures
        kid_from(items, parent, a),
    decreases k - a,
{
    if a < k {
        lemma_kid_from(items, parent, a + 1, k);
    }
}

pub open spec fn pair_views<'a>(v: Seq<(&'a Item, String)>) -> Seq<(ItemModel, Seq<char>)> {
    Seq::new(v.len(), |k: int| (v[k].0@, v[k].1@))
}

fn parent_chars(p: &[char]) -> (r: Vec<char>)
    ensures
        r@ == parent_of(p@),
{
    let n = p.len();
    let mut j = n;
    while j > 0 && p[j - 1] != '/'
        invariant
            j <= n == p@.len(),
            last_slash(p@, j as int) == last_slash(p@, n as int),
        decreases j,
    {
        j = j - 1;
    }
    if j == 0 {
        Vec::new()
    } else {
        slice_chars(p, 0, j - 1)
    }
}

spec fn walk_ready(items: Seq<Item>, paths: Seq<Vec<char>>, parents: Seq<Vec<char>>) -> bool {
    &&& paths.len() == items.len()
    &&& parents.len() == items.len()
    &&& forall|k: int| 0 <= k < items.len() ==> #[trigger] paths[k]@ == items[k]@.node.path
    &&& forall|k: int| 0 <= k < items.len() ==> #[trigger] parents[k]@ == parent_of(items[k]@.node.path)
    &&& forall|k: int| 0 <= k < items.len() ==> (#[trigger] items[k])@.node.path.len() > 0
}

fn order_walk<'a>(
    items: &'a Vec<Item>,
    paths: &Vec<Vec<char>>,
    parents: &Vec<Vec<char>>,
    parent: &[char],
    prefix: &[char],
    out: &mut Vec<(&'a Item, String)>,
)
    requires
        walk_ready(items@, paths@, parents@),
    ensures
        pair_views(final(out)@) == pair_views(old(out)@) + order_from(
            item_views(items@),
            parent@,
            prefix@,
            0,
        ),
    decreases max_path(item_views(items@)) - parent@.len(),
{
    let ghost iv = item_views(items@);
    let n = items.len();
    let mut j = n;
    while j > 0 && !eq_chars(&parents[j - 1], parent)
        invariant
            j <= n == items@.len(),
            iv == item_views(items@),
            walk_ready(items@, paths@, parents@),
            !kid_from(iv, parent@, j as int),
        decreases j,
    {
        assert(parents@[j - 1]@ == parent_of(iv[j - 1].node.path));
        j = j - 1;
    }
    let has_last = j > 0;
    let last_kid: usize = if j > 0 {
        j - 1
    } else {
        0
    };
    proof {
        if has_last {
            assert(parents@[last_kid as int]@ == parent_of(iv[last_kid as int].node.path));
        }
    }
    let ghost out0 = pair_views(out@);
    assert(out0 + order_from(iv, parent@, prefix@, 0) =~= pair_views(out@) + order_from(
        iv,
        parent@,
        prefix@,
        0,
    ));
    for i in 0..n
        invariant
            n == items@.len(),
            iv == item_views(items@),
            walk_ready(items@, paths@, parents@),
            has_last ==> last_kid < n && is_kid(iv[last_kid as int], parent@) && !kid_from(
                iv,
                parent@,
                last_kid + 1,
            ),
            !has_last ==> !kid_from(iv, parent@, 0),
            pair_views(out@) + order_from(iv, parent@, prefix@, i as int) == out0 + order_from(
                iv,
                parent@,
                prefix@,
                0,
            ),
    {
        assert(parents@[i as int]@ == parent_of(iv[i as int].node.path));
        assert(paths@[i as int]@ == iv[i as int].node.path);
        assert(iv[i as int].node.path.len() > 0);
        if eq_chars(&parents[i], parent) {
            let last = has_last && i == last_kid;
            proof {
                if !has_last {
                    lemma_kid_from(iv, parent@, 0, i as int);
                }
                if has_last && i != last_kid {
                    if i > last_kid {
                        lemma_kid_from(iv, parent@, last_kid + 1, i as int);
                    } else {
                        lemma_kid_from(iv, parent@, i + 1, last_kid as int);
                    }
                }
                assert(last == !kid_from(iv, parent@, i + 1));
            }
            let tee = ['├', '─', '─', ' '];
            let elbow = ['└', '─', '─', ' '];
            let pipe = ['│', ' ', ' ', ' '];
            let blank = [' ', ' ', ' ', ' '];
            let mut own = slice_chars(prefix, 0, prefix.len());
            let mut below = slice_chars(prefix, 0, prefix.len());
            assert(own@ =~= prefix@);
            if last {
                extend_chars(&mut own, &elbow);
                extend_chars(&mut below, &blank);
            } else {
                extend_chars(&mut own, &tee);
                extend_chars(&mut below, &pipe);
            }
            assert(own@ =~= prefix@ + if last {
                seq!['└', '─', '─', ' ']
            } else {
                seq!['├', '─', '─', ' ']
            });
            assert(below@ =~= prefix@ + if last {
                seq![' ', ' ', ' ', ' ']
            } else {
                seq!['│', ' ', ' ', ' ']
            });
            let ghost before = pair_views(out@);
            out.push((&items[i], string_of(&own)));
            assert(pair_views(out@) =~= before.push((iv[i as int], own@)));
            proof {
                lemma_parent_shorter(iv[i as int].node.path);
                lemma_max_path(iv, i as int);
            }
            order_walk(items, paths, parents, &paths[i], &below, out);
            assert(pair_views(out@) + order_from(iv, parent@, prefix@, i + 1) =~= before + order_from(
                iv,
                parent@,
                prefix@,
                i as int,
            ));
        }
    }
    assert(order_from(iv, parent@, prefix@, n as int) =~= Seq::<(ItemModel, Seq<char>)>::empty());
    assert(pair_views(out@) + Seq::<(ItemModel, Seq<char>)>::empty() =~= pair_views(out@));
}

/// Plan items in tree order with their `├── ` prefixes; top-level items sit
/// flush left, like the root line of `tree`.
pub fn tree_order<'a>(items: &'a Vec<Item>) -> (r: Vec<(&'a Item, String)>)
    requires
        forall|k: int| 0 <= k < items@.len() ==> (#[trigger] items@[k])@.node.path.len() > 0,
    ensures
        pair_views(r@) == spec_tree_order(item_views(items@)),
{
    let ghost iv = item_views(items@);
    let n = items.len();
    let mut paths: Vec<Vec<char>> = Vec::new();
    let mut parents: Vec<Vec<char>> = Vec::new();
    for i in 0..n
        invariant
            n == items@.len(),
            paths@.len() == i,
            parents@.len() == i,
            forall|k: int| 0 <= k < i ==> #[trigger] paths@[k]@ == items@[k]@.node.path,
            forall|k: int| 0 <= k < i ==> #[trigger] parents@[k]@ == parent_of(items@[k]@.node.path),
    {
        let p = chars_of(items[i].node.path.as_str());
        let q = parent_chars(&p);
        paths.push(p);
        parents.push(q);
    }
    let mut out: Vec<(&'a Item, String)> = Vec::new();
    let empty: Vec<char> = Vec::new();
    assert(pair_views(out@) + top_from(iv, 0) =~= top_from(iv, 0));
    for i in 0..n
        invariant
            n == items@.len(),
            iv == item_views(items@),
            walk_ready(items@, paths@, parents@),
            empty@ == Seq::<char>::empty(),
            pair_views(out@) + top_from(iv, i as int) == top_from(iv, 0),
    {
        assert(parents@[i as int]@ == parent_of(iv[i as int].node.path));
        if parents[i].len() == 0 {
            let ghost before = pair_views(out@);
            out.push((&items[i], String::new()));
            assert(pair_views(out@) =~= before.push((iv[i as int], Seq::<char>::empty())));
            assert(paths@[i as int]@ == iv[i as int].node.path);
            order_walk(items, &paths, &parents, &paths[i], &empty, &mut out);
            assert(pair_views(out@) + top_from(iv, i + 1) =~= before + top_from(iv, i as int));
        }
    }
    assert(pair_views(out@) + Seq::<(ItemModel, Seq<char>)>::empty() =~= pair_views(out@));
    out
}

} // verus!

verus! {

pub open spec fn digit_char(d: nat) -> char {
    ((d + 48) as u8) as char
}

/// The decimal digits of `n`.
pub open spec fn decimal(n: nat) -> Seq<char>
    decreases n,
{
    if n < 10 {
        seq![digit_char(n)]
    } else {
        decimal(n / 10).push(digit_char(n % 10))
    }
}

pub fn decimal_chars(n: usize) -> (r: Vec<char>)
    ensures
        r@ == decimal(n as nat),
    decreases n,
{
    let d = (n % 10) as u8;
    let c = (d + 48) as char;
    if n < 10 {
        let mut v: Vec<char> = Vec::new();
        v.push(c);
        assert(v@ =~= seq![digit_char(n as nat)]);
        v
    } else {
        let mut v = decimal_chars(n / 10);
        v.push(c);
        v
    }
}

/// `n`, a space and `word`, with an `s` unless `n` is one.
pub open spec fn spec_plural(n: nat, word: Seq<char>) -> Seq<char> {
    decimal(n) + seq![' '] + word + if n == 1 {
        Seq::<char>::empty()
    } else {
        seq!['s']
    }
}

pub fn plural(n: usize, word: &str) -> (s: String)
    ensures
        s@ == spec_plural(n as nat, word@),
{
    let mut v = decimal_chars(n);
    v.push(' ');
    let w = chars_of(word);
    extend_chars(&mut v, &w);
    if n != 1 {
        v.push('s');
    }
    assert(v@ =~= spec_plural(n as nat, word@));
    string_of(&v)
}

/// The counts behind the summary line of a plan.
pub struct Summary {
    /// Items to create.
    pub fresh: usize,
    /// Folders among them.
    pub folders: usize,
    /// Files among them.
    pub files: usize,
    /// Items already there.
    pub exists: usize,
    /// Items in the way of what the tree asks for, or under one.
    pub skipped: usize,
}

pub open spec fn count_where(items: Seq<ItemModel>, p: spec_fn(ItemModel) -> bool) -> nat
    decreases items.len(),
{
    if items.len() == 0 {
        0
    } else {
        count_where(items.drop_last(), p) + if p(items.last()) {
            1nat
        } else {
            0nat
        }
    }
}

pub open spec fn is_new(it: ItemModel) -> bool {
    it.status == Status::New
}

pub open spec fn is_new_folder(it: ItemModel) -> bool {
    it.status == Status::New && it.node.kind == Kind::Folder
}

pub open spec fn is_existing(it: ItemModel) -> bool {
    it.status == Status::Exists
}

pub open spec fn is_skipped(it: ItemModel) -> bool {
    it.status == Status::Conflict || it.status == Status::Blocked
}

pub proof fn lemma_count_bound(items: Seq<ItemModel>, p: spec_fn(ItemModel) -> bool)
    ensures
        count_where(items, p) <= items.len(),
    decreases items.len(),
{
    if items.len() > 0 {
        lemma_count_bound(items.drop_last(), p);
    }
}

/// The numbers that the summary line of a plan reports.
pub fn summary(items: &Vec<Item>) -> (s: Summary)
    ensures
        s.fresh == count_where(item_views(items@), |it: ItemModel| is_new(it)),
        s.folders == count_where(item_views(items@), |it: ItemModel| is_new_folder(it)),
        s.files == s.fresh - s.folders,
        s.exists == count_where(item_views(items@), |it: ItemModel| is_existing(it)),
        s.skipped == count_where(item_views(items@), |it: ItemModel| is_skipped(it)),
{
    let ghost iv = item_views(items@);
    let ghost p1 = |it: ItemModel| is_new(it);
    let ghost p2 = |it: ItemModel| is_new_folder(it);
    let ghost p3 = |it: ItemModel| is_existing(it);
    let ghost p4 = |it: ItemModel| is_skipped(it);
    let mut fresh: usize = 0;
    let mut folders: usize = 0;
    let mut exists: usize = 0;
    let mut skipped: usize = 0;
    let n = items.len();
    for i in 0..n
        invariant
            n == items@.len(),
            iv == item_views(items@),
            p1 == (|it: ItemModel| is_new(it)),
            p2 == (|it: ItemModel| is_new_folder(it)),
            p3 == (|it: ItemModel| is_existing(it)),
            p4 == (|it: ItemModel| is_skipped(it)),
            fresh == count_where(iv.take(i as int), p1),
            folders == count_where(iv.take(i as int), p2),
            exists == count_where(iv.take(i as int), p3),
            skipped == count_where(iv.take(i as int), p4),
            folders <= fresh,
    {
        let ghost t = iv.take(i + 1);
        assert(t.drop_last() =~= iv.take(i as int));
        assert(t.last() == items@[i as int]@);
        proof {
            lemma_count_bound(iv.take(i as int), p1);
            lemma_count_bound(iv.take(i as int), p2);
            lemma_count_bound(iv.take(i as int), p3);
            lemma_count_bound(iv.take(i as int), p4);
        }
        let it = &items[i];
        match it.status {
            Status::New => {
                fresh = fresh + 1;
                if it.node.kind == Kind::Folder {
                    folders = folders + 1;
                }
            },
            Status::Exists => {
                exists = exists + 1;
            },
            _ => {
                skipped = skipped + 1;
            },
        }
    }
    assert(iv.take(n as int) =~= iv);
    Summary { fresh, folders, files: fresh - folders, exists, skipped }
}

} // verus!

verus! {

/// `q` is a folder above `r`: reached from `r` by taking parents.
pub open spec fn above(q: Seq<char>, r: Seq<char>) -> bool
    decreases r.len(),
{
    if r.len() == 0 {
        false
    } else {
        proof {
            lemma_parent_shorter(r);
        }
        parent_of(r) == q || above(q, parent_of(r))
    }
}

/// The folder above `r` that sits directly in `q`, when `q` is above `r`.
pub open spec fn step_below(q: Seq<char>, r: Seq<char>) -> Seq<char>
    decreases r.len(),
{
    if r.len() == 0 || parent_of(r) == q {
        r
    } else {
        proof {
            lemma_parent_shorter(r);
        }
        step_below(q, parent_of(r))
    }
}

/// How many entries of `s` are for item `x`.
pub open spec fn occurrences(s: Seq<(ItemModel, Seq<char>)>, x: ItemModel) -> nat
    decreases s.len(),
{
    if s.len() == 0 {
        0
    } else {
        occurrences(s.drop_last(), x) + if s.last().0 == x {
            1nat
        } else {
            0nat
        }
    }
}

proof fn lemma_occurrences_concat(a: Seq<(ItemModel, Seq<char>)>, b: Seq<(ItemModel, Seq<char>)>, x: ItemModel)
    ensures
        occurrences(a + b, x) == occurrences(a, x) + occurrences(b, x),
    decreases b.len(),
{
    if b.len() == 0 {
        assert(a + b =~= a);
    } else {
        lemma_occurrences_concat(a, b.drop_last(), x);
        assert((a + b).drop_last() =~= a + b.drop_last());
    }
}

proof fn lemma_above_longer(q: Seq<char>, r: Seq<char>)
    requires
        above(q, r),
    ensures
        q.len() < r.len(),
    decreases r.len(),
{
    lemma_parent_shorter(r);
    if parent_of(r) != q {
        lemma_above_longer(q, parent_of(r));
    }
}

proof fn lemma_above_trans(a: Seq<char>, b: Seq<char>, c: Seq<char>)
    requires
        above(a, b),
        above(b, c),
    ensures
        above(a, c),
    decreases c.len(),
{
    lemma_parent_shorter(c);
    if parent_of(c) != b {
        lemma_above_trans(a, b, parent_of(c));
    }
}

proof fn lemma_step_below(q: Seq<char>, r: Seq<char>)
    requires
        above(q, r),
    ensures
        parent_of(step_below(q, r)) == q,
        step_below(q, r).len() > 0,
        step_below(q, r) == r || above(step_below(q, r), r),
    decreases r.len(),
{
    lemma_parent_shorter(r);
    if parent_of(r) != q {
        lemma_step_below(q, parent_of(r));
        let t = step_below(q, parent_of(r));
        if t != parent_of(r) {
            lemma_above_trans(t, parent_of(r), r);
        }
    }
}

/// The one folder directly in `q` that lies on the way to `r`.
proof fn lemma_step_below_unique(q: Seq<char>, r: Seq<char>, c: Seq<char>)
    requires
        above(q, r),
        parent_of(c) == q,
        c.len() > 0,
        c == r || above(c, r),
    ensures
        c == step_below(q, r),
    decreases r.len(),
{
    lemma_parent_shorter(r);
    lemma_parent_shorter(c);
    if parent_of(r) == q {
        if c != r {
            if parent_of(r) != c {
                lemma_above_longer(c, parent_of(r));
            }
        }
    } else {
        if c == r {
        } else {
            if parent_of(r) != c {
                lemma_step_below_unique(q, parent_of(r), c);
            } else {
                assert(step_below(q, parent_of(r)) == parent_of(r));
            }
        }
    }
}

/// The path of item `k`.
pub open spec fn path_at(items: Seq<ItemModel>, k: int) -> Seq<char> {
    items[k].node.path
}

/// Some item from index `i` on has path `p`.
pub open spec fn listed_from(items: Seq<ItemModel>, p: Seq<char>, i: int) -> bool {
    exists|k: int| i <= k < items.len() && #[trigger] path_at(items, k) == p
}

/// `x` is one of the items.
pub open spec fn is_item(items: Seq<ItemModel>, x: ItemModel) -> bool {
    exists|k: int| 0 <= k < items.len() && #[trigger] items[k] == x
}

/// Every item has a path, no two items share one, and the folder holding
/// each item, when it is not the target itself, is an item too: what the
/// plan of a parsed tree holds.
pub open spec fn closed_plan(items: Seq<ItemModel>) -> bool {
    &&& forall|k: int| 0 <= k < items.len() ==> (#[trigger] path_at(items, k)).len() > 0
    &&& forall|a: int, b: int|
        0 <= a < items.len() && 0 <= b < items.len() && a != b ==> #[trigger] path_at(items, a)
            != #[trigger] path_at(items, b)
    &&& forall|k: int|
        0 <= k < items.len() && parent_of(#[trigger] path_at(items, k)).len() > 0 ==> listed_from(
            items,
            parent_of(path_at(items, k)),
            0,
        )
}

proof fn lemma_above_root(r: Seq<char>)
    requires
        r.len() > 0,
    ensures
        above(Seq::empty(), r),
    decreases r.len(),
{
    lemma_parent_shorter(r);
    if parent_of(r).len() > 0 {
        lemma_above_root(parent_of(r));
    } else {
        assert(parent_of(r) =~= Seq::<char>::empty());
    }
}

/// Each folder above an item is an item.
proof fn lemma_above_is_listed(items: Seq<ItemModel>, k: int, c: Seq<char>)
    requires
        closed_plan(items),
        0 <= k < items.len(),
        c.len() > 0,
        above(c, path_at(items, k)),
    ensures
        listed_from(items, c, 0),
    decreases path_at(items, k).len(),
{
    let r = path_at(items, k);
    lemma_parent_shorter(r);
    if parent_of(r).len() > 0 {
        assert(listed_from(items, parent_of(r), 0));
        let k2 = choose|k2: int| 0 <= k2 < items.len() && #[trigger] path_at(items, k2) == parent_of(r);
        if parent_of(r) != c {
            lemma_above_is_listed(items, k2, c);
        }
    } else {
        assert(!above(c, parent_of(r)));
    }
}

proof fn lemma_order_counts(
    items: Seq<ItemModel>,
    parent: Seq<char>,
    prefix: Seq<char>,
    i: int,
    j: int,
)
    requires
        closed_plan(items),
        0 <= i,
        0 <= j < items.len(),
    ensures
        occurrences(order_from(items, parent, prefix, i), items[j]) == if above(
            parent,
            path_at(items, j),
        ) && listed_from(items, step_below(parent, path_at(items, j)), i) {
            1nat
        } else {
            0nat
        },
    decreases max_path(items) - parent.len(), items.len() - i,
{
    let pj = path_at(items, j);
    let t = step_below(parent, pj);
    if above(parent, pj) {
        lemma_step_below(parent, pj);
    }
    if i >= items.len() {
        assert(!listed_from(items, t, i));
    } else {
        let pi = path_at(items, i);
        assert(pi.len() > 0);
        assert(i != j ==> pi != pj);
        assert(i != j ==> items[i] != items[j]);
        if is_kid(items[i], parent) && pi.len() > 0 {
            let last = !kid_from(items, parent, i + 1);
            let own = prefix + if last {
                seq!['└', '─', '─', ' ']
            } else {
                seq!['├', '─', '─', ' ']
            };
            let below = prefix + if last {
                seq![' ', ' ', ' ', ' ']
            } else {
                seq!['│', ' ', ' ', ' ']
            };
            lemma_parent_shorter(pi);
            lemma_max_path(items, i);
            let head = seq![(items[i], own)];
            let mid = order_from(items, pi, below, 0);
            let rest = order_from(items, parent, prefix, i + 1);
            assert(order_from(items, parent, prefix, i) == head + mid + rest);
            lemma_occurrences_concat(head + mid, rest, items[j]);
            lemma_occurrences_concat(head, mid, items[j]);
            assert(head.drop_last() =~= Seq::<(ItemModel, Seq<char>)>::empty());
            assert(occurrences(head.drop_last(), items[j]) == 0);
            assert(occurrences(head, items[j]) == if i == j {
                1nat
            } else {
                0nat
            });
            lemma_order_counts(items, pi, below, 0, j);
            lemma_order_counts(items, parent, prefix, i + 1, j);
            if above(pi, pj) {
                lemma_step_below(pi, pj);
                if step_below(pi, pj) == pj {
                    assert(listed_from(items, pj, 0)) by {
                        assert(path_at(items, j) == pj);
                    }
                } else {
                    lemma_above_is_listed(items, j, step_below(pi, pj));
                }
            }
            if i == j {
                assert(t == pi);
                assert(listed_from(items, t, i)) by {
                    assert(path_at(items, i) == t);
                }
                if above(pi, pi) {
                    lemma_above_longer(pi, pi);
                }
                assert(!listed_from(items, t, i + 1));
            } else if above(pi, pj) {
                assert(above(parent, pi));
                lemma_above_trans(parent, pi, pj);
                lemma_step_below(parent, pj);
                lemma_step_below_unique(parent, pj, pi);
                assert(listed_from(items, t, i)) by {
                    assert(path_at(items, i) == t);
                }
                assert(!listed_from(items, t, i + 1));
            } else {
                if above(parent, pj) && t == pi {
                    assert(false);
                }
                if above(parent, pj) {
                    assert(listed_from(items, t, i) == listed_from(items, t, i + 1)) by {
                        if listed_from(items, t, i) {
                            let k = choose|k: int|
                                i <= k < items.len() && #[trigger] path_at(items, k) == t;
                            assert(k != i);
                        }
                    }
                }
            }
        } else {
            assert(order_from(items, parent, prefix, i) == order_from(items, parent, prefix, i + 1));
            lemma_order_counts(items, parent, prefix, i + 1, j);
            if above(parent, pj) {
                assert(listed_from(items, t, i) == listed_from(items, t, i + 1)) by {
                    if listed_from(items, t, i) {
                        let k = choose|k: int| i <= k < items.len() && #[trigger] path_at(items, k) == t;
                        assert(k != i);
                    }
                }
            }
        }
    }
}

proof fn lemma_top_counts(items: Seq<ItemModel>, i: int, j: int)
    requires
        closed_plan(items),
        0 <= i,
        0 <= j < items.len(),
    ensures
        occurrences(top_from(items, i), items[j]) == if listed_from(
            items,
            step_below(Seq::empty(), path_at(items, j)),
            i,
        ) {
            1nat
        } else {
            0nat
        },
    decreases items.len() - i,
{
    let pj = path_at(items, j);
    let root = Seq::<char>::empty();
    let t = step_below(root, pj);
    lemma_above_root(pj);
    lemma_step_below(root, pj);
    if i >= items.len() {
        assert(!listed_from(items, t, i));
    } else {
        let pi = path_at(items, i);
        assert(pi.len() > 0);
        assert(i != j ==> pi != pj);
        assert(i != j ==> items[i] != items[j]);
        if parent_of(pi).len() == 0 {
            assert(parent_of(pi) =~= root);
            let head = seq![(items[i], Seq::<char>::empty())];
            let mid = order_from(items, pi, Seq::empty(), 0);
            let rest = top_from(items, i + 1);
            assert(top_from(items, i) == head + mid + rest);
            lemma_occurrences_concat(head + mid, rest, items[j]);
            lemma_occurrences_concat(head, mid, items[j]);
            assert(head.drop_last() =~= Seq::<(ItemModel, Seq<char>)>::empty());
            assert(occurrences(head.drop_last(), items[j]) == 0);
            assert(occurrences(head, items[j]) == if i == j {
                1nat
            } else {
                0nat
            });
            lemma_order_counts(items, pi, Seq::empty(), 0, j);
            lemma_top_counts(items, i + 1, j);
            if above(pi, pj) {
                lemma_step_below(pi, pj);
                if step_below(pi, pj) == pj {
                    assert(listed_from(items, pj, 0)) by {
                        assert(path_at(items, j) == pj);
                    }
                } else {
                    lemma_above_is_listed(items, j, step_below(pi, pj));
                }
            }
            if i == j {
                assert(t == pi);
                assert(listed_from(items, t, i)) by {
                    assert(path_at(items, i) == t);
                }
                if above(pi, pi) {
                    lemma_above_longer(pi, pi);
                }
                assert(!listed_from(items, t, i + 1));
            } else if above(pi, pj) {
                assert(above(root, pi));
                lemma_step_below_unique(root, pj, pi);
                assert(listed_from(items, t, i)) by {
                    assert(path_at(items, i) == t);
                }
                assert(!listed_from(items, t, i + 1));
            } else {
                assert(t != pi);
                assert(listed_from(items, t, i) == listed_from(items, t, i + 1)) by {
                    if listed_from(items, t, i) {
                        let k = choose|k: int| i <= k < items.len() && #[trigger] path_at(items, k) == t;
                        assert(k != i);
                    }
                }
            }
        } else {
            assert(top_from(items, i) == top_from(items, i + 1));
            lemma_top_counts(items, i + 1, j);
            assert(listed_from(items, t, i) == listed_from(items, t, i + 1)) by {
                if listed_from(items, t, i) {
                    let k = choose|k: int| i <= k < items.len() && #[trigger] path_at(items, k) == t;
                    assert(k != i);
                }
            }
        }
    }
}

proof fn lemma_order_entries(items: Seq<ItemModel>, parent: Seq<char>, prefix: Seq<char>, i: int)
    ensures
        forall|p: int|
            0 <= p < order_from(items, parent, prefix, i).len() ==> is_item(
                items,
                #[trigger] order_from(items, parent, prefix, i)[p].0,
            ),
    decreases max_path(items) - parent.len(), items.len() - i,
{
    if 0 <= i < items.len() {
        let pi = items[i].node.path;
        if is_kid(items[i], parent) && pi.len() > 0 {
            let last = !kid_from(items, parent, i + 1);
            let own = prefix + if last {
                seq!['└', '─', '─', ' ']
            } else {
                seq!['├', '─', '─', ' ']
            };
            let below = prefix + if last {
                seq![' ', ' ', ' ', ' ']
            } else {
                seq!['│', ' ', ' ', ' ']
            };
            lemma_parent_shorter(pi);
            lemma_max_path(items, i);
            lemma_order_entries(items, pi, below, 0);
            lemma_order_entries(items, parent, prefix, i + 1);
            let head = seq![(items[i], own)];
            let mid = order_from(items, pi, below, 0);
            let rest = order_from(items, parent, prefix, i + 1);
            let all = order_from(items, parent, prefix, i);
            assert(all == head + mid + rest);
            assert forall|p: int| 0 <= p < all.len() implies is_item(items, #[trigger] all[p].0) by {
                if p == 0 {
                    assert(items[i] == all[p].0);
                } else if p < 1 + mid.len() {
                    assert(all[p] == mid[p - 1]);
                } else {
                    assert(all[p] == rest[p - 1 - mid.len()]);
                }
            }
        } else {
            lemma_order_entries(items, parent, prefix, i + 1);
            assert(order_from(items, parent, prefix, i) == order_from(items, parent, prefix, i + 1));
        }
    }
}

proof fn lemma_top_entries(items: Seq<ItemModel>, i: int)
    ensures
        forall|p: int|
            0 <= p < top_from(items, i).len() ==> is_item(items, #[trigger] top_from(items, i)[p].0),
    decreases items.len() - i,
{
    if 0 <= i < items.len() {
        let pi = items[i].node.path;
        lemma_top_entries(items, i + 1);
        if parent_of(pi).len() != 0 {
            assert(top_from(items, i) == top_from(items, i + 1));
        } else {
            lemma_order_entries(items, pi, Seq::empty(), 0);
            let head = seq![(items[i], Seq::<char>::empty())];
            let mid = order_from(items, pi, Seq::empty(), 0);
            let rest = top_from(items, i + 1);
            let all = top_from(items, i);
            assert(all == head + mid + rest);
            assert forall|p: int| 0 <= p < all.len() implies is_item(items, #[trigger] all[p].0) by {
                if p == 0 {
                    assert(items[i] == all[p].0);
                } else if p < 1 + mid.len() {
                    assert(all[p] == mid[p - 1]);
                } else {
                    assert(all[p] == rest[p - 1 - mid.len()]);
                }
            }
        }
    }
}

/// Entry `p` of `out` is item `x`, and what follows it is `block`.
pub open spec fn heads_block(
    out: Seq<(ItemModel, Seq<char>)>,
    p: int,
    x: ItemModel,
    block: Seq<(ItemModel, Seq<char>)>,
) -> bool {
    0 <= p && p + 1 + block.len() <= out.len() && out[p].0 == x && out.subrange(
        p + 1,
        p + 1 + block.len(),
    ) == block
}

proof fn lemma_heads_block_shift(
    a: Seq<(ItemModel, Seq<char>)>,
    out: Seq<(ItemModel, Seq<char>)>,
    c: Seq<(ItemModel, Seq<char>)>,
    p: int,
    x: ItemModel,
    block: Seq<(ItemModel, Seq<char>)>,
)
    requires
        heads_block(out, p, x, block),
    ensures
        heads_block(a + out + c, a.len() + p, x, block),
{
    let all = a + out + c;
    assert(all[a.len() + p] == out[p]);
    assert(all.subrange(a.len() + p + 1, a.len() + p + 1 + block.len()) =~= out.subrange(
        p + 1,
        p + 1 + block.len(),
    ));
}

proof fn lemma_order_blocks(
    items: Seq<ItemModel>,
    parent: Seq<char>,
    prefix: Seq<char>,
    i: int,
    j: int,
)
    requires
        closed_plan(items),
        0 <= i,
        0 <= j < items.len(),
        above(parent, path_at(items, j)),
        listed_from(items, step_below(parent, path_at(items, j)), i),
    ensures
        exists|p: int, b: Seq<char>|
            #[trigger] heads_block(
                order_from(items, parent, prefix, i),
                p,
                items[j],
                order_from(items, path_at(items, j), b, 0),
            ),
    decreases max_path(items) - parent.len(), items.len() - i,
{
    let pj = path_at(items, j);
    let t = step_below(parent, pj);
    lemma_step_below(parent, pj);
    let pi = path_at(items, i);
    assert(i < items.len());
    assert(pi.len() > 0);
    let empty = Seq::<(ItemModel, Seq<char>)>::empty();
    if is_kid(items[i], parent) && pi.len() > 0 {
        let last = !kid_from(items, parent, i + 1);
        let own = prefix + if last {
            seq!['└', '─', '─', ' ']
        } else {
            seq!['├', '─', '─', ' ']
        };
        let below = prefix + if last {
            seq![' ', ' ', ' ', ' ']
        } else {
            seq!['│', ' ', ' ', ' ']
        };
        lemma_parent_shorter(pi);
        lemma_max_path(items, i);
        let head = seq![(items[i], own)];
        let mid = order_from(items, pi, below, 0);
        let rest = order_from(items, parent, prefix, i + 1);
        let all = order_from(items, parent, prefix, i);
        assert(all == head + mid + rest);
        if t == pi {
            if i != j {
                if pj == pi {
                    assert(false);
                }
                // then pi is above pj
                lemma_above_is_listed(items, j, pi);
                if step_below(pi, pj) == pj {
                    assert(listed_from(items, pj, 0)) by {
                        assert(path_at(items, j) == pj);
                    }
                } else {
                    lemma_step_below(pi, pj);
                    lemma_above_is_listed(items, j, step_below(pi, pj));
                }
                lemma_step_below(pi, pj);
                lemma_order_blocks(items, pi, below, 0, j);
                let (p, b) = choose|p: int, b: Seq<char>|
                    #[trigger] heads_block(mid, p, items[j], order_from(items, pj, b, 0));
                lemma_heads_block_shift(head, mid, rest, p, items[j], order_from(items, pj, b, 0));
                assert(head + mid + rest == all);
                assert(heads_block(all, 1 + p, items[j], order_from(items, pj, b, 0)));
            } else {
                assert(items[i] == items[j]);
                assert(all[0] == (items[i], own));
                assert(all.subrange(1, 1 + mid.len() as int) =~= mid);
                assert(heads_block(all, 0, items[j], order_from(items, pj, below, 0)));
            }
        } else {
            assert(listed_from(items, t, i + 1)) by {
                let k = choose|k: int| i <= k < items.len() && #[trigger] path_at(items, k) == t;
                assert(k != i);
            }
            lemma_order_blocks(items, parent, prefix, i + 1, j);
            let (p, b) = choose|p: int, b: Seq<char>|
                #[trigger] heads_block(rest, p, items[j], order_from(items, pj, b, 0));
            lemma_heads_block_shift(head + mid, rest, empty, p, items[j], order_from(items, pj, b, 0));
            assert(head + mid + rest + empty =~= all);
            assert(heads_block(all, (head + mid).len() + p, items[j], order_from(items, pj, b, 0)));
        }
    } else {
        assert(order_from(items, parent, prefix, i) == order_from(items, parent, prefix, i + 1));
        assert(listed_from(items, t, i + 1)) by {
            let k = choose|k: int| i <= k < items.len() && #[trigger] path_at(items, k) == t;
            if k == i {
                assert(is_kid(items[i], parent));
            }
        }
        lemma_order_blocks(items, parent, prefix, i + 1, j);
    }
}

proof fn lemma_step_listed(items: Seq<ItemModel>, q: Seq<char>, j: int)
    requires
        closed_plan(items),
        0 <= j < items.len(),
        above(q, path_at(items, j)),
    ensures
        listed_from(items, step_below(q, path_at(items, j)), 0),
{
    let pj = path_at(items, j);
    lemma_step_below(q, pj);
    if step_below(q, pj) == pj {
        assert(path_at(items, j) == pj);
    } else {
        lemma_above_is_listed(items, j, step_below(q, pj));
    }
}

proof fn lemma_top_blocks(items: Seq<ItemModel>, i: int, j: int)
    requires
        closed_plan(items),
        0 <= i,
        0 <= j < items.len(),
        listed_from(items, step_below(Seq::empty(), path_at(items, j)), i),
    ensures
        exists|p: int, b: Seq<char>|
            #[trigger] heads_block(top_from(items, i), p, items[j], order_from(items, path_at(items, j), b, 0)),
    decreases items.len() - i,
{
    let root = Seq::<char>::empty();
    let pj = path_at(items, j);
    lemma_above_root(pj);
    lemma_step_below(root, pj);
    let t = step_below(root, pj);
    let pi = path_at(items, i);
    assert(i < items.len());
    let empty = Seq::<(ItemModel, Seq<char>)>::empty();
    if parent_of(pi).len() == 0 {
        assert(parent_of(pi) =~= root);
        let head = seq![(items[i], Seq::<char>::empty())];
        let mid = order_from(items, pi, Seq::empty(), 0);
        let rest = top_from(items, i + 1);
        let all = top_from(items, i);
        assert(all == head + mid + rest);
        if t == pi {
            if i != j {
                if pj == pi {
                    assert(false);
                }
                lemma_step_listed(items, pi, j);
                lemma_order_blocks(items, pi, Seq::empty(), 0, j);
                let (p, b) = choose|p: int, b: Seq<char>|
                    #[trigger] heads_block(mid, p, items[j], order_from(items, pj, b, 0));
                lemma_heads_block_shift(head, mid, rest, p, items[j], order_from(items, pj, b, 0));
                assert(heads_block(all, 1 + p, items[j], order_from(items, pj, b, 0)));
            } else {
                assert(all[0] == (items[i], Seq::<char>::empty()));
                assert(all.subrange(1, 1 + mid.len() as int) =~= mid);
                assert(heads_block(all, 0, items[j], order_from(items, pj, Seq::empty(), 0)));
            }
        } else {
            assert(listed_from(items, t, i + 1)) by {
                let k = choose|k: int| i <= k < items.len() && #[trigger] path_at(items, k) == t;
                assert(k != i);
            }
            lemma_top_blocks(items, i + 1, j);
            let (p, b) = choose|p: int, b: Seq<char>|
                #[trigger] heads_block(rest, p, items[j], order_from(items, pj, b, 0));
            lemma_heads_block_shift(head + mid, rest, empty, p, items[j], order_from(items, pj, b, 0));
            assert(head + mid + rest + empty =~= all);
            assert(heads_block(all, (head + mid).len() + p, items[j], order_from(items, pj, b, 0)));
        }
    } else {
        assert(top_from(items, i) == top_from(items, i + 1));
        assert(listed_from(items, t, i + 1)) by {
            let k = choose|k: int| i <= k < items.len() && #[trigger] path_at(items, k) == t;
            if k == i {
                assert(parent_of(t) == root);
            }
        }
        lemma_top_blocks(items, i + 1, j);
    }
}

/// In tree order each item comes with what lies under it right after it, as
/// one block: the block holds each item below it (by its folders) exactly
/// once and no other item, so every subtree is contiguous and every item
/// comes after the folders it sits in.
pub proof fn tree_order_keeps_subtrees_together(items: Seq<ItemModel>, j: int)
    requires
        closed_plan(items),
        0 <= j < items.len(),
    ensures
        exists|p: int, b: Seq<char>|
            #[trigger] heads_block(
                spec_tree_order(items),
                p,
                items[j],
                order_from(items, path_at(items, j), b, 0),
            ),
        forall|b: Seq<char>, k: int|
            0 <= k < items.len() ==> #[trigger] occurrences(
                order_from(items, path_at(items, j), b, 0),
                items[k],
            ) == if above(path_at(items, j), path_at(items, k)) {
                1nat
            } else {
                0nat
            },
{
    lemma_above_root(path_at(items, j));
    lemma_step_listed(items, Seq::empty(), j);
    lemma_top_blocks(items, 0, j);
    let (p, b) = choose|p: int, b: Seq<char>|
        #[trigger] heads_block(top_from(items, 0), p, items[j], order_from(items, path_at(items, j), b, 0));
    assert(spec_tree_order(items) == top_from(items, 0));
    assert(heads_block(spec_tree_order(items), p, items[j], order_from(items, path_at(items, j), b, 0)));
    assert forall|b: Seq<char>, k: int| 0 <= k < items.len() implies #[trigger] occurrences(
        order_from(items, path_at(items, j), b, 0),
        items[k],
    ) == if above(path_at(items, j), path_at(items, k)) {
        1nat
    } else {
        0nat
    } by {
        lemma_order_counts(items, path_at(items, j), b, 0, k);
        if above(path_at(items, j), path_at(items, k)) {
            lemma_step_listed(items, path_at(items, j), k);
        }
    }
}

/// The glyph that ends item `i`'s prefix: `└── ` when no later item sits in
/// the same folder, else `├── `.
pub open spec fn branch_mark(items: Seq<ItemModel>, i: int) -> Seq<char> {
    if kid_from(items, parent_of(path_at(items, i)), i + 1) {
        seq!['├', '─', '─', ' ']
    } else {
        seq!['└', '─', '─', ' ']
    }
}

/// `pre` is the right prefix for item `i`: empty for a top-level item, else
/// ending in its branch mark.
pub open spec fn prefix_fits(items: Seq<ItemModel>, i: int, pre: Seq<char>) -> bool {
    if parent_of(path_at(items, i)).len() == 0 {
        pre.len() == 0
    } else {
        pre.len() >= 4 && pre.subrange(pre.len() - 4, pre.len() as int) == branch_mark(items, i)
    }
}

/// Entry `e` is some item's, with a prefix that fits it.
pub open spec fn entry_fits(items: Seq<ItemModel>, e: (ItemModel, Seq<char>)) -> bool {
    exists|k: int| 0 <= k < items.len() && #[trigger] items[k] == e.0 && prefix_fits(items, k, e.1)
}

proof fn lemma_order_prefixes(items: Seq<ItemModel>, parent: Seq<char>, prefix: Seq<char>, i: int)
    requires
        parent.len() > 0,
    ensures
        forall|p: int|
            0 <= p < order_from(items, parent, prefix, i).len() ==> entry_fits(
                items,
                #[trigger] order_from(items, parent, prefix, i)[p],
            ),
    decreases max_path(items) - parent.len(), items.len() - i,
{
    if 0 <= i < items.len() {
        let pi = items[i].node.path;
        if is_kid(items[i], parent) && pi.len() > 0 {
            let last = !kid_from(items, parent, i + 1);
            let mark = if last {
                seq!['└', '─', '─', ' ']
            } else {
                seq!['├', '─', '─', ' ']
            };
            let own = prefix + mark;
            let below = prefix + if last {
                seq![' ', ' ', ' ', ' ']
            } else {
                seq!['│', ' ', ' ', ' ']
            };
            lemma_parent_shorter(pi);
            lemma_max_path(items, i);
            lemma_order_prefixes(items, pi, below, 0);
            lemma_order_prefixes(items, parent, prefix, i + 1);
            let head = seq![(items[i], own)];
            let mid = order_from(items, pi, below, 0);
            let rest = order_from(items, parent, prefix, i + 1);
            let all = order_from(items, parent, prefix, i);
            assert(all == head + mid + rest);
            assert(own.subrange(own.len() - 4, own.len() as int) =~= mark);
            assert(branch_mark(items, i) == mark);
            assert(prefix_fits(items, i, own));
            assert forall|p: int| 0 <= p < all.len() implies entry_fits(items, #[trigger] all[p]) by {
                if p == 0 {
                    assert(items[i] == all[p].0);
                } else if p < 1 + mid.len() {
                    assert(all[p] == mid[p - 1]);
                } else {
                    assert(all[p] == rest[p - 1 - mid.len()]);
                }
            }
        } else {
            lemma_order_prefixes(items, parent, prefix, i + 1);
            assert(order_from(items, parent, prefix, i) == order_from(items, parent, prefix, i + 1));
        }
    }
}

proof fn lemma_top_prefixes(items: Seq<ItemModel>, i: int)
    requires
        forall|k: int| 0 <= k < items.len() ==> (#[trigger] path_at(items, k)).len() > 0,
    ensures
        forall|p: int|
            0 <= p < top_from(items, i).len() ==> entry_fits(items, #[trigger] top_from(items, i)[p]),
    decreases items.len() - i,
{
    if 0 <= i < items.len() {
        let pi = items[i].node.path;
        lemma_top_prefixes(items, i + 1);
        if parent_of(pi).len() != 0 {
            assert(top_from(items, i) == top_from(items, i + 1));
        } else {
            assert(path_at(items, i).len() > 0);
            lemma_order_prefixes(items, pi, Seq::empty(), 0);
            let head = seq![(items[i], Seq::<char>::empty())];
            let mid = order_from(items, pi, Seq::empty(), 0);
            let rest = top_from(items, i + 1);
            let all = top_from(items, i);
            assert(all == head + mid + rest);
            assert(prefix_fits(items, i, Seq::<char>::empty()));
            assert forall|p: int| 0 <= p < all.len() implies entry_fits(items, #[trigger] all[p]) by {
                if p == 0 {
                    assert(items[i] == all[p].0);
                } else if p < 1 + mid.len() {
                    assert(all[p] == mid[p - 1]);
                } else {
                    assert(all[p] == rest[p - 1 - mid.len()]);
                }
            }
        }
    }
}

/// In tree order a top-level item has no prefix, and any other item's
/// prefix ends in `└── ` when it is the last item of its folder (no later
/// item sits in the same folder), else in `├── `.
pub proof fn tree_order_marks_last_entries(items: Seq<ItemModel>)
    requires
        forall|k: int| 0 <= k < items.len() ==> (#[trigger] path_at(items, k)).len() > 0,
    ensures
        forall|p: int|
            0 <= p < spec_tree_order(items).len() ==> entry_fits(
                items,
                #[trigger] spec_tree_order(items)[p],
            ),
{
    lemma_top_prefixes(items, 0);
}

proof fn lemma_occurs_somewhere(s: Seq<(ItemModel, Seq<char>)>, x: ItemModel)
    requires
        occurrences(s, x) > 0,
    ensures
        exists|p: int| 0 <= p < s.len() && (#[trigger] s[p]).0 == x,
    decreases s.len(),
{
    if s.len() > 0 {
        if s.last().0 == x {
            assert(s[s.len() - 1].0 == x);
        } else {
            lemma_occurs_somewhere(s.drop_last(), x);
            let p = choose|p: int| 0 <= p < s.drop_last().len() && (#[trigger] s.drop_last()[p]).0 == x;
            assert(s[p] == s.drop_last()[p]);
        }
    }
}

/// Entry `x` comes before entry `y` in `s`.
pub open spec fn comes_before(s: Seq<(ItemModel, Seq<char>)>, x: ItemModel, y: ItemModel) -> bool {
    exists|p: int, q: int| 0 <= p < q < s.len() && (#[trigger] s[p]).0 == x && (#[trigger] s[q]).0 == y
}

proof fn lemma_comes_before_shift(
    a: Seq<(ItemModel, Seq<char>)>,
    s: Seq<(ItemModel, Seq<char>)>,
    c: Seq<(ItemModel, Seq<char>)>,
    x: ItemModel,
    y: ItemModel,
)
    requires
        comes_before(s, x, y),
    ensures
        comes_before(a + s + c, x, y),
{
    let (p, q) = choose|p: int, q: int|
        0 <= p < q < s.len() && (#[trigger] s[p]).0 == x && (#[trigger] s[q]).0 == y;
    let all = a + s + c;
    assert(all[a.len() + p] == s[p]);
    assert(all[a.len() + q] == s[q]);
}

proof fn lemma_order_siblings(
    items: Seq<ItemModel>,
    parent: Seq<char>,
    prefix: Seq<char>,
    i: int,
    a: int,
    b: int,
)
    requires
        closed_plan(items),
        0 <= i <= a < b < items.len(),
        parent_of(path_at(items, a)) == parent,
        parent_of(path_at(items, b)) == parent,
    ensures
        comes_before(order_from(items, parent, prefix, i), items[a], items[b]),
    decreases a - i,
{
    let pi = path_at(items, i);
    let empty = Seq::<(ItemModel, Seq<char>)>::empty();
    let rest = order_from(items, parent, prefix, i + 1);
    if is_kid(items[i], parent) && pi.len() > 0 {
        let last = !kid_from(items, parent, i + 1);
        let own = prefix + if last {
            seq!['└', '─', '─', ' ']
        } else {
            seq!['├', '─', '─', ' ']
        };
        let below = prefix + if last {
            seq![' ', ' ', ' ', ' ']
        } else {
            seq!['│', ' ', ' ', ' ']
        };
        lemma_parent_shorter(pi);
        lemma_max_path(items, i);
        let head = seq![(items[i], own)];
        let mid = order_from(items, pi, below, 0);
        let all = order_from(items, parent, prefix, i);
        assert(all == head + mid + rest);
        if i == a {
            let pb = path_at(items, b);
            assert(above(parent, pb));
            assert(step_below(parent, pb) == pb);
            assert(listed_from(items, pb, i + 1)) by {
                assert(path_at(items, b) == pb);
            }
            lemma_order_counts(items, parent, prefix, i + 1, b);
            lemma_occurs_somewhere(rest, items[b]);
            let q = choose|q: int| 0 <= q < rest.len() && (#[trigger] rest[q]).0 == items[b];
            assert(all[0] == head[0]);
            assert(all[1 + mid.len() + q] == rest[q]);
            assert(comes_before(all, items[a], items[b]));
        } else {
            lemma_order_siblings(items, parent, prefix, i + 1, a, b);
            lemma_comes_before_shift(head + mid, rest, empty, items[a], items[b]);
            assert(head + mid + rest + empty =~= all);
        }
    } else {
        assert(i != a) by {
            assert(path_at(items, a).len() > 0);
        }
        assert(order_from(items, parent, prefix, i) == rest);
        lemma_order_siblings(items, parent, prefix, i + 1, a, b);
    }
}

proof fn lemma_top_siblings(items: Seq<ItemModel>, i: int, a: int, b: int)
    requires
        closed_plan(items),
        0 <= i <= a < b < items.len(),
        parent_of(path_at(items, a)).len() == 0,
        parent_of(path_at(items, b)).len() == 0,
    ensures
        comes_before(top_from(items, i), items[a], items[b]),
    decreases a - i,
{
    let root = Seq::<char>::empty();
    let pi = path_at(items, i);
    let empty = Seq::<(ItemModel, Seq<char>)>::empty();
    let rest = top_from(items, i + 1);
    if parent_of(pi).len() == 0 {
        let head = seq![(items[i], Seq::<char>::empty())];
        let mid = order_from(items, pi, Seq::empty(), 0);
        let all = top_from(items, i);
        assert(all == head + mid + rest);
        if i == a {
            let pb = path_at(items, b);
            assert(parent_of(pb) =~= root);
            lemma_above_root(pb);
            assert(step_below(root, pb) == pb);
            assert(listed_from(items, pb, i + 1)) by {
                assert(path_at(items, b) == pb);
            }
            lemma_top_counts(items, i + 1, b);
            lemma_occurs_somewhere(rest, items[b]);
            let q = choose|q: int| 0 <= q < rest.len() && (#[trigger] rest[q]).0 == items[b];
            assert(all[0] == head[0]);
            assert(all[1 + mid.len() + q] == rest[q]);
            assert(comes_before(all, items[a], items[b]));
        } else {
            lemma_top_siblings(items, i + 1, a, b);
            lemma_comes_before_shift(head + mid, rest, empty, items[a], items[b]);
            assert(head + mid + rest + empty =~= all);
        }
    } else {
        assert(top_from(items, i) == rest);
        lemma_top_siblings(items, i + 1, a, b);
    }
}

/// Tree order keeps the order of the items of each folder: of two items in
/// the same folder, the earlier in the plan comes first.
pub proof fn tree_order_keeps_siblings_in_order(items: Seq<ItemModel>, a: int, b: int)
    requires
        closed_plan(items),
        0 <= a < b < items.len(),
        parent_of(path_at(items, a)) == parent_of(path_at(items, b)),
    ensures
        comes_before(spec_tree_order(items), items[a], items[b]),
{
    let q = parent_of(path_at(items, a));
    if q.len() == 0 {
        lemma_top_siblings(items, 0, a, b);
    } else {
        assert(listed_from(items, q, 0));
        let c = choose|c: int| 0 <= c < items.len() && #[trigger] path_at(items, c) == q;
        tree_order_keeps_subtrees_together(items, c);
        let (p, bp) = choose|p: int, bp: Seq<char>|
            #[trigger] heads_block(spec_tree_order(items), p, items[c], order_from(items, path_at(items, c), bp, 0));
        let block = order_from(items, q, bp, 0);
        lemma_order_siblings(items, q, bp, 0, a, b);
        let out = spec_tree_order(items);
        let (x, y) = choose|x: int, y: int|
            0 <= x < y < block.len() && (#[trigger] block[x]).0 == items[a] && (#[trigger] block[y]).0 == items[b];
        assert(out.subrange(p + 1, p + 1 + block.len()) == block);
        assert(out[p + 1 + x] == block[x]);
        assert(out[p + 1 + y] == block[y]);
    }
}

/// Tree order loses and repeats nothing: when every item has a path of its
/// own and the folder holding each item is an item too (as in the plan of a
/// parsed tree), each item appears exactly once, and nothing else appears.
pub proof fn tree_order_lists_each_item_once(items: Seq<ItemModel>)
    requires
        closed_plan(items),
    ensures
        forall|j: int|
            0 <= j < items.len() ==> occurrences(spec_tree_order(items), #[trigger] items[j]) == 1,
        forall|p: int|
            0 <= p < spec_tree_order(items).len() ==> is_item(
                items,
                #[trigger] spec_tree_order(items)[p].0,
            ),
{
    assert forall|j: int| 0 <= j < items.len() implies occurrences(
        spec_tree_order(items),
        #[trigger] items[j],
    ) == 1 by {
        let pj = path_at(items, j);
        let root = Seq::<char>::empty();
        lemma_top_counts(items, 0, j);
        lemma_above_root(pj);
        lemma_step_below(root, pj);
        let t = step_below(root, pj);
        if t == pj {
            assert(listed_from(items, t, 0)) by {
                assert(path_at(items, j) == t);
            }
        } else {
            lemma_above_is_listed(items, j, t);
        }
    }
    lemma_top_entries(items, 0);
}

}  // verus!

verus! {

/// What building does once the plan is shown.
#[derive(Debug, Clone, Copy, PartialEq, Eq, Structural)]
pub enum Action {
    /// A dry run: report what would be created, write nothing.
    Preview,
    /// Everything exists already: nothing to do.
    Nothing,
    /// Ask before creating anything.
    Ask,
    /// Create what is new.
    Apply,
}

/// A dry run writes nothing; with nothing new there is nothing to do; else
/// ask first when asked to, or create.
pub open spec fn spec_next_action(dry_run: bool, fresh: nat, interactive: bool) -> Action {
    if dry_run {
        Action::Preview
    } else if fresh == 0 {
        Action::Nothing
    } else if interactive {
        Action::Ask
    } else {
        Action::Apply
    }
}

pub fn next_action(dry_run: bool, fresh: usize, interactive: bool) -> (a: Action)
    ensures
        a == spec_next_action(dry_run, fresh as nat, interactive),
{
    if dry_run {
        Action::Preview
    } else if fresh == 0 {
        Action::Nothing
    } else if interactive {
        Action::Ask
    } else {
        Action::Apply
    }
}

/// Whether an answer to the question before building says yes: `y` or
/// `yes` in any case, around whitespace.
pub fn confirmed(answer: &str) -> (b: bool)
    ensures
        b == (lowercase(trim(answer@)) == "y"@ || lowercase(trim(answer@)) == "yes"@),
{
    let a = chars_of(answer);
    let t = trimmed(&a);
    let ts = string_of(&t);
    let low = lowercased(ts.as_str());
    let l = chars_of(low.as_str());
    let y = chars_of("y");
    let yes = chars_of("yes");
    eq_chars(&l, &y) || eq_chars(&l, &yes)
}

/// The mark in front of a plan item.
pub open spec fn spec_status_mark(s: Status) -> char {
    match s {
        Status::New => '+',
        Status::Exists => '=',
        Status::Conflict => '✗',
        Status::Blocked => '-',
    }
}

pub fn status_mark(s: Status) -> (c: char)
    ensures
        c == spec_status_mark(s),
{
    match s {
        Status::New => '+',
        Status::Exists => '=',
        Status::Conflict => '✗',
        Status::Blocked => '-',
    }
}

/// The note after a plan item: none for what is new; a conflict names what
/// is in the way (a file where a folder goes, or a folder where a file goes).
pub open spec fn spec_status_note(s: Status, folder: bool) -> Seq<char> {
    match s {
        Status::New => Seq::empty(),
        Status::Exists => "  exists"@,
        Status::Conflict => if folder {
            "  a file with this name is in the way"@
        } else {
            "  a folder with this name is in the way"@
        },
        Status::Blocked => "  blocked by the conflict above"@,
    }
}

pub fn status_note(s: Status, folder: bool) -> (t: String)
    ensures
        t@ == spec_status_note(s, folder),
{
    match s {
        Status::New => String::new(),
        Status::Exists => String::from_str("  exists"),
        Status::Conflict => if folder {
            String::from_str("  a file with this name is in the way")
        } else {
            String::from_str("  a folder with this name is in the way")
        },
        Status::Blocked => String::from_str("  blocked by the conflict above"),
    }
}

/// A plan item's name as shown: folders get a trailing `/`.
pub fn item_label(item: &Item) -> (s: String)
    ensures
        s@ == if item.node.kind == Kind::Folder {
            item@.node.name.push('/')
        } else {
            item@.node.name
        },
{
    let mut v = chars_of(item.node.name.as_str());
    if item.node.kind == Kind::Folder {
        v.push('/');
    }
    string_of(&v)
}

} // verus!
