//! What a folder scan computes once the walk is done: the name shown for the
//! scanned folder, and the nested listing built from the paths found.

use vstd::prelude::*;

use crate::render::{Listing, ListingModel, model, models, lemma_models};
use crate::text::{chars_of, split_where, string_of, slice_chars, views};

verus! {

/// The components that remain of a `/`-separated path once empty and `.`
/// components are dropped and each `..` takes away the component before it.
pub open spec fn clean_components(pieces: Seq<Seq<char>>) -> Seq<Seq<char>>
    decreases pieces.len(),
{
    if pieces.len() == 0 {
        Seq::empty()
    } else {
        let prev = clean_components(pieces.drop_last());
        let p = pieces.last();
        if p.len() == 0 || p == seq!['.'] {
            prev
        } else if p == seq!['.', '.'] {
            if prev.len() > 0 {
                prev.drop_last()
            } else {
                prev
            }
        } else {
            prev.push(p)
        }
    }
}

/// The name of the folder at an absolute path: its last component once `.`
/// and `..` are resolved, or `root` when there is none (or no absolute path
/// could be had).
pub open spec fn spec_display_name(absolute: Option<Seq<char>>) -> Seq<char> {
    match absolute {
        Some(p) => {
            let c = clean_components(split_where(p, |ch: char| ch == '/'));
            if c.len() == 0 {
                "root"@
            } else {
                c.last()
            }
        },
        None => "root"@,
    }
}

fn step_component(comps: &mut Vec<Vec<char>>, piece: Vec<char>)
    ensures
        views(final(comps)@) == {
            let prev = views(old(comps)@);
            let p = piece@;
            if p.len() == 0 || p == seq!['.'] {
                prev
            } else if p == seq!['.', '.'] {
                if prev.len() > 0 {
                    prev.drop_last()
                } else {
                    prev
                }
            } else {
                prev.push(p)
            }
        },
{
    let ghost prev = views(comps@);
    let ghost p = piece@;
    let dot = piece.len() == 1 && piece[0] == '.';
    let dotdot = piece.len() == 2 && piece[0] == '.' && piece[1] == '.';
    assert(dot == (p == seq!['.'])) by {
        if p == seq!['.'] {
            assert(p[0] == '.');
        }
        if dot {
            assert(p =~= seq!['.']);
        }
    }
    assert(dotdot == (p == seq!['.', '.'])) by {
        if p == seq!['.', '.'] {
            assert(p[0] == '.' && p[1] == '.');
        }
        if dotdot {
            assert(p =~= seq!['.', '.']);
        }
    }
    if piece.len() == 0 || dot {
    } else if dotdot {
        if comps.len() > 0 {
            comps.pop();
            assert(views(comps@) =~= prev.drop_last());
        }
    } else {
        comps.push(piece);
        assert(views(comps@) =~= prev.push(p));
    }
}

/// The name shown for a scanned folder, given its absolute path.
pub fn display_name(absolute: Option<&str>) -> (name: String)
    ensures
        name@ == spec_display_name(
            match absolute {
                Some(p) => Some(p@),
                None => None,
            },
        ),
{
    match absolute {
        None => String::from_str("root"),
        Some(path) => {
            let chars = chars_of(path);
            let ghost sep = |ch: char| ch == '/';
            let mut comps: Vec<Vec<char>> = Vec::new();
            let mut cur: Vec<char> = Vec::new();
            let n = chars.len();
            for i in 0..n
                invariant
                    n == chars@.len(),
                    sep == (|ch: char| ch == '/'),
                    split_where(chars@.take(i as int), sep).len() >= 1,
                    views(comps@) == clean_components(split_where(chars@.take(i as int), sep).drop_last()),
                    cur@ == split_where(chars@.take(i as int), sep).last(),
            {
                let ghost prev = split_where(chars@.take(i as int), sep);
                let c = chars[i];
                assert(chars@.take(i + 1).drop_last() =~= chars@.take(i as int));
                assert(chars@.take(i + 1).last() == c);
                if c == '/' {
                    assert(prev.drop_last().push(prev.last()).drop_last() =~= prev.drop_last());
                    assert(prev.drop_last().push(prev.last()) =~= prev);
                    assert(split_where(chars@.take(i + 1), sep).drop_last() =~= prev);
                    step_component(&mut comps, cur);
                    cur = Vec::new();
                } else {
                    cur.push(c);
                    assert(split_where(chars@.take(i + 1), sep).drop_last() =~= prev.drop_last());
                }
            }
            let ghost ps = split_where(chars@.take(n as int), sep);
            assert(chars@.take(n as int) =~= chars@);
            assert(ps.drop_last().push(ps.last()).drop_last() =~= ps.drop_last());
            assert(ps.drop_last().push(ps.last()) =~= ps);
            step_component(&mut comps, cur);
            if comps.len() == 0 {
                String::from_str("root")
            } else {
                let last = &comps[comps.len() - 1];
                string_of(last)
            }
        },
    }
}

} // verus!

verus! {

/// A path found by the walk, as its components relative to the scanned
/// folder, and whether it is a folder.
pub struct Found {
    pub parts: Vec<String>,
    pub is_dir: bool,
}

pub struct FoundModel {
    pub parts: Seq<Seq<char>>,
    pub is_dir: bool,
}

pub open spec fn string_views(v: Seq<String>) -> Seq<Seq<char>> {
    Seq::new(v.len(), |i: int| v[i]@)
}

impl View for Found {
    type V = FoundModel;

    open spec fn view(&self) -> FoundModel {
        FoundModel { parts: string_views(self.parts@), is_dir: self.is_dir }
    }
}

pub open spec fn found_views(v: Seq<Found>) -> Seq<FoundModel> {
    Seq::new(v.len(), |i: int| v[i]@)
}

/// The most components any found path has.
pub open spec fn max_parts(f: Seq<FoundModel>) -> nat
    decreases f.len(),
{
    if f.len() == 0 {
        0
    } else {
        let m = max_parts(f.drop_last());
        if f.last().parts.len() > m {
            f.last().parts.len()
        } else {
            m
        }
    }
}

pub proof fn lemma_max_parts(f: Seq<FoundModel>, i: int)
    requires
        0 <= i < f.len(),
    ensures
        f[i].parts.len() <= max_parts(f),
    decreases f.len(),
{
    if i < f.len() - 1 {
        lemma_max_parts(f.drop_last(), i);
    }
}

/// Whether a found path sits directly in the folder `parent`.
pub open spec fn is_child(e: FoundModel, parent: Seq<Seq<char>>) -> bool {
    e.parts.len() == parent.len() + 1 && e.parts.take(parent.len() as int) == parent
}

/// The listings of the paths from index `i` on that sit directly in
/// `parent`, in order, each folder with what sits in it.
pub open spec fn build_from(found: Seq<FoundModel>, parent: Seq<Seq<char>>, i: int) -> Seq<
    ListingModel,
>
    decreases max_parts(found) - parent.len(), found.len() - i,
{
    if i < 0 || i >= found.len() {
        Seq::empty()
    } else {
        let rest = build_from(found, parent, i + 1);
        let e = found[i];
        if is_child(e, parent) {
            let node = if e.is_dir {
                proof {
                    lemma_max_parts(found, i);
                }
                ListingModel { name: e.parts.last(), children: Some(build_from(found, e.parts, 0)) }
            } else {
                ListingModel { name: e.parts.last(), children: None }
            };
            seq![node] + rest
        } else {
            rest
        }
    }
}

fn child_of(e: &Found, parent: &Vec<String>) -> (b: bool)
    ensures
        b == is_child(e@, string_views(parent@)),
{
    let ghost pv = string_views(parent@);
    if e.parts.len() == 0 || e.parts.len() - 1 != parent.len() {
        return false;
    }
    let n = parent.len();
    for k in 0..n
        invariant
            n == parent@.len(),
            e.parts@.len() == n + 1,
            forall|j: int| 0 <= j < k ==> e.parts@[j]@ == parent@[j]@,
    {
        if e.parts[k] != parent[k] {
            assert(e@.parts.take(n as int)[k as int] != string_views(parent@)[k as int]);
            return false;
        }
    }
    assert(e@.parts.take(n as int) =~= string_views(parent@));
    true
}

/// The listings of the found paths that sit directly in `parent`, in the
/// order found, each folder holding what sits in it.
pub fn build(found: &Vec<Found>, parent: &Vec<String>) -> (r: Vec<Listing>)
    ensures
        models(r@) == build_from(found_views(found@), string_views(parent@), 0),
    decreases max_parts(found_views(found@)) - parent@.len(),
{
    let ghost fv = found_views(found@);
    let ghost pv = string_views(parent@);
    let mut out: Vec<Listing> = Vec::new();
    let n = found.len();
    assert(models(out@) =~= Seq::<ListingModel>::empty());
    assert(Seq::<ListingModel>::empty() + build_from(fv, pv, 0) =~= build_from(fv, pv, 0));
    for i in 0..n
        invariant
            n == found@.len(),
            fv == found_views(found@),
            pv == string_views(parent@),
            models(out@) + build_from(fv, pv, i as int) == build_from(fv, pv, 0),
    {
        let e = &found[i];
        assert(fv[i as int] == e@);
        if child_of(e, parent) {
            let name = e.parts[e.parts.len() - 1].clone();
            let node = if e.is_dir {
                proof {
                    lemma_max_parts(fv, i as int);
                }
                let sub = build(found, &e.parts);
                Listing { name, children: Some(sub) }
            } else {
                Listing { name, children: None }
            };
            let ghost before = models(out@);
            let ghost nm = node@;
            let ghost out0 = out@;
            out.push(node);
            assert(out@.drop_last() =~= out0);
            assert(models(out@) == before.push(nm));
            assert(models(out@) + build_from(fv, pv, i + 1) =~= before + build_from(fv, pv, i as int));
        }
    }
    assert(build_from(fv, pv, n as int) =~= Seq::<ListingModel>::empty());
    assert(models(out@) + Seq::<ListingModel>::empty() =~= models(out@));
    out
}

} // verus!

verus! {

/// Every entry of the listings as (path from the scanned folder, is a
/// folder), each folder followed by what it holds.
pub open spec fn entries_of(ms: Seq<ListingModel>, base: Seq<Seq<char>>) -> Seq<(Seq<Seq<char>>, bool)>
    decreases ms,
{
    if ms.len() == 0 {
        Seq::empty()
    } else {
        let m = ms[0];
        let here = base.push(m.name);
        let below = match m.children {
            Some(cs) => {
                proof {
                    assert(decreases_to!(ms => ms[0]));
                }
                entries_of(cs, here)
            },
            None => Seq::empty(),
        };
        proof {
            assert(decreases_to!(ms => ms.subrange(1, ms.len() as int)));
        }
        seq![(here, m.children is Some)] + below + entries_of(ms.subrange(1, ms.len() as int), base)
    }
}

/// How many entries of `s` equal `x`.
pub open spec fn times<A>(s: Seq<A>, x: A) -> nat
    decreases s.len(),
{
    if s.len() == 0 {
        0
    } else {
        times(s.drop_last(), x) + if s.last() == x {
            1nat
        } else {
            0nat
        }
    }
}

proof fn lemma_times_concat<A>(a: Seq<A>, b: Seq<A>, x: A)
    ensures
        times(a + b, x) == times(a, x) + times(b, x),
    decreases b.len(),
{
    if b.len() == 0 {
        assert(a + b =~= a);
    } else {
        lemma_times_concat(a, b.drop_last(), x);
        assert((a + b).drop_last() =~= a + b.drop_last());
    }
}

proof fn lemma_entries_concat(a: Seq<ListingModel>, b: Seq<ListingModel>, base: Seq<Seq<char>>)
    ensures
        entries_of(a + b, base) == entries_of(a, base) + entries_of(b, base),
    decreases a.len(),
{
    if a.len() == 0 {
        assert(a + b =~= b);
    } else {
        assert((a + b)[0] == a[0]);
        assert((a + b).subrange(1, (a + b).len() as int) =~= a.subrange(1, a.len() as int) + b);
        lemma_entries_concat(a.subrange(1, a.len() as int), b, base);
    }
}

/// The components of found path `k`.
pub open spec fn parts_at(found: Seq<FoundModel>, k: int) -> Seq<Seq<char>> {
    found[k].parts
}

/// Some found path from index `i` on has components `c` and is a folder.
pub open spec fn found_folder_from(found: Seq<FoundModel>, c: Seq<Seq<char>>, i: int) -> bool {
    exists|k: int| i <= k < found.len() && #[trigger] parts_at(found, k) == c && found[k].is_dir
}

/// Some found path from index `i` on has components `c`.
pub open spec fn found_from(found: Seq<FoundModel>, c: Seq<Seq<char>>, i: int) -> bool {
    exists|k: int| i <= k < found.len() && #[trigger] parts_at(found, k) == c
}

/// What a walk of a folder finds: every path has components, no path is
/// found twice, and the folder holding each path, when it is not the
/// scanned folder itself, was found as a folder.
pub open spec fn closed_walk(found: Seq<FoundModel>) -> bool {
    &&& forall|k: int| 0 <= k < found.len() ==> (#[trigger] parts_at(found, k)).len() > 0
    &&& forall|a: int, b: int|
        0 <= a < found.len() && 0 <= b < found.len() && a != b ==> #[trigger] parts_at(found, a)
            != #[trigger] parts_at(found, b)
    &&& forall|k: int|
        0 <= k < found.len() && (#[trigger] parts_at(found, k)).len() > 1 ==> found_folder_from(
            found,
            parts_at(found, k).drop_last(),
            0,
        )
}

/// `p` is a folder strictly above `q`.
pub open spec fn within(p: Seq<Seq<char>>, q: Seq<Seq<char>>) -> bool {
    p.len() < q.len() && q.take(p.len() as int) == p
}

/// Each non-empty folder above a found path was found as a folder.
proof fn lemma_within_found(found: Seq<FoundModel>, k: int, c: Seq<Seq<char>>)
    requires
        closed_walk(found),
        0 <= k < found.len(),
        c.len() > 0,
        within(c, parts_at(found, k)),
    ensures
        found_folder_from(found, c, 0),
    decreases parts_at(found, k).len(),
{
    let q = parts_at(found, k);
    let up = q.drop_last();
    assert(found_folder_from(found, up, 0));
    if up != c {
        let k2 = choose|k2: int| 0 <= k2 < found.len() && #[trigger] parts_at(found, k2) == up && found[k2].is_dir;
        assert(c.len() < up.len()) by {
            if c.len() == up.len() {
                assert(up =~= q.take(c.len() as int));
            }
        }
        assert(up.take(c.len() as int) =~= q.take(c.len() as int));
        lemma_within_found(found, k2, c);
    }
}

proof fn lemma_build_counts(found: Seq<FoundModel>, parent: Seq<Seq<char>>, i: int, j: int)
    requires
        closed_walk(found),
        0 <= i,
        0 <= j < found.len(),
    ensures
        times(entries_of(build_from(found, parent, i), parent), (parts_at(found, j), found[j].is_dir))
            == if within(parent, parts_at(found, j)) && found_from(
            found,
            parts_at(found, j).take(parent.len() as int + 1),
            i,
        ) {
            1nat
        } else {
            0nat
        },
    decreases max_parts(found) - parent.len(), found.len() - i,
{
    let pj = parts_at(found, j);
    let x = (pj, found[j].is_dir);
    let t = pj.take(parent.len() as int + 1);
    if i >= found.len() {
        assert(build_from(found, parent, i) =~= Seq::<ListingModel>::empty());
        assert(entries_of(Seq::<ListingModel>::empty(), parent) =~= Seq::<(Seq<Seq<char>>, bool)>::empty());
        assert(!found_from(found, t, i));
    } else {
        let e = found[i];
        let pi = parts_at(found, i);
        assert(pi.len() > 0);
        assert(i != j ==> pi != pj);
        let rest = build_from(found, parent, i + 1);
        lemma_build_counts(found, parent, i + 1, j);
        if is_child(e, parent) {
            assert(pi =~= parent.push(pi.last()));
            let node = if e.is_dir {
                lemma_max_parts(found, i);
                ListingModel { name: pi.last(), children: Some(build_from(found, pi, 0)) }
            } else {
                ListingModel { name: pi.last(), children: None }
            };
            assert(build_from(found, parent, i) == seq![node] + rest);
            lemma_entries_concat(seq![node], rest, parent);
            let below = match node.children {
                Some(cs) => entries_of(cs, pi),
                None => Seq::<(Seq<Seq<char>>, bool)>::empty(),
            };
            assert(seq![node].subrange(1, 1) =~= Seq::<ListingModel>::empty());
            assert(entries_of(Seq::<ListingModel>::empty(), parent) =~= Seq::<(Seq<Seq<char>>, bool)>::empty());
            assert(entries_of(seq![node], parent) =~= seq![(pi, e.is_dir)] + below);
            lemma_times_concat(seq![(pi, e.is_dir)], below, x);
            lemma_times_concat(seq![(pi, e.is_dir)] + below, entries_of(rest, parent), x);
            assert(seq![(pi, e.is_dir)].drop_last() =~= Seq::<(Seq<Seq<char>>, bool)>::empty());
            assert(times(seq![(pi, e.is_dir)].drop_last(), x) == 0);
            assert(times(seq![(pi, e.is_dir)], x) == if i == j {
                1nat
            } else {
                0nat
            });
            if e.is_dir {
                lemma_max_parts(found, i);
                lemma_build_counts(found, pi, 0, j);
                if within(pi, pj) {
                    let s = pj.take(pi.len() as int + 1);
                    if s =~= pj {
                        assert(found_from(found, s, 0)) by {
                            assert(parts_at(found, j) == s);
                        }
                    } else {
                        assert(s.len() == pi.len() + 1);
                        assert(pj.take(s.len() as int) =~= s);
                        lemma_within_found(found, j, s);
                    }
                }
            } else {
                assert(times(below, x) == 0);
                if within(pi, pj) {
                    lemma_within_found(found, j, pi);
                    assert(false);
                }
            }
            if i == j {
                assert(within(parent, pi));
                assert(t =~= pi);
                assert(found_from(found, t, i)) by {
                    assert(parts_at(found, i) == t);
                }
                assert(!found_from(found, t, i + 1));
                assert(!within(pi, pi));
            } else if within(pi, pj) {
                assert(pj.take(parent.len() as int) =~= pi.take(parent.len() as int));
                assert(within(parent, pj));
                assert(t =~= pi) by {
                    assert(pj.take(pi.len() as int) =~= pi);
                }
                assert(found_from(found, t, i)) by {
                    assert(parts_at(found, i) == t);
                }
                assert(!found_from(found, t, i + 1));
            } else {
                if within(parent, pj) && t == pi {
                    if pj.len() == parent.len() + 1 {
                        assert(pj =~= t);
                    } else {
                        assert(pj.take(pi.len() as int) =~= t);
                    }
                    assert(false);
                }
                if within(parent, pj) {
                    assert(found_from(found, t, i) == found_from(found, t, i + 1)) by {
                        if found_from(found, t, i) {
                            let k = choose|k: int| i <= k < found.len() && #[trigger] parts_at(found, k) == t;
                            assert(k != i);
                        }
                    }
                }
            }
        } else {
            assert(build_from(found, parent, i) == rest);
            if within(parent, pj) {
                assert(found_from(found, t, i) == found_from(found, t, i + 1)) by {
                    if found_from(found, t, i) {
                        let k = choose|k: int| i <= k < found.len() && #[trigger] parts_at(found, k) == t;
                        if k == i {
                            assert(t.take(parent.len() as int) =~= pj.take(parent.len() as int));
                            assert(is_child(e, parent));
                        }
                    }
                }
            }
        }
    }
}

/// `x` is one of the found paths with its kind.
pub open spec fn was_found(found: Seq<FoundModel>, x: (Seq<Seq<char>>, bool)) -> bool {
    exists|k: int| 0 <= k < found.len() && #[trigger] parts_at(found, k) == x.0 && found[k].is_dir == x.1
}

proof fn lemma_build_entries(found: Seq<FoundModel>, parent: Seq<Seq<char>>, i: int)
    ensures
        forall|p: int|
            0 <= p < entries_of(build_from(found, parent, i), parent).len() ==> was_found(
                found,
                #[trigger] entries_of(build_from(found, parent, i), parent)[p],
            ),
    decreases max_parts(found) - parent.len(), found.len() - i,
{
    if i < 0 || i >= found.len() {
        assert(build_from(found, parent, i) =~= Seq::<ListingModel>::empty());
        assert(entries_of(Seq::<ListingModel>::empty(), parent) =~= Seq::<(Seq<Seq<char>>, bool)>::empty());
    } else {
        let e = found[i];
        let pi = parts_at(found, i);
        let rest = build_from(found, parent, i + 1);
        lemma_build_entries(found, parent, i + 1);
        if is_child(e, parent) {
            assert(pi =~= parent.push(pi.last()));
            let node = if e.is_dir {
                lemma_max_parts(found, i);
                ListingModel { name: pi.last(), children: Some(build_from(found, pi, 0)) }
            } else {
                ListingModel { name: pi.last(), children: None }
            };
            assert(build_from(found, parent, i) == seq![node] + rest);
            lemma_entries_concat(seq![node], rest, parent);
            let below = match node.children {
                Some(cs) => entries_of(cs, pi),
                None => Seq::<(Seq<Seq<char>>, bool)>::empty(),
            };
            if e.is_dir {
                lemma_max_parts(found, i);
                lemma_build_entries(found, pi, 0);
            }
            assert(seq![node].subrange(1, 1) =~= Seq::<ListingModel>::empty());
            assert(entries_of(Seq::<ListingModel>::empty(), parent) =~= Seq::<(Seq<Seq<char>>, bool)>::empty());
            assert(entries_of(seq![node], parent) =~= seq![(pi, e.is_dir)] + below);
            let all = entries_of(build_from(found, parent, i), parent);
            let r = entries_of(rest, parent);
            assert(all =~= seq![(pi, e.is_dir)] + below + r);
            assert forall|p: int| 0 <= p < all.len() implies was_found(found, #[trigger] all[p]) by {
                if p == 0 {
                    assert(parts_at(found, i) == all[p].0);
                } else if p < 1 + below.len() {
                    assert(all[p] == below[p - 1]);
                } else {
                    assert(all[p] == r[p - 1 - below.len()]);
                }
            }
        } else {
            assert(build_from(found, parent, i) == rest);
        }
    }
}

/// A scan's listing holds what the walk found, each path once, in its folder
/// and with its kind, and nothing else: whenever the walk found every folder
/// on the way to what it found, and nothing twice.
pub proof fn scan_lists_each_found_path_once(found: Seq<FoundModel>)
    requires
        closed_walk(found),
    ensures
        forall|j: int|
            0 <= j < found.len() ==> times(
                entries_of(build_from(found, Seq::empty(), 0), Seq::empty()),
                (#[trigger] parts_at(found, j), found[j].is_dir),
            ) == 1,
        forall|p: int|
            0 <= p < entries_of(build_from(found, Seq::empty(), 0), Seq::empty()).len() ==> was_found(
                found,
                #[trigger] entries_of(build_from(found, Seq::empty(), 0), Seq::empty())[p],
            ),
{
    let root = Seq::<Seq<char>>::empty();
    assert forall|j: int| 0 <= j < found.len() implies times(
        entries_of(build_from(found, root, 0), root),
        (#[trigger] parts_at(found, j), found[j].is_dir),
    ) == 1 by {
        let pj = parts_at(found, j);
        lemma_build_counts(found, root, 0, j);
        assert(pj.take(0) =~= root);
        let s = pj.take(1);
        if s =~= pj {
            assert(found_from(found, s, 0)) by {
                assert(parts_at(found, j) == s);
            }
        } else {
            assert(pj.take(s.len() as int) =~= s);
            lemma_within_found(found, j, s);
        }
    }
    lemma_build_entries(found, root, 0);
}

/// Naming a scanned folder resolves its path lexically: a `.` component, or a
/// component followed by `..`, changes nothing, and nor does an empty one
/// (a doubled or trailing `/`).
pub proof fn display_name_resolves_dots(pieces: Seq<Seq<char>>, x: Seq<char>)
    requires
        x.len() > 0,
        x != seq!['.'],
        x != seq!['.', '.'],
    ensures
        clean_components(pieces.push(seq!['.'])) == clean_components(pieces),
        clean_components(pieces.push(Seq::empty())) == clean_components(pieces),
        clean_components(pieces.push(x).push(seq!['.', '.'])) == clean_components(pieces),
        clean_components(pieces.push(x)) == clean_components(pieces).push(x),
{
    assert(pieces.push(x).push(seq!['.', '.']).drop_last() =~= pieces.push(x));
    assert(pieces.push(x).drop_last() =~= pieces);
    assert(pieces.push(seq!['.']).drop_last() =~= pieces);
    assert(pieces.push(Seq::<char>::empty()).drop_last() =~= pieces);
    assert(clean_components(pieces).push(x).drop_last() =~= clean_components(pieces));
    assert(clean_components(pieces.push(x)) == clean_components(pieces).push(x));
    assert(clean_components(pieces.push(x).push(seq!['.', '.'])) == clean_components(
        pieces.push(x),
    ).drop_last());
}

} // verus!

verus! {

#[verifier::external_type_specification]
#[verifier::external_body]
pub struct ExPathBuf(std::path::PathBuf);

/// How a folder is scanned.
#[derive(Debug, Default, Clone)]
pub struct Options {
    pub hidden: bool,
    pub no_ignore: bool,
    /// Also drops the default excludes.
    pub all: bool,
    pub exclude: Vec<String>,
    pub max_depth: Option<usize>,
    /// A file to leave out (the tree file being written).
    pub skip: Option<std::path::PathBuf>,
    pub max_entries: usize,
}

/// What a scan found.
pub struct Scan {
    pub root: Listing,
    /// Names the excludes left out.
    pub excluded: std::collections::BTreeSet<String>,
    /// Whether the scan stopped at its cap.
    pub truncated: bool,
}

} // verus!
