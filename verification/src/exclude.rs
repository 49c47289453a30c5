//! What a folder scan leaves out, and the decisions it takes for each entry
//! that the walk meets: the exclude patterns (the user's, then the default
//! ones unless everything is asked for), matching names against them with
//! `globset`, and when to stop.

use vstd::prelude::*;

use crate::text::{chars_of, extend_chars, string_of};
use crate::ui::{decimal, decimal_chars};

verus! {

#[verifier::external_type_specification]
#[verifier::external_body]
pub struct ExGlob(globset::Glob);

#[verifier::external_type_specification]
#[verifier::external_body]
pub struct ExGlobSet(globset::GlobSet);

#[verifier::external_type_specification]
#[verifier::external_body]
pub struct ExGlobSetBuilder(globset::GlobSetBuilder);

#[verifier::external_type_specification]
#[verifier::external_body]
pub struct ExGlobError(globset::Error);

/// Whether `globset::Glob::new` accepts a pattern: it depends on the
/// pattern alone.
pub uninterp spec fn glob_ok(pattern: Seq<char>) -> bool;

/// Whether a set built from `patterns` matches `name`
/// (`globset::GlobSet::is_match`): true when any of the patterns matches it.
pub uninterp spec fn glob_match(patterns: Seq<Seq<char>>, name: Seq<char>) -> bool;

/// The pattern text a `globset::Glob` was made from (`Glob::glob`).
pub uninterp spec fn glob_text(g: globset::Glob) -> Seq<char>;

/// The pattern texts of the globs added to a `globset::GlobSetBuilder`, in
/// the order added.
pub uninterp spec fn builder_globs(b: globset::GlobSetBuilder) -> Seq<Seq<char>>;

/// The pattern texts of the globs a `globset::GlobSet` was built from.
pub uninterp spec fn set_globs(s: globset::GlobSet) -> Seq<Seq<char>>;

/// Whether `globset` can build one set from globs with these texts
/// (`GlobSetBuilder::build`); it fails only when their regular expressions
/// together pass a fixed size limit, which depends on the texts alone.
pub uninterp spec fn set_builds(patterns: Seq<Seq<char>>) -> bool;

/// `globset::Glob::new`: the pattern compiled, or why it is refused. A glob
/// keeps the text it was made from.
#[verifier::external_body]
fn new_glob(pattern: &str) -> (r: Result<globset::Glob, globset::Error>)
    ensures
        r is Ok <==> glob_ok(pattern@),
        r matches Ok(g) ==> glob_text(g) == pattern@,
{
    globset::Glob::new(pattern)
}

/// `globset::GlobSetBuilder::new`: a builder with no globs.
#[verifier::external_body]
fn new_builder() -> (b: globset::GlobSetBuilder)
    ensures
        builder_globs(b) == Seq::<Seq<char>>::empty(),
{
    globset::GlobSetBuilder::new()
}

/// `globset::GlobSetBuilder::add`: the glob goes after those added before.
#[verifier::external_body]
fn add_glob(b: &mut globset::GlobSetBuilder, g: globset::Glob)
    ensures
        builder_globs(*final(b)) == builder_globs(*old(b)).push(glob_text(g)),
{
    b.add(g);
}

/// `globset::GlobSetBuilder::build`: one set from the globs added. It
/// succeeds exactly when `set_builds` holds of their texts, always when
/// none were added, and the set is built from those globs.
#[verifier::external_body]
fn build_set(b: &globset::GlobSetBuilder) -> (r: Result<globset::GlobSet, globset::Error>)
    ensures
        r is Ok <==> set_builds(builder_globs(*b)),
        builder_globs(*b).len() == 0 ==> r is Ok,
        r matches Ok(s) ==> set_globs(s) == builder_globs(*b),
{
    b.build()
}

/// The text of a `globset::Error` (its `Display`); what it says is not
/// stated.
#[verifier::external_body]
fn error_text(e: &globset::Error) -> (s: String) {
    e.to_string()
}

/// The default patterns: build output and tool folders that no tree wants.
pub open spec fn default_excludes() -> Seq<Seq<char>> {
    seq![
        "node_modules"@,
        "target"@,
        "__pycache__"@,
        ".git"@,
        ".DS_Store"@,
        "Thumbs.db"@,
    ]
}

pub open spec fn string_views(v: Seq<String>) -> Seq<Seq<char>> {
    Seq::new(v.len(), |i: int| v[i]@)
}

/// The patterns a scan leaves out: the user's, then the default ones unless
/// everything is asked for.
pub fn exclude_patterns(exclude: &Vec<String>, all: bool) -> (r: Vec<String>)
    ensures
        string_views(r@) == string_views(exclude@) + if all {
            Seq::<Seq<char>>::empty()
        } else {
            default_excludes()
        },
{
    let mut r: Vec<String> = Vec::new();
    let n = exclude.len();
    for i in 0..n
        invariant
            n == exclude@.len(),
            r@.len() == i,
            forall|k: int| 0 <= k < i ==> #[trigger] r@[k]@ == exclude@[k]@,
    {
        r.push(exclude[i].clone());
    }
    assert(string_views(r@) =~= string_views(exclude@));
    if !all {
        let ghost before = string_views(r@);
        r.push(String::from_str("node_modules"));
        r.push(String::from_str("target"));
        r.push(String::from_str("__pycache__"));
        r.push(String::from_str(".git"));
        r.push(String::from_str(".DS_Store"));
        r.push(String::from_str("Thumbs.db"));
        assert(string_views(r@) =~= before + default_excludes());
    } else {
        assert(string_views(r@) =~= string_views(r@) + Seq::<Seq<char>>::empty());
    }
    r
}

/// Compiled exclude patterns.
#[derive(Debug)]
pub struct Excludes {
    set: globset::GlobSet,
}

impl Excludes {
    /// The patterns the set was built from.
    pub closed spec fn patterns(&self) -> Seq<Seq<char>> {
        set_globs(self.set)
    }
}

/// Why the exclude patterns could not be compiled.
#[derive(Debug)]
pub struct GlobFault {
    /// The first pattern that `globset` refuses, by index; `None` when each
    /// pattern compiles but the set of them does not.
    pub pattern: Option<usize>,
    /// What `globset` says.
    pub detail: String,
}

/// Each pattern compiles (`globset::Glob::new` accepts it).
pub open spec fn all_globs_ok(pv: Seq<Seq<char>>) -> bool {
    forall|k: int| 0 <= k < pv.len() ==> glob_ok(#[trigger] pv[k])
}

/// The patterns compiled into one set. Refused with the index of the first
/// pattern that `globset` refuses, when there is one; else refused without
/// an index exactly when `globset` cannot build the set; else the set of
/// exactly these patterns.
pub fn compile_excludes(patterns: &Vec<String>) -> (r: Result<Excludes, GlobFault>)
    ensures
        r is Ok <==> all_globs_ok(string_views(patterns@)) && set_builds(string_views(patterns@)),
        r matches Err(f) ==> match f.pattern {
            Some(i) => i < patterns@.len() && !glob_ok(patterns@[i as int]@) && forall|k: int|
                0 <= k < i ==> glob_ok(#[trigger] patterns@[k]@),
            None => all_globs_ok(string_views(patterns@)) && !set_builds(string_views(patterns@)),
        },
        r matches Ok(ex) ==> ex.patterns() == string_views(patterns@),
{
    let ghost pv = string_views(patterns@);
    let mut b = new_builder();
    let n = patterns.len();
    for i in 0..n
        invariant
            n == patterns@.len(),
            pv == string_views(patterns@),
            builder_globs(b) == pv.take(i as int),
            forall|k: int| 0 <= k < i ==> glob_ok(#[trigger] patterns@[k]@),
    {
        match new_glob(patterns[i].as_str()) {
            Ok(g) => {
                add_glob(&mut b, g);
                assert(pv.take(i + 1) =~= pv.take(i as int).push(pv[i as int]));
            },
            Err(e) => {
                assert(!all_globs_ok(pv)) by {
                    assert(!glob_ok(pv[i as int]));
                }
                return Err(GlobFault { pattern: Some(i), detail: error_text(&e) });
            },
        }
    }
    assert(pv.take(n as int) =~= pv);
    assert(all_globs_ok(pv)) by {
        assert forall|k: int| 0 <= k < pv.len() implies glob_ok(#[trigger] pv[k]) by {
            assert(pv[k] == patterns@[k]@);
        }
    }
    match build_set(&b) {
        Ok(set) => Ok(Excludes { set }),
        Err(e) => Err(GlobFault { pattern: None, detail: error_text(&e) }),
    }
}

/// Whether a name matches one of the globs the set was built from
/// (`globset::GlobSet::is_match`); a set built from none matches nothing.
#[verifier::external_body]
fn set_matches(set: &globset::GlobSet, name: &str) -> (b: bool)
    ensures
        b == glob_match(set_globs(*set), name@),
        set_globs(*set).len() == 0 ==> !b,
{
    set.is_match(name)
}

fn is_excluded(ex: &Excludes, name: &str) -> (b: bool)
    ensures
        b == glob_match(ex.patterns(), name@),
        ex.patterns().len() == 0 ==> !b,
{
    set_matches(&ex.set, name)
}

/// What the walk does with an entry it meets.
#[derive(Debug, Clone, Copy, PartialEq, Eq, Structural)]
pub enum Visit {
    /// Go on: list it, and look inside if it is a folder.
    Keep,
    /// Leave it out, and report its name as left out.
    Exclude,
    /// Leave it out silently: it is the tree file being written.
    Skip,
}

/// The walk's filter: the scanned folder itself is always kept; an entry
/// whose name matches an exclude pattern is left out and reported; the tree
/// file being written is left out; anything else is kept.
pub open spec fn spec_visit(depth: usize, matched: bool, is_output: bool) -> Visit {
    if depth == 0 {
        Visit::Keep
    } else if matched {
        Visit::Exclude
    } else if is_output {
        Visit::Skip
    } else {
        Visit::Keep
    }
}

/// The filter's decision, given whether the name matched.
pub fn visit(depth: usize, matched: bool, is_output: bool) -> (v: Visit)
    ensures
        v == spec_visit(depth, matched, is_output),
{
    if depth == 0 {
        Visit::Keep
    } else if matched {
        Visit::Exclude
    } else if is_output {
        Visit::Skip
    } else {
        Visit::Keep
    }
}

/// The filter's decision for an entry named `name` at `depth`: the name is
/// matched against the patterns below the scanned folder only.
pub fn visit_entry(ex: &Excludes, depth: usize, name: &str, is_output: bool) -> (v: Visit)
    ensures
        v == spec_visit(depth, depth > 0 && glob_match(ex.patterns(), name@), is_output),
{
    if depth == 0 {
        return Visit::Keep;
    }
    let matched = is_excluded(ex, name);
    visit(depth, matched, is_output)
}

/// What becomes of an entry the filter kept.
#[derive(Debug, Clone, Copy, PartialEq, Eq, Structural)]
pub enum Take {
    /// The scanned folder itself: not an entry of its own tree.
    Pass,
    /// Record it.
    Record,
    /// The cap is reached: stop the walk and say the tree was cut short.
    Stop,
}

/// The walk records entries below the scanned folder until `max_entries` of
/// them are found, and stops at the next one.
pub fn take(depth: usize, found: usize, max_entries: usize) -> (t: Take)
    ensures
        depth == 0 ==> t == Take::Pass,
        depth > 0 && found >= max_entries ==> t == Take::Stop,
        depth > 0 && found < max_entries ==> t == Take::Record,
{
    if depth == 0 {
        Take::Pass
    } else if found >= max_entries {
        Take::Stop
    } else {
        Take::Record
    }
}

/// The pieces joined with `sep` between them.
pub open spec fn join_with(pieces: Seq<Seq<char>>, sep: Seq<char>) -> Seq<char>
    decreases pieces.len(),
{
    if pieces.len() == 0 {
        Seq::empty()
    } else if pieces.len() == 1 {
        pieces[0]
    } else {
        join_with(pieces.drop_last(), sep) + sep + pieces.last()
    }
}

/// The note after a scan that left names out, when it did.
pub open spec fn spec_left_out_note(names: Seq<Seq<char>>) -> Option<Seq<char>> {
    if names.len() == 0 {
        None
    } else {
        Some("left out "@ + join_with(names, ", "@) + " - use --all to include"@)
    }
}

/// The note saying which names the excludes left out (in the order given),
/// or none when nothing was left out.
pub fn left_out_note(names: &Vec<String>) -> (r: Option<String>)
    ensures
        match r {
            Some(s) => spec_left_out_note(string_views(names@)) == Some(s@),
            None => spec_left_out_note(string_views(names@)) is None,
        },
{
    let n = names.len();
    if n == 0 {
        return None;
    }
    let ghost nv = string_views(names@);
    let head = "left out ";
    let sep = ", ";
    let tail = " - use --all to include";
    proof {
        reveal_strlit("left out ");
        reveal_strlit(", ");
        reveal_strlit(" - use --all to include");
    }
    let mut v: Vec<char> = Vec::new();
    let sepc = chars_of(sep);
    let first = chars_of(names[0].as_str());
    extend_chars(&mut v, &first);
    assert(nv.take(1) =~= seq![nv[0]]);
    assert(v@ == join_with(nv.take(1), sep@));
    for i in 1..n
        invariant
            1 <= n == names@.len(),
            nv == string_views(names@),
            sepc@ == sep@,
            v@ == join_with(nv.take(i as int), sep@),
    {
        extend_chars(&mut v, &sepc);
        let w = chars_of(names[i].as_str());
        extend_chars(&mut v, &w);
        assert(nv.take(i + 1).drop_last() =~= nv.take(i as int));
        assert(nv.take(i + 1).last() == nv[i as int]);
    }
    assert(nv.take(n as int) =~= nv);
    let mut out: Vec<char> = chars_of(head);
    extend_chars(&mut out, &v);
    let t = chars_of(tail);
    extend_chars(&mut out, &t);
    Some(string_of(&out))
}

/// The note after a scan cut short at `max_entries` entries.
pub fn truncated_note(max_entries: usize) -> (s: String)
    ensures
        s@ == "stopped after "@ + decimal(max_entries as nat)
            + " entries - narrow it with --depth or --exclude"@,
{
    proof {
        reveal_strlit("stopped after ");
        reveal_strlit(" entries - narrow it with --depth or --exclude");
    }
    let mut v = chars_of("stopped after ");
    let d = decimal_chars(max_entries);
    extend_chars(&mut v, &d);
    let t = chars_of(" entries - narrow it with --depth or --exclude");
    extend_chars(&mut v, &t);
    string_of(&v)
}

} // verus!
