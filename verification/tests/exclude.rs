use tre::exclude::{
    compile_excludes, exclude_patterns, left_out_note, take, truncated_note, visit, visit_entry, Take, Visit,
};

fn strings(v: &[&str]) -> Vec<String> {
    v.iter().map(|s| s.to_string()).collect()
}

#[test]
fn default_excludes_unless_all() {
    let user = strings(&["*.log"]);
    assert_eq!(
        exclude_patterns(&user, false),
        strings(&["*.log", "node_modules", "target", "__pycache__", ".git", ".DS_Store", "Thumbs.db"])
    );
    assert_eq!(exclude_patterns(&user, true), strings(&["*.log"]));
}

#[test]
fn patterns_match_names_below_the_root() {
    let ex = compile_excludes(&exclude_patterns(&strings(&["*.log"]), false)).unwrap();
    assert_eq!(visit_entry(&ex, 1, "debug.log", false), Visit::Exclude);
    assert_eq!(visit_entry(&ex, 2, "node_modules", false), Visit::Exclude);
    assert_eq!(visit_entry(&ex, 1, "main.rs", false), Visit::Keep);
    assert_eq!(visit_entry(&ex, 1, "plan.tre", true), Visit::Skip);
    assert_eq!(visit_entry(&ex, 0, "target", false), Visit::Keep);
}

#[test]
fn an_empty_set_matches_nothing() {
    let ex = compile_excludes(&Vec::new()).unwrap();
    assert_eq!(visit_entry(&ex, 1, "anything", false), Visit::Keep);
}

#[test]
fn a_bad_pattern_is_named_by_its_index() {
    let err = compile_excludes(&strings(&["*.rs", "a[", "b["])).unwrap_err();
    assert_eq!(err.pattern, Some(1));
    assert!(!err.detail.is_empty());
}

#[test]
fn visit_decisions() {
    assert_eq!(visit(0, true, true), Visit::Keep);
    assert_eq!(visit(1, true, true), Visit::Exclude);
    assert_eq!(visit(1, false, true), Visit::Skip);
    assert_eq!(visit(1, false, false), Visit::Keep);
}

#[test]
fn the_walk_stops_at_the_cap() {
    assert_eq!(take(0, 5, 5), Take::Pass);
    assert_eq!(take(1, 4, 5), Take::Record);
    assert_eq!(take(3, 5, 5), Take::Stop);
}

#[test]
fn notes_after_a_scan() {
    assert_eq!(left_out_note(&Vec::new()), None);
    assert_eq!(
        left_out_note(&strings(&[".git", "target"])),
        Some("left out .git, target - use --all to include".to_string())
    );
    assert_eq!(truncated_note(50_000), "stopped after 50000 entries - narrow it with --depth or --exclude");
}
