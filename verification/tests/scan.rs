use tre::render::Listing;
use tre::scan::{build, display_name, Found};

fn found(parts: &[&str], is_dir: bool) -> Found {
    Found { parts: parts.iter().map(|s| s.to_string()).collect(), is_dir }
}

fn names(ls: &[Listing]) -> Vec<String> {
    ls.iter()
        .map(|l| match &l.children {
            Some(cs) => format!("{}/({})", l.name, names(cs).join(",")),
            None => l.name.clone(),
        })
        .collect()
}

#[test]
fn display_name_takes_the_last_component() {
    assert_eq!(display_name(Some("/home/u/proj")), "proj");
    assert_eq!(display_name(Some("/home/u/proj/")), "proj");
}

#[test]
fn display_name_drops_dots() {
    assert_eq!(display_name(Some("/home/u/proj/..")), "u");
    assert_eq!(display_name(Some("/home/./x/.")), "x");
    assert_eq!(display_name(Some("/a/b/../../c/d/..")), "c");
}

#[test]
fn display_name_of_the_filesystem_root() {
    assert_eq!(display_name(Some("/")), "root");
    assert_eq!(display_name(Some("/..")), "root");
    assert_eq!(display_name(None), "root");
}

#[test]
fn build_nests_what_was_found() {
    let f = vec![
        found(&["a"], true),
        found(&["a", "b.txt"], false),
        found(&["a", "c"], true),
        found(&["a", "c", "d.txt"], false),
        found(&["e.txt"], false),
        found(&["f"], true),
    ];
    assert_eq!(names(&build(&f, &Vec::new())), ["a/(b.txt,c/(d.txt))", "e.txt", "f/()"]);
    assert_eq!(names(&build(&f, &vec!["a".to_string()])), ["b.txt", "c/(d.txt)"]);
}

#[test]
fn build_finds_children_listed_before_their_folder() {
    let f = vec![found(&["a", "b.txt"], false), found(&["c.txt"], false), found(&["a"], true)];
    assert_eq!(names(&build(&f, &Vec::new())), ["c.txt", "a/(b.txt)"]);
}
