use tre::parser::parse;
use tre::plan::{plan_items, OnDisk};
use tre::plan::Status;
use tre::ui::{confirmed, item_label, next_action, plural, status_mark, status_note, summary, tree_order, Action};

#[test]
fn plural_words() {
    assert_eq!(plural(0, "folder"), "0 folders");
    assert_eq!(plural(1, "file"), "1 file");
    assert_eq!(plural(12, "file"), "12 files");
    assert_eq!(plural(1005, "folder"), "1005 folders");
}

#[test]
fn tree_order_regroups_repeated_folders() {
    let nodes = parse("a/\n  x.txt\nb/\n  y.txt\na/\n  z.txt\n").nodes;
    let disk = vec![OnDisk::Missing; nodes.len()];
    let items = plan_items(&nodes, &disk).unwrap();
    let got: Vec<(String, String)> =
        tree_order(&items).into_iter().map(|(i, p)| (i.node.path.clone(), p)).collect();
    assert_eq!(
        got,
        [
            ("a".to_string(), String::new()),
            ("a/x.txt".to_string(), "├── ".to_string()),
            ("a/z.txt".to_string(), "└── ".to_string()),
            ("b".to_string(), String::new()),
            ("b/y.txt".to_string(), "└── ".to_string()),
        ]
    );
}

#[test]
fn tree_order_nests_prefixes() {
    let nodes = parse("r/\n  a/\n    b.txt\n  c.txt\n").nodes;
    let disk = vec![OnDisk::Missing; nodes.len()];
    let items = plan_items(&nodes, &disk).unwrap();
    let got: Vec<String> = tree_order(&items).into_iter().map(|(_, p)| p).collect();
    assert_eq!(got, ["", "├── ", "│   └── ", "└── "]);
}

#[test]
fn summary_counts_each_status() {
    let nodes = parse("a/\n  b.txt\n  c/\n    d.txt\n  e/\n  f.txt\n").nodes;
    let disk = vec![OnDisk::Folder, OnDisk::Missing, OnDisk::Other, OnDisk::Missing, OnDisk::Missing, OnDisk::Other];
    let items = plan_items(&nodes, &disk).unwrap();
    let s = summary(&items);
    assert_eq!((s.fresh, s.folders, s.files, s.exists, s.skipped), (2, 1, 1, 2, 2));
}

#[test]
fn what_building_does_next() {
    assert_eq!(next_action(true, 3, true), Action::Preview);
    assert_eq!(next_action(false, 0, true), Action::Nothing);
    assert_eq!(next_action(false, 2, true), Action::Ask);
    assert_eq!(next_action(false, 2, false), Action::Apply);
}

#[test]
fn answers_that_say_yes() {
    assert!(confirmed("y\n"));
    assert!(confirmed("  YES \n"));
    assert!(confirmed("Yes"));
    assert!(!confirmed("n\n"));
    assert!(!confirmed("yess"));
    assert!(!confirmed(""));
}

#[test]
fn marks_notes_and_labels() {
    assert_eq!(status_mark(Status::New), '+');
    assert_eq!(status_mark(Status::Conflict), '✗');
    assert_eq!(status_note(Status::Conflict, true), "  a file with this name is in the way");
    assert_eq!(status_note(Status::Conflict, false), "  a folder with this name is in the way");
    assert_eq!(status_note(Status::New, false), "");
    let nodes = parse("a/\n  b.txt\n").nodes;
    let items = plan_items(&nodes, &vec![OnDisk::Missing; 2]).unwrap();
    assert_eq!(item_label(&items[0]), "a/");
    assert_eq!(item_label(&items[1]), "b.txt");
}
