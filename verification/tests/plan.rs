use tre::parser::{parse, Kind, Node};
use tre::plan::{choose_base, plan_items, Base, OnDisk, Status};

fn statuses(text: &str, disk: &[OnDisk]) -> Vec<(String, Status)> {
    let nodes = parse(text).nodes;
    assert_eq!(nodes.len(), disk.len());
    plan_items(&nodes, &disk.to_vec())
        .unwrap()
        .into_iter()
        .map(|i| (i.node.path, i.status))
        .collect()
}

#[test]
fn statuses_follow_the_disk() {
    let got = statuses(
        "a/\n  b.txt\n  c/\n    d.txt\n  e.txt\n",
        &[OnDisk::Folder, OnDisk::Missing, OnDisk::Other, OnDisk::Missing, OnDisk::Other],
    );
    assert_eq!(
        got,
        [
            ("a".to_string(), Status::Exists),
            ("a/b.txt".to_string(), Status::New),
            ("a/c".to_string(), Status::Conflict),
            ("a/c/d.txt".to_string(), Status::Blocked),
            ("a/e.txt".to_string(), Status::Exists),
        ]
    );
}

#[test]
fn a_folder_where_a_file_goes_is_a_conflict() {
    let got = statuses("x.txt\n", &[OnDisk::Folder]);
    assert_eq!(got, [("x.txt".to_string(), Status::Conflict)]);
}

#[test]
fn nothing_on_disk_is_ever_overwritten() {
    // whatever is on disk, an item is new only where nothing is there
    let text = "a/\n  b.txt\n  c/\n";
    for d0 in [OnDisk::Missing, OnDisk::Folder, OnDisk::Other] {
        for d1 in [OnDisk::Missing, OnDisk::Folder, OnDisk::Other] {
            for d2 in [OnDisk::Missing, OnDisk::Folder, OnDisk::Other] {
                let disk = [d0, d1, d2];
                for (k, (_, s)) in statuses(text, &disk).into_iter().enumerate() {
                    if s == Status::New {
                        assert_eq!(disk[k], OnDisk::Missing);
                    }
                }
            }
        }
    }
}

#[test]
fn a_sibling_with_a_longer_name_is_not_blocked() {
    let got = statuses("a/\nab/\n  x.txt\n", &[OnDisk::Other, OnDisk::Missing, OnDisk::Missing]);
    assert_eq!(
        got,
        [
            ("a".to_string(), Status::Conflict),
            ("ab".to_string(), Status::New),
            ("ab/x.txt".to_string(), Status::New),
        ]
    );
}

#[test]
fn a_climbing_path_is_refused() {
    let node = |path: &str, kind| Node { path: path.to_string(), name: "x".to_string(), kind, line: None, depth: 0 };
    let nodes = vec![node("a", Kind::Folder), node("a/../../x", Kind::File)];
    let err = plan_items(&nodes, &vec![OnDisk::Missing, OnDisk::Missing]).unwrap_err();
    assert_eq!(err.path, "a/../../x");
}

#[test]
fn where_a_tree_is_built() {
    let rooted = parse("demo/\n  a.txt\n  b/\n    c.txt\n").nodes;
    let loose = parse("a.txt\nb/\n  c.txt\n").nodes;
    let one_file = parse("a.txt\n").nodes;
    assert_eq!(choose_base(&rooted, false, true), Base::Here);
    assert_eq!(choose_base(&loose, false, true), Base::Stem);
    assert_eq!(choose_base(&one_file, false, true), Base::Stem);
    assert_eq!(choose_base(&loose, false, false), Base::Here);
    assert_eq!(choose_base(&rooted, true, true), Base::Out);
    assert_eq!(choose_base(&loose, true, false), Base::Out);
}
