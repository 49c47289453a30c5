use tre::parser::{self, Kind};
use tre::render::{label, lines, render, Listing, Style};

fn demo() -> Listing {
    let mut l = Listing::folder(
        "demo",
        vec![
            Listing::folder("tests", vec![Listing::file("test_main.py")]),
            Listing::file("readme.md"),
            Listing::folder(
                "src",
                vec![Listing::file("main.py"), Listing::folder("utils", vec![Listing::file("helper.py")])],
            ),
        ],
    );
    l.sort();
    l
}

#[test]
fn unicode_output() {
    assert_eq!(
        render(&demo(), Style::Unicode),
        "demo/\n├── src/\n│   ├── utils/\n│   │   └── helper.py\n│   └── main.py\n├── tests/\n│   └── test_main.py\n└── readme.md\n"
    );
    assert_eq!(demo().counts(), (3, 4));
}

#[test]
fn every_style_round_trips_through_the_parser() {
    for style in [Style::Unicode, Style::Ascii, Style::Indent] {
        let mut got: Vec<String> = parser::parse(&render(&demo(), style))
            .nodes
            .into_iter()
            .map(|n| if n.kind == Kind::Folder { n.path + "/" } else { n.path })
            .collect();
        got.sort();
        assert_eq!(got.len(), 8, "{style:?}");
        assert!(got.contains(&"demo/src/utils/helper.py".to_string()), "{style:?}");
    }
}

#[test]
fn sort_puts_folders_first_then_names_without_case() {
    let mut l = Listing::folder(
        "r",
        vec![Listing::file("B.txt"), Listing::file("a.txt"), Listing::folder("Z", vec![]), Listing::folder("y", vec![])],
    );
    l.sort();
    let got: Vec<&str> = l.children.as_ref().unwrap().iter().map(|c| c.name.as_str()).collect();
    assert_eq!(got, ["y", "Z", "a.txt", "B.txt"]);
}

#[test]
fn sort_keeps_the_order_of_equal_names() {
    let mut l = Listing::folder("r", vec![Listing::file("README"), Listing::file("readme"), Listing::file("Readme")]);
    l.sort();
    let got: Vec<&str> = l.children.as_ref().unwrap().iter().map(|c| c.name.as_str()).collect();
    assert_eq!(got, ["README", "readme", "Readme"]);
}

#[test]
fn sorting_twice_changes_nothing() {
    let mut once = demo();
    once.sort();
    assert_eq!(render(&once, Style::Ascii), render(&demo(), Style::Ascii));
}

#[test]
fn ascii_and_indent_output() {
    assert_eq!(
        render(&demo(), Style::Ascii),
        "demo/\n|-- src/\n|   |-- utils/\n|   |   `-- helper.py\n|   `-- main.py\n|-- tests/\n|   `-- test_main.py\n`-- readme.md\n"
    );
    assert_eq!(
        render(&demo(), Style::Indent),
        "demo/\n  src/\n    utils/\n      helper.py\n    main.py\n  tests/\n    test_main.py\n  readme.md\n"
    );
}

#[test]
fn one_line_for_each_entry() {
    let d = demo();
    let (folders, files) = d.counts();
    for style in [Style::Unicode, Style::Ascii, Style::Indent] {
        assert_eq!(lines(&d, style).len(), 1 + folders + files);
        assert_eq!(render(&d, style).lines().count(), 1 + folders + files);
    }
}

#[test]
fn lines_carry_relative_paths() {
    let d = demo();
    let got: Vec<String> = lines(&d, Style::Unicode).into_iter().map(|l| l.rel_path).collect();
    assert_eq!(got, ["", "src", "src/utils", "src/utils/helper.py", "src/main.py", "tests", "tests/test_main.py", "readme.md"]);
}

#[test]
fn labels_mark_folders() {
    assert_eq!(label(&Listing::folder("x", vec![])), "x/");
    assert_eq!(label(&Listing::file("x")), "x");
    assert!(Listing::folder("x", vec![]).is_folder());
    assert!(!Listing::file("x").is_folder());
    assert_eq!(Listing::file("x").counts(), (0, 0));
}

#[test]
fn a_drawn_tree_reads_back_as_the_same_entries() {
    let d = demo();
    for style in [Style::Unicode, Style::Ascii, Style::Indent] {
        let got: Vec<(String, usize)> = parser::parse(&render(&d, style))
            .nodes
            .into_iter()
            .map(|n| (if n.kind == Kind::Folder { n.path + "/" } else { n.path }, n.depth))
            .collect();
        assert_eq!(
            got,
            [
                ("demo/".to_string(), 0),
                ("demo/src/".to_string(), 1),
                ("demo/src/utils/".to_string(), 2),
                ("demo/src/utils/helper.py".to_string(), 3),
                ("demo/src/main.py".to_string(), 2),
                ("demo/tests/".to_string(), 1),
                ("demo/tests/test_main.py".to_string(), 2),
                ("demo/readme.md".to_string(), 1),
            ],
            "{style:?}"
        );
    }
}
