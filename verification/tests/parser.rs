use tre::line::prefix_len;
use tre::parser::{is_noise, parse, Kind};

fn paths(text: &str) -> Vec<String> {
    parse(text)
        .nodes
        .into_iter()
        .map(|n| if n.kind == Kind::Folder { n.path + "/" } else { n.path })
        .collect()
}

const DEMO: &[&str] = &[
    "demo/",
    "demo/readme.md",
    "demo/src/",
    "demo/src/main.py",
    "demo/src/utils/",
    "demo/src/utils/helper.py",
    "demo/tests/",
    "demo/tests/test_main.py",
];

#[test]
fn two_space_indentation() {
    assert_eq!(
        paths("demo/\n  readme.md\n  src/\n    main.py\n    utils/\n      helper.py\n  tests/\n    test_main.py\n"),
        DEMO
    );
}

#[test]
fn four_spaces_tabs_and_crlf() {
    assert_eq!(
        paths(
            "demo/\r\n    readme.md\r\n    src/\r\n        main.py\r\n        utils/\r\n            helper.py\r\n    tests/\r\n        test_main.py"
        ),
        DEMO
    );
    assert_eq!(
        paths("demo/\n\treadme.md\n\tsrc/\n\t\tmain.py\n\t\tutils/\n\t\t\thelper.py\n\ttests/\n\t\ttest_main.py"),
        DEMO
    );
}

#[test]
fn example_file_with_every_kind_of_note() {
    let text = [
        "# a plan for the demo project\n",
        "demo/                 # the project root\n",
        "├── readme.md  the readme\n",
        "├── src/ <- sources\n",
        "│   ├── main.py // entry point\n",
        "│   └── utils/ ← helpers\n",
        "│       └── helper.py → shared code\n",
        "└── tests/ --> tests\n",
        "    └── test_main.py   # runs main\n",
    ]
    .concat();
    assert_eq!(paths(&text), DEMO);
}

#[test]
fn hyphens_and_plus_signs_keep_nesting() {
    assert_eq!(
        paths("app/\n  my-lib/\n    index.ts\n  read-me.md\n  routes/\n    +page.svelte\n"),
        ["app/", "app/my-lib/", "app/my-lib/index.ts", "app/read-me.md", "app/routes/", "app/routes/+page.svelte"]
    );
}

#[test]
fn spaces_and_parentheses_in_names() {
    assert_eq!(
        paths("app/\n  file (1).txt\n  My Documents/\n    a b.md\n"),
        ["app/", "app/file (1).txt", "app/My Documents/", "app/My Documents/a b.md"]
    );
}

#[test]
fn blank_lines_inside_a_tree() {
    assert_eq!(paths("app/\n  a.txt\n\n  b.txt\n"), ["app/", "app/a.txt", "app/b.txt"]);
}

#[test]
fn windows_tree_ascii() {
    let text = "Folder PATH listing for volume OS\nVolume serial number is 1234-ABCD\nC:.\n|   notes.txt\n|\n+---src\n|       main.py\n|\n\\---tests\n        t.py";
    assert_eq!(paths(text), ["notes.txt", "src/", "src/main.py", "tests/", "tests/t.py"]);
}

#[test]
fn windows_tree_unicode() {
    let text = "C:.\n│   notes.txt\n│\n├───src\n│       main.py\n└───tests\n        t.py";
    assert_eq!(paths(text), ["notes.txt", "src/", "src/main.py", "tests/", "tests/t.py"]);
}

#[test]
fn unix_tree_output() {
    assert_eq!(
        paths(".\n├── Makefile\n└── src\n    └── main.c\n\n1 directory, 2 files"),
        ["Makefile", "src/", "src/main.c"]
    );
}

#[test]
fn extensionless_files_stay_files() {
    assert_eq!(
        paths("proj/\n  Dockerfile\n  LICENSE\n  .gitignore\n"),
        ["proj/", "proj/Dockerfile", "proj/LICENSE", "proj/.gitignore"]
    );
}

#[test]
fn markdown_bullets_with_backticks() {
    assert_eq!(
        paths("- `src/`\n  - `index.ts`\n  - lib/\n    - util.ts\n- README.md"),
        ["src/", "src/index.ts", "src/lib/", "src/lib/util.ts", "README.md"]
    );
}

#[test]
fn slash_shorthand_creates_intermediate_folders() {
    assert_eq!(
        paths("app/\n  src/components/Button.tsx\n  src/index.ts"),
        ["app/", "app/src/", "app/src/components/", "app/src/components/Button.tsx", "app/src/index.ts"]
    );
}

#[test]
fn fences_comments_and_ellipses_ignored() {
    assert_eq!(paths("```\n# a comment\napp/\n  a.txt\n  ...\n  …\n  // another\n```"), ["app/", "app/a.txt"]);
}

#[test]
fn ascii_pipe_dash_style() {
    assert_eq!(paths("app/\n|-- a/\n|   `-- b.txt\n`-- c.txt"), ["app/", "app/a/", "app/a/b.txt", "app/c.txt"]);
}

#[test]
fn npm_ls_style_glyphs() {
    assert_eq!(paths("app/\n├─┬ lib/\n│ └── x.js\n╰── y.js"), ["app/", "app/lib/", "app/lib/x.js", "app/y.js"]);
}

#[test]
fn non_breaking_spaces() {
    assert_eq!(
        paths("app/\n\u{a0}\u{a0}a.txt\n\u{a0}\u{a0}b/\n\u{a0}\u{a0}\u{a0}\u{a0}c.txt"),
        ["app/", "app/a.txt", "app/b/", "app/b/c.txt"]
    );
}

#[test]
fn traversal_and_invalid_names_rejected() {
    let r = parse("app/\n  ../evil.txt\n  bad<name>.txt\n  ok.txt");
    assert_eq!(r.nodes.iter().map(|n| n.path.as_str()).collect::<Vec<_>>(), ["app", "app/ok.txt"]);
    assert_eq!(r.problems.len(), 2);
}

#[test]
fn duplicates_collapse() {
    assert_eq!(paths("a/\n  x.txt\na/\n  x.txt\n  y.txt"), ["a/", "a/x.txt", "a/y.txt"]);
}

#[test]
fn file_with_children_becomes_folder() {
    let r = parse("app\n  main.py");
    assert_eq!(
        r.nodes.iter().map(|n| (n.path.as_str(), n.kind)).collect::<Vec<_>>(),
        [("app", Kind::Folder), ("app/main.py", Kind::File)]
    );
    assert_eq!(r.problems.len(), 1);
}

#[test]
fn noise_detection() {
    assert!(is_noise("3 directories, 5 files"));
    assert!(is_noise("1 directory"));
    assert!(!is_noise("3 directories.md"));
    assert!(!is_noise("src"));
}

#[test]
fn parsed_paths_are_safe_and_consistent() {
    let inputs = [
        "app/\n  ../evil.txt\n  ok/\n    ./x.txt\n    a//b.txt\n",
        "a/\n  x.txt\na/\n  x.txt\n  y/z/w.txt\n",
        "C:.\n│   notes.txt\n├───src\n│       main.py\n",
        "- `src/`\n  - lib/\n    - util.ts\n- README.md",
    ];
    for text in inputs {
        let nodes = parse(text).nodes;
        for (k, n) in nodes.iter().enumerate() {
            let parts: Vec<&str> = n.path.split('/').collect();
            assert!(parts.iter().all(|p| !p.is_empty() && *p != "." && *p != ".."), "{}", n.path);
            assert_eq!(n.name, *parts.last().unwrap());
            assert_eq!(n.depth, parts.len() - 1);
            assert!(nodes.iter().filter(|m| m.path == n.path).count() == 1);
            if parts.len() > 1 {
                let parent = parts[..parts.len() - 1].join("/");
                let at = nodes.iter().position(|m| m.path == parent).expect("parent listed");
                assert!(at < k);
                assert_eq!(nodes[at].kind, Kind::Folder);
            }
        }
    }
}

#[test]
fn crlf_and_tabs_read_like_lf_and_spaces() {
    let text = "app/\n\tsrc/\n\t\tmain.rs\n\t../x\n\tbad|name\n\tREADME.md\n";
    let same = |a: &str, b: &str| {
        let (x, y) = (parse(a), parse(b));
        assert_eq!(format!("{:?}", x.nodes), format!("{:?}", y.nodes));
        assert_eq!(format!("{:?}", x.problems), format!("{:?}", y.problems));
    };
    same(&text.replace('\n', "\r\n"), text);
    same(&text.replace('\t', "    "), text);
}

fn unicode_noise(trimmed: &str) -> bool {
    let lower = trimmed.to_lowercase();
    if ["folder path listing", "volume serial number is", "no subfolders exist", "invalid path"]
        .iter()
        .any(|p| lower.starts_with(p))
    {
        return true;
    }
    let words: Vec<&str> = lower.split(&[' ', ','][..]).filter(|w| !w.is_empty()).collect();
    let digits = |w: &str| w.chars().all(|c| c.is_ascii_digit());
    let dir = |w: &str| w == "directory" || w == "directories";
    let file = |w: &str| w == "file" || w == "files";
    (words.len() == 2 && digits(words[0]) && dir(words[1]))
        || (words.len() == 4 && digits(words[0]) && dir(words[1]) && file(words[3]))
}

#[test]
fn noise_agrees_with_unicode_lowering() {
    let lines = [
        "Folder PATH listing for volume OS",
        "FOLDER PATH LISTING",
        "Volume Serial Number is 1234",
        "No subfolders exist",
        "İnvalid path",
        "\u{130}NVALID PATH",
        "Invalid Path",
        "3 DIRECTORIES, 5 FILES",
        "1 Directory",
        "2 d\u{130}rectories",
        "1 directory, 1 \u{212A}ile",
        "\u{212A}",
        "12 directories, 0 files",
        "12 directories 0 files",
        "x directories",
        "3 directories.md",
        "ΣΑΣ directories",
        "",
        "src",
    ];
    for l in lines {
        assert_eq!(is_noise(l), unicode_noise(l), "{l}");
    }
}

#[test]
fn extra_indentation_only_moves_the_name() {
    for line in ["├── a.txt", "|-- b/", "- c.md", "│   └── d", "plain"] {
        let s: Vec<char> = line.chars().collect();
        let t: Vec<char> = "   ".chars().chain(line.chars()).collect();
        assert_eq!(prefix_len(&t), 3 + prefix_len(&s), "{line}");
    }
}

#[test]
fn a_line_gives_at_most_two_problems_about_itself() {
    let r = parse("ok/\n  /../x.txt\n");
    assert_eq!(r.problems.len(), 2);
    assert!(r.problems.iter().all(|p| p.line == Some(1)));
    assert_eq!(r.nodes.len(), 1);
}

#[test]
fn shorthand_folders_have_no_line_and_come_first() {
    let r = parse("a/b/c.txt\n");
    let got: Vec<(String, Kind, Option<usize>)> = r.nodes.into_iter().map(|n| (n.path, n.kind, n.line)).collect();
    assert_eq!(
        got,
        [
            ("a".to_string(), Kind::Folder, None),
            ("a/b".to_string(), Kind::Folder, None),
            ("a/b/c.txt".to_string(), Kind::File, Some(0)),
        ]
    );
}
