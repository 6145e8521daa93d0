use arbor::{
    classify, is_hidden, print_tree, read_dir, Entry, EntryAction, FilterConfig, Printer, Step,
    Tree,
};

type Listing = (&'static [&'static str], &'static [(&'static str, bool)]);

fn listing_for(fs: &[Listing], path: &[String]) -> Vec<Entry> {
    for (p, entries) in fs {
        if p.len() == path.len() && p.iter().zip(path.iter()).all(|(a, b)| *a == b.as_str()) {
            return entries
                .iter()
                .map(|(n, d)| Entry { name: n.to_string(), is_dir: *d })
                .collect();
        }
    }
    panic!("listing of {:?} was not expected", path);
}

fn run(fs: &[Listing], config: FilterConfig) -> (Tree, Vec<Vec<String>>) {
    let mut walk = read_dir(".".to_string(), config);
    let mut asked = Vec::new();
    loop {
        match walk.step() {
            Step::List(path) => {
                let l = listing_for(fs, &path);
                asked.push(path);
                walk.feed(l);
            }
            Step::Continue => {}
            Step::Done(tree) => {
                assert!(walk.is_done());
                return (tree, asked);
            }
        }
    }
}

fn names(t: &Tree) -> Vec<String> {
    match t {
        Tree::File { .. } => vec![],
        Tree::Dir { children, .. } => children.iter().map(|c| c.name().to_string()).collect(),
    }
}

fn file(name: &str) -> Tree {
    Tree::File { name: name.to_string() }
}

fn dir(name: &str, children: Vec<Tree>) -> Tree {
    Tree::Dir { name: name.to_string(), children }
}

const ABC: &[Listing] = &[(&[], &[("a", false), (".b", false), ("c", false)])];

#[test]
fn hidden_entries_are_skipped() {
    let (t, _) = run(ABC, FilterConfig { include_hidden: false, max_depth: None });
    assert_eq!(names(&t), vec!["a", "c"]);
}

#[test]
fn hidden_entries_kept_when_included() {
    let (t, _) = run(ABC, FilterConfig { include_hidden: true, max_depth: None });
    assert_eq!(names(&t), vec!["a", ".b", "c"]);
}

#[test]
fn hidden_directory_is_never_listed() {
    let fs: &[Listing] = &[(&[], &[(".git", true), ("src", true)]), (&["src"], &[("lib.rs", false)])];
    let (t, asked) = run(fs, FilterConfig { include_hidden: false, max_depth: None });
    assert_eq!(t, dir(".", vec![dir("src", vec![file("lib.rs")])]));
    assert_eq!(asked, vec![vec![], vec!["src".to_string()]]);
}

const SUB_LEAF: &[Listing] = &[(&[], &[("sub", true)]), (&["sub"], &[("leaf.txt", false)])];

#[test]
fn depth_one_shows_sub_without_children() {
    let (t, asked) = run(SUB_LEAF, FilterConfig { include_hidden: false, max_depth: Some(1) });
    assert_eq!(t, dir(".", vec![dir("sub", vec![])]));
    assert_eq!(asked, vec![Vec::<String>::new()]);
}

#[test]
fn depth_two_expands_sub() {
    let (t, _) = run(SUB_LEAF, FilterConfig { include_hidden: false, max_depth: Some(2) });
    assert_eq!(t, dir(".", vec![dir("sub", vec![file("leaf.txt")])]));
}

#[test]
fn depth_zero_lists_nothing() {
    let (t, asked) = run(SUB_LEAF, FilterConfig { include_hidden: true, max_depth: Some(0) });
    assert_eq!(t, dir(".", vec![]));
    assert!(asked.is_empty());
}

#[test]
fn unbounded_walk_keeps_listing_order() {
    let fs: &[Listing] = &[
        (&[], &[("z", true), ("b.txt", false), ("a", true)]),
        (&["z"], &[("y", true), ("x", false)]),
        (&["z", "y"], &[]),
        (&["a"], &[("m", false)]),
    ];
    let (t, asked) = run(fs, FilterConfig { include_hidden: false, max_depth: None });
    assert_eq!(
        t,
        dir(
            ".",
            vec![
                dir("z", vec![dir("y", vec![]), file("x")]),
                file("b.txt"),
                dir("a", vec![file("m")]),
            ]
        )
    );
    let expected: Vec<Vec<String>> = vec![
        vec![],
        vec!["z".to_string()],
        vec!["z".to_string(), "y".to_string()],
        vec!["a".to_string()],
    ];
    assert_eq!(asked, expected);
}

#[test]
fn walked_tree_renders_n_plus_one_lines() {
    let fs: &[Listing] = &[
        (&[], &[("src", true), ("README", false)]),
        (&["src"], &[("main.rs", false), ("util", true)]),
        (&["src", "util"], &[("io.rs", false)]),
    ];
    let (t, _) = run(fs, FilterConfig { include_hidden: false, max_depth: None });
    let out = print_tree(&t, &Printer::new(false));
    assert_eq!(
        out,
        vec![".", "├───src", "│   ├───main.rs", "│   └───util", "│       └───io.rs", "└───README"]
    );
}

#[test]
fn root_takes_the_given_name() {
    let mut walk = read_dir("some/dir".to_string(), FilterConfig { include_hidden: false, max_depth: Some(0) });
    match walk.step() {
        Step::Done(t) => assert_eq!(t, dir("some/dir", vec![])),
        other => panic!("unexpected {:?}", other),
    }
}

#[test]
fn feed_without_request_is_ignored() {
    let mut walk = read_dir(".".to_string(), FilterConfig { include_hidden: false, max_depth: Some(0) });
    walk.feed(vec![Entry { name: "x".to_string(), is_dir: false }]);
    match walk.step() {
        Step::Done(t) => assert_eq!(t, dir(".", vec![])),
        other => panic!("unexpected {:?}", other),
    }
}

#[test]
fn classify_each_action() {
    let strict = FilterConfig { include_hidden: false, max_depth: Some(2) };
    let f = |n: &str, d: bool| Entry { name: n.to_string(), is_dir: d };
    assert_eq!(classify(&strict, &f(".cache", true), 1), EntryAction::Skip);
    assert_eq!(classify(&strict, &f("a.txt", false), 1), EntryAction::Leaf);
    assert_eq!(classify(&strict, &f("d", true), 1), EntryAction::Expand);
    assert_eq!(classify(&strict, &f("d", true), 2), EntryAction::Collapsed);
    let all = FilterConfig { include_hidden: true, max_depth: None };
    assert_eq!(classify(&all, &f(".cache", true), 1000), EntryAction::Expand);
    assert_eq!(classify(&all, &f(".env", false), 1), EntryAction::Leaf);
}

#[test]
fn hidden_names() {
    assert!(is_hidden(".git"));
    assert!(is_hidden("."));
    assert!(!is_hidden("git"));
    assert!(!is_hidden("a.b"));
    assert!(!is_hidden(""));
}
