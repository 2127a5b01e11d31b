use clg::scan::{marker_path, Action, Entry, Event, Walk};

struct Dir {
    name: &'static str,
    is_dir: bool,
    children: Vec<Dir>,
}

fn file(name: &'static str) -> Dir {
    Dir { name, is_dir: false, children: vec![] }
}

fn dir(name: &'static str, children: Vec<Dir>) -> Dir {
    Dir { name, is_dir: true, children }
}

fn marker() -> Dir {
    dir(".git", vec![])
}

fn scan(root: &str, top: &Dir) -> Vec<String> {
    let mut walk = Walk::new(String::from(root));
    let mut open: Vec<(String, &Dir, usize)> = vec![(String::from(root), top, 0)];
    let mut visited = vec![];
    loop {
        assert_eq!(walk.current(), open.last().map(|f| f.0.as_str()));
        let event = {
            let frame = open.last_mut().unwrap();
            match frame.1.children.get(frame.2) {
                Some(child) => {
                    frame.2 += 1;
                    let path = format!("{}/{}", frame.0, child.name);
                    let has_marker = child.is_dir
                        && child.children.iter().any(|c| c.is_dir && c.name == ".git");
                    Event::Entry(Entry { path, is_dir: child.is_dir, has_marker })
                }
                None => Event::End,
            }
        };
        match walk.advance(event) {
            Action::Visit(path) => visited.push(path),
            Action::Descend(path) => {
                let frame = open.last().unwrap();
                let child = &frame.1.children[frame.2 - 1];
                open.push((path, child, 0));
            }
            Action::Skip => {}
            Action::Ascend => {
                open.pop();
            }
            Action::Finished => {
                open.pop();
                break;
            }
        }
    }
    assert!(open.is_empty());
    assert!(walk.is_finished());
    visited
}

#[test]
fn empty_tree_has_no_checkout() {
    assert_eq!(scan("/tmp", &dir("tmp", vec![])), Vec::<String>::new());
}

#[test]
fn tree_without_marker_has_no_checkout() {
    let top = dir(
        "tmp",
        vec![
            file("README"),
            dir("github.com", vec![dir("eagletmt", vec![dir("empty", vec![file("x")])])]),
            dir("other", vec![]),
        ],
    );
    assert_eq!(scan("/tmp", &top), Vec::<String>::new());
}

#[test]
fn checkouts_are_found_in_order() {
    let top = dir(
        "tmp",
        vec![
            dir(
                "github.com",
                vec![
                    dir("eagletmt", vec![dir("clg", vec![marker(), file("Cargo.toml")])]),
                    dir("someone", vec![dir("clg", vec![marker()]), file("notes")]),
                ],
            ),
            dir("direct", vec![marker()]),
            dir("gitlab.com", vec![dir("group", vec![dir("sub", vec![dir("p", vec![marker()])])])]),
        ],
    );
    assert_eq!(
        scan("/tmp", &top),
        vec![
            String::from("/tmp/github.com/eagletmt/clg"),
            String::from("/tmp/github.com/someone/clg"),
            String::from("/tmp/direct"),
            String::from("/tmp/gitlab.com/group/sub/p"),
        ]
    );
}

#[test]
fn nested_checkout_is_not_visited() {
    let top = dir(
        "tmp",
        vec![dir(
            "outer",
            vec![marker(), dir("vendor", vec![dir("inner", vec![marker()])]), dir("sub", vec![marker()])],
        )],
    );
    assert_eq!(scan("/tmp", &top), vec![String::from("/tmp/outer")]);
}

#[test]
fn marker_that_is_a_file_does_not_count() {
    let top = dir("tmp", vec![dir("worktree", vec![file(".git"), dir("sub", vec![marker()])])]);
    assert_eq!(scan("/tmp", &top), vec![String::from("/tmp/worktree/sub")]);
}

#[test]
fn walk_answers_each_event() {
    let mut walk = Walk::new(String::from("/r"));
    assert!(!walk.is_finished());
    assert_eq!(walk.current(), Some("/r"));
    let entry = |path: &str, is_dir: bool, has_marker: bool| {
        Event::Entry(Entry { path: String::from(path), is_dir, has_marker })
    };
    assert!(matches!(walk.advance(entry("/r/f", false, false)), Action::Skip));
    assert!(matches!(walk.advance(entry("/r/odd", false, true)), Action::Skip));
    assert!(matches!(walk.advance(entry("/r/c", true, true)), Action::Visit(p) if p == "/r/c"));
    assert_eq!(walk.current(), Some("/r"));
    assert!(matches!(walk.advance(entry("/r/d", true, false)), Action::Descend(p) if p == "/r/d"));
    assert_eq!(walk.current(), Some("/r/d"));
    assert!(matches!(walk.advance(Event::End), Action::Ascend));
    assert_eq!(walk.current(), Some("/r"));
    assert!(matches!(walk.advance(Event::End), Action::Finished));
    assert!(walk.is_finished());
    assert_eq!(walk.current(), None);
    assert!(matches!(walk.advance(Event::End), Action::Finished));
    assert!(matches!(walk.advance(entry("/r/late", true, true)), Action::Finished));
    assert!(walk.is_finished());
}

#[test]
fn marker_lies_in_the_directory() {
    assert_eq!(marker_path("/tmp/github.com/eagletmt/clg"), "/tmp/github.com/eagletmt/clg/.git");
    assert_eq!(marker_path("/tmp/"), "/tmp/.git");
}

fn checkouts_below(path: &str, node: &Dir, found: &mut Vec<String>) {
    for child in &node.children {
        let child_path = format!("{}/{}", path, child.name);
        if child.is_dir {
            if child.children.iter().any(|c| c.is_dir && c.name == ".git") {
                found.push(child_path);
            } else {
                checkouts_below(&child_path, child, found);
            }
        }
    }
}

fn grow(seed: &mut u64, depth: u32) -> Vec<Dir> {
    let names = ["a", "b", "c", "d", "e"];
    let mut next = || {
        *seed = seed.wrapping_mul(6364136223846793005).wrapping_add(1442695040888963407);
        (*seed >> 33) as u32
    };
    let count = if depth == 0 { 0 } else { next() % 4 };
    let kinds: Vec<u32> = (0..count).map(|_| next() % 5).collect();
    let mut children = vec![];
    for (i, kind) in kinds.into_iter().enumerate() {
        let name = names[i];
        children.push(match kind {
            0 => file(name),
            1 => {
                let mut inside = grow(seed, depth - 1);
                inside.push(marker());
                dir(name, inside)
            }
            _ => dir(name, grow(seed, depth - 1)),
        });
    }
    children
}

#[test]
fn walk_finds_what_a_recursive_search_finds() {
    let mut seed = 20240229u64;
    let mut with_checkouts = 0;
    for _ in 0..300 {
        let top = dir("root", grow(&mut seed, 4));
        let mut expected = vec![];
        checkouts_below("/root", &top, &mut expected);
        if !expected.is_empty() {
            with_checkouts += 1;
        }
        assert_eq!(scan("/root", &top), expected);
    }
    assert!(with_checkouts > 50);
}
