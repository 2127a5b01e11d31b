use clg::cli::LookArgs;
use clg::command::{chdir_line, exit_status, look, look_status, shell_program};
use clg::select::{classify, matches_of, select, Selection};

fn repos() -> Vec<String> {
    vec![
        String::from("/tmp/github.com/eagletmt/clg"),
        String::from("/tmp/github.com/eagletmt/dotfiles"),
        String::from("/tmp/github.com/someone/clg"),
        String::from("/tmp/gitlab.com/eagletmt/clg"),
        String::from("/tmp/example.org/xclg"),
    ]
}

#[test]
fn nothing_is_found_among_no_candidates() {
    assert!(matches!(select(&vec![], "x"), Selection::NotFound));
    assert!(matches!(select(&vec![], ""), Selection::NotFound));
}

#[test]
fn nothing_is_found_without_a_match() {
    assert!(matches!(select(&repos(), "nothing"), Selection::NotFound));
    assert!(matches!(select(&repos(), "lg"), Selection::NotFound));
}

#[test]
fn one_match_is_unique() {
    let one = vec![String::from("/tmp/github.com/eagletmt/clg")];
    assert!(matches!(
        select(&one, "clg"),
        Selection::Unique(p) if p == "/tmp/github.com/eagletmt/clg"
    ));
    assert!(matches!(
        select(&repos(), "dotfiles"),
        Selection::Unique(p) if p == "/tmp/github.com/eagletmt/dotfiles"
    ));
    assert!(matches!(
        select(&repos(), "someone/clg"),
        Selection::Unique(p) if p == "/tmp/github.com/someone/clg"
    ));
    assert!(matches!(
        select(&repos(), "gitlab.com/eagletmt/clg"),
        Selection::Unique(p) if p == "/tmp/gitlab.com/eagletmt/clg"
    ));
}

#[test]
fn two_matches_are_ambiguous() {
    let two = vec![
        String::from("/tmp/github.com/eagletmt/clg"),
        String::from("/tmp/gitlab.com/eagletmt/clg"),
    ];
    match select(&two, "clg") {
        Selection::Ambiguous(mut found) => {
            found.sort();
            let mut expected = two.clone();
            expected.sort();
            assert_eq!(found, expected);
        }
        other => panic!("unexpected outcome: {:?}", other),
    }
    let swapped = vec![two[1].clone(), two[0].clone()];
    match select(&swapped, "clg") {
        Selection::Ambiguous(mut found) => {
            found.sort();
            let mut expected = two.clone();
            expected.sort();
            assert_eq!(found, expected);
        }
        other => panic!("unexpected outcome: {:?}", other),
    }
}

#[test]
fn every_match_is_listed_in_order() {
    match select(&repos(), "clg") {
        Selection::Ambiguous(found) => assert_eq!(
            found,
            vec![
                String::from("/tmp/github.com/eagletmt/clg"),
                String::from("/tmp/github.com/someone/clg"),
                String::from("/tmp/gitlab.com/eagletmt/clg"),
            ]
        ),
        other => panic!("unexpected outcome: {:?}", other),
    }
    match select(&repos(), "eagletmt/clg") {
        Selection::Ambiguous(found) => assert_eq!(
            found,
            vec![
                String::from("/tmp/github.com/eagletmt/clg"),
                String::from("/tmp/gitlab.com/eagletmt/clg"),
            ]
        ),
        other => panic!("unexpected outcome: {:?}", other),
    }
}

#[test]
fn empty_query_matches_everything() {
    match select(&repos(), "") {
        Selection::Ambiguous(found) => assert_eq!(found, repos()),
        other => panic!("unexpected outcome: {:?}", other),
    }
}

#[test]
fn matches_and_classification() {
    assert_eq!(matches_of(&repos(), "xclg"), vec![String::from("/tmp/example.org/xclg")]);
    assert_eq!(matches_of(&repos(), "zzz"), Vec::<String>::new());
    assert!(matches!(classify(vec![]), Selection::NotFound));
    assert!(matches!(classify(vec![String::from("a")]), Selection::Unique(p) if p == "a"));
    assert!(matches!(
        classify(vec![String::from("a"), String::from("b")]),
        Selection::Ambiguous(ps) if ps == vec![String::from("a"), String::from("b")]
    ));
}

#[test]
fn look_selects_by_its_argument() {
    let args = LookArgs { repository: String::from("someone/clg") };
    assert!(matches!(
        look(&args, &repos()),
        Selection::Unique(p) if p == "/tmp/github.com/someone/clg"
    ));
    let args = LookArgs { repository: String::from("clg") };
    assert!(matches!(look(&args, &repos()), Selection::Ambiguous(ps) if ps.len() == 3));
    let args = LookArgs { repository: String::from("none") };
    assert!(matches!(look(&args, &repos()), Selection::NotFound));
}

#[test]
fn look_fails_unless_one_is_found() {
    assert_eq!(look_status(&Selection::NotFound), Some(1));
    assert_eq!(look_status(&Selection::Unique(String::from("/tmp/a"))), None);
    assert_eq!(
        look_status(&Selection::Ambiguous(vec![String::from("/tmp/a"), String::from("/tmp/b")])),
        Some(1)
    );
}

#[test]
fn shell_and_status() {
    assert_eq!(shell_program(Some(String::from("/bin/zsh")), false), "/bin/zsh");
    assert_eq!(shell_program(Some(String::from("/bin/zsh")), true), "/bin/zsh");
    assert_eq!(shell_program(None, false), "/bin/sh");
    assert_eq!(shell_program(None, true), "powershell.exe");
    assert_eq!(exit_status(Some(0)), 0);
    assert_eq!(exit_status(Some(128)), 128);
    assert_eq!(exit_status(Some(-1)), -1);
    assert_eq!(exit_status(None), 1);
    assert_eq!(chdir_line("/tmp/github.com/eagletmt/clg"), "chdir /tmp/github.com/eagletmt/clg");
    assert_eq!(chdir_line(""), "chdir ");
}
