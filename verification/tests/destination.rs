use clg::cli::CloneArgs;
use clg::command::clone;
use clg::normalize::parse_git_url;
use clg::resolve::{destination_of, destination_path_for};
use clg::{Config, Error};

fn tmp_config() -> Config {
    Config { root: String::from("/tmp") }
}

fn with_std(root: &str, host: &str, url_path: &str, name: Option<&str>) -> String {
    let mut pathbuf = std::path::PathBuf::from(root);
    pathbuf.push(host);
    for c in std::path::PathBuf::from(url_path).components().skip(1) {
        pathbuf.push(c.as_os_str());
    }
    if let Some(name) = name {
        pathbuf.pop();
        pathbuf.push(name);
    }
    if pathbuf.extension().and_then(|e| e.to_str()) == Some("git") {
        pathbuf.set_extension("");
    }
    pathbuf.to_str().unwrap().to_string()
}

#[test]
fn destination_path_default() {
    assert_eq!(
        std::path::PathBuf::from(
            destination_path_for(
                &tmp_config(),
                &parse_git_url("https://github.com/eagletmt/clg").unwrap(),
                None,
            )
            .unwrap()
        ),
        std::path::PathBuf::from("/tmp/github.com/eagletmt/clg")
    );
}

#[test]
fn destination_path_with_extension() {
    assert_eq!(
        std::path::PathBuf::from(
            destination_path_for(
                &tmp_config(),
                &parse_git_url("https://github.com/eagletmt/clg.git").unwrap(),
                None,
            )
            .unwrap()
        ),
        std::path::PathBuf::from("/tmp/github.com/eagletmt/clg")
    );
}

#[test]
fn destination_path_with_name() {
    assert_eq!(
        std::path::PathBuf::from(
            destination_path_for(
                &tmp_config(),
                &parse_git_url("https://github.com/eagletmt/clg.git").unwrap(),
                Some("clg2"),
            )
            .unwrap()
        ),
        std::path::PathBuf::from("/tmp/github.com/eagletmt/clg2")
    );
}

#[test]
fn destination_is_exact_text() {
    let config = tmp_config();
    let plain = parse_git_url("https://github.com/eagletmt/clg").unwrap();
    let dotted = parse_git_url("https://github.com/eagletmt/clg.git").unwrap();
    assert_eq!(
        destination_path_for(&config, &plain, None).unwrap(),
        "/tmp/github.com/eagletmt/clg"
    );
    assert_eq!(
        destination_path_for(&config, &dotted, None).unwrap(),
        "/tmp/github.com/eagletmt/clg"
    );
    assert_eq!(
        destination_path_for(&config, &dotted, Some("clg2")).unwrap(),
        "/tmp/github.com/eagletmt/clg2"
    );
}

#[test]
fn destination_of_scp_like_reference() {
    let uri = parse_git_url("git@github.com:eagletmt/clg.git").unwrap();
    assert_eq!(
        destination_path_for(&tmp_config(), &uri, None).unwrap(),
        "/tmp/github.com/eagletmt/clg"
    );
}

#[test]
fn destination_of_short_reference() {
    let uri = parse_git_url("eagletmt/clg").unwrap();
    assert_eq!(
        destination_path_for(&tmp_config(), &uri, None).unwrap(),
        "/tmp/github.com/eagletmt/clg"
    );
}

#[test]
fn destination_with_a_single_segment() {
    let uri = parse_git_url("https://example.org/repo.git").unwrap();
    assert_eq!(destination_path_for(&tmp_config(), &uri, None).unwrap(), "/tmp/example.org/repo");
    assert_eq!(
        destination_path_for(&tmp_config(), &uri, Some("other")).unwrap(),
        "/tmp/example.org/other"
    );
}

#[test]
fn destination_without_any_segment() {
    let uri = parse_git_url("https://example.org").unwrap();
    assert_eq!(destination_path_for(&tmp_config(), &uri, None).unwrap(), "/tmp/example.org");
    assert_eq!(destination_path_for(&tmp_config(), &uri, Some("x")).unwrap(), "/tmp/x");
}

#[test]
fn name_with_extension_loses_it() {
    let uri = parse_git_url("https://github.com/eagletmt/clg").unwrap();
    assert_eq!(
        destination_path_for(&tmp_config(), &uri, Some("mine.git")).unwrap(),
        "/tmp/github.com/eagletmt/mine"
    );
}

#[test]
fn only_one_extension_is_dropped() {
    assert_eq!(destination_of("/tmp", "h", "/a/b.git.git", None), "/tmp/h/a/b.git");
    assert_eq!(destination_of("/tmp", "h", "/a/b.git", None), "/tmp/h/a/b");
    assert_eq!(destination_of("/tmp", "h", "/a/b", None), "/tmp/h/a/b");
}

#[test]
fn other_extensions_stay() {
    assert_eq!(destination_of("/tmp", "h", "/a/b.hg", None), "/tmp/h/a/b.hg");
    assert_eq!(destination_of("/tmp", "h", "/a/b.gitx", None), "/tmp/h/a/b.gitx");
    assert_eq!(destination_of("/tmp", "h", "/a/bgit", None), "/tmp/h/a/bgit");
    assert_eq!(destination_of("/tmp", "h", "/a/.git", None), "/tmp/h/a/.git");
    assert_eq!(destination_of("/tmp", "h", "/a/git", None), "/tmp/h/a/git");
}

#[test]
fn suffix_does_not_change_the_place() {
    for q in ["/eagletmt/clg", "/clg", "/a/b/c/d", "/a/b.tar", "/a/..", "/x/.hidden"] {
        let with_suffix = format!("{}.git", q);
        assert_eq!(
            destination_of("/tmp", "github.com", &with_suffix, None),
            destination_of("/tmp", "github.com", q, None)
        );
    }
}

#[test]
fn destination_agrees_with_std_paths() {
    let roots = ["/tmp", "/tmp/", "", "rel", "rel//", "/", ".", "./here", "/a/./b/", "/a/b/.."];
    let hosts = ["github.com", "h", "", ".", "..", "/abs", "a/b", "x.git"];
    let paths = [
        "/eagletmt/clg",
        "/eagletmt/clg.git",
        "/",
        "",
        "//a///b//",
        "/a/./b/.",
        "/a/../b",
        "/..",
        "/.git",
        "/a/.git",
        "/a.git/",
        "/a.git/.",
        "rel/x.git",
        "./x/y",
        ".",
        "..",
        "/a/b..git",
        "/a/..git",
        "/a/git",
        "/a/b.git.git",
        "/caf\u{e9}/na\u{ef}ve.git",
    ];
    let names = [None, Some("clg2"), Some("x.git"), Some(""), Some("/abs/there"), Some("a/b/"),
        Some(".."), Some("."), Some(".git"), Some("n.git/")];
    for root in roots {
        for host in hosts {
            for path in paths {
                for name in names {
                    assert_eq!(
                        destination_of(root, host, path, name),
                        with_std(root, host, path, name),
                        "root {:?} host {:?} path {:?} name {:?}",
                        root,
                        host,
                        path,
                        name
                    );
                }
            }
        }
    }
}

#[test]
fn clone_plans_url_and_place() {
    let args = CloneArgs { name: None, url: String::from("git@github.com:eagletmt/clg.git") };
    let plan = clone(&tmp_config(), &args).unwrap();
    assert_eq!(plan.url, "ssh://git@github.com/eagletmt/clg.git");
    assert_eq!(plan.path, "/tmp/github.com/eagletmt/clg");
    let args = CloneArgs { name: Some(String::from("mine")), url: String::from("eagletmt/clg") };
    let plan = clone(&tmp_config(), &args).unwrap();
    assert_eq!(plan.url, "https://github.com/eagletmt/clg");
    assert_eq!(plan.path, "/tmp/github.com/eagletmt/mine");
}

#[test]
fn clone_refuses_what_is_no_url() {
    let args = CloneArgs { name: None, url: String::from("https://") };
    assert!(matches!(
        clone(&tmp_config(), &args),
        Err(Error::UrlParseError(url::ParseError::EmptyHost))
    ));
}

#[test]
fn clone_refuses_a_url_without_host() {
    let args = CloneArgs { name: None, url: String::from("file:///srv/git/clg.git") };
    assert!(matches!(clone(&tmp_config(), &args), Err(Error::Custom(_))));
    let args = CloneArgs { name: None, url: String::from("mailto:someone@example.com") };
    assert!(matches!(clone(&tmp_config(), &args), Err(Error::Custom(_))));
}

#[test]
fn destination_of_a_url_with_an_empty_path() {
    let uri = parse_git_url("ssh://git@example.org").unwrap();
    assert_eq!(destination_path_for(&tmp_config(), &uri, None).unwrap(), "/tmp/example.org");
}
