//! Walks over a tree, driven by hand.

use hdfs_bridge::entry::FileStatus;
use hdfs_bridge::error::BridgeError;
use hdfs_bridge::error::ErrorKind;
use hdfs_bridge::error::IoErrorKind;
use hdfs_bridge::glob::GlobPlan;
use hdfs_bridge::walk::Task;
use hdfs_bridge::walk::Walk;
use hdfs_bridge::walk::WalkAction;
use hdfs_bridge::walk::WalkEvent;

fn status(path: &str, isdir: bool) -> FileStatus {
    FileStatus {
        path: path.to_string(),
        length: 3,
        isdir,
        permission: 0o644,
        owner: "o".to_string(),
        group: "g".to_string(),
        modification_time: 1,
        access_time: 2,
        replication: None,
        blocksize: None,
    }
}

fn missing(path: &str) -> BridgeError {
    BridgeError {
        kind: ErrorKind::FileNotFound,
        text: format!("file not found: {path}"),
    }
}

fn refused() -> BridgeError {
    BridgeError {
        kind: ErrorKind::IOError(IoErrorKind::ConnectionRefused),
        text: "refused".to_string(),
    }
}

/// A tree as (directory, children as (path, is_dir)).
type Listings<'a> = Vec<(&'a str, Vec<(&'a str, bool)>)>;

fn tree() -> Listings<'static> {
    vec![
        ("/", vec![("/d", true), ("/top", false)]),
        (
            "/d",
            vec![("/d/x.csv", false), ("/d/a", true), ("/d/b", true)],
        ),
        ("/d/a", vec![("/d/a/y.csv", false), ("/d/a/c", true)]),
        ("/d/a/c", vec![("/d/a/c/z.csv", false)]),
        ("/d/b", vec![]),
        // Listing a file gives the file.
        ("/d/x.csv", vec![("/d/x.csv", false)]),
    ]
}

fn list(tree: &Listings, path: &str) -> Result<Vec<FileStatus>, BridgeError> {
    match tree.iter().find(|(p, _)| *p == path) {
        Some((_, children)) => Ok(children.iter().map(|(p, d)| status(p, *d)).collect()),
        None => Err(missing(path)),
    }
}

fn stat(tree: &Listings, path: &str) -> Result<FileStatus, BridgeError> {
    for (_, children) in tree {
        for (p, d) in children {
            if *p == path {
                return Ok(status(p, *d));
            }
        }
    }
    Err(missing(path))
}

/// What a walk handed out, sorted, and the largest number of listings that were
/// in flight. `latest` ends the listing that was started last first.
fn run(mut walk: Walk, tree: &Listings, latest: bool) -> (Vec<String>, Option<String>, usize) {
    let mut flying: Vec<Task> = Vec::new();
    let mut sent = Vec::new();
    let mut listed = Vec::new();
    let mut most = 0;
    let mut error = None;
    let mut event = WalkEvent::Ready;
    loop {
        event = match walk.advance(event) {
            WalkAction::Stat(path) => WalkEvent::RootStatus(stat(tree, &path)),
            WalkAction::List(task) => {
                // No directory is listed twice.
                assert!(!listed.contains(&task.path().to_string()));
                listed.push(task.path().to_string());
                flying.push(task);
                most = most.max(flying.len());
                WalkEvent::Ready
            }
            WalkAction::Wait => {
                assert_eq!(walk.in_flight(), flying.len());
                let task = if latest {
                    flying.pop().unwrap()
                } else {
                    flying.remove(0)
                };
                let listing = list(tree, task.path());
                WalkEvent::Listing(task, listing)
            }
            WalkAction::Send(entry) => {
                sent.push(entry.path);
                WalkEvent::Ready
            }
            WalkAction::SendError(e) => {
                error = Some(e.text);
                WalkEvent::Ready
            }
            WalkAction::Stop => break,
        };
    }
    assert!(matches!(walk.advance(WalkEvent::Ready), WalkAction::Stop));
    sent.sort();
    (sent, error, most)
}

fn glob(pattern: &str, parallelism: usize, latest: bool) -> Vec<String> {
    let plan = GlobPlan::parse(pattern).unwrap();
    let (sent, error, most) = run(Walk::glob(plan, parallelism), &tree(), latest);
    assert_eq!(error, None);
    assert!(most <= parallelism.max(1));
    sent
}

#[test]
fn list_gives_the_children() {
    for latest in [false, true] {
        let walk = Walk::list("/d".to_string(), false, 4);
        let (sent, error, most) = run(walk, &tree(), latest);
        assert_eq!(sent, vec!["/d/a", "/d/b", "/d/x.csv"]);
        assert_eq!(error, None);
        assert_eq!(most, 1);
    }
}

#[test]
fn recursive_list_gives_the_subtree_in_any_order() {
    for latest in [false, true] {
        for parallelism in [0, 1, 2, 16] {
            let walk = Walk::list("/d".to_string(), true, parallelism);
            let (sent, error, most) = run(walk, &tree(), latest);
            assert_eq!(
                sent,
                vec![
                    "/d/a",
                    "/d/a/c",
                    "/d/a/c/z.csv",
                    "/d/a/y.csv",
                    "/d/b",
                    "/d/x.csv"
                ]
            );
            assert_eq!(error, None);
            assert!(most <= parallelism.max(1));
        }
    }
}

#[test]
fn listing_a_file_gives_the_file() {
    let walk = Walk::list("/d/x.csv".to_string(), true, 1);
    assert_eq!(run(walk, &tree(), false).0, vec!["/d/x.csv"]);
}

#[test]
fn list_of_a_missing_path_is_an_error() {
    let walk = Walk::list("/nope".to_string(), true, 1);
    let (sent, error, _) = run(walk, &tree(), false);
    assert!(sent.is_empty());
    assert_eq!(error, Some("file not found: /nope".to_string()));
}

#[test]
fn glob_gives_what_the_pattern_selects() {
    for latest in [false, true] {
        for parallelism in [0, 1, 3] {
            assert_eq!(
                glob("/d/**/*.csv", parallelism, latest),
                vec!["/d/a/c/z.csv", "/d/a/y.csv", "/d/x.csv"]
            );
            assert_eq!(
                glob("/d/**", parallelism, latest),
                vec![
                    "/d/a",
                    "/d/a/c",
                    "/d/a/c/z.csv",
                    "/d/a/y.csv",
                    "/d/b",
                    "/d/x.csv"
                ]
            );
            assert_eq!(glob("/*/[ab]", parallelism, latest), vec!["/d/a", "/d/b"]);
            // Overlapping alternatives give nothing twice.
            assert_eq!(
                glob("/d/{a,a*,**}/y.csv", parallelism, latest),
                vec!["/d/a/y.csv"]
            );
        }
    }
}

#[test]
fn glob_of_a_literal_gives_the_path_itself() {
    assert_eq!(glob("/d/a", 1, false), vec!["/d/a"]);
    // One alternative is the root, the other is below it.
    assert_eq!(glob("/d/a{,/*}", 2, false), vec!["/d/a", "/d/a/c", "/d/a/y.csv"]);
}

#[test]
fn glob_of_a_file_has_no_children() {
    assert!(glob("/d/x.csv/*", 1, false).is_empty());
    assert!(glob("/d/x.csv/**", 1, false).is_empty());
}

#[test]
fn glob_of_a_missing_path_is_empty() {
    assert!(glob("/nope", 1, false).is_empty());
    assert!(glob("/nope/*", 1, false).is_empty());
    assert!(glob("/d/{nope/deep,nada}/*", 2, false).is_empty());
}

#[test]
fn glob_forwards_other_errors_and_ends() {
    let plan = GlobPlan::parse("/d").unwrap();
    let mut walk = Walk::glob(plan, 1);
    match walk.advance(WalkEvent::Ready) {
        WalkAction::Stat(path) => assert_eq!(path, "/d"),
        _ => panic!("no stat"),
    }
    match walk.advance(WalkEvent::RootStatus(Err(refused()))) {
        WalkAction::SendError(e) => assert_eq!(e.text, "refused"),
        _ => panic!("no error"),
    }
    assert!(matches!(walk.advance(WalkEvent::Ready), WalkAction::Stop));
}

#[test]
fn an_error_ends_the_walk_with_listings_in_flight() {
    let mut walk = Walk::list("/d".to_string(), true, 2);
    let root = match walk.advance(WalkEvent::Ready) {
        WalkAction::List(task) => task,
        _ => panic!("no listing"),
    };
    assert_eq!(root.path(), "/d");
    assert!(matches!(walk.advance(WalkEvent::Ready), WalkAction::Wait));
    let children = list(&tree(), "/d");
    let mut action = walk.advance(WalkEvent::Listing(root, children));
    let mut flying = Vec::new();
    let mut order = Vec::new();
    loop {
        action = match action {
            WalkAction::Send(entry) => {
                order.push(entry.path);
                walk.advance(WalkEvent::Ready)
            }
            WalkAction::List(task) => {
                flying.push(task);
                walk.advance(WalkEvent::Ready)
            }
            WalkAction::Wait => break,
            _ => panic!("unexpected"),
        };
    }
    // The children come in the order of the listing, before anything else.
    assert_eq!(order, vec!["/d/x.csv", "/d/a", "/d/b"]);
    assert_eq!(walk.in_flight(), 2);
    let failed = flying.remove(0);
    match walk.advance(WalkEvent::Listing(failed, Err(missing("/d/a")))) {
        WalkAction::SendError(e) => assert_eq!(e.text, "file not found: /d/a"),
        _ => panic!("no error"),
    }
    assert!(matches!(walk.advance(WalkEvent::Ready), WalkAction::Stop));
}

#[test]
fn a_walk_stops_when_its_consumer_is_gone() {
    let mut walk = Walk::list("/d".to_string(), true, 1);
    let root = match walk.advance(WalkEvent::Ready) {
        WalkAction::List(task) => task,
        _ => panic!("no listing"),
    };
    assert!(matches!(walk.advance(WalkEvent::Ready), WalkAction::Wait));
    let children = list(&tree(), "/d");
    assert!(matches!(
        walk.advance(WalkEvent::Listing(root, children)),
        WalkAction::Send(_)
    ));
    assert!(matches!(
        walk.advance(WalkEvent::ConsumerGone),
        WalkAction::Stop
    ));
    assert!(matches!(walk.advance(WalkEvent::Ready), WalkAction::Stop));
}

#[test]
fn no_path_is_handed_out_twice() {
    for latest in [false, true] {
        for sent in [
            run(Walk::list("/".to_string(), true, 3), &tree(), latest).0,
            glob("/{,d,d/**,**,*/*}", 3, latest),
        ] {
            assert!(sent.len() > 5);
            let mut once = sent.clone();
            once.dedup();
            assert_eq!(once, sent);
        }
    }
}

#[test]
fn overlapping_alternatives_list_a_directory_once() {
    // The walk itself asserts that nothing is listed twice.
    assert_eq!(
        glob("/{d,d*,**,*}/{a,a*}/*", 4, true),
        vec!["/d/a/c", "/d/a/y.csv"]
    );
}

#[test]
fn a_final_crawl_takes_zero_levels() {
    assert_eq!(
        glob("/d/[ab]/**", 2, false),
        vec!["/d/a", "/d/a/c", "/d/a/c/z.csv", "/d/a/y.csv", "/d/b"]
    );
    // The root is handed out through a fully literal alternative only.
    assert_eq!(glob("/d/b/**", 1, false), Vec::<String>::new());
    assert_eq!(glob("/d/b{,/**}", 1, false), vec!["/d/b"]);
}

#[test]
fn the_first_error_is_handed_out() {
    let mut walk = Walk::list("/d".to_string(), true, 3);
    let root = match walk.advance(WalkEvent::Ready) {
        WalkAction::List(task) => task,
        _ => panic!("no listing"),
    };
    let mut action = walk.advance(WalkEvent::Listing(root, list(&tree(), "/d")));
    let mut flying = Vec::new();
    loop {
        action = match action {
            WalkAction::Send(_) => walk.advance(WalkEvent::Ready),
            WalkAction::List(task) => {
                flying.push(task);
                walk.advance(WalkEvent::Ready)
            }
            _ => break,
        };
    }
    assert_eq!(flying.len(), 2);
    let (a, b) = (flying.remove(0), flying.remove(0));
    match walk.advance(WalkEvent::Listing(a, Err(refused()))) {
        WalkAction::SendError(e) => assert_eq!(e.text, "refused"),
        _ => panic!("no error"),
    }
    // What fails after it is not handed out any more.
    assert!(matches!(
        walk.advance(WalkEvent::Listing(b, Err(missing("/d/b")))),
        WalkAction::Stop
    ));
}

#[test]
fn a_later_error_does_not_replace_the_first() {
    let mut walk = Walk::list("/d".to_string(), true, 3);
    let root = match walk.advance(WalkEvent::Ready) {
        WalkAction::List(task) => task,
        _ => panic!("no listing"),
    };
    // The root's children wait to be handed out.
    assert!(matches!(
        walk.advance(WalkEvent::Listing(root, list(&tree(), "/d"))),
        WalkAction::Send(_)
    ));
    assert!(matches!(
        walk.advance(WalkEvent::RootStatus(Err(refused()))),
        WalkAction::Send(_)
    ));
    assert!(matches!(
        walk.advance(WalkEvent::RootStatus(Err(missing("/d")))),
        WalkAction::Send(_)
    ));
    match walk.advance(WalkEvent::Ready) {
        WalkAction::SendError(e) => assert_eq!(e.text, "refused"),
        _ => panic!("no error"),
    }
}
