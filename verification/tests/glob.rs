//! Glob patterns: matching one component, brace expansion, plans, and walks
//! along a plan.

use hdfs_bridge::braces::expand_braces;
use hdfs_bridge::component::parse_component;
use hdfs_bridge::component::parse_components;
use hdfs_bridge::component::Component;
use hdfs_bridge::error::classify;
use hdfs_bridge::error::HDFS_ERR_INVALID_ARGUMENT;
use hdfs_bridge::glob::push_state;
use hdfs_bridge::glob::GlobPlan;
use hdfs_bridge::pattern::match_chars;
use hdfs_bridge::pattern::match_class;
use hdfs_bridge::pattern::match_component;

#[test]
fn component_matching() {
    assert!(match_component("file.txt", "*.txt"));
    assert!(!match_component("file.jpg", "*.txt"));
    assert!(match_component("file.txt", "*"));
    assert!(match_component("", "*"));
    assert!(match_component("abc", "a**c")); // '**' inside a component = '*'
    assert!(match_component("ac", "a*c"));
    assert!(!match_component("ab", "a*c"));

    assert!(match_component("data1.csv", "data?.csv"));
    assert!(!match_component("data12.csv", "data?.csv"));
    assert!(!match_component("data.csv", "data?.csv"));

    assert!(match_component("a.txt", "[abc].txt"));
    assert!(!match_component("d.txt", "[abc].txt"));
    assert!(match_component("file3.txt", "file[0-9].txt"));
    assert!(!match_component("filex.txt", "file[0-9].txt"));
    assert!(match_component("b.txt", "[!a].txt"));
    assert!(!match_component("a.txt", "[!a].txt"));
    assert!(match_component("a-b", "a[x-]b")); // trailing '-' is literal
    assert!(match_component("]", "[]]")); // first ']' is literal

    assert!(match_component("file*name", "file\\*name"));
    assert!(!match_component("fileXname", "file\\*name"));

    // Malformed patterns match nothing, don't error.
    assert!(!match_component("file[", "file["));
    assert!(!match_component("abc", "abc\\"));
}

#[test]
fn brace_expansion() {
    assert_eq!(expand_braces("/a/b").unwrap(), vec!["/a/b"]);
    assert_eq!(expand_braces("/a/{b,c}").unwrap(), vec!["/a/b", "/a/c"]);
    assert_eq!(
        expand_braces("/{a/b,c/d}/e").unwrap(),
        vec!["/a/b/e", "/c/d/e"]
    );
    assert_eq!(expand_braces("/{a,{b,c}}").unwrap(), vec!["/a", "/b", "/c"]);
    assert_eq!(
        expand_braces("/{a,b}/{c,d}").unwrap(),
        vec!["/a/c", "/a/d", "/b/c", "/b/d"]
    );
    // Escaped braces are literal.
    assert_eq!(expand_braces("/a/\\{b,c\\}").unwrap(), vec!["/a/\\{b,c\\}"]);
    // A bare '}' is literal; an unclosed '{' is an error.
    assert_eq!(expand_braces("/a/b}").unwrap(), vec!["/a/b}"]);
    assert!(expand_braces("/a/{b,c").is_err());
}

/// Walk `tree` (path -> children as (name, is_dir)) with `plan`, collecting
/// emitted paths. A sequential stand-in for a walk.
fn run_walk(plan: &GlobPlan, tree: &[(&str, Vec<(&str, bool)>)]) -> Vec<String> {
    let children = |path: &str| -> Vec<(String, bool)> {
        tree.iter()
            .find(|(p, _)| *p == path)
            .map(|(_, c)| c.iter().map(|(n, d)| (n.to_string(), *d)).collect())
            .unwrap_or_default()
    };
    let mut emitted = Vec::new();
    let mut queue = vec![(plan.root().to_string(), plan.initial().to_vec())];
    while let Some((path, states)) = queue.pop() {
        for (name, is_dir) in children(&path) {
            let child = if path == "/" {
                format!("/{name}")
            } else {
                format!("{path}/{name}")
            };
            let step = plan.step(&states, &name, is_dir);
            if step.emit {
                emitted.push(child.clone());
            }
            if is_dir && !step.next.is_empty() {
                queue.push((child, step.next));
            }
        }
    }
    emitted.sort();
    emitted
}

#[test]
fn plan_roots() {
    let plan = GlobPlan::parse("/warehouse/db/table/*.parquet").unwrap();
    assert_eq!(plan.root(), "/warehouse/db/table");
    assert_eq!(plan.initial().len(), 1);
    assert!(!plan.emit_root());

    // Escaped wildcards make an all-literal pattern: the root matches.
    let plan = GlobPlan::parse("/a/file\\*name").unwrap();
    assert_eq!(plan.root(), "/a/file*name");
    assert!(plan.initial().is_empty());
    assert!(plan.emit_root());

    // Brace alternatives share only "/data" -> that's the root.
    let plan = GlobPlan::parse("/data/{2024/01,2025/02}/part-*").unwrap();
    assert_eq!(plan.root(), "/data");
    assert_eq!(plan.initial().len(), 2);

    assert!(GlobPlan::parse("/a/**/b/**").is_err()); // multiple '**'
}

#[test]
fn walk_star_and_classes() {
    let tree = vec![
        (
            "/data",
            vec![("a.csv", false), ("b.txt", false), ("sub", true)],
        ),
        ("/data/sub", vec![("c.csv", false)]),
    ];
    let plan = GlobPlan::parse("/data/*.csv").unwrap();
    assert_eq!(run_walk(&plan, &tree), vec!["/data/a.csv"]);

    // '*' matches directories too, but only emits (never lists) them.
    let plan = GlobPlan::parse("/data/*").unwrap();
    assert_eq!(
        run_walk(&plan, &tree),
        vec!["/data/a.csv", "/data/b.txt", "/data/sub"]
    );

    let plan = GlobPlan::parse("/data/[ab].*").unwrap();
    assert_eq!(run_walk(&plan, &tree), vec!["/data/a.csv", "/data/b.txt"]);

    let plan = GlobPlan::parse("/data/*/*.csv").unwrap();
    assert_eq!(run_walk(&plan, &tree), vec!["/data/sub/c.csv"]);

    let plan = GlobPlan::parse("/data/zzz*").unwrap();
    assert!(run_walk(&plan, &tree).is_empty());
}

#[test]
fn walk_crawl() {
    let tree = vec![
        ("/d", vec![("x.parquet", false), ("a", true)]),
        ("/d/a", vec![("y.parquet", false), ("b", true)]),
        ("/d/a/b", vec![("z.parquet", false)]),
    ];
    // Terminal '**' emits everything at every depth, directories included.
    let plan = GlobPlan::parse("/d/**").unwrap();
    assert_eq!(
        run_walk(&plan, &tree),
        vec![
            "/d/a",
            "/d/a/b",
            "/d/a/b/z.parquet",
            "/d/a/y.parquet",
            "/d/x.parquet"
        ]
    );

    // '**' also matches zero levels.
    let plan = GlobPlan::parse("/d/**/*.parquet").unwrap();
    assert_eq!(
        run_walk(&plan, &tree),
        vec!["/d/a/b/z.parquet", "/d/a/y.parquet", "/d/x.parquet"]
    );

    // A component after '**' prunes what gets emitted, not the descent.
    let plan = GlobPlan::parse("/d/**/b/*.parquet").unwrap();
    assert_eq!(run_walk(&plan, &tree), vec!["/d/a/b/z.parquet"]);
}

#[test]
fn walk_braces() {
    let tree = vec![
        ("/d", vec![("jan", true), ("feb", true), ("mar", true)]),
        ("/d/jan", vec![("1.csv", false)]),
        ("/d/feb", vec![("2.csv", false)]),
        ("/d/mar", vec![("3.csv", false)]),
    ];
    let plan = GlobPlan::parse("/d/{jan,feb}/*.csv").unwrap();
    assert_eq!(run_walk(&plan, &tree), vec!["/d/feb/2.csv", "/d/jan/1.csv"]);

    // Overlapping alternatives must not emit duplicates.
    let plan = GlobPlan::parse("/d/{jan,j*}/*.csv").unwrap();
    assert_eq!(run_walk(&plan, &tree), vec!["/d/jan/1.csv"]);
}

fn chars(s: &str) -> Vec<char> {
    s.chars().collect()
}

#[test]
fn stars_collapse_and_match_everything() {
    for name in ["", "a", "a.b", "**", "[", "\\"] {
        assert!(match_component(name, "*"));
        assert!(match_component(name, "***"));
    }
    assert!(match_component("abbbc", "a*b*c"));
    assert!(match_component("ab", "a***b"));
    assert!(!match_component("ba", "a***b"));
    assert!(match_component("aXbYc", "*X*Y*"));
    assert!(!match_component("aYbXc", "*X*Y*"));
}

#[test]
fn question_mark_matches_one_character() {
    assert!(match_component("a", "?"));
    assert!(match_component("\u{e9}", "?"));
    assert!(!match_component("", "?"));
    assert!(!match_component("ab", "?"));
}

#[test]
fn malformed_patterns_match_nothing() {
    for pattern in ["[", "[abc", "[!", "a\\", "[]", "[!]", "*[", "*\\"] {
        for name in ["", "a", "[", "\\", "]", "abc", "a\\"] {
            assert!(!match_component(name, pattern), "{name} {pattern}");
        }
    }
}

#[test]
fn match_of_a_concatenation() {
    // A pattern made of two matches a name made of a match of each.
    assert!(match_component("data1.csv", "data?.csv"));
    assert!(match_component("data1", "data?") && match_component(".csv", ".csv"));
    assert!(match_chars(&chars("ab"), &chars("[a-c]b")));
    assert!(!match_chars(&chars("db"), &chars("[a-c]b")));
}

#[test]
fn classes_tell_where_they_end() {
    let p = chars("[a-c]x");
    assert_eq!(match_class('b', &p, 1), Some(5));
    assert_eq!(match_class('d', &p, 1), None);
    let p = chars("[!a-c]x");
    assert_eq!(match_class('b', &p, 1), None);
    assert_eq!(match_class('d', &p, 1), Some(6));
    // A ']' in the first place is a member, also after '!'.
    assert_eq!(match_class(']', &chars("[]a]"), 1), Some(4));
    assert_eq!(match_class(']', &chars("[!]a]"), 1), None);
    // A '-' before the end is a member.
    assert_eq!(match_class('-', &chars("[a-]"), 1), Some(4));
    // A range the wrong way round holds nothing.
    assert_eq!(match_class('b', &chars("[c-a]"), 1), None);
    // An unclosed class matches nothing.
    assert_eq!(match_class('a', &chars("[abc"), 1), None);
}

#[test]
fn unclosed_group_is_described() {
    let e = expand_braces("/a/{b,c").unwrap_err();
    assert_eq!(classify(&e), HDFS_ERR_INVALID_ARGUMENT);
    assert_eq!(
        e.text,
        "invalid path: Unclosed brace group in glob pattern '/a/{b,c'"
    );
    // The group that is not closed may show up only after one before it is
    // expanded.
    let e = expand_braces("/{a,b}/{c").unwrap_err();
    assert_eq!(
        e.text,
        "invalid path: Unclosed brace group in glob pattern '/a/{c'"
    );
    assert!(expand_braces("{a\\}").is_err());
}

#[test]
fn empty_alternatives_are_kept() {
    assert_eq!(expand_braces("a{,b}").unwrap(), vec!["a", "ab"]);
    assert_eq!(expand_braces("a{}").unwrap(), vec!["a"]);
    assert_eq!(expand_braces("{x\\,y,z}").unwrap(), vec!["x\\,y", "z"]);
    assert_eq!(expand_braces("").unwrap(), vec![""]);
}

#[test]
fn expansions_hold_no_group() {
    for expanded in expand_braces("{a,{b,c}d}{e,f}").unwrap() {
        assert_eq!(expand_braces(&expanded).unwrap(), vec![expanded]);
    }
    assert_eq!(
        expand_braces("{a,{b,c}d}{e,f}").unwrap(),
        vec!["ae", "af", "bde", "bdf", "cde", "cdf"]
    );
}

#[test]
fn components_are_classified() {
    assert!(matches!(parse_component("**"), Component::Crawl));
    match parse_component("a**") {
        Component::Pattern(p) => assert_eq!(p, "a**"),
        other => panic!("{other:?}"),
    }
    match parse_component("a\\*b\\\\") {
        Component::Literal(l) => assert_eq!(l, "a*b\\"),
        other => panic!("{other:?}"),
    }
    // A dangling escape stands for itself.
    match parse_component("abc\\") {
        Component::Literal(l) => assert_eq!(l, "abc\\"),
        other => panic!("{other:?}"),
    }
    match parse_component("[a]") {
        Component::Pattern(p) => assert_eq!(p, "[a]"),
        other => panic!("{other:?}"),
    }
    assert_eq!(parse_components("//a///b/").len(), 2);
    assert!(parse_components("").is_empty());
}

#[test]
fn literal_components_match_as_patterns_do() {
    for text in ["abc", "a\\*b", "\\[x\\]", "a*", "[ab]c", "?"] {
        for name in ["abc", "a*b", "[x]", "ac", "bc", "x", ""] {
            assert_eq!(
                parse_component(text).matches(name),
                match_component(name, text)
            );
        }
    }
}

#[test]
fn two_crawls_are_refused() {
    let e = match GlobPlan::parse("/a/**/b/**") {
        Ok(_) => panic!("accepted"),
        Err(e) => e,
    };
    assert_eq!(classify(&e), HDFS_ERR_INVALID_ARGUMENT);
    assert_eq!(
        e.text,
        "invalid path: Cannot use multiple '**' in one path: '/a/**/b/**'"
    );
    // One in each alternative is fine, and so is one inside a component.
    assert!(GlobPlan::parse("/{a/**,b/**}").is_ok());
    assert!(GlobPlan::parse("/a**/**").is_ok());
}

#[test]
fn plans_without_a_literal_start_at_the_top() {
    let plan = GlobPlan::parse("*/a").unwrap();
    assert_eq!(plan.root(), "/");
    assert!(!plan.emit_root());
    let plan = GlobPlan::parse("").unwrap();
    assert_eq!(plan.root(), "/");
    assert!(plan.emit_root());
    assert!(plan.initial().is_empty());
    let plan = GlobPlan::parse("/a/{b,b/c}").unwrap();
    assert_eq!(plan.root(), "/a/b");
    assert!(plan.emit_root());
    assert_eq!(plan.initial().len(), 1);
}

#[test]
fn steps_enter_directories_only_and_once() {
    let plan = GlobPlan::parse("/d/{**,*}/x").unwrap();
    assert_eq!(plan.initial().len(), 2);
    let as_file = plan.step(plan.initial(), "sub", false);
    assert!(as_file.next.is_empty());
    let as_dir = plan.step(plan.initial(), "sub", true);
    assert!(!as_dir.emit);
    // The crawl goes on, and the star has moved on.
    assert_eq!(as_dir.next.len(), 2);
    assert_ne!(as_dir.next[0], as_dir.next[1]);
    assert!(plan.step(&as_dir.next, "x", false).emit);
    assert!(plan.step(plan.initial(), "x", false).emit);
}

#[test]
fn expansion_of_a_concatenation_is_the_product() {
    let parts = ["a", "{b,c}", "/{d,{e,f}g}", "}", "x\\{", "{,h}", ""];
    for p in parts {
        for q in parts {
            let mut product = Vec::new();
            for x in expand_braces(p).unwrap() {
                for y in expand_braces(q).unwrap() {
                    product.push(format!("{x}{y}"));
                }
            }
            assert_eq!(expand_braces(&format!("{p}{q}")).unwrap(), product);
        }
    }
    // A dangling escape takes the start of what follows with it.
    assert_eq!(expand_braces("a\\").unwrap(), vec!["a\\"]);
    assert_eq!(expand_braces("a\\{b,c}").unwrap(), vec!["a\\{b,c}"]);
}

#[test]
fn root_matches_through_a_literal_alternative_only() {
    for (pattern, root, emit) in [
        ("/a/b", "/a/b", true),
        ("/a/{b,b/*}", "/a/b", true),
        ("/a/{b,c}", "/a", false),
        ("/a/\\*", "/a/*", true),
        ("/a/**", "/a", false),
        ("/a/*", "/a", false),
        ("{,/a}", "/", true),
    ] {
        let plan = GlobPlan::parse(pattern).unwrap();
        assert_eq!(plan.root(), root, "{pattern}");
        assert_eq!(plan.emit_root(), emit, "{pattern}");
    }
}

#[test]
fn a_final_crawl_matches_zero_or_more_levels() {
    let tree = vec![
        ("/d", vec![("a", true), ("g", false)]),
        ("/d/a", vec![("f", false), ("b", true)]),
        ("/d/a/b", vec![("h", false)]),
    ];
    let plan = GlobPlan::parse("/d/*/**").unwrap();
    assert!(plan.step(plan.initial(), "a", true).emit);
    assert_eq!(
        run_walk(&plan, &tree),
        vec!["/d/a", "/d/a/b", "/d/a/b/h", "/d/a/f", "/d/g"]
    );
    let plan = GlobPlan::parse("/d/{a,x}/**").unwrap();
    assert_eq!(
        run_walk(&plan, &tree),
        vec!["/d/a", "/d/a/b", "/d/a/b/h", "/d/a/f"]
    );
    // Two levels at least.
    let plan = GlobPlan::parse("/d/*/*/**").unwrap();
    assert_eq!(run_walk(&plan, &tree), vec!["/d/a/b", "/d/a/b/h", "/d/a/f"]);
    // The root is a match through a fully literal alternative only.
    let plan = GlobPlan::parse("/d/**").unwrap();
    assert_eq!(plan.root(), "/d");
    assert!(!plan.emit_root());
}

#[test]
fn a_state_is_pushed_once() {
    let plan = GlobPlan::parse("/d/{*,**}/x").unwrap();
    let (first, second) = (plan.initial()[0], plan.initial()[1]);
    let mut states = vec![first];
    push_state(&mut states, second);
    assert_eq!(states, vec![first, second]);
    push_state(&mut states, second);
    push_state(&mut states, first);
    assert_eq!(states, vec![first, second]);
}

#[test]
fn a_state_is_entered_once() {
    // Two states lead to the same one.
    let plan = GlobPlan::parse("/**/x/y").unwrap();
    let first = plan.step(plan.initial(), "x", true);
    assert_eq!(first.next.len(), 2);
    let again = plan.step(&first.next, "x", true);
    assert_eq!(again.next, first.next);
}
