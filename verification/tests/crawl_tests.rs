use edit_count::counter::CountTree;
use edit_count::crawl::{crawl_layout, crawl_pattern, deep_list};
use edit_count::events::{GroupType, SetEvent};
use edit_count::fstree::DirTree;
use edit_count::layout::{parse_path, DirectoryLayout};

fn node(name: &str, dirs: Vec<DirTree>, files: &[&str]) -> DirTree {
    DirTree {
        name: name.to_string(),
        dirs,
        files: files.iter().map(|s| s.to_string()).collect(),
    }
}

fn pairs_of(events: &[SetEvent]) -> Vec<(String, String)> {
    let mut v: Vec<(String, String)> = events
        .iter()
        .map(|e| (e.group_name.clone(), e.album_name.clone()))
        .collect();
    v.sort();
    v
}

#[test]
fn compile_and_crawl_known_tree() {
    // "/root/[G1]/[A1.3]/JPEG" against a hand-built tree yields a
    // deterministic, order-independent set of (group, album) pairs.
    let tree = node(
        "",
        vec![node(
            "root",
            vec![
                node(
                    "g1",
                    vec![
                        node("a", vec![node("JPEG", vec![], &["p1.jpg", "p2.jpg"])], &[]),
                        node(
                            "b",
                            vec![node("sub", vec![node("JPEG", vec![], &["p3.jpg"])], &[])],
                            &[],
                        ),
                    ],
                    &[],
                ),
                node("g2", vec![node("c", vec![node("JPEG", vec![], &[])], &[])], &[]),
            ],
            &[],
        )],
        &[],
    );
    let pattern = parse_path("/root/[G1]/[A1.3]/JPEG").unwrap();
    let events = crawl_pattern(&tree, &pattern, GroupType::Raw);

    let expected: Vec<(String, String)> = vec![
        ("g1", "a"),
        ("g1", "a/JPEG"),
        ("g1", "b"),
        ("g1", "b/sub"),
        ("g1", "b/sub/JPEG"),
        ("g2", "c"),
        ("g2", "c/JPEG"),
    ]
    .into_iter()
    .map(|(g, a)| (g.to_string(), a.to_string()))
    .collect();
    assert_eq!(pairs_of(&events), expected);

    // The files come from each album's path extended by the common suffix.
    for e in &events {
        match (e.group_name.as_str(), e.album_name.as_str()) {
            ("g1", "a") => assert_eq!(e.files, vec!["p1.jpg".to_string(), "p2.jpg".to_string()]),
            ("g1", "b/sub") => assert_eq!(e.files, vec!["p3.jpg".to_string()]),
            _ => assert!(e.files.is_empty()),
        }
    }
}

#[test]
fn depth_window_collects_levels_two_to_four() {
    // A five-level chain: [A2.4] reaches levels 2, 3 and 4 only.
    let tree = node(
        "",
        vec![node(
            "l1",
            vec![node(
                "l2",
                vec![node(
                    "l3",
                    vec![node("l4", vec![node("l5", vec![], &[])], &[])],
                    &[],
                )],
                &[],
            )],
            &[],
        )],
        &[],
    );
    let found = deep_list(&tree, 1, 4);
    let expected: Vec<Vec<String>> = vec![
        vec!["l1".to_string(), "l2".to_string()],
        vec!["l1".to_string(), "l2".to_string(), "l3".to_string()],
        vec![
            "l1".to_string(),
            "l2".to_string(),
            "l3".to_string(),
            "l4".to_string(),
        ],
    ];
    assert_eq!(found, expected);

    // The same window through a whole pattern crawl.
    let base = node("", vec![node("base", tree.dirs, &[])], &[]);
    let pattern = parse_path("/base/[A2.4]").unwrap();
    let events = crawl_pattern(&base, &pattern, GroupType::Raw);
    let albums: Vec<String> = events.iter().map(|e| e.album_name.clone()).collect();
    assert_eq!(
        albums,
        vec![
            "l1/l2".to_string(),
            "l1/l2/l3".to_string(),
            "l1/l2/l3/l4".to_string(),
        ]
    );
}

#[test]
fn no_group_marker_yields_single_default_group() {
    let tree = node(
        "",
        vec![node(
            "r",
            vec![node("x", vec![], &["f"]), node("y", vec![], &[])],
            &[],
        )],
        &[],
    );
    let pattern = parse_path("/r/[A]").unwrap();
    let events = crawl_pattern(&tree, &pattern, GroupType::Raw);
    assert_eq!(events.len(), 2);
    for e in &events {
        assert_eq!(e.group_name, "%default%");
    }
}

#[test]
fn nested_group_markers_join_names_with_colons() {
    let tree = node(
        "",
        vec![node(
            "r",
            vec![node("g", vec![node("h", vec![node("alb", vec![], &["f"])], &[])], &[])],
            &[],
        )],
        &[],
    );
    let pattern = parse_path("/r/[G1]/[G1]/[A]").unwrap();
    let events = crawl_pattern(&tree, &pattern, GroupType::Raw);
    assert_eq!(events.len(), 1);
    assert_eq!(events[0].group_name, "g:h");
    assert_eq!(events[0].album_name, "alb");
}

#[test]
fn deep_group_marker_joins_segments_with_separator() {
    let tree = node(
        "",
        vec![node(
            "r",
            vec![node("g", vec![node("h", vec![node("alb", vec![], &["f"])], &[])], &[])],
            &[],
        )],
        &[],
    );
    let pattern = parse_path("/r/[G2]/[A]").unwrap();
    let events = crawl_pattern(&tree, &pattern, GroupType::Raw);
    assert_eq!(events.len(), 1);
    assert_eq!(events[0].group_name, "g/h");
    assert_eq!(events[0].album_name, "alb");
}

#[test]
fn missing_root_yields_no_albums() {
    // The pattern's root does not exist, while other top-level directories
    // do: the failed group marker must not fall back to the snapshot root.
    let tree = node(
        "",
        vec![
            node("other", vec![node("x", vec![], &["f"])], &[]),
            node("more", vec![], &[]),
        ],
        &[],
    );
    let pattern = parse_path("/nowhere/[G1]/[A]").unwrap();
    let events = crawl_pattern(&tree, &pattern, GroupType::Raw);
    assert!(events.is_empty());
}

#[test]
fn group_marker_matching_nothing_yields_no_albums() {
    // The root exists but holds no subdirectory: the group marker matches
    // nothing, so the album marker has no context and records nothing.
    let tree = node(
        "",
        vec![
            node("r", vec![], &["stray.txt"]),
            node("other", vec![node("x", vec![], &["f"])], &[]),
        ],
        &[],
    );
    let pattern = parse_path("/r/[G1]/[A]").unwrap();
    let events = crawl_pattern(&tree, &pattern, GroupType::Raw);
    assert!(events.is_empty());

    // A second group marker after a failed one finds no anchor either.
    let pattern = parse_path("/r/[G1]/[G1]/[A]").unwrap();
    let events = crawl_pattern(&tree, &pattern, GroupType::Raw);
    assert!(events.is_empty());
}

#[test]
fn end_to_end_crawl_and_count() {
    // raw = ["/r/[G1]/[A]"], tree /r/alpha/x holding f1.raw and /r/beta/y
    // holding f2.raw: two snapshots, then a full count of two pairs, each
    // {total: 1, raw: 1, render: 0}.
    let tree = node(
        "",
        vec![node(
            "r",
            vec![
                node("alpha", vec![node("x", vec![], &["f1.raw"])], &[]),
                node("beta", vec![node("y", vec![], &["f2.raw"])], &[]),
            ],
            &[],
        )],
        &[],
    );
    let layout = DirectoryLayout {
        raw_dirs: vec![parse_path("/r/[G1]/[A]").unwrap()],
        render_dirs: vec![],
    };
    let events = crawl_layout(&tree, &layout);
    assert_eq!(events.len(), 2);
    assert_eq!(events[0].group_name, "alpha");
    assert_eq!(events[0].album_name, "x");
    assert_eq!(events[0].tipe, GroupType::Raw);
    assert_eq!(events[0].files, vec!["f1.raw".to_string()]);
    assert_eq!(events[1].group_name, "beta");
    assert_eq!(events[1].album_name, "y");
    assert_eq!(events[1].files, vec!["f2.raw".to_string()]);

    let mut count_tree = CountTree::new();
    for e in events {
        count_tree.set(e);
    }
    let full = count_tree.full_count();
    assert_eq!(full.len(), 2);
    for cue in &full {
        assert_eq!(cue.count.total, 1);
        assert_eq!(cue.count.raw, 1);
        assert_eq!(cue.count.render, 0);
    }
}

#[test]
fn render_patterns_are_tagged_render() {
    let tree = node(
        "",
        vec![node("e", vec![node("x", vec![], &["o.jpg"])], &[])],
        &[],
    );
    let layout = DirectoryLayout {
        raw_dirs: vec![],
        render_dirs: vec![parse_path("/e/[A]").unwrap()],
    };
    let events = crawl_layout(&tree, &layout);
    assert_eq!(events.len(), 1);
    assert_eq!(events[0].tipe, GroupType::Render);
    assert_eq!(events[0].group_name, "%default%");
}

#[test]
fn zero_depth_operators() {
    // An album depth of zero gives an empty search window: no directory
    // lies at depth zero below an anchor.
    let tree = node(
        "",
        vec![node("r", vec![node("x", vec![], &["f"])], &[])],
        &[],
    );
    let pattern = parse_path("/r/[A0]").unwrap();
    let events = crawl_pattern(&tree, &pattern, GroupType::Raw);
    assert!(events.is_empty());
    // A group depth of zero matches nothing; the group marker ran, so the
    // album marker has no context and records nothing.
    let pattern = parse_path("/r/[G0]/[A]").unwrap();
    let events = crawl_pattern(&tree, &pattern, GroupType::Raw);
    assert!(events.is_empty());
}
