use edit_count::layout::{parse_path, parse_paths, watch_root, Album, AlbumType, Group, PathComponent};

fn dir_of(segs: &[&str]) -> PathComponent {
    PathComponent::Dir(segs.iter().map(|s| s.to_string()).collect())
}

#[test]
fn parse_simple_album() {
    let path = parse_path("/root/[A]").unwrap();
    assert_eq!(
        path,
        vec![
            dir_of(&["root"]),
            PathComponent::Album(Album { min: 1, max: 1, tipe: AlbumType::Single }),
        ]
    );
}

#[test]
fn parse_group_album_and_suffix() {
    let path = parse_path("/root/[G1]/[A1.3]/JPEG").unwrap();
    assert_eq!(
        path,
        vec![
            dir_of(&["root"]),
            PathComponent::Group(Group { depth: 1 }),
            PathComponent::Album(Album { min: 1, max: 3, tipe: AlbumType::Range }),
            dir_of(&["JPEG"]),
        ]
    );
}

#[test]
fn parse_album_depth_forms() {
    // A bare minimum depth other than 1 searches exactly that depth.
    let path = parse_path("/r/[A2]").unwrap();
    assert_eq!(
        path[1],
        PathComponent::Album(Album { min: 2, max: 2, tipe: AlbumType::Depth })
    );
    // A dot makes it a range; omitted bounds default to 1 and unbounded.
    let path = parse_path("/r/[A2.4]").unwrap();
    assert_eq!(
        path[1],
        PathComponent::Album(Album { min: 2, max: 4, tipe: AlbumType::Range })
    );
    let path = parse_path("/r/[A.3]").unwrap();
    assert_eq!(
        path[1],
        PathComponent::Album(Album { min: 1, max: 3, tipe: AlbumType::Range })
    );
    let path = parse_path("/r/[A1.]").unwrap();
    assert_eq!(
        path[1],
        PathComponent::Album(Album { min: 1, max: usize::MAX, tipe: AlbumType::Range })
    );
    // An explicit minimum of 1 is still the plain direct-children form.
    let path = parse_path("/r/[A1]").unwrap();
    assert_eq!(
        path[1],
        PathComponent::Album(Album { min: 1, max: 1, tipe: AlbumType::Single })
    );
}

#[test]
fn parse_group_depth() {
    let path = parse_path("/r/[G2]/[A]").unwrap();
    assert_eq!(path[1], PathComponent::Group(Group { depth: 2 }));
    let path = parse_path("/r/[G]/[A]").unwrap();
    assert_eq!(path[1], PathComponent::Group(Group { depth: 1 }));
}

#[test]
fn parse_invalid_operator_position() {
    // "/x/[B]" -- the bad segment starts at offset 3 and is 3 characters long.
    let err = parse_path("/x/[B]/y/[A]").unwrap_err();
    assert_eq!(err.start(), 3);
    assert_eq!(err.length(), Some(3));
    assert!(err.message().starts_with("Invalid operator."));
    assert_eq!(err.path(), Some("/x/[B]/y/[A]"));
}

#[test]
fn parse_invalid_empty_brackets() {
    let err = parse_path("/x/[]/[A]").unwrap_err();
    assert!(err.message().starts_with("Invalid operator."));
}

#[test]
fn parse_missing_album() {
    let err = parse_path("/x/y").unwrap_err();
    assert_eq!(err.message(), "Missing Album operator.");
    assert_eq!(err.start(), 0);
    assert_eq!(err.length(), None);
}

#[test]
fn parse_multiple_albums() {
    let err = parse_path("/x/[A]/[A2]").unwrap_err();
    assert!(err.message().starts_with("Multiple Album operators."));
}

#[test]
fn parse_trailing_literal_is_kept() {
    let path = parse_path("/a/[A]/b/c").unwrap();
    assert_eq!(path.len(), 3);
    assert_eq!(path[2], dir_of(&["b", "c"]));
}

#[test]
fn parse_empty_segments_are_dropped_from_literals() {
    let path = parse_path("//[A]").unwrap();
    assert_eq!(
        path,
        vec![
            dir_of(&[]),
            PathComponent::Album(Album { min: 1, max: 1, tipe: AlbumType::Single }),
        ]
    );
}

#[test]
fn parse_backslash_separators() {
    let path = parse_path("\\r\\[A]").unwrap();
    assert_eq!(path[0], dir_of(&["r"]));
}

#[test]
fn parse_paths_reports_first_failure() {
    let pats = vec!["/a/[A]".to_string(), "/b/[Q]/[A]".to_string()];
    let err = parse_paths(&pats).unwrap_err();
    assert!(err.message().starts_with("Invalid operator."));

    let pats = vec!["/a/[A]".to_string(), "/b/[A2]".to_string()];
    let paths = parse_paths(&pats).unwrap();
    assert_eq!(paths.len(), 2);
}

#[test]
fn watch_root_is_leading_literal() {
    let path = parse_path("/a/b/[G1]/c/[A]").unwrap();
    assert_eq!(watch_root(&path), vec!["a".to_string(), "b".to_string()]);
    let path = parse_path("/[A]").unwrap();
    assert!(watch_root(&path).is_empty());
}
