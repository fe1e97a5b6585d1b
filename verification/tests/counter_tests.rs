use edit_count::counter::{CountTree, Totals};
use edit_count::events::{
    route_listener_event, DirectoryUpdateEvent, GroupType, ListenerEvent, RoutedEvent, SetEvent,
};
use edit_count::watcher::{update_counts, Count as GroupCount, Counts, DirectoryGroup};
use edit_count::worker::WorkerError;

fn strings(names: &[&str]) -> Vec<String> {
    names.iter().map(|s| s.to_string()).collect()
}

fn raw_event(group: &str, album: &str, files: &[&str]) -> SetEvent {
    SetEvent {
        group_name: group.to_string(),
        album_name: album.to_string(),
        tipe: GroupType::Raw,
        files: strings(files),
    }
}

fn render_event(group: &str, album: &str, files: &[&str]) -> SetEvent {
    SetEvent {
        group_name: group.to_string(),
        album_name: album.to_string(),
        tipe: GroupType::Render,
        files: strings(files),
    }
}

#[test]
fn set_is_idempotent() {
    // Applying an identical snapshot twice yields identical updates.
    let mut tree = CountTree::new();
    let cue1 = tree.set(raw_event("g", "a", &["x.raw", "y.raw"]));
    let cue2 = tree.set(raw_event("g", "a", &["x.raw", "y.raw"]));
    assert_eq!(cue1, cue2);
    assert_eq!(cue1.count.total, 2);
    assert_eq!(cue1.count.raw, 2);
    assert_eq!(cue1.count.render, 0);
}

#[test]
fn totals_accumulate_union_and_never_decrease() {
    // Raw snapshots {a,b}, {b,c}, {d}: totals grow as the union does.
    let mut tree = CountTree::new();
    let c1 = tree.set(raw_event("g", "a", &["a", "b"]));
    assert_eq!(c1.count.total, 2);
    let c2 = tree.set(raw_event("g", "a", &["b", "c"]));
    assert_eq!(c2.count.total, 3);
    let c3 = tree.set(raw_event("g", "a", &["d"]));
    assert_eq!(c3.count.total, 4);
    assert!(c1.count.total <= c2.count.total && c2.count.total <= c3.count.total);
}

#[test]
fn snapshot_replaces_current_but_total_remains() {
    // Raw{a,b,c} then Raw{a}: raw drops to 1 while total stays 3.
    let mut tree = CountTree::new();
    let c1 = tree.set(raw_event("g", "a", &["a", "b", "c"]));
    assert_eq!(c1.count.raw, 3);
    assert_eq!(c1.count.total, 3);
    let c2 = tree.set(raw_event("g", "a", &["a"]));
    assert_eq!(c2.count.raw, 1);
    assert_eq!(c2.count.total, 3);
}

#[test]
fn incoming_files_are_deduplicated() {
    let mut tree = CountTree::new();
    let cue = tree.set(raw_event("g", "a", &["a", "a", "b"]));
    assert_eq!(cue.count.raw, 2);
    assert_eq!(cue.count.total, 2);
}

#[test]
fn render_does_not_touch_totals() {
    let mut tree = CountTree::new();
    let c1 = tree.set(raw_event("g", "a", &["x"]));
    assert_eq!(c1.count.total, 1);
    let c2 = tree.set(render_event("g", "a", &["e1", "e2"]));
    assert_eq!(c2.count.total, 1);
    assert_eq!(c2.count.raw, 1);
    assert_eq!(c2.count.render, 2);
}

#[test]
fn render_only_album_has_zero_total() {
    let mut tree = CountTree::new();
    let cue = tree.set(render_event("g", "a", &["e1"]));
    assert_eq!(cue.count.total, 0);
    assert_eq!(cue.count.raw, 0);
    assert_eq!(cue.count.render, 1);
}

#[test]
fn suppression_of_empty_updates() {
    // A snapshot whose total is zero is not forwarded, but a full count
    // still lists the album with the raw/render counts as observed.
    let mut tree = CountTree::new();
    let out = tree.handle_update(DirectoryUpdateEvent::Snapshot(render_event(
        "g",
        "a",
        &["e1", "e2"],
    )));
    assert!(out.is_empty());
    let full = tree.full_count();
    assert_eq!(full.len(), 1);
    assert_eq!(full[0].group_name, "g");
    assert_eq!(full[0].album_name, "a");
    assert_eq!(full[0].count.total, 0);
    assert_eq!(full[0].count.raw, 0);
    assert_eq!(full[0].count.render, 2);
}

#[test]
fn positive_updates_are_forwarded() {
    let mut tree = CountTree::new();
    let out = tree.handle_update(DirectoryUpdateEvent::Snapshot(raw_event("g", "a", &["x"])));
    assert_eq!(out.len(), 1);
    assert_eq!(out[0].count.total, 1);
}

#[test]
fn refresh_forwards_full_count_unfiltered() {
    let mut tree = CountTree::new();
    tree.set(raw_event("g", "a", &["x"]));
    tree.set(render_event("g", "b", &["e"]));
    let out = tree.handle_update(DirectoryUpdateEvent::Refresh);
    // Both pairs are listed, the zero-total one included.
    assert_eq!(out.len(), 2);
}

#[test]
fn exist_and_remove_are_recorded_nowhere() {
    let mut tree = CountTree::new();
    tree.set(raw_event("g", "a", &["x"]));
    let out = tree.handle_update(DirectoryUpdateEvent::Exist("/p/q".to_string()));
    assert!(out.is_empty());
    let out = tree.handle_update(DirectoryUpdateEvent::Remove("/p/q".to_string()));
    assert!(out.is_empty());
    assert_eq!(tree.full_count().len(), 1);
}

#[test]
fn full_count_lists_every_pair() {
    let mut tree = CountTree::new();
    tree.set(raw_event("g1", "a", &["x"]));
    tree.set(raw_event("g1", "b", &["y", "z"]));
    tree.set(raw_event("g2", "a", &["w"]));
    let full = tree.full_count();
    assert_eq!(full.len(), 3);
    let mut seen: Vec<(String, String, usize)> = full
        .iter()
        .map(|c| (c.group_name.clone(), c.album_name.clone(), c.count.total))
        .collect();
    seen.sort();
    assert_eq!(
        seen,
        vec![
            ("g1".to_string(), "a".to_string(), 1),
            ("g1".to_string(), "b".to_string(), 2),
            ("g2".to_string(), "a".to_string(), 1),
        ]
    );
}

#[test]
fn totals_ledger_direct() {
    let mut totals = Totals::new();
    totals.update_count("a", "g", &strings(&["x", "y"]));
    assert_eq!(totals.get_count("a", "g"), 2);
    totals.update_count("a", "g", &strings(&["y", "z"]));
    assert_eq!(totals.get_count("a", "g"), 3);
    assert_eq!(totals.get_count("other", "g"), 0);
}

#[test]
fn group_counts_table() {
    let mut counts = Counts::new();
    let group = DirectoryGroup {
        name: "trip".to_string(),
        raw_dirs: strings(&["/r/trip"]),
        render_dirs: strings(&["/x/trip"]),
    };
    update_counts(
        &mut counts,
        group,
        &strings(&["i1.raw", "i2.raw"]),
        &strings(&["i1.jpg"]),
    );
    assert_eq!(
        counts.get("trip"),
        Some(GroupCount { total: 2, edited: 1, deleted: 0 })
    );
    assert_eq!(counts.get("absent"), None);
}

#[test]
fn worker_error_messages() {
    let e = WorkerError::new_resource_poisoned("Counter.tree".to_string());
    assert_eq!(
        e.describe(),
        "Attempted to access Counter.tree, but it was poisoned"
    );
    let e = WorkerError::new_thread_panicked("Crawler".to_string());
    assert_eq!(e.describe(), "Crawler panicked.");
}

#[test]
fn coordinator_routes_listener_events() {
    let r = route_listener_event(ListenerEvent::Exist("/p/new".to_string()));
    assert!(matches!(
        r,
        RoutedEvent::Deliver(DirectoryUpdateEvent::Exist(p)) if p == "/p/new"
    ));
    let r = route_listener_event(ListenerEvent::Remove("/p/old".to_string()));
    assert!(matches!(
        r,
        RoutedEvent::Deliver(DirectoryUpdateEvent::Remove(p)) if p == "/p/old"
    ));
    let r = route_listener_event(ListenerEvent::Rescan);
    assert!(matches!(r, RoutedEvent::Recrawl));
}
