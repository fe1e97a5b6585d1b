//! Message types shared by the pipeline stages: file-set snapshots flowing
//! into the aggregator and count updates flowing out of it.

use vstd::prelude::*;

verus! {

/// Whether a file set describes unedited captures (`Raw`) or edited/exported
/// output (`Render`).
#[derive(Debug, Clone, Copy, PartialEq, Eq, Structural)]
pub enum GroupType {
    Raw,
    Render,
}

/// A whole-album snapshot: the complete list of file names currently found in
/// one `(group, album)` directory. The list may contain duplicates; consumers
/// deduplicate.
#[derive(Debug, Clone, PartialEq)]
pub struct SetEvent {
    pub group_name: String,
    pub album_name: String,
    pub tipe: GroupType,
    pub files: Vec<String>,
}

/// Mathematical model of a [`SetEvent`]: names as character sequences.
pub struct SetEventView {
    pub group_name: Seq<char>,
    pub album_name: Seq<char>,
    pub tipe: GroupType,
    pub files: Seq<Seq<char>>,
}

impl View for SetEvent {
    type V = SetEventView;

    open spec fn view(&self) -> SetEventView {
        SetEventView {
            group_name: self.group_name@,
            album_name: self.album_name@,
            tipe: self.tipe,
            files: self.files.deep_view(),
        }
    }
}

impl DeepView for SetEvent {
    type V = SetEventView;

    open spec fn deep_view(&self) -> SetEventView {
        self.view()
    }
}

/// A count triple for one album: `total` is the accumulate-only ledger count,
/// `raw` and `render` are the sizes of the most recent snapshots.
#[derive(Debug, Clone, Copy, PartialEq, Eq, Structural)]
pub struct Count {
    pub total: usize,
    pub raw: usize,
    pub render: usize,
}

/// Mathematical model of a [`Count`]: the three counts as unbounded naturals.
pub struct CountView {
    pub total: nat,
    pub raw: nat,
    pub render: nat,
}

impl View for Count {
    type V = CountView;

    open spec fn view(&self) -> CountView {
        CountView { total: self.total as nat, raw: self.raw as nat, render: self.render as nat }
    }
}

/// A point-in-time count snapshot for one `(group, album)` pair; subscribers
/// overwrite their local view of that pair on receipt.
#[derive(Debug, Clone, PartialEq)]
pub struct CountUpdateEvent {
    pub group_name: String,
    pub album_name: String,
    pub count: Count,
}

/// Mathematical model of a [`CountUpdateEvent`].
pub struct CountUpdateEventView {
    pub group_name: Seq<char>,
    pub album_name: Seq<char>,
    pub count: CountView,
}

impl View for CountUpdateEvent {
    type V = CountUpdateEventView;

    open spec fn view(&self) -> CountUpdateEventView {
        CountUpdateEventView {
            group_name: self.group_name@,
            album_name: self.album_name@,
            count: self.count@,
        }
    }
}

/// Input messages of the count aggregator: notifications from the external
/// change source plus whole-album snapshots from the crawl engine.
#[derive(Debug)]
pub enum DirectoryUpdateEvent {
    Exist(String),
    Remove(String),
    Snapshot(SetEvent),
    Refresh,
}

/// Signals produced by the external filesystem-change source.
#[derive(Debug)]
pub enum ListenerEvent {
    Exist(String),
    Remove(String),
    Rescan,
}

/// What the pipeline coordinator does with one change-source signal.
#[derive(Debug)]
pub enum RoutedEvent {
    /// Put this message on the aggregator's input queue.
    Deliver(DirectoryUpdateEvent),
    /// Run a fresh crawl pass and re-apply its snapshots.
    Recrawl,
}

/// The pipeline coordinator's routing of one change-source signal:
/// existence and removal notifications pass through to the aggregator's
/// queue unchanged; a rescan request triggers a fresh crawl pass whose
/// snapshots are re-applied.
pub fn route_listener_event(event: ListenerEvent) -> (r: RoutedEvent)
    ensures
        match event {
            ListenerEvent::Exist(p) => r == RoutedEvent::Deliver(DirectoryUpdateEvent::Exist(p)),
            ListenerEvent::Remove(p) => r == RoutedEvent::Deliver(DirectoryUpdateEvent::Remove(p)),
            ListenerEvent::Rescan => r == RoutedEvent::Recrawl,
        },
{
    match event {
        ListenerEvent::Exist(path) => RoutedEvent::Deliver(DirectoryUpdateEvent::Exist(path)),
        ListenerEvent::Remove(path) => RoutedEvent::Deliver(DirectoryUpdateEvent::Remove(path)),
        ListenerEvent::Rescan => RoutedEvent::Recrawl,
    }
}

} // verus!
