//! The crawl engine: walks a directory-tree snapshot according to a compiled
//! pattern, discovers every concrete `(group, album)` pair, and emits one
//! whole-album file snapshot per discovered album.

use crate::events::{GroupType, SetEvent, SetEventView};
use crate::fstree::{
    child_of, child_search, file_list, lemma_node_at_concat, lemma_node_at_step, node_at, DirTree,
};
use crate::layout::{Album, AlbumType, DirectoryLayout, Group, PathComponent, PathComponentView};
use vstd::prelude::*;

verus! {

/// The segments of a relative path joined by the separator: the name a
/// matched directory contributes.
pub open spec fn join_segs(p: Seq<Seq<char>>, sep: char) -> Seq<char>
    decreases p.len(),
{
    if p.len() == 0 {
        Seq::<char>::empty()
    } else if p.len() == 1 {
        p[0]
    } else {
        join_segs(p.drop_last(), sep) + seq![sep] + p.last()
    }
}

/// The contributions of the first `j` children of `t` to the depth-windowed
/// listing: a child itself once the filter depth is used up, plus its own
/// subtree's contributions one level deeper, each prefixed with the child's
/// name. `sd` levels remain to search; levels are collected once `fd <= 0`.
pub open spec fn deep_list_upto(t: DirTree, fd: int, sd: int, j: int) -> Seq<Seq<Seq<char>>>
    decreases sd, j,
{
    if sd <= 0 || j <= 0 {
        Seq::<Seq<Seq<char>>>::empty()
    } else {
        let c = t.dirs@[j - 1];
        let head: Seq<Seq<Seq<char>>> = if fd <= 0 {
            seq![seq![c.name@]]
        } else {
            Seq::<Seq<Seq<char>>>::empty()
        };
        let deeper = deep_list_upto(c, fd - 1, sd - 1, c.dirs@.len() as int).map_values(
            |p: Seq<Seq<char>>| seq![c.name@] + p,
        );
        deep_list_upto(t, fd, sd, j - 1) + head + deeper
    }
}

/// The depth-windowed listing below `t`: the relative paths of every
/// directory whose depth `d` satisfies `fd < d <= sd`.
pub open spec fn spec_deep_list(t: DirTree, fd: int, sd: int) -> Seq<Seq<Seq<char>>> {
    deep_list_upto(t, fd, sd, t.dirs@.len() as int)
}

/// Any two non-positive filter depths select the same listing: the filter is
/// already used up.
proof fn lemma_deep_list_nonpos_fd(t: DirTree, fd1: int, fd2: int, sd: int, j: int)
    requires
        fd1 <= 0,
        fd2 <= 0,
    ensures
        deep_list_upto(t, fd1, sd, j) == deep_list_upto(t, fd2, sd, j),
    decreases sd, j,
{
    if sd <= 0 || j <= 0 {
    } else {
        lemma_deep_list_nonpos_fd(t, fd1, fd2, sd, j - 1);
        let c = t.dirs@[j - 1];
        lemma_deep_list_nonpos_fd(c, fd1 - 1, fd2 - 1, sd - 1, c.dirs@.len() as int);
    }
}

/// Prepend `name` as the leading segment of a copy of `p`.
fn prefix_path(name: &String, p: &Vec<String>) -> (q: Vec<String>)
    ensures
        q.deep_view() == seq![name@] + p.deep_view(),
{
    let mut q: Vec<String> = Vec::new();
    q.push(name.clone());
    let mut l: usize = 0;
    proof {
        assert(q.deep_view() =~= seq![name@] + p.deep_view().take(0));
    }
    while l < p.len()
        invariant
            l <= p@.len(),
            q.deep_view() == seq![name@] + p.deep_view().take(l as int),
        decreases p@.len() - l,
    {
        let ghost pre = q.deep_view();
        q.push(p[l].clone());
        proof {
            assert(q.deep_view() =~= pre.push(p.deep_view()[l as int]));
            assert(q.deep_view() =~= seq![name@] + p.deep_view().take(l + 1));
        }
        l += 1;
    }
    proof {
        assert(p.deep_view().take(p.deep_view().len() as int) =~= p.deep_view());
    }
    q
}

/// Breadth of the depth window below `t`: every directory at depth `d` with
/// `filter_depth < d <= search_depth`, as a path of segments relative to `t`.
pub fn deep_list(t: &DirTree, filter_depth: usize, search_depth: usize) -> (r: Vec<Vec<String>>)
    ensures
        r.deep_view() == spec_deep_list(*t, filter_depth as int, search_depth as int),
    decreases search_depth,
{
    let mut r: Vec<Vec<String>> = Vec::new();
    proof {
        assert(r.deep_view() =~= Seq::<Seq<Seq<char>>>::empty());
    }
    if search_depth == 0 {
        return r;
    }
    let mut j: usize = 0;
    while j < t.dirs.len()
        invariant
            j <= t.dirs@.len(),
            search_depth >= 1,
            r.deep_view() == deep_list_upto(*t, filter_depth as int, search_depth as int, j as int),
        decreases t.dirs@.len() - j,
    {
        let c = &t.dirs[j];
        let ghost cv = t.dirs@[j as int];
        let ghost base1 = r.deep_view();
        let ghost head: Seq<Seq<Seq<char>>> = if filter_depth == 0 {
            seq![seq![cv.name@]]
        } else {
            Seq::<Seq<Seq<char>>>::empty()
        };
        if filter_depth == 0 {
            let mut single: Vec<String> = Vec::new();
            single.push(c.name.clone());
            proof {
                assert(single.deep_view() =~= seq![cv.name@]);
            }
            r.push(single);
            proof {
                assert(r.deep_view() =~= base1 + head);
            }
        } else {
            proof {
                assert(r.deep_view() =~= base1 + head);
            }
        }
        let sub = deep_list(
            c,
            if filter_depth == 0 {
                0
            } else {
                filter_depth - 1
            },
            search_depth - 1,
        );
        let ghost subv = sub.deep_view();
        let ghost mapped = deep_list_upto(
            cv,
            filter_depth as int - 1,
            search_depth as int - 1,
            cv.dirs@.len() as int,
        ).map_values(|p: Seq<Seq<char>>| seq![cv.name@] + p);
        proof {
            if filter_depth == 0 {
                lemma_deep_list_nonpos_fd(
                    cv,
                    0,
                    filter_depth as int - 1,
                    search_depth as int - 1,
                    cv.dirs@.len() as int,
                );
            }
            assert(subv == deep_list_upto(
                cv,
                filter_depth as int - 1,
                search_depth as int - 1,
                cv.dirs@.len() as int,
            ));
            assert(mapped == subv.map_values(|p: Seq<Seq<char>>| seq![cv.name@] + p));
        }
        let ghost base2 = r.deep_view();
        let mut k: usize = 0;
        proof {
            assert(r.deep_view() =~= base2 + mapped.take(0));
        }
        while k < sub.len()
            invariant
                k <= sub@.len(),
                subv == sub.deep_view(),
                subv.len() == sub@.len(),
                mapped == subv.map_values(|p: Seq<Seq<char>>| seq![cv.name@] + p),
                cv == t.dirs@[j as int],
                j < t.dirs@.len(),
                r.deep_view() == base2 + mapped.take(k as int),
            decreases sub@.len() - k,
        {
            let ghost pre = r.deep_view();
            let q = prefix_path(&t.dirs[j].name, &sub[k]);
            proof {
                assert(q.deep_view() == seq![cv.name@] + subv[k as int]);
                assert(mapped[k as int] == seq![cv.name@] + subv[k as int]);
            }
            r.push(q);
            proof {
                assert(r.deep_view() =~= pre.push(mapped[k as int]));
                assert(base2 + mapped.take(k + 1) =~= (base2 + mapped.take(k as int)).push(
                    mapped[k as int],
                ));
            }
            k += 1;
        }
        proof {
            assert(mapped.take(mapped.len() as int) =~= mapped);
            assert(r.deep_view() =~= base2 + mapped);
            assert(r.deep_view() =~= base1 + head + mapped);
            assert(deep_list_upto(
                *t,
                filter_depth as int,
                search_depth as int,
                j + 1,
            ) == deep_list_upto(*t, filter_depth as int, search_depth as int, j as int) + head
                + mapped);
        }
        j += 1;
    }
    r
}

/// A group context discovered during a crawl pass: its hierarchical
/// colon-joined name and its directory path (segments from the tree root).
pub struct CtxV {
    pub name: Seq<char>,
    pub path: Seq<Seq<char>>,
}

/// The crawl engine's state while it processes one pattern's components:
/// the pending literal segments, the current group contexts, the
/// `(group, albums)` results recorded so far, and whether a group marker has
/// run yet. The last distinguishes "no group marker yet" (the implicit root
/// context, or the synthetic `"%default%"` group) from "a group marker ran
/// and matched nothing" (no context at all: nothing is anchored, so nothing
/// is discovered).
pub struct CrawlState {
    pub cache: Seq<Seq<char>>,
    pub groups: Seq<CtxV>,
    pub filled: Seq<(CtxV, Seq<CtxV>)>,
    pub saw_group: bool,
}

/// The crawl state before any component is processed.
pub open spec fn init_crawl() -> CrawlState {
    CrawlState {
        cache: Seq::<Seq<char>>::empty(),
        groups: Seq::<CtxV>::empty(),
        filled: Seq::<(CtxV, Seq<CtxV>)>::empty(),
        saw_group: false,
    }
}

/// The depth-windowed listing rooted at `base` below the tree root, or the
/// empty listing if no directory lies at `base`.
pub open spec fn entries_at(t: DirTree, base: Seq<Seq<char>>, fd: int, sd: int) -> Seq<
    Seq<Seq<char>>,
> {
    match node_at(t, base) {
        Some(n) => spec_deep_list(n, fd, sd),
        None => Seq::<Seq<Seq<char>>>::empty(),
    }
}

/// The contexts a group marker derives from one existing context: one per
/// matched directory, named `old-name:relative-path`.
pub open spec fn group_ctxs_from(t: DirTree, gc: CtxV, cache: Seq<Seq<char>>, depth: int) -> Seq<
    CtxV,
> {
    entries_at(t, gc.path + cache, depth - 1, depth).map_values(
        |e: Seq<Seq<char>>| CtxV {
            name: gc.name + seq![':'] + join_segs(e, '/'),
            path: gc.path + cache + e,
        },
    )
}

/// The contexts the first group marker derives from the implicit root
/// context: one per matched directory, named by its relative path alone.
pub open spec fn root_group_ctxs(t: DirTree, cache: Seq<Seq<char>>, depth: int) -> Seq<CtxV> {
    entries_at(t, cache, depth - 1, depth).map_values(
        |e: Seq<Seq<char>>| CtxV { name: join_segs(e, '/'), path: cache + e },
    )
}

/// The new contexts contributed by the first `i` existing contexts.
pub open spec fn groups_upto(
    t: DirTree,
    gs: Seq<CtxV>,
    cache: Seq<Seq<char>>,
    depth: int,
    i: int,
) -> Seq<CtxV>
    decreases i,
{
    if i <= 0 {
        Seq::<CtxV>::empty()
    } else {
        groups_upto(t, gs, cache, depth, i - 1) + group_ctxs_from(t, gs[i - 1], cache, depth)
    }
}

/// What a group marker does: replace the context list with the matched
/// directories one level of grouping deeper, and reset the literal buffer.
/// The first group marker expands the implicit root context; once any group
/// marker has run, an empty context list means the previous marker matched
/// nothing, and no further context can be derived.
pub open spec fn group_step(t: DirTree, st: CrawlState, g: Group) -> CrawlState {
    let new_groups = if st.groups.len() == 0 {
        if st.saw_group {
            Seq::<CtxV>::empty()
        } else {
            root_group_ctxs(t, st.cache, g.depth as int)
        }
    } else {
        groups_upto(t, st.groups, st.cache, g.depth as int, st.groups.len() as int)
    };
    CrawlState {
        cache: Seq::<Seq<char>>::empty(),
        groups: new_groups,
        filled: st.filled,
        saw_group: true,
    }
}

/// The `(filter_depth, search_depth)` window of an album marker.
pub open spec fn album_window(a: Album) -> (int, int) {
    match a.tipe {
        AlbumType::Single => (0int, 1int),
        AlbumType::Depth => (a.min as int - 1, a.min as int),
        AlbumType::Range => (a.min as int - 1, a.max as int),
    }
}

/// The albums an album marker discovers under one group context: one per
/// matched directory, named by its relative path.
pub open spec fn album_ctxs(t: DirTree, gc: CtxV, cache: Seq<Seq<char>>, a: Album) -> Seq<CtxV> {
    entries_at(t, gc.path + cache, album_window(a).0, album_window(a).1).map_values(
        |e: Seq<Seq<char>>| CtxV { name: join_segs(e, '/'), path: gc.path + cache + e },
    )
}

/// Law: under a well-formed tree, one album marker never discovers the same
/// directory twice for one group context — the discovered albums form a
/// set, each with its own path.
pub proof fn lemma_album_ctxs_distinct(t: DirTree, gc: CtxV, cache: Seq<Seq<char>>, a: Album)
    requires
        t.wf(),
    ensures
        ({
            let albums = album_ctxs(t, gc, cache, a);
            forall|i: int, j: int|
                0 <= i < j < albums.len() ==> (#[trigger] albums[i]).path != (
                #[trigger] albums[j]).path
        }),
{
    let base = gc.path + cache;
    let albums = album_ctxs(t, gc, cache, a);
    match node_at(t, base) {
        Some(n) => {
            assert(n.wf()) by {
                lemma_node_at_wf(t, base);
            }
            let es = spec_deep_list(n, album_window(a).0, album_window(a).1);
            lemma_deep_list_no_dup(n, album_window(a).0, album_window(a).1);
            assert forall|i: int, j: int| 0 <= i < j < albums.len() implies (
            #[trigger] albums[i]).path != (#[trigger] albums[j]).path by {
                assert(albums[i].path == base + es[i] && albums[j].path == base + es[j]);
                assert(es[i] != es[j]);
                if base + es[i] == base + es[j] {
                    assert((base + es[i]).skip(base.len() as int) =~= es[i]);
                    assert((base + es[j]).skip(base.len() as int) =~= es[j]);
                }
            }
        },
        None => {},
    }
}

/// Every directory reached inside a well-formed tree is well-formed.
proof fn lemma_node_at_wf(t: DirTree, path: Seq<Seq<char>>)
    requires
        t.wf(),
        node_at(t, path) is Some,
    ensures
        node_at(t, path)->Some_0.wf(),
    decreases path.len(),
{
    if path.len() > 0 {
        let c = child_of(t, path[0])->Some_0;
        assert(c.wf()) by {
            lemma_child_of_wf(t.dirs@, path[0]);
        }
        lemma_node_at_wf(c, path.skip(1));
    }
}

/// A found child is one of the (well-formed) children.
proof fn lemma_child_of_wf(ds: Seq<DirTree>, name: Seq<char>)
    requires
        forall|i: int| 0 <= i < ds.len() ==> (#[trigger] ds[i]).wf(),
        child_search(ds, name) is Some,
    ensures
        child_search(ds, name)->Some_0.wf(),
    decreases ds.len(),
{
    if ds.len() > 0 {
        if ds[0].name@ == name {
        } else {
            let d = ds.skip(1);
            assert(forall|i: int| 0 <= i < d.len() ==> (#[trigger] d[i]).wf()) by {
                assert(forall|i: int| 0 <= i < d.len() ==> d[i] == ds[i + 1]);
            }
            lemma_child_of_wf(d, name);
        }
    }
}

/// The `(group, albums)` records contributed by the first `i` contexts.
pub open spec fn albums_upto(
    t: DirTree,
    gs: Seq<CtxV>,
    cache: Seq<Seq<char>>,
    a: Album,
    i: int,
) -> Seq<(CtxV, Seq<CtxV>)>
    decreases i,
{
    if i <= 0 {
        Seq::<(CtxV, Seq<CtxV>)>::empty()
    } else {
        albums_upto(t, gs, cache, a, i - 1) + seq![
            (gs[i - 1], album_ctxs(t, gs[i - 1], cache, a)),
        ]
    }
}

/// The synthetic group every layout without group markers falls into.
pub open spec fn default_ctx() -> CtxV {
    CtxV { name: "%default%"@, path: Seq::<Seq<char>>::empty() }
}

/// What the album marker does: record `(group, albums)` for every context,
/// then reset contexts and literal buffer. When no group marker has run at
/// all, the albums fall into the one synthetic `"%default%"` context; when a
/// group marker ran and matched nothing, there is no context and the marker
/// records no albums (a pattern whose root does not exist yields zero
/// discovered albums, not a failure).
pub open spec fn album_step(t: DirTree, st: CrawlState, a: Album) -> CrawlState {
    let gs = if st.groups.len() == 0 && !st.saw_group {
        seq![default_ctx()]
    } else {
        st.groups
    };
    CrawlState {
        cache: Seq::<Seq<char>>::empty(),
        groups: Seq::<CtxV>::empty(),
        filled: st.filled + albums_upto(t, gs, st.cache, a, gs.len() as int),
        saw_group: st.saw_group,
    }
}

/// What one pattern component does to the crawl state.
pub open spec fn comp_step(t: DirTree, st: CrawlState, c: PathComponentView) -> CrawlState {
    match c {
        PathComponentView::Dir(segs) => CrawlState {
            cache: st.cache + segs,
            groups: st.groups,
            filled: st.filled,
            saw_group: st.saw_group,
        },
        PathComponentView::Group(g) => group_step(t, st, g),
        PathComponentView::Album(a) => album_step(t, st, a),
    }
}

/// Fold [`comp_step`] over the remaining components.
pub open spec fn crawl_fold(t: DirTree, comps: Seq<PathComponentView>, st: CrawlState) -> CrawlState
    decreases comps.len(),
{
    if comps.len() == 0 {
        st
    } else {
        crawl_fold(t, comps.skip(1), comp_step(t, st, comps[0]))
    }
}

/// The crawl state after one whole pattern.
pub open spec fn spec_crawl(t: DirTree, comps: Seq<PathComponentView>) -> CrawlState {
    crawl_fold(t, comps, init_crawl())
}

/// The snapshot one discovered album yields: its file listing at the album's
/// path extended by the pattern's trailing literal suffix.
pub open spec fn event_of(
    t: DirTree,
    gname: Seq<char>,
    al: CtxV,
    suffix: Seq<Seq<char>>,
    kind: GroupType,
) -> SetEventView {
    SetEventView {
        group_name: gname,
        album_name: al.name,
        tipe: kind,
        files: file_list(t, al.path + suffix),
    }
}

/// The snapshots of one `(group, albums)` record.
pub open spec fn pair_events(
    t: DirTree,
    pair: (CtxV, Seq<CtxV>),
    suffix: Seq<Seq<char>>,
    kind: GroupType,
) -> Seq<SetEventView> {
    pair.1.map_values(|al: CtxV| event_of(t, pair.0.name, al, suffix, kind))
}

/// The snapshots of the first `i` `(group, albums)` records.
pub open spec fn events_upto(
    t: DirTree,
    filled: Seq<(CtxV, Seq<CtxV>)>,
    suffix: Seq<Seq<char>>,
    kind: GroupType,
    i: int,
) -> Seq<SetEventView>
    decreases i,
{
    if i <= 0 {
        Seq::<SetEventView>::empty()
    } else {
        events_upto(t, filled, suffix, kind, i - 1) + pair_events(t, filled[i - 1], suffix, kind)
    }
}

/// Every snapshot one pattern emits against the tree `t`: one per discovered
/// album, in discovery order.
pub open spec fn spec_crawl_events(
    t: DirTree,
    comps: Seq<PathComponentView>,
    kind: GroupType,
) -> Seq<SetEventView> {
    let st = spec_crawl(t, comps);
    events_upto(t, st.filled, st.cache, kind, st.filled.len() as int)
}

proof fn lemma_concat_contains<A>(a: Seq<A>, b: Seq<A>, x: A)
    ensures
        (a + b).contains(x) <==> a.contains(x) || b.contains(x),
{
    if a.contains(x) {
        let k = choose|k: int| 0 <= k < a.len() && a[k] == x;
        assert((a + b)[k] == x);
    }
    if b.contains(x) {
        let k = choose|k: int| 0 <= k < b.len() && b[k] == x;
        assert((a + b)[a.len() + k] == x);
    }
    if (a + b).contains(x) {
        let k = choose|k: int| 0 <= k < (a + b).len() && (a + b)[k] == x;
        if k < a.len() {
            assert(a[k] == x);
        } else {
            assert(b[k - a.len()] == x);
        }
    }
}

/// A path lies among the name-prefixed copies exactly when its tail lies in
/// the unprefixed listing and its head is the name.
proof fn lemma_prefixed_contains(sub: Seq<Seq<Seq<char>>>, name: Seq<char>, p: Seq<Seq<char>>)
    ensures
        sub.map_values(|q: Seq<Seq<char>>| seq![name] + q).contains(p) <==> (p.len() >= 1 && p[0]
            == name && sub.contains(p.skip(1))),
{
    let mapped = sub.map_values(|q: Seq<Seq<char>>| seq![name] + q);
    if mapped.contains(p) {
        let k = choose|k: int| 0 <= k < mapped.len() && mapped[k] == p;
        assert(p == seq![name] + sub[k]);
        assert(p.skip(1) =~= sub[k]);
        assert(sub.contains(p.skip(1)));
    }
    if p.len() >= 1 && p[0] == name && sub.contains(p.skip(1)) {
        let k = choose|k: int| 0 <= k < sub.len() && sub[k] == p.skip(1);
        assert(mapped[k] == seq![name] + p.skip(1));
        assert(seq![name] + p.skip(1) =~= p);
        assert(mapped.contains(p));
    }
}

/// The window characterization of the child-range listing: a path lies in
/// the listing of the first `j` children exactly when its depth lies in the
/// window and it resolves through one of those children.
proof fn lemma_upto_window(t: DirTree, fd: int, sd: int, j: int, p: Seq<Seq<char>>)
    requires
        t.wf(),
        0 <= j <= t.dirs@.len(),
    ensures
        deep_list_upto(t, fd, sd, j).contains(p) <==> (p.len() >= 1 && fd < p.len() <= sd
            && exists|i: int|
            0 <= i < j && (#[trigger] t.dirs@[i]).name@ == p[0] && node_at(
                t.dirs@[i],
                p.skip(1),
            ) is Some),
    decreases sd, j,
{
    if sd <= 0 || j <= 0 {
        assert(!deep_list_upto(t, fd, sd, j).contains(p));
    } else {
        lemma_upto_window(t, fd, sd, j - 1, p);
        let c = t.dirs@[j - 1];
        assert(c.wf());
        let head: Seq<Seq<Seq<char>>> = if fd <= 0 {
            seq![seq![c.name@]]
        } else {
            Seq::<Seq<Seq<char>>>::empty()
        };
        let sub = deep_list_upto(c, fd - 1, sd - 1, c.dirs@.len() as int);
        let deeper = sub.map_values(|q: Seq<Seq<char>>| seq![c.name@] + q);
        assert(deep_list_upto(t, fd, sd, j) == deep_list_upto(t, fd, sd, j - 1) + head + deeper);
        lemma_concat_contains(deep_list_upto(t, fd, sd, j - 1) + head, deeper, p);
        lemma_concat_contains(deep_list_upto(t, fd, sd, j - 1), head, p);
        lemma_prefixed_contains(sub, c.name@, p);

        // The head entry stands for the child itself, at depth 1.
        assert(head.contains(p) <==> (fd <= 0 && p =~= seq![c.name@])) by {
            if fd <= 0 {
                assert(head[0] == seq![c.name@]);
            }
        }
        // The deeper entries resolve one level down through this child.
        if p.len() >= 1 && p[0] == c.name@ {
            lemma_upto_window(c, fd - 1, sd - 1, c.dirs@.len() as int, p.skip(1));
            if p.skip(1).len() >= 1 {
                lemma_node_at_step(c, p.skip(1));
            }
        }

        if deep_list_upto(t, fd, sd, j).contains(p) {
            if head.contains(p) {
                assert(p.len() == 1 && p[0] == c.name@);
                assert(p.skip(1) =~= Seq::<Seq<char>>::empty());
                assert(node_at(c, p.skip(1)) is Some);
                assert(t.dirs@[j - 1].name@ == p[0] && node_at(t.dirs@[j - 1], p.skip(1)) is Some);
            } else if deeper.contains(p) {
                assert(sub.contains(p.skip(1)));
                assert(p.skip(1).len() >= 1);
                assert(node_at(c, p.skip(1)) is Some);
                assert(t.dirs@[j - 1].name@ == p[0] && node_at(t.dirs@[j - 1], p.skip(1)) is Some);
            }
        }
        if p.len() >= 1 && fd < p.len() <= sd && exists|i: int|
            0 <= i < j && (#[trigger] t.dirs@[i]).name@ == p[0] && node_at(
                t.dirs@[i],
                p.skip(1),
            ) is Some {
            let i = choose|i: int|
                0 <= i < j && (#[trigger] t.dirs@[i]).name@ == p[0] && node_at(
                    t.dirs@[i],
                    p.skip(1),
                ) is Some;
            if i < j - 1 {
                assert(deep_list_upto(t, fd, sd, j - 1).contains(p));
            } else {
                if p.len() == 1 {
                    assert(p =~= seq![c.name@]);
                    assert(head.contains(p));
                } else {
                    assert(p.skip(1).len() >= 1);
                    assert(sub.contains(p.skip(1)));
                    assert(deeper.contains(p));
                }
            }
            assert(deep_list_upto(t, fd, sd, j).contains(p));
        }
    }
}

/// Law: against a well-formed tree the depth-windowed listing is exactly the
/// set of relative paths of existing directories whose depth `d` satisfies
/// `fd < d <= sd` — every such directory appears, and nothing else does.
pub proof fn lemma_deep_list_window(t: DirTree, fd: int, sd: int, p: Seq<Seq<char>>)
    requires
        t.wf(),
    ensures
        spec_deep_list(t, fd, sd).contains(p) <==> (p.len() >= 1 && fd < p.len() <= sd && node_at(
            t,
            p,
        ) is Some),
{
    lemma_upto_window(t, fd, sd, t.dirs@.len() as int, p);
    if p.len() >= 1 {
        lemma_node_at_step(t, p);
    }
}

proof fn lemma_upto_no_dup(t: DirTree, fd: int, sd: int, j: int)
    requires
        t.wf(),
        0 <= j <= t.dirs@.len(),
    ensures
        deep_list_upto(t, fd, sd, j).no_duplicates(),
    decreases sd, j,
{
    if sd <= 0 || j <= 0 {
    } else {
        lemma_upto_no_dup(t, fd, sd, j - 1);
        let c = t.dirs@[j - 1];
        assert(c.wf());
        let prev = deep_list_upto(t, fd, sd, j - 1);
        let head: Seq<Seq<Seq<char>>> = if fd <= 0 {
            seq![seq![c.name@]]
        } else {
            Seq::<Seq<Seq<char>>>::empty()
        };
        let sub = deep_list_upto(c, fd - 1, sd - 1, c.dirs@.len() as int);
        let deeper = sub.map_values(|q: Seq<Seq<char>>| seq![c.name@] + q);
        lemma_upto_no_dup(c, fd - 1, sd - 1, c.dirs@.len() as int);
        assert(deeper.no_duplicates()) by {
            assert(vstd::relations::injective(|q: Seq<Seq<char>>| seq![c.name@] + q)) by {
                assert forall|x: Seq<Seq<char>>, y: Seq<Seq<char>>|
                    (#[trigger] (seq![c.name@] + x)) == (#[trigger] (seq![c.name@] + y))
                        implies x == y by {
                    assert((seq![c.name@] + x).skip(1) =~= x);
                    assert((seq![c.name@] + y).skip(1) =~= y);
                }
            }
            sub.lemma_no_duplicates_injective(|q: Seq<Seq<char>>| seq![c.name@] + q);
        }
        // Every element of each part starts with a distinct marker: earlier
        // children's names for `prev`, this child's name (at depth 1 for the
        // head, deeper for the rest).
        assert forall|a: int, b: int| 0 <= a < prev.len() && 0 <= b < head.len() implies prev[a]
            != head[b] by {
            lemma_upto_window(t, fd, sd, j - 1, prev[a]);
            let i = choose|i: int|
                0 <= i < j - 1 && (#[trigger] t.dirs@[i]).name@ == prev[a][0] && node_at(
                    t.dirs@[i],
                    prev[a].skip(1),
                ) is Some;
            assert(t.dirs@[i].name@ != c.name@);
            assert(head[b][0] == c.name@);
        }
        assert forall|a: int, b: int| 0 <= a < prev.len() && 0 <= b < deeper.len() implies prev[a]
            != deeper[b] by {
            lemma_upto_window(t, fd, sd, j - 1, prev[a]);
            let i = choose|i: int|
                0 <= i < j - 1 && (#[trigger] t.dirs@[i]).name@ == prev[a][0] && node_at(
                    t.dirs@[i],
                    prev[a].skip(1),
                ) is Some;
            assert(t.dirs@[i].name@ != c.name@);
            assert(deeper[b] == seq![c.name@] + sub[b]);
            assert(deeper[b][0] == c.name@);
        }
        assert forall|a: int, b: int| 0 <= a < head.len() && 0 <= b < deeper.len() implies head[a]
            != deeper[b] by {
            lemma_upto_window(c, fd - 1, sd - 1, c.dirs@.len() as int, sub[b]);
            assert(sub.contains(sub[b]));
            assert(sub[b].len() >= 1);
            assert(deeper[b] == seq![c.name@] + sub[b]);
            assert(head[a].len() == 1 && deeper[b].len() >= 2);
        }
        vstd::seq_lib::lemma_no_dup_in_concat(head, deeper);
        vstd::seq_lib::lemma_no_dup_in_concat(prev, head + deeper);
        assert(prev + (head + deeper) =~= deep_list_upto(t, fd, sd, j));
    }
}

/// Law: against a well-formed tree the depth-windowed listing holds no
/// duplicate paths — together with [`lemma_deep_list_window`] it is exactly
/// the set of in-window directories, each listed once.
pub proof fn lemma_deep_list_no_dup(t: DirTree, fd: int, sd: int)
    requires
        t.wf(),
    ensures
        spec_deep_list(t, fd, sd).no_duplicates(),
{
    lemma_upto_no_dup(t, fd, sd, t.dirs@.len() as int);
}

proof fn lemma_albums_upto_index(
    t: DirTree,
    gs: Seq<CtxV>,
    cache: Seq<Seq<char>>,
    a: Album,
    n: int,
)
    requires
        0 <= n <= gs.len(),
    ensures
        albums_upto(t, gs, cache, a, n).len() == n,
        forall|p: int|
            0 <= p < n ==> #[trigger] albums_upto(t, gs, cache, a, n)[p] == (
                gs[p],
                album_ctxs(t, gs[p], cache, a),
            ),
    decreases n,
{
    if n > 0 {
        lemma_albums_upto_index(t, gs, cache, a, n - 1);
    }
}

/// A snapshot lies among the first `n` records' events exactly when one of
/// those records yields it for one of its albums.
proof fn lemma_events_upto_mem(
    t: DirTree,
    filled: Seq<(CtxV, Seq<CtxV>)>,
    suffix: Seq<Seq<char>>,
    kind: GroupType,
    n: int,
    x: SetEventView,
)
    requires
        0 <= n <= filled.len(),
    ensures
        events_upto(t, filled, suffix, kind, n).contains(x) <==> exists|p: int, q: int|
            0 <= p < n && 0 <= q < filled[p].1.len() && x == event_of(
                t,
                filled[p].0.name,
                #[trigger] filled[p].1[q],
                suffix,
                kind,
            ),
    decreases n,
{
    if n > 0 {
        lemma_events_upto_mem(t, filled, suffix, kind, n - 1, x);
        let prev = events_upto(t, filled, suffix, kind, n - 1);
        let pe = pair_events(t, filled[n - 1], suffix, kind);
        lemma_concat_contains(prev, pe, x);
        if pe.contains(x) {
            let q = choose|q: int| 0 <= q < pe.len() && pe[q] == x;
            assert(x == event_of(t, filled[n - 1].0.name, filled[n - 1].1[q], suffix, kind));
        }
        if exists|p: int, q: int|
            0 <= p < n && 0 <= q < filled[p].1.len() && x == event_of(
                t,
                filled[p].0.name,
                #[trigger] filled[p].1[q],
                suffix,
                kind,
            ) {
            let (p, q) = choose|p: int, q: int|
                0 <= p < n && 0 <= q < filled[p].1.len() && x == event_of(
                    t,
                    filled[p].0.name,
                    #[trigger] filled[p].1[q],
                    suffix,
                    kind,
                );
            if p == n - 1 {
                assert(pe[q] == x);
                assert(pe.contains(x));
            }
        }
    }
}

/// Does the component sequence hold any group marker?
pub open spec fn has_group_marker(comps: Seq<PathComponentView>) -> bool {
    exists|i: int| 0 <= i < comps.len() && comps[i] is Group
}

/// How many album markers the component sequence holds.
pub open spec fn count_albums(comps: Seq<PathComponentView>) -> int
    decreases comps.len(),
{
    if comps.len() == 0 {
        0
    } else {
        (if comps[0] is Album {
            1int
        } else {
            0int
        }) + count_albums(comps.skip(1))
    }
}

proof fn lemma_crawl_fold_no_groups(t: DirTree, comps: Seq<PathComponentView>, st: CrawlState)
    requires
        !has_group_marker(comps),
        st.groups.len() == 0,
        !st.saw_group,
    ensures
        ({
            let r = crawl_fold(t, comps, st);
            &&& r.groups.len() == 0
            &&& r.filled.len() == st.filled.len() + count_albums(comps)
            &&& forall|k: int| 0 <= k < st.filled.len() ==> r.filled[k] == st.filled[k]
            &&& forall|k: int|
                st.filled.len() <= k < r.filled.len() ==> (#[trigger] r.filled[k]).0
                    == default_ctx()
        }),
    decreases comps.len(),
{
    if comps.len() > 0 {
        let c = comps[0];
        assert(!(c is Group));
        let st1 = comp_step(t, st, c);
        if c is Album {
            let a = c->Album_0;
            let gs = seq![default_ctx()];
            assert(st1.filled =~= st.filled + albums_upto(t, gs, st.cache, a, 1));
            assert(albums_upto(t, gs, st.cache, a, 0) =~= Seq::<(CtxV, Seq<CtxV>)>::empty());
            assert(gs[0] == default_ctx());
            assert(albums_upto(t, gs, st.cache, a, 1) =~= seq![
                (default_ctx(), album_ctxs(t, default_ctx(), st.cache, a)),
            ]);
        }
        assert forall|i: int| 0 <= i < comps.skip(1).len() implies !((
        #[trigger] comps.skip(1)[i]) is Group) by {
            assert(comps.skip(1)[i] == comps[i + 1]);
        }
        lemma_crawl_fold_no_groups(t, comps.skip(1), st1);
    }
}

/// Law: a pattern with zero group markers always crawls in exactly one
/// group, the synthetic one named `"%default%"` — every snapshot the
/// pattern emits carries that group name.
pub proof fn lemma_no_group_single_default(
    t: DirTree,
    comps: Seq<PathComponentView>,
    kind: GroupType,
)
    requires
        !has_group_marker(comps),
        count_albums(comps) == 1,
    ensures
        spec_crawl(t, comps).filled.len() == 1,
        spec_crawl(t, comps).filled[0].0 == default_ctx(),
        forall|i: int|
            0 <= i < spec_crawl_events(t, comps, kind).len() ==> (#[trigger] spec_crawl_events(
                t,
                comps,
                kind,
            )[i]).group_name == "%default%"@,
{
    lemma_crawl_fold_no_groups(t, comps, init_crawl());
    let st = spec_crawl(t, comps);
    let evs = spec_crawl_events(t, comps, kind);
    assert(events_upto(t, st.filled, st.cache, kind, 0) =~= Seq::<SetEventView>::empty());
    assert(evs =~= pair_events(t, st.filled[0], st.cache, kind));
    assert forall|i: int| 0 <= i < evs.len() implies (#[trigger] evs[i]).group_name
        == "%default%"@ by {
        assert(evs[i] == event_of(t, st.filled[0].0.name, st.filled[0].1[i], st.cache, kind));
    }
}

/// The snapshot a `<root>/[G1]/[A…]/<suffix>` pattern yields for the group
/// entry `g` and the album entry `e2`: names joined from the matched
/// segments, files listed at the album path extended by the suffix.
pub open spec fn ga_event(
    t: DirTree,
    d: Seq<Seq<char>>,
    sfx: Seq<Seq<char>>,
    kind: GroupType,
    g: Seq<Seq<char>>,
    e2: Seq<Seq<char>>,
) -> SetEventView {
    SetEventView {
        group_name: join_segs(g, '/'),
        album_name: join_segs(e2, '/'),
        tipe: kind,
        files: file_list(t, d + g + e2 + sfx),
    }
}

/// Do the entries `g` and `e2` select a `(group, album)` pair of the pattern
/// `<d>/[G1]/[A…]/<sfx>`: `g` a directory directly under the root `d`, and
/// `e2` a directory under `d + g` at a depth inside the album window?
pub open spec fn ga_match(
    t: DirTree,
    d: Seq<Seq<char>>,
    a: Album,
    g: Seq<Seq<char>>,
    e2: Seq<Seq<char>>,
) -> bool {
    &&& g.len() == 1
    &&& node_at(t, d + g) is Some
    &&& e2.len() >= 1
    &&& album_window(a).0 < e2.len() <= album_window(a).1
    &&& node_at(t, d + g + e2) is Some
}

/// Law: against a well-formed tree, a pattern of the shape
/// `<root>/[G1]/[A…]/<suffix>` emits exactly the snapshots of the pairs
/// `(g, a)` with `g` a directory at depth 1 under the root and `a` a
/// directory under `g` at a relative depth inside the album window — the
/// emitted set is deterministic and order-independent, matching the
/// hand-computable expectation.
pub proof fn lemma_group_album_pattern_events(
    t: DirTree,
    d: Seq<Seq<char>>,
    a: Album,
    sfx: Seq<Seq<char>>,
    kind: GroupType,
)
    requires
        t.wf(),
    ensures
        ({
            let comps = seq![
                PathComponentView::Dir(d),
                PathComponentView::Group(Group { depth: 1 }),
                PathComponentView::Album(a),
                PathComponentView::Dir(sfx),
            ];
            forall|x: SetEventView|
                #[trigger] spec_crawl_events(t, comps, kind).contains(x) <==> exists|
                    g: Seq<Seq<char>>,
                    e2: Seq<Seq<char>>,
                |
                    ga_match(t, d, a, g, e2) && x == #[trigger] ga_event(t, d, sfx, kind, g, e2)
        }),
{
    let comps = seq![
        PathComponentView::Dir(d),
        PathComponentView::Group(Group { depth: 1 }),
        PathComponentView::Album(a),
        PathComponentView::Dir(sfx),
    ];
    // Unroll the component fold.
    let st0 = init_crawl();
    let st1 = comp_step(t, st0, comps[0]);
    let st2 = comp_step(t, st1, comps[1]);
    let st3 = comp_step(t, st2, comps[2]);
    let st4 = comp_step(t, st3, comps[3]);
    assert(comps.skip(1) =~= seq![
        PathComponentView::Group(Group { depth: 1 }),
        PathComponentView::Album(a),
        PathComponentView::Dir(sfx),
    ]);
    assert(comps.skip(1).skip(1) =~= seq![
        PathComponentView::Album(a),
        PathComponentView::Dir(sfx),
    ]);
    assert(comps.skip(1).skip(1).skip(1) =~= seq![PathComponentView::Dir(sfx)]);
    assert(comps.skip(1).skip(1).skip(1).skip(1) =~= Seq::<PathComponentView>::empty());
    assert(crawl_fold(t, comps, st0) == crawl_fold(t, comps.skip(1), st1));
    assert(crawl_fold(t, comps.skip(1), st1) == crawl_fold(t, comps.skip(1).skip(1), st2));
    assert(crawl_fold(t, comps.skip(1).skip(1), st2) == crawl_fold(
        t,
        comps.skip(1).skip(1).skip(1),
        st3,
    ));
    assert(crawl_fold(t, comps.skip(1).skip(1).skip(1), st3) == crawl_fold(
        t,
        comps.skip(1).skip(1).skip(1).skip(1),
        st4,
    ));
    assert(spec_crawl(t, comps) == st4);

    assert(st1.cache =~= d);
    let gents = entries_at(t, d, 0, 1);
    let gs = root_group_ctxs(t, d, 1);
    assert(st2.groups == gs && st2.cache =~= Seq::<Seq<char>>::empty() && st2.saw_group);
    assert(gs.len() == gents.len());
    lemma_albums_upto_index(t, gs, st2.cache, a, gs.len() as int);
    assert(st3.filled =~= albums_upto(t, gs, st2.cache, a, gs.len() as int));
    assert(st4.filled == st3.filled && st4.cache =~= sfx);
    let filled = st4.filled;
    let evs = spec_crawl_events(t, comps, kind);
    assert(evs == events_upto(t, filled, sfx, kind, filled.len() as int));

    assert forall|x: SetEventView| #[trigger] evs.contains(x) implies exists|
        g: Seq<Seq<char>>,
        e2: Seq<Seq<char>>,
    | ga_match(t, d, a, g, e2) && x == #[trigger] ga_event(t, d, sfx, kind, g, e2) by {
        lemma_events_upto_mem(t, filled, sfx, kind, filled.len() as int, x);
        let (p, q) = choose|p: int, q: int|
            0 <= p < filled.len() && 0 <= q < filled[p].1.len() && x == event_of(
                t,
                filled[p].0.name,
                #[trigger] filled[p].1[q],
                sfx,
                kind,
            );
        assert(filled[p] == (gs[p], album_ctxs(t, gs[p], st2.cache, a)));
        let g = gents[p];
        assert(gs[p] == CtxV { name: join_segs(g, '/'), path: d + g });
        // The group entry is a depth-1 directory under the root.
        let n0 = node_at(t, d)->Some_0;
        assert(node_at(t, d) is Some && gents == spec_deep_list(n0, 0, 1)) by {
            if node_at(t, d) is None {
                assert(gents.len() == 0);
            }
        }
        lemma_node_at_wf(t, d);
        lemma_deep_list_window(n0, 0, 1, g);
        assert(gents.contains(g));
        assert(g.len() == 1 && node_at(n0, g) is Some);
        lemma_node_at_concat(t, d, g);
        assert(node_at(t, d + g) is Some);
        // The album entry is an in-window directory under the group.
        assert(gs[p].path + st2.cache =~= d + g);
        let aents = entries_at(t, d + g, album_window(a).0, album_window(a).1);
        assert(filled[p].1 == aents.map_values(
            |e: Seq<Seq<char>>| CtxV { name: join_segs(e, '/'), path: (d + g) + e },
        ));
        let e2 = aents[q];
        let n1 = node_at(t, d + g)->Some_0;
        assert(aents == spec_deep_list(n1, album_window(a).0, album_window(a).1));
        lemma_node_at_wf(t, d + g);
        lemma_deep_list_window(n1, album_window(a).0, album_window(a).1, e2);
        assert(aents.contains(e2));
        assert(e2.len() >= 1 && album_window(a).0 < e2.len() <= album_window(a).1);
        lemma_node_at_concat(t, d + g, e2);
        assert(d + g + e2 =~= (d + g) + e2);
        assert(node_at(t, d + g + e2) is Some);
        assert(ga_match(t, d, a, g, e2));
        // The chosen event is exactly the pair's snapshot.
        assert(filled[p].1[q] == CtxV { name: join_segs(e2, '/'), path: (d + g) + e2 });
        assert(filled[p].1[q].path + sfx =~= d + g + e2 + sfx);
        assert(x == ga_event(t, d, sfx, kind, g, e2));
    }

    assert forall|g: Seq<Seq<char>>, e2: Seq<Seq<char>>|
        ga_match(t, d, a, g, e2) implies evs.contains(
        #[trigger] ga_event(t, d, sfx, kind, g, e2),
    ) by {
        let x = ga_event(t, d, sfx, kind, g, e2);
        // The root resolves, and the group entry lies in its depth-1 window.
        lemma_node_at_concat(t, d, g);
        assert(node_at(t, d) is Some);
        let n0 = node_at(t, d)->Some_0;
        lemma_node_at_wf(t, d);
        lemma_deep_list_window(n0, 0, 1, g);
        assert(gents == spec_deep_list(n0, 0, 1));
        assert(gents.contains(g));
        let p = choose|p: int| 0 <= p < gents.len() && gents[p] == g;
        assert(gs[p] == CtxV { name: join_segs(g, '/'), path: d + g });
        assert(filled[p] == (gs[p], album_ctxs(t, gs[p], st2.cache, a)));
        // The group resolves, and the album entry lies in its window.
        assert(gs[p].path + st2.cache =~= d + g);
        let n1 = node_at(t, d + g)->Some_0;
        lemma_node_at_wf(t, d + g);
        assert(d + g + e2 =~= (d + g) + e2);
        lemma_node_at_concat(t, d + g, e2);
        assert(node_at(n1, e2) is Some);
        lemma_deep_list_window(n1, album_window(a).0, album_window(a).1, e2);
        let aents = entries_at(t, d + g, album_window(a).0, album_window(a).1);
        assert(aents == spec_deep_list(n1, album_window(a).0, album_window(a).1));
        assert(aents.contains(e2));
        let q = choose|q: int| 0 <= q < aents.len() && aents[q] == e2;
        assert(filled[p].1 == aents.map_values(
            |e: Seq<Seq<char>>| CtxV { name: join_segs(e, '/'), path: (d + g) + e },
        ));
        assert(filled[p].1[q] == CtxV { name: join_segs(e2, '/'), path: (d + g) + e2 });
        assert(filled[p].1[q].path + sfx =~= d + g + e2 + sfx);
        assert(x == event_of(t, filled[p].0.name, filled[p].1[q], sfx, kind));
        lemma_events_upto_mem(t, filled, sfx, kind, filled.len() as int, x);
    }
}

/// A group context as the crawl engine holds it at run time.
pub struct GroupCtx {
    pub name: String,
    pub path: Vec<String>,
}

/// Model of a [`GroupCtx`].
pub open spec fn ctx_view(c: GroupCtx) -> CtxV {
    CtxV { name: c.name@, path: c.path.deep_view() }
}

/// Model of a context list.
pub open spec fn ctxs_view(s: Seq<GroupCtx>) -> Seq<CtxV> {
    s.map_values(|c: GroupCtx| ctx_view(c))
}

/// Model of the recorded `(group, albums)` list.
pub open spec fn filled_view(s: Seq<(GroupCtx, Vec<GroupCtx>)>) -> Seq<(CtxV, Seq<CtxV>)> {
    s.map_values(|pr: (GroupCtx, Vec<GroupCtx>)| (ctx_view(pr.0), ctxs_view(pr.1@)))
}

/// Non-positive filter depths are interchangeable at a listing root too.
proof fn lemma_entries_nonpos_fd(t: DirTree, base: Seq<Seq<char>>, fd1: int, fd2: int, sd: int)
    requires
        fd1 <= 0,
        fd2 <= 0,
    ensures
        entries_at(t, base, fd1, sd) == entries_at(t, base, fd2, sd),
{
    match node_at(t, base) {
        Some(n) => {
            lemma_deep_list_nonpos_fd(n, fd1, fd2, sd, n.dirs@.len() as int);
        },
        None => {},
    }
}

/// A copy of `b` appended to a copy of `a`.
fn concat_segs(a: &Vec<String>, b: &Vec<String>) -> (r: Vec<String>)
    ensures
        r.deep_view() == a.deep_view() + b.deep_view(),
{
    let mut r: Vec<String> = Vec::new();
    let mut i: usize = 0;
    proof {
        assert(r.deep_view() =~= a.deep_view().take(0));
    }
    while i < a.len()
        invariant
            i <= a@.len(),
            r.deep_view() == a.deep_view().take(i as int),
        decreases a@.len() - i,
    {
        let ghost pre = r.deep_view();
        r.push(a[i].clone());
        proof {
            assert(r.deep_view() =~= pre.push(a.deep_view()[i as int]));
            assert(r.deep_view() =~= a.deep_view().take(i + 1));
        }
        i += 1;
    }
    proof {
        assert(a.deep_view().take(a.deep_view().len() as int) =~= a.deep_view());
    }
    let mut j: usize = 0;
    proof {
        assert(r.deep_view() =~= a.deep_view() + b.deep_view().take(0));
    }
    while j < b.len()
        invariant
            j <= b@.len(),
            r.deep_view() == a.deep_view() + b.deep_view().take(j as int),
        decreases b@.len() - j,
    {
        let ghost pre = r.deep_view();
        r.push(b[j].clone());
        proof {
            assert(r.deep_view() =~= pre.push(b.deep_view()[j as int]));
            assert(r.deep_view() =~= a.deep_view() + b.deep_view().take(j + 1));
        }
        j += 1;
    }
    proof {
        assert(b.deep_view().take(b.deep_view().len() as int) =~= b.deep_view());
    }
    r
}

/// Append a copy of every segment of `src` to `dst`.
fn extend_segs(dst: &mut Vec<String>, src: &Vec<String>)
    ensures
        final(dst).deep_view() == old(dst).deep_view() + src.deep_view(),
{
    let mut j: usize = 0;
    proof {
        assert(dst.deep_view() =~= old(dst).deep_view() + src.deep_view().take(0));
    }
    while j < src.len()
        invariant
            j <= src@.len(),
            dst.deep_view() == old(dst).deep_view() + src.deep_view().take(j as int),
        decreases src@.len() - j,
    {
        let ghost pre = dst.deep_view();
        dst.push(src[j].clone());
        proof {
            assert(dst.deep_view() =~= pre.push(src.deep_view()[j as int]));
            assert(dst.deep_view() =~= old(dst).deep_view() + src.deep_view().take(j + 1));
        }
        j += 1;
    }
    proof {
        assert(src.deep_view().take(src.deep_view().len() as int) =~= src.deep_view());
    }
}

/// A copy of a string list.
fn clone_strings(v: &Vec<String>) -> (r: Vec<String>)
    ensures
        r.deep_view() == v.deep_view(),
{
    let mut r: Vec<String> = Vec::new();
    let mut i: usize = 0;
    proof {
        assert(r.deep_view() =~= v.deep_view().take(0));
    }
    while i < v.len()
        invariant
            i <= v@.len(),
            r.deep_view() == v.deep_view().take(i as int),
        decreases v@.len() - i,
    {
        let ghost pre = r.deep_view();
        r.push(v[i].clone());
        proof {
            assert(r.deep_view() =~= pre.push(v.deep_view()[i as int]));
            assert(r.deep_view() =~= v.deep_view().take(i + 1));
        }
        i += 1;
    }
    proof {
        assert(v.deep_view().take(v.deep_view().len() as int) =~= v.deep_view());
    }
    r
}

/// The segments of `p` joined by the platform separator.
fn join_path(p: &Vec<String>) -> (r: String)
    ensures
        r@ == join_segs(p.deep_view(), '/'),
{
    if p.len() == 0 {
        let r = String::new();
        proof {
            assert(r@ =~= join_segs(p.deep_view(), '/'));
        }
        return r;
    }
    let mut r: String = p[0].clone();
    let mut l: usize = 1;
    proof {
        assert(p.deep_view().take(1).len() == 1);
        assert(p.deep_view().take(1)[0] == p.deep_view()[0]);
        assert(r@ == join_segs(p.deep_view().take(1), '/'));
    }
    while l < p.len()
        invariant
            1 <= l <= p@.len(),
            r@ == join_segs(p.deep_view().take(l as int), '/'),
        decreases p@.len() - l,
    {
        let ghost pre = r@;
        r.append("/");
        r.append(p[l].as_str());
        proof {
            reveal_strlit("/");
            assert("/"@ =~= seq!['/']);
            assert(r@ == pre + seq!['/'] + p.deep_view()[l as int]);
            assert(p.deep_view().take(l + 1).drop_last() =~= p.deep_view().take(l as int));
            assert(p.deep_view().take(l + 1).last() == p.deep_view()[l as int]);
            assert(join_segs(p.deep_view().take(l + 1), '/') == join_segs(
                p.deep_view().take(l as int),
                '/',
            ) + seq!['/'] + p.deep_view()[l as int]);
        }
        l += 1;
    }
    proof {
        assert(p.deep_view().take(p.deep_view().len() as int) =~= p.deep_view());
    }
    r
}

/// `old-name:relative-name`, the hierarchical name of a nested group.
fn ctx_name_join(old_name: &String, rel: &String) -> (r: String)
    ensures
        r@ == old_name@ + seq![':'] + rel@,
{
    let mut r: String = old_name.clone();
    r.append(":");
    r.append(rel.as_str());
    proof {
        reveal_strlit(":");
        assert(":"@ =~= seq![':']);
        assert(r@ =~= old_name@ + seq![':'] + rel@);
    }
    r
}

/// A copy of a context.
fn clone_ctx(c: &GroupCtx) -> (r: GroupCtx)
    ensures
        ctx_view(r) == ctx_view(*c),
{
    let path = clone_strings(&c.path);
    GroupCtx { name: c.name.clone(), path }
}

/// The depth-windowed listing rooted at `base` below `t`, or the empty
/// listing if no directory lies at `base`.
fn list_window(t: &DirTree, base: &Vec<String>, fd: usize, sd: usize) -> (r: Vec<Vec<String>>)
    ensures
        r.deep_view() == entries_at(*t, base.deep_view(), fd as int, sd as int),
{
    proof {
        assert(base.deep_view().skip(0) =~= base.deep_view());
    }
    match crate::fstree::find_node(t, base, 0) {
        Some(n) => deep_list(n, fd, sd),
        None => {
            let r: Vec<Vec<String>> = Vec::new();
            proof {
                assert(r.deep_view() =~= Seq::<Seq<Seq<char>>>::empty());
            }
            r
        },
    }
}

/// The contexts one group marker derives from one existing context.
fn group_ctxs_one(t: &DirTree, gc: &GroupCtx, cache: &Vec<String>, depth: usize) -> (r: Vec<
    GroupCtx,
>)
    ensures
        ctxs_view(r@) == group_ctxs_from(*t, ctx_view(*gc), cache.deep_view(), depth as int),
{
    let fd = if depth == 0 {
        0
    } else {
        depth - 1
    };
    let base = concat_segs(&gc.path, cache);
    let entries = list_window(t, &base, fd, depth);
    let ghost base_v = gc.path.deep_view() + cache.deep_view();
    let ghost es = entries_at(*t, base_v, depth as int - 1, depth as int);
    proof {
        if depth == 0 {
            lemma_entries_nonpos_fd(*t, base_v, 0, -1, 0);
        }
        assert(entries.deep_view() == es);
    }
    let ghost mapped = group_ctxs_from(*t, ctx_view(*gc), cache.deep_view(), depth as int);
    let mut r: Vec<GroupCtx> = Vec::new();
    let mut m: usize = 0;
    proof {
        assert(ctxs_view(r@) =~= mapped.take(0));
    }
    while m < entries.len()
        invariant
            m <= entries@.len(),
            es == entries.deep_view(),
            es.len() == entries@.len(),
            mapped == group_ctxs_from(*t, ctx_view(*gc), cache.deep_view(), depth as int),
            mapped.len() == es.len(),
            base_v == gc.path.deep_view() + cache.deep_view(),
            base.deep_view() == base_v,
            es == entries_at(*t, base_v, depth as int - 1, depth as int),
            ctxs_view(r@) == mapped.take(m as int),
        decreases entries@.len() - m,
    {
        let ghost pre = r@;
        let rel = join_path(&entries[m]);
        let name = ctx_name_join(&gc.name, &rel);
        let path = concat_segs(&base, &entries[m]);
        let ctx = GroupCtx { name, path };
        proof {
            assert(ctx.name@ =~= mapped[m as int].name);
            assert(ctx.path.deep_view() =~= mapped[m as int].path);
            assert(ctx_view(ctx) == mapped[m as int]);
        }
        r.push(ctx);
        proof {
            assert(ctxs_view(r@) =~= ctxs_view(pre).push(ctx_view(ctx)));
            assert(mapped.take(m + 1) =~= mapped.take(m as int).push(mapped[m as int]));
        }
        m += 1;
    }
    proof {
        assert(mapped.take(mapped.len() as int) =~= mapped);
    }
    r
}

/// The contexts the first group marker derives from the implicit root.
fn group_ctxs_root(t: &DirTree, cache: &Vec<String>, depth: usize) -> (r: Vec<GroupCtx>)
    ensures
        ctxs_view(r@) == root_group_ctxs(*t, cache.deep_view(), depth as int),
{
    let fd = if depth == 0 {
        0
    } else {
        depth - 1
    };
    let entries = list_window(t, cache, fd, depth);
    let ghost es = entries_at(*t, cache.deep_view(), depth as int - 1, depth as int);
    proof {
        if depth == 0 {
            lemma_entries_nonpos_fd(*t, cache.deep_view(), 0, -1, 0);
        }
        assert(entries.deep_view() == es);
    }
    let ghost mapped = root_group_ctxs(*t, cache.deep_view(), depth as int);
    let mut r: Vec<GroupCtx> = Vec::new();
    let mut m: usize = 0;
    proof {
        assert(ctxs_view(r@) =~= mapped.take(0));
    }
    while m < entries.len()
        invariant
            m <= entries@.len(),
            es == entries.deep_view(),
            es.len() == entries@.len(),
            mapped == root_group_ctxs(*t, cache.deep_view(), depth as int),
            mapped.len() == es.len(),
            es == entries_at(*t, cache.deep_view(), depth as int - 1, depth as int),
            ctxs_view(r@) == mapped.take(m as int),
        decreases entries@.len() - m,
    {
        let ghost pre = r@;
        let name = join_path(&entries[m]);
        let path = concat_segs(cache, &entries[m]);
        let ctx = GroupCtx { name, path };
        proof {
            assert(ctx.name@ =~= mapped[m as int].name);
            assert(ctx.path.deep_view() =~= mapped[m as int].path);
            assert(ctx_view(ctx) == mapped[m as int]);
        }
        r.push(ctx);
        proof {
            assert(ctxs_view(r@) =~= ctxs_view(pre).push(ctx_view(ctx)));
            assert(mapped.take(m + 1) =~= mapped.take(m as int).push(mapped[m as int]));
        }
        m += 1;
    }
    proof {
        assert(mapped.take(mapped.len() as int) =~= mapped);
    }
    r
}

/// The albums one album marker discovers under one group context.
fn album_ctxs_one(t: &DirTree, gc: &GroupCtx, cache: &Vec<String>, a: &Album) -> (r: Vec<GroupCtx>)
    ensures
        ctxs_view(r@) == album_ctxs(*t, ctx_view(*gc), cache.deep_view(), *a),
{
    let fd: usize;
    let sd: usize;
    match a.tipe {
        AlbumType::Single => {
            fd = 0;
            sd = 1;
        },
        AlbumType::Depth => {
            fd = if a.min == 0 {
                0
            } else {
                a.min - 1
            };
            sd = a.min;
        },
        AlbumType::Range => {
            fd = if a.min == 0 {
                0
            } else {
                a.min - 1
            };
            sd = a.max;
        },
    }
    let base = concat_segs(&gc.path, cache);
    let entries = list_window(t, &base, fd, sd);
    let ghost base_v = gc.path.deep_view() + cache.deep_view();
    let ghost es = entries_at(*t, base_v, album_window(*a).0, album_window(*a).1);
    proof {
        if a.min == 0 && !(a.tipe is Single) {
            lemma_entries_nonpos_fd(*t, base_v, 0, -1, sd as int);
        }
        assert(entries.deep_view() == es);
    }
    let ghost mapped = album_ctxs(*t, ctx_view(*gc), cache.deep_view(), *a);
    let mut r: Vec<GroupCtx> = Vec::new();
    let mut m: usize = 0;
    proof {
        assert(ctxs_view(r@) =~= mapped.take(0));
    }
    while m < entries.len()
        invariant
            m <= entries@.len(),
            es == entries.deep_view(),
            es.len() == entries@.len(),
            mapped == album_ctxs(*t, ctx_view(*gc), cache.deep_view(), *a),
            mapped.len() == es.len(),
            base_v == gc.path.deep_view() + cache.deep_view(),
            base.deep_view() == base_v,
            es == entries_at(*t, base_v, album_window(*a).0, album_window(*a).1),
            ctxs_view(r@) == mapped.take(m as int),
        decreases entries@.len() - m,
    {
        let ghost pre = r@;
        let name = join_path(&entries[m]);
        let path = concat_segs(&base, &entries[m]);
        let ctx = GroupCtx { name, path };
        proof {
            assert(ctx.name@ =~= mapped[m as int].name);
            assert(ctx.path.deep_view() =~= mapped[m as int].path);
            assert(ctx_view(ctx) == mapped[m as int]);
        }
        r.push(ctx);
        proof {
            assert(ctxs_view(r@) =~= ctxs_view(pre).push(ctx_view(ctx)));
            assert(mapped.take(m + 1) =~= mapped.take(m as int).push(mapped[m as int]));
        }
        m += 1;
    }
    proof {
        assert(mapped.take(mapped.len() as int) =~= mapped);
    }
    r
}

/// Crawl one compiled pattern against the tree snapshot and emit one
/// whole-album snapshot per discovered album, in discovery order.
///
/// Two group contexts of one pass never share a name (each group marker
/// matches at a fixed depth, so the colon-joined names differ whenever the
/// paths do); if two patterns of one layout produce the same group name, the
/// aggregator merges them per `(group, album)` key, the last snapshot
/// winning — a deliberate, deterministic collision policy.
pub fn crawl_pattern(t: &DirTree, comps: &Vec<PathComponent>, kind: GroupType) -> (r: Vec<
    SetEvent,
>)
    ensures
        r.deep_view() == spec_crawl_events(*t, comps.deep_view(), kind),
{
    let ghost cvs = comps.deep_view();
    let mut cache: Vec<String> = Vec::new();
    let mut groups: Vec<GroupCtx> = Vec::new();
    let mut filled: Vec<(GroupCtx, Vec<GroupCtx>)> = Vec::new();
    let mut saw_group: bool = false;
    let ghost mut st = init_crawl();
    let mut idx: usize = 0;
    proof {
        assert(cvs.skip(0) =~= cvs);
        assert(cache.deep_view() =~= st.cache);
        assert(ctxs_view(groups@) =~= st.groups);
        assert(filled_view(filled@) =~= st.filled);
    }
    while idx < comps.len()
        invariant
            idx <= comps@.len(),
            cvs == comps.deep_view(),
            cvs.len() == comps@.len(),
            crawl_fold(*t, cvs, init_crawl()) == crawl_fold(*t, cvs.skip(idx as int), st),
            st.cache == cache.deep_view(),
            st.groups == ctxs_view(groups@),
            st.filled == filled_view(filled@),
            st.saw_group == saw_group,
        decreases comps@.len() - idx,
    {
        let ghost pre_st = st;
        proof {
            assert(cvs.skip(idx as int)[0] == cvs[idx as int]);
            assert(cvs.skip(idx as int).skip(1) =~= cvs.skip(idx + 1));
            assert(cvs[idx as int] == comps@[idx as int]@);
            st = comp_step(*t, pre_st, cvs[idx as int]);
        }
        match &comps[idx] {
            PathComponent::Dir(segs) => {
                extend_segs(&mut cache, segs);
                proof {
                    assert(st.cache == cache.deep_view());
                    assert(st.groups == ctxs_view(groups@));
                    assert(st.filled == filled_view(filled@));
                }
            },
            PathComponent::Group(g) => {
                let depth = g.depth;
                let ghost new_gs = if pre_st.groups.len() == 0 {
                    if pre_st.saw_group {
                        Seq::<CtxV>::empty()
                    } else {
                        root_group_ctxs(*t, pre_st.cache, depth as int)
                    }
                } else {
                    groups_upto(
                        *t,
                        pre_st.groups,
                        pre_st.cache,
                        depth as int,
                        pre_st.groups.len() as int,
                    )
                };
                let mut new_groups: Vec<GroupCtx> = Vec::new();
                if groups.len() == 0 && saw_group {
                    // An earlier group marker matched nothing: no context is
                    // left to expand.
                    proof {
                        assert(ctxs_view(new_groups@) =~= Seq::<CtxV>::empty());
                    }
                } else if groups.len() == 0 {
                    new_groups = group_ctxs_root(t, &cache, depth);
                } else {
                    let mut gi: usize = 0;
                    proof {
                        assert(ctxs_view(new_groups@) =~= groups_upto(
                            *t,
                            pre_st.groups,
                            pre_st.cache,
                            depth as int,
                            0,
                        ));
                    }
                    while gi < groups.len()
                        invariant
                            gi <= groups@.len(),
                            pre_st.groups == ctxs_view(groups@),
                            pre_st.groups.len() == groups@.len(),
                            pre_st.cache == cache.deep_view(),
                            ctxs_view(new_groups@) == groups_upto(
                                *t,
                                pre_st.groups,
                                pre_st.cache,
                                depth as int,
                                gi as int,
                            ),
                        decreases groups@.len() - gi,
                    {
                        let ghost pre_new = new_groups@;
                        let more = group_ctxs_one(t, &groups[gi], &cache, depth);
                        let ghost more_v = ctxs_view(more@);
                        let mut mi: usize = 0;
                        proof {
                            assert(ctx_view(groups@[gi as int]) == pre_st.groups[gi as int]);
                            assert(more_v == group_ctxs_from(
                                *t,
                                pre_st.groups[gi as int],
                                pre_st.cache,
                                depth as int,
                            ));
                            assert(ctxs_view(new_groups@) =~= ctxs_view(pre_new) + more_v.take(0));
                        }
                        while mi < more.len()
                            invariant
                                mi <= more@.len(),
                                more_v == ctxs_view(more@),
                                more_v.len() == more@.len(),
                                ctxs_view(new_groups@) == ctxs_view(pre_new) + more_v.take(
                                    mi as int,
                                ),
                            decreases more@.len() - mi,
                        {
                            let ghost pre2 = new_groups@;
                            let item = clone_ctx(&more[mi]);
                            new_groups.push(item);
                            proof {
                                assert(ctxs_view(new_groups@) =~= ctxs_view(pre2).push(
                                    ctx_view(more@[mi as int]),
                                ));
                                assert(more_v.take(mi + 1) =~= more_v.take(mi as int).push(
                                    more_v[mi as int],
                                ));
                            }
                            mi += 1;
                        }
                        proof {
                            assert(more_v.take(more_v.len() as int) =~= more_v);
                            assert(ctxs_view(new_groups@) =~= ctxs_view(pre_new) + more_v);
                        }
                        gi += 1;
                    }
                }
                groups = new_groups;
                cache = Vec::new();
                saw_group = true;
                proof {
                    assert(ctxs_view(groups@) =~= new_gs);
                    assert(cache.deep_view() =~= Seq::<Seq<char>>::empty());
                    assert(st.cache == cache.deep_view());
                    assert(st.groups == ctxs_view(groups@));
                    assert(st.filled == filled_view(filled@));
                }
            },
            PathComponent::Album(a) => {
                if groups.len() == 0 && !saw_group {
                    let dctx = GroupCtx { name: "%default%".to_owned(), path: Vec::new() };
                    proof {
                        assert(dctx.path.deep_view() =~= Seq::<Seq<char>>::empty());
                        assert(dctx.name@ == "%default%"@);
                        assert(ctx_view(dctx) == default_ctx());
                    }
                    groups.push(dctx);
                    proof {
                        assert(ctxs_view(groups@) =~= seq![default_ctx()]);
                    }
                }
                let ghost gs_v = ctxs_view(groups@);
                proof {
                    if pre_st.groups.len() == 0 && !pre_st.saw_group {
                        assert(gs_v == seq![default_ctx()]);
                    } else {
                        assert(gs_v == pre_st.groups);
                    }
                }
                let ghost fill_base = filled_view(filled@);
                let mut gi: usize = 0;
                proof {
                    assert(filled_view(filled@) =~= fill_base + albums_upto(
                        *t,
                        gs_v,
                        pre_st.cache,
                        *a,
                        0,
                    ));
                }
                while gi < groups.len()
                    invariant
                        gi <= groups@.len(),
                        gs_v == ctxs_view(groups@),
                        gs_v.len() == groups@.len(),
                        pre_st.cache == cache.deep_view(),
                        filled_view(filled@) == fill_base + albums_upto(
                            *t,
                            gs_v,
                            pre_st.cache,
                            *a,
                            gi as int,
                        ),
                    decreases groups@.len() - gi,
                {
                    let ghost pre_fill = filled@;
                    let album_cache = album_ctxs_one(t, &groups[gi], &cache, a);
                    let gctx = clone_ctx(&groups[gi]);
                    proof {
                        assert(ctx_view(groups@[gi as int]) == gs_v[gi as int]);
                        assert(ctxs_view(album_cache@) == album_ctxs(
                            *t,
                            gs_v[gi as int],
                            pre_st.cache,
                            *a,
                        ));
                    }
                    filled.push((gctx, album_cache));
                    proof {
                        assert(filled_view(filled@) =~= filled_view(pre_fill).push(
                            (ctx_view(gctx), ctxs_view(album_cache@)),
                        ));
                        assert(albums_upto(*t, gs_v, pre_st.cache, *a, gi + 1) =~= albums_upto(
                            *t,
                            gs_v,
                            pre_st.cache,
                            *a,
                            gi as int,
                        ).push((gs_v[gi as int], album_ctxs(*t, gs_v[gi as int], pre_st.cache, *a))));
                        assert(filled_view(filled@) =~= fill_base + albums_upto(
                            *t,
                            gs_v,
                            pre_st.cache,
                            *a,
                            gi + 1,
                        ));
                    }
                    gi += 1;
                }
                groups = Vec::new();
                cache = Vec::new();
                proof {
                    assert(albums_upto(*t, gs_v, pre_st.cache, *a, gs_v.len() as int) =~= albums_upto(
                        *t,
                        gs_v,
                        pre_st.cache,
                        *a,
                        gs_v.len() as int,
                    ));
                    assert(ctxs_view(groups@) =~= Seq::<CtxV>::empty());
                    assert(cache.deep_view() =~= Seq::<Seq<char>>::empty());
                    assert(st.cache == cache.deep_view());
                    assert(st.groups == ctxs_view(groups@));
                    assert(st.filled == filled_view(filled@));
                }
            },
        }
        idx += 1;
    }
    proof {
        assert(cvs.skip(cvs.len() as int) =~= Seq::<PathComponentView>::empty());
        assert(spec_crawl(*t, cvs) == st);
    }

    // Emit one snapshot per discovered album; the remaining literal buffer is
    // the common suffix appended to every album path before listing files.
    let mut r: Vec<SetEvent> = Vec::new();
    let mut fi: usize = 0;
    proof {
        assert(r.deep_view() =~= events_upto(*t, st.filled, st.cache, kind, 0));
    }
    while fi < filled.len()
        invariant
            fi <= filled@.len(),
            st.filled == filled_view(filled@),
            st.filled.len() == filled@.len(),
            st.cache == cache.deep_view(),
            r.deep_view() == events_upto(*t, st.filled, st.cache, kind, fi as int),
        decreases filled@.len() - fi,
    {
        let ghost pair = st.filled[fi as int];
        let ghost pevents = pair_events(*t, pair, st.cache, kind);
        let ghost base_ev = r.deep_view();
        let mut ai: usize = 0;
        proof {
            assert(pair == (ctx_view(filled@[fi as int].0), ctxs_view(filled@[fi as int].1@)));
            assert(r.deep_view() =~= base_ev + pevents.take(0));
        }
        while ai < filled[fi].1.len()
            invariant
                fi < filled@.len(),
                ai <= filled@[fi as int].1@.len(),
                st.filled == filled_view(filled@),
                st.filled.len() == filled@.len(),
                st.cache == cache.deep_view(),
                pair == st.filled[fi as int],
                pair == (ctx_view(filled@[fi as int].0), ctxs_view(filled@[fi as int].1@)),
                pevents == pair_events(*t, pair, st.cache, kind),
                pevents.len() == filled@[fi as int].1@.len(),
                r.deep_view() == base_ev + pevents.take(ai as int),
            decreases filled@[fi as int].1@.len() - ai,
        {
            let ghost pre_r = r.deep_view();
            let al = &filled[fi].1[ai];
            let ghost al_v = ctxs_view(filled@[fi as int].1@)[ai as int];
            let full = concat_segs(&al.path, &cache);
            proof {
                assert(al_v == ctx_view(filled@[fi as int].1@[ai as int]));
                assert(full.deep_view() == al_v.path + st.cache);
                assert(full.deep_view().skip(0) =~= full.deep_view());
            }
            let files: Vec<String> = match crate::fstree::find_node(t, &full, 0) {
                Some(n) => clone_strings(&n.files),
                None => Vec::new(),
            };
            proof {
                assert(files.deep_view() =~= file_list(*t, al_v.path + st.cache));
            }
            let ev = SetEvent {
                group_name: filled[fi].0.name.clone(),
                album_name: al.name.clone(),
                tipe: kind,
                files,
            };
            proof {
                assert(ev@ == event_of(*t, pair.0.name, al_v, st.cache, kind));
                assert(pevents[ai as int] == event_of(*t, pair.0.name, al_v, st.cache, kind));
            }
            r.push(ev);
            proof {
                assert(r.deep_view() =~= pre_r.push(pevents[ai as int]));
                assert(base_ev + pevents.take(ai + 1) =~= (base_ev + pevents.take(ai as int)).push(
                    pevents[ai as int],
                ));
            }
            ai += 1;
        }
        proof {
            assert(pevents.take(pevents.len() as int) =~= pevents);
            assert(r.deep_view() =~= base_ev + pevents);
            assert(events_upto(*t, st.filled, st.cache, kind, fi + 1) == events_upto(
                *t,
                st.filled,
                st.cache,
                kind,
                fi as int,
            ) + pevents);
        }
        fi += 1;
    }
    r
}

/// A copy of a snapshot event.
fn clone_event(e: &SetEvent) -> (r: SetEvent)
    ensures
        r@ == e@,
{
    let files = clone_strings(&e.files);
    SetEvent {
        group_name: e.group_name.clone(),
        album_name: e.album_name.clone(),
        tipe: e.tipe,
        files,
    }
}

/// The snapshots a whole layout emits: every raw pattern's, then every
/// render pattern's, in order.
pub open spec fn patterns_events_upto(
    t: DirTree,
    ps: Seq<Seq<PathComponentView>>,
    kind: GroupType,
    i: int,
) -> Seq<SetEventView>
    decreases i,
{
    if i <= 0 {
        Seq::<SetEventView>::empty()
    } else {
        patterns_events_upto(t, ps, kind, i - 1) + spec_crawl_events(t, ps[i - 1], kind)
    }
}

/// Every snapshot one crawl pass over the layout emits.
pub open spec fn spec_layout_events(
    t: DirTree,
    raw: Seq<Seq<PathComponentView>>,
    render: Seq<Seq<PathComponentView>>,
) -> Seq<SetEventView> {
    patterns_events_upto(t, raw, GroupType::Raw, raw.len() as int) + patterns_events_upto(
        t,
        render,
        GroupType::Render,
        render.len() as int,
    )
}

/// Crawl every pattern of the layout against the tree snapshot: the raw
/// patterns tagged `Raw`, then the render patterns tagged `Render`.
pub fn crawl_layout(t: &DirTree, layout: &DirectoryLayout) -> (r: Vec<SetEvent>)
    ensures
        r.deep_view() == spec_layout_events(
            *t,
            layout.raw_dirs.deep_view(),
            layout.render_dirs.deep_view(),
        ),
{
    let ghost raw_v = layout.raw_dirs.deep_view();
    let ghost render_v = layout.render_dirs.deep_view();
    let mut r: Vec<SetEvent> = Vec::new();
    let mut i: usize = 0;
    proof {
        assert(r.deep_view() =~= patterns_events_upto(*t, raw_v, GroupType::Raw, 0));
    }
    while i < layout.raw_dirs.len()
        invariant
            i <= layout.raw_dirs@.len(),
            raw_v == layout.raw_dirs.deep_view(),
            raw_v.len() == layout.raw_dirs@.len(),
            r.deep_view() == patterns_events_upto(*t, raw_v, GroupType::Raw, i as int),
        decreases layout.raw_dirs@.len() - i,
    {
        let ghost pre = r.deep_view();
        let mut evs = crawl_pattern(t, &layout.raw_dirs[i], GroupType::Raw);
        let ghost evs_v = evs.deep_view();
        proof {
            assert(raw_v[i as int] == layout.raw_dirs@[i as int].deep_view());
            assert(evs_v == spec_crawl_events(*t, raw_v[i as int], GroupType::Raw));
        }
        let mut k: usize = 0;
        proof {
            assert(r.deep_view() =~= pre + evs_v.take(0));
        }
        while k < evs.len()
            invariant
                k <= evs@.len(),
                evs_v == evs.deep_view(),
                evs_v.len() == evs@.len(),
                r.deep_view() == pre + evs_v.take(k as int),
            decreases evs@.len() - k,
        {
            let ghost pre2 = r.deep_view();
            let ev = clone_event(&evs[k]);
            proof {
                assert(ev@ == evs_v[k as int]);
            }
            r.push(ev);
            proof {
                assert(r.deep_view() =~= pre2.push(evs_v[k as int]));
                assert(pre + evs_v.take(k + 1) =~= (pre + evs_v.take(k as int)).push(
                    evs_v[k as int],
                ));
            }
            k += 1;
        }
        proof {
            assert(evs_v.take(evs_v.len() as int) =~= evs_v);
            assert(r.deep_view() =~= pre + evs_v);
        }
        i += 1;
    }
    let ghost raw_done = r.deep_view();
    let mut j: usize = 0;
    proof {
        assert(r.deep_view() =~= raw_done + patterns_events_upto(*t, render_v, GroupType::Render, 0));
    }
    while j < layout.render_dirs.len()
        invariant
            j <= layout.render_dirs@.len(),
            render_v == layout.render_dirs.deep_view(),
            render_v.len() == layout.render_dirs@.len(),
            raw_done == patterns_events_upto(*t, raw_v, GroupType::Raw, raw_v.len() as int),
            raw_v == layout.raw_dirs.deep_view(),
            r.deep_view() == raw_done + patterns_events_upto(
                *t,
                render_v,
                GroupType::Render,
                j as int,
            ),
        decreases layout.render_dirs@.len() - j,
    {
        let ghost pre = r.deep_view();
        let evs = crawl_pattern(t, &layout.render_dirs[j], GroupType::Render);
        let ghost evs_v = evs.deep_view();
        proof {
            assert(render_v[j as int] == layout.render_dirs@[j as int].deep_view());
            assert(evs_v == spec_crawl_events(*t, render_v[j as int], GroupType::Render));
        }
        let mut k: usize = 0;
        proof {
            assert(r.deep_view() =~= pre + evs_v.take(0));
        }
        while k < evs.len()
            invariant
                k <= evs@.len(),
                evs_v == evs.deep_view(),
                evs_v.len() == evs@.len(),
                r.deep_view() == pre + evs_v.take(k as int),
            decreases evs@.len() - k,
        {
            let ghost pre2 = r.deep_view();
            let ev = clone_event(&evs[k]);
            proof {
                assert(ev@ == evs_v[k as int]);
            }
            r.push(ev);
            proof {
                assert(r.deep_view() =~= pre2.push(evs_v[k as int]));
                assert(pre + evs_v.take(k + 1) =~= (pre + evs_v.take(k as int)).push(
                    evs_v[k as int],
                ));
            }
            k += 1;
        }
        proof {
            assert(evs_v.take(evs_v.len() as int) =~= evs_v);
            assert(r.deep_view() =~= pre + evs_v);
        }
        j += 1;
    }
    r
}

} // verus!
