//! The count aggregator: turns a stream of per-album file-listing snapshots
//! into stable, accumulate-only `total` counts alongside transient `raw` /
//! `render` counts, and answers on-demand full-count queries.

use crate::events::{
    Count, CountUpdateEvent, CountUpdateEventView, CountView, DirectoryUpdateEvent, GroupType,
    SetEvent, SetEventView,
};
use crate::strutil::str_eq;
use vstd::prelude::*;

verus! {

/// The accumulated ledger entry for a key, or the empty set if the key was
/// never observed.
pub open spec fn ledger_set(
    m: Map<(Seq<char>, Seq<char>), Set<Seq<char>>>,
    k: (Seq<char>, Seq<char>),
) -> Set<Seq<char>> {
    if m.contains_key(k) {
        m[k]
    } else {
        Set::<Seq<char>>::empty()
    }
}

/// Appending an element that is not yet present keeps a sequence
/// duplicate-free.
proof fn lemma_push_keeps_no_dup<A>(s: Seq<A>, x: A)
    requires
        s.no_duplicates(),
        !s.contains(x),
    ensures
        s.push(x).no_duplicates(),
{
    let p = s.push(x);
    assert forall|i: int, j: int| 0 <= i < j < p.len() implies p[i] != p[j] by {
        if j == s.len() {
            assert(p[i] == s[i]);
            assert(!s.contains(x));
            assert(s[i] != x);
        } else {
            assert(p[i] == s[i] && p[j] == s[j]);
        }
    }
}

/// Does `v` hold a string whose characters are `x`'s?
fn vec_contains_string(v: &Vec<String>, x: &String) -> (r: bool)
    ensures
        r == v.deep_view().contains(x@),
{
    let mut i: usize = 0;
    while i < v.len()
        invariant
            i <= v.len(),
            forall|j: int| 0 <= j < i ==> v.deep_view()[j] != x@,
        decreases v.len() - i,
    {
        if v[i] == *x {
            assert(v.deep_view()[i as int] == x@);
            return true;
        }
        i += 1;
    }
    assert(!v.deep_view().contains(x@));
    false
}

/// Copy `files` dropping duplicates; the result holds the same set of names,
/// each exactly once.
fn dedup_files(files: &Vec<String>) -> (r: Vec<String>)
    ensures
        r.deep_view().no_duplicates(),
        r.deep_view().to_set() == files.deep_view().to_set(),
{
    let ghost fv = files.deep_view();
    let mut r: Vec<String> = Vec::new();
    let mut i: usize = 0;
    assert(r.deep_view() =~= Seq::<Seq<char>>::empty());
    assert(r.deep_view().to_set() =~= fv.take(0).to_set());
    while i < files.len()
        invariant
            i <= files.len(),
            fv == files.deep_view(),
            fv.len() == files.len(),
            r.deep_view().no_duplicates(),
            r.deep_view().to_set() == fv.take(i as int).to_set(),
        decreases files.len() - i,
    {
        let ghost pre = r.deep_view();
        let ghost x = fv[i as int];
        let hit = vec_contains_string(&r, &files[i]);
        proof {
            assert(fv.take(i + 1) =~= fv.take(i as int).push(x));
            fv.take(i as int).lemma_push_to_set_commute(x);
        }
        if !hit {
            r.push(files[i].clone());
            proof {
                assert(r.deep_view() =~= pre.push(x));
                lemma_push_keeps_no_dup(pre, x);
                pre.lemma_push_to_set_commute(x);
                assert(r.deep_view().to_set() =~= fv.take(i + 1).to_set());
            }
        } else {
            proof {
                assert(pre.to_set().contains(x));
                assert(fv.take(i + 1).to_set() =~= fv.take(i as int).to_set());
            }
        }
        i += 1;
    }
    proof {
        assert(fv.take(fv.len() as int) =~= fv);
    }
    r
}

/// Add every name of `names` that is still missing to `dst`, keeping `dst`
/// duplicate-free: afterwards `dst` holds the union of both name sets.
fn union_into(dst: &mut Vec<String>, names: &Vec<String>)
    requires
        old(dst).deep_view().no_duplicates(),
    ensures
        final(dst).deep_view().no_duplicates(),
        final(dst).deep_view().to_set() == old(dst).deep_view().to_set().union(
            names.deep_view().to_set(),
        ),
{
    let ghost nv = names.deep_view();
    let ghost base = old(dst).deep_view().to_set();
    let mut i: usize = 0;
    assert(dst.deep_view().to_set() =~= base.union(nv.take(0).to_set()));
    while i < names.len()
        invariant
            i <= names.len(),
            nv == names.deep_view(),
            nv.len() == names.len(),
            dst.deep_view().no_duplicates(),
            dst.deep_view().to_set() == base.union(nv.take(i as int).to_set()),
        decreases names.len() - i,
    {
        let ghost pre = dst.deep_view();
        let ghost x = nv[i as int];
        let hit = vec_contains_string(dst, &names[i]);
        proof {
            assert(nv.take(i + 1) =~= nv.take(i as int).push(x));
            nv.take(i as int).lemma_push_to_set_commute(x);
        }
        if !hit {
            dst.push(names[i].clone());
            proof {
                assert(dst.deep_view() =~= pre.push(x));
                lemma_push_keeps_no_dup(pre, x);
                pre.lemma_push_to_set_commute(x);
                assert(dst.deep_view().to_set() =~= base.union(nv.take(i + 1).to_set()));
            }
        } else {
            proof {
                assert(pre.to_set().contains(x));
                assert(dst.deep_view().to_set() =~= base.union(nv.take(i + 1).to_set()));
            }
        }
        i += 1;
    }
    proof {
        assert(nv.take(nv.len() as int) =~= nv);
    }
}

/// One ledger entry: every distinct raw file name ever observed for the
/// `(album_name, group_name)` pair.
struct TotalsSlot {
    album_name: String,
    group_name: String,
    files: Vec<String>,
}

/// The ledger key of a slot.
spec fn t_key(s: TotalsSlot) -> (Seq<char>, Seq<char>) {
    (s.album_name@, s.group_name@)
}

/// The ledger as a map, later entries shadowing earlier ones (well-formed
/// ledgers have distinct keys, so nothing is shadowed).
spec fn totals_map_of(s: Seq<TotalsSlot>) -> Map<(Seq<char>, Seq<char>), Set<Seq<char>>>
    decreases s.len(),
{
    if s.len() == 0 {
        Map::<(Seq<char>, Seq<char>), Set<Seq<char>>>::empty()
    } else {
        totals_map_of(s.drop_last()).insert(
            t_key(s.last()),
            s.last().files.deep_view().to_set(),
        )
    }
}

proof fn lemma_totals_map_contains(s: Seq<TotalsSlot>)
    ensures
        forall|k: (Seq<char>, Seq<char>)|
            totals_map_of(s).contains_key(k) <==> exists|i: int|
                0 <= i < s.len() && t_key(#[trigger] s[i]) == k,
    decreases s.len(),
{
    if s.len() > 0 {
        let d = s.drop_last();
        lemma_totals_map_contains(d);
        assert forall|k: (Seq<char>, Seq<char>)| totals_map_of(s).contains_key(k) implies exists|
            i: int,
        | 0 <= i < s.len() && t_key(#[trigger] s[i]) == k by {
            if k == t_key(s.last()) {
                assert(t_key(s[s.len() - 1]) == k);
            } else {
                assert(totals_map_of(d).contains_key(k));
                let i = choose|i: int| 0 <= i < d.len() && t_key(#[trigger] d[i]) == k;
                assert(d[i] == s[i]);
                assert(t_key(s[i]) == k);
            }
        }
        assert forall|k: (Seq<char>, Seq<char>)|
            (exists|i: int| 0 <= i < s.len() && t_key(#[trigger] s[i]) == k) implies totals_map_of(
            s,
        ).contains_key(k) by {
            let i = choose|i: int| 0 <= i < s.len() && t_key(#[trigger] s[i]) == k;
            if i < s.len() - 1 {
                assert(d[i] == s[i]);
                assert(t_key(d[i]) == k);
                assert(totals_map_of(d).contains_key(k));
            }
        }
    }
}

proof fn lemma_totals_map_index(s: Seq<TotalsSlot>, i: int)
    requires
        0 <= i < s.len(),
        forall|j: int, l: int|
            0 <= j < l < s.len() ==> t_key(#[trigger] s[j]) != t_key(#[trigger] s[l]),
    ensures
        totals_map_of(s).contains_key(t_key(s[i])),
        totals_map_of(s)[t_key(s[i])] == s[i].files.deep_view().to_set(),
    decreases s.len(),
{
    lemma_totals_map_contains(s);
    if i == s.len() - 1 {
    } else {
        assert(t_key(s[i]) != t_key(s[s.len() - 1]));
        assert(s.drop_last()[i] == s[i]);
        lemma_totals_map_index(s.drop_last(), i);
    }
}

proof fn lemma_totals_map_update(s: Seq<TotalsSlot>, i: int, slot: TotalsSlot)
    requires
        0 <= i < s.len(),
        t_key(slot) == t_key(s[i]),
        forall|j: int, l: int|
            0 <= j < l < s.len() ==> t_key(#[trigger] s[j]) != t_key(#[trigger] s[l]),
    ensures
        totals_map_of(s.update(i, slot)) == totals_map_of(s).insert(
            t_key(slot),
            slot.files.deep_view().to_set(),
        ),
    decreases s.len(),
{
    let s2 = s.update(i, slot);
    if i == s.len() - 1 {
        assert(s2.drop_last() =~= s.drop_last());
        assert(s2.last() == slot);
        assert(totals_map_of(s2) =~= totals_map_of(s).insert(
            t_key(slot),
            slot.files.deep_view().to_set(),
        ));
    } else {
        assert(s2.drop_last() =~= s.drop_last().update(i, slot));
        assert(s2.last() == s.last());
        lemma_totals_map_update(s.drop_last(), i, slot);
        assert(t_key(s[i]) != t_key(s[s.len() - 1]));
        assert(totals_map_of(s2) =~= totals_map_of(s).insert(
            t_key(slot),
            slot.files.deep_view().to_set(),
        ));
    }
}

/// The accumulate-only totals ledger: for every `(album_name, group_name)`
/// pair, the set of every distinct raw file name ever observed for it. It
/// grows monotonically and never shrinks.
pub struct Totals {
    entries: Vec<TotalsSlot>,
}

impl View for Totals {
    type V = Map<(Seq<char>, Seq<char>), Set<Seq<char>>>;

    closed spec fn view(&self) -> Map<(Seq<char>, Seq<char>), Set<Seq<char>>> {
        totals_map_of(self.entries@)
    }
}

impl Totals {
    /// Keys are distinct and every entry's name list is duplicate-free.
    pub closed spec fn wf(&self) -> bool {
        &&& forall|j: int, l: int|
            0 <= j < l < self.entries@.len() ==> t_key(#[trigger] self.entries@[j]) != t_key(
                #[trigger] self.entries@[l],
            )
        &&& forall|i: int|
            0 <= i < self.entries@.len() ==> (#[trigger] self.entries@[i]).files.deep_view()
                .no_duplicates()
    }

    pub fn new() -> (r: Totals)
        ensures
            r.wf(),
            r@ == Map::<(Seq<char>, Seq<char>), Set<Seq<char>>>::empty(),
    {
        Totals { entries: Vec::new() }
    }

    /// The index of the entry for the pair, if one exists.
    fn find(&self, album_name: &str, group_name: &str) -> (r: Option<usize>)
        ensures
            match r {
                Some(i) => i < self.entries@.len() && t_key(self.entries@[i as int]) == (
                    album_name@,
                    group_name@,
                ),
                None => forall|i: int|
                    0 <= i < self.entries@.len() ==> t_key(#[trigger] self.entries@[i]) != (
                        album_name@,
                        group_name@,
                    ),
            },
    {
        let mut i: usize = 0;
        while i < self.entries.len()
            invariant
                i <= self.entries@.len(),
                forall|j: int|
                    0 <= j < i ==> t_key(#[trigger] self.entries@[j]) != (
                        album_name@,
                        group_name@,
                    ),
            decreases self.entries@.len() - i,
        {
            let a_hit = str_eq(self.entries[i].album_name.as_str(), album_name);
            let g_hit = str_eq(self.entries[i].group_name.as_str(), group_name);
            if a_hit && g_hit {
                return Some(i);
            }
            i += 1;
        }
        None
    }

    /// Union the given names into the pair's ledger entry, creating the entry
    /// if it is absent. The entry never loses members.
    pub fn update_count(&mut self, album_name: &str, group_name: &str, names: &Vec<String>)
        requires
            old(self).wf(),
        ensures
            final(self).wf(),
            final(self)@ == old(self)@.insert(
                (album_name@, group_name@),
                ledger_set(old(self)@, (album_name@, group_name@)).union(
                    names.deep_view().to_set(),
                ),
            ),
    {
        let ghost key = (album_name@, group_name@);
        proof {
            lemma_totals_map_contains(self.entries@);
        }
        match self.find(album_name, group_name) {
            Some(i) => {
                proof {
                    lemma_totals_map_index(self.entries@, i as int);
                }
                let mut slot = self.entries.remove(i);
                let ghost pre = self.entries@;
                union_into(&mut slot.files, names);
                self.entries.insert(i, slot);
                proof {
                    assert(self.entries@ =~= old(self).entries@.update(i as int, slot));
                    lemma_totals_map_update(old(self).entries@, i as int, slot);
                }
            },
            None => {
                let mut files: Vec<String> = Vec::new();
                union_into(&mut files, names);
                let slot = TotalsSlot {
                    album_name: album_name.to_owned(),
                    group_name: group_name.to_owned(),
                    files,
                };
                self.entries.push(slot);
                proof {
                    assert(self.entries@.drop_last() =~= old(self).entries@);
                    assert(ledger_set(old(self)@, key) =~= Set::<Seq<char>>::empty());
                    assert(slot.files.deep_view().to_set() =~= ledger_set(old(self)@, key).union(
                        names.deep_view().to_set(),
                    ));
                }
            },
        }
    }

    /// The number of distinct raw names ever observed for the pair; zero if
    /// the pair has no ledger entry.
    pub fn get_count(&self, album_name: &str, group_name: &str) -> (r: usize)
        requires
            self.wf(),
        ensures
            r == ledger_set(self@, (album_name@, group_name@)).len(),
    {
        proof {
            lemma_totals_map_contains(self.entries@);
        }
        match self.find(album_name, group_name) {
            Some(i) => {
                proof {
                    lemma_totals_map_index(self.entries@, i as int);
                    self.entries@[i as int].files.deep_view().unique_seq_to_set();
                }
                self.entries[i].files.len()
            },
            None => {
                proof {
                    assert(!self@.contains_key((album_name@, group_name@)));
                }
                0
            },
        }
    }
}

/// One album's current snapshots: the deduplicated file sets of the most
/// recent Raw and Render [`SetEvent`]s.
struct Album {
    raw_cache: Vec<String>,
    render_cache: Vec<String>,
}

/// Model of one album's current snapshots.
#[verifier::ext_equal]
pub struct AlbumView {
    pub raw: Set<Seq<char>>,
    pub render: Set<Seq<char>>,
}

impl AlbumView {
    /// An album nobody has reported yet.
    pub open spec fn empty() -> AlbumView {
        AlbumView { raw: Set::<Seq<char>>::empty(), render: Set::<Seq<char>>::empty() }
    }
}

spec fn album_view(a: Album) -> AlbumView {
    AlbumView {
        raw: a.raw_cache.deep_view().to_set(),
        render: a.render_cache.deep_view().to_set(),
    }
}

/// One `(group, album)` pair's entry in the count tree.
struct AlbumSlot {
    group_name: String,
    album_name: String,
    album: Album,
}

/// The count-tree key of a slot.
spec fn c_key(s: AlbumSlot) -> (Seq<char>, Seq<char>) {
    (s.group_name@, s.album_name@)
}

/// The count tree as a map, later entries shadowing earlier ones (well-formed
/// trees have distinct keys, so nothing is shadowed).
spec fn counts_map_of(s: Seq<AlbumSlot>) -> Map<(Seq<char>, Seq<char>), AlbumView>
    decreases s.len(),
{
    if s.len() == 0 {
        Map::<(Seq<char>, Seq<char>), AlbumView>::empty()
    } else {
        counts_map_of(s.drop_last()).insert(c_key(s.last()), album_view(s.last().album))
    }
}

proof fn lemma_counts_map_contains(s: Seq<AlbumSlot>)
    ensures
        forall|k: (Seq<char>, Seq<char>)|
            counts_map_of(s).contains_key(k) <==> exists|i: int|
                0 <= i < s.len() && c_key(#[trigger] s[i]) == k,
    decreases s.len(),
{
    if s.len() > 0 {
        let d = s.drop_last();
        lemma_counts_map_contains(d);
        assert forall|k: (Seq<char>, Seq<char>)| counts_map_of(s).contains_key(k) implies exists|
            i: int,
        | 0 <= i < s.len() && c_key(#[trigger] s[i]) == k by {
            if k == c_key(s.last()) {
                assert(c_key(s[s.len() - 1]) == k);
            } else {
                assert(counts_map_of(d).contains_key(k));
                let i = choose|i: int| 0 <= i < d.len() && c_key(#[trigger] d[i]) == k;
                assert(d[i] == s[i]);
                assert(c_key(s[i]) == k);
            }
        }
        assert forall|k: (Seq<char>, Seq<char>)|
            (exists|i: int| 0 <= i < s.len() && c_key(#[trigger] s[i]) == k) implies counts_map_of(
            s,
        ).contains_key(k) by {
            let i = choose|i: int| 0 <= i < s.len() && c_key(#[trigger] s[i]) == k;
            if i < s.len() - 1 {
                assert(d[i] == s[i]);
                assert(c_key(d[i]) == k);
                assert(counts_map_of(d).contains_key(k));
            }
        }
    }
}

proof fn lemma_counts_map_index(s: Seq<AlbumSlot>, i: int)
    requires
        0 <= i < s.len(),
        forall|j: int, l: int|
            0 <= j < l < s.len() ==> c_key(#[trigger] s[j]) != c_key(#[trigger] s[l]),
    ensures
        counts_map_of(s).contains_key(c_key(s[i])),
        counts_map_of(s)[c_key(s[i])] == album_view(s[i].album),
    decreases s.len(),
{
    lemma_counts_map_contains(s);
    if i == s.len() - 1 {
    } else {
        assert(c_key(s[i]) != c_key(s[s.len() - 1]));
        assert(s.drop_last()[i] == s[i]);
        lemma_counts_map_index(s.drop_last(), i);
    }
}

proof fn lemma_counts_map_update(s: Seq<AlbumSlot>, i: int, slot: AlbumSlot)
    requires
        0 <= i < s.len(),
        c_key(slot) == c_key(s[i]),
        forall|j: int, l: int|
            0 <= j < l < s.len() ==> c_key(#[trigger] s[j]) != c_key(#[trigger] s[l]),
    ensures
        counts_map_of(s.update(i, slot)) == counts_map_of(s).insert(
            c_key(slot),
            album_view(slot.album),
        ),
    decreases s.len(),
{
    let s2 = s.update(i, slot);
    if i == s.len() - 1 {
        assert(s2.drop_last() =~= s.drop_last());
        assert(s2.last() == slot);
        assert(counts_map_of(s2) =~= counts_map_of(s).insert(c_key(slot), album_view(slot.album)));
    } else {
        assert(s2.drop_last() =~= s.drop_last().update(i, slot));
        assert(s2.last() == s.last());
        lemma_counts_map_update(s.drop_last(), i, slot);
        assert(c_key(s[i]) != c_key(s[s.len() - 1]));
        assert(counts_map_of(s2) =~= counts_map_of(s).insert(c_key(slot), album_view(slot.album)));
    }
}

/// Model of the whole aggregator state: the per-pair current snapshots
/// (keyed `(group_name, album_name)`) and the accumulate-only ledger
/// (keyed `(album_name, group_name)`).
#[verifier::ext_equal]
pub struct CountTreeView {
    pub counts: Map<(Seq<char>, Seq<char>), AlbumView>,
    pub totals: Map<(Seq<char>, Seq<char>), Set<Seq<char>>>,
}

/// What one snapshot does to the aggregator state, and the count-update event
/// it yields. The incoming file list is deduplicated into a set; a Raw
/// snapshot is unioned into the pair's ledger entry; the pair's current set
/// of the snapshot's kind is replaced wholesale, the other kind's set kept
/// (empty if the pair is new); the event reports the ledger size as `total`
/// and the two current sizes as `raw` and `render`.
pub open spec fn spec_set(t: CountTreeView, e: SetEventView) -> (CountTreeView,
    CountUpdateEventView) {
    let ckey = (e.group_name, e.album_name);
    let tkey = (e.album_name, e.group_name);
    let fset = e.files.to_set();
    let totals1 = if e.tipe is Raw {
        t.totals.insert(tkey, ledger_set(t.totals, tkey).union(fset))
    } else {
        t.totals
    };
    let old_album = if t.counts.contains_key(ckey) {
        t.counts[ckey]
    } else {
        AlbumView::empty()
    };
    let album1 = if e.tipe is Raw {
        AlbumView { raw: fset, render: old_album.render }
    } else {
        AlbumView { raw: old_album.raw, render: fset }
    };
    (
        CountTreeView { counts: t.counts.insert(ckey, album1), totals: totals1 },
        CountUpdateEventView {
            group_name: e.group_name,
            album_name: e.album_name,
            count: CountView {
                total: ledger_set(totals1, tkey).len(),
                raw: album1.raw.len(),
                render: album1.render.len(),
            },
        },
    )
}

/// The count-update event that a full count reports for one pair.
pub open spec fn spec_cue(t: CountTreeView, key: (Seq<char>, Seq<char>)) -> CountUpdateEventView {
    let album = if t.counts.contains_key(key) {
        t.counts[key]
    } else {
        AlbumView::empty()
    };
    CountUpdateEventView {
        group_name: key.0,
        album_name: key.1,
        count: CountView {
            total: ledger_set(t.totals, (key.1, key.0)).len(),
            raw: album.raw.len(),
            render: album.render.len(),
        },
    }
}

/// The aggregator state: current per-pair snapshots plus the totals ledger.
/// Mutated only through [`CountTree::set`] (and [`CountTree::handle_update`]);
/// read by [`CountTree::full_count`].
pub struct CountTree {
    counts: Vec<AlbumSlot>,
    totals: Totals,
}

impl View for CountTree {
    type V = CountTreeView;

    closed spec fn view(&self) -> CountTreeView {
        CountTreeView { counts: counts_map_of(self.counts@), totals: self.totals@ }
    }
}

impl CountTree {
    /// Keys are distinct and every cached file list is duplicate-free.
    pub closed spec fn wf(&self) -> bool {
        &&& forall|j: int, l: int|
            0 <= j < l < self.counts@.len() ==> c_key(#[trigger] self.counts@[j]) != c_key(
                #[trigger] self.counts@[l],
            )
        &&& forall|i: int|
            0 <= i < self.counts@.len() ==> (#[trigger] self.counts@[i]).album.raw_cache.deep_view()
                .no_duplicates()
        &&& forall|i: int|
            0 <= i < self.counts@.len()
                ==> (#[trigger] self.counts@[i]).album.render_cache.deep_view().no_duplicates()
        &&& self.totals.wf()
    }

    /// The tracked `(group_name, album_name)` pairs, in the tree's own order.
    pub closed spec fn key_seq(&self) -> Seq<(Seq<char>, Seq<char>)> {
        Seq::new(self.counts@.len(), |i: int| c_key(self.counts@[i]))
    }

    /// The tracked pairs are exactly the domain of the model's count map,
    /// each listed once.
    pub proof fn lemma_key_seq(&self)
        requires
            self.wf(),
        ensures
            self.key_seq().no_duplicates(),
            self.key_seq().to_set() == self@.counts.dom(),
    {
        lemma_counts_map_contains(self.counts@);
        assert forall|k: (Seq<char>, Seq<char>)| #[trigger] self@.counts.dom().contains(k) implies
            self.key_seq().to_set().contains(k) by {
            let i = choose|i: int| 0 <= i < self.counts@.len() && c_key(
                #[trigger] self.counts@[i],
            ) == k;
            assert(self.key_seq()[i] == k);
        }
        assert(self.key_seq().to_set() =~= self@.counts.dom());
    }

    pub fn new() -> (r: CountTree)
        ensures
            r.wf(),
            r@.counts == Map::<(Seq<char>, Seq<char>), AlbumView>::empty(),
            r@.totals == Map::<(Seq<char>, Seq<char>), Set<Seq<char>>>::empty(),
    {
        CountTree { counts: Vec::new(), totals: Totals::new() }
    }

    /// The index of the pair's slot, if one exists.
    fn find_album(&self, group_name: &str, album_name: &str) -> (r: Option<usize>)
        ensures
            match r {
                Some(i) => i < self.counts@.len() && c_key(self.counts@[i as int]) == (
                    group_name@,
                    album_name@,
                ),
                None => forall|i: int|
                    0 <= i < self.counts@.len() ==> c_key(#[trigger] self.counts@[i]) != (
                        group_name@,
                        album_name@,
                    ),
            },
    {
        let mut i: usize = 0;
        while i < self.counts.len()
            invariant
                i <= self.counts@.len(),
                forall|j: int|
                    0 <= j < i ==> c_key(#[trigger] self.counts@[j]) != (group_name@, album_name@),
            decreases self.counts@.len() - i,
        {
            let g_hit = str_eq(self.counts[i].group_name.as_str(), group_name);
            let a_hit = str_eq(self.counts[i].album_name.as_str(), album_name);
            if g_hit && a_hit {
                return Some(i);
            }
            i += 1;
        }
        None
    }

    /// Apply one whole-album snapshot and report the pair's new counts.
    pub fn set(&mut self, event: SetEvent) -> (cue: CountUpdateEvent)
        requires
            old(self).wf(),
        ensures
            final(self).wf(),
            final(self)@ == spec_set(old(self)@, event@).0,
            cue@ == spec_set(old(self)@, event@).1,
    {
        let ghost tv = old(self)@;
        let ghost ev = event@;
        let is_raw = matches!(event.tipe, GroupType::Raw);

        // Only raw files feed the accumulate-only totals ledger.
        if is_raw {
            self.totals.update_count(
                event.album_name.as_str(),
                event.group_name.as_str(),
                &event.files,
            );
        }
        let total_count = self.totals.get_count(
            event.album_name.as_str(),
            event.group_name.as_str(),
        );

        let file_set = dedup_files(&event.files);
        proof {
            file_set.deep_view().unique_seq_to_set();
        }
        let raw_count: usize;
        let render_count: usize;

        match self.find_album(event.group_name.as_str(), event.album_name.as_str()) {
            Some(i) => {
                proof {
                    lemma_counts_map_index(self.counts@, i as int);
                }
                let mut slot = self.counts.remove(i);
                let ghost pre = slot;
                if is_raw {
                    slot.album.raw_cache = file_set;
                } else {
                    slot.album.render_cache = file_set;
                }
                proof {
                    slot.album.raw_cache.deep_view().unique_seq_to_set();
                    slot.album.render_cache.deep_view().unique_seq_to_set();
                }
                raw_count = slot.album.raw_cache.len();
                render_count = slot.album.render_cache.len();
                self.counts.insert(i, slot);
                proof {
                    assert(self.counts@ =~= old(self).counts@.update(i as int, slot));
                    lemma_counts_map_update(old(self).counts@, i as int, slot);
                }
            },
            None => {
                let album = if is_raw {
                    raw_count = file_set.len();
                    render_count = 0;
                    Album { raw_cache: file_set, render_cache: Vec::new() }
                } else {
                    raw_count = 0;
                    render_count = file_set.len();
                    Album { raw_cache: Vec::new(), render_cache: file_set }
                };
                let slot = AlbumSlot {
                    group_name: event.group_name.clone(),
                    album_name: event.album_name.clone(),
                    album,
                };
                self.counts.push(slot);
                proof {
                    lemma_counts_map_contains(old(self).counts@);
                    assert(self.counts@.drop_last() =~= old(self).counts@);
                    assert(!tv.counts.contains_key((ev.group_name, ev.album_name)));
                    assert(slot.album.raw_cache.deep_view().to_set() =~= album_view(
                        slot.album,
                    ).raw);
                    if is_raw {
                        assert(slot.album.render_cache.deep_view() =~= Seq::<Seq<char>>::empty());
                        assert(slot.album.render_cache.deep_view().to_set() =~= Set::<
                            Seq<char>,
                        >::empty());
                    } else {
                        assert(slot.album.raw_cache.deep_view() =~= Seq::<Seq<char>>::empty());
                        assert(slot.album.raw_cache.deep_view().to_set() =~= Set::<
                            Seq<char>,
                        >::empty());
                    }
                }
            },
        }

        proof {
            assert(final(self)@.counts =~= spec_set(tv, ev).0.counts);
            assert(final(self)@.totals =~= spec_set(tv, ev).0.totals);
        }
        CountUpdateEvent {
            group_name: event.group_name,
            album_name: event.album_name,
            count: Count { total: total_count, raw: raw_count, render: render_count },
        }
    }

    /// One count-update event per currently tracked pair, without replaying
    /// history. The order follows the tree's own pair order ([`Self::key_seq`]);
    /// order is irrelevant to correctness.
    pub fn full_count(&self) -> (r: Vec<CountUpdateEvent>)
        requires
            self.wf(),
        ensures
            r@.len() == self.key_seq().len(),
            forall|i: int| 0 <= i < r@.len() ==> #[trigger] r@[i]@ == spec_cue(self@, self.key_seq()[i]),
    {
        let mut r: Vec<CountUpdateEvent> = Vec::new();
        let mut i: usize = 0;
        while i < self.counts.len()
            invariant
                self.wf(),
                i <= self.counts@.len(),
                r@.len() == i,
                forall|j: int|
                    0 <= j < i ==> #[trigger] r@[j]@ == spec_cue(self@, self.key_seq()[j]),
            decreases self.counts@.len() - i,
        {
            proof {
                lemma_counts_map_index(self.counts@, i as int);
                self.counts@[i as int].album.raw_cache.deep_view().unique_seq_to_set();
                self.counts@[i as int].album.render_cache.deep_view().unique_seq_to_set();
            }
            let slot = &self.counts[i];
            let total_count = self.totals.get_count(
                slot.album_name.as_str(),
                slot.group_name.as_str(),
            );
            let cue = CountUpdateEvent {
                group_name: slot.group_name.clone(),
                album_name: slot.album_name.clone(),
                count: Count {
                    total: total_count,
                    raw: slot.album.raw_cache.len(),
                    render: slot.album.render_cache.len(),
                },
            };
            r.push(cue);
            i += 1;
        }
        r
    }

    /// Dispatch one aggregator input message, returning the events to forward
    /// downstream. A snapshot is applied and its event forwarded only when its
    /// `total` is positive (empty updates are suppressed); a refresh forwards
    /// the whole current count unfiltered. Exist/Remove notifications have no
    /// specified effect on aggregator state — incremental updates are an open
    /// design question; the supported refresh path is a full re-crawl whose
    /// snapshots are re-applied — so they change nothing and forward nothing.
    pub fn handle_update(&mut self, event: DirectoryUpdateEvent) -> (out: Vec<CountUpdateEvent>)
        requires
            old(self).wf(),
        ensures
            final(self).wf(),
            match event {
                DirectoryUpdateEvent::Snapshot(e) => {
                    &&& final(self)@ == spec_set(old(self)@, e@).0
                    &&& if spec_set(old(self)@, e@).1.count.total > 0 {
                        out@.len() == 1 && out@[0]@ == spec_set(old(self)@, e@).1
                    } else {
                        out@.len() == 0
                    }
                },
                DirectoryUpdateEvent::Refresh => {
                    &&& *final(self) == *old(self)
                    &&& out@.len() == old(self).key_seq().len()
                    &&& forall|i: int|
                        0 <= i < out@.len() ==> #[trigger] out@[i]@ == spec_cue(
                            old(self)@,
                            old(self).key_seq()[i],
                        )
                },
                DirectoryUpdateEvent::Exist(_) => *final(self) == *old(self) && out@.len() == 0,
                DirectoryUpdateEvent::Remove(_) => *final(self) == *old(self) && out@.len() == 0,
            },
    {
        match event {
            DirectoryUpdateEvent::Snapshot(e) => {
                let cue = self.set(e);
                let mut out: Vec<CountUpdateEvent> = Vec::new();
                if cue.count.total > 0 {
                    out.push(cue);
                }
                out
            },
            DirectoryUpdateEvent::Refresh => self.full_count(),
            DirectoryUpdateEvent::Exist(_path) => Vec::new(),
            DirectoryUpdateEvent::Remove(_path) => Vec::new(),
        }
    }
}

/// Law: applying an identical snapshot twice yields an identical state and an
/// identical count-update event both times — `raw`, `render` and `total` are
/// all idempotent under repetition.
pub proof fn lemma_set_idempotent(t: CountTreeView, e: SetEventView)
    ensures
        spec_set(spec_set(t, e).0, e).0 == spec_set(t, e).0,
        spec_set(spec_set(t, e).0, e).1 == spec_set(t, e).1,
{
    let (t1, c1) = spec_set(t, e);
    let (t2, c2) = spec_set(t1, e);
    let ckey = (e.group_name, e.album_name);
    let tkey = (e.album_name, e.group_name);
    let fset = e.files.to_set();
    if e.tipe is Raw {
        assert(ledger_set(t1.totals, tkey) =~= ledger_set(t.totals, tkey).union(fset));
        assert(ledger_set(t1.totals, tkey).union(fset) =~= ledger_set(t1.totals, tkey));
        assert(t2.totals =~= t1.totals);
    }
    assert(t1.counts.contains_key(ckey));
    assert(t2.counts =~= t1.counts);
    assert(t2 == t1);
    assert(c2 == c1);
}

/// The union of a sequence of file sets.
pub open spec fn union_of(fss: Seq<Seq<Seq<char>>>) -> Set<Seq<char>>
    decreases fss.len(),
{
    if fss.len() == 0 {
        Set::<Seq<char>>::empty()
    } else {
        union_of(fss.drop_last()).union(fss.last().to_set())
    }
}

/// A Raw snapshot for a fixed `(group, album)` pair.
pub open spec fn raw_event(g: Seq<char>, a: Seq<char>, files: Seq<Seq<char>>) -> SetEventView {
    SetEventView { group_name: g, album_name: a, tipe: GroupType::Raw, files }
}

/// The state after applying Raw snapshots with file lists `fss`, in order, to
/// a fixed `(group, album)` pair.
pub open spec fn apply_raw_seq(
    t: CountTreeView,
    g: Seq<char>,
    a: Seq<char>,
    fss: Seq<Seq<Seq<char>>>,
) -> CountTreeView
    decreases fss.len(),
{
    if fss.len() == 0 {
        t
    } else {
        spec_set(apply_raw_seq(t, g, a, fss.drop_last()), raw_event(g, a, fss.last())).0
    }
}

/// Law: starting from a pair with no ledger entry, a sequence of Raw
/// snapshots with file lists `F1, ..., Fn` leaves the pair's ledger holding
/// exactly `F1 ∪ ... ∪ Fn`, so its `total` is that union's size.
pub proof fn lemma_raw_totals_union(
    t: CountTreeView,
    g: Seq<char>,
    a: Seq<char>,
    fss: Seq<Seq<Seq<char>>>,
)
    requires
        !t.totals.contains_key((a, g)),
    ensures
        ledger_set(apply_raw_seq(t, g, a, fss).totals, (a, g)) == union_of(fss),
        union_of(fss).finite(),
    decreases fss.len(),
{
    if fss.len() == 0 {
        assert(ledger_set(t.totals, (a, g)) =~= Set::<Seq<char>>::empty());
    } else {
        lemma_raw_totals_union(t, g, a, fss.drop_last());
        let prev = apply_raw_seq(t, g, a, fss.drop_last());
        assert(ledger_set(apply_raw_seq(t, g, a, fss).totals, (a, g)) =~= ledger_set(
            prev.totals,
            (a, g),
        ).union(fss.last().to_set()));
        vstd::seq_lib::seq_to_set_is_finite(fss.last());
    }
}

/// Law: a single snapshot never shrinks any ledger entry — every `total` is
/// non-decreasing under `set`.
pub proof fn lemma_set_total_monotone(t: CountTreeView, e: SetEventView, key: (Seq<char>, Seq<char>))
    ensures
        ledger_set(t.totals, key).subset_of(ledger_set(spec_set(t, e).0.totals, key)),
{
    let tkey = (e.album_name, e.group_name);
    if e.tipe is Raw && key == tkey {
        assert(ledger_set(spec_set(t, e).0.totals, key) =~= ledger_set(t.totals, key).union(
            e.files.to_set(),
        ));
    }
}

/// Law: across a sequence of Raw snapshots on a fixed pair, the pair's
/// `total` never decreases from one snapshot to the next.
pub proof fn lemma_raw_totals_nondecreasing(
    t: CountTreeView,
    g: Seq<char>,
    a: Seq<char>,
    fss: Seq<Seq<Seq<char>>>,
    i: int,
)
    requires
        !t.totals.contains_key((a, g)),
        0 <= i < fss.len(),
    ensures
        ledger_set(apply_raw_seq(t, g, a, fss.take(i)).totals, (a, g)).len() <= ledger_set(
            apply_raw_seq(t, g, a, fss.take(i + 1)).totals,
            (a, g),
        ).len(),
{
    lemma_raw_totals_union(t, g, a, fss.take(i));
    lemma_raw_totals_union(t, g, a, fss.take(i + 1));
    assert(fss.take(i + 1).drop_last() =~= fss.take(i));
    assert(union_of(fss.take(i + 1)) =~= union_of(fss.take(i)).union(
        fss.take(i + 1).last().to_set(),
    ));
    assert(union_of(fss.take(i)).subset_of(union_of(fss.take(i + 1))));
    vstd::set_lib::lemma_len_subset(union_of(fss.take(i)), union_of(fss.take(i + 1)));
}

} // verus!
