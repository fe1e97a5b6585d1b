//! Per-group image counting: an early, simpler counting path that tallies
//! one group's raw and rendered images into a shared count table.
//!
//! Directory scanning is I/O and stays outside the library; the caller hands
//! in the image lists it found under the group's raw and render directories.

use crate::strutil::str_eq;
use vstd::prelude::*;

verus! {

/// One logical group of directories: the raw roots and render roots whose
/// immediate files are counted under `name`.
#[derive(Debug, Clone)]
pub struct DirectoryGroup {
    pub name: String,
    pub raw_dirs: Vec<String>,
    pub render_dirs: Vec<String>,
}

/// One group's tally: every raw image, the edited (rendered) ones, and the
/// deleted ones (not yet tracked; always zero here).
#[derive(Debug, Clone, Copy, PartialEq, Eq, Structural)]
pub struct Count {
    pub total: usize,
    pub edited: usize,
    pub deleted: usize,
}

/// One entry of the count table.
struct CountsSlot {
    name: String,
    count: Count,
}

/// The table as a map, later entries shadowing earlier ones (well-formed
/// tables have distinct names, so nothing is shadowed).
spec fn counts_table_of(s: Seq<CountsSlot>) -> Map<Seq<char>, Count>
    decreases s.len(),
{
    if s.len() == 0 {
        Map::<Seq<char>, Count>::empty()
    } else {
        counts_table_of(s.drop_last()).insert(s.last().name@, s.last().count)
    }
}

proof fn lemma_counts_table_contains(s: Seq<CountsSlot>)
    ensures
        forall|k: Seq<char>|
            counts_table_of(s).contains_key(k) <==> exists|i: int|
                0 <= i < s.len() && (#[trigger] s[i]).name@ == k,
    decreases s.len(),
{
    if s.len() > 0 {
        let d = s.drop_last();
        lemma_counts_table_contains(d);
        assert forall|k: Seq<char>| counts_table_of(s).contains_key(k) implies exists|i: int|
            0 <= i < s.len() && (#[trigger] s[i]).name@ == k by {
            if k == s.last().name@ {
                assert(s[s.len() - 1].name@ == k);
            } else {
                assert(counts_table_of(d).contains_key(k));
                let i = choose|i: int| 0 <= i < d.len() && (#[trigger] d[i]).name@ == k;
                assert(d[i] == s[i]);
                assert(s[i].name@ == k);
            }
        }
        assert forall|k: Seq<char>|
            (exists|i: int| 0 <= i < s.len() && (#[trigger] s[i]).name@ == k) implies
            counts_table_of(s).contains_key(k) by {
            let i = choose|i: int| 0 <= i < s.len() && (#[trigger] s[i]).name@ == k;
            if i < s.len() - 1 {
                assert(d[i] == s[i]);
                assert(d[i].name@ == k);
                assert(counts_table_of(d).contains_key(k));
            }
        }
    }
}

proof fn lemma_counts_table_update(s: Seq<CountsSlot>, i: int, slot: CountsSlot)
    requires
        0 <= i < s.len(),
        slot.name@ == s[i].name@,
        forall|j: int, l: int|
            0 <= j < l < s.len() ==> (#[trigger] s[j]).name@ != (#[trigger] s[l]).name@,
    ensures
        counts_table_of(s.update(i, slot)) == counts_table_of(s).insert(slot.name@, slot.count),
    decreases s.len(),
{
    let s2 = s.update(i, slot);
    if i == s.len() - 1 {
        assert(s2.drop_last() =~= s.drop_last());
        assert(s2.last() == slot);
        assert(counts_table_of(s2) =~= counts_table_of(s).insert(slot.name@, slot.count));
    } else {
        assert(s2.drop_last() =~= s.drop_last().update(i, slot));
        assert(s2.last() == s.last());
        lemma_counts_table_update(s.drop_last(), i, slot);
        assert(s[i].name@ != s[s.len() - 1].name@);
        assert(counts_table_of(s2) =~= counts_table_of(s).insert(slot.name@, slot.count));
    }
}

/// The shared count table: one [`Count`] per group name.
pub struct Counts {
    entries: Vec<CountsSlot>,
}

impl View for Counts {
    type V = Map<Seq<char>, Count>;

    closed spec fn view(&self) -> Map<Seq<char>, Count> {
        counts_table_of(self.entries@)
    }
}

impl Counts {
    /// Group names are distinct.
    pub closed spec fn wf(&self) -> bool {
        forall|j: int, l: int|
            0 <= j < l < self.entries@.len() ==> (#[trigger] self.entries@[j]).name@ != (
            #[trigger] self.entries@[l]).name@
    }

    pub fn new() -> (r: Counts)
        ensures
            r.wf(),
            r@ == Map::<Seq<char>, Count>::empty(),
    {
        Counts { entries: Vec::new() }
    }

    /// The count recorded for a group, if any.
    pub fn get(&self, name: &str) -> (r: Option<Count>)
        requires
            self.wf(),
        ensures
            match r {
                Some(c) => self@.contains_key(name@) && self@[name@] == c,
                None => !self@.contains_key(name@),
            },
    {
        proof {
            lemma_counts_table_contains(self.entries@);
        }
        let mut i: usize = 0;
        while i < self.entries.len()
            invariant
                self.wf(),
                i <= self.entries@.len(),
                forall|j: int| 0 <= j < i ==> (#[trigger] self.entries@[j]).name@ != name@,
            decreases self.entries@.len() - i,
        {
            let hit = str_eq(self.entries[i].name.as_str(), name);
            if hit {
                proof {
                    lemma_counts_table_index(self.entries@, i as int);
                }
                return Some(self.entries[i].count);
            }
            i += 1;
        }
        None
    }

    fn put(&mut self, name: String, count: Count)
        requires
            old(self).wf(),
        ensures
            final(self).wf(),
            final(self)@ == old(self)@.insert(name@, count),
    {
        proof {
            lemma_counts_table_contains(self.entries@);
        }
        let mut i: usize = 0;
        while i < self.entries.len()
            invariant
                *self == *old(self),
                old(self).wf(),
                i <= self.entries@.len(),
                forall|j: int| 0 <= j < i ==> (#[trigger] self.entries@[j]).name@ != name@,
            decreases self.entries@.len() - i,
        {
            let hit = str_eq(self.entries[i].name.as_str(), name.as_str());
            if hit {
                let slot = CountsSlot { name, count };
                proof {
                    lemma_counts_table_update(self.entries@, i as int, slot);
                }
                let _ = self.entries.remove(i);
                self.entries.insert(i, slot);
                proof {
                    assert(self.entries@ =~= old(self).entries@.update(i as int, slot));
                }
                return ;
            }
            i += 1;
        }
        let slot = CountsSlot { name, count };
        self.entries.push(slot);
        proof {
            assert(self.entries@.drop_last() =~= old(self).entries@);
        }
    }
}

proof fn lemma_counts_table_index(s: Seq<CountsSlot>, i: int)
    requires
        0 <= i < s.len(),
        forall|j: int, l: int|
            0 <= j < l < s.len() ==> (#[trigger] s[j]).name@ != (#[trigger] s[l]).name@,
    ensures
        counts_table_of(s).contains_key(s[i].name@),
        counts_table_of(s)[s[i].name@] == s[i].count,
    decreases s.len(),
{
    lemma_counts_table_contains(s);
    if i == s.len() - 1 {
    } else {
        assert(s[i].name@ != s[s.len() - 1].name@);
        assert(s.drop_last()[i] == s[i]);
        lemma_counts_table_index(s.drop_last(), i);
    }
}

/// Record the group's tally in the table: `total` counts the raw images the
/// caller found under the group's raw directories, `edited` the rendered
/// ones, and `deleted` is not yet tracked.
pub fn update_counts(
    counts: &mut Counts,
    group: DirectoryGroup,
    raw_images: &Vec<String>,
    render_images: &Vec<String>,
)
    requires
        old(counts).wf(),
    ensures
        final(counts).wf(),
        final(counts)@ == old(counts)@.insert(
            group.name@,
            Count { total: raw_images@.len() as usize, edited: render_images@.len() as usize, deleted: 0 },
        ),
{
    let count = Count { total: raw_images.len(), edited: render_images.len(), deleted: 0 };
    counts.put(group.name, count);
}

} // verus!
