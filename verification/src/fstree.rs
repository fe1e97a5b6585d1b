//! An in-memory snapshot of a directory tree: what the crawl engine walks.
//!
//! The crawl logic is a pure function of such a snapshot; the surrounding
//! program builds one from the real filesystem and hands it in.

use vstd::prelude::*;

verus! {

/// One directory: its name, its subdirectories, and the names of the plain
/// files directly inside it.
#[derive(Debug)]
pub struct DirTree {
    pub name: String,
    pub dirs: Vec<DirTree>,
    pub files: Vec<String>,
}

impl DirTree {
    /// A real directory never holds two entries of the same name: sibling
    /// directory names are distinct, recursively.
    pub open spec fn wf(self) -> bool
        decreases self,
    {
        &&& forall|i: int, j: int|
            0 <= i < j < self.dirs@.len() ==> (#[trigger] self.dirs@[i]).name@ != (
            #[trigger] self.dirs@[j]).name@
        &&& forall|i: int| 0 <= i < self.dirs@.len() ==> (#[trigger] self.dirs@[i]).wf()
    }
}

/// The first subdirectory of `ds` named `name`, searching from the front.
pub open spec fn child_search(ds: Seq<DirTree>, name: Seq<char>) -> Option<DirTree>
    decreases ds.len(),
{
    if ds.len() == 0 {
        None
    } else if ds[0].name@ == name {
        Some(ds[0])
    } else {
        child_search(ds.skip(1), name)
    }
}

/// The child of `t` named `name`, if any.
pub open spec fn child_of(t: DirTree, name: Seq<char>) -> Option<DirTree> {
    child_search(t.dirs@, name)
}

/// The directory reached from `t` by following the path's segments, if every
/// segment names an existing subdirectory.
pub open spec fn node_at(t: DirTree, path: Seq<Seq<char>>) -> Option<DirTree>
    decreases path.len(),
{
    if path.len() == 0 {
        Some(t)
    } else {
        match child_of(t, path[0]) {
            Some(c) => node_at(c, path.skip(1)),
            None => None,
        }
    }
}

/// The names of the plain files at `path`, or the empty list if no directory
/// lies there (an unreadable or missing directory yields an empty listing
/// rather than a failure).
pub open spec fn file_list(t: DirTree, path: Seq<Seq<char>>) -> Seq<Seq<char>> {
    match node_at(t, path) {
        Some(n) => n.files.deep_view(),
        None => Seq::<Seq<char>>::empty(),
    }
}

proof fn lemma_child_search_member(ds: Seq<DirTree>, name: Seq<char>)
    ensures
        match child_search(ds, name) {
            Some(c) => exists|i: int|
                0 <= i < ds.len() && #[trigger] ds[i] == c && c.name@ == name,
            None => forall|i: int| 0 <= i < ds.len() ==> (#[trigger] ds[i]).name@ != name,
        },
    decreases ds.len(),
{
    if ds.len() > 0 {
        if ds[0].name@ == name {
            assert(ds[0] == ds[0]);
        } else {
            let d = ds.skip(1);
            lemma_child_search_member(d, name);
            match child_search(ds, name) {
                Some(c) => {
                    let i = choose|i: int| 0 <= i < d.len() && #[trigger] d[i] == c && c.name@
                        == name;
                    assert(ds[i + 1] == c);
                },
                None => {
                    assert(forall|i: int| 0 <= i < ds.len() ==> i == 0 || ds[i] == d[i - 1]);
                },
            }
        }
    }
}

/// In a well-formed tree, a non-empty path resolves exactly when some child
/// carries its first segment and resolves the rest.
pub proof fn lemma_node_at_step(t: DirTree, q: Seq<Seq<char>>)
    requires
        t.wf(),
        q.len() >= 1,
    ensures
        (node_at(t, q) is Some) <==> exists|i: int|
            0 <= i < t.dirs@.len() && (#[trigger] t.dirs@[i]).name@ == q[0] && node_at(
                t.dirs@[i],
                q.skip(1),
            ) is Some,
{
    lemma_child_search_member(t.dirs@, q[0]);
    match child_of(t, q[0]) {
        Some(c) => {
            let i = choose|i: int| 0 <= i < t.dirs@.len() && #[trigger] t.dirs@[i] == c
                && c.name@ == q[0];
            if node_at(t, q) is Some {
                assert(node_at(t.dirs@[i], q.skip(1)) is Some);
            }
            if exists|i: int|
                0 <= i < t.dirs@.len() && (#[trigger] t.dirs@[i]).name@ == q[0] && node_at(
                    t.dirs@[i],
                    q.skip(1),
                ) is Some {
                let l = choose|l: int|
                    0 <= l < t.dirs@.len() && (#[trigger] t.dirs@[l]).name@ == q[0] && node_at(
                        t.dirs@[l],
                        q.skip(1),
                    ) is Some;
                // Distinct sibling names force both witnesses to coincide.
                assert(t.dirs@[l] == t.dirs@[i]) by {
                    if l != i {
                        assert(t.dirs@[l].name@ != t.dirs@[i].name@);
                    }
                }
                assert(node_at(t, q) is Some);
            }
        },
        None => {
        },
    }
}

/// Resolving a concatenated path is resolving its halves in turn.
pub proof fn lemma_node_at_concat(t: DirTree, p: Seq<Seq<char>>, q: Seq<Seq<char>>)
    ensures
        node_at(t, p + q) == match node_at(t, p) {
            Some(n) => node_at(n, q),
            None => None::<DirTree>,
        },
    decreases p.len(),
{
    if p.len() == 0 {
        assert(p + q =~= q);
    } else {
        assert((p + q)[0] == p[0]);
        match child_of(t, p[0]) {
            Some(c) => {
                assert((p + q).skip(1) =~= p.skip(1) + q);
                lemma_node_at_concat(c, p.skip(1), q);
            },
            None => {},
        }
    }
}

/// Find the child of `t` named `name`.
fn find_child<'a>(t: &'a DirTree, name: &str) -> (r: Option<&'a DirTree>)
    ensures
        match r {
            Some(c) => child_of(*t, name@) == Some(*c),
            None => child_of(*t, name@) is None,
        },
{
    let mut i: usize = 0;
    proof {
        assert(t.dirs@.skip(0) =~= t.dirs@);
    }
    while i < t.dirs.len()
        invariant
            i <= t.dirs@.len(),
            child_search(t.dirs@, name@) == child_search(t.dirs@.skip(i as int), name@),
        decreases t.dirs@.len() - i,
    {
        proof {
            assert(t.dirs@.skip(i as int)[0] == t.dirs@[i as int]);
            assert(t.dirs@.skip(i as int).skip(1) =~= t.dirs@.skip(i + 1));
        }
        let hit = crate::strutil::str_eq(t.dirs[i].name.as_str(), name);
        if hit {
            return Some(&t.dirs[i]);
        }
        i += 1;
    }
    proof {
        assert(t.dirs@.skip(t.dirs@.len() as int) =~= Seq::<DirTree>::empty());
    }
    None
}

/// Find the directory reached from `t` by the path segments `path[from..]`.
pub fn find_node<'a>(t: &'a DirTree, path: &Vec<String>, from: usize) -> (r: Option<&'a DirTree>)
    requires
        from <= path@.len(),
    ensures
        match r {
            Some(n) => node_at(*t, path.deep_view().skip(from as int)) == Some(*n),
            None => node_at(*t, path.deep_view().skip(from as int)) is None,
        },
    decreases path@.len() - from,
{
    let ghost p = path.deep_view().skip(from as int);
    if from == path.len() {
        proof {
            assert(p.len() == 0);
        }
        Some(t)
    } else {
        proof {
            assert(p[0] == path.deep_view()[from as int]);
            assert(p.skip(1) =~= path.deep_view().skip(from + 1));
        }
        match find_child(t, path[from].as_str()) {
            Some(c) => find_node(c, path, from + 1),
            None => None,
        }
    }
}

} // verus!
