use vstd::prelude::*;

use crate::blobstore::{find_latest, stored_as, MemBlobstore, StoredTree};
use crate::hash::{bytes_equal, bytes_less, bytes_lt, copy_bytes, opt_view, sha1_of, NodeHash};
use crate::lemmas::{lemma_bytes_lt_irreflexive, lemma_bytes_lt_total, lemma_bytes_lt_transitive};
use crate::types::{
    basename, extend_repopath_with_dir, listing_record, listing_sorted, listing_view, opt_bytes,
    valid_name, HgBlobEntry, ListEntry, RepoPath, Type,
};

verus! {

/// Why a manifest could not be built, edited or saved.
#[derive(Debug)]
pub enum ManifestError {
    /// A tree that was referred to is not in the store.
    TreeMissing(NodeHash),
    /// A conflict is still in the tree; it must be replaced before saving.
    UnresolvedConflicts,
    /// An unmodified tree has no parent to stand for it.
    UnchangedManifestMissingParent,
    /// An entry can only be inserted into a tree.
    NotATree,
    /// Trees nest deeper than the store holds records, although every tree
    /// met is present. That takes stored trees that refer to each other in a
    /// cycle.
    TreeTooDeep(NodeHash),
}

/// An in-memory manifest entry.
#[derive(Debug)]
pub enum MemoryManifestEntry {
    /// An object already in the store; never a tree.
    Blob(HgBlobEntry),
    /// Alternatives that disagree at this path, to be resolved by the caller.
    Conflict(Vec<MemoryManifestEntry>),
    /// A directory held in memory: its children sorted by name, the trees it
    /// derives from, and whether it differs from its first parent.
    MemTree {
        children: Vec<(Vec<u8>, MemoryManifestEntry)>,
        p1: Option<NodeHash>,
        p2: Option<NodeHash>,
        modified: bool,
    },
}

/// The names of `c` are valid and strictly increasing.
pub open spec fn names_sorted(c: Seq<(Vec<u8>, MemoryManifestEntry)>) -> bool {
    &&& forall|i: int, j: int| 0 <= i < j < c.len() ==> bytes_lt(#[trigger] c[i].0@, #[trigger] c[j].0@)
    &&& forall|i: int| 0 <= i < c.len() ==> valid_name(#[trigger] c[i].0@)
}

/// A well-formed entry: a blob is no tree, a conflict has at least two
/// alternatives, a tree's children are sorted by name, and an unmodified tree
/// has no second parent; all of it throughout.
pub open spec fn entry_wf(e: MemoryManifestEntry) -> bool
    decreases e,
{
    match e {
        MemoryManifestEntry::Blob(b) => b.ty != Type::Tree,
        MemoryManifestEntry::Conflict(v) => {
            &&& v.len() >= 2
            &&& forall|i: int| 0 <= i < v.len() ==> entry_wf(#[trigger] v@[i])
        },
        MemoryManifestEntry::MemTree { children, p1, p2, modified } => {
            &&& names_sorted(children@)
            &&& (!modified ==> p2 is None)
            &&& forall|i: int| 0 <= i < children.len() ==> entry_wf(#[trigger] children@[i].1)
        },
    }
}

/// The children of a tree, by name.
pub open spec fn children_map(c: Seq<(Vec<u8>, MemoryManifestEntry)>) -> Map<
    Seq<u8>,
    MemoryManifestEntry,
>
    decreases c.len(),
{
    if c.len() == 0 {
        Map::empty()
    } else {
        children_map(c.drop_last()).insert(c.last().0@, c.last().1)
    }
}

/// No two children share a name.
pub open spec fn names_distinct(c: Seq<(Vec<u8>, MemoryManifestEntry)>) -> bool {
    forall|i: int, j: int| 0 <= i < c.len() && 0 <= j < c.len() && i != j ==> c[i].0@ != c[j].0@
}

/// Sorted names are distinct.
pub proof fn lemma_sorted_distinct(c: Seq<(Vec<u8>, MemoryManifestEntry)>)
    requires
        names_sorted(c),
    ensures
        names_distinct(c),
{
    assert forall|i: int, j: int|
        0 <= i < c.len() && 0 <= j < c.len() && i != j implies c[i].0@ != c[j].0@ by {
        if i < j {
            assert(bytes_lt(c[i].0@, c[j].0@));
            lemma_bytes_lt_irreflexive(c[i].0@);
        } else {
            assert(bytes_lt(c[j].0@, c[i].0@));
            lemma_bytes_lt_irreflexive(c[j].0@);
        }
    }
}

/// A name is a key of the children map exactly where some child has it, and,
/// names being distinct, maps to that child's entry.
pub proof fn lemma_children_map(c: Seq<(Vec<u8>, MemoryManifestEntry)>, n: Seq<u8>)
    requires
        names_distinct(c),
    ensures
        children_map(c).contains_key(n) <==> exists|i: int| 0 <= i < c.len() && c[i].0@ == n,
        forall|i: int| 0 <= i < c.len() && c[i].0@ == n ==> children_map(c)[n] == #[trigger] c[i].1,
    decreases c.len(),
{
    if c.len() > 0 {
        let d = c.drop_last();
        assert(names_distinct(d));
        lemma_children_map(d, n);
        if children_map(c).contains_key(n) && n != c.last().0@ {
            let i = choose|i: int| 0 <= i < d.len() && d[i].0@ == n;
            assert(c[i].0@ == n);
        }
        if exists|i: int| 0 <= i < c.len() && c[i].0@ == n {
            let i = choose|i: int| 0 <= i < c.len() && c[i].0@ == n;
            if i < c.len() - 1 {
                assert(d[i].0@ == n);
            }
        }
        assert forall|i: int| 0 <= i < c.len() && c[i].0@ == n implies children_map(c)[n]
            == #[trigger] c[i].1 by {
            if i < c.len() - 1 {
                assert(d[i] == c[i]);
            }
        }
    }
}

/// `t2` is the tree `t` after `name -> e` was inserted into it.
pub open spec fn inserted(
    t: MemoryManifestEntry,
    t2: MemoryManifestEntry,
    name: Seq<u8>,
    e: MemoryManifestEntry,
) -> bool {
    match (t, t2) {
        (
            MemoryManifestEntry::MemTree { children, p1, p2, modified },
            MemoryManifestEntry::MemTree {
                children: children2,
                p1: q1,
                p2: q2,
                modified: modified2,
            },
        ) => {
            &&& opt_view(q1) == opt_view(p1)
            &&& opt_view(q2) == opt_view(p2)
            &&& modified2
            &&& children_map(children2@) == children_map(children@).insert(name, e)
        },
        _ => false,
    }
}

/// Inserts or replaces the child `name` of a tree, keeping the children sorted.
fn insert_child(
    children: &mut Vec<(Vec<u8>, MemoryManifestEntry)>,
    name: Vec<u8>,
    entry: MemoryManifestEntry,
)
    requires
        names_sorted(old(children)@),
        valid_name(name@),
    ensures
        names_sorted(final(children)@),
        children_map(final(children)@) == children_map(old(children)@).insert(name@, entry),
        forall|i: int|
            0 <= i < final(children)@.len() ==> (#[trigger] final(children)@[i]).1 == entry || exists|
                j: int,
            |
                0 <= j < old(children)@.len() && final(children)@[i] == old(children)@[j],
{
    let ghost c = children@;
    let mut k: usize = 0;
    while k < children.len()
        invariant
            children@ == c,
            names_sorted(c),
            k <= c.len(),
            forall|j: int| 0 <= j < k ==> bytes_lt(#[trigger] c[j].0@, name@),
        ensures
            children@ == c,
            k <= c.len(),
            forall|j: int| 0 <= j < k ==> bytes_lt(#[trigger] c[j].0@, name@),
            k < c.len() ==> !bytes_lt(c[k as int].0@, name@),
        decreases c.len() - k,
    {
        if !bytes_less(&children[k].0, &name) {
            break;
        }
        k = k + 1;
    }
    let ghost n = name@;
    let replace = k < children.len() && bytes_equal(&children[k].0, &name);
    if replace {
        children.remove(k);
    }
    children.insert(k, (name, entry));
    proof {
        let c2 = children@;
        lemma_sorted_distinct(c);
        // Children after position k sort after the new name.
        assert forall|j: int| k as int + (if replace { 1int } else { 0int }) <= j < c.len() implies bytes_lt(
            n,
            #[trigger] c[j].0@,
        ) by {
            if k < c.len() {
                if replace {
                    assert(c[k as int].0@ == n);
                    assert(bytes_lt(c[k as int].0@, c[j].0@));
                } else {
                    assert(!bytes_lt(c[k as int].0@, n));
                    if c[k as int].0@ == n {
                    } else {
                        lemma_bytes_lt_total(c[k as int].0@, n);
                    }
                    if j > k {
                        assert(bytes_lt(c[k as int].0@, c[j].0@));
                        lemma_bytes_lt_transitive(n, c[k as int].0@, c[j].0@);
                    }
                }
            }
        }
        let off: int = if replace { 1 } else { 0 };
        assert(c2.len() == c.len() + 1 - off);
        assert(c2[k as int] == (name, entry));
        assert forall|j: int| 0 <= j < c2.len() && j != k implies #[trigger] c2[j] == (if j < k {
            c[j]
        } else {
            c[j - 1 + off]
        }) by {}
        assert forall|a: int, b: int| 0 <= a < b < c2.len() implies bytes_lt(
            #[trigger] c2[a].0@,
            #[trigger] c2[b].0@,
        ) by {
            if b < k {
                assert(c2[a] == c[a]);
                assert(c2[b] == c[b]);
            } else if a < k && b == k {
                assert(c2[a] == c[a]);
            } else if a < k && b > k {
                assert(c2[a] == c[a]);
                assert(c2[b] == c[b - 1 + off]);
                lemma_bytes_lt_transitive(c2[a].0@, n, c2[b].0@);
            } else if a == k {
                assert(c2[b] == c[b - 1 + off]);
            } else {
                assert(c2[a] == c[a - 1 + off]);
                assert(c2[b] == c[b - 1 + off]);
            }
        }
        assert forall|a: int| 0 <= a < c2.len() implies valid_name(#[trigger] c2[a].0@) by {
            if a != k {
                assert(c2[a] == (if a < k { c[a] } else { c[a - 1 + off] }));
            }
        }
        assert(names_sorted(c2));
        lemma_sorted_distinct(c2);
        let m = children_map(c).insert(n, entry);
        assert forall|key: Seq<u8>| #[trigger] m.contains_key(key) implies children_map(
            c2,
        ).contains_key(key) && m[key] == children_map(c2)[key] by {
            lemma_children_map(c, key);
            lemma_children_map(c2, key);
            if key == n {
                assert(c2[k as int].0@ == key);
                assert(children_map(c2)[key] == c2[k as int].1);
            } else {
                let i = choose|i: int| 0 <= i < c.len() && c[i].0@ == key;
                assert(!(replace && i == k));
                let i2 = if i < k { i } else { i + 1 - off };
                assert(c2[i2] == c[i]);
                assert(c2[i2].0@ == key);
                assert(children_map(c2)[key] == c2[i2].1);
                assert(children_map(c)[key] == c[i].1);
            }
        }
        assert forall|key: Seq<u8>| #[trigger] children_map(c2).contains_key(key) implies m.contains_key(
            key,
        ) by {
            lemma_children_map(c, key);
            lemma_children_map(c2, key);
            if key != n {
                let i = choose|i: int| 0 <= i < c2.len() && c2[i].0@ == key;
                assert(i != k);
                let i1 = if i < k { i } else { i - 1 + off };
                assert(c2[i] == c[i1]);
                assert(c[i1].0@ == key);
            }
        }
        assert(children_map(c2) =~= m);
        assert forall|i: int| 0 <= i < c2.len() implies (#[trigger] c2[i]).1 == entry || exists|j: int|
            0 <= j < c.len() && c2[i] == c[j] by {
            if i != k {
                let j = if i < k { i } else { i - 1 + off };
                assert(c2[i] == c[j]);
            }
        }
    }
}

/// Inserts or replaces the child `path` of a tree and marks the tree modified.
pub fn insert_entry(tree: &mut MemoryManifestEntry, path: Vec<u8>, entry: MemoryManifestEntry) -> (r:
    Result<(), ManifestError>)
    requires
        entry_wf(*old(tree)),
        entry_wf(entry),
        valid_name(path@),
    ensures
        entry_wf(*final(tree)),
        *old(tree) is MemTree ==> r is Ok && inserted(*old(tree), *final(tree), path@, entry),
        !(*old(tree) is MemTree) ==> (r matches Err(ManifestError::NotATree)),
        !(*old(tree) is MemTree) ==> *final(tree) == *old(tree),
{
    let ghost name = path@;
    let ghost e = entry;
    match tree {
        MemoryManifestEntry::MemTree { children, modified, .. } => {
            let ghost c = children@;
            *modified = true;
            insert_child(children, path, entry);
            proof {
                let c2 = children@;
                assert forall|i: int| 0 <= i < c2.len() implies entry_wf(#[trigger] c2[i].1) by {
                    if c2[i].1 != e {
                        let j = choose|j: int| 0 <= j < c.len() && c2[i] == c[j];
                        assert(entry_wf(c[j].1));
                    }
                }
            }
            Ok(())
        },
        _ => Err(ManifestError::NotATree),
    }
}

/// The path `path`, as values.
pub open spec fn path_view(path: Seq<Vec<u8>>) -> Seq<Seq<u8>> {
    path.map_values(|v: Vec<u8>| v@)
}

/// The entry reached from `t` by following the names of `path`, if any.
pub open spec fn entry_at(t: MemoryManifestEntry, path: Seq<Seq<u8>>) -> Option<MemoryManifestEntry>
    decreases path.len(),
{
    if path.len() == 0 {
        Some(t)
    } else {
        match t {
            MemoryManifestEntry::MemTree { children, .. } => {
                if children_map(children@).contains_key(path[0]) {
                    entry_at(children_map(children@)[path[0]], path.drop_first())
                } else {
                    None
                }
            },
            _ => None,
        }
    }
}

/// Following `path` from `t` meets something other than a tree where a
/// directory is needed: at `t` itself, or at an existing entry named by any
/// element but the last. Missing directories do not block.
pub open spec fn path_blocked(t: MemoryManifestEntry, path: Seq<Seq<u8>>) -> bool
    decreases path.len(),
{
    if path.len() == 0 {
        false
    } else {
        match t {
            MemoryManifestEntry::MemTree { children, .. } => {
                if path.len() > 1 && children_map(children@).contains_key(path[0]) {
                    path_blocked(children_map(children@)[path[0]], path.drop_first())
                } else {
                    false
                }
            },
            _ => true,
        }
    }
}

/// `t2` is `old` (a tree, or none where a directory was missing) after `e`
/// was put at `path`: every tree along the way is modified, keeps its
/// parents (a new one has none), and changes only in the child on the path.
pub open spec fn inserted_at(
    old: Option<MemoryManifestEntry>,
    t2: MemoryManifestEntry,
    path: Seq<Seq<u8>>,
    e: MemoryManifestEntry,
) -> bool
    decreases path.len(),
{
    let om = match old {
        Some(MemoryManifestEntry::MemTree { children, .. }) => children_map(children@),
        _ => Map::empty(),
    };
    &&& path.len() >= 1
    &&& (old matches Some(t) ==> t is MemTree)
    &&& t2 matches MemoryManifestEntry::MemTree { children, p1, p2, modified } && modified && match old {
        Some(MemoryManifestEntry::MemTree { p1: q1, p2: q2, .. }) => opt_view(p1) == opt_view(q1)
            && opt_view(p2) == opt_view(q2),
        _ => p1 is None && p2 is None,
    } && if path.len() == 1 {
        children_map(children@) == om.insert(path[0], e)
    } else {
        let m2 = children_map(children@);
        &&& m2.contains_key(path[0])
        &&& m2 == om.insert(path[0], m2[path[0]])
        &&& inserted_at(
            if om.contains_key(path[0]) {
                Some(om[path[0]])
            } else {
                None
            },
            m2[path[0]],
            path.drop_first(),
            e,
        )
    }
}

/// The position of the child `name`, if there is one.
fn find_child(children: &Vec<(Vec<u8>, MemoryManifestEntry)>, name: &Vec<u8>) -> (r: Option<usize>)
    requires
        names_sorted(children@),
    ensures
        r is Some <==> children_map(children@).contains_key(name@),
        r matches Some(k) ==> k < children@.len() && children@[k as int].0@ == name@
            && children_map(children@)[name@] == children@[k as int].1,
{
    proof {
        lemma_sorted_distinct(children@);
        lemma_children_map(children@, name@);
    }
    let mut k: usize = 0;
    while k < children.len()
        invariant
            names_sorted(children@),
            k <= children@.len(),
            forall|j: int| 0 <= j < k ==> (#[trigger] children@[j]).0@ != name@,
        decreases children@.len() - k,
    {
        if bytes_equal(&children[k].0, name) {
            proof {
                lemma_sorted_distinct(children@);
                lemma_children_map(children@, name@);
                assert(children_map(children@)[name@] == children@[k as int].1);
            }
            return Some(k);
        }
        k = k + 1;
    }
    proof {
        lemma_sorted_distinct(children@);
        lemma_children_map(children@, name@);
    }
    None
}

/// Whether following `path` from position `i` on meets a non-tree where a
/// directory is needed.
fn path_is_blocked(tree: &MemoryManifestEntry, path: &Vec<Vec<u8>>, i: usize) -> (r: bool)
    requires
        entry_wf(*tree),
        i <= path@.len(),
    ensures
        r == path_blocked(*tree, path_view(path@).subrange(i as int, path@.len() as int)),
    decreases path@.len() - i,
{
    let ghost rest = path_view(path@).subrange(i as int, path@.len() as int);
    if i == path.len() {
        return false;
    }
    match tree {
        MemoryManifestEntry::MemTree { children, .. } => {
            if i + 1 == path.len() {
                return false;
            }
            match find_child(children, &path[i]) {
                Some(k) => {
                    proof {
                        assert(rest[0] == path@[i as int]@);
                        assert(rest.drop_first() =~= path_view(path@).subrange(
                            i + 1,
                            path@.len() as int,
                        ));
                    }
                    path_is_blocked(&children[k].1, path, i + 1)
                },
                None => {
                    assert(rest[0] == path@[i as int]@);
                    false
                },
            }
        },
        _ => true,
    }
}

/// Takes the child `name` out of a tree, if it has one.
fn take_child(tree: &mut MemoryManifestEntry, name: &Vec<u8>) -> (r: Option<MemoryManifestEntry>)
    requires
        *old(tree) is MemTree,
        entry_wf(*old(tree)),
    ensures
        *final(tree) is MemTree,
        entry_wf(*final(tree)),
        opt_view(final(tree)->p1) == opt_view(old(tree)->p1),
        opt_view(final(tree)->p2) == opt_view(old(tree)->p2),
        final(tree)->modified == old(tree)->modified,
        children_map(final(tree)->children@) == children_map(old(tree)->children@).remove(name@),
        r is Some <==> children_map(old(tree)->children@).contains_key(name@),
        r matches Some(c) ==> c == children_map(old(tree)->children@)[name@] && entry_wf(c),
{
    match tree {
        MemoryManifestEntry::MemTree { children, .. } => {
            let ghost c = children@;
            match find_child(children, name) {
                Some(k) => {
                    let (_, child) = children.remove(k);
                    proof {
                        let c2 = children@;
                        assert forall|j: int| 0 <= j < c2.len() implies #[trigger] c2[j] == (if j < k {
                            c[j]
                        } else {
                            c[j + 1]
                        }) by {}
                        assert forall|a: int, b: int| 0 <= a < b < c2.len() implies bytes_lt(
                            #[trigger] c2[a].0@,
                            #[trigger] c2[b].0@,
                        ) by {
                            let a1 = if a < k { a } else { a + 1 };
                            let b1 = if b < k { b } else { b + 1 };
                            assert(c2[a] == c[a1]);
                            assert(c2[b] == c[b1]);
                        }
                        assert forall|a: int| 0 <= a < c2.len() implies valid_name(#[trigger] c2[a].0@)
                            by {
                            let a1 = if a < k { a } else { a + 1 };
                            assert(c2[a] == c[a1]);
                        }
                        assert forall|a: int| 0 <= a < c2.len() implies entry_wf(#[trigger] c2[a].1) by {
                            let a1 = if a < k { a } else { a + 1 };
                            assert(c2[a] == c[a1]);
                        }
                        lemma_sorted_distinct(c);
                        lemma_sorted_distinct(c2);
                        let m = children_map(c).remove(name@);
                        assert forall|key: Seq<u8>| #[trigger] m.contains_key(key) implies children_map(
                            c2,
                        ).contains_key(key) && m[key] == children_map(c2)[key] by {
                            lemma_children_map(c, key);
                            lemma_children_map(c2, key);
                            let i = choose|i: int| 0 <= i < c.len() && c[i].0@ == key;
                            assert(i != k);
                            let i2 = if i < k { i } else { i - 1 };
                            assert(c2[i2] == c[i]);
                            assert(children_map(c2)[key] == c2[i2].1);
                            assert(children_map(c)[key] == c[i].1);
                        }
                        assert forall|key: Seq<u8>| #[trigger] children_map(c2).contains_key(
                            key,
                        ) implies m.contains_key(key) by {
                            lemma_children_map(c, key);
                            lemma_children_map(c2, key);
                            let i = choose|i: int| 0 <= i < c2.len() && c2[i].0@ == key;
                            let i1 = if i < k { i } else { i + 1 };
                            assert(c2[i] == c[i1]);
                            assert(i1 != k);
                        }
                        assert(children_map(c2) =~= m);
                        assert(entry_wf(c[k as int].1));
                    }
                    Some(child)
                },
                None => {
                    proof {
                        assert(children_map(c).remove(name@) =~= children_map(c));
                    }
                    None
                },
            }
        },
        _ => None,
    }
}

/// Puts `entry` at `path`, from position `i` on, below a tree that nothing
/// on the path blocks.
fn insert_below(tree: &mut MemoryManifestEntry, path: &Vec<Vec<u8>>, i: usize, entry: MemoryManifestEntry)
    requires
        entry_wf(*old(tree)),
        entry_wf(entry),
        i < path@.len(),
        forall|j: int| 0 <= j < path@.len() ==> valid_name(#[trigger] path@[j]@),
        !path_blocked(*old(tree), path_view(path@).subrange(i as int, path@.len() as int)),
    ensures
        entry_wf(*final(tree)),
        inserted_at(
            Some(*old(tree)),
            *final(tree),
            path_view(path@).subrange(i as int, path@.len() as int),
            entry,
        ),
    decreases path@.len() - i,
{
    let ghost rest = path_view(path@).subrange(i as int, path@.len() as int);
    let ghost t0 = *tree;
    let ghost e = entry;
    assert(rest[0] == path@[i as int]@);
    let name = copy_bytes(&path[i]);
    if i == path.len() - 1 {
        let _ = insert_entry(tree, name, entry);
        return;
    }
    let taken = take_child(tree, &path[i]);
    let ghost t1 = *tree;
    let ghost existed = taken is Some;
    let mut sub = match taken {
        Some(c) => c,
        None => MemoryManifestEntry::MemTree { children: Vec::new(), p1: None, p2: None, modified: false },
    };
    let ghost sub0 = sub;
    proof {
        assert(rest.drop_first() =~= path_view(path@).subrange(i + 1, path@.len() as int));
        if !existed {
            assert(children_map(sub0->children@) =~= Map::<Seq<u8>, MemoryManifestEntry>::empty());
        }
    }
    insert_below(&mut sub, path, i + 1, entry);
    let ghost sub2 = sub;
    let _ = insert_entry(tree, name, sub);
    proof {
        let om = children_map(t0->children@);
        let m2 = children_map(tree->children@);
        assert(m2 == children_map(t1->children@).insert(rest[0], sub2));
        assert(m2 =~= om.insert(rest[0], sub2));
        assert(m2[rest[0]] == sub2);
        if !existed {
            // A new directory: loaded from nothing, it has no parents.
            let rest2 = rest.drop_first();
            assert(inserted_at(Some(sub0), sub2, rest2, e));
            assert(!om.contains_key(rest[0]));
            assert(inserted_at(None, sub2, rest2, e));
        }
    }
}

/// Puts `entry` at `path` below `tree`, creating missing directories as new
/// trees and marking every tree on the way as modified. Fails, changing
/// nothing, where the path runs through something that is not a tree.
pub fn insert_at_path(tree: &mut MemoryManifestEntry, path: &Vec<Vec<u8>>, entry: MemoryManifestEntry) -> (r:
    Result<(), ManifestError>)
    requires
        entry_wf(*old(tree)),
        entry_wf(entry),
        path@.len() >= 1,
        forall|j: int| 0 <= j < path@.len() ==> valid_name(#[trigger] path@[j]@),
    ensures
        entry_wf(*final(tree)),
        r is Err <==> path_blocked(*old(tree), path_view(path@)),
        r is Err ==> (r matches Err(ManifestError::NotATree)) && *final(tree) == *old(tree),
        r is Ok ==> inserted_at(Some(*old(tree)), *final(tree), path_view(path@), entry),
{
    proof {
        assert(path_view(path@).subrange(0, path@.len() as int) =~= path_view(path@));
    }
    if path_is_blocked(tree, path, 0) {
        return Err(ManifestError::NotATree);
    }
    insert_below(tree, path, 0, entry);
    Ok(())
}

/// What saving an entry yields: the hash and type of the stored object, or
/// the first error met, children being saved in order of their names.
pub open spec fn save_outcome(e: MemoryManifestEntry) -> Result<(Seq<u8>, Type), ManifestError>
    decreases e, 0nat,
{
    match e {
        MemoryManifestEntry::Blob(b) => Ok((b.hash@, b.ty)),
        MemoryManifestEntry::Conflict(_) => Err(ManifestError::UnresolvedConflicts),
        MemoryManifestEntry::MemTree { children, p1, p2, modified } => {
            if modified {
                match children_outcome(children@, children@.len() as int) {
                    Ok(lines) => Ok(
                        (sha1_of(listing_record(lines)), Type::Tree),
                    ),
                    Err(x) => Err(x),
                }
            } else {
                match p1 {
                    Some(h) => Ok((h@, Type::Tree)),
                    None => Err(ManifestError::UnchangedManifestMissingParent),
                }
            }
        },
    }
}

/// The lines that saving the first `n` children yields, or the first error.
pub open spec fn children_outcome(c: Seq<(Vec<u8>, MemoryManifestEntry)>, n: int) -> Result<
    Seq<(Seq<u8>, Seq<u8>, Type)>,
    ManifestError,
>
    decreases c, n,
{
    if n <= 0 || n > c.len() {
        Ok(Seq::empty())
    } else {
        match children_outcome(c, n - 1) {
            Err(x) => Err(x),
            Ok(lines) => match save_outcome(c[n - 1].1) {
                Err(x) => Err(x),
                Ok(r) => Ok(lines.push((c[n - 1].0@, r.0, r.1))),
            },
        }
    }
}

/// Saving `e` writes to the store: it is a modified tree.
pub open spec fn writes(e: MemoryManifestEntry) -> bool {
    e matches MemoryManifestEntry::MemTree { modified, .. } && modified
}

/// The lines of the record that saving the modified tree `e` writes.
pub open spec fn saved_lines(e: MemoryManifestEntry) -> Seq<(Seq<u8>, Seq<u8>, Type)> {
    match e {
        MemoryManifestEntry::MemTree { children, .. } => children_outcome(
            children@,
            children@.len() as int,
        )->Ok_0,
        _ => Seq::empty(),
    }
}

/// The number of records that saving `e` writes: for a modified tree, those
/// of its children saved in order up to and including the first that fails,
/// plus its own record where none fails; nothing for anything else.
pub open spec fn write_count(e: MemoryManifestEntry) -> nat
    decreases e, 0nat,
{
    match e {
        MemoryManifestEntry::MemTree { children, modified, .. } => {
            if modified {
                children_write_count(children@, children@.len() as int) + if children_outcome(
                    children@,
                    children@.len() as int,
                ) is Ok {
                    1nat
                } else {
                    0nat
                }
            } else {
                0
            }
        },
        _ => 0,
    }
}

/// The records that saving the first `n` children writes, stopping after the
/// first that fails.
pub open spec fn children_write_count(c: Seq<(Vec<u8>, MemoryManifestEntry)>, n: int) -> nat
    decreases c, n,
{
    if n <= 0 || n > c.len() {
        0
    } else if children_outcome(c, n - 1) is Err {
        children_write_count(c, n - 1)
    } else {
        children_write_count(c, n - 1) + write_count(c[n - 1].1)
    }
}

/// Some record of `s` holds the tree `id` with these parents and lines.
pub open spec fn has_record(
    s: Seq<StoredTree>,
    id: Seq<u8>,
    p1: Option<Seq<u8>>,
    p2: Option<Seq<u8>>,
    lines: Seq<(Seq<u8>, Seq<u8>, Type)>,
) -> bool {
    exists|k: int| 0 <= k < s.len() && stored_as(#[trigger] s[k], id, p1, p2, lines)
}

/// Every modified tree in `e`, `e` included, has its record in `s`, under
/// the identifier that saving it yields.
pub open spec fn persisted(s: Seq<StoredTree>, e: MemoryManifestEntry) -> bool
    decreases e,
{
    match e {
        MemoryManifestEntry::MemTree { children, p1, p2, modified } => modified ==> {
            &&& has_record(s, save_outcome(e)->Ok_0.0, opt_view(p1), opt_view(p2), saved_lines(e))
            &&& forall|i: int| 0 <= i < children@.len() ==> persisted(s, #[trigger] children@[i].1)
        },
        _ => true,
    }
}

/// Records only added keep what was persisted persisted.
pub proof fn lemma_persisted_grows(s: Seq<StoredTree>, s2: Seq<StoredTree>, e: MemoryManifestEntry)
    requires
        persisted(s, e),
        s.len() <= s2.len(),
        s2.subrange(0, s.len() as int) == s,
    ensures
        persisted(s2, e),
    decreases e,
{
    if let MemoryManifestEntry::MemTree { children, p1, p2, modified } = e {
        if modified {
            let k = choose|k: int|
                0 <= k < s.len() && stored_as(
                    #[trigger] s[k],
                    save_outcome(e)->Ok_0.0,
                    opt_view(p1),
                    opt_view(p2),
                    saved_lines(e),
                );
            assert(s2[k] == s2.subrange(0, s.len() as int)[k]);
            assert forall|i: int| 0 <= i < children@.len() implies persisted(
                s2,
                #[trigger] children@[i].1,
            ) by {
                vstd::std_specs::vec::axiom_vec_index_decreases(children, i);
                assert(decreases_to!(e => e->children));
                assert(decreases_to!(e => children@[i].1));
                lemma_persisted_grows(s, s2, children@[i].1);
            }
        }
    }
}

/// Once saving a child fails, no later child writes anything.
pub proof fn lemma_children_write_count_err(c: Seq<(Vec<u8>, MemoryManifestEntry)>, n: int, m: int)
    requires
        0 <= n <= m <= c.len(),
        children_outcome(c, n) is Err,
    ensures
        children_write_count(c, m) == children_write_count(c, n),
    decreases m - n,
{
    if m > n {
        lemma_children_write_count_err(c, n, m - 1);
        lemma_children_outcome_err(c, n, m - 1);
    }
}

/// The outcome of a save, as values.
pub open spec fn outcome_view(r: Result<HgBlobEntry, ManifestError>) -> Result<
    (Seq<u8>, Type),
    ManifestError,
> {
    match r {
        Ok(b) => Ok((b.hash@, b.ty)),
        Err(x) => Err(x),
    }
}

/// While saving children succeeds, its lines follow the children one for one.
pub proof fn lemma_children_outcome(c: Seq<(Vec<u8>, MemoryManifestEntry)>, n: int)
    requires
        0 <= n <= c.len(),
        children_outcome(c, n) is Ok,
    ensures
        children_outcome(c, n)->Ok_0.len() == n,
        forall|j: int|
            0 <= j < n ==> {
                let l = #[trigger] children_outcome(c, n)->Ok_0[j];
                &&& l.0 == c[j].0@
                &&& save_outcome(c[j].1) == Ok::<(Seq<u8>, Type), ManifestError>((l.1, l.2))
            },
    decreases n,
{
    if n > 0 {
        lemma_children_outcome(c, n - 1);
        let prev = children_outcome(c, n - 1)->Ok_0;
        assert forall|j: int| 0 <= j < n - 1 implies #[trigger] children_outcome(c, n)->Ok_0[j]
            == prev[j] by {}
    }
}

/// Once saving a child fails, saving more children fails the same way.
pub proof fn lemma_children_outcome_err(c: Seq<(Vec<u8>, MemoryManifestEntry)>, n: int, m: int)
    requires
        0 <= n <= m <= c.len(),
        children_outcome(c, n) is Err,
    ensures
        children_outcome(c, m) == children_outcome(c, n),
    decreases m - n,
{
    if m > n {
        lemma_children_outcome_err(c, n, m - 1);
    }
}

/// Following tree lines from the stored tree `id`, no more than `fuel` levels
/// down, meets a tree that is not in the store; `id` itself is looked up
/// first.
pub open spec fn missing_within(s: Seq<StoredTree>, id: Seq<u8>, fuel: nat) -> bool
    decreases fuel,
{
    match find_latest(s, id) {
        None => true,
        Some(k) => fuel > 0 && exists|j: int|
            0 <= j < s[k].entries@.len() && (#[trigger] s[k].entries@[j]).ty == Type::Tree
                && missing_within(s, s[k].entries@[j].hash@, (fuel - 1) as nat),
    }
}

/// The tree `id` and every tree below it are in the store, and trees nest
/// no more than `fuel` levels below it.
pub open spec fn loadable(s: Seq<StoredTree>, id: Seq<u8>, fuel: nat) -> bool
    decreases fuel,
{
    match find_latest(s, id) {
        None => false,
        Some(k) => forall|j: int|
            0 <= j < s[k].entries@.len() ==> (#[trigger] s[k].entries@[j]).ty == Type::Tree
                ==> fuel > 0 && loadable(s, s[k].entries@[j].hash@, (fuel - 1) as nat),
    }
}

/// `e` is the unmodified in-memory copy of the stored tree `id`: a tree with
/// `id` as its only parent, whose children are the lines of the stored record
/// in order, subtrees loaded the same way and everything else as blobs.
pub open spec fn loads_as(s: Seq<StoredTree>, id: Seq<u8>, e: MemoryManifestEntry, fuel: nat) -> bool
    decreases fuel,
{
    match find_latest(s, id) {
        None => false,
        Some(k) => match e {
            MemoryManifestEntry::MemTree { children, p1, p2, modified } => {
                &&& opt_view(p1) == Some(id)
                &&& p2 is None
                &&& !modified
                &&& children@.len() == s[k].entries@.len()
                &&& forall|j: int|
                    0 <= j < children@.len() ==> {
                        let le = #[trigger] s[k].entries@[j];
                        let c = children@[j];
                        &&& c.0@ == le.name@
                        &&& if le.ty == Type::Tree {
                            fuel > 0 && loads_as(s, le.hash@, c.1, (fuel - 1) as nat)
                        } else {
                            c.1 matches MemoryManifestEntry::Blob(b) && b@ == (
                                Some(le.name@),
                                le.hash@,
                                le.ty,
                            )
                        }
                    }
            },
            _ => false,
        },
    }
}

/// A tree that can be loaded has no missing tree below it.
pub proof fn lemma_loadable_not_missing(s: Seq<StoredTree>, id: Seq<u8>, fuel: nat)
    requires
        loadable(s, id, fuel),
    ensures
        !missing_within(s, id, fuel),
    decreases fuel,
{
    if let Some(k) = find_latest(s, id) {
        if fuel > 0 {
            assert forall|j: int|
                0 <= j < s[k].entries@.len() && (#[trigger] s[k].entries@[j]).ty == Type::Tree implies !missing_within(
                s,
                s[k].entries@[j].hash@,
                (fuel - 1) as nat,
            ) by {
                lemma_loadable_not_missing(s, s[k].entries@[j].hash@, (fuel - 1) as nat);
            }
        }
    }
}

/// The first tree missing from the store that following tree lines from
/// `id`, no more than `fuel` levels down, meets, if any.
fn find_missing(blobstore: &MemBlobstore, id: &NodeHash, fuel: usize) -> (r: Option<NodeHash>)
    requires
        blobstore.wf(),
    ensures
        r is Some <==> missing_within(blobstore.trees(), id@, fuel as nat),
        r matches Some(h) ==> find_latest(blobstore.trees(), h@) is None,
        find_latest(blobstore.trees(), id@) is None ==> (r matches Some(h) && h@ == id@),
    decreases fuel,
{
    let k = match blobstore.find_tree(id) {
        Some(k) => k,
        None => {
            return Some(id.clone());
        },
    };
    if fuel == 0 {
        return None;
    }
    let t = blobstore.get_tree(k);
    let ghost s = blobstore.trees();
    let mut i: usize = 0;
    while i < t.entries.len()
        invariant
            s == blobstore.trees(),
            blobstore.wf(),
            fuel > 0,
            find_latest(s, id@) == Some(k as int),
            k < s.len(),
            *t == s[k as int],
            i <= t.entries@.len(),
            forall|j: int|
                0 <= j < i ==> (#[trigger] t.entries@[j]).ty == Type::Tree ==> !missing_within(
                    s,
                    t.entries@[j].hash@,
                    (fuel - 1) as nat,
                ),
        decreases t.entries@.len() - i,
    {
        let le = &t.entries[i];
        if le.ty == Type::Tree {
            let m = find_missing(blobstore, &le.hash, fuel - 1);
            if m.is_some() {
                return m;
            }
        }
        i = i + 1;
    }
    None
}

/// Loads the stored tree `id` and, recursively, the trees below it, where no
/// tree within `fuel` levels is missing.
fn load_present(blobstore: &MemBlobstore, id: &NodeHash, fuel: usize) -> (r: Result<
    MemoryManifestEntry,
    ManifestError,
>)
    requires
        blobstore.wf(),
        !missing_within(blobstore.trees(), id@, fuel as nat),
    ensures
        r is Ok <==> loadable(blobstore.trees(), id@, fuel as nat),
        r matches Ok(e) ==> loads_as(blobstore.trees(), id@, e, fuel as nat) && entry_wf(e),
        r is Err ==> (r matches Err(ManifestError::TreeTooDeep(_))),
    decreases fuel,
{
    let k = match blobstore.find_tree(id) {
        Some(k) => k,
        None => {
            return Err(ManifestError::TreeMissing(id.clone()));
        },
    };
    let t = blobstore.get_tree(k);
    let ghost s = blobstore.trees();
    let ghost lv = listing_view(t.entries@);
    let mut children: Vec<(Vec<u8>, MemoryManifestEntry)> = Vec::new();
    let mut i: usize = 0;
    while i < t.entries.len()
        invariant
            s == blobstore.trees(),
            blobstore.wf(),
            !missing_within(s, id@, fuel as nat),
            find_latest(s, id@) == Some(k as int),
            k < s.len(),
            *t == s[k as int],
            lv == listing_view(t.entries@),
            listing_sorted(lv),
            i <= t.entries@.len(),
            children@.len() == i,
            forall|j: int|
                0 <= j < i ==> {
                    let le = #[trigger] t.entries@[j];
                    let c = children@[j];
                    &&& c.0@ == le.name@
                    &&& entry_wf(c.1)
                    &&& if le.ty == Type::Tree {
                        fuel > 0 && loads_as(s, le.hash@, c.1, (fuel - 1) as nat) && loadable(
                            s,
                            le.hash@,
                            (fuel - 1) as nat,
                        )
                    } else {
                        c.1 matches MemoryManifestEntry::Blob(b) && b@ == (
                            Some(le.name@),
                            le.hash@,
                            le.ty,
                        )
                    }
                },
        decreases t.entries@.len() - i,
    {
        let le = &t.entries[i];
        assert(lv[i as int] == le@);
        if le.ty == Type::Tree {
            if fuel == 0 {
                return Err(ManifestError::TreeTooDeep(le.hash.clone()));
            }
            assert(!missing_within(s, le.hash@, (fuel - 1) as nat));
            match load_present(blobstore, &le.hash, fuel - 1) {
                Ok(e) => {
                    children.push((copy_bytes(&le.name), e));
                },
                Err(x) => {
                    return Err(x);
                },
            }
        } else {
            let b = HgBlobEntry { name: Some(copy_bytes(&le.name)), hash: le.hash.clone(), ty: le.ty };
            children.push((copy_bytes(&le.name), MemoryManifestEntry::Blob(b)));
        }
        i = i + 1;
    }
    let r = MemoryManifestEntry::MemTree {
        children,
        p1: Some(id.clone()),
        p2: None,
        modified: false,
    };
    proof {
        assert forall|a: int, b: int| 0 <= a < b < children@.len() implies bytes_lt(
            #[trigger] children@[a].0@,
            #[trigger] children@[b].0@,
        ) by {
            assert(lv[a].0 == t.entries@[a].name@);
            assert(lv[b].0 == t.entries@[b].name@);
        }
        assert forall|a: int| 0 <= a < children@.len() implies valid_name(#[trigger] children@[a].0@) by {
            assert(lv[a].0 == t.entries@[a].name@);
        }
        assert forall|j: int| 0 <= j < children@.len() implies entry_wf(#[trigger] children@[j].1) by {
            let le = t.entries@[j];
            assert(entry_wf(children@[j].1));
        }
    }
    Ok(r)
}

/// Loads the stored tree `id` and, recursively, the trees below it: fails
/// with the first missing tree met within `fuel` levels, if any, and else
/// where trees nest deeper than that.
fn load_tree(blobstore: &MemBlobstore, id: &NodeHash, fuel: usize) -> (r: Result<
    MemoryManifestEntry,
    ManifestError,
>)
    requires
        blobstore.wf(),
    ensures
        r is Ok <==> loadable(blobstore.trees(), id@, fuel as nat),
        r matches Ok(e) ==> loads_as(blobstore.trees(), id@, e, fuel as nat) && entry_wf(e),
        (r matches Err(ManifestError::TreeMissing(_))) <==> missing_within(
            blobstore.trees(),
            id@,
            fuel as nat,
        ),
        r matches Err(ManifestError::TreeMissing(h)) ==> find_latest(blobstore.trees(), h@) is None,
        find_latest(blobstore.trees(), id@) is None ==> (r matches Err(ManifestError::TreeMissing(h))
            && h@ == id@),
        r matches Err(x) ==> (x is TreeMissing || x is TreeTooDeep),
{
    proof {
        if loadable(blobstore.trees(), id@, fuel as nat) {
            lemma_loadable_not_missing(blobstore.trees(), id@, fuel as nat);
        }
    }
    match find_missing(blobstore, id, fuel) {
        Some(h) => Err(ManifestError::TreeMissing(h)),
        None => load_present(blobstore, id, fuel),
    }
}

impl MemoryManifestEntry {
    /// Saves every modified tree under this entry to the store, children
    /// before their parents, and returns a reference to this entry's object.
    /// `path` is where this entry stands; it names the returned reference.
    pub fn save(&self, blobstore: &mut MemBlobstore, path: &RepoPath) -> (r: Result<
        HgBlobEntry,
        ManifestError,
    >)
        requires
            entry_wf(*self),
            old(blobstore).wf(),
        ensures
            final(blobstore).wf(),
            outcome_view(r) == save_outcome(*self),
            r matches Ok(b) ==> match *self {
                MemoryManifestEntry::Blob(blob) => b@ == blob@,
                _ => opt_bytes(b.name) == basename(path@),
            },
            final(blobstore).trees().len() >= old(blobstore).trees().len(),
            final(blobstore).trees().subrange(0, old(blobstore).trees().len() as int) == old(
                blobstore,
            ).trees(),
            !writes(*self) ==> final(blobstore).trees() == old(blobstore).trees(),
            final(blobstore).trees().len() == old(blobstore).trees().len() + write_count(*self),
            r is Ok ==> persisted(final(blobstore).trees(), *self),
            r is Ok && writes(*self) ==> match *self {
                MemoryManifestEntry::MemTree { p1, p2, .. } => {
                    &&& final(blobstore).trees().len() > 0
                    &&& find_latest(final(blobstore).trees(), r->Ok_0.hash@) == Some(
                        final(blobstore).trees().len() - 1,
                    )
                    &&& stored_as(
                        final(blobstore).trees().last(),
                        r->Ok_0.hash@,
                        opt_view(p1),
                        opt_view(p2),
                        saved_lines(*self),
                    )
                },
                _ => false,
            },
        decreases self,
    {
        match self {
            MemoryManifestEntry::Blob(blob) => Ok(blob.clone()),
            MemoryManifestEntry::Conflict(_) => Err(ManifestError::UnresolvedConflicts),
            MemoryManifestEntry::MemTree { children, p1, p2, modified } => {
                if *modified {
                    let ghost c = children@;
                    let ghost start = blobstore.trees();
                    let mut entries: Vec<ListEntry> = Vec::new();
                    let mut i: usize = 0;
                    assert(listing_view(entries@) =~= Seq::<(Seq<u8>, Seq<u8>, Type)>::empty());
                    while i < children.len()
                        invariant
                            c == children@,
                            *self is MemTree,
                            (*self)->children == *children,
                            (*self)->p1 == *p1,
                            (*self)->p2 == *p2,
                            (*self)->modified,
                            entry_wf(*self),
                            names_sorted(c),
                            forall|j: int| 0 <= j < c.len() ==> entry_wf(#[trigger] c[j].1),
                            i <= c.len(),
                            blobstore.wf(),
                            blobstore.trees().len() >= start.len(),
                            blobstore.trees().subrange(0, start.len() as int) == start,
                            start == old(blobstore).trees(),
                            blobstore.trees().len() == start.len() + children_write_count(c, i as int),
                            forall|j: int|
                                0 <= j < i ==> persisted(blobstore.trees(), #[trigger] c[j].1),
                            children_outcome(c, i as int) == Ok::<
                                Seq<(Seq<u8>, Seq<u8>, Type)>,
                                ManifestError,
                            >(listing_view(entries@)),
                        decreases c.len() - i,
                    {
                        let child = &children[i].1;
                        let name = &children[i].0;
                        proof {
                            vstd::std_specs::vec::axiom_vec_index_decreases(*children, i as int);
                            assert(decreases_to!(*self => (*self)->children));
                            assert(decreases_to!(*children => children[i as int]));
                            assert(decreases_to!(children[i as int] => children[i as int].1));
                            assert(decreases_to!(*self => children@[i as int].1));
                        }
                        let child_path = extend_repopath_with_dir(path, name);
                        let ghost before = blobstore.trees();
                        let res = child.save(blobstore, &child_path);
                        proof {
                            assert(blobstore.trees().subrange(0, start.len() as int) =~= start) by {
                                assert forall|j: int| 0 <= j < start.len() implies blobstore.trees()[j]
                                    == start[j] by {
                                    assert(blobstore.trees().subrange(0, before.len() as int)[j]
                                        == before[j]);
                                    assert(before.subrange(0, start.len() as int)[j] == start[j]);
                                }
                            }
                        }
                        proof {
                            let after = blobstore.trees();
                            assert(after.subrange(0, before.len() as int) == before);
                            assert forall|j: int| 0 <= j < i implies persisted(
                                after,
                                #[trigger] c[j].1,
                            ) by {
                                lemma_persisted_grows(before, after, c[j].1);
                            }
                            assert(children_write_count(c, i + 1) == children_write_count(c, i as int)
                                + write_count(c[i as int].1));
                        }
                        match res {
                            Ok(b) => {
                                let ghost prev = listing_view(entries@);
                                let ghost line = (c[i as int].0@, b.hash@, b.ty);
                                let le = ListEntry { name: copy_bytes(name), hash: b.hash, ty: b.ty };
                                assert(le@ == line);
                                entries.push(le);
                                proof {
                                    assert(listing_view(entries@) =~= prev.push(line));
                                    assert(save_outcome(c[i as int].1) == Ok::<
                                        (Seq<u8>, Type),
                                        ManifestError,
                                    >((line.1, line.2)));
                                }
                            },
                            Err(x) => {
                                proof {
                                    assert(save_outcome(c[i as int].1) == Err::<(Seq<u8>, Type), ManifestError>(x));
                                    assert(children_outcome(c, i + 1) == Err::<
                                        Seq<(Seq<u8>, Seq<u8>, Type)>,
                                        ManifestError,
                                    >(x));
                                    lemma_children_outcome_err(c, i + 1, c.len() as int);
                                    lemma_children_write_count_err(c, i + 1, c.len() as int);
                                }
                                return Err(x);
                            },
                        }
                        i = i + 1;
                    }
                    proof {
                        lemma_children_outcome(c, c.len() as int);
                        let lines = listing_view(entries@);
                        assert forall|a: int, b: int| 0 <= a < b < lines.len() implies bytes_lt(
                            #[trigger] lines[a].0,
                            #[trigger] lines[b].0,
                        ) by {
                            assert(lines[a].0 == c[a].0@);
                            assert(lines[b].0 == c[b].0@);
                        }
                        assert forall|a: int| 0 <= a < lines.len() implies valid_name(
                            #[trigger] lines[a].0,
                        ) by {
                            assert(lines[a].0 == c[a].0@);
                        }
                    }
                    let ghost lines = listing_view(entries@);
                    let ghost before_put = blobstore.trees();
                    let id = blobstore.put_tree(clone_opt(p1), clone_opt(p2), entries);
                    proof {
                        let s = blobstore.trees();
                        assert(s.last().id@ == id@);
                        assert(s.subrange(0, before_put.len() as int) == before_put);
                        assert forall|j: int| 0 <= j < c.len() implies persisted(s, #[trigger] c[j].1) by {
                            lemma_persisted_grows(before_put, s, c[j].1);
                        }
                        assert(stored_as(s[s.len() - 1], id@, opt_view(*p1), opt_view(*p2), lines));
                        assert(s.subrange(0, start.len() as int) =~= start) by {
                            assert forall|j: int| 0 <= j < start.len() implies s[j] == start[j] by {
                                assert(s.subrange(0, before_put.len() as int)[j] == before_put[j]);
                                assert(before_put.subrange(0, start.len() as int)[j] == start[j]);
                            }
                        }
                    }
                    Ok(HgBlobEntry { name: path.basename(), hash: id, ty: Type::Tree })
                } else {
                    match p1 {
                        Some(h) => Ok(HgBlobEntry { name: path.basename(), hash: h.clone(), ty: Type::Tree }),
                        None => Err(ManifestError::UnchangedManifestMissingParent),
                    }
                }
            },
        }
    }

    /// Builds the in-memory copy of the stored tree `manifest_id`, loading every
    /// tree below it. Fails with the first missing tree met, where one is met
    /// within as many levels as the store holds records; otherwise fails only
    /// where trees nest deeper than that.
    pub fn convert_treenode(blobstore: &MemBlobstore, manifest_id: &NodeHash) -> (r: Result<
        Self,
        ManifestError,
    >)
        requires
            blobstore.wf(),
        ensures
            r is Ok <==> loadable(blobstore.trees(), manifest_id@, blobstore.trees().len()),
            r matches Ok(e) ==> entry_wf(e) && loads_as(
                blobstore.trees(),
                manifest_id@,
                e,
                blobstore.trees().len(),
            ),
            (r matches Err(ManifestError::TreeMissing(_))) <==> missing_within(
                blobstore.trees(),
                manifest_id@,
                blobstore.trees().len(),
            ),
            r matches Err(ManifestError::TreeMissing(h)) ==> find_latest(blobstore.trees(), h@) is None,
            find_latest(blobstore.trees(), manifest_id@) is None ==> (r matches Err(
                ManifestError::TreeMissing(h),
            ) && h@ == manifest_id@),
            r matches Err(x) ==> (x is TreeMissing || x is TreeTooDeep),
    {
        load_tree(blobstore, manifest_id, blobstore.len())
    }

    /// Whether this entry is a tree held in memory.
    pub fn is_dir(&self) -> (r: bool)
        ensures
            r == (*self is MemTree),
    {
        match self {
            MemoryManifestEntry::MemTree { .. } => true,
            _ => false,
        }
    }
}

/// An in-memory manifest, built from the parent manifests, if any.
#[derive(Debug)]
pub struct MemoryRootManifest {
    pub root_entry: MemoryManifestEntry,
}

/// The empty tree that stands for "no parent": unmodified, with no parents
/// and no children.
pub open spec fn is_empty_root(e: MemoryManifestEntry) -> bool {
    e matches MemoryManifestEntry::MemTree { children, p1, p2, modified } && children@.len() == 0
        && p1 is None && p2 is None && !modified
}

impl MemoryRootManifest {
    fn create(root_entry: MemoryManifestEntry) -> (r: Self)
        ensures
            r.root_entry == root_entry,
    {
        MemoryRootManifest { root_entry }
    }

    /// Builds the manifest from parents `mp1` and `mp2`. With neither, the
    /// root is an empty tree with nothing to save yet. With one, it is the
    /// in-memory copy of that parent. With both, it is a conflict between the
    /// copies of the two, which the caller must replace before saving. A
    /// parent that cannot be loaded gives the error of loading it, the first
    /// parent's before the second's.
    pub fn new(blobstore: &MemBlobstore, mp1: Option<&NodeHash>, mp2: Option<&NodeHash>) -> (r:
        Result<Self, ManifestError>)
        requires
            blobstore.wf(),
        ensures
            r matches Ok(m) ==> entry_wf(m.root_entry),
            r matches Err(x) ==> (x is TreeMissing || x is TreeTooDeep),
            r matches Err(ManifestError::TreeMissing(h)) ==> find_latest(blobstore.trees(), h@) is None,
            (mp1 is None && mp2 is None) ==> (r matches Ok(m) && is_empty_root(m.root_entry)),
            (mp1 is Some) != (mp2 is Some) ==> {
                let p = if mp1 is Some { *mp1->0 } else { *mp2->0 };
                &&& r is Ok <==> loadable(blobstore.trees(), p@, blobstore.trees().len())
                &&& (r matches Err(ManifestError::TreeMissing(_))) <==> missing_within(
                    blobstore.trees(),
                    p@,
                    blobstore.trees().len(),
                )
                &&& find_latest(blobstore.trees(), p@) is None ==> (r matches Err(
                    ManifestError::TreeMissing(h),
                ) && h@ == p@)
                &&& r matches Ok(m) ==> loads_as(
                    blobstore.trees(),
                    p@,
                    m.root_entry,
                    blobstore.trees().len(),
                )
            },
            (mp1 is Some && mp2 is Some) ==> {
                let a = *mp1->0;
                let b = *mp2->0;
                &&& r is Ok <==> (loadable(blobstore.trees(), a@, blobstore.trees().len())
                    && loadable(blobstore.trees(), b@, blobstore.trees().len()))
                &&& missing_within(blobstore.trees(), a@, blobstore.trees().len()) ==> (r matches Err(
                    ManifestError::TreeMissing(_),
                ))
                &&& find_latest(blobstore.trees(), a@) is None ==> (r matches Err(
                    ManifestError::TreeMissing(h),
                ) && h@ == a@)
                &&& loadable(blobstore.trees(), a@, blobstore.trees().len()) ==> ((r matches Err(
                    ManifestError::TreeMissing(_),
                )) <==> missing_within(blobstore.trees(), b@, blobstore.trees().len()))
                &&& loadable(blobstore.trees(), a@, blobstore.trees().len()) && find_latest(
                    blobstore.trees(),
                    b@,
                ) is None ==> (r matches Err(ManifestError::TreeMissing(h)) && h@ == b@)
                &&& r matches Ok(m) ==> m.root_entry matches MemoryManifestEntry::Conflict(v)
                    && v@.len() == 2 && loads_as(
                    blobstore.trees(),
                    a@,
                    v@[0],
                    blobstore.trees().len(),
                ) && loads_as(blobstore.trees(), b@, v@[1], blobstore.trees().len())
            },
    {
        match (mp1, mp2) {
            (None, None) => {
                let root = MemoryManifestEntry::MemTree {
                    children: Vec::new(),
                    p1: None,
                    p2: None,
                    modified: false,
                };
                Ok(Self::create(root))
            },
            (Some(p), None) | (None, Some(p)) => {
                let root = MemoryManifestEntry::convert_treenode(blobstore, p)?;
                Ok(Self::create(root))
            },
            (Some(p1), Some(p2)) => {
                let c1 = MemoryManifestEntry::convert_treenode(blobstore, p1)?;
                let c2 = MemoryManifestEntry::convert_treenode(blobstore, p2)?;
                let mut v: Vec<MemoryManifestEntry> = Vec::new();
                v.push(c1);
                v.push(c2);
                Ok(Self::create(MemoryManifestEntry::Conflict(v)))
            },
        }
    }

    /// Saves this manifest to the store, children before parents, and returns
    /// the reference to its root. Subtrees saved before a failure stay in the
    /// store.
    pub fn save(self, blobstore: &mut MemBlobstore) -> (r: Result<HgBlobEntry, ManifestError>)
        requires
            entry_wf(self.root_entry),
            old(blobstore).wf(),
        ensures
            final(blobstore).wf(),
            outcome_view(r) == save_outcome(self.root_entry),
            r matches Ok(b) ==> b.name is None || self.root_entry is Blob,
            final(blobstore).trees().len() >= old(blobstore).trees().len(),
            final(blobstore).trees().subrange(0, old(blobstore).trees().len() as int) == old(
                blobstore,
            ).trees(),
            !writes(self.root_entry) ==> final(blobstore).trees() == old(blobstore).trees(),
            final(blobstore).trees().len() == old(blobstore).trees().len() + write_count(
                self.root_entry,
            ),
            r is Ok ==> persisted(final(blobstore).trees(), self.root_entry),
            r is Ok && writes(self.root_entry) ==> match self.root_entry {
                MemoryManifestEntry::MemTree { p1, p2, .. } => {
                    &&& final(blobstore).trees().len() > 0
                    &&& find_latest(final(blobstore).trees(), r->Ok_0.hash@) == Some(
                        final(blobstore).trees().len() - 1,
                    )
                    &&& stored_as(
                        final(blobstore).trees().last(),
                        r->Ok_0.hash@,
                        opt_view(p1),
                        opt_view(p2),
                        saved_lines(self.root_entry),
                    )
                },
                _ => false,
            },
    {
        let root = RepoPath::root();
        self.root_entry.save(blobstore, &root)
    }
}

/// A copy of an optional hash.
pub fn clone_opt(p: &Option<NodeHash>) -> (r: Option<NodeHash>)
    ensures
        opt_view(r) == opt_view(*p),
{
    match p {
        Some(h) => Some(h.clone()),
        None => None,
    }
}

} // verus!
