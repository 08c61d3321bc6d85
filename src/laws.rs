use vstd::prelude::*;

use crate::blobstore::StoredTree;
use crate::hash::{bytes_lt, opt_view, sha1_of};
use crate::manifest::{
    children_map, children_outcome, children_write_count, entry_at, entry_wf, has_record,
    inserted, inserted_at, is_empty_root, lemma_children_map, lemma_children_outcome,
    lemma_sorted_distinct, loads_as, outcome_view, persisted, save_outcome, saved_lines,
    write_count, writes, ManifestError, MemoryManifestEntry,
};
use crate::types::{list_line, listing_record, HgBlobEntry, Type};

verus! {

/// A manifest built without parents has nothing to save until it is edited;
/// once an entry is inserted, saving succeeds exactly where saving the entry
/// does, and yields the hash of the one-line record that lists it.
pub proof fn lemma_empty_root_saves_after_insert(
    t: MemoryManifestEntry,
    t2: MemoryManifestEntry,
    name: Seq<u8>,
    e: MemoryManifestEntry,
)
    requires
        is_empty_root(t),
        inserted(t, t2, name, e),
        entry_wf(t2),
    ensures
        save_outcome(t) == Err::<(Seq<u8>, Type), ManifestError>(
            ManifestError::UnchangedManifestMissingParent,
        ),
        save_outcome(t2) is Ok <==> save_outcome(e) is Ok,
        save_outcome(e) matches Ok(r) ==> save_outcome(t2) == Ok::<(Seq<u8>, Type), ManifestError>(
            (sha1_of(list_line((name, r.0, r.1))), Type::Tree),
        ),
{
    let c = t2->children;
    let c2 = c@;
    lemma_sorted_distinct(c2);
    lemma_children_map(c2, name);
    assert(children_map(t->children@) =~= Map::<Seq<u8>, MemoryManifestEntry>::empty()) by {
        assert(t->children@.len() == 0);
    }
    assert(children_map(c2).contains_key(name));
    let k = choose|k: int| 0 <= k < c2.len() && c2[k].0@ == name;
    assert forall|i: int| 0 <= i < c2.len() implies #[trigger] c2[i].0@ == name && i == k by {
        lemma_children_map(c2, c2[i].0@);
        assert(children_map(c2).contains_key(c2[i].0@));
    }
    assert(c2.len() == 1) by {
        if c2.len() > 1 {
            assert(0 == k && 1 == k);
        }
    }
    assert(c2[0].1 == e);
    assert(children_outcome(c2, 0) == Ok::<Seq<(Seq<u8>, Seq<u8>, Type)>, ManifestError>(
        Seq::empty(),
    ));
    if save_outcome(e) is Ok {
        let r = save_outcome(e)->Ok_0;
        let lines = seq![(name, r.0, r.1)];
        assert(Seq::<(Seq<u8>, Seq<u8>, Type)>::empty().push((name, r.0, r.1)) =~= lines);
        assert(lines.drop_last() =~= Seq::<(Seq<u8>, Seq<u8>, Type)>::empty());
        assert(listing_record(lines) =~= list_line((name, r.0, r.1)));
    }
}

/// A modified tree with no children saves to the identifier of the empty
/// record, and writes exactly one record.
pub proof fn lemma_empty_modified_tree(t: MemoryManifestEntry)
    requires
        t matches MemoryManifestEntry::MemTree { children, modified, .. } && children@.len() == 0
            && modified,
    ensures
        save_outcome(t) == Ok::<(Seq<u8>, Type), ManifestError>(
            (sha1_of(Seq::empty()), Type::Tree),
        ),
        write_count(t) == 1,
{
    assert(listing_record(Seq::<(Seq<u8>, Seq<u8>, Type)>::empty()) =~= Seq::<u8>::empty());
    assert(children_write_count(t->children@, 0) == 0);
}

/// A modified tree that saves successfully gets the identifier of its
/// record: one line per child, in ascending name order, each with the name
/// and the hash and type that saving the child yields.
pub proof fn lemma_modified_tree_record(t: MemoryManifestEntry)
    requires
        entry_wf(t),
        writes(t),
        save_outcome(t) is Ok,
    ensures
        save_outcome(t) == Ok::<(Seq<u8>, Type), ManifestError>(
            (sha1_of(listing_record(saved_lines(t))), Type::Tree),
        ),
        saved_lines(t).len() == t->children@.len(),
        forall|j: int|
            0 <= j < saved_lines(t).len() ==> {
                let l = #[trigger] saved_lines(t)[j];
                &&& l.0 == t->children@[j].0@
                &&& save_outcome(t->children@[j].1) == Ok::<(Seq<u8>, Type), ManifestError>(
                    (l.1, l.2),
                )
            },
        forall|a: int, b: int|
            0 <= a < b < saved_lines(t).len() ==> bytes_lt(
                #[trigger] saved_lines(t)[a].0,
                #[trigger] saved_lines(t)[b].0,
            ),
{
    let c = t->children@;
    lemma_children_outcome(c, c.len() as int);
    assert forall|a: int, b: int| 0 <= a < b < saved_lines(t).len() implies bytes_lt(
        #[trigger] saved_lines(t)[a].0,
        #[trigger] saved_lines(t)[b].0,
    ) by {
        assert(saved_lines(t)[a].0 == c[a].0@);
        assert(saved_lines(t)[b].0 == c[b].0@);
    }
}

/// After a successful save, a modified subtree listed in its parent's record
/// is no dangling reference: the store holds a record under the identifier
/// that the parent lists, with the subtree's own lines.
pub proof fn lemma_saved_subtree_present(s: Seq<StoredTree>, t: MemoryManifestEntry, i: int)
    requires
        entry_wf(t),
        writes(t),
        save_outcome(t) is Ok,
        persisted(s, t),
        0 <= i < t->children@.len(),
        t->children@[i].1 is MemTree,
        t->children@[i].1->modified,
    ensures
        has_record(
            s,
            saved_lines(t)[i].1,
            opt_view(t->children@[i].1->p1),
            opt_view(t->children@[i].1->p2),
            saved_lines(t->children@[i].1),
        ),
{
    let c = t->children@;
    lemma_children_outcome(c, c.len() as int);
    assert(persisted(s, c[i].1));
    assert(saved_lines(t)[i].1 == save_outcome(c[i].1)->Ok_0.0);
}

/// A tree loaded from the store and left as it was saves to the hash it was
/// loaded from, and writes nothing.
pub proof fn lemma_loaded_tree_passes_through(
    s: Seq<StoredTree>,
    id: Seq<u8>,
    e: MemoryManifestEntry,
    fuel: nat,
)
    requires
        loads_as(s, id, e, fuel),
    ensures
        save_outcome(e) == Ok::<(Seq<u8>, Type), ManifestError>((id, Type::Tree)),
        !writes(e),
{
}

/// After `e` is inserted under `name` into a tree, a successful save of the
/// tree writes a record that lists `name` with the hash and type that `e`
/// saves to.
pub proof fn lemma_inserted_entry_listed(
    t: MemoryManifestEntry,
    t2: MemoryManifestEntry,
    name: Seq<u8>,
    e: MemoryManifestEntry,
)
    requires
        inserted(t, t2, name, e),
        entry_wf(t2),
        save_outcome(t2) is Ok,
    ensures
        writes(t2),
        save_outcome(e) is Ok,
        exists|j: int|
            0 <= j < saved_lines(t2).len() && saved_lines(t2)[j] == (
                name,
                save_outcome(e)->Ok_0.0,
                save_outcome(e)->Ok_0.1,
            ),
{
    let c2 = t2->children@;
    lemma_sorted_distinct(c2);
    lemma_children_map(c2, name);
    assert(children_map(c2).contains_key(name));
    let k = choose|k: int| 0 <= k < c2.len() && c2[k].0@ == name;
    assert(c2[k].1 == e);
    lemma_children_outcome(c2, c2.len() as int);
    let l = saved_lines(t2)[k];
    assert(l.0 == name);
}

/// `x` is a modified tree.
pub open spec fn is_modified_tree(x: Option<MemoryManifestEntry>) -> bool {
    x matches Some(MemoryManifestEntry::MemTree { modified, .. }) && modified
}

/// After `e` is put at `path`, following `path` reaches `e`, and every
/// directory on the way there, the starting tree included, is a modified tree.
pub proof fn lemma_inserted_at_path(
    old: Option<MemoryManifestEntry>,
    t2: MemoryManifestEntry,
    path: Seq<Seq<u8>>,
    e: MemoryManifestEntry,
)
    requires
        inserted_at(old, t2, path, e),
    ensures
        entry_at(t2, path) == Some(e),
        forall|k: int| 0 <= k < path.len() ==> is_modified_tree(#[trigger] entry_at(t2, path.subrange(0, k))),
    decreases path.len(),
{
    let m2 = children_map(t2->children@);
    assert(m2.contains_key(path[0]));
    let rest = path.drop_first();
    assert(entry_at(t2, path.subrange(0, 0)) == Some(t2)) by {
        assert(path.subrange(0, 0).len() == 0);
    }
    if path.len() > 1 {
        let om = match old {
            Some(MemoryManifestEntry::MemTree { children, .. }) => children_map(children@),
            _ => Map::empty(),
        };
        let sub_old = if om.contains_key(path[0]) {
            Some(om[path[0]])
        } else {
            None
        };
        lemma_inserted_at_path(sub_old, m2[path[0]], rest, e);
        assert forall|k: int| 0 <= k < path.len() implies is_modified_tree(
            #[trigger] entry_at(t2, path.subrange(0, k)),
        ) by {
            let p = path.subrange(0, k);
            if k > 0 {
                assert(p[0] == path[0]);
                assert(p.drop_first() =~= rest.subrange(0, k - 1));
                assert(entry_at(t2, p) == entry_at(m2[path[0]], rest.subrange(0, k - 1)));
                assert(is_modified_tree(entry_at(m2[path[0]], rest.subrange(0, k - 1))));
            } else {
                assert(p.len() == 0);
                assert(entry_at(t2, p) == Some(t2));
            }
        }
    } else {
        assert(rest.len() == 0);
    }
}

/// Two saves of the same entry agree: the reference they return depends on
/// the entry alone, not on the store or on where the entry stands.
pub proof fn lemma_save_deterministic(
    e: MemoryManifestEntry,
    r1: Result<HgBlobEntry, ManifestError>,
    r2: Result<HgBlobEntry, ManifestError>,
)
    requires
        outcome_view(r1) == save_outcome(e),
        outcome_view(r2) == save_outcome(e),
    ensures
        r1 is Ok <==> r2 is Ok,
        r1 is Ok ==> r1->Ok_0.hash@ == r2->Ok_0.hash@ && r1->Ok_0.ty == r2->Ok_0.ty,
{
}

/// The same subtree placed in two trees, under any names, is listed with the
/// same hash and type in both saved records.
pub proof fn lemma_identical_subtrees_same_hash(
    t1: MemoryManifestEntry,
    t2: MemoryManifestEntry,
    i: int,
    j: int,
)
    requires
        t1 is MemTree,
        t2 is MemTree,
        0 <= i < t1->children@.len(),
        0 <= j < t2->children@.len(),
        t1->children@[i].1 == t2->children@[j].1,
        children_outcome(t1->children@, t1->children@.len() as int) is Ok,
        children_outcome(t2->children@, t2->children@.len() as int) is Ok,
    ensures
        saved_lines(t1)[i].1 == saved_lines(t2)[j].1,
        saved_lines(t1)[i].2 == saved_lines(t2)[j].2,
{
    lemma_children_outcome(t1->children@, t1->children@.len() as int);
    lemma_children_outcome(t2->children@, t2->children@.len() as int);
    let a = saved_lines(t1)[i];
    let b = saved_lines(t2)[j];
}

} // verus!
