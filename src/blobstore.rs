use vstd::prelude::*;

use crate::hash::{content_id, copy_bytes, opt_view, sha1_of, NodeHash};
use crate::types::{
    is_sorted_listing, listing_record, listing_sorted, listing_view, serialize_listing, ListEntry,
    Type,
};

verus! {

/// A tree record held by the store: its hash, its parents, its lines and the
/// canonical bytes those lines serialize to.
#[derive(Debug)]
pub struct StoredTree {
    pub id: NodeHash,
    pub p1: Option<NodeHash>,
    pub p2: Option<NodeHash>,
    pub entries: Vec<ListEntry>,
    pub content: Vec<u8>,
}

/// `t` holds the tree `id` with parents `p1`, `p2` and the given lines.
pub open spec fn stored_as(
    t: StoredTree,
    id: Seq<u8>,
    p1: Option<Seq<u8>>,
    p2: Option<Seq<u8>>,
    lines: Seq<(Seq<u8>, Seq<u8>, Type)>,
) -> bool {
    &&& t.id@ == id
    &&& opt_view(t.p1) == p1
    &&& opt_view(t.p2) == p2
    &&& listing_view(t.entries@) == lines
    &&& t.content@ == listing_record(lines)
}

/// A record is well formed: its lines are sorted by name, and its content is
/// their serialization.
pub open spec fn tree_wf(t: StoredTree) -> bool {
    &&& listing_sorted(listing_view(t.entries@))
    &&& t.content@ == listing_record(listing_view(t.entries@))
}

/// The position of the latest record stored under `id`.
pub open spec fn find_latest(s: Seq<StoredTree>, id: Seq<u8>) -> Option<int>
    decreases s.len(),
{
    if s.len() == 0 {
        None
    } else if s.last().id@ == id {
        Some(s.len() - 1)
    } else {
        find_latest(s.drop_last(), id)
    }
}

/// The latest record under a hash is one of the records, and has that hash.
pub proof fn lemma_find_latest(s: Seq<StoredTree>, id: Seq<u8>)
    ensures
        find_latest(s, id) matches Some(k) ==> 0 <= k < s.len() && s[k].id@ == id,
    decreases s.len(),
{
    if s.len() > 0 && s.last().id@ != id {
        lemma_find_latest(s.drop_last(), id);
    }
}

/// A content-addressed store of tree records, held in memory. Records are
/// only ever added; a lookup finds the latest record under a hash.
#[derive(Debug)]
pub struct MemBlobstore {
    trees: Vec<StoredTree>,
}

impl MemBlobstore {
    /// The records, oldest first.
    pub closed spec fn trees(&self) -> Seq<StoredTree> {
        self.trees@
    }

    /// Every record is well formed.
    pub closed spec fn wf(&self) -> bool {
        forall|i: int| 0 <= i < self.trees@.len() ==> tree_wf(#[trigger] self.trees@[i])
    }

    /// An empty store.
    pub fn new() -> (r: MemBlobstore)
        ensures
            r.wf(),
            r.trees() == Seq::<StoredTree>::empty(),
    {
        let r = MemBlobstore { trees: Vec::new() };
        assert(r.trees() =~= Seq::<StoredTree>::empty());
        r
    }

    /// The number of records.
    pub fn len(&self) -> (r: usize)
        ensures
            r == self.trees().len(),
    {
        self.trees.len()
    }

    /// The position of the latest record under `id`.
    pub fn find_tree(&self, id: &NodeHash) -> (r: Option<usize>)
        ensures
            match r {
                Some(k) => find_latest(self.trees(), id@) == Some(k as int) && k < self.trees().len()
                    && self.trees()[k as int].id@ == id@,
                None => find_latest(self.trees(), id@) is None,
            },
    {
        proof {
            lemma_find_latest(self.trees@, id@);
            assert(self.trees@.subrange(0, self.trees@.len() as int) =~= self.trees@);
        }
        let mut i: usize = self.trees.len();
        while i > 0
            invariant
                i <= self.trees@.len(),
                find_latest(self.trees@, id@) == find_latest(self.trees@.subrange(0, i as int), id@),
            decreases i,
        {
            proof {
                let s = self.trees@.subrange(0, i as int);
                assert(s.drop_last() =~= self.trees@.subrange(0, i - 1));
            }
            if self.trees[i - 1].id == *id {
                return Some(i - 1);
            }
            i = i - 1;
        }
        None
    }

    /// The record at position `i`.
    pub fn get_tree(&self, i: usize) -> (r: &StoredTree)
        requires
            self.wf(),
            i < self.trees().len(),
        ensures
            *r == self.trees()[i as int],
            tree_wf(*r),
    {
        &self.trees[i]
    }

    /// The lines of the latest tree under `id`, if there is one.
    pub fn load_listing(&self, id: &NodeHash) -> (r: Option<Vec<ListEntry>>)
        requires
            self.wf(),
        ensures
            match find_latest(self.trees(), id@) {
                Some(k) => r is Some && listing_view(r->0@) == listing_view(self.trees()[k].entries@),
                None => r is None,
            },
    {
        match self.find_tree(id) {
            Some(k) => Some(copy_listing(&self.get_tree(k).entries)),
            None => None,
        }
    }

    /// The canonical bytes of the latest tree under `id`, if there is one.
    pub fn get_content(&self, id: &NodeHash) -> (r: Option<Vec<u8>>)
        requires
            self.wf(),
        ensures
            match find_latest(self.trees(), id@) {
                Some(k) => r is Some && r->0@ == self.trees()[k].content@,
                None => r is None,
            },
    {
        match self.find_tree(id) {
            Some(k) => Some(copy_bytes(&self.get_tree(k).content)),
            None => None,
        }
    }

    /// Writes a tree record with the given lines, under the content identifier
    /// of their serialization, and returns that identifier. The parents are
    /// stored beside the record as lineage.
    pub fn put_tree(&mut self, p1: Option<NodeHash>, p2: Option<NodeHash>, entries: Vec<ListEntry>) -> (r:
        NodeHash)
        requires
            old(self).wf(),
            listing_sorted(listing_view(entries@)),
        ensures
            final(self).wf(),
            r@ == sha1_of(listing_record(listing_view(entries@))),
            final(self).trees().len() == old(self).trees().len() + 1,
            final(self).trees().subrange(0, old(self).trees().len() as int) == old(self).trees(),
            stored_as(
                final(self).trees().last(),
                r@,
                opt_view(p1),
                opt_view(p2),
                listing_view(entries@),
            ),
    {
        let content = serialize_listing(&entries);
        let id = content_id(&content);
        let r = id.clone();
        self.push_record(StoredTree { id, p1, p2, entries, content });
        r
    }

    /// Adds a tree that was written elsewhere under `id`, such as one taken
    /// over from another repository. The identifier is taken on trust: it is
    /// not checked against the record, so records added this way need not be
    /// content-addressed. Refuses, and changes nothing, where the lines are not
    /// sorted by valid, distinct names.
    pub fn import_tree(
        &mut self,
        id: NodeHash,
        p1: Option<NodeHash>,
        p2: Option<NodeHash>,
        entries: Vec<ListEntry>,
    ) -> (r: bool)
        requires
            old(self).wf(),
        ensures
            final(self).wf(),
            r == listing_sorted(listing_view(entries@)),
            r ==> final(self).trees().len() == old(self).trees().len() + 1
                && final(self).trees().subrange(0, old(self).trees().len() as int) == old(
                self,
            ).trees() && stored_as(
                final(self).trees().last(),
                id@,
                opt_view(p1),
                opt_view(p2),
                listing_view(entries@),
            ),
            !r ==> final(self).trees() == old(self).trees(),
    {
        if !is_sorted_listing(&entries) {
            return false;
        }
        let content = serialize_listing(&entries);
        self.push_record(StoredTree { id, p1, p2, entries, content });
        true
    }

    fn push_record(&mut self, t: StoredTree)
        requires
            old(self).wf(),
            tree_wf(t),
        ensures
            final(self).wf(),
            final(self).trees() == old(self).trees().push(t),
    {
        self.trees.push(t);
        proof {
            assert forall|i: int| 0 <= i < self.trees@.len() implies tree_wf(
                #[trigger] self.trees@[i],
            ) by {
                if i < self.trees@.len() - 1 {
                    assert(self.trees@[i] == old(self).trees@[i]);
                }
            }
        }
    }
}

/// A copy of a listing.
pub fn copy_listing(v: &Vec<ListEntry>) -> (r: Vec<ListEntry>)
    ensures
        listing_view(r@) == listing_view(v@),
{
    let mut r: Vec<ListEntry> = Vec::new();
    let mut i: usize = 0;
    while i < v.len()
        invariant
            i <= v@.len(),
            r@.len() == i,
            forall|j: int| 0 <= j < i ==> (#[trigger] r@[j])@ == v@[j]@,
        decreases v@.len() - i,
    {
        r.push(v[i].clone());
        i = i + 1;
    }
    assert(listing_view(r@) =~= listing_view(v@));
    r
}

} // verus!
