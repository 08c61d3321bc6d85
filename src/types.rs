use vstd::prelude::*;

use crate::hash::{copy_bytes, hex_of, push_hex, NodeHash};

verus! {

/// What a manifest line points at.
#[derive(Clone, Copy, PartialEq, Eq, Structural, Debug)]
pub enum Type {
    File,
    Executable,
    Symlink,
    Tree,
}

/// The flag that follows the hash on a manifest line: none for a regular
/// file, `x`, `l` or `t` for the others.
pub open spec fn type_tag(t: Type) -> Seq<u8> {
    match t {
        Type::File => Seq::empty(),
        Type::Executable => seq![120u8],
        Type::Symlink => seq![108u8],
        Type::Tree => seq![116u8],
    }
}

/// Appends the flag of `t` to `out`.
fn push_type_tag(out: &mut Vec<u8>, t: Type)
    ensures
        final(out)@ == old(out)@ + type_tag(t),
{
    match t {
        Type::File => {
            assert(old(out)@ + type_tag(t) =~= old(out)@);
        },
        Type::Executable => {
            out.push(120);
            assert(final(out)@ =~= old(out)@ + type_tag(t));
        },
        Type::Symlink => {
            out.push(108);
            assert(final(out)@ =~= old(out)@ + type_tag(t));
        },
        Type::Tree => {
            out.push(116);
            assert(final(out)@ =~= old(out)@ + type_tag(t));
        },
    }
}

/// A path element may name a manifest entry: it is not empty and holds no NUL,
/// `/` or newline.
pub open spec fn valid_name(n: Seq<u8>) -> bool {
    &&& n.len() > 0
    &&& forall|i: int| 0 <= i < n.len() ==> #[trigger] n[i] != 0u8 && n[i] != 47u8 && n[i] != 10u8
}

/// Checks `valid_name`.
pub fn is_valid_name(n: &Vec<u8>) -> (r: bool)
    ensures
        r == valid_name(n@),
{
    if n.len() == 0 {
        return false;
    }
    let mut i: usize = 0;
    while i < n.len()
        invariant
            i <= n@.len(),
            forall|j: int| 0 <= j < i ==> #[trigger] n@[j] != 0u8 && n@[j] != 47u8 && n@[j] != 10u8,
        decreases n@.len() - i,
    {
        let c = n[i];
        if c == 0 || c == 47 || c == 10 {
            assert(!(n@[i as int] != 0u8 && n@[i as int] != 47u8 && n@[i as int] != 10u8));
            return false;
        }
        i = i + 1;
    }
    true
}

/// The view of an optional byte vector.
pub open spec fn opt_bytes(o: Option<Vec<u8>>) -> Option<Seq<u8>> {
    match o {
        Some(v) => Some(v@),
        None => None,
    }
}

/// A reference to an object already in the store: its name within its
/// directory (none for the root), its hash and its type.
#[derive(Debug)]
pub struct HgBlobEntry {
    pub name: Option<Vec<u8>>,
    pub hash: NodeHash,
    pub ty: Type,
}

impl View for HgBlobEntry {
    type V = (Option<Seq<u8>>, Seq<u8>, Type);

    open spec fn view(&self) -> (Option<Seq<u8>>, Seq<u8>, Type) {
        (opt_bytes(self.name), self.hash@, self.ty)
    }
}

/// A copy of an optional name.
pub fn copy_name(n: &Option<Vec<u8>>) -> (r: Option<Vec<u8>>)
    ensures
        opt_bytes(r) == opt_bytes(*n),
{
    match n {
        Some(v) => Some(copy_bytes(v)),
        None => None,
    }
}

impl Clone for HgBlobEntry {
    fn clone(&self) -> (r: Self)
        ensures
            r@ == self@,
    {
        HgBlobEntry { name: copy_name(&self.name), hash: self.hash.clone(), ty: self.ty }
    }
}

impl HgBlobEntry {
    pub fn new(name: Option<Vec<u8>>, hash: NodeHash, ty: Type) -> (r: HgBlobEntry)
        ensures
            r@ == (opt_bytes(name), hash@, ty),
    {
        HgBlobEntry { name, hash, ty }
    }

    pub fn get_hash(&self) -> (r: &NodeHash)
        ensures
            r@ == self.hash@,
    {
        &self.hash
    }

    pub fn get_type(&self) -> (r: Type)
        ensures
            r == self.ty,
    {
        self.ty
    }

    pub fn get_name(&self) -> (r: &Option<Vec<u8>>)
        ensures
            opt_bytes(*r) == opt_bytes(self.name),
    {
        &self.name
    }
}

/// One line of a stored tree: a child's name, hash and type.
#[derive(Debug)]
pub struct ListEntry {
    pub name: Vec<u8>,
    pub hash: NodeHash,
    pub ty: Type,
}

impl View for ListEntry {
    type V = (Seq<u8>, Seq<u8>, Type);

    open spec fn view(&self) -> (Seq<u8>, Seq<u8>, Type) {
        (self.name@, self.hash@, self.ty)
    }
}

impl Clone for ListEntry {
    fn clone(&self) -> (r: Self)
        ensures
            r@ == self@,
    {
        ListEntry { name: copy_bytes(&self.name), hash: self.hash.clone(), ty: self.ty }
    }
}

/// The lines of a listing, as values.
pub open spec fn listing_view(s: Seq<ListEntry>) -> Seq<(Seq<u8>, Seq<u8>, Type)> {
    s.map_values(|e: ListEntry| e@)
}

/// The serialized form of one line: `<name> NUL <hex hash> <flag> LF`.
pub open spec fn list_line(e: (Seq<u8>, Seq<u8>, Type)) -> Seq<u8> {
    e.0 + seq![0u8] + hex_of(e.1) + type_tag(e.2) + seq![10u8]
}

/// The canonical tree record: its lines, serialized and concatenated in order.
pub open spec fn listing_record(s: Seq<(Seq<u8>, Seq<u8>, Type)>) -> Seq<u8>
    decreases s.len(),
{
    if s.len() == 0 {
        Seq::empty()
    } else {
        listing_record(s.drop_last()) + list_line(s.last())
    }
}

/// The names of a listing are strictly increasing, byte-wise, and each is valid.
pub open spec fn listing_sorted(s: Seq<(Seq<u8>, Seq<u8>, Type)>) -> bool {
    &&& forall|i: int, j: int|
        0 <= i < j < s.len() ==> crate::hash::bytes_lt(#[trigger] s[i].0, #[trigger] s[j].0)
    &&& forall|i: int| 0 <= i < s.len() ==> valid_name(#[trigger] s[i].0)
}

/// Serializes a listing into the canonical tree record.
pub fn serialize_listing(entries: &Vec<ListEntry>) -> (r: Vec<u8>)
    ensures
        r@ == listing_record(listing_view(entries@)),
{
    let mut out: Vec<u8> = Vec::new();
    let mut i: usize = 0;
    while i < entries.len()
        invariant
            i <= entries@.len(),
            out@ == listing_record(listing_view(entries@.subrange(0, i as int))),
        decreases entries@.len() - i,
    {
        let e = &entries[i];
        append_line(&mut out, e);
        proof {
            let s = listing_view(entries@.subrange(0, i + 1));
            assert(s.drop_last() =~= listing_view(entries@.subrange(0, i as int)));
            assert(s.last() == e@);
        }
        i = i + 1;
    }
    assert(entries@.subrange(0, entries@.len() as int) =~= entries@);
    out
}

/// Appends the serialized line of `e` to `out`.
fn append_line(out: &mut Vec<u8>, e: &ListEntry)
    ensures
        final(out)@ == old(out)@ + list_line(e@),
{
    crate::hash::append_bytes(out, &e.name);
    out.push(0);
    push_hex(out, &e.hash.bytes);
    push_type_tag(out, e.ty);
    out.push(10);
    assert(final(out)@ =~= old(out)@ + list_line(e@));
}

/// Checks `listing_sorted`.
pub fn is_sorted_listing(entries: &Vec<ListEntry>) -> (r: bool)
    ensures
        r == listing_sorted(listing_view(entries@)),
{
    let ghost s = listing_view(entries@);
    let mut i: usize = 0;
    while i < entries.len()
        invariant
            i <= entries@.len(),
            s == listing_view(entries@),
            forall|a: int, b: int|
                0 <= a < b < i ==> crate::hash::bytes_lt(#[trigger] s[a].0, #[trigger] s[b].0),
            forall|a: int| 0 <= a < i ==> valid_name(#[trigger] s[a].0),
        decreases entries@.len() - i,
    {
        if !is_valid_name(&entries[i].name) {
            assert(!valid_name(s[i as int].0));
            return false;
        }
        if i > 0 && !crate::hash::bytes_less(&entries[i - 1].name, &entries[i].name) {
            assert(!crate::hash::bytes_lt(s[i - 1].0, s[i as int].0));
            return false;
        }
        proof {
            assert forall|a: int, b: int| 0 <= a < b < i + 1 implies crate::hash::bytes_lt(
                #[trigger] s[a].0,
                #[trigger] s[b].0,
            ) by {
                if b == i && a < i - 1 {
                    crate::lemmas::lemma_bytes_lt_transitive(s[a].0, s[i - 1].0, s[b].0);
                }
            }
        }
        i = i + 1;
    }
    true
}

/// A path in the repository, as a sequence of directory names; empty for the root.
#[derive(Debug)]
pub struct RepoPath {
    pub elements: Vec<Vec<u8>>,
}

impl View for RepoPath {
    type V = Seq<Seq<u8>>;

    open spec fn view(&self) -> Seq<Seq<u8>> {
        self.elements@.map_values(|e: Vec<u8>| e@)
    }
}

/// The name of the last element of a path, if it has one.
pub open spec fn basename(p: Seq<Seq<u8>>) -> Option<Seq<u8>> {
    if p.len() == 0 {
        None
    } else {
        Some(p.last())
    }
}

impl RepoPath {
    /// The root of the repository.
    pub fn root() -> (r: RepoPath)
        ensures
            r@ == Seq::<Seq<u8>>::empty(),
    {
        let r = RepoPath { elements: Vec::new() };
        assert(r@ =~= Seq::<Seq<u8>>::empty());
        r
    }

    pub fn is_root(&self) -> (r: bool)
        ensures
            r == (self@.len() == 0),
    {
        self.elements.len() == 0
    }

    /// The last element of this path, if there is one.
    pub fn basename(&self) -> (r: Option<Vec<u8>>)
        ensures
            opt_bytes(r) == basename(self@),
    {
        let n = self.elements.len();
        if n == 0 {
            None
        } else {
            Some(copy_bytes(&self.elements[n - 1]))
        }
    }
}

/// The directory `dir` below `path`.
pub fn extend_repopath_with_dir(path: &RepoPath, dir: &Vec<u8>) -> (r: RepoPath)
    ensures
        r@ == path@.push(dir@),
{
    let mut elements: Vec<Vec<u8>> = Vec::new();
    let mut i: usize = 0;
    while i < path.elements.len()
        invariant
            i <= path.elements@.len(),
            elements@.len() == i,
            forall|j: int| 0 <= j < i ==> (#[trigger] elements@[j])@ == path.elements@[j]@,
        decreases path.elements@.len() - i,
    {
        elements.push(copy_bytes(&path.elements[i]));
        i = i + 1;
    }
    elements.push(copy_bytes(dir));
    let r = RepoPath { elements };
    assert(r@ =~= path@.push(dir@)) by {
        assert forall|j: int| 0 <= j < r@.len() implies r@[j] == path@.push(dir@)[j] by {
            if j < path@.len() {
                assert(r.elements@[j]@ == path.elements@[j]@);
            }
        }
    }
    r
}

} // verus!
