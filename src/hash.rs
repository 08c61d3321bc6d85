use vstd::prelude::*;

verus! {

/// Number of bytes in a node hash (a SHA-1 digest).
pub const NODE_HASH_LEN: usize = 20;

/// The lower-case ASCII hex digit of a nibble.
pub open spec fn hex_digit(n: u8) -> u8 {
    if n < 10 {
        (48 + n) as u8
    } else {
        (87 + n) as u8
    }
}

/// Two lower-case hex digits per byte, high nibble first.
pub open spec fn hex_of(s: Seq<u8>) -> Seq<u8>
    decreases s.len(),
{
    if s.len() == 0 {
        Seq::empty()
    } else {
        hex_of(s.drop_last()) + seq![hex_digit(s.last() / 16), hex_digit(s.last() % 16)]
    }
}

/// The value of an ASCII hex digit of either case, if it is one.
pub open spec fn hex_value(c: u8) -> Option<u8> {
    if 48 <= c <= 57 {
        Some((c - 48) as u8)
    } else if 97 <= c <= 102 {
        Some((c - 87) as u8)
    } else if 65 <= c <= 70 {
        Some((c - 55) as u8)
    } else {
        None
    }
}

/// `s` spells `h` in hex, two digits per byte, in either case.
pub open spec fn spells_hex(s: Seq<u8>, h: Seq<u8>) -> bool {
    &&& s.len() == 2 * h.len()
    &&& forall|i: int|
        0 <= i < h.len() ==> {
            &&& #[trigger] hex_value(s[2 * i]) is Some
            &&& hex_value(s[2 * i + 1]) is Some
            &&& h[i] == hex_value(s[2 * i])->0 * 16 + hex_value(s[2 * i + 1])->0
        }
}

/// Every character of `s` is a hex digit.
pub open spec fn all_hex(s: Seq<u8>) -> bool {
    forall|i: int| 0 <= i < s.len() ==> #[trigger] hex_value(s[i]) is Some
}

/// The SHA-1 digest of a byte string.
pub uninterp spec fn sha1_of(data: Seq<u8>) -> Seq<u8>;

/// Relies on `sha1::Sha1::digest` (through `digest::Digest`): the 20-byte SHA-1
/// digest of the input, which depends on the input alone.
#[verifier::external_body]
fn sha1_digest(data: &Vec<u8>) -> (r: Vec<u8>)
    ensures
        r@ == sha1_of(data@),
        r@.len() == NODE_HASH_LEN,
{
    <sha1::Sha1 as sha1::Digest>::digest(data.as_slice()).to_vec()
}

/// A content identifier: the SHA-1 hash that names a stored object.
#[derive(Debug)]
pub struct NodeHash {
    pub bytes: Vec<u8>,
}

impl View for NodeHash {
    type V = Seq<u8>;

    open spec fn view(&self) -> Seq<u8> {
        self.bytes@
    }
}

impl PartialEq for NodeHash {
    fn eq(&self, o: &NodeHash) -> (r: bool) {
        bytes_equal(&self.bytes, &o.bytes)
    }
}

impl vstd::std_specs::cmp::PartialEqSpecImpl for NodeHash {
    open spec fn obeys_eq_spec() -> bool {
        true
    }

    open spec fn eq_spec(&self, o: &NodeHash) -> bool {
        self@ == o@
    }
}

impl Clone for NodeHash {
    fn clone(&self) -> (r: Self)
        ensures
            r@ == self@,
    {
        NodeHash { bytes: copy_bytes(&self.bytes) }
    }
}

/// A copy of a byte vector.
pub fn copy_bytes(v: &Vec<u8>) -> (r: Vec<u8>)
    ensures
        r@ == v@,
{
    let r = v.clone();
    assert(r@ =~= v@);
    r
}

/// Whether two byte vectors hold the same bytes.
pub fn bytes_equal(a: &Vec<u8>, b: &Vec<u8>) -> (r: bool)
    ensures
        r == (a@ == b@),
{
    if a.len() != b.len() {
        return false;
    }
    let mut i: usize = 0;
    while i < a.len()
        invariant
            a@.len() == b@.len(),
            i <= a@.len(),
            forall|j: int| 0 <= j < i ==> a@[j] == b@[j],
        decreases a@.len() - i,
    {
        if a[i] != b[i] {
            return false;
        }
        i = i + 1;
    }
    assert(a@ =~= b@);
    true
}

/// Whether `a` sorts strictly before `b`, byte-wise, a proper prefix first.
pub open spec fn bytes_lt(a: Seq<u8>, b: Seq<u8>) -> bool
    decreases a.len(),
{
    if b.len() == 0 {
        false
    } else if a.len() == 0 {
        true
    } else if a[0] != b[0] {
        a[0] < b[0]
    } else {
        bytes_lt(a.drop_first(), b.drop_first())
    }
}

/// Byte-wise comparison: `a` sorts strictly before `b`.
pub fn bytes_less(a: &Vec<u8>, b: &Vec<u8>) -> (r: bool)
    ensures
        r == bytes_lt(a@, b@),
{
    let mut i: usize = 0;
    assert(a@.subrange(0, a@.len() as int) =~= a@);
    assert(b@.subrange(0, b@.len() as int) =~= b@);
    while i < a.len() && i < b.len()
        invariant
            i <= a@.len(),
            i <= b@.len(),
            forall|j: int| 0 <= j < i ==> a@[j] == b@[j],
            bytes_lt(a@, b@) == bytes_lt(a@.subrange(i as int, a@.len() as int), b@.subrange(i as int, b@.len() as int)),
        decreases a@.len() - i,
    {
        if a[i] != b[i] {
            return a[i] < b[i];
        }
        proof {
            let sa = a@.subrange(i as int, a@.len() as int);
            let sb = b@.subrange(i as int, b@.len() as int);
            assert(sa.drop_first() =~= a@.subrange(i + 1, a@.len() as int));
            assert(sb.drop_first() =~= b@.subrange(i + 1, b@.len() as int));
        }
        i = i + 1;
    }
    i < b.len()
}

/// Appends the lower-case hex spelling of `bytes` to `out`.
pub fn push_hex(out: &mut Vec<u8>, bytes: &Vec<u8>)
    ensures
        final(out)@ == old(out)@ + hex_of(bytes@),
{
    let mut i: usize = 0;
    while i < bytes.len()
        invariant
            i <= bytes@.len(),
            out@ == old(out)@ + hex_of(bytes@.subrange(0, i as int)),
        decreases bytes@.len() - i,
    {
        let b = bytes[i];
        let hi = b / 16;
        let lo = b % 16;
        let dh: u8 = if hi < 10 { 48 + hi } else { 87 + hi };
        let dl: u8 = if lo < 10 { 48 + lo } else { 87 + lo };
        out.push(dh);
        out.push(dl);
        proof {
            let s = bytes@.subrange(0, i + 1);
            assert(s.drop_last() =~= bytes@.subrange(0, i as int));
            assert(s.last() == b);
        }
        i = i + 1;
    }
    assert(bytes@.subrange(0, bytes@.len() as int) =~= bytes@);
}

/// The value of one ASCII hex digit, if it is one.
fn hex_digit_value(c: u8) -> (r: Option<u8>)
    ensures
        r == hex_value(c),
{
    if 48 <= c && c <= 57 {
        Some(c - 48)
    } else if 97 <= c && c <= 102 {
        Some(c - 87)
    } else if 65 <= c && c <= 70 {
        Some(c - 55)
    } else {
        None
    }
}

impl NodeHash {
    /// Parses the 40-digit hex spelling of a node hash, in either case.
    pub fn from_hex(s: &[u8]) -> (r: Option<NodeHash>)
        ensures
            r is Some <==> (s@.len() == 2 * NODE_HASH_LEN && all_hex(s@)),
            r is Some ==> r->0@.len() == NODE_HASH_LEN && spells_hex(s@, r->0@),
    {
        if s.len() != 2 * NODE_HASH_LEN {
            return None;
        }
        let mut bytes: Vec<u8> = Vec::new();
        let mut i: usize = 0;
        while i < NODE_HASH_LEN
            invariant
                s@.len() == 2 * NODE_HASH_LEN,
                i <= NODE_HASH_LEN,
                bytes@.len() == i,
                forall|j: int| 0 <= j < 2 * i ==> #[trigger] hex_value(s@[j]) is Some,
                forall|k: int|
                    0 <= k < i ==> #[trigger] bytes@[k] == hex_value(s@[2 * k])->0 * 16
                        + hex_value(s@[2 * k + 1])->0,
            decreases NODE_HASH_LEN - i,
        {
            let hi = hex_digit_value(s[2 * i]);
            let lo = hex_digit_value(s[2 * i + 1]);
            match (hi, lo) {
                (Some(h), Some(l)) => {
                    bytes.push(h * 16 + l);
                },
                _ => {
                    proof {
                        assert(!all_hex(s@)) by {
                            if hi is None {
                                assert(hex_value(s@[2 * i as int]) is None);
                            } else {
                                assert(hex_value(s@[2 * i + 1]) is None);
                            }
                        }
                    }
                    return None;
                },
            }
            i = i + 1;
        }
        proof {
            assert forall|j: int| 0 <= j < s@.len() implies #[trigger] hex_value(s@[j]) is Some by {}
            assert forall|k: int| 0 <= k < bytes@.len() implies {
                &&& #[trigger] hex_value(s@[2 * k]) is Some
                &&& hex_value(s@[2 * k + 1]) is Some
                &&& bytes@[k] == hex_value(s@[2 * k])->0 * 16 + hex_value(s@[2 * k + 1])->0
            } by {
                assert(bytes@[k] == hex_value(s@[2 * k])->0 * 16 + hex_value(s@[2 * k + 1])->0);
            }
        }
        Some(NodeHash { bytes })
    }

    /// The lower-case hex spelling of this hash.
    pub fn to_hex(&self) -> (r: Vec<u8>)
        ensures
            r@ == hex_of(self@),
    {
        let mut out: Vec<u8> = Vec::new();
        push_hex(&mut out, &self.bytes);
        assert(out@ =~= hex_of(self@));
        out
    }

    /// The raw bytes of this hash.
    pub fn as_bytes(&self) -> (r: &Vec<u8>)
        ensures
            r@ == self@,
    {
        &self.bytes
    }
}

/// The view of an optional hash.
pub open spec fn opt_view(p: Option<NodeHash>) -> Option<Seq<u8>> {
    match p {
        Some(h) => Some(h@),
        None => None,
    }
}

/// The content identifier of a stored object: the SHA-1 of its bytes. The
/// parents of a tree are kept beside it and take no part in it.
pub fn content_id(content: &Vec<u8>) -> (r: NodeHash)
    ensures
        r@ == sha1_of(content@),
        r@.len() == NODE_HASH_LEN,
{
    NodeHash { bytes: sha1_digest(content) }
}

/// Appends the bytes of `src` to `out`.
pub fn append_bytes(out: &mut Vec<u8>, src: &Vec<u8>)
    ensures
        final(out)@ == old(out)@ + src@,
{
    let mut i: usize = 0;
    while i < src.len()
        invariant
            i <= src@.len(),
            out@ == old(out)@ + src@.subrange(0, i as int),
        decreases src@.len() - i,
    {
        out.push(src[i]);
        proof {
            assert(src@.subrange(0, i + 1) =~= src@.subrange(0, i as int).push(src@[i as int]));
        }
        i = i + 1;
    }
    assert(src@.subrange(0, src@.len() as int) =~= src@);
}

} // verus!
