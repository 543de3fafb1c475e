//! Byte strings and 32-byte identifiers: equality, order, lookup.

use vstd::prelude::*;

verus! {

/// A 32-byte digest.
pub type Hash32 = [u8; 32];

/// A 32-byte node identifier.
pub type NodeId = [u8; 32];

/// The all-zero identifier.
pub open spec fn zero_hash() -> Hash32 {
    choose|h: Hash32| is_zero(h)
}

/// Every byte of an identifier is zero.
pub open spec fn is_zero(h: Hash32) -> bool {
    forall|k: int| 0 <= k < 32 ==> h[k] == 0
}

/// The all-zero identifier is the one whose bytes are all zero.
pub proof fn lemma_zero_hash(h: Hash32)
    requires
        is_zero(h),
    ensures
        h == zero_hash(),
{
    assert(is_zero(zero_hash()));
    assert(h =~= zero_hash());
}

/// Returns the all-zero identifier.
pub fn zeros() -> (r: Hash32)
    ensures
        r == zero_hash(),
        is_zero(r),
{
    let r: Hash32 = [0u8; 32];
    proof {
        lemma_zero_hash(r);
    }
    r
}

/// Whether two identifiers are equal.
pub fn hash_eq(a: &Hash32, b: &Hash32) -> (r: bool)
    ensures
        r == (*a == *b),
{
    let mut i: usize = 0;
    while i < 32
        invariant
            i <= 32,
            forall|k: int| 0 <= k < i ==> a[k] == b[k],
        decreases 32 - i,
    {
        if a[i] != b[i] {
            return false;
        }
        i = i + 1;
    }
    assert(*a =~= *b);
    true
}

/// Whether two optional identifiers are equal.
pub fn option_hash_eq(a: &Option<Hash32>, b: &Option<Hash32>) -> (r: bool)
    ensures
        r == (*a == *b),
{
    match (a, b) {
        (None, None) => true,
        (Some(x), Some(y)) => hash_eq(x, y),
        _ => false,
    }
}

/// `a` comes before `b` in the byte-wise lexicographic order.
pub open spec fn hash_before(a: Hash32, b: Hash32) -> bool {
    exists|i: int| #![trigger a[i]]
        0 <= i < 32 && a[i] < b[i] && (forall|j: int| 0 <= j < i ==> a[j] == b[j])
}

/// Whether `a` comes before `b` in the byte-wise lexicographic order.
pub fn hash_less(a: &Hash32, b: &Hash32) -> (r: bool)
    ensures
        r == hash_before(*a, *b),
{
    let mut i: usize = 0;
    while i < 32
        invariant
            i <= 32,
            forall|k: int| 0 <= k < i ==> a[k] == b[k],
        decreases 32 - i,
    {
        if a[i] != b[i] {
            if a[i] < b[i] {
                assert(a[i as int] < b[i as int]);
                return true;
            }
            proof {
                if hash_before(*a, *b) {
                    let w = choose|w: int| #![trigger a[w]]
                        0 <= w < 32 && a[w] < b[w] && (forall|j: int| 0 <= j < w ==> a[j] == b[j]);
                    if w < i {
                        assert(a[w] == b[w]);
                    } else if w > i {
                        assert(a[i as int] == b[i as int]);
                    }
                }
            }
            return false;
        }
        i = i + 1;
    }
    false
}

/// The lexicographic order is irreflexive and asymmetric, and two distinct
/// identifiers are always ordered.
pub proof fn lemma_hash_order_total(a: Hash32, b: Hash32)
    ensures
        !hash_before(a, a),
        !(hash_before(a, b) && hash_before(b, a)),
        a == b || hash_before(a, b) || hash_before(b, a),
{
    if hash_before(a, b) && hash_before(b, a) {
        let i = choose|i: int| #![trigger a[i]]
            0 <= i < 32 && a[i] < b[i] && (forall|j: int| 0 <= j < i ==> a[j] == b[j]);
        let k = choose|k: int| #![trigger b[k]]
            0 <= k < 32 && b[k] < a[k] && (forall|j: int| 0 <= j < k ==> b[j] == a[j]);
        assert(a[i] < b[i] && b[k] < a[k]);
        if i < k {
            assert(b[i] == a[i]);
        } else if k < i {
            assert(a[k] == b[k]);
        }
    }
    if a != b {
        lemma_first_difference(a, b, 0);
    }
}

proof fn lemma_first_difference(a: Hash32, b: Hash32, i: int)
    requires
        a != b,
        0 <= i <= 32,
        forall|j: int| 0 <= j < i ==> a[j] == b[j],
    ensures
        hash_before(a, b) || hash_before(b, a),
    decreases 32 - i,
{
    if i == 32 {
        assert(a =~= b);
    } else if a[i] == b[i] {
        lemma_first_difference(a, b, i + 1);
    } else if a[i] < b[i] {
        assert(hash_before(a, b));
    } else {
        assert(b[i] < a[i]);
        assert(hash_before(b, a));
    }
}

/// The lexicographic order is transitive.
pub proof fn lemma_hash_order_transitive(a: Hash32, b: Hash32, c: Hash32)
    requires
        hash_before(a, b),
        hash_before(b, c),
    ensures
        hash_before(a, c),
{
    let i = choose|i: int| #![trigger a[i]]
        0 <= i < 32 && a[i] < b[i] && (forall|j: int| 0 <= j < i ==> a[j] == b[j]);
    let k = choose|k: int| #![trigger b[k]]
        0 <= k < 32 && b[k] < c[k] && (forall|j: int| 0 <= j < k ==> b[j] == c[j]);
    let m = if i < k { i } else { k };
    assert(a[i] < b[i] && b[k] < c[k]);
    assert(a[m] < c[m]) by {
        if i < k {
            assert(b[i] == c[i]);
        } else if k < i {
            assert(a[k] == b[k]);
        }
    }
    assert forall|j: int| 0 <= j < m implies a[j] == c[j] by {
        assert(a[j] == b[j]);
        assert(b[j] == c[j]);
    }
}

/// Whether two byte strings are equal.
pub fn bytes_eq(a: &Vec<u8>, b: &Vec<u8>) -> (r: bool)
    ensures
        r == (a@ == b@),
{
    if a.len() != b.len() {
        return false;
    }
    let mut i: usize = 0;
    while i < a.len()
        invariant
            i <= a.len(),
            a.len() == b.len(),
            forall|k: int| 0 <= k < i ==> a[k] == b[k],
        decreases a.len() - i,
    {
        if a[i] != b[i] {
            return false;
        }
        i = i + 1;
    }
    assert(a@ =~= b@);
    true
}

/// Copies a byte string.
pub fn copy_bytes(a: &Vec<u8>) -> (r: Vec<u8>)
    ensures
        r@ == a@,
{
    let r = a.clone();
    assert(r@ =~= a@);
    r
}

/// The view of an optional byte string.
pub open spec fn option_bytes(o: Option<Vec<u8>>) -> Option<Seq<u8>> {
    match o {
        Some(v) => Some(v@),
        None => None,
    }
}

/// Copies an optional byte string.
pub fn copy_option_bytes(o: &Option<Vec<u8>>) -> (r: Option<Vec<u8>>)
    ensures
        option_bytes(r) == option_bytes(*o),
{
    match o {
        Some(v) => Some(copy_bytes(v)),
        None => None,
    }
}

/// Copies a list of identifiers.
pub fn copy_hashes(a: &Vec<Hash32>) -> (r: Vec<Hash32>)
    ensures
        r@ == a@,
{
    let mut r: Vec<Hash32> = Vec::new();
    let mut i: usize = 0;
    while i < a.len()
        invariant
            i <= a.len(),
            r@ == a@.subrange(0, i as int),
        decreases a.len() - i,
    {
        r.push(a[i]);
        i = i + 1;
        assert(r@ =~= a@.subrange(0, i as int));
    }
    assert(r@ =~= a@);
    r
}

/// The views of a list of byte strings.
pub open spec fn byte_rows(rows: Seq<Vec<u8>>) -> Seq<Seq<u8>> {
    rows.map_values(|v: Vec<u8>| v@)
}

/// Copies a list of byte strings.
pub fn copy_rows(a: &Vec<Vec<u8>>) -> (r: Vec<Vec<u8>>)
    ensures
        byte_rows(r@) == byte_rows(a@),
{
    let mut r: Vec<Vec<u8>> = Vec::new();
    let mut i: usize = 0;
    while i < a.len()
        invariant
            i <= a.len(),
            r.len() == i,
            forall|k: int| 0 <= k < i ==> r[k]@ == a[k]@,
        decreases a.len() - i,
    {
        r.push(copy_bytes(&a[i]));
        i = i + 1;
    }
    assert(byte_rows(r@) =~= byte_rows(a@));
    r
}

/// The position of an identifier in a list.
pub fn position_of(list: &Vec<Hash32>, item: &Hash32) -> (r: Option<usize>)
    ensures
        match r {
            Some(i) => i < list.len() && list[i as int] == *item && (forall|k: int|
                0 <= k < i ==> list[k] != *item),
            None => !list@.contains(*item),
        },
{
    let mut i: usize = 0;
    while i < list.len()
        invariant
            i <= list.len(),
            forall|k: int| 0 <= k < i ==> list[k] != *item,
        decreases list.len() - i,
    {
        if hash_eq(&list[i], item) {
            return Some(i);
        }
        i = i + 1;
    }
    None
}

/// Whether an identifier occurs in a list.
pub fn contains_hash(list: &Vec<Hash32>, item: &Hash32) -> (r: bool)
    ensures
        r == list@.contains(*item),
{
    match position_of(list, item) {
        Some(i) => {
            assert(list@[i as int] == *item);
            true
        },
        None => false,
    }
}

/// Adds an identifier to a duplicate-free list; returns whether it was new.
pub fn insert_hash(list: &mut Vec<Hash32>, item: Hash32) -> (r: bool)
    requires
        old(list)@.no_duplicates(),
    ensures
        final(list)@.no_duplicates(),
        final(list)@.to_set() == old(list)@.to_set().insert(item),
        r == !old(list)@.contains(item),
        final(list)@ == (if r {
            old(list)@.push(item)
        } else {
            old(list)@
        }),
{
    let ghost before = list@;
    if contains_hash(list, &item) {
        assert(before.to_set().insert(item) =~= before.to_set());
        return false;
    }
    list.push(item);
    proof {
        lemma_push_set(before, item);
    }
    true
}

/// Pushing an item adds it to the set of a sequence's items.
pub proof fn lemma_push_set<A>(s: Seq<A>, x: A)
    ensures
        s.push(x).to_set() == s.to_set().insert(x),
{
    assert forall|y: A| s.push(x).to_set().contains(y) <==> s.to_set().insert(x).contains(y) by {
        if s.push(x).contains(y) {
            let i = choose|i: int| 0 <= i < s.push(x).len() && s.push(x)[i] == y;
            if i < s.len() {
                assert(s[i] == y);
            }
        }
        if s.contains(y) {
            let i = choose|i: int| 0 <= i < s.len() && s[i] == y;
            assert(s.push(x)[i] == y);
        }
        if y == x {
            assert(s.push(x)[s.len() as int] == y);
        }
    }
    assert(s.push(x).to_set() =~= s.to_set().insert(x));
}

/// Whether every byte of a string is zero.
pub fn all_zero(a: &Vec<u8>) -> (r: bool)
    ensures
        r == (forall|k: int| 0 <= k < a.len() ==> a[k] == 0),
{
    let mut i: usize = 0;
    while i < a.len()
        invariant
            i <= a.len(),
            forall|k: int| 0 <= k < i ==> a[k] == 0,
        decreases a.len() - i,
    {
        if a[i] != 0 {
            return false;
        }
        i = i + 1;
    }
    true
}

/// Appends the bytes of an identifier.
pub fn put_hash(out: &mut Vec<u8>, h: &Hash32)
    ensures
        final(out)@ == old(out)@ + h@,
{
    let ghost before = out@;
    let mut i: usize = 0;
    while i < 32
        invariant
            i <= 32,
            out@ == before + h@.subrange(0, i as int),
        decreases 32 - i,
    {
        out.push(h[i]);
        i = i + 1;
        assert(out@ =~= before + h@.subrange(0, i as int));
    }
    assert(h@.subrange(0, 32) =~= h@);
}

/// Appends a byte string.
pub fn put_bytes(out: &mut Vec<u8>, b: &Vec<u8>)
    ensures
        final(out)@ == old(out)@ + b@,
{
    let ghost before = out@;
    let mut i: usize = 0;
    while i < b.len()
        invariant
            i <= b.len(),
            out@ == before + b@.subrange(0, i as int),
        decreases b.len() - i,
    {
        out.push(b[i]);
        i = i + 1;
        assert(out@ =~= before + b@.subrange(0, i as int));
    }
    assert(b@.subrange(0, b@.len() as int) =~= b@);
}

/// Appends a 64-bit integer in little-endian order.
pub fn put_u64(out: &mut Vec<u8>, x: u64)
    ensures
        final(out)@ == old(out)@ + vstd::bytes::spec_u64_to_le_bytes(x),
{
    let b = vstd::bytes::u64_to_le_bytes(x);
    put_bytes(out, &b);
}

/// If two concatenations agree and their first parts have the same length,
/// both parts agree.
pub proof fn lemma_split(a: Seq<u8>, b: Seq<u8>, c: Seq<u8>, d: Seq<u8>)
    requires
        a + b == c + d,
        a.len() == c.len(),
    ensures
        a == c,
        b == d,
{
    let l = a + b;
    let r = c + d;
    assert(l.len() == a.len() + b.len() && r.len() == c.len() + d.len());
    assert forall|i: int| 0 <= i < a.len() implies a[i] == c[i] by {
        assert(l[i] == a[i] && r[i] == c[i]);
    }
    assert(a =~= c);
    assert forall|i: int| 0 <= i < b.len() implies b[i] == d[i] by {
        assert(l[a.len() + i] == b[i] && r[a.len() + i] == d[i]);
    }
    assert(b =~= d);
}

/// Distinct identifiers have distinct bytes.
pub proof fn lemma_hash_view(a: Hash32, b: Hash32)
    ensures
        a@ == b@ ==> a == b,
        a@.len() == 32,
{
    if a@ == b@ {
        assert forall|i: int| 0 <= i < 32 implies a[i] == b[i] by {
            assert(a@[i] == b@[i]);
        }
        assert(a =~= b);
    }
}

/// The first byte in which two identifiers differ decides which comes first: the
/// smaller one.
pub proof fn lemma_first_difference_orders(a: Hash32, b: Hash32, i: int)
    requires
        0 <= i < 32,
        forall|j: int| 0 <= j < i ==> a[j] == b[j],
        a[i] < b[i],
    ensures
        hash_before(a, b),
        !hash_before(b, a),
{
    assert(hash_before(a, b));
    if hash_before(b, a) {
        let k = choose|k: int| #![trigger b[k]]
            0 <= k < 32 && b[k] < a[k] && (forall|j: int| 0 <= j < k ==> b[j] == a[j]);
        if k < i {
            assert(a[k] == b[k]);
        } else if i < k {
            assert(b[i] == a[i]);
        }
    }
}

} // verus!
