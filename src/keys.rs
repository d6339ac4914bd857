//! Ordering of text keys by their UTF-8 bytes, and binary search over a
//! vector of keys kept in that order.

use std::cmp::Ordering;
use vstd::prelude::*;
use vstd::utf8::{encode_utf8, encode_utf8_decode_utf8};

verus! {

/// Strict lexicographic order on byte sequences.
pub open spec fn bytes_lt(a: Seq<u8>, b: Seq<u8>) -> bool
    decreases a.len(),
{
    if a.len() == 0 {
        b.len() > 0
    } else if b.len() == 0 {
        false
    } else if a[0] != b[0] {
        a[0] < b[0]
    } else {
        bytes_lt(a.drop_first(), b.drop_first())
    }
}

/// Strict order on text keys: the order of their UTF-8 encodings.
pub open spec fn key_lt(a: Seq<char>, b: Seq<char>) -> bool {
    bytes_lt(encode_utf8(a), encode_utf8(b))
}

/// Keys strictly ascending, hence free of duplicates.
pub open spec fn keys_sorted(keys: Seq<Seq<char>>) -> bool {
    forall|i: int, j: int| 0 <= i < j < keys.len() ==> key_lt(#[trigger] keys[i], #[trigger] keys[j])
}

pub proof fn lemma_bytes_lt_irreflexive(a: Seq<u8>)
    ensures
        !bytes_lt(a, a),
    decreases a.len(),
{
    if a.len() > 0 {
        lemma_bytes_lt_irreflexive(a.drop_first());
    }
}

pub proof fn lemma_bytes_lt_transitive(a: Seq<u8>, b: Seq<u8>, c: Seq<u8>)
    requires
        bytes_lt(a, b),
        bytes_lt(b, c),
    ensures
        bytes_lt(a, c),
    decreases a.len(),
{
    if a.len() > 0 && b.len() > 0 && c.len() > 0 && a[0] == b[0] && b[0] == c[0] {
        lemma_bytes_lt_transitive(a.drop_first(), b.drop_first(), c.drop_first());
    }
}

pub proof fn lemma_key_lt_transitive(a: Seq<char>, b: Seq<char>, c: Seq<char>)
    requires
        key_lt(a, b),
        key_lt(b, c),
    ensures
        key_lt(a, c),
{
    lemma_bytes_lt_transitive(encode_utf8(a), encode_utf8(b), encode_utf8(c));
}

pub proof fn lemma_key_lt_irreflexive(a: Seq<char>)
    ensures
        !key_lt(a, a),
{
    lemma_bytes_lt_irreflexive(encode_utf8(a));
}

/// Compares two byte strings in lexicographic order.
pub fn compare_bytes(a: &[u8], b: &[u8]) -> (r: Ordering)
    ensures
        r == Ordering::Less <==> bytes_lt(a@, b@),
        r == Ordering::Greater <==> bytes_lt(b@, a@),
        r == Ordering::Equal <==> a@ == b@,
{
    let mut i: usize = 0;
    assert(a@.skip(0) =~= a@);
    assert(b@.skip(0) =~= b@);
    while i < a.len() && i < b.len() && a[i] == b[i]
        invariant
            i <= a@.len(),
            i <= b@.len(),
            a@.subrange(0, i as int) == b@.subrange(0, i as int),
            bytes_lt(a@, b@) == bytes_lt(a@.skip(i as int), b@.skip(i as int)),
            bytes_lt(b@, a@) == bytes_lt(b@.skip(i as int), a@.skip(i as int)),
        decreases a@.len() - i,
    {
        assert(a@.skip(i as int).drop_first() =~= a@.skip(i + 1));
        assert(b@.skip(i as int).drop_first() =~= b@.skip(i + 1));
        assert(a@.subrange(0, i + 1) =~= a@.subrange(0, i as int).push(a@[i as int]));
        assert(b@.subrange(0, i + 1) =~= b@.subrange(0, i as int).push(b@[i as int]));
        i = i + 1;
    }
    if i < a.len() && i < b.len() {
        if a[i] < b[i] {
            assert(a@[i as int] != b@[i as int]);
            Ordering::Less
        } else {
            Ordering::Greater
        }
    } else if i < a.len() {
        assert(b@.skip(i as int).len() == 0);
        assert(a@.len() != b@.len());
        Ordering::Greater
    } else if i < b.len() {
        assert(a@.skip(i as int).len() == 0);
        assert(a@.len() != b@.len());
        Ordering::Less
    } else {
        assert(a@ =~= a@.subrange(0, i as int));
        assert(b@ =~= b@.subrange(0, i as int));
        proof {
            lemma_bytes_lt_irreflexive(a@);
        }
        Ordering::Equal
    }
}

/// Distinct positions of ascending keys hold distinct keys.
pub proof fn lemma_sorted_distinct(keys: Seq<Seq<char>>, i: int, j: int)
    requires
        keys_sorted(keys),
        0 <= i < keys.len(),
        0 <= j < keys.len(),
        i != j,
    ensures
        keys[i] != keys[j],
{
    if i < j {
        assert(key_lt(keys[i], keys[j]));
        lemma_key_lt_irreflexive(keys[i]);
    } else {
        assert(key_lt(keys[j], keys[i]));
        lemma_key_lt_irreflexive(keys[j]);
    }
}

/// Inserting a key at the position that `locate` reports keeps the keys
/// ascending.
pub proof fn lemma_insert_sorted(keys: Seq<Seq<char>>, p: int, k: Seq<char>)
    requires
        keys_sorted(keys),
        0 <= p <= keys.len(),
        forall|j: int| 0 <= j < p ==> key_lt(#[trigger] keys[j], k),
        forall|j: int| p <= j < keys.len() ==> key_lt(k, #[trigger] keys[j]),
    ensures
        keys_sorted(keys.insert(p, k)),
{
    let n = keys.insert(p, k);
    assert forall|a: int, b: int| 0 <= a < b < n.len() implies key_lt(#[trigger] n[a], #[trigger] n[b]) by {
        if b < p {
            assert(key_lt(keys[a], keys[b]));
        } else if b == p {
            assert(key_lt(keys[a], k));
        } else if a < p {
            assert(key_lt(keys[a], k));
            assert(key_lt(k, keys[b - 1]));
            lemma_key_lt_transitive(keys[a], k, keys[b - 1]);
        } else if a == p {
            assert(key_lt(k, keys[b - 1]));
        } else {
            assert(key_lt(keys[a - 1], keys[b - 1]));
        }
    }
}

/// Compares two text keys in the order of their UTF-8 bytes.
pub fn compare_keys(a: &str, b: &str) -> (r: Ordering)
    ensures
        r == Ordering::Less <==> key_lt(a@, b@),
        r == Ordering::Greater <==> key_lt(b@, a@),
        r == Ordering::Equal <==> a@ == b@,
{
    let r = compare_bytes(a.as_bytes(), b.as_bytes());
    proof {
        if r == Ordering::Equal {
            encode_utf8_decode_utf8(a@);
            encode_utf8_decode_utf8(b@);
        }
    }
    r
}

/// The views of a vector of strings.
pub open spec fn key_views(keys: Seq<String>) -> Seq<Seq<char>> {
    keys.map_values(|k: String| k@)
}

/// Binary search for `key` among keys held in ascending order: `Ok` with its
/// position where it is present, else `Err` with the position at which it
/// would be inserted to keep the order.
pub fn locate(keys: &Vec<String>, key: &str) -> (r: Result<usize, usize>)
    requires
        keys_sorted(key_views(keys@)),
    ensures
        match r {
            Ok(i) => i < keys@.len() && keys@[i as int]@ == key@,
            Err(i) => {
                &&& i <= keys@.len()
                &&& forall|j: int| 0 <= j < i ==> key_lt(#[trigger] keys@[j]@, key@)
                &&& forall|j: int| i <= j < keys@.len() ==> key_lt(key@, #[trigger] keys@[j]@)
            },
        },
        r is Err ==> forall|j: int| 0 <= j < keys@.len() ==> #[trigger] keys@[j]@ != key@,
{
    let mut lo: usize = 0;
    let mut hi: usize = keys.len();
    while lo < hi
        invariant
            lo <= hi <= keys@.len(),
            keys_sorted(key_views(keys@)),
            forall|j: int| 0 <= j < lo ==> key_lt(#[trigger] keys@[j]@, key@),
            forall|j: int| hi <= j < keys@.len() ==> key_lt(key@, #[trigger] keys@[j]@),
        decreases hi - lo,
    {
        let mid = lo + (hi - lo) / 2;
        match compare_keys(keys[mid].as_str(), key) {
            Ordering::Less => {
                assert forall|j: int| 0 <= j < mid + 1 implies key_lt(#[trigger] keys@[j]@, key@) by {
                    if j < mid {
                        assert(key_lt(key_views(keys@)[j], key_views(keys@)[mid as int]));
                        assert(key_lt(keys@[j]@, keys@[mid as int]@));
                        lemma_key_lt_transitive(keys@[j]@, keys@[mid as int]@, key@);
                    }
                }
                lo = mid + 1;
            },
            Ordering::Greater => {
                assert forall|j: int| mid <= j < keys@.len() implies key_lt(key@, #[trigger] keys@[j]@) by {
                    if j > mid {
                        assert(key_lt(key_views(keys@)[mid as int], key_views(keys@)[j]));
                        assert(key_lt(keys@[mid as int]@, keys@[j]@));
                        lemma_key_lt_transitive(key@, keys@[mid as int]@, keys@[j]@);
                    }
                }
                hi = mid;
            },
            Ordering::Equal => {
                return Ok(mid);
            },
        }
    }
    proof {
        assert forall|j: int| 0 <= j < keys@.len() implies #[trigger] keys@[j]@ != key@ by {
            lemma_key_lt_irreflexive(key@);
        }
    }
    Err(lo)
}

} // verus!
