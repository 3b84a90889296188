//! A deterministic total order over values.
//!
//! Map keys must be comparable and unique, so the decoder needs a total order
//! over `CborType`.  The order is an implementation choice, not mandated by
//! the format: variants are ranked first, and payloads of matching variants
//! are compared lexicographically.  `spec_cmp` is the order on models;
//! `cmp_values` computes it on values.  `map_insert` keeps a vector of pairs
//! sorted by that order over the keys and rejects a repeated key.

use vstd::prelude::*;

use crate::CborError;
use crate::CborType;
use crate::CborValue;
use crate::entries_view;
use crate::seq_view;
use crate::view_of;

verus! {

broadcast use vstd::std_specs::vec::axiom_vec_index_decreases, vstd::seq::axiom_seq_index_decreases;

/// The fixed rank of each variant; ranks are compared before payloads.
pub open spec fn spec_rank(v: CborValue) -> int {
    match v {
        CborValue::Integer(_) => 0,
        CborValue::SignedInteger(_) => 1,
        CborValue::Bytes(_) => 2,
        CborValue::Array(_) => 3,
        CborValue::Mapping(_) => 4,
        CborValue::Tag(_, _) => 5,
        CborValue::Null => 6,
    }
}

/// Three-way comparison of two integers: -1, 0 or 1.
pub open spec fn spec_cmp_int(x: int, y: int) -> int {
    if x < y {
        -1
    } else if x > y {
        1
    } else {
        0
    }
}

/// Lexicographic three-way comparison of two byte sequences from index `i` on.
pub open spec fn spec_cmp_bytes(x: Seq<u8>, y: Seq<u8>, i: int) -> int
    decreases x.len() - i,
{
    if i < 0 || i >= x.len() || i >= y.len() {
        spec_cmp_int(x.len() as int, y.len() as int)
    } else if x[i] != y[i] {
        spec_cmp_int(x[i] as int, y[i] as int)
    } else {
        spec_cmp_bytes(x, y, i + 1)
    }
}

/// The total order over models: -1, 0 or 1, by rank and then by payload.
pub open spec fn spec_cmp(a: CborValue, b: CborValue) -> int
    decreases a, 0int, 0int,
{
    if spec_rank(a) != spec_rank(b) {
        spec_cmp_int(spec_rank(a), spec_rank(b))
    } else {
        match (a, b) {
            (CborValue::Integer(x), CborValue::Integer(y)) => spec_cmp_int(x as int, y as int),
            (CborValue::SignedInteger(x), CborValue::SignedInteger(y)) => spec_cmp_int(
                x as int,
                y as int,
            ),
            (CborValue::Bytes(x), CborValue::Bytes(y)) => spec_cmp_bytes(x, y, 0),
            (CborValue::Array(x), CborValue::Array(y)) => spec_cmp_seqs(x, y, 0),
            (CborValue::Mapping(x), CborValue::Mapping(y)) => spec_cmp_entries(x, y, 0),
            (CborValue::Tag(tx, bx), CborValue::Tag(ty, by)) => if tx != ty {
                spec_cmp_int(tx as int, ty as int)
            } else {
                spec_cmp(*bx, *by)
            },
            _ => 0,
        }
    }
}

/// Lexicographic three-way comparison of two value sequences from index `i` on.
pub open spec fn spec_cmp_seqs(x: Seq<CborValue>, y: Seq<CborValue>, i: int) -> int
    decreases x, x.len() - i, 1int,
{
    if i < 0 || i >= x.len() || i >= y.len() {
        spec_cmp_int(x.len() as int, y.len() as int)
    } else {
        let c = spec_cmp(x[i], y[i]);
        if c != 0 {
            c
        } else {
            spec_cmp_seqs(x, y, i + 1)
        }
    }
}

/// Lexicographic three-way comparison of two pair sequences from index `i` on,
/// each pair by key and then by value.
pub open spec fn spec_cmp_entries(
    x: Seq<(CborValue, CborValue)>,
    y: Seq<(CborValue, CborValue)>,
    i: int,
) -> int
    decreases x, x.len() - i, 1int,
{
    if i < 0 || i >= x.len() || i >= y.len() {
        spec_cmp_int(x.len() as int, y.len() as int)
    } else {
        let ck = spec_cmp(x[i].0, y[i].0);
        if ck != 0 {
            ck
        } else {
            let cv = spec_cmp(x[i].1, y[i].1);
            if cv != 0 {
                cv
            } else {
                spec_cmp_entries(x, y, i + 1)
            }
        }
    }
}

/// The rank of a value's variant.
fn rank_of(v: &CborType) -> (r: u8)
    ensures
        r as int == spec_rank(view_of(*v)),
{
    match v {
        CborType::Integer(_) => 0,
        CborType::SignedInteger(_) => 1,
        CborType::Bytes(_) => 2,
        CborType::Array(_) => 3,
        CborType::Mapping(_) => 4,
        CborType::Tag(_, _) => 5,
        CborType::Null => 6,
    }
}

/// Three-way comparison of two `u64`s.
fn cmp_u64(x: u64, y: u64) -> (r: i8)
    ensures
        r as int == spec_cmp_int(x as int, y as int),
{
    if x < y {
        -1
    } else if x > y {
        1
    } else {
        0
    }
}

/// Three-way comparison of two `i64`s.
fn cmp_i64(x: i64, y: i64) -> (r: i8)
    ensures
        r as int == spec_cmp_int(x as int, y as int),
{
    if x < y {
        -1
    } else if x > y {
        1
    } else {
        0
    }
}

/// Lexicographic three-way comparison of two byte vectors.
fn cmp_bytes(x: &Vec<u8>, y: &Vec<u8>) -> (r: i8)
    ensures
        r as int == spec_cmp_bytes(x@, y@, 0),
{
    let mut i: usize = 0;
    loop
        invariant
            i <= x.len(),
            i <= y.len(),
            spec_cmp_bytes(x@, y@, 0) == spec_cmp_bytes(x@, y@, i as int),
        decreases x.len() - i,
    {
        if i >= x.len() || i >= y.len() {
            return if x.len() < y.len() {
                -1
            } else if x.len() > y.len() {
                1
            } else {
                0
            };
        }
        if x[i] != y[i] {
            return if x[i] < y[i] {
                -1
            } else {
                1
            };
        }
        i = i + 1;
    }
}

/// Computes the total order `spec_cmp` on two values.
pub fn cmp_values(a: &CborType, b: &CborType) -> (r: i8)
    ensures
        r as int == spec_cmp(view_of(*a), view_of(*b)),
    decreases *a, 0int,
{
    let ra = rank_of(a);
    let rb = rank_of(b);
    if ra < rb {
        return -1;
    }
    if ra > rb {
        return 1;
    }
    match (a, b) {
        (CborType::Integer(x), CborType::Integer(y)) => cmp_u64(*x, *y),
        (CborType::SignedInteger(x), CborType::SignedInteger(y)) => cmp_i64(*x, *y),
        (CborType::Bytes(x), CborType::Bytes(y)) => cmp_bytes(x, y),
        (CborType::Array(x), CborType::Array(y)) => {
            proof {
                crate::lemma_view_of_array(*x);
                crate::lemma_view_of_array(*y);
            }
            cmp_arrays(x, y)
        },
        (CborType::Mapping(x), CborType::Mapping(y)) => {
            proof {
                crate::lemma_view_of_mapping(*x);
                crate::lemma_view_of_mapping(*y);
            }
            cmp_mappings(x, y)
        },
        (CborType::Tag(tx, bx), CborType::Tag(ty, by)) => {
            if *tx != *ty {
                cmp_u64(*tx, *ty)
            } else {
                cmp_values(bx, by)
            }
        },
        (CborType::Null, CborType::Null) => 0,
        _ => {
            proof {
                assert(false);
            }
            0
        },
    }
}

/// Lexicographic three-way comparison of two element vectors.
fn cmp_arrays(x: &Vec<CborType>, y: &Vec<CborType>) -> (r: i8)
    ensures
        r as int == spec_cmp_seqs(seq_view(x@), seq_view(y@), 0),
    decreases *x, 1int,
{
    let mut i: usize = 0;
    loop
        invariant
            i <= x.len(),
            i <= y.len(),
            spec_cmp_seqs(seq_view(x@), seq_view(y@), 0) == spec_cmp_seqs(
                seq_view(x@),
                seq_view(y@),
                i as int,
            ),
        decreases x.len() - i,
    {
        if i >= x.len() || i >= y.len() {
            return if x.len() < y.len() {
                -1
            } else if x.len() > y.len() {
                1
            } else {
                0
            };
        }
        let c = cmp_values(&x[i], &y[i]);
        if c != 0 {
            return c;
        }
        i = i + 1;
    }
}

/// Lexicographic three-way comparison of two pair vectors.
fn cmp_mappings(x: &Vec<(CborType, CborType)>, y: &Vec<(CborType, CborType)>) -> (r: i8)
    ensures
        r as int == spec_cmp_entries(entries_view(x@), entries_view(y@), 0),
    decreases *x, 1int,
{
    let mut i: usize = 0;
    loop
        invariant
            i <= x.len(),
            i <= y.len(),
            spec_cmp_entries(entries_view(x@), entries_view(y@), 0) == spec_cmp_entries(
                entries_view(x@),
                entries_view(y@),
                i as int,
            ),
        decreases x.len() - i,
    {
        if i >= x.len() || i >= y.len() {
            return if x.len() < y.len() {
                -1
            } else if x.len() > y.len() {
                1
            } else {
                0
            };
        }
        let ck = cmp_values(&x[i].0, &y[i].0);
        if ck != 0 {
            return ck;
        }
        let cv = cmp_values(&x[i].1, &y[i].1);
        if cv != 0 {
            return cv;
        }
        i = i + 1;
    }
}

/// Insertion of a pair into a key-sorted pair sequence, scanning from index
/// `i`: the pair goes in front of the first key it is below, and a key equal
/// to one already present is a `DuplicateMapKey`.
pub open spec fn spec_map_insert_from(
    entries: Seq<(CborValue, CborValue)>,
    k: CborValue,
    v: CborValue,
    i: int,
) -> Result<Seq<(CborValue, CborValue)>, CborError>
    decreases entries.len() - i,
{
    if i < 0 || i >= entries.len() {
        Ok(entries.push((k, v)))
    } else {
        let c = spec_cmp(k, entries[i].0);
        if c == 0 {
            Err(CborError::DuplicateMapKey)
        } else if c < 0 {
            Ok(entries.insert(i, (k, v)))
        } else {
            spec_map_insert_from(entries, k, v, i + 1)
        }
    }
}

/// Insertion of a pair into a key-sorted pair sequence.
pub open spec fn spec_map_insert(
    entries: Seq<(CborValue, CborValue)>,
    k: CborValue,
    v: CborValue,
) -> Result<Seq<(CborValue, CborValue)>, CborError> {
    spec_map_insert_from(entries, k, v, 0)
}

/// Swapping the operands of the total order flips its sign.
pub proof fn lemma_cmp_antisym(a: CborValue, b: CborValue)
    ensures
        spec_cmp(a, b) == -spec_cmp(b, a),
    decreases a, 0int, 0int,
{
    if spec_rank(a) == spec_rank(b) {
        match (a, b) {
            (CborValue::Bytes(x), CborValue::Bytes(y)) => {
                lemma_cmp_bytes_antisym(x, y, 0);
            },
            (CborValue::Array(x), CborValue::Array(y)) => {
                lemma_cmp_seqs_antisym(x, y, 0);
            },
            (CborValue::Mapping(x), CborValue::Mapping(y)) => {
                lemma_cmp_entries_antisym(x, y, 0);
            },
            (CborValue::Tag(tx, bx), CborValue::Tag(ty, by)) => {
                if tx == ty {
                    lemma_cmp_antisym(*bx, *by);
                }
            },
            _ => {},
        }
    }
}

proof fn lemma_cmp_bytes_antisym(x: Seq<u8>, y: Seq<u8>, i: int)
    ensures
        spec_cmp_bytes(x, y, i) == -spec_cmp_bytes(y, x, i),
    decreases x.len() - i,
{
    if 0 <= i < x.len() && i < y.len() && x[i] == y[i] {
        lemma_cmp_bytes_antisym(x, y, i + 1);
    }
}

proof fn lemma_cmp_seqs_antisym(x: Seq<CborValue>, y: Seq<CborValue>, i: int)
    ensures
        spec_cmp_seqs(x, y, i) == -spec_cmp_seqs(y, x, i),
    decreases x, x.len() - i, 1int,
{
    if 0 <= i < x.len() && i < y.len() {
        lemma_cmp_antisym(x[i], y[i]);
        if spec_cmp(x[i], y[i]) == 0 {
            lemma_cmp_seqs_antisym(x, y, i + 1);
        }
    }
}

proof fn lemma_cmp_entries_antisym(
    x: Seq<(CborValue, CborValue)>,
    y: Seq<(CborValue, CborValue)>,
    i: int,
)
    ensures
        spec_cmp_entries(x, y, i) == -spec_cmp_entries(y, x, i),
    decreases x, x.len() - i, 1int,
{
    if 0 <= i < x.len() && i < y.len() {
        lemma_cmp_antisym(x[i].0, y[i].0);
        if spec_cmp(x[i].0, y[i].0) == 0 {
            lemma_cmp_antisym(x[i].1, y[i].1);
            if spec_cmp(x[i].1, y[i].1) == 0 {
                lemma_cmp_entries_antisym(x, y, i + 1);
            }
        }
    }
}

/// Pairs in strictly increasing key order: what a decoded map looks like.
/// Strict order makes the keys pairwise distinct.
pub open spec fn sorted_entries(s: Seq<(CborValue, CborValue)>) -> bool {
    forall|i: int| 0 <= i < s.len() - 1 ==> spec_cmp(#[trigger] s[i].0, s[i + 1].0) < 0
}

/// A well-formed model: every mapping anywhere in the value holds its pairs
/// in strictly increasing key order, so no key is repeated.
pub open spec fn wf_value(v: CborValue) -> bool
    decreases v, 0int,
{
    match v {
        CborValue::Integer(_) => true,
        CborValue::SignedInteger(_) => true,
        CborValue::Bytes(_) => true,
        CborValue::Array(s) => wf_elements(s),
        CborValue::Mapping(s) => wf_entries(s),
        CborValue::Tag(_, inner) => wf_value(*inner),
        CborValue::Null => true,
    }
}

/// Every element of the sequence is well formed.
pub open spec fn wf_elements(s: Seq<CborValue>) -> bool
    decreases s, 1int,
{
    forall|i: int| 0 <= i < s.len() ==> wf_value(#[trigger] s[i])
}

/// The pairs stand in strictly increasing key order and each key and value
/// is well formed.
pub open spec fn wf_entries(s: Seq<(CborValue, CborValue)>) -> bool
    decreases s, 1int,
{
    &&& sorted_entries(s)
    &&& forall|i: int| 0 <= i < s.len() ==> wf_value(#[trigger] s[i].0) && wf_value(s[i].1)
}

proof fn lemma_map_insert_from_sorted(
    entries: Seq<(CborValue, CborValue)>,
    k: CborValue,
    v: CborValue,
    i: int,
)
    requires
        sorted_entries(entries),
        0 <= i <= entries.len(),
        forall|j: int| 0 <= j < i ==> spec_cmp(k, #[trigger] entries[j].0) > 0,
    ensures
        spec_map_insert_from(entries, k, v, i) matches Ok(s) ==> sorted_entries(s),
    decreases entries.len() - i,
{
    if i >= entries.len() {
        let s = entries.push((k, v));
        assert forall|m: int| 0 <= m < s.len() - 1 implies spec_cmp(#[trigger] s[m].0, s[m + 1].0)
            < 0 by {
            if m < entries.len() - 1 {
                assert(s[m] == entries[m] && s[m + 1] == entries[m + 1]);
            } else {
                assert(s[m] == entries[m] && s[m + 1] == (k, v));
                lemma_cmp_antisym(k, entries[m].0);
            }
        }
    } else {
        let c = spec_cmp(k, entries[i].0);
        if c < 0 {
            let s = entries.insert(i, (k, v));
            assert forall|m: int| 0 <= m < s.len() - 1 implies spec_cmp(
                #[trigger] s[m].0,
                s[m + 1].0,
            ) < 0 by {
                if m + 1 < i {
                    assert(s[m] == entries[m] && s[m + 1] == entries[m + 1]);
                } else if m + 1 == i {
                    assert(s[m] == entries[m] && s[m + 1] == (k, v));
                    lemma_cmp_antisym(k, entries[m].0);
                } else if m == i {
                    assert(s[m] == (k, v) && s[m + 1] == entries[m]);
                } else {
                    assert(s[m] == entries[m - 1] && s[m + 1] == entries[m]);
                }
            }
        } else if c > 0 {
            lemma_map_insert_from_sorted(entries, k, v, i + 1);
        }
    }
}

/// Law: inserting into a map whose pairs stand in strictly increasing key
/// order leaves them in that order.
pub proof fn lemma_map_insert_sorted(
    entries: Seq<(CborValue, CborValue)>,
    k: CborValue,
    v: CborValue,
)
    requires
        sorted_entries(entries),
    ensures
        spec_map_insert(entries, k, v) matches Ok(s) ==> sorted_entries(s),
{
    lemma_map_insert_from_sorted(entries, k, v, 0);
}

proof fn lemma_map_insert_from_facts(
    entries: Seq<(CborValue, CborValue)>,
    k: CborValue,
    v: CborValue,
    i: int,
)
    requires
        0 <= i <= entries.len(),
    ensures
        spec_map_insert_from(entries, k, v, i) is Err ==> exists|j: int|
            i <= j < entries.len() && spec_cmp(k, #[trigger] entries[j].0) == 0,
        spec_map_insert_from(entries, k, v, i) matches Ok(s) ==> {
            &&& s.len() == entries.len() + 1
            &&& s.contains((k, v))
            &&& forall|j: int| 0 <= j < entries.len() ==> s.contains(#[trigger] entries[j])
            &&& forall|m: int|
                0 <= m < s.len() ==> (#[trigger] s[m] == (k, v) || entries.contains(s[m]))
        },
    decreases entries.len() - i,
{
    if i >= entries.len() {
        let s = entries.push((k, v));
        assert(s[entries.len() as int] == (k, v));
        assert forall|j: int| 0 <= j < entries.len() implies s.contains(#[trigger] entries[j]) by {
            assert(s[j] == entries[j]);
        }
        assert forall|m: int| 0 <= m < s.len() implies (#[trigger] s[m] == (k, v)
            || entries.contains(s[m])) by {
            if m < entries.len() {
                assert(s[m] == entries[m]);
            }
        }
    } else {
        let c = spec_cmp(k, entries[i].0);
        if c == 0 {
        } else if c < 0 {
            let s = entries.insert(i, (k, v));
            assert(s[i] == (k, v));
            assert forall|j: int| 0 <= j < entries.len() implies s.contains(
                #[trigger] entries[j],
            ) by {
                if j < i {
                    assert(s[j] == entries[j]);
                } else {
                    assert(s[j + 1] == entries[j]);
                }
            }
            assert forall|m: int| 0 <= m < s.len() implies (#[trigger] s[m] == (k, v)
                || entries.contains(s[m])) by {
                if m < i {
                    assert(s[m] == entries[m]);
                } else if m > i {
                    assert(s[m] == entries[m - 1]);
                }
            }
        } else {
            lemma_map_insert_from_facts(entries, k, v, i + 1);
        }
    }
}

/// Law: inserting a pair into a map fails only when its key equals a key
/// already present; when no present key equals it, the insertion succeeds
/// and the result holds the new pair together with every pair already there.
pub proof fn lemma_map_insert_keeps_pairs(
    entries: Seq<(CborValue, CborValue)>,
    k: CborValue,
    v: CborValue,
)
    ensures
        spec_map_insert(entries, k, v) is Err ==> exists|j: int|
            0 <= j < entries.len() && spec_cmp(k, #[trigger] entries[j].0) == 0,
        spec_map_insert(entries, k, v) matches Ok(s) ==> {
            &&& s.len() == entries.len() + 1
            &&& s.contains((k, v))
            &&& forall|j: int| 0 <= j < entries.len() ==> s.contains(#[trigger] entries[j])
            &&& forall|m: int|
                0 <= m < s.len() ==> (#[trigger] s[m] == (k, v) || entries.contains(s[m]))
        },
{
    lemma_map_insert_from_facts(entries, k, v, 0);
}

/// Law: inserting a well-formed pair into a well-formed map leaves the map
/// well formed whenever the insertion succeeds.
#[verifier::rlimit(100)]
pub proof fn lemma_map_insert_wf(entries: Seq<(CborValue, CborValue)>, k: CborValue, v: CborValue)
    requires
        wf_entries(entries),
        wf_value(k),
        wf_value(v),
    ensures
        spec_map_insert(entries, k, v) matches Ok(s) ==> wf_entries(s),
{
    lemma_map_insert_sorted(entries, k, v);
    lemma_map_insert_keeps_pairs(entries, k, v);
    match spec_map_insert(entries, k, v) {
        Ok(s) => {
            assert forall|i: int| 0 <= i < s.len() implies wf_value(#[trigger] s[i].0)
                && wf_value(s[i].1) by {
                if s[i] == (k, v) {
                } else {
                    assert(entries.contains(s[i]));
                    let j = choose|j: int| 0 <= j < entries.len() && entries[j] == s[i];
                    assert(wf_value(entries[j].0) && wf_value(entries[j].1));
                }
            }
        },
        Err(_) => {},
    }
}

/// Inserts a key/value pair into a key-sorted pair vector, keeping it sorted;
/// fails with `DuplicateMapKey` when the key is already present.
pub fn map_insert(entries: &mut Vec<(CborType, CborType)>, key: CborType, value: CborType) -> (r:
    Result<(), CborError>)
    ensures
        match r {
            Ok(_) => spec_map_insert(
                entries_view(old(entries)@),
                view_of(key),
                view_of(value),
            ) == Ok::<_, CborError>(entries_view(final(entries)@)),
            Err(e) => {
                &&& spec_map_insert(entries_view(old(entries)@), view_of(key), view_of(value))
                    == Err::<Seq<(CborValue, CborValue)>, _>(e)
                &&& final(entries)@ == old(entries)@
            },
        },
{
    let ghost orig = entries_view(entries@);
    let ghost kv = view_of(key);
    let ghost vv = view_of(value);
    let mut i: usize = 0;
    loop
        invariant
            i <= entries.len(),
            entries@ == old(entries)@,
            orig == entries_view(entries@),
            kv == view_of(key),
            vv == view_of(value),
            spec_map_insert(orig, kv, vv) == spec_map_insert_from(orig, kv, vv, i as int),
        decreases entries.len() - i,
    {
        if i >= entries.len() {
            entries.push((key, value));
            proof {
                assert(entries_view(entries@) =~= orig.push((kv, vv)));
            }
            return Ok(());
        }
        let c = cmp_values(&key, &entries[i].0);
        if c == 0 {
            return Err(CborError::DuplicateMapKey);
        }
        if c < 0 {
            entries.insert(i, (key, value));
            proof {
                assert(entries_view(entries@) =~= orig.insert(i as int, (kv, vv)));
            }
            return Ok(());
        }
        i = i + 1;
    }
}

} // verus!
