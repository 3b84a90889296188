//! Laws of the decoder, stated over the spec functions and proved once for
//! all inputs: integer encodings round-trip, deep nesting is always
//! rejected, and decoding is a function of the bytes alone.

use vstd::prelude::*;

use vstd::arithmetic::div_mod::lemma_div_denominator;

use crate::CborError;
use crate::CborValue;
use crate::decoder::MAX_ARRAY_SIZE;
use crate::decoder::MAX_NESTED_DEPTH;
use crate::decoder::spec_be_bytes;
use crate::decoder::spec_decode;
use crate::decoder::spec_decode_array;
use crate::decoder::spec_decode_item;
use crate::decoder::spec_decode_map;
use crate::decoder::spec_read_arg;
use crate::order::lemma_map_insert_wf;
use crate::order::spec_map_insert;
use crate::order::wf_elements;
use crate::order::wf_entries;
use crate::order::wf_value;

verus! {

/// The canonical head encoding of argument `n` under major type `major`:
/// the shortest lead byte plus big-endian extension that carries `n`, per
/// the argument rule that `spec_read_arg` decodes.
pub open spec fn spec_encode_head(major: u64, n: u64) -> Seq<u8> {
    if n < 24 {
        seq![((major * 32 + n) as u8)]
    } else if n < 256 {
        seq![((major * 32 + 24) as u8), ((n as int % 256) as u8)]
    } else if n < 65536 {
        seq![
            ((major * 32 + 25) as u8),
            ((n as int / 256 % 256) as u8),
            ((n as int % 256) as u8),
        ]
    } else if n < 0x1_0000_0000 {
        seq![
            ((major * 32 + 26) as u8),
            ((n as int / 0x100_0000 % 256) as u8),
            ((n as int / 0x1_0000 % 256) as u8),
            ((n as int / 256 % 256) as u8),
            ((n as int % 256) as u8),
        ]
    } else {
        seq![
            ((major * 32 + 27) as u8),
            ((n as int / 0x100_0000_0000_0000 % 256) as u8),
            ((n as int / 0x1_0000_0000_0000 % 256) as u8),
            ((n as int / 0x100_0000_0000 % 256) as u8),
            ((n as int / 0x1_0000_0000 % 256) as u8),
            ((n as int / 0x100_0000 % 256) as u8),
            ((n as int / 0x1_0000 % 256) as u8),
            ((n as int / 256 % 256) as u8),
            ((n as int % 256) as u8),
        ]
    }
}

/// The big-endian extension of a canonical head encoding reads back as the
/// encoded argument.
proof fn lemma_be_of_encoded(major: u64, n: u64)
    requires
        major < 8,
        n >= 24,
    ensures
        n < 256 ==> spec_be_bytes(spec_encode_head(major, n), 1, 1) == n,
        256 <= n < 65536 ==> spec_be_bytes(spec_encode_head(major, n), 1, 2) == n,
        65536 <= n < 0x1_0000_0000 ==> spec_be_bytes(spec_encode_head(major, n), 1, 4) == n,
        0x1_0000_0000 <= n ==> spec_be_bytes(spec_encode_head(major, n), 1, 8) == n,
{
    let s = spec_encode_head(major, n);
    let m = n as int;
    reveal_with_fuel(spec_be_bytes, 9);
    if n < 256 {
        assert(spec_be_bytes(s, 1, 1) == m % 256);
    } else if n < 65536 {
        lemma_div_denominator(m, 256, 256);
        assert(spec_be_bytes(s, 1, 2) == (m / 256 % 256) * 256 + m % 256);
        assert((m / 256 % 256) * 256 + m % 256 == m);
    } else if n < 0x1_0000_0000 {
        lemma_div_denominator(m, 256, 256);
        lemma_div_denominator(m, 0x1_0000, 256);
        lemma_div_denominator(m, 0x100_0000, 256);
        let v1 = m / 0x100_0000 % 256;
        assert(v1 == m / 0x100_0000);
        let v2 = v1 * 256 + m / 0x1_0000 % 256;
        assert(v2 == m / 0x1_0000);
        let v3 = v2 * 256 + m / 256 % 256;
        assert(v3 == m / 256);
        let v4 = v3 * 256 + m % 256;
        assert(v4 == m);
        assert(spec_be_bytes(s, 1, 4) == v4);
    } else {
        lemma_div_denominator(m, 256, 256);
        lemma_div_denominator(m, 0x1_0000, 256);
        lemma_div_denominator(m, 0x100_0000, 256);
        lemma_div_denominator(m, 0x1_0000_0000, 256);
        lemma_div_denominator(m, 0x100_0000_0000, 256);
        lemma_div_denominator(m, 0x1_0000_0000_0000, 256);
        lemma_div_denominator(m, 0x100_0000_0000_0000, 256);
        let v1 = m / 0x100_0000_0000_0000 % 256;
        assert(v1 == m / 0x100_0000_0000_0000);
        let v2 = v1 * 256 + m / 0x1_0000_0000_0000 % 256;
        assert(v2 == m / 0x1_0000_0000_0000);
        let v3 = v2 * 256 + m / 0x100_0000_0000 % 256;
        assert(v3 == m / 0x100_0000_0000);
        let v4 = v3 * 256 + m / 0x1_0000_0000 % 256;
        assert(v4 == m / 0x1_0000_0000);
        let v5 = v4 * 256 + m / 0x100_0000 % 256;
        assert(v5 == m / 0x100_0000);
        let v6 = v5 * 256 + m / 0x1_0000 % 256;
        assert(v6 == m / 0x1_0000);
        let v7 = v6 * 256 + m / 256 % 256;
        assert(v7 == m / 256);
        let v8 = v7 * 256 + m % 256;
        assert(v8 == m);
        assert(spec_be_bytes(s, 1, 8) == v8);
    }
}

/// Reading back the head of a canonical encoding recovers the major type
/// and the encoded argument, consuming the whole encoding.
proof fn lemma_decode_head(major: u64, n: u64)
    requires
        major < 8,
    ensures
        spec_encode_head(major, n).len() >= 1,
        spec_encode_head(major, n)[0] as int / 32 == major,
        spec_read_arg(
            spec_encode_head(major, n),
            1,
            spec_encode_head(major, n)[0] as int % 32,
        ) == Ok::<(u64, int), CborError>((n, spec_encode_head(major, n).len() as int)),
{
    let s = spec_encode_head(major, n);
    if n >= 24 {
        lemma_be_of_encoded(major, n);
    }
}

/// Law: every non-negative integer representable in 64 bits round-trips.
/// Encoding `n` canonically under the unsigned-integer major type and
/// decoding it yields exactly `Integer(n)`.
pub proof fn lemma_unsigned_round_trip(n: u64)
    ensures
        spec_decode(spec_encode_head(0, n)) == Ok::<CborValue, CborError>(CborValue::Integer(n)),
{
    lemma_decode_head(0, n);
}

/// Law: every negative integer representable in 64 bits round-trips.
/// Encoding argument `n` canonically under the negative-integer major type
/// and decoding it yields exactly `SignedInteger(-1 - n)`; for larger
/// arguments the decoder answers `InputValueOutOfRange` instead.
pub proof fn lemma_negative_round_trip(n: u64)
    requires
        n < 0x8000_0000_0000_0000,
    ensures
        spec_decode(spec_encode_head(1, n)) == Ok::<CborValue, CborError>(
            CborValue::SignedInteger((-1 - n as int) as i64),
        ),
{
    lemma_decode_head(1, n);
}

/// The value of `k` big-endian bytes depends only on those `k` bytes.
proof fn lemma_be_bytes_prefix(b1: Seq<u8>, b2: Seq<u8>, pos: int, k: nat)
    requires
        forall|i: int| pos <= i < pos + k ==> b1[i] == #[trigger] b2[i],
    ensures
        spec_be_bytes(b1, pos, k) == spec_be_bytes(b2, pos, k),
    decreases k,
{
    if k > 0 {
        lemma_be_bytes_prefix(b1, b2, pos, (k - 1) as nat);
    }
}

/// Law: a byte string whose declared length is within the configured
/// maximum — the maximum itself included — decodes to exactly its payload;
/// one whose declared length is above it fails with `InputTooLarge`, whatever
/// bytes follow.
pub proof fn lemma_byte_string_limit(payload: Seq<u8>, n: u64)
    ensures
        n == payload.len() && n <= MAX_ARRAY_SIZE ==> spec_decode(
            spec_encode_head(2, n) + payload,
        ) == Ok::<CborValue, CborError>(CborValue::Bytes(payload)),
        n > MAX_ARRAY_SIZE ==> spec_decode(spec_encode_head(2, n) + payload) == Err::<
            CborValue,
            CborError,
        >(CborError::InputTooLarge),
{
    lemma_decode_head(2, n);
    let h = spec_encode_head(2, n);
    let s = h + payload;
    assert(h[0] == s[0]);
    if n >= 24 {
        lemma_be_of_encoded(2, n);
        assert forall|i: int| 1 <= i < h.len() implies h[i] == #[trigger] s[i] by {}
        if n < 256 {
            lemma_be_bytes_prefix(h, s, 1, 1);
        } else if n < 65536 {
            lemma_be_bytes_prefix(h, s, 1, 2);
        } else if n < 0x1_0000_0000 {
            lemma_be_bytes_prefix(h, s, 1, 4);
        } else {
            lemma_be_bytes_prefix(h, s, 1, 8);
        }
    }
    assert(spec_read_arg(s, 1, s[0] as int % 32) == Ok::<(u64, int), CborError>(
        (n, h.len() as int),
    ));
    if n == payload.len() && n <= MAX_ARRAY_SIZE {
        assert(s.subrange(h.len() as int, h.len() + n) =~= payload);
    }
}

/// A chain of `k` singleton-array heads closed by one unsigned integer:
/// an array nested `k` levels deep.
pub open spec fn nested_array_bytes(k: nat) -> Seq<u8> {
    Seq::new(
        k + 1,
        |i: int|
            if i < k {
                0x81u8
            } else {
                0x00u8
            },
    )
}

/// Below every position `i` of the chain that still has more levels left
/// than the depth budget allows, decoding fails with `MalformedInput`.
proof fn lemma_nested_at(k: nat, i: nat, depth: int)
    requires
        i < k,
        k - i > MAX_NESTED_DEPTH as int - depth,
        0 <= depth,
    ensures
        spec_decode_item(nested_array_bytes(k), i as int, depth) == Err::<
            (CborValue, int),
            CborError,
        >(CborError::MalformedInput),
    decreases k - i,
{
    let s = nested_array_bytes(k);
    assert(s[i as int] == 0x81u8);
    assert(spec_read_arg(s, i as int + 1, 1) == Ok::<(u64, int), CborError>((1u64, i as int + 1)));
    if depth < MAX_NESTED_DEPTH {
        lemma_nested_at(k, (i + 1) as nat, depth + 1);
        assert(spec_decode_array(s, i as int + 1, 1, depth + 1, Seq::empty())
            == Err::<(Seq<CborValue>, int), CborError>(CborError::MalformedInput));
    }
}

/// Law: a chain of nested arrays deeper than `MAX_NESTED_DEPTH` is rejected
/// with `MalformedInput`, however long the chain and although it is
/// syntactically well formed.
pub proof fn lemma_deep_nesting_rejected(k: nat)
    requires
        k > MAX_NESTED_DEPTH,
    ensures
        spec_decode(nested_array_bytes(k)) == Err::<CborValue, CborError>(
            CborError::MalformedInput,
        ),
{
    lemma_nested_at(k, 0, 0);
}

/// Every value a successful item decode yields is well formed.
proof fn lemma_decode_item_wf(bytes: Seq<u8>, pos: int, depth: int)
    ensures
        spec_decode_item(bytes, pos, depth) matches Ok((v, p)) ==> wf_value(v),
    decreases MAX_NESTED_DEPTH as int - depth, 0int, 1int,
{
    if 0 <= pos < bytes.len() {
        let major = bytes[pos] as int / 32;
        let info = bytes[pos] as int % 32;
        if major != 7 {
            match spec_read_arg(bytes, pos + 1, info) {
                Ok((arg, p)) => {
                    if major == 4 {
                        assert(wf_elements(Seq::<CborValue>::empty()));
                        assert(wf_value(CborValue::Array(Seq::empty())));
                        if depth < MAX_NESTED_DEPTH {
                            lemma_decode_array_wf(bytes, p, arg as int, depth + 1, Seq::empty());
                            match spec_decode_array(bytes, p, arg as int, depth + 1, Seq::empty()) {
                                Ok((s, p2)) => {
                                    assert(wf_value(CborValue::Array(s)));
                                },
                                Err(_) => {},
                            }
                        }
                    } else if major == 5 {
                        assert(wf_entries(Seq::<(CborValue, CborValue)>::empty()));
                        assert(wf_value(CborValue::Mapping(Seq::empty())));
                        if depth < MAX_NESTED_DEPTH {
                            lemma_decode_map_wf(bytes, p, arg as int, depth + 1, Seq::empty());
                            match spec_decode_map(bytes, p, arg as int, depth + 1, Seq::empty()) {
                                Ok((s, p2)) => {
                                    assert(wf_value(CborValue::Mapping(s)));
                                },
                                Err(_) => {},
                            }
                        }
                    } else if major == 6 && depth < MAX_NESTED_DEPTH {
                        lemma_decode_item_wf(bytes, p, depth + 1);
                        match spec_decode_item(bytes, p, depth + 1) {
                            Ok((inner, p2)) => {
                                assert(wf_value(CborValue::Tag(arg, Box::new(inner))));
                            },
                            Err(_) => {},
                        }
                    }
                },
                Err(_) => {},
            }
        }
    }
    match spec_decode_item(bytes, pos, depth) {
        Ok((v, p2)) => {
            assert(wf_value(v));
        },
        Err(_) => {},
    }
}

/// Elements decoded for an array stay well formed, given that the elements
/// already collected are.
proof fn lemma_decode_array_wf(
    bytes: Seq<u8>,
    pos: int,
    count: int,
    depth: int,
    acc: Seq<CborValue>,
)
    requires
        wf_elements(acc),
    ensures
        spec_decode_array(bytes, pos, count, depth, acc) matches Ok((s, p)) ==> wf_elements(s),
    decreases MAX_NESTED_DEPTH as int - depth, count, 0int,
{
    if count > 0 {
        match spec_decode_item(bytes, pos, depth) {
            Ok((v, p)) => {
                lemma_decode_item_wf(bytes, pos, depth);
                let acc2 = acc.push(v);
                assert forall|i: int| 0 <= i < acc2.len() implies wf_value(
                    #[trigger] acc2[i],
                ) by {
                    if i < acc.len() {
                        assert(acc2[i] == acc[i]);
                    } else {
                        assert(acc2[i] == v);
                    }
                }
                lemma_decode_array_wf(bytes, p, count - 1, depth, acc2);
            },
            Err(_) => {},
        }
    }
}

/// Pairs decoded for a map keep the collected pairs sorted by key and well
/// formed, given that the pairs already collected are.
proof fn lemma_decode_map_wf(
    bytes: Seq<u8>,
    pos: int,
    count: int,
    depth: int,
    acc: Seq<(CborValue, CborValue)>,
)
    requires
        wf_entries(acc),
    ensures
        spec_decode_map(bytes, pos, count, depth, acc) matches Ok((s, p)) ==> wf_entries(s),
    decreases MAX_NESTED_DEPTH as int - depth, count, 0int,
{
    if count > 0 {
        match spec_decode_item(bytes, pos, depth) {
            Ok((k, p1)) => {
                lemma_decode_item_wf(bytes, pos, depth);
                match spec_decode_item(bytes, p1, depth) {
                    Ok((v, p2)) => {
                        lemma_decode_item_wf(bytes, p1, depth);
                        lemma_map_insert_wf(acc, k, v);
                        match spec_map_insert(acc, k, v) {
                            Ok(acc2) => {
                                lemma_decode_map_wf(bytes, p2, count - 1, depth, acc2);
                            },
                            Err(_) => {},
                        }
                    },
                    Err(_) => {},
                }
            },
            Err(_) => {},
        }
    }
}

/// Law: every value the decoder returns is well formed — each mapping
/// anywhere in it holds its pairs in strictly increasing key order, so no
/// map key is ever repeated.
pub proof fn lemma_decode_well_formed(bytes: Seq<u8>)
    ensures
        spec_decode(bytes) matches Ok(v) ==> wf_value(v),
{
    lemma_decode_item_wf(bytes, 0, 0);
}

/// A chain of `k` tag heads closed by one unsigned integer: a tag nested
/// `k` levels deep.
pub open spec fn nested_tag_bytes(k: nat) -> Seq<u8> {
    Seq::new(
        k + 1,
        |i: int|
            if i < k {
                0xc6u8
            } else {
                0x00u8
            },
    )
}

/// Below every position `i` of the tag chain that still has more levels
/// left than the depth budget allows, decoding fails with `MalformedInput`.
proof fn lemma_nested_tag_at(k: nat, i: nat, depth: int)
    requires
        i < k,
        k - i > MAX_NESTED_DEPTH as int - depth,
        0 <= depth,
    ensures
        spec_decode_item(nested_tag_bytes(k), i as int, depth) == Err::<
            (CborValue, int),
            CborError,
        >(CborError::MalformedInput),
    decreases k - i,
{
    let s = nested_tag_bytes(k);
    assert(s[i as int] == 0xc6u8);
    assert(spec_read_arg(s, i as int + 1, 6) == Ok::<(u64, int), CborError>((6u64, i as int + 1)));
    if depth < MAX_NESTED_DEPTH {
        lemma_nested_tag_at(k, (i + 1) as nat, depth + 1);
    }
}

/// Law: a chain of nested tags deeper than `MAX_NESTED_DEPTH` is rejected
/// with `MalformedInput`, however long the chain and although it is
/// syntactically well formed.
pub proof fn lemma_deep_tag_nesting_rejected(k: nat)
    requires
        k > MAX_NESTED_DEPTH,
    ensures
        spec_decode(nested_tag_bytes(k)) == Err::<CborValue, CborError>(
            CborError::MalformedInput,
        ),
{
    lemma_nested_tag_at(k, 0, 0);
}

/// A chain of `k` singleton-map heads, each with the key `0`, closed by one
/// empty map: a map nested `k` levels deep in its values.
pub open spec fn nested_map_bytes(k: nat) -> Seq<u8> {
    Seq::new(
        2 * k + 1,
        |i: int|
            if i == 2 * k {
                0xa0u8
            } else if i % 2 == 0 {
                0xa1u8
            } else {
                0x00u8
            },
    )
}

/// Below every level `i` of the map chain that still has more levels left
/// than the depth budget allows, decoding fails with `MalformedInput`.
proof fn lemma_nested_map_at(k: nat, i: nat, depth: int)
    requires
        i < k,
        k - i > MAX_NESTED_DEPTH as int - depth,
        0 <= depth,
    ensures
        spec_decode_item(nested_map_bytes(k), 2 * i as int, depth) == Err::<
            (CborValue, int),
            CborError,
        >(CborError::MalformedInput),
    decreases k - i,
{
    let s = nested_map_bytes(k);
    assert(s[2 * i as int] == 0xa1u8);
    assert(spec_read_arg(s, 2 * i as int + 1, 1) == Ok::<(u64, int), CborError>(
        (1u64, 2 * i as int + 1),
    ));
    if depth < MAX_NESTED_DEPTH {
        assert(s[2 * i as int + 1] == 0x00u8);
        assert(spec_decode_item(s, 2 * i as int + 1, depth + 1) == Ok::<
            (CborValue, int),
            CborError,
        >((CborValue::Integer(0), 2 * i as int + 2)));
        lemma_nested_map_at(k, (i + 1) as nat, depth + 1);
        assert(2 * ((i + 1) as nat) as int == 2 * i as int + 2);
        assert(spec_decode_map(s, 2 * i as int + 1, 1, depth + 1, Seq::empty()) == Err::<
            (Seq<(CborValue, CborValue)>, int),
            CborError,
        >(CborError::MalformedInput));
    }
}

/// Law: a chain of maps nested deeper than `MAX_NESTED_DEPTH` in their
/// values is rejected with `MalformedInput`, however long the chain and
/// although it is syntactically well formed.
pub proof fn lemma_deep_map_nesting_rejected(k: nat)
    requires
        k > MAX_NESTED_DEPTH,
    ensures
        spec_decode(nested_map_bytes(k)) == Err::<CborValue, CborError>(
            CborError::MalformedInput,
        ),
{
    lemma_nested_map_at(k, 0, 0);
}

/// Law: decoding is a function of the input bytes alone — the decoder keeps
/// no state across calls, so running it again on the same bytes yields the
/// same value or the same error kind.
pub proof fn lemma_decode_deterministic(b1: Seq<u8>, b2: Seq<u8>)
    requires
        b1 == b2,
    ensures
        spec_decode(b1) == spec_decode(b2),
{
}

} // verus!
