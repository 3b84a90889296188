//! The decoding engine: byte cursor, argument decoder, item decoder.
//!
//! `spec_decode` and the spec functions it leans on are the mathematical
//! description of the format; `decode` is the executable decoder, proved to
//! return exactly what `spec_decode` says for every input.
//!
//! Trailing bytes after a complete top-level item are ignored: `decode`
//! validates "at least one item", not "exactly one item, nothing more".

use vstd::prelude::*;

use crate::CborError;
use crate::CborType;
use crate::CborValue;
use crate::entries_view;
use crate::lemma_view_of_array;
use crate::lemma_view_of_mapping;
use crate::order::map_insert;
use crate::order::spec_map_insert;
use crate::order::wf_value;
use crate::seq_view;
use crate::view_of;

verus! {

/// Upper bound on a declared byte-string length or array element count:
/// a declared size above it is rejected before any allocation.
pub const MAX_ARRAY_SIZE: usize = 128 * 1024;

/// Upper bound on the nesting depth of arrays, maps and tags: a conservative
/// margin so that decoding can never exhaust the native call stack, whatever
/// the input and whatever stack the host grants.
pub const MAX_NESTED_DEPTH: usize = 128;

/// The value of the `k` big-endian bytes of `bytes` starting at `pos`.
pub open spec fn spec_be_bytes(bytes: Seq<u8>, pos: int, k: nat) -> int
    decreases k,
{
    if k == 0 {
        0
    } else {
        spec_be_bytes(bytes, pos, (k - 1) as nat) * 256 + bytes[pos + k - 1]
    }
}

/// 256 to the power `k`.
pub open spec fn pow256(k: nat) -> int
    decreases k,
{
    if k == 0 {
        1
    } else {
        256 * pow256((k - 1) as nat)
    }
}

/// Powers of 256 are positive.
pub proof fn lemma_pow256_pos(k: nat)
    ensures
        pow256(k) >= 1,
    decreases k,
{
    if k > 0 {
        lemma_pow256_pos((k - 1) as nat);
    }
}

/// Powers of 256 grow with the exponent.
pub proof fn lemma_pow256_le(a: nat, b: nat)
    requires
        a <= b,
    ensures
        pow256(a) <= pow256(b),
    decreases b,
{
    if a < b {
        lemma_pow256_le(a, (b - 1) as nat);
        lemma_pow256_pos((b - 1) as nat);
    }
}

/// `k` big-endian bytes hold a value in `0 .. 256^k`.
pub proof fn lemma_be_bytes_bound(bytes: Seq<u8>, pos: int, k: nat)
    ensures
        0 <= spec_be_bytes(bytes, pos, k) < pow256(k),
    decreases k,
{
    if k > 0 {
        lemma_be_bytes_bound(bytes, pos, (k - 1) as nat);
    }
}

/// The argument carried by a lead byte whose additional information is
/// `info`, with `pos` the position just after the lead byte: values up to 23
/// stand for themselves, 24 to 27 introduce a 1, 2, 4 or 8 byte big-endian
/// extension, and 28 to 31 (reserved, or the unsupported indefinite-length
/// marker) are malformed.  Returns the argument and the position after it.
pub open spec fn spec_read_arg(bytes: Seq<u8>, pos: int, info: int) -> Result<
    (u64, int),
    CborError,
> {
    if 0 <= info <= 23 {
        Ok((info as u64, pos))
    } else if info == 24 {
        if pos + 1 <= bytes.len() {
            Ok((spec_be_bytes(bytes, pos, 1) as u64, pos + 1))
        } else {
            Err(CborError::TruncatedInput)
        }
    } else if info == 25 {
        if pos + 2 <= bytes.len() {
            Ok((spec_be_bytes(bytes, pos, 2) as u64, pos + 2))
        } else {
            Err(CborError::TruncatedInput)
        }
    } else if info == 26 {
        if pos + 4 <= bytes.len() {
            Ok((spec_be_bytes(bytes, pos, 4) as u64, pos + 4))
        } else {
            Err(CborError::TruncatedInput)
        }
    } else if info == 27 {
        if pos + 8 <= bytes.len() {
            Ok((spec_be_bytes(bytes, pos, 8) as u64, pos + 8))
        } else {
            Err(CborError::TruncatedInput)
        }
    } else {
        Err(CborError::MalformedInput)
    }
}

/// A bounds-checked forward-only reader over the input slice; the sole
/// source of truth for "bytes remaining".
pub struct Cursor<'a> {
    pub bytes: &'a [u8],
    pub pos: usize,
}

impl<'a> Cursor<'a> {
    /// The read position never passes the end of the input.
    pub open spec fn wf(self) -> bool {
        self.pos <= self.bytes@.len()
    }

    /// A fresh cursor at the start of `bytes`.
    pub fn new(bytes: &'a [u8]) -> (r: Cursor<'a>)
        ensures
            r.bytes@ == bytes@,
            r.pos == 0,
            r.wf(),
    {
        Cursor { bytes, pos: 0 }
    }

    /// The number of unread bytes.
    pub fn remaining(&self) -> (r: usize)
        requires
            self.wf(),
        ensures
            r == self.bytes@.len() - self.pos,
    {
        self.bytes.len() - self.pos
    }

    /// The next byte, advancing by one; `TruncatedInput` when none remains.
    pub fn read_byte(&mut self) -> (r: Result<u8, CborError>)
        requires
            old(self).wf(),
        ensures
            final(self).bytes@ == old(self).bytes@,
            final(self).wf(),
            match r {
                Ok(b) => {
                    &&& old(self).pos < old(self).bytes@.len()
                    &&& b == old(self).bytes@[old(self).pos as int]
                    &&& final(self).pos == old(self).pos + 1
                },
                Err(e) => {
                    &&& e == CborError::TruncatedInput
                    &&& old(self).pos == old(self).bytes@.len()
                    &&& final(self).pos == old(self).pos
                },
            },
    {
        if self.pos < self.bytes.len() {
            let b = self.bytes[self.pos];
            self.pos = self.pos + 1;
            Ok(b)
        } else {
            Err(CborError::TruncatedInput)
        }
    }

    /// The next `n` bytes as an owned vector, advancing by `n`;
    /// `TruncatedInput` when fewer than `n` remain.  Availability checking
    /// only: the caller validates `n` against `MAX_ARRAY_SIZE` beforehand.
    pub fn read_exact(&mut self, n: usize) -> (r: Result<Vec<u8>, CborError>)
        requires
            old(self).wf(),
        ensures
            final(self).bytes@ == old(self).bytes@,
            final(self).wf(),
            match r {
                Ok(v) => {
                    &&& old(self).pos + n <= old(self).bytes@.len()
                    &&& final(self).pos == old(self).pos + n
                    &&& v@ == old(self).bytes@.subrange(
                        old(self).pos as int,
                        old(self).pos + n,
                    )
                },
                Err(e) => {
                    &&& e == CborError::TruncatedInput
                    &&& old(self).pos + n > old(self).bytes@.len()
                    &&& final(self).pos == old(self).pos
                },
            },
    {
        if n > self.bytes.len() - self.pos {
            return Err(CborError::TruncatedInput);
        }
        let start = self.pos;
        let mut v: Vec<u8> = Vec::new();
        let mut j: usize = 0;
        while j < n
            invariant
                self.bytes@ == old(self).bytes@,
                self.pos == start,
                start + n <= self.bytes@.len(),
                start + n <= usize::MAX,
                j <= n,
                v@ == self.bytes@.subrange(start as int, start + j),
            decreases n - j,
        {
            v.push(self.bytes[start + j]);
            proof {
                assert(v@ =~= self.bytes@.subrange(start as int, start + j + 1));
            }
            j = j + 1;
        }
        self.pos = start + n;
        Ok(v)
    }
}

/// The value of the next `k` big-endian bytes, advancing by `k`.
fn read_be(cursor: &mut Cursor, k: usize) -> (r: Result<u64, CborError>)
    requires
        old(cursor).wf(),
        1 <= k <= 8,
    ensures
        final(cursor).bytes@ == old(cursor).bytes@,
        final(cursor).wf(),
        match r {
            Ok(val) => {
                &&& old(cursor).pos + k <= old(cursor).bytes@.len()
                &&& final(cursor).pos == old(cursor).pos + k
                &&& val as int == spec_be_bytes(
                    old(cursor).bytes@,
                    old(cursor).pos as int,
                    k as nat,
                )
            },
            Err(e) => {
                &&& e == CborError::TruncatedInput
                &&& old(cursor).pos + k > old(cursor).bytes@.len()
            },
        },
{
    if cursor.remaining() < k {
        return Err(CborError::TruncatedInput);
    }
    let start = cursor.pos;
    let mut val: u64 = 0;
    let mut j: usize = 0;
    while j < k
        invariant
            cursor.bytes@ == old(cursor).bytes@,
            cursor.wf(),
            start + k <= cursor.bytes@.len(),
            cursor.pos == start + j,
            j <= k,
            k <= 8,
            val as int == spec_be_bytes(cursor.bytes@, start as int, j as nat),
        decreases k - j,
    {
        proof {
            lemma_be_bytes_bound(cursor.bytes@, start as int, j as nat);
            lemma_pow256_le((j + 1) as nat, 8);
            assert(pow256(8) == 0x1_0000_0000_0000_0000) by {
                reveal_with_fuel(pow256, 9);
            }
        }
        let b = match cursor.read_byte() {
            Ok(b) => b,
            Err(_) => {
                proof {
                    assert(false);
                }
                return Err(CborError::TruncatedInput);
            },
        };
        val = val * 256 + (b as u64);
        j = j + 1;
    }
    Ok(val)
}

/// One decoded item of `bytes` starting at `pos`, at nesting depth `depth`:
/// the item's model and the position just after it, or the error that
/// rejects it.  The lead byte's top three bits select the major type and its
/// low five bits the additional information; composites recurse at
/// `depth + 1` once `depth` has been checked against `MAX_NESTED_DEPTH`.
pub open spec fn spec_decode_item(bytes: Seq<u8>, pos: int, depth: int) -> Result<
    (CborValue, int),
    CborError,
>
    decreases MAX_NESTED_DEPTH as int - depth, 0int, 1int,
{
    if pos < 0 || pos >= bytes.len() {
        Err(CborError::TruncatedInput)
    } else {
        let major = bytes[pos] as int / 32;
        let info = bytes[pos] as int % 32;
        if major == 7 {
            if info == 22 {
                Ok((CborValue::Null, pos + 1))
            } else {
                Err(CborError::UnsupportedType)
            }
        } else {
            match spec_read_arg(bytes, pos + 1, info) {
                Err(e) => Err(e),
                Ok((arg, p)) => {
                    if major == 0 {
                        Ok((CborValue::Integer(arg), p))
                    } else if major == 1 {
                        if arg >= 0x8000_0000_0000_0000u64 {
                            Err(CborError::InputValueOutOfRange)
                        } else {
                            Ok((CborValue::SignedInteger((-1 - arg as int) as i64), p))
                        }
                    } else if major == 2 {
                        if arg > MAX_ARRAY_SIZE as u64 {
                            Err(CborError::InputTooLarge)
                        } else if p + arg > bytes.len() {
                            Err(CborError::TruncatedInput)
                        } else {
                            Ok((CborValue::Bytes(bytes.subrange(p, p + arg)), p + arg))
                        }
                    } else if major == 3 {
                        Err(CborError::UnsupportedType)
                    } else if major == 4 {
                        if arg > MAX_ARRAY_SIZE as u64 {
                            Err(CborError::InputTooLarge)
                        } else if arg == 0 {
                            Ok((CborValue::Array(Seq::empty()), p))
                        } else if depth >= MAX_NESTED_DEPTH {
                            Err(CborError::MalformedInput)
                        } else {
                            match spec_decode_array(bytes, p, arg as int, depth + 1, Seq::empty()) {
                                Ok((elems, p2)) => Ok((CborValue::Array(elems), p2)),
                                Err(e) => Err(e),
                            }
                        }
                    } else if major == 5 {
                        if arg == 0 {
                            Ok((CborValue::Mapping(Seq::empty()), p))
                        } else if depth >= MAX_NESTED_DEPTH {
                            Err(CborError::MalformedInput)
                        } else {
                            match spec_decode_map(bytes, p, arg as int, depth + 1, Seq::empty()) {
                                Ok((entries, p2)) => Ok((CborValue::Mapping(entries), p2)),
                                Err(e) => Err(e),
                            }
                        }
                    } else {
                        if depth >= MAX_NESTED_DEPTH {
                            Err(CborError::MalformedInput)
                        } else {
                            match spec_decode_item(bytes, p, depth + 1) {
                                Ok((inner, p2)) => Ok((CborValue::Tag(arg, Box::new(inner)), p2)),
                                Err(e) => Err(e),
                            }
                        }
                    }
                },
            }
        }
    }
}

/// `count` further array elements of `bytes` starting at `pos`, in front of
/// the elements `acc` already decoded: the whole element sequence and the
/// position just after it, or the first error.
pub open spec fn spec_decode_array(
    bytes: Seq<u8>,
    pos: int,
    count: int,
    depth: int,
    acc: Seq<CborValue>,
) -> Result<(Seq<CborValue>, int), CborError>
    decreases MAX_NESTED_DEPTH as int - depth, count, 0int,
{
    if count <= 0 {
        Ok((acc, pos))
    } else {
        match spec_decode_item(bytes, pos, depth) {
            Err(e) => Err(e),
            Ok((v, p)) => spec_decode_array(bytes, p, count - 1, depth, acc.push(v)),
        }
    }
}

/// `count` further key/value pairs of `bytes` starting at `pos`, inserted in
/// turn into the pairs `acc` already decoded: the whole sorted pair sequence
/// and the position just after it, or the first error.  A key equal to one
/// already present is a `DuplicateMapKey`.
pub open spec fn spec_decode_map(
    bytes: Seq<u8>,
    pos: int,
    count: int,
    depth: int,
    acc: Seq<(CborValue, CborValue)>,
) -> Result<(Seq<(CborValue, CborValue)>, int), CborError>
    decreases MAX_NESTED_DEPTH as int - depth, count, 0int,
{
    if count <= 0 {
        Ok((acc, pos))
    } else {
        match spec_decode_item(bytes, pos, depth) {
            Err(e) => Err(e),
            Ok((k, p1)) => match spec_decode_item(bytes, p1, depth) {
                Err(e) => Err(e),
                Ok((v, p2)) => match spec_map_insert(acc, k, v) {
                    Err(e) => Err(e),
                    Ok(acc2) => spec_decode_map(bytes, p2, count - 1, depth, acc2),
                },
            },
        }
    }
}

/// One complete item decoded from the whole of `bytes`: what `decode`
/// returns.  Bytes after the top-level item are ignored.
pub open spec fn spec_decode(bytes: Seq<u8>) -> Result<CborValue, CborError> {
    match spec_decode_item(bytes, 0, 0) {
        Ok((v, _)) => Ok(v),
        Err(e) => Err(e),
    }
}

/// The argument introduced by additional information `info`, per
/// `spec_read_arg`.
fn read_arg(cursor: &mut Cursor, info: u8) -> (r: Result<u64, CborError>)
    requires
        old(cursor).wf(),
        info < 32,
    ensures
        final(cursor).bytes@ == old(cursor).bytes@,
        final(cursor).wf(),
        match r {
            Ok(arg) => spec_read_arg(old(cursor).bytes@, old(cursor).pos as int, info as int)
                == Ok::<(u64, int), CborError>((arg, final(cursor).pos as int)),
            Err(e) => spec_read_arg(old(cursor).bytes@, old(cursor).pos as int, info as int)
                == Err::<(u64, int), CborError>(e),
        },
{
    if info <= 23 {
        Ok(info as u64)
    } else if info == 24 {
        read_be(cursor, 1)
    } else if info == 25 {
        read_be(cursor, 2)
    } else if info == 26 {
        read_be(cursor, 4)
    } else if info == 27 {
        read_be(cursor, 8)
    } else {
        Err(CborError::MalformedInput)
    }
}

/// Decodes one item at nesting depth `depth`, per `spec_decode_item`.
pub fn decode_item(cursor: &mut Cursor, depth: usize) -> (r: Result<CborType, CborError>)
    requires
        old(cursor).wf(),
        depth <= MAX_NESTED_DEPTH,
    ensures
        final(cursor).bytes@ == old(cursor).bytes@,
        final(cursor).wf(),
        match r {
            Ok(v) => spec_decode_item(old(cursor).bytes@, old(cursor).pos as int, depth as int)
                == Ok::<(CborValue, int), CborError>((view_of(v), final(cursor).pos as int)),
            Err(e) => spec_decode_item(old(cursor).bytes@, old(cursor).pos as int, depth as int)
                == Err::<(CborValue, int), CborError>(e),
        },
    decreases MAX_NESTED_DEPTH as int - depth, 1int,
{
    let b = match cursor.read_byte() {
        Ok(b) => b,
        Err(e) => {
            return Err(e);
        },
    };
    let major = b / 32;
    let info = b % 32;
    if major == 7 {
        if info == 22 {
            Ok(CborType::Null)
        } else {
            Err(CborError::UnsupportedType)
        }
    } else {
        let arg = match read_arg(cursor, info) {
            Ok(a) => a,
            Err(e) => {
                return Err(e);
            },
        };
        if major == 0 {
            Ok(CborType::Integer(arg))
        } else if major == 1 {
            if arg >= 0x8000_0000_0000_0000u64 {
                Err(CborError::InputValueOutOfRange)
            } else {
                Ok(CborType::SignedInteger(-1i64 - (arg as i64)))
            }
        } else if major == 2 {
            if arg > MAX_ARRAY_SIZE as u64 {
                Err(CborError::InputTooLarge)
            } else {
                match cursor.read_exact(arg as usize) {
                    Ok(v) => Ok(CborType::Bytes(v)),
                    Err(e) => Err(e),
                }
            }
        } else if major == 3 {
            Err(CborError::UnsupportedType)
        } else if major == 4 {
            if arg > MAX_ARRAY_SIZE as u64 {
                Err(CborError::InputTooLarge)
            } else if arg == 0 {
                let elems: Vec<CborType> = Vec::new();
                proof {
                    lemma_view_of_array(elems);
                    assert(seq_view(elems@) =~= Seq::<CborValue>::empty());
                }
                Ok(CborType::Array(elems))
            } else if depth >= MAX_NESTED_DEPTH {
                Err(CborError::MalformedInput)
            } else {
                match decode_array_items(cursor, arg as usize, depth + 1) {
                    Ok(elems) => {
                        proof {
                            lemma_view_of_array(elems);
                        }
                        Ok(CborType::Array(elems))
                    },
                    Err(e) => Err(e),
                }
            }
        } else if major == 5 {
            if arg == 0 {
                let entries: Vec<(CborType, CborType)> = Vec::new();
                proof {
                    lemma_view_of_mapping(entries);
                    assert(entries_view(entries@) =~= Seq::<(CborValue, CborValue)>::empty());
                }
                Ok(CborType::Mapping(entries))
            } else if depth >= MAX_NESTED_DEPTH {
                Err(CborError::MalformedInput)
            } else {
                match decode_map_items(cursor, arg, depth + 1) {
                    Ok(entries) => {
                        proof {
                            lemma_view_of_mapping(entries);
                        }
                        Ok(CborType::Mapping(entries))
                    },
                    Err(e) => Err(e),
                }
            }
        } else {
            if depth >= MAX_NESTED_DEPTH {
                Err(CborError::MalformedInput)
            } else {
                match decode_item(cursor, depth + 1) {
                    Ok(v) => Ok(CborType::Tag(arg, Box::new(v))),
                    Err(e) => Err(e),
                }
            }
        }
    }
}

/// Decodes `n` array elements in order, each at nesting depth `depth`, per
/// `spec_decode_array`.
fn decode_array_items(cursor: &mut Cursor, n: usize, depth: usize) -> (r: Result<
    Vec<CborType>,
    CborError,
>)
    requires
        old(cursor).wf(),
        depth <= MAX_NESTED_DEPTH,
    ensures
        final(cursor).bytes@ == old(cursor).bytes@,
        final(cursor).wf(),
        match r {
            Ok(elems) => spec_decode_array(
                old(cursor).bytes@,
                old(cursor).pos as int,
                n as int,
                depth as int,
                Seq::empty(),
            ) == Ok::<(Seq<CborValue>, int), CborError>(
                (seq_view(elems@), final(cursor).pos as int),
            ),
            Err(e) => spec_decode_array(
                old(cursor).bytes@,
                old(cursor).pos as int,
                n as int,
                depth as int,
                Seq::empty(),
            ) == Err::<(Seq<CborValue>, int), CborError>(e),
        },
    decreases MAX_NESTED_DEPTH as int - depth, 2int,
{
    let ghost bytes0 = old(cursor).bytes@;
    let ghost pos0 = old(cursor).pos as int;
    let mut elems: Vec<CborType> = Vec::new();
    let mut k: usize = 0;
    proof {
        assert(seq_view(elems@) =~= Seq::<CborValue>::empty());
    }
    while k < n
        invariant
            cursor.wf(),
            bytes0 == old(cursor).bytes@,
            pos0 == old(cursor).pos as int,
            cursor.bytes@ == bytes0,
            k <= n,
            depth <= MAX_NESTED_DEPTH,
            spec_decode_array(bytes0, pos0, n as int, depth as int, Seq::empty())
                == spec_decode_array(
                bytes0,
                cursor.pos as int,
                n - k,
                depth as int,
                seq_view(elems@),
            ),
        decreases n - k,
    {
        let ghost acc = seq_view(elems@);
        let v = match decode_item(cursor, depth) {
            Ok(v) => v,
            Err(e) => {
                return Err(e);
            },
        };
        elems.push(v);
        proof {
            assert(seq_view(elems@) =~= acc.push(view_of(v)));
        }
        k = k + 1;
    }
    Ok(elems)
}

/// Decodes `n` key/value pairs in order, each at nesting depth `depth`,
/// inserting each pair as it completes, per `spec_decode_map`.
fn decode_map_items(cursor: &mut Cursor, n: u64, depth: usize) -> (r: Result<
    Vec<(CborType, CborType)>,
    CborError,
>)
    requires
        old(cursor).wf(),
        depth <= MAX_NESTED_DEPTH,
    ensures
        final(cursor).bytes@ == old(cursor).bytes@,
        final(cursor).wf(),
        match r {
            Ok(entries) => spec_decode_map(
                old(cursor).bytes@,
                old(cursor).pos as int,
                n as int,
                depth as int,
                Seq::empty(),
            ) == Ok::<(Seq<(CborValue, CborValue)>, int), CborError>(
                (entries_view(entries@), final(cursor).pos as int),
            ),
            Err(e) => spec_decode_map(
                old(cursor).bytes@,
                old(cursor).pos as int,
                n as int,
                depth as int,
                Seq::empty(),
            ) == Err::<(Seq<(CborValue, CborValue)>, int), CborError>(e),
        },
    decreases MAX_NESTED_DEPTH as int - depth, 2int,
{
    let ghost bytes0 = old(cursor).bytes@;
    let ghost pos0 = old(cursor).pos as int;
    let mut entries: Vec<(CborType, CborType)> = Vec::new();
    let mut k: u64 = 0;
    proof {
        assert(entries_view(entries@) =~= Seq::<(CborValue, CborValue)>::empty());
    }
    while k < n
        invariant
            cursor.wf(),
            bytes0 == old(cursor).bytes@,
            pos0 == old(cursor).pos as int,
            cursor.bytes@ == bytes0,
            k <= n,
            depth <= MAX_NESTED_DEPTH,
            spec_decode_map(bytes0, pos0, n as int, depth as int, Seq::empty())
                == spec_decode_map(
                bytes0,
                cursor.pos as int,
                n - k,
                depth as int,
                entries_view(entries@),
            ),
        decreases n - k,
    {
        let key = match decode_item(cursor, depth) {
            Ok(v) => v,
            Err(e) => {
                return Err(e);
            },
        };
        let value = match decode_item(cursor, depth) {
            Ok(v) => v,
            Err(e) => {
                return Err(e);
            },
        };
        match map_insert(&mut entries, key, value) {
            Ok(_) => {},
            Err(e) => {
                return Err(e);
            },
        }
        k = k + 1;
    }
    Ok(entries)
}

/// The sole entry point: decodes one item from the whole of `bytes`, per
/// `spec_decode`.  Bytes after the decoded item are ignored.
pub fn decode(bytes: &[u8]) -> (r: Result<CborType, CborError>)
    ensures
        match r {
            Ok(v) => spec_decode(bytes@) == Ok::<CborValue, CborError>(view_of(v)) && wf_value(
                view_of(v),
            ),
            Err(e) => spec_decode(bytes@) == Err::<CborValue, CborError>(e),
        },
{
    proof {
        crate::laws::lemma_decode_well_formed(bytes@);
    }
    let mut cursor = Cursor::new(bytes);
    match decode_item(&mut cursor, 0) {
        Ok(v) => Ok(v),
        Err(e) => Err(e),
    }
}

} // verus!
