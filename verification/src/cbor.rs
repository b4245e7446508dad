//! The small CBOR subset used by the bundle wire format: definite-length
//! unsigned integers, byte strings, text strings, arrays and maps.
//!
//! Every encoding is given by a spec function over sequences of bytes, the
//! executable emitters are proved to produce exactly those sequences, and the
//! executable readers are proved to agree with spec-level readers.  Reading
//! accepts any definite-length integer form; emission always uses the
//! shortest form, as canonical CBOR requires.

use vstd::arithmetic::div_mod::{lemma_div_denominator, lemma_fundamental_div_mod, lemma_fundamental_div_mod_converse};
use vstd::prelude::*;
use vstd::slice::slice_to_vec;
use vstd::utf8::{decode_utf8, encode_utf8, valid_utf8};

verus! {

/// Big-endian bytes of a 64-bit value, as written after the trailing-length
/// field and after an `0x1b`-prefixed integer header.
pub open spec fn spec_be64(n: int) -> Seq<u8> {
    seq![
        (n / 0x100000000000000) as u8,
        ((n / 0x1000000000000) % 256) as u8,
        ((n / 0x10000000000) % 256) as u8,
        ((n / 0x100000000) % 256) as u8,
        ((n / 0x1000000) % 256) as u8,
        ((n / 0x10000) % 256) as u8,
        ((n / 0x100) % 256) as u8,
        (n % 256) as u8,
    ]
}

/// Shortest-form CBOR item header: three bits of major type, then the
/// argument `n` (a value, or a payload or container length).
pub open spec fn spec_header(major: int, n: int) -> Seq<u8>
    recommends
        0 <= major < 8,
        0 <= n < 0x10000000000000000,
{
    let mt = major * 32;
    if n < 24 {
        seq![(mt + n) as u8]
    } else if n < 0x100 {
        seq![(mt + 24) as u8, n as u8]
    } else if n < 0x10000 {
        seq![(mt + 25) as u8, (n / 0x100) as u8, (n % 256) as u8]
    } else if n < 0x100000000 {
        seq![
            (mt + 26) as u8,
            (n / 0x1000000) as u8,
            ((n / 0x10000) % 256) as u8,
            ((n / 0x100) % 256) as u8,
            (n % 256) as u8,
        ]
    } else {
        seq![(mt + 27) as u8] + spec_be64(n)
    }
}

/// Number of bytes of the shortest-form header with argument `n`.
pub open spec fn spec_header_len(n: int) -> int {
    if n < 24 {
        1
    } else if n < 0x100 {
        2
    } else if n < 0x10000 {
        3
    } else if n < 0x100000000 {
        5
    } else {
        9
    }
}

/// An unsigned integer item (major type 0).
pub open spec fn enc_uint(n: int) -> Seq<u8> {
    spec_header(0, n)
}

/// A byte-string item (major type 2): header, then the payload verbatim.
pub open spec fn enc_bytes(payload: Seq<u8>) -> Seq<u8> {
    spec_header(2, payload.len() as int) + payload
}

/// A text-string item (major type 3) whose payload is already UTF-8 encoded.
pub open spec fn enc_text(payload: Seq<u8>) -> Seq<u8> {
    spec_header(3, payload.len() as int) + payload
}

/// An array header (major type 4) announcing `n` items.
pub open spec fn enc_array_header(n: int) -> Seq<u8> {
    spec_header(4, n)
}

/// A map header (major type 5) announcing `n` key/value pairs.
pub open spec fn enc_map_header(n: int) -> Seq<u8> {
    spec_header(5, n)
}

/// Appends the big-endian bytes of `n`.
pub fn emit_be64(out: &mut Vec<u8>, n: u64)
    ensures
        final(out)@ == old(out)@ + spec_be64(n as int),
{
    out.push((n / 0x100000000000000) as u8);
    out.push(((n / 0x1000000000000) % 256) as u8);
    out.push(((n / 0x10000000000) % 256) as u8);
    out.push(((n / 0x100000000) % 256) as u8);
    out.push(((n / 0x1000000) % 256) as u8);
    out.push(((n / 0x10000) % 256) as u8);
    out.push(((n / 0x100) % 256) as u8);
    out.push((n % 256) as u8);
    assert(out@ =~= old(out)@ + spec_be64(n as int));
}

/// Appends a shortest-form item header.
pub fn emit_header(out: &mut Vec<u8>, major: u8, n: u64)
    requires
        major < 8,
    ensures
        final(out)@ == old(out)@ + spec_header(major as int, n as int),
{
    let mt: u8 = major * 32;
    if n < 24 {
        out.push(mt + n as u8);
    } else if n < 0x100 {
        out.push(mt + 24);
        out.push(n as u8);
    } else if n < 0x10000 {
        out.push(mt + 25);
        out.push((n / 0x100) as u8);
        out.push((n % 256) as u8);
    } else if n < 0x100000000 {
        out.push(mt + 26);
        out.push((n / 0x1000000) as u8);
        out.push(((n / 0x10000) % 256) as u8);
        out.push(((n / 0x100) % 256) as u8);
        out.push((n % 256) as u8);
    } else {
        out.push(mt + 27);
        emit_be64(out, n);
    }
    assert(out@ =~= old(out)@ + spec_header(major as int, n as int));
}

/// Appends an unsigned-integer item.
pub fn emit_uint(out: &mut Vec<u8>, n: u64)
    ensures
        final(out)@ == old(out)@ + enc_uint(n as int),
{
    emit_header(out, 0, n);
}

/// Appends a byte-string item holding `payload`.
pub fn emit_bytes(out: &mut Vec<u8>, payload: &[u8])
    ensures
        final(out)@ == old(out)@ + enc_bytes(payload@),
{
    emit_header(out, 2, payload.len() as u64);
    out.extend_from_slice(payload);
    assert(out@ =~= old(out)@ + enc_bytes(payload@));
}

/// Appends a text-string item whose payload bytes are already UTF-8.
pub fn emit_text(out: &mut Vec<u8>, payload: &[u8])
    ensures
        final(out)@ == old(out)@ + enc_text(payload@),
{
    emit_header(out, 3, payload.len() as u64);
    out.extend_from_slice(payload);
    assert(out@ =~= old(out)@ + enc_text(payload@));
}

/// Appends an array header announcing `n` items.
pub fn emit_array_header(out: &mut Vec<u8>, n: u64)
    ensures
        final(out)@ == old(out)@ + enc_array_header(n as int),
{
    emit_header(out, 4, n);
}

/// Appends a map header announcing `n` pairs.
pub fn emit_map_header(out: &mut Vec<u8>, n: u64)
    ensures
        final(out)@ == old(out)@ + enc_map_header(n as int),
{
    emit_header(out, 5, n);
}

/// Spec-level read of one item header inside `b[pos..end]`: the major type,
/// the argument, and the position just past the header.  Indefinite lengths
/// and the reserved additional-information values are rejected; non-shortest
/// integer forms are accepted: only emission is held to canonical form.
pub open spec fn spec_read_header(b: Seq<u8>, pos: int, end: int) -> Option<(int, int, int)>
    recommends
        0 <= pos <= end <= b.len(),
{
    if pos >= end {
        None
    } else {
        let major = b[pos] / 32;
        let ai = b[pos] % 32;
        if ai < 24 {
            Some((major as int, ai as int, pos + 1))
        } else if ai == 24 {
            if pos + 2 <= end {
                Some((major as int, b[pos + 1] as int, pos + 2))
            } else {
                None
            }
        } else if ai == 25 {
            if pos + 3 <= end {
                Some((major as int, b[pos + 1] * 0x100 + b[pos + 2], pos + 3))
            } else {
                None
            }
        } else if ai == 26 {
            if pos + 5 <= end {
                Some(
                    (
                        major as int,
                        b[pos + 1] * 0x1000000 + b[pos + 2] * 0x10000 + b[pos + 3] * 0x100 + b[pos
                            + 4],
                        pos + 5,
                    ),
                )
            } else {
                None
            }
        } else if ai == 27 {
            if pos + 9 <= end {
                Some(
                    (
                        major as int,
                        b[pos + 1] * 0x100000000000000 + b[pos + 2] * 0x1000000000000 + b[pos + 3]
                            * 0x10000000000 + b[pos + 4] * 0x100000000 + b[pos + 5] * 0x1000000 + b[
                            pos + 6] * 0x10000 + b[pos + 7] * 0x100 + b[pos + 8],
                        pos + 9,
                    ),
                )
            } else {
                None
            }
        } else {
            None
        }
    }
}

/// Spec-level read of an unsigned-integer item.
pub open spec fn spec_read_uint(b: Seq<u8>, pos: int, end: int) -> Option<(int, int)> {
    match spec_read_header(b, pos, end) {
        Some((major, value, next)) => if major == 0 {
            Some((value, next))
        } else {
            None
        },
        None => None,
    }
}

/// Spec-level read of a byte-string item: the payload and the position just
/// past it.
pub open spec fn spec_read_bytes(b: Seq<u8>, pos: int, end: int) -> Option<(Seq<u8>, int)> {
    match spec_read_header(b, pos, end) {
        Some((major, value, next)) => if major == 2 && next + value <= end {
            Some((b.subrange(next, next + value), next + value))
        } else {
            None
        },
        None => None,
    }
}

/// Spec-level read of a text-string item: the UTF-8 payload bytes.  A payload
/// that is not valid UTF-8 is a malformed item.
pub open spec fn spec_read_text(b: Seq<u8>, pos: int, end: int) -> Option<(Seq<u8>, int)> {
    match spec_read_header(b, pos, end) {
        Some((major, value, next)) => if major == 3 && next + value <= end && valid_utf8(
            b.subrange(next, next + value),
        ) {
            Some((b.subrange(next, next + value), next + value))
        } else {
            None
        },
        None => None,
    }
}

/// Spec-level read of an array header: the announced item count.
pub open spec fn spec_read_array_header(b: Seq<u8>, pos: int, end: int) -> Option<(int, int)> {
    match spec_read_header(b, pos, end) {
        Some((major, value, next)) => if major == 4 {
            Some((value, next))
        } else {
            None
        },
        None => None,
    }
}

/// Spec-level read of a map header: the announced pair count.
pub open spec fn spec_read_map_header(b: Seq<u8>, pos: int, end: int) -> Option<(int, int)> {
    match spec_read_header(b, pos, end) {
        Some((major, value, next)) => if major == 5 {
            Some((value, next))
        } else {
            None
        },
        None => None,
    }
}

/// Reads one item header from `buf[pos..end]`.
pub fn read_header(buf: &[u8], pos: usize, end: usize) -> (r: Option<(u8, u64, usize)>)
    requires
        pos <= end <= buf@.len(),
    ensures
        match r {
            Some((major, value, next)) => {
                &&& spec_read_header(buf@, pos as int, end as int) == Some(
                    (major as int, value as int, next as int),
                )
                &&& major < 8
                &&& pos < next <= end
            },
            None => spec_read_header(buf@, pos as int, end as int) is None,
        },
{
    if pos >= end {
        return None;
    }
    let b0 = buf[pos];
    let major = b0 / 32;
    let ai = b0 % 32;
    if ai < 24 {
        Some((major, ai as u64, pos + 1))
    } else if ai == 24 {
        if end - pos >= 2 {
            Some((major, buf[pos + 1] as u64, pos + 2))
        } else {
            None
        }
    } else if ai == 25 {
        if end - pos >= 3 {
            let value = (buf[pos + 1] as u64) * 0x100 + (buf[pos + 2] as u64);
            Some((major, value, pos + 3))
        } else {
            None
        }
    } else if ai == 26 {
        if end - pos >= 5 {
            let value = (buf[pos + 1] as u64) * 0x1000000 + (buf[pos + 2] as u64) * 0x10000 + (buf[
                pos + 3] as u64) * 0x100 + (buf[pos + 4] as u64);
            Some((major, value, pos + 5))
        } else {
            None
        }
    } else if ai == 27 {
        if end - pos >= 9 {
            let value = (buf[pos + 1] as u64) * 0x100000000000000 + (buf[pos + 2] as u64)
                * 0x1000000000000 + (buf[pos + 3] as u64) * 0x10000000000 + (buf[pos + 4] as u64)
                * 0x100000000 + (buf[pos + 5] as u64) * 0x1000000 + (buf[pos + 6] as u64) * 0x10000
                + (buf[pos + 7] as u64) * 0x100 + (buf[pos + 8] as u64);
            Some((major, value, pos + 9))
        } else {
            None
        }
    } else {
        None
    }
}

/// Reads an unsigned-integer item.
pub fn read_uint(buf: &[u8], pos: usize, end: usize) -> (r: Option<(u64, usize)>)
    requires
        pos <= end <= buf@.len(),
    ensures
        match r {
            Some((value, next)) => {
                &&& spec_read_uint(buf@, pos as int, end as int) == Some(
                    (value as int, next as int),
                )
                &&& pos < next <= end
            },
            None => spec_read_uint(buf@, pos as int, end as int) is None,
        },
{
    match read_header(buf, pos, end) {
        Some((major, value, next)) => if major == 0 {
            Some((value, next))
        } else {
            None
        },
        None => None,
    }
}

/// Reads a byte-string item, copying its payload out of the buffer.
pub fn read_bytes(buf: &[u8], pos: usize, end: usize) -> (r: Option<(Vec<u8>, usize)>)
    requires
        pos <= end <= buf@.len(),
    ensures
        match r {
            Some((payload, next)) => {
                &&& spec_read_bytes(buf@, pos as int, end as int) == Some((payload@, next as int))
                &&& pos < next <= end
            },
            None => spec_read_bytes(buf@, pos as int, end as int) is None,
        },
{
    match read_header(buf, pos, end) {
        Some((major, value, next)) => {
            if major == 2 && value <= (end - next) as u64 {
                let vlen: usize = value as usize;
                let payload = slice_to_vec(&buf[next..next + vlen]);
                Some((payload, next + vlen))
            } else {
                None
            }
        },
        None => None,
    }
}

/// Reads an array header.
pub fn read_array_header(buf: &[u8], pos: usize, end: usize) -> (r: Option<(u64, usize)>)
    requires
        pos <= end <= buf@.len(),
    ensures
        match r {
            Some((count, next)) => {
                &&& spec_read_array_header(buf@, pos as int, end as int) == Some(
                    (count as int, next as int),
                )
                &&& pos < next <= end
            },
            None => spec_read_array_header(buf@, pos as int, end as int) is None,
        },
{
    match read_header(buf, pos, end) {
        Some((major, value, next)) => if major == 4 {
            Some((value, next))
        } else {
            None
        },
        None => None,
    }
}

/// Reads a map header.
pub fn read_map_header(buf: &[u8], pos: usize, end: usize) -> (r: Option<(u64, usize)>)
    requires
        pos <= end <= buf@.len(),
    ensures
        match r {
            Some((count, next)) => {
                &&& spec_read_map_header(buf@, pos as int, end as int) == Some(
                    (count as int, next as int),
                )
                &&& pos < next <= end
            },
            None => spec_read_map_header(buf@, pos as int, end as int) is None,
        },
{
    match read_header(buf, pos, end) {
        Some((major, value, next)) => if major == 5 {
            Some((value, next))
        } else {
            None
        },
        None => None,
    }
}


/// One step of the big-endian decomposition: the quotient by `c` splits into
/// the next quotient and the byte `(n / c) % 256`.
proof fn lemma_byte_chain(n: int, c: int)
    requires
        0 <= n,
        1 <= c,
    ensures
        n / c == 256 * (n / (c * 256)) + (n / c) % 256,
{
    lemma_div_denominator(n, c, 256);
    lemma_fundamental_div_mod(n / c, 256);
}

/// Recomposition of a value below 2^16 from its two big-endian bytes.
proof fn lemma_recompose2(n: int)
    requires
        0 <= n < 0x10000,
    ensures
        (n / 0x100) * 0x100 + n % 256 == n,
{
    lemma_fundamental_div_mod(n, 256);
}

/// Recomposition of a value below 2^32 from its four big-endian bytes.
proof fn lemma_recompose4(n: int)
    requires
        0 <= n < 0x100000000,
    ensures
        (n / 0x1000000) * 0x1000000 + ((n / 0x10000) % 256) * 0x10000 + ((n / 0x100) % 256) * 0x100
            + n % 256 == n,
{
    lemma_fundamental_div_mod(n, 256);
    lemma_byte_chain(n, 0x100);
    lemma_byte_chain(n, 0x10000);
}

/// Recomposition of a value below 2^64 from its eight big-endian bytes.
pub proof fn lemma_recompose8(n: int)
    requires
        0 <= n < 0x10000000000000000,
    ensures
        (n / 0x100000000000000) * 0x100000000000000 + ((n / 0x1000000000000) % 256)
            * 0x1000000000000 + ((n / 0x10000000000) % 256) * 0x10000000000 + ((n / 0x100000000)
            % 256) * 0x100000000 + ((n / 0x1000000) % 256) * 0x1000000 + ((n / 0x10000) % 256)
            * 0x10000 + ((n / 0x100) % 256) * 0x100 + n % 256 == n,
{
    lemma_fundamental_div_mod(n, 256);
    lemma_byte_chain(n, 0x100);
    lemma_byte_chain(n, 0x10000);
    lemma_byte_chain(n, 0x1000000);
    lemma_byte_chain(n, 0x100000000);
    lemma_byte_chain(n, 0x10000000000);
    lemma_byte_chain(n, 0x1000000000000);
}

/// Byte `i` of a window of `b` equal to `h` is byte `i` of `h`.
proof fn lemma_sub_byte(b: Seq<u8>, pos: int, hl: int, h: Seq<u8>, i: int)
    requires
        0 <= pos,
        0 <= i < hl,
        pos + hl <= b.len(),
        h.len() == hl,
        b.subrange(pos, pos + hl) == h,
    ensures
        b[pos + i] == h[i],
{
    assert(b.subrange(pos, pos + hl)[i] == b[pos + i]);
}

proof fn lemma_read_header_at_tiny(b: Seq<u8>, pos: int, end: int, major: int, n: int)
    requires
        0 <= major < 8,
        0 <= n < 24,
        0 <= pos,
        pos + 1 <= end <= b.len(),
        b.subrange(pos, pos + 1) == spec_header(major, n),
    ensures
        spec_read_header(b, pos, end) == Some((major, n, pos + 1)),
{
    let mt = major * 32;
    lemma_sub_byte(b, pos, 1, spec_header(major, n), 0);
    assert(b[pos] == (mt + n) as u8);
    lemma_fundamental_div_mod_converse(mt + n, 32, major, n);
}

proof fn lemma_read_header_at_1(b: Seq<u8>, pos: int, end: int, major: int, n: int)
    requires
        0 <= major < 8,
        24 <= n < 0x100,
        0 <= pos,
        pos + 2 <= end <= b.len(),
        b.subrange(pos, pos + 2) == spec_header(major, n),
    ensures
        spec_read_header(b, pos, end) == Some((major, n, pos + 2)),
{
    let mt = major * 32;
    let h = spec_header(major, n);
    lemma_sub_byte(b, pos, 2, h, 0);
    lemma_sub_byte(b, pos, 2, h, 1);
    assert(b[pos] == (mt + 24) as u8);
    assert(b[pos + 1] == n as u8);
    lemma_fundamental_div_mod_converse(mt + 24, 32, major, 24);
}

proof fn lemma_read_header_at_2(b: Seq<u8>, pos: int, end: int, major: int, n: int)
    requires
        0 <= major < 8,
        0x100 <= n < 0x10000,
        0 <= pos,
        pos + 3 <= end <= b.len(),
        b.subrange(pos, pos + 3) == spec_header(major, n),
    ensures
        spec_read_header(b, pos, end) == Some((major, n, pos + 3)),
{
    let mt = major * 32;
    let h = spec_header(major, n);
    lemma_sub_byte(b, pos, 3, h, 0);
    lemma_sub_byte(b, pos, 3, h, 1);
    lemma_sub_byte(b, pos, 3, h, 2);
    assert(b[pos] == (mt + 25) as u8);
    lemma_fundamental_div_mod_converse(mt + 25, 32, major, 25);
    assert(n / 0x100 < 0x100) by (nonlinear_arith)
        requires
            0 <= n < 0x10000,
    ;
    assert(b[pos + 1] == n / 0x100);
    assert(b[pos + 2] == n % 256);
    lemma_recompose2(n);
    assert(b[pos + 1] * 0x100 + b[pos + 2] == n);
}

proof fn lemma_read_header_at_4(b: Seq<u8>, pos: int, end: int, major: int, n: int)
    requires
        0 <= major < 8,
        0x10000 <= n < 0x100000000,
        0 <= pos,
        pos + 5 <= end <= b.len(),
        b.subrange(pos, pos + 5) == spec_header(major, n),
    ensures
        spec_read_header(b, pos, end) == Some((major, n, pos + 5)),
{
    let mt = major * 32;
    let h = spec_header(major, n);
    lemma_sub_byte(b, pos, 5, h, 0);
    lemma_sub_byte(b, pos, 5, h, 1);
    lemma_sub_byte(b, pos, 5, h, 2);
    lemma_sub_byte(b, pos, 5, h, 3);
    lemma_sub_byte(b, pos, 5, h, 4);
    assert(b[pos] == (mt + 26) as u8);
    lemma_fundamental_div_mod_converse(mt + 26, 32, major, 26);
    assert(n / 0x1000000 < 0x100) by (nonlinear_arith)
        requires
            0 <= n < 0x100000000,
    ;
    assert(b[pos + 1] == n / 0x1000000);
    assert(b[pos + 2] == (n / 0x10000) % 256);
    assert(b[pos + 3] == (n / 0x100) % 256);
    assert(b[pos + 4] == n % 256);
    lemma_recompose4(n);
    assert(b[pos + 1] * 0x1000000 + b[pos + 2] * 0x10000 + b[pos + 3] * 0x100 + b[pos + 4] == n);
}

#[verifier::rlimit(80)]
proof fn lemma_read_header_at_8(b: Seq<u8>, pos: int, end: int, major: int, n: int)
    requires
        0 <= major < 8,
        0x100000000 <= n < 0x10000000000000000,
        0 <= pos,
        pos + 9 <= end <= b.len(),
        b.subrange(pos, pos + 9) == spec_header(major, n),
    ensures
        spec_read_header(b, pos, end) == Some((major, n, pos + 9)),
{
    let mt = major * 32;
    let h = spec_header(major, n);
    assert(h == seq![(mt + 27) as u8] + spec_be64(n));
    lemma_sub_byte(b, pos, 9, h, 0);
    lemma_sub_byte(b, pos, 9, h, 1);
    lemma_sub_byte(b, pos, 9, h, 2);
    lemma_sub_byte(b, pos, 9, h, 3);
    lemma_sub_byte(b, pos, 9, h, 4);
    lemma_sub_byte(b, pos, 9, h, 5);
    lemma_sub_byte(b, pos, 9, h, 6);
    lemma_sub_byte(b, pos, 9, h, 7);
    lemma_sub_byte(b, pos, 9, h, 8);
    assert(b[pos] == (mt + 27) as u8);
    lemma_fundamental_div_mod_converse(mt + 27, 32, major, 27);
    assert(n / 0x100000000000000 < 0x100) by (nonlinear_arith)
        requires
            0 <= n < 0x10000000000000000,
    ;
    assert(b[pos + 1] == n / 0x100000000000000);
    assert(b[pos + 2] == (n / 0x1000000000000) % 256);
    assert(b[pos + 3] == (n / 0x10000000000) % 256);
    assert(b[pos + 4] == (n / 0x100000000) % 256);
    assert(b[pos + 5] == (n / 0x1000000) % 256);
    assert(b[pos + 6] == (n / 0x10000) % 256);
    assert(b[pos + 7] == (n / 0x100) % 256);
    assert(b[pos + 8] == n % 256);
    lemma_recompose8(n);
    assert(b[pos + 1] * 0x100000000000000 + b[pos + 2] * 0x1000000000000 + b[pos + 3]
        * 0x10000000000 + b[pos + 4] * 0x100000000 + b[pos + 5] * 0x1000000 + b[pos + 6] * 0x10000
        + b[pos + 7] * 0x100 + b[pos + 8] == n);
}

/// Reading at a position holding the shortest-form header of `(major, n)`
/// yields exactly `(major, n)` and stops right after the header.
pub proof fn lemma_read_header_at(b: Seq<u8>, pos: int, end: int, major: int, n: int)
    requires
        0 <= major < 8,
        0 <= n < 0x10000000000000000,
        0 <= pos,
        pos + spec_header_len(n) <= end <= b.len(),
        b.subrange(pos, pos + spec_header_len(n)) == spec_header(major, n),
    ensures
        spec_read_header(b, pos, end) == Some((major, n, pos + spec_header_len(n))),
{
    if n < 24 {
        lemma_read_header_at_tiny(b, pos, end, major, n);
    } else if n < 0x100 {
        lemma_read_header_at_1(b, pos, end, major, n);
    } else if n < 0x10000 {
        lemma_read_header_at_2(b, pos, end, major, n);
    } else if n < 0x100000000 {
        lemma_read_header_at_4(b, pos, end, major, n);
    } else {
        lemma_read_header_at_8(b, pos, end, major, n);
    }
}

/// Reading at a position holding an encoded unsigned integer yields it back.
pub proof fn lemma_read_uint_at(b: Seq<u8>, pos: int, end: int, n: int)
    requires
        0 <= n < 0x10000000000000000,
        0 <= pos,
        pos + enc_uint(n).len() <= end <= b.len(),
        b.subrange(pos, pos + enc_uint(n).len()) == enc_uint(n),
    ensures
        spec_read_uint(b, pos, end) == Some((n, pos + enc_uint(n).len())),
{
    lemma_read_header_at(b, pos, end, 0, n);
}

/// Reading at a position holding an encoded byte string yields its payload.
pub proof fn lemma_read_bytes_at(b: Seq<u8>, pos: int, end: int, payload: Seq<u8>)
    requires
        payload.len() < 0x10000000000000000,
        0 <= pos,
        pos + enc_bytes(payload).len() <= end <= b.len(),
        b.subrange(pos, pos + enc_bytes(payload).len()) == enc_bytes(payload),
    ensures
        spec_read_bytes(b, pos, end) == Some((payload, pos + enc_bytes(payload).len())),
{
    let plen = payload.len() as int;
    let hl = spec_header_len(plen);
    let el = enc_bytes(payload).len() as int;
    assert forall|i: int| 0 <= i < el implies b[pos + i] == enc_bytes(payload)[i] by {
        assert(b.subrange(pos, pos + el)[i] == b[pos + i]);
    }
    assert(b.subrange(pos, pos + hl) =~= spec_header(2, plen));
    lemma_read_header_at(b, pos, end, 2, plen);
    assert forall|i: int| 0 <= i < plen implies b.subrange(pos + hl, pos + hl + plen)[i]
        == payload[i] by {
        assert(b[pos + (hl + i)] == enc_bytes(payload)[hl + i]);
        assert(enc_bytes(payload)[hl + i] == payload[i]);
    }
    assert(b.subrange(pos + hl, pos + hl + plen) =~= payload);
}

/// Reading at a position holding an encoded text string whose payload is
/// valid UTF-8 yields the payload bytes.
pub proof fn lemma_read_text_at(b: Seq<u8>, pos: int, end: int, payload: Seq<u8>)
    requires
        payload.len() < 0x10000000000000000,
        valid_utf8(payload),
        0 <= pos,
        pos + enc_text(payload).len() <= end <= b.len(),
        b.subrange(pos, pos + enc_text(payload).len()) == enc_text(payload),
    ensures
        spec_read_text(b, pos, end) == Some((payload, pos + enc_text(payload).len())),
{
    let plen = payload.len() as int;
    let hl = spec_header_len(plen);
    let el = enc_text(payload).len() as int;
    assert forall|i: int| 0 <= i < el implies b[pos + i] == enc_text(payload)[i] by {
        assert(b.subrange(pos, pos + el)[i] == b[pos + i]);
    }
    assert(b.subrange(pos, pos + hl) =~= spec_header(3, plen));
    lemma_read_header_at(b, pos, end, 3, plen);
    assert forall|i: int| 0 <= i < plen implies b.subrange(pos + hl, pos + hl + plen)[i]
        == payload[i] by {
        assert(b[pos + (hl + i)] == enc_text(payload)[hl + i]);
        assert(enc_text(payload)[hl + i] == payload[i]);
    }
    assert(b.subrange(pos + hl, pos + hl + plen) =~= payload);
}

/// Reading at a position holding an encoded array header yields its count.
pub proof fn lemma_read_array_header_at(b: Seq<u8>, pos: int, end: int, n: int)
    requires
        0 <= n < 0x10000000000000000,
        0 <= pos,
        pos + enc_array_header(n).len() <= end <= b.len(),
        b.subrange(pos, pos + enc_array_header(n).len()) == enc_array_header(n),
    ensures
        spec_read_array_header(b, pos, end) == Some((n, pos + enc_array_header(n).len())),
{
    lemma_read_header_at(b, pos, end, 4, n);
}

/// Reading at a position holding an encoded map header yields its count.
pub proof fn lemma_read_map_header_at(b: Seq<u8>, pos: int, end: int, n: int)
    requires
        0 <= n < 0x10000000000000000,
        0 <= pos,
        pos + enc_map_header(n).len() <= end <= b.len(),
        b.subrange(pos, pos + enc_map_header(n).len()) == enc_map_header(n),
    ensures
        spec_read_map_header(b, pos, end) == Some((n, pos + enc_map_header(n).len())),
{
    lemma_read_header_at(b, pos, end, 5, n);
}

/// Reads a text-string item: the decoded string, its UTF-8 payload bytes,
/// and the position just past it.
pub fn read_text(buf: &[u8], pos: usize, end: usize) -> (r: Option<(String, Vec<u8>, usize)>)
    requires
        pos <= end <= buf@.len(),
    ensures
        match r {
            Some((s, payload, next)) => {
                &&& spec_read_text(buf@, pos as int, end as int) == Some((payload@, next as int))
                &&& payload@ == encode_utf8(s@)
                &&& decode_utf8(payload@) == s@
                &&& pos < next <= end
            },
            None => spec_read_text(buf@, pos as int, end as int) is None,
        },
{
    match read_header(buf, pos, end) {
        Some((major, value, next)) => {
            if major == 3 && value <= (end - next) as u64 {
                let vlen: usize = value as usize;
                let payload = slice_to_vec(&buf[next..next + vlen]);
                match crate::strutil::utf8_to_string(payload.as_slice()) {
                    Some(s) => {
                        proof {
                            vstd::utf8::encode_utf8_valid_utf8(s@);
                            vstd::utf8::encode_utf8_decode_utf8(s@);
                        }
                        Some((s, payload, next + vlen))
                    },
                    None => None,
                }
            } else {
                None
            }
        },
        None => None,
    }
}

} // verus!
