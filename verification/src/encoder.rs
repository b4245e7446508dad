//! The encoder: serializes a `Bundle` to canonical CBOR with a correct
//! section offset table and trailing length.
//!
//! `spec_encode` defines the wire bytes of a bundle as a function of its
//! view; `Bundle::encode` is proved to produce exactly those bytes, or the
//! error that `spec_encode_res` assigns.

use crate::bundle::{
    exchanges_view, name_index, name_index_bytes, name_primary,
    name_primary_bytes, name_responses, name_responses_bytes, magic_bytes, spec_magic,
    status_key, status_key_bytes, Bundle, BundleView, Exchange, ExchangeView, Response,
    ResponseView,
};
use crate::canon::{
    bytes_eq, copy_pairs, insert_pair_sorted, pairs_view, sort_pairs, spec_insert_sorted,
    spec_sort_pairs, BytesPair, PairSeq,
};
use crate::cbor::{
    emit_array_header, emit_be64, emit_bytes, emit_map_header, emit_text, emit_uint,
    enc_array_header, enc_bytes, enc_map_header, enc_text, enc_uint, spec_be64,
};
use crate::error::Error;
use crate::strutil::{dec_digits, str_utf8_bytes, u64_to_dec};
use vstd::prelude::*;
use vstd::utf8::encode_utf8;

verus! {

/// The full header map of a response: the stored headers with the
/// `:status` pseudo-header inserted at its canonical place.
pub open spec fn spec_headers_pairs(r: ResponseView) -> PairSeq {
    spec_insert_sorted((status_key(), dec_digits(r.status as int)), r.headers)
}

/// Concatenation of the first `n` header pairs, each as two byte strings.
pub open spec fn spec_concat_header_pairs(ps: PairSeq, n: int) -> Seq<u8>
    decreases n,
{
    if n <= 0 {
        Seq::empty()
    } else {
        spec_concat_header_pairs(ps, n - 1) + enc_bytes(ps[n - 1].0) + enc_bytes(ps[n - 1].1)
    }
}

/// The embedded CBOR map holding a response's headers.
pub open spec fn spec_headers_blob(r: ResponseView) -> Seq<u8> {
    let ps = spec_headers_pairs(r);
    enc_map_header(ps.len() as int) + spec_concat_header_pairs(ps, ps.len() as int)
}

/// One element of the responses array: `[headers-bytes, body-bytes]`.
pub open spec fn spec_resp_entry(e: ExchangeView) -> Seq<u8> {
    enc_array_header(2) + enc_bytes(spec_headers_blob(e.response)) + enc_bytes(e.response.body)
}

/// Concatenation of the first `n` response entries.
pub open spec fn spec_resp_entries(exchs: Seq<ExchangeView>, n: int) -> Seq<u8>
    decreases n,
{
    if n <= 0 {
        Seq::empty()
    } else {
        spec_resp_entries(exchs, n - 1) + spec_resp_entry(exchs[n - 1])
    }
}

/// The whole responses section.
pub open spec fn spec_responses_section(exchs: Seq<ExchangeView>) -> Seq<u8> {
    enc_array_header(exchs.len() as int) + spec_resp_entries(exchs, exchs.len() as int)
}

/// The byte offset of exchange `i`'s response entry, measured from the
/// start of the responses section payload.
pub open spec fn spec_offset(exchs: Seq<ExchangeView>, i: int) -> int {
    enc_array_header(exchs.len() as int).len() + spec_resp_entries(exchs, i).len() as int
}

/// An index map value: a two-element array `[offset, length]`.
pub open spec fn spec_index_value(off: int, len: int) -> Seq<u8> {
    enc_array_header(2) + enc_uint(off) + enc_uint(len)
}

/// The index pairs in exchange order: the UTF-8 URL as key, the serialized
/// `[offset, length]` array as value.
pub open spec fn spec_index_pairs(exchs: Seq<ExchangeView>) -> PairSeq {
    Seq::new(
        exchs.len(),
        |i: int|
            (
                encode_utf8(exchs[i].request.url),
                spec_index_value(spec_offset(exchs, i), spec_resp_entry(exchs[i]).len() as int),
            ),
    )
}

/// The index pairs in canonical key order.
pub open spec fn spec_index_sorted(exchs: Seq<ExchangeView>) -> PairSeq {
    spec_sort_pairs(spec_index_pairs(exchs))
}

/// Concatenation of the first `n` index pairs: a text key, then the raw
/// serialized value.
pub open spec fn spec_concat_index_pairs(ps: PairSeq, n: int) -> Seq<u8>
    decreases n,
{
    if n <= 0 {
        Seq::empty()
    } else {
        spec_concat_index_pairs(ps, n - 1) + enc_text(ps[n - 1].0) + ps[n - 1].1
    }
}

/// The index section built over already-sorted pairs.
pub open spec fn spec_index_section_from(ps: PairSeq) -> Seq<u8> {
    enc_map_header(ps.len() as int) + spec_concat_index_pairs(ps, ps.len() as int)
}

/// The whole index section of a bundle.
pub open spec fn spec_index_section(exchs: Seq<ExchangeView>) -> Seq<u8> {
    spec_index_section_from(spec_index_sorted(exchs))
}

/// The sections of a bundle in emission order: `[primary?, index,
/// responses]`, each with its name.
pub open spec fn spec_sections(b: BundleView) -> PairSeq {
    let tail = seq![
        (name_index(), spec_index_section(b.exchanges)),
        (name_responses(), spec_responses_section(b.exchanges)),
    ];
    match b.primary_url {
        Some(u) => seq![(name_primary(), enc_text(encode_utf8(u)))] + tail,
        None => tail,
    }
}

/// Concatenation of the first `n` section-lengths entries: a text name and
/// an unsigned length.
pub open spec fn spec_concat_sec_lens(secs: PairSeq, n: int) -> Seq<u8>
    decreases n,
{
    if n <= 0 {
        Seq::empty()
    } else {
        spec_concat_sec_lens(secs, n - 1) + enc_text(secs[n - 1].0) + enc_uint(
            secs[n - 1].1.len() as int,
        )
    }
}

/// The embedded CBOR array `[name, length, name, length, ...]`.
pub open spec fn spec_section_lengths_blob(secs: PairSeq) -> Seq<u8> {
    enc_array_header(2 * secs.len() as int) + spec_concat_sec_lens(secs, secs.len() as int)
}

/// Concatenation of the first `n` section bodies.
pub open spec fn spec_concat_sec_blobs(secs: PairSeq, n: int) -> Seq<u8>
    decreases n,
{
    if n <= 0 {
        Seq::empty()
    } else {
        spec_concat_sec_blobs(secs, n - 1) + secs[n - 1].1
    }
}

/// Everything before the trailing length: the top-level array opener, the
/// magic, the version, the section-lengths blob, and the sections array.
pub open spec fn spec_encode_body(b: BundleView) -> Seq<u8> {
    let secs = spec_sections(b);
    enc_array_header(5) + enc_bytes(spec_magic()) + enc_bytes(b.version) + enc_bytes(
        spec_section_lengths_blob(secs),
    ) + enc_array_header(secs.len() as int) + spec_concat_sec_blobs(secs, secs.len() as int)
}

/// The encoded bundle: the body followed by its own total length (the
/// length counts the 8 bytes that hold it too) as a big-endian 64-bit value.
pub open spec fn spec_encode(b: BundleView) -> Seq<u8> {
    spec_encode_body(b) + spec_be64(spec_encode_body(b).len() as int + 8)
}

/// No two adjacent keys of the sorted index map are equal, so the map has a
/// canonical form; equal URLs would produce equal keys.
pub open spec fn index_no_dup(b: BundleView) -> bool {
    forall|i: int|
        0 <= i < spec_index_sorted(b.exchanges).len() - 1 ==> (
        #[trigger] spec_index_sorted(b.exchanges)[i]).0 != spec_index_sorted(b.exchanges)[i + 1].0
}

/// What encoding a bundle yields: its canonical bytes, or the error that
/// rejects it.  Duplicate URLs have no canonical index map; a body whose
/// total length does not fit the 64-bit trailing field cannot be framed.
pub open spec fn spec_encode_res(b: BundleView) -> Result<Seq<u8>, Error> {
    if !index_no_dup(b) {
        Err(Error::DuplicateUrl)
    } else if spec_encode_body(b).len() + 8 > 0xffffffffffffffff {
        Err(Error::TooLarge)
    } else {
        Ok(spec_encode(b))
    }
}

/// Serializes the header map of one response.
pub(crate) fn encode_headers_blob(resp: &Response) -> (r: Vec<u8>)
    ensures
        r@ == spec_headers_blob(resp@),
{
    let mut pairs = copy_pairs(resp.headers());
    let status_value = u64_to_dec(resp.status() as u64);
    insert_pair_sorted(&mut pairs, (status_key_bytes(), status_value));
    let ghost ps = spec_headers_pairs(resp@);
    proof {
        assert(pairs_view(pairs@) == ps);
    }
    let mut out: Vec<u8> = Vec::new();
    emit_map_header(&mut out, pairs.len() as u64);
    let n = pairs.len();
    let mut i: usize = 0;
    while i < n
        invariant
            i <= n,
            n == pairs@.len(),
            ps == pairs_view(pairs@),
            ps.len() == n,
            out@ == enc_map_header(n as int) + spec_concat_header_pairs(ps, i as int),
        decreases n - i,
    {
        proof {
            assert(ps[i as int] == (pairs@[i as int].0@, pairs@[i as int].1@));
        }
        emit_bytes(&mut out, pairs[i].0.as_slice());
        emit_bytes(&mut out, pairs[i].1.as_slice());
        i += 1;
    }
    out
}

/// Serializes the responses section and gathers the index pairs: for each
/// exchange its UTF-8 URL and its serialized `[offset, length]` value.
fn encode_response_section(exchanges: &[Exchange]) -> (r: (Vec<u8>, Vec<BytesPair>))
    ensures
        r.0@ == spec_responses_section(exchanges_view(exchanges@)),
        pairs_view(r.1@) == spec_index_pairs(exchanges_view(exchanges@)),
{
    let ghost ev = exchanges_view(exchanges@);
    let n = exchanges.len();
    let mut rbuf: Vec<u8> = Vec::new();
    emit_array_header(&mut rbuf, n as u64);
    let mut ipairs: Vec<BytesPair> = Vec::new();
    let mut i: usize = 0;
    while i < n
        invariant
            i <= n,
            n == exchanges@.len(),
            ev == exchanges_view(exchanges@),
            ev.len() == n,
            rbuf@ == enc_array_header(n as int) + spec_resp_entries(ev, i as int),
            ipairs@.len() == i,
            forall|j: int|
                0 <= j < i ==> #[trigger] pairs_view(ipairs@)[j] == spec_index_pairs(ev)[j],
        decreases n - i,
    {
        let ghost oldpairs = ipairs@;
        proof {
            assert(ev[i as int] == exchanges@[i as int]@);
        }
        let e = &exchanges[i];
        let offset = rbuf.len();
        proof {
            assert(offset as int == spec_offset(ev, i as int));
        }
        let hblob = encode_headers_blob(&e.response);
        emit_array_header(&mut rbuf, 2);
        emit_bytes(&mut rbuf, hblob.as_slice());
        emit_bytes(&mut rbuf, e.response.body().as_slice());
        proof {
            assert(rbuf@ =~= enc_array_header(n as int) + spec_resp_entries(ev, i as int)
                + spec_resp_entry(ev[i as int]));
            assert(spec_resp_entries(ev, i as int + 1) == spec_resp_entries(ev, i as int)
                + spec_resp_entry(ev[i as int]));
        }
        let entry_len = rbuf.len() - offset;
        proof {
            assert(entry_len as int == spec_resp_entry(ev[i as int]).len());
        }
        let mut vb: Vec<u8> = Vec::new();
        emit_array_header(&mut vb, 2);
        emit_uint(&mut vb, offset as u64);
        emit_uint(&mut vb, entry_len as u64);
        proof {
            assert(vb@ =~= spec_index_value(offset as int, entry_len as int));
        }
        let url_bytes = str_utf8_bytes(e.request.url().as_str());
        ipairs.push((url_bytes, vb));
        proof {
            assert forall|j: int| 0 <= j < i + 1 implies #[trigger] pairs_view(ipairs@)[j]
                == spec_index_pairs(ev)[j] by {
                if j < i {
                    assert(ipairs@[j] == oldpairs[j]);
                    assert(pairs_view(ipairs@)[j] == (ipairs@[j].0@, ipairs@[j].1@));
                    assert(pairs_view(oldpairs)[j] == (oldpairs[j].0@, oldpairs[j].1@));
                } else {
                    assert(pairs_view(ipairs@)[j] == (ipairs@[j].0@, ipairs@[j].1@));
                    assert(spec_index_pairs(ev)[j] == (
                        encode_utf8(ev[j].request.url),
                        spec_index_value(spec_offset(ev, j), spec_resp_entry(ev[j]).len() as int),
                    ));
                }
            }
        }
        i += 1;
    }
    proof {
        assert(pairs_view(ipairs@) =~= spec_index_pairs(ev));
    }
    (rbuf, ipairs)
}

/// Serializes the index section from the sorted pairs.
fn encode_index_section(sorted: &Vec<BytesPair>) -> (r: Vec<u8>)
    ensures
        r@ == spec_index_section_from(pairs_view(sorted@)),
{
    let ghost ps = pairs_view(sorted@);
    let mut out: Vec<u8> = Vec::new();
    emit_map_header(&mut out, sorted.len() as u64);
    let n = sorted.len();
    let mut i: usize = 0;
    while i < n
        invariant
            i <= n,
            n == sorted@.len(),
            ps == pairs_view(sorted@),
            ps.len() == n,
            out@ == enc_map_header(n as int) + spec_concat_index_pairs(ps, i as int),
        decreases n - i,
    {
        proof {
            assert(ps[i as int] == (sorted@[i as int].0@, sorted@[i as int].1@));
        }
        emit_text(&mut out, sorted[i].0.as_slice());
        let ghost before = out@;
        out.extend_from_slice(sorted[i].1.as_slice());
        proof {
            assert(out@ =~= before + ps[i as int].1);
        }
        i += 1;
    }
    out
}

/// Serializes the section-lengths blob.
fn encode_section_lengths(secs: &Vec<BytesPair>) -> (r: Vec<u8>)
    requires
        secs@.len() <= 8,
    ensures
        r@ == spec_section_lengths_blob(pairs_view(secs@)),
{
    let ghost ps = pairs_view(secs@);
    let mut out: Vec<u8> = Vec::new();
    let n = secs.len();
    emit_array_header(&mut out, 2 * (n as u64));
    proof {
        assert(2 * (n as u64) as int == 2 * ps.len());
    }
    let mut i: usize = 0;
    while i < n
        invariant
            i <= n,
            n == secs@.len(),
            ps == pairs_view(secs@),
            ps.len() == n,
            out@ == enc_array_header(2 * n as int) + spec_concat_sec_lens(ps, i as int),
        decreases n - i,
    {
        proof {
            assert(ps[i as int] == (secs@[i as int].0@, secs@[i as int].1@));
        }
        emit_text(&mut out, secs[i].0.as_slice());
        emit_uint(&mut out, secs[i].1.len() as u64);
        i += 1;
    }
    out
}

/// Whether no two adjacent keys are equal.
fn adjacent_keys_distinct(sorted: &Vec<BytesPair>) -> (r: bool)
    ensures
        r == (forall|j: int|
            0 <= j < pairs_view(sorted@).len() - 1 ==> (#[trigger] pairs_view(sorted@)[j]).0
                != pairs_view(sorted@)[j + 1].0),
{
    let ghost ps = pairs_view(sorted@);
    if sorted.len() == 0 {
        return true;
    }
    let sn = sorted.len() - 1;
    let mut i: usize = 0;
    while i < sn
        invariant
            i <= sn,
            sn + 1 == sorted@.len(),
            ps == pairs_view(sorted@),
            ps.len() == sn + 1,
            forall|j: int| 0 <= j < i ==> (#[trigger] ps[j]).0 != ps[j + 1].0,
        decreases sn - i,
    {
        proof {
            assert(ps[i as int] == (sorted@[i as int].0@, sorted@[i as int].1@));
            assert(ps[i as int + 1] == (sorted@[i as int + 1].0@, sorted@[i as int + 1].1@));
        }
        if bytes_eq(sorted[i].0.as_slice(), sorted[i + 1].0.as_slice()) {
            return false;
        }
        i += 1;
    }
    true
}

/// Concatenates the section bodies in order.
fn concat_section_blobs(secs: &Vec<BytesPair>) -> (r: Vec<u8>)
    ensures
        r@ == spec_concat_sec_blobs(pairs_view(secs@), pairs_view(secs@).len() as int),
{
    let ghost ps = pairs_view(secs@);
    let mut out: Vec<u8> = Vec::new();
    let n = secs.len();
    let mut i: usize = 0;
    proof {
        assert(out@ =~= spec_concat_sec_blobs(ps, 0));
    }
    while i < n
        invariant
            i <= n,
            n == secs@.len(),
            ps == pairs_view(secs@),
            ps.len() == n,
            out@ == spec_concat_sec_blobs(ps, i as int),
        decreases n - i,
    {
        proof {
            assert(ps[i as int] == (secs@[i as int].0@, secs@[i as int].1@));
        }
        let ghost before = out@;
        out.extend_from_slice(secs[i].1.as_slice());
        proof {
            assert(out@ =~= before + ps[i as int].1);
        }
        i += 1;
    }
    out
}

impl Bundle {
    /// Encodes this bundle into canonical CBOR bytes.
    pub fn encode(&self) -> (r: Result<Vec<u8>, Error>)
        ensures
            ({
                let s = spec_encode_res(self@);
                match (r, s) {
                    (Ok(v), Ok(sv)) => v@ == sv,
                    (Err(e), Err(se)) => e == se,
                    _ => false,
                }
            }),
    {
        let ghost bv = self@;
        let exchanges = self.exchanges();
        let ghost ev = exchanges_view(exchanges@);
        proof {
            assert(ev == bv.exchanges);
        }
        let (responses_blob, ipairs) = encode_response_section(exchanges);
        let sorted = sort_pairs(ipairs);
        proof {
            assert(pairs_view(sorted@) == spec_index_sorted(ev));
        }
        if !adjacent_keys_distinct(&sorted) {
            proof {
                assert(!index_no_dup(bv));
            }
            return Err(Error::DuplicateUrl);
        }
        proof {
            assert(index_no_dup(bv));
        }
        let index_blob = encode_index_section(&sorted);
        let mut secs: Vec<BytesPair> = Vec::new();
        match self.primary_url() {
            Some(u) => {
                let mut pblob: Vec<u8> = Vec::new();
                let url_bytes = str_utf8_bytes(u.as_str());
                emit_text(&mut pblob, url_bytes.as_slice());
                secs.push((name_primary_bytes(), pblob));
            },
            None => {},
        }
        secs.push((name_index_bytes(), index_blob));
        secs.push((name_responses_bytes(), responses_blob));
        proof {
            assert(pairs_view(secs@) =~= spec_sections(bv));
        }
        let lens_blob = encode_section_lengths(&secs);
        let blobs = concat_section_blobs(&secs);
        let mut out: Vec<u8> = Vec::new();
        emit_array_header(&mut out, 5);
        let magic = magic_bytes();
        emit_bytes(&mut out, magic.as_slice());
        let version = self.version_bytes_vec();
        emit_bytes(&mut out, version.as_slice());
        emit_bytes(&mut out, lens_blob.as_slice());
        emit_array_header(&mut out, secs.len() as u64);
        let ghost before_blobs = out@;
        out.extend_from_slice(blobs.as_slice());
        proof {
            assert(out@ =~= before_blobs + blobs@);
            assert(out@ == spec_encode_body(bv));
        }
        if out.len() as u64 > 0xffffffffffffffff - 8 {
            return Err(Error::TooLarge);
        }
        let total: u64 = out.len() as u64 + 8;
        emit_be64(&mut out, total);
        Ok(out)
    }
}

} // verus!
