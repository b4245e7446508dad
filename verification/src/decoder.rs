//! The decoder: parses a byte slice into a validated `Bundle`.
//!
//! `spec_parse` defines, step for step, what the decoder accepts and which
//! error rejects a malformed input; `Bundle::from_bytes` is proved to
//! return exactly that result.  Decoding never returns a partial bundle.

use crate::bundle::{
    b2_bytes_vec, bundle_from_parts, exchanges_view, name_critical, name_critical_bytes,
    name_index, name_index_bytes, name_primary, name_primary_bytes, name_responses,
    name_responses_bytes, spec_magic, status_key, status_key_bytes, v1_bytes_vec,
    valid_header_name, valid_header_name_exec, Bundle, BundleView, Exchange, ExchangeView,
    Request, RequestView, Response, ResponseView, Version,
};
use crate::canon::{
    bytes_eq, dedup_keep_last, dedup_pairs_keep_last, keys_distinct, lemma_dedup_props, pair_in,
    pairs_view, spec_sort_pairs, BytesPair, PairSeq,
};
use crate::cbor::{
    read_array_header, read_bytes, read_map_header, read_text, read_uint, spec_read_array_header,
    spec_read_bytes, spec_read_map_header, spec_read_text, spec_read_uint,
};
use crate::error::Error;
use vstd::prelude::*;
use vstd::utf8::decode_utf8;

verus! {

/// The status code held in an ASCII decimal `:status` value: exactly three
/// digits, in `[100, 599]`.
pub open spec fn spec_status_of(v: Seq<u8>) -> Option<int> {
    if v.len() == 3 && (forall|i: int| 0 <= i < 3 ==> 0x30 <= #[trigger] v[i] <= 0x39) {
        let val = (v[0] - 0x30) * 100 + (v[1] - 0x30) * 10 + (v[2] - 0x30);
        if 100 <= val <= 599 {
            Some(val as int)
        } else {
            None
        }
    } else {
        None
    }
}

/// Reads `m` name/value pairs of a response-header map.  `:status` is
/// diverted into the status (exactly once); every other name must be a
/// valid lowercase ASCII header name.  Values are opaque bytes.
pub open spec fn spec_parse_header_pairs(
    hb: Seq<u8>,
    pos: int,
    m: int,
    status: Option<int>,
    acc: PairSeq,
) -> Result<(int, PairSeq), Error>
    decreases m,
{
    if m <= 0 {
        match status {
            Some(st) => Ok((st, acc)),
            None => Err(Error::BadHeader),
        }
    } else {
        match spec_read_bytes(hb, pos, hb.len() as int) {
            None => Err(Error::MalformedCbor),
            Some((name, p1)) => match spec_read_bytes(hb, p1, hb.len() as int) {
                None => Err(Error::MalformedCbor),
                Some((value, p2)) => {
                    if name.len() > 0 && name[0] == 0x3a {
                        if name != status_key() {
                            Err(Error::BadHeader)
                        } else if status is Some {
                            Err(Error::BadHeader)
                        } else {
                            match spec_status_of(value) {
                                Some(st) => spec_parse_header_pairs(hb, p2, m - 1, Some(st), acc),
                                None => Err(Error::BadHeader),
                            }
                        }
                    } else if !valid_header_name(name) {
                        Err(Error::BadHeader)
                    } else {
                        spec_parse_header_pairs(hb, p2, m - 1, status, acc.push((name, value)))
                    }
                },
            },
        }
    }
}

/// Parses an embedded response-header map: the status, and the headers in
/// canonical order with a repeated name keeping its last value.
pub open spec fn spec_parse_headers_blob(hb: Seq<u8>) -> Result<(int, PairSeq), Error> {
    match spec_read_map_header(hb, 0, hb.len() as int) {
        None => Err(Error::MalformedCbor),
        Some((m, p)) => match spec_parse_header_pairs(hb, p, m, None, Seq::empty()) {
            Ok((st, acc)) => Ok((st, spec_sort_pairs(dedup_keep_last(acc)))),
            Err(e) => Err(e),
        },
    }
}

/// Parses one response entry `[headers-bytes, body-bytes]` inside
/// `b[start..end]`.
pub open spec fn spec_parse_response(b: Seq<u8>, start: int, end: int) -> Result<
    ResponseView,
    Error,
> {
    match spec_read_array_header(b, start, end) {
        None => Err(Error::MalformedCbor),
        Some((c, p0)) => if c != 2 {
            Err(Error::MalformedCbor)
        } else {
            match spec_read_bytes(b, p0, end) {
                None => Err(Error::MalformedCbor),
                Some((hb, p1)) => match spec_parse_headers_blob(hb) {
                    Err(e) => Err(e),
                    Ok((st, headers)) => match spec_read_bytes(b, p1, end) {
                        None => Err(Error::MalformedCbor),
                        Some((body, _p2)) => Ok(
                            ResponseView { status: st as u16, headers, body },
                        ),
                    },
                },
            }
        },
    }
}

/// One index entry: a URL and the offset and length of its response entry,
/// both relative to the responses section payload.
pub struct IndexEntry {
    pub url: Seq<char>,
    pub off: int,
    pub len: int,
}

/// Reads `m` entries of the index map.  A value is `[offset, length]`; the
/// historical 3-element form `[variant-key, offset, length]` is accepted
/// only with an empty variant key.
pub open spec fn spec_parse_index_entries(
    b: Seq<u8>,
    pos: int,
    end: int,
    m: int,
    acc: Seq<IndexEntry>,
) -> Result<Seq<IndexEntry>, Error>
    decreases m,
{
    if m <= 0 {
        Ok(acc)
    } else {
        match spec_read_text(b, pos, end) {
            None => Err(Error::MalformedCbor),
            Some((kb, p1)) => match spec_read_array_header(b, p1, end) {
                None => Err(Error::MalformedCbor),
                Some((c, p2)) => {
                    if c == 2 {
                        match spec_read_uint(b, p2, end) {
                            None => Err(Error::MalformedCbor),
                            Some((off, p3)) => match spec_read_uint(b, p3, end) {
                                None => Err(Error::MalformedCbor),
                                Some((ln, p4)) => spec_parse_index_entries(
                                    b,
                                    p4,
                                    end,
                                    m - 1,
                                    acc.push(IndexEntry { url: decode_utf8(kb), off, len: ln }),
                                ),
                            },
                        }
                    } else if c == 3 {
                        match spec_read_bytes(b, p2, end) {
                            None => Err(Error::MalformedCbor),
                            Some((vk, p3)) => if vk.len() != 0 {
                                Err(Error::UnsupportedVariants)
                            } else {
                                match spec_read_uint(b, p3, end) {
                                    None => Err(Error::MalformedCbor),
                                    Some((off, p4)) => match spec_read_uint(b, p4, end) {
                                        None => Err(Error::MalformedCbor),
                                        Some((ln, p5)) => spec_parse_index_entries(
                                            b,
                                            p5,
                                            end,
                                            m - 1,
                                            acc.push(
                                                IndexEntry { url: decode_utf8(kb), off, len: ln },
                                            ),
                                        ),
                                    },
                                }
                            },
                        }
                    } else {
                        Err(Error::BadIndex)
                    }
                },
            },
        }
    }
}

/// Parses the index section inside `b[start..end]`.
pub open spec fn spec_parse_index(b: Seq<u8>, start: int, end: int) -> Result<
    Seq<IndexEntry>,
    Error,
> {
    match spec_read_map_header(b, start, end) {
        None => Err(Error::MalformedCbor),
        Some((m, p)) => spec_parse_index_entries(b, p, end, m, Seq::empty()),
    }
}

/// A section name this decoder implements.
pub open spec fn known_section_name(n: Seq<u8>) -> bool {
    n == name_index() || n == name_primary() || n == name_responses() || n == name_critical()
}

/// Reads `m` names of the `critical` section; a demanded section this
/// decoder does not implement is a fatal error.
pub open spec fn spec_parse_critical_items(b: Seq<u8>, pos: int, end: int, m: int) -> Result<
    (),
    Error,
>
    decreases m,
{
    if m <= 0 {
        Ok(())
    } else {
        match spec_read_text(b, pos, end) {
            None => Err(Error::MalformedCbor),
            Some((n, p1)) => if !known_section_name(n) {
                Err(Error::CriticalUnknown)
            } else {
                spec_parse_critical_items(b, p1, end, m - 1)
            },
        }
    }
}

/// Parses the `critical` section inside `b[start..end]`.
pub open spec fn spec_parse_critical(b: Seq<u8>, start: int, end: int) -> Result<(), Error> {
    match spec_read_array_header(b, start, end) {
        None => Err(Error::MalformedCbor),
        Some((m, p)) => spec_parse_critical_items(b, p, end, m),
    }
}

/// Some already-read section-lengths entry carries the name `n`.
pub open spec fn sec_has_name(acc: Seq<(Seq<u8>, int)>, n: Seq<u8>) -> bool {
    exists|i: int| 0 <= i < acc.len() && acc[i].0 == n
}

/// Reads `k` `(name, length)` pairs out of the section-lengths blob,
/// rejecting a repeated name.
pub open spec fn spec_parse_sec_pairs(
    blob: Seq<u8>,
    pos: int,
    k: int,
    acc: Seq<(Seq<u8>, int)>,
) -> Result<Seq<(Seq<u8>, int)>, Error>
    decreases k,
{
    if k <= 0 {
        Ok(acc)
    } else {
        match spec_read_text(blob, pos, blob.len() as int) {
            None => Err(Error::MalformedCbor),
            Some((name, p1)) => if sec_has_name(acc, name) {
                Err(Error::DuplicateSection)
            } else {
                match spec_read_uint(blob, p1, blob.len() as int) {
                    None => Err(Error::MalformedCbor),
                    Some((ln, p2)) => spec_parse_sec_pairs(blob, p2, k - 1, acc.push((name, ln))),
                }
            },
        }
    }
}

/// Parses the fixed prelude: the 5-element array opener, the magic, the
/// version, and the section-lengths blob with its `(name, length)` pairs.
/// Yields the version bytes, the pairs, and the position after the blob.
pub open spec fn spec_parse_meta(b: Seq<u8>) -> Result<
    (Seq<u8>, Seq<(Seq<u8>, int)>, int),
    Error,
> {
    let end = b.len() as int;
    match spec_read_array_header(b, 0, end) {
        None => Err(Error::MalformedCbor),
        Some((c, p0)) => if c != 5 {
            Err(Error::MalformedCbor)
        } else {
            match spec_read_bytes(b, p0, end) {
                None => Err(Error::MalformedCbor),
                Some((magic, p1)) => if magic != spec_magic() {
                    Err(Error::BadMagic)
                } else {
                    match spec_read_bytes(b, p1, end) {
                        None => Err(Error::MalformedCbor),
                        Some((vb, p2)) => if vb.len() != 4 {
                            Err(Error::BadVersion)
                        } else {
                            match spec_read_bytes(b, p2, end) {
                                None => Err(Error::MalformedCbor),
                                Some((blob, p3)) => if blob.len() >= 8192 {
                                    Err(Error::SectionTableTooLarge)
                                } else {
                                    match spec_read_array_header(blob, 0, blob.len() as int) {
                                        None => Err(Error::MalformedCbor),
                                        Some((k2, q)) => match spec_parse_sec_pairs(
                                            blob,
                                            q,
                                            k2 / 2,
                                            Seq::empty(),
                                        ) {
                                            Err(e) => Err(e),
                                            Ok(pairs) => if pairs.len() == 0 {
                                                Err(Error::MissingResponses)
                                            } else if pairs.last().0 != name_responses() {
                                                Err(Error::MissingResponses)
                                            } else {
                                                Ok((vb, pairs, p3))
                                            },
                                        },
                                    }
                                },
                            }
                        },
                    }
                },
            }
        },
    }
}

/// Turns the `(name, length)` pairs into absolute `(name, offset, length)`
/// triples starting at `cur`, rejecting a section that runs past the
/// buffer.  Yields the triples and the end of the last section.
pub open spec fn spec_sec_offsets(
    pairs: Seq<(Seq<u8>, int)>,
    blen: int,
    i: int,
    acc: Seq<(Seq<u8>, int, int)>,
    cur: int,
) -> Result<(Seq<(Seq<u8>, int, int)>, int), Error>
    decreases pairs.len() - i,
{
    if i >= pairs.len() {
        Ok((acc, cur))
    } else {
        let ln = pairs[i].1;
        if ln > blen - cur {
            Err(Error::MalformedCbor)
        } else {
            spec_sec_offsets(pairs, blen, i + 1, acc.push((pairs[i].0, cur, ln)), cur + ln)
        }
    }
}

/// The value of the 8 trailing big-endian bytes at `pos`.
pub open spec fn spec_be64_value(b: Seq<u8>, pos: int) -> int {
    b[pos] * 0x100000000000000 + b[pos + 1] * 0x1000000000000 + b[pos + 2] * 0x10000000000 + b[pos
        + 3] * 0x100000000 + b[pos + 4] * 0x1000000 + b[pos + 5] * 0x10000 + b[pos + 6] * 0x100
        + b[pos + 7]
}

/// Parses the container frame: the prelude, the sections array header, the
/// absolute section offsets, and the trailing length, which must equal the
/// buffer length.
pub open spec fn spec_parse_frame(b: Seq<u8>) -> Result<
    (Seq<u8>, Seq<(Seq<u8>, int, int)>),
    Error,
> {
    match spec_parse_meta(b) {
        Err(e) => Err(e),
        Ok((vb, pairs, p3)) => match spec_read_array_header(b, p3, b.len() as int) {
            None => Err(Error::MalformedCbor),
            Some((cnt, p4)) => if cnt != pairs.len() {
                Err(Error::SectionCountMismatch)
            } else {
                match spec_sec_offsets(pairs, b.len() as int, 0, Seq::empty(), p4) {
                    Err(e) => Err(e),
                    Ok((offs, secend)) => if b.len() - secend < 8 {
                        Err(Error::MalformedCbor)
                    } else if b.len() - secend > 8 {
                        Err(Error::BadTrailingLength)
                    } else if spec_be64_value(b, secend) != b.len() {
                        Err(Error::BadTrailingLength)
                    } else {
                        Ok((vb, offs))
                    },
                }
            },
        },
    }
}

/// Processes one section: the index yields the request entries, `primary`
/// the primary URL, `critical` is validated, and any other section
/// (`responses` too, which is deferred) is skipped.
pub open spec fn spec_section_step(
    b: Seq<u8>,
    name: Seq<u8>,
    off: int,
    ln: int,
    entries: Seq<IndexEntry>,
    primary: Option<Seq<char>>,
) -> Result<(Seq<IndexEntry>, Option<Seq<char>>), Error> {
    if name == name_index() {
        match spec_parse_index(b, off, off + ln) {
            Err(e) => Err(e),
            Ok(es) => Ok((es, primary)),
        }
    } else if name == name_primary() {
        match spec_read_text(b, off, off + ln) {
            None => Err(Error::MalformedCbor),
            Some((ub, _p)) => Ok((entries, Some(decode_utf8(ub)))),
        }
    } else if name == name_critical() {
        match spec_parse_critical(b, off, off + ln) {
            Err(e) => Err(e),
            Ok(u) => Ok((entries, primary)),
        }
    } else {
        Ok((entries, primary))
    }
}

/// Walks the sections in their listed order.
pub open spec fn spec_parse_sections(
    b: Seq<u8>,
    offs: Seq<(Seq<u8>, int, int)>,
    i: int,
    entries: Seq<IndexEntry>,
    primary: Option<Seq<char>>,
) -> Result<(Seq<IndexEntry>, Option<Seq<char>>), Error>
    decreases offs.len() - i,
{
    if i >= offs.len() {
        Ok((entries, primary))
    } else {
        match spec_section_step(b, offs[i].0, offs[i].1, offs[i].2, entries, primary) {
            Err(e) => Err(e),
            Ok((es, pu)) => spec_parse_sections(b, offs, i + 1, es, pu),
        }
    }
}

/// Reads the response of one index entry out of the responses section
/// payload `b[roff..roff+rlen]`; an entry pointing outside it is rejected.
pub open spec fn spec_exchange_step(b: Seq<u8>, e: IndexEntry, roff: int, rlen: int) -> Result<
    ExchangeView,
    Error,
> {
    if e.off + e.len > rlen {
        Err(Error::BadIndex)
    } else {
        match spec_parse_response(b, roff + e.off, roff + e.off + e.len) {
            Err(er) => Err(er),
            Ok(resp) => Ok(
                ExchangeView {
                    request: RequestView { url: e.url, headers: Seq::empty() },
                    response: resp,
                },
            ),
        }
    }
}

/// Reads the response of each index entry.
pub open spec fn spec_parse_exchanges(
    b: Seq<u8>,
    entries: Seq<IndexEntry>,
    i: int,
    roff: int,
    rlen: int,
    acc: Seq<ExchangeView>,
) -> Result<Seq<ExchangeView>, Error>
    decreases entries.len() - i,
{
    if i >= entries.len() {
        Ok(acc)
    } else {
        match spec_exchange_step(b, entries[i], roff, rlen) {
            Err(e) => Err(e),
            Ok(x) => spec_parse_exchanges(b, entries, i + 1, roff, rlen, acc.push(x)),
        }
    }
}

/// What parsing a byte sequence yields: the bundle's mathematical content,
/// or the first error in decode order.
pub open spec fn spec_parse(b: Seq<u8>) -> Result<BundleView, Error> {
    match spec_parse_frame(b) {
        Err(e) => Err(e),
        Ok((vb, offs)) => match spec_parse_sections(b, offs, 0, Seq::empty(), None) {
            Err(e) => Err(e),
            Ok((entries, primary)) => {
                let rsec = offs.last();
                match spec_parse_exchanges(b, entries, 0, rsec.1, rsec.2, Seq::empty()) {
                    Err(e) => Err(e),
                    Ok(exchs) => Ok(
                        BundleView { version: vb, primary_url: primary, exchanges: exchs },
                    ),
                }
            },
        },
    }
}

/// Decides `spec_status_of`.
fn status_of_exec(v: &[u8]) -> (r: Option<u16>)
    ensures
        match r {
            Some(st) => spec_status_of(v@) == Some(st as int),
            None => spec_status_of(v@) is None,
        },
{
    if v.len() != 3 {
        return None;
    }
    let b0 = v[0];
    let b1 = v[1];
    let b2 = v[2];
    if b0 < 0x30 || b0 > 0x39 || b1 < 0x30 || b1 > 0x39 || b2 < 0x30 || b2 > 0x39 {
        return None;
    }
    assert(forall|i: int| 0 <= i < 3 ==> 0x30 <= #[trigger] v@[i] <= 0x39);
    let val: u16 = (b0 - 0x30) as u16 * 100 + (b1 - 0x30) as u16 * 10 + (b2 - 0x30) as u16;
    if val < 100 || val > 599 {
        None
    } else {
        Some(val)
    }
}

/// The ghost image of an optional status.
pub open spec fn status_view(st: Option<u16>) -> Option<int> {
    match st {
        Some(s) => Some(s as int),
        None => None,
    }
}

/// Parses one embedded response-header map.
#[verifier::rlimit(90)]
#[verifier::loop_isolation(false)]
fn parse_headers_blob(hb: &[u8]) -> (r: Result<(u16, Vec<BytesPair>), Error>)
    ensures
        match r {
            Ok((st, dd)) => {
                &&& spec_parse_headers_blob(hb@) == Ok::<(int, PairSeq), Error>(
                    (st as int, spec_sort_pairs(pairs_view(dd@))),
                )
                &&& 100 <= st <= 599
                &&& forall|i: int|
                    0 <= i < pairs_view(dd@).len() ==> valid_header_name(
                        (#[trigger] pairs_view(dd@)[i]).0,
                    )
                &&& keys_distinct(pairs_view(dd@))
            },
            Err(e) => spec_parse_headers_blob(hb@) == Err::<(int, PairSeq), Error>(e),
        },
{
    let end = hb.len();
    let (m, p0) = match read_map_header(hb, 0, end) {
        Some(x) => x,
        None => {
            return Err(Error::MalformedCbor);
        },
    };
    let mut rem: u64 = m;
    let mut pos: usize = p0;
    let mut status: Option<u16> = None;
    let mut acc: Vec<BytesPair> = Vec::new();
    proof {
        assert(pairs_view(acc@) =~= Seq::<(Seq<u8>, Seq<u8>)>::empty());
    }
    while rem > 0
        invariant
            pos <= end <= hb@.len(),
            spec_parse_header_pairs(hb@, p0 as int, m as int, None, Seq::empty())
                == spec_parse_header_pairs(
                hb@,
                pos as int,
                rem as int,
                status_view(status),
                pairs_view(acc@),
            ),
            forall|i: int|
                0 <= i < pairs_view(acc@).len() ==> valid_header_name(
                    (#[trigger] pairs_view(acc@)[i]).0,
                ),
            match status {
                Some(st) => 100 <= st <= 599,
                None => true,
            },
        decreases rem,
    {
        let (name, p1) = match read_bytes(hb, pos, end) {
            Some(x) => x,
            None => {
                return Err(Error::MalformedCbor);
            },
        };
        let (value, p2) = match read_bytes(hb, p1, end) {
            Some(x) => x,
            None => {
                return Err(Error::MalformedCbor);
            },
        };
        if name.len() > 0 && name[0] == 0x3a {
            let skey = status_key_bytes();
            if !bytes_eq(name.as_slice(), skey.as_slice()) {
                return Err(Error::BadHeader);
            }
            if status.is_some() {
                return Err(Error::BadHeader);
            }
            match status_of_exec(value.as_slice()) {
                Some(st) => {
                    status = Some(st);
                },
                None => {
                    return Err(Error::BadHeader);
                },
            }
        } else {
            if !valid_header_name_exec(name.as_slice()) {
                return Err(Error::BadHeader);
            }
            let ghost oldacc = acc@;
            let ghost namev = name@;
            let ghost valuev = value@;
            acc.push((name, value));
            proof {
                assert(pairs_view(acc@) =~= pairs_view(oldacc).push((namev, valuev)));
            }
        }
        pos = p2;
        rem = rem - 1;
    }
    match status {
        None => Err(Error::BadHeader),
        Some(st) => {
            let dd = dedup_pairs_keep_last(&acc);
            proof {
                lemma_dedup_props(pairs_view(acc@));
                let ddv = dedup_keep_last(pairs_view(acc@));
                assert forall|i: int| 0 <= i < ddv.len() implies valid_header_name(
                    (#[trigger] ddv[i]).0,
                ) by {
                    assert(pair_in(pairs_view(acc@), ddv[i]));
                    let j = choose|j: int|
                        0 <= j < pairs_view(acc@).len() && pairs_view(acc@)[j] == ddv[i];
                }
            }
            Ok((st, dd))
        },
    }
}

/// Parses one response entry inside `buf[start..end]`.
#[verifier::rlimit(90)]
#[verifier::loop_isolation(false)]
fn parse_response(buf: &[u8], start: usize, end: usize) -> (r: Result<Response, Error>)
    requires
        start <= end <= buf@.len(),
    ensures
        match r {
            Ok(resp) => spec_parse_response(buf@, start as int, end as int) == Ok::<
                ResponseView,
                Error,
            >(resp@) && resp.wf(),
            Err(e) => spec_parse_response(buf@, start as int, end as int) == Err::<
                ResponseView,
                Error,
            >(e),
        },
{
    let (c, p0) = match read_array_header(buf, start, end) {
        Some(x) => x,
        None => {
            return Err(Error::MalformedCbor);
        },
    };
    if c != 2 {
        return Err(Error::MalformedCbor);
    }
    let (hblob, p1) = match read_bytes(buf, p0, end) {
        Some(x) => x,
        None => {
            return Err(Error::MalformedCbor);
        },
    };
    let (st, dd) = match parse_headers_blob(hblob.as_slice()) {
        Ok(x) => x,
        Err(e) => {
            return Err(e);
        },
    };
    let (body, _p2) = match read_bytes(buf, p1, end) {
        Some(x) => x,
        None => {
            return Err(Error::MalformedCbor);
        },
    };
    let resp_opt = Response::new(st, dd, body);
    assert(resp_opt is Some);
    let resp = resp_opt.unwrap();
    Ok(resp)
}

/// The ghost image of the decoded index entries.
pub open spec fn entries_view(v: Seq<(String, u64, u64)>) -> Seq<IndexEntry> {
    Seq::new(
        v.len(),
        |i: int| IndexEntry { url: v[i].0@, off: v[i].1 as int, len: v[i].2 as int },
    )
}

/// Parses the index section inside `buf[start..end]`.
#[verifier::rlimit(90)]
#[verifier::loop_isolation(false)]
fn parse_index(buf: &[u8], start: usize, end: usize) -> (r: Result<Vec<(String, u64, u64)>, Error>)
    requires
        start <= end <= buf@.len(),
    ensures
        match r {
            Ok(v) => spec_parse_index(buf@, start as int, end as int) == Ok::<
                Seq<IndexEntry>,
                Error,
            >(entries_view(v@)),
            Err(e) => spec_parse_index(buf@, start as int, end as int) == Err::<
                Seq<IndexEntry>,
                Error,
            >(e),
        },
{
    let (m, p0) = match read_map_header(buf, start, end) {
        Some(x) => x,
        None => {
            return Err(Error::MalformedCbor);
        },
    };
    let mut rem: u64 = m;
    let mut pos: usize = p0;
    let mut acc: Vec<(String, u64, u64)> = Vec::new();
    proof {
        assert(entries_view(acc@) =~= Seq::<IndexEntry>::empty());
    }
    while rem > 0
        invariant
            pos <= end <= buf@.len(),
            spec_parse_index_entries(buf@, p0 as int, end as int, m as int, Seq::empty())
                == spec_parse_index_entries(
                buf@,
                pos as int,
                end as int,
                rem as int,
                entries_view(acc@),
            ),
        decreases rem,
    {
        let (url, kb, p1) = match read_text(buf, pos, end) {
            Some(x) => x,
            None => {
                return Err(Error::MalformedCbor);
            },
        };
        let (c, p2) = match read_array_header(buf, p1, end) {
            Some(x) => x,
            None => {
                return Err(Error::MalformedCbor);
            },
        };
        let mut q: usize = p2;
        if c == 3 {
            let (vk, p3) = match read_bytes(buf, p2, end) {
                Some(x) => x,
                None => {
                    return Err(Error::MalformedCbor);
                },
            };
            if vk.len() != 0 {
                return Err(Error::UnsupportedVariants);
            }
            q = p3;
        } else if c != 2 {
            return Err(Error::BadIndex);
        }
        let (off, p4) = match read_uint(buf, q, end) {
            Some(x) => x,
            None => {
                return Err(Error::MalformedCbor);
            },
        };
        let (ln, p5) = match read_uint(buf, p4, end) {
            Some(x) => x,
            None => {
                return Err(Error::MalformedCbor);
            },
        };
        let ghost oldacc = acc@;
        acc.push((url, off, ln));
        proof {
            assert(entries_view(acc@) =~= entries_view(oldacc).push(
                IndexEntry { url: decode_utf8(kb@), off: off as int, len: ln as int },
            ));
        }
        pos = p5;
        rem = rem - 1;
    }
    Ok(acc)
}

/// Parses the `critical` section inside `buf[start..end]`.
#[verifier::rlimit(90)]
#[verifier::loop_isolation(false)]
fn parse_critical(buf: &[u8], start: usize, end: usize) -> (r: Result<(), Error>)
    requires
        start <= end <= buf@.len(),
    ensures
        match r {
            Ok(u) => spec_parse_critical(buf@, start as int, end as int) == Ok::<(), Error>(()),
            Err(e) => spec_parse_critical(buf@, start as int, end as int) == Err::<(), Error>(e),
        },
{
    let (m, p0) = match read_array_header(buf, start, end) {
        Some(x) => x,
        None => {
            return Err(Error::MalformedCbor);
        },
    };
    let mut rem: u64 = m;
    let mut pos: usize = p0;
    while rem > 0
        invariant
            pos <= end <= buf@.len(),
            spec_parse_critical_items(buf@, p0 as int, end as int, m as int)
                == spec_parse_critical_items(buf@, pos as int, end as int, rem as int),
        decreases rem,
    {
        let (_s, nb, p1) = match read_text(buf, pos, end) {
            Some(x) => x,
            None => {
                return Err(Error::MalformedCbor);
            },
        };
        let idx = name_index_bytes();
        let pri = name_primary_bytes();
        let rsp = name_responses_bytes();
        let crt = name_critical_bytes();
        let known = bytes_eq(nb.as_slice(), idx.as_slice()) || bytes_eq(
            nb.as_slice(),
            pri.as_slice(),
        ) || bytes_eq(nb.as_slice(), rsp.as_slice()) || bytes_eq(nb.as_slice(), crt.as_slice());
        if !known {
            return Err(Error::CriticalUnknown);
        }
        pos = p1;
        rem = rem - 1;
    }
    Ok(())
}

/// The ghost image of the section-lengths pairs.
pub open spec fn secs_view(v: Seq<(Vec<u8>, u64)>) -> Seq<(Seq<u8>, int)> {
    Seq::new(v.len(), |i: int| (v[i].0@, v[i].1 as int))
}

/// The ghost image of the absolute section offsets.
pub open spec fn offs_view(v: Seq<(Vec<u8>, usize, usize)>) -> Seq<(Seq<u8>, int, int)> {
    Seq::new(v.len(), |i: int| (v[i].0@, v[i].1 as int, v[i].2 as int))
}

/// Parses the container frame and computes the absolute section offsets.
#[verifier::rlimit(90)]
#[verifier::loop_isolation(false)]
fn parse_frame(buf: &[u8]) -> (r: Result<(Vec<u8>, Vec<(Vec<u8>, usize, usize)>), Error>)
    ensures
        match r {
            Ok((vb, offs)) => {
                &&& spec_parse_frame(buf@) == Ok::<(Seq<u8>, Seq<(Seq<u8>, int, int)>), Error>(
                    (vb@, offs_view(offs@)),
                )
                &&& vb@.len() == 4
                &&& offs@.len() > 0
                &&& forall|j: int|
                    0 <= j < offs@.len() ==> (#[trigger] offs@[j]).1 + offs@[j].2 <= buf@.len()
            },
            Err(e) => spec_parse_frame(buf@) == Err::<(Seq<u8>, Seq<(Seq<u8>, int, int)>), Error>(
                e,
            ),
        },
{
    let blen = buf.len();
    let (c, p0) = match read_array_header(buf, 0, blen) {
        Some(x) => x,
        None => {
            return Err(Error::MalformedCbor);
        },
    };
    if c != 5 {
        return Err(Error::MalformedCbor);
    }
    let (magic, p1) = match read_bytes(buf, p0, blen) {
        Some(x) => x,
        None => {
            return Err(Error::MalformedCbor);
        },
    };
    let expected = crate::bundle::magic_bytes();
    if !bytes_eq(magic.as_slice(), expected.as_slice()) {
        return Err(Error::BadMagic);
    }
    let (vb, p2) = match read_bytes(buf, p1, blen) {
        Some(x) => x,
        None => {
            return Err(Error::MalformedCbor);
        },
    };
    if vb.len() != 4 {
        return Err(Error::BadVersion);
    }
    let (blob, p3) = match read_bytes(buf, p2, blen) {
        Some(x) => x,
        None => {
            return Err(Error::MalformedCbor);
        },
    };
    if blob.len() >= 8192 {
        return Err(Error::SectionTableTooLarge);
    }
    let ilen = blob.len();
    let (k2, q0) = match read_array_header(blob.as_slice(), 0, ilen) {
        Some(x) => x,
        None => {
            return Err(Error::MalformedCbor);
        },
    };
    let kn: u64 = k2 / 2;
    let mut rem: u64 = kn;
    let mut qpos: usize = q0;
    let mut pairs: Vec<(Vec<u8>, u64)> = Vec::new();
    proof {
        assert(secs_view(pairs@) =~= Seq::<(Seq<u8>, int)>::empty());
    }
    while rem > 0
        invariant
            qpos <= ilen <= blob@.len(),
            ilen == blob@.len(),
            spec_parse_sec_pairs(blob@, q0 as int, kn as int, Seq::empty())
                == spec_parse_sec_pairs(blob@, qpos as int, rem as int, secs_view(pairs@)),
        decreases rem,
    {
        let (_s, nb, q1) = match read_text(blob.as_slice(), qpos, ilen) {
            Some(x) => x,
            None => {
                return Err(Error::MalformedCbor);
            },
        };
        // duplicate name?
        let pn = pairs.len();
        let mut pi: usize = 0;
        let mut dup = false;
        while pi < pn
            invariant
                pi <= pn,
                pn == pairs@.len(),
                !dup ==> forall|t: int| 0 <= t < pi ==> (#[trigger] secs_view(pairs@)[t]).0 != nb@,
                dup ==> sec_has_name(secs_view(pairs@), nb@),
            decreases pn - pi,
        {
            if bytes_eq(pairs[pi].0.as_slice(), nb.as_slice()) {
                proof {
                    assert(secs_view(pairs@)[pi as int].0 == pairs@[pi as int].0@);
                }
                dup = true;
                pi = pn;
            } else {
                proof {
                    assert(secs_view(pairs@)[pi as int].0 == pairs@[pi as int].0@);
                }
                pi = pi + 1;
            }
        }
        if dup {
            return Err(Error::DuplicateSection);
        }
        proof {
            assert(!sec_has_name(secs_view(pairs@), nb@)) by {
                if sec_has_name(secs_view(pairs@), nb@) {
                    let t = choose|t: int|
                        0 <= t < secs_view(pairs@).len() && secs_view(pairs@)[t].0 == nb@;
                }
            }
        }
        let (ln, q2) = match read_uint(blob.as_slice(), q1, ilen) {
            Some(x) => x,
            None => {
                return Err(Error::MalformedCbor);
            },
        };
        let ghost oldpairs = pairs@;
        pairs.push((nb, ln));
        proof {
            assert(secs_view(pairs@) =~= secs_view(oldpairs).push((pairs@.last().0@, ln as int)));
        }
        qpos = q2;
        rem = rem - 1;
    }
    if pairs.len() == 0 {
        return Err(Error::MissingResponses);
    }
    let rname = name_responses_bytes();
    proof {
        assert(secs_view(pairs@).last().0 == pairs@.last().0@);
    }
    if !bytes_eq(pairs[pairs.len() - 1].0.as_slice(), rname.as_slice()) {
        return Err(Error::MissingResponses);
    }
    // the outer sections array
    let (cnt, p4) = match read_array_header(buf, p3, blen) {
        Some(x) => x,
        None => {
            return Err(Error::MalformedCbor);
        },
    };
    if cnt != pairs.len() as u64 {
        return Err(Error::SectionCountMismatch);
    }
    // absolute offsets
    let np = pairs.len();
    let mut offs: Vec<(Vec<u8>, usize, usize)> = Vec::new();
    let mut cur: usize = p4;
    let mut i: usize = 0;
    proof {
        assert(offs_view(offs@) =~= Seq::<(Seq<u8>, int, int)>::empty());
    }
    while i < np
        invariant
            i <= np,
            np == pairs@.len(),
            cur <= blen,
            blen == buf@.len(),
            offs@.len() == i,
            spec_sec_offsets(secs_view(pairs@), blen as int, 0, Seq::empty(), p4 as int)
                == spec_sec_offsets(
                secs_view(pairs@),
                blen as int,
                i as int,
                offs_view(offs@),
                cur as int,
            ),
            forall|j: int| 0 <= j < i ==> (#[trigger] offs@[j]).1 + offs@[j].2 <= blen,
        decreases np - i,
    {
        proof {
            assert(secs_view(pairs@)[i as int] == (pairs@[i as int].0@, pairs@[i as int].1 as int));
        }
        let ln = pairs[i].1;
        if ln > (blen - cur) as u64 {
            return Err(Error::MalformedCbor);
        }
        let lnu: usize = ln as usize;
        let nb2 = vstd::slice::slice_to_vec(pairs[i].0.as_slice());
        let ghost oldoffs = offs@;
        offs.push((nb2, cur, lnu));
        proof {
            assert(offs_view(offs@) =~= offs_view(oldoffs).push(
                (pairs@[i as int].0@, cur as int, lnu as int),
            ));
        }
        cur = cur + lnu;
        i = i + 1;
    }
    // the trailing length
    if blen - cur < 8 {
        return Err(Error::MalformedCbor);
    }
    if blen - cur > 8 {
        return Err(Error::BadTrailingLength);
    }
    let total = (buf[cur] as u64) * 0x100000000000000 + (buf[cur + 1] as u64) * 0x1000000000000 + (
    buf[cur + 2] as u64) * 0x10000000000 + (buf[cur + 3] as u64) * 0x100000000 + (buf[cur
        + 4] as u64) * 0x1000000 + (buf[cur + 5] as u64) * 0x10000 + (buf[cur + 6] as u64) * 0x100
        + (buf[cur + 7] as u64);
    if total != blen as u64 {
        return Err(Error::BadTrailingLength);
    }
    Ok((vb, offs))
}

/// Walks the sections, gathering the index entries and the primary URL.
/// The ghost image of an optional URL string.
pub open spec fn opt_str_view(p: Option<String>) -> Option<Seq<char>> {
    match p {
        Some(u) => Some(u@),
        None => None,
    }
}

/// Processes one section.
#[verifier::rlimit(60)]
fn section_step(
    buf: &[u8],
    name: &Vec<u8>,
    off: usize,
    ln: usize,
    entries: Vec<(String, u64, u64)>,
    primary: Option<String>,
) -> (r: Result<(Vec<(String, u64, u64)>, Option<String>), Error>)
    requires
        off + ln <= buf@.len(),
    ensures
        match r {
            Ok((es, pu)) => spec_section_step(
                buf@,
                name@,
                off as int,
                ln as int,
                entries_view(entries@),
                opt_str_view(primary),
            ) == Ok::<(Seq<IndexEntry>, Option<Seq<char>>), Error>(
                (entries_view(es@), opt_str_view(pu)),
            ),
            Err(e) => spec_section_step(
                buf@,
                name@,
                off as int,
                ln as int,
                entries_view(entries@),
                opt_str_view(primary),
            ) == Err::<(Seq<IndexEntry>, Option<Seq<char>>), Error>(e),
        },
{
    let blen = buf.len();
    assert(off + ln <= blen);
    let send = off + ln;
    let idx = name_index_bytes();
    let pri = name_primary_bytes();
    let crt = name_critical_bytes();
    if bytes_eq(name.as_slice(), idx.as_slice()) {
        match parse_index(buf, off, send) {
            Ok(es) => Ok((es, primary)),
            Err(e) => Err(e),
        }
    } else if bytes_eq(name.as_slice(), pri.as_slice()) {
        match read_text(buf, off, send) {
            Some((u, _ub, _p)) => Ok((entries, Some(u))),
            None => Err(Error::MalformedCbor),
        }
    } else if bytes_eq(name.as_slice(), crt.as_slice()) {
        match parse_critical(buf, off, send) {
            Ok(_u) => Ok((entries, primary)),
            Err(e) => Err(e),
        }
    } else {
        Ok((entries, primary))
    }
}

/// Walks the sections, gathering the index entries and the primary URL.
#[verifier::rlimit(60)]
#[verifier::loop_isolation(false)]
fn parse_all_sections(buf: &[u8], offs: &Vec<(Vec<u8>, usize, usize)>) -> (r: Result<
    (Vec<(String, u64, u64)>, Option<String>),
    Error,
>)
    requires
        forall|j: int|
            0 <= j < offs@.len() ==> (#[trigger] offs@[j]).1 + offs@[j].2 <= buf@.len(),
    ensures
        match r {
            Ok((es, pu)) => spec_parse_sections(
                buf@,
                offs_view(offs@),
                0,
                Seq::empty(),
                None,
            ) == Ok::<(Seq<IndexEntry>, Option<Seq<char>>), Error>(
                (entries_view(es@), opt_str_view(pu)),
            ),
            Err(e) => spec_parse_sections(buf@, offs_view(offs@), 0, Seq::empty(), None) == Err::<
                (Seq<IndexEntry>, Option<Seq<char>>),
                Error,
            >(e),
        },
{
    let n = offs.len();
    let mut i: usize = 0;
    let mut entries: Vec<(String, u64, u64)> = Vec::new();
    let mut primary: Option<String> = None;
    proof {
        assert(entries_view(entries@) =~= Seq::<IndexEntry>::empty());
    }
    while i < n
        invariant
            i <= n,
            spec_parse_sections(buf@, offs_view(offs@), 0, Seq::empty(), None)
                == spec_parse_sections(
                buf@,
                offs_view(offs@),
                i as int,
                entries_view(entries@),
                opt_str_view(primary),
            ),
        decreases n - i,
    {
        proof {
            assert(offs_view(offs@)[i as int] == (
                offs@[i as int].0@,
                offs@[i as int].1 as int,
                offs@[i as int].2 as int,
            ));
            assert(offs@[i as int].1 + offs@[i as int].2 <= buf@.len());
        }
        let off = offs[i].1;
        let ln = offs[i].2;
        match section_step(buf, &offs[i].0, off, ln, entries, primary) {
            Ok((es, pu)) => {
                entries = es;
                primary = pu;
            },
            Err(e) => {
                return Err(e);
            },
        }
        i = i + 1;
    }
    Ok((entries, primary))
}

/// The absolute location of one response entry inside the input buffer:
/// the index gives offsets relative to the responses section payload.
pub struct ResponseLocation {
    pub offset: u64,
    pub length: u64,
}

impl ResponseLocation {
    /// Turns an index entry's section-relative offset into an absolute one.
    pub fn new(responses_section_offset: u64, offset: u64, length: u64) -> (r: ResponseLocation)
        requires
            responses_section_offset + offset <= u64::MAX,
        ensures
            r.offset == responses_section_offset + offset,
            r.length == length,
    {
        ResponseLocation { offset: responses_section_offset + offset, length }
    }
}

/// Reads the response of one index entry.
#[verifier::rlimit(60)]
fn exchange_step(
    buf: &[u8],
    url: String,
    eoff: u64,
    elen: u64,
    roff: usize,
    rlen: usize,
) -> (r: Result<Exchange, Error>)
    requires
        roff + rlen <= buf@.len(),
    ensures
        match r {
            Ok(x) => spec_exchange_step(
                buf@,
                IndexEntry { url: url@, off: eoff as int, len: elen as int },
                roff as int,
                rlen as int,
            ) == Ok::<ExchangeView, Error>(x@) && crate::bundle::resp_wf(x@.response),
            Err(e) => spec_exchange_step(
                buf@,
                IndexEntry { url: url@, off: eoff as int, len: elen as int },
                roff as int,
                rlen as int,
            ) == Err::<ExchangeView, Error>(e),
        },
{
    let blen = buf.len();
    assert(roff + rlen <= blen);
    if eoff > rlen as u64 || elen > rlen as u64 - eoff {
        return Err(Error::BadIndex);
    }
    proof {
        assert(eoff as int <= rlen as int);
        assert(eoff as int + elen as int <= rlen as int);
    }
    let loc = ResponseLocation::new(roff as u64, eoff, elen);
    let abs: usize = loc.offset as usize;
    let aend: usize = abs + loc.length as usize;
    let resp = match parse_response(buf, abs, aend) {
        Ok(x) => x,
        Err(e) => {
            return Err(e);
        },
    };
    let ghost respv = resp@;
    let exch = Exchange { request: Request::new(url, Vec::new()), response: resp };
    proof {
        assert(pairs_view(Seq::<(Vec<u8>, Vec<u8>)>::empty()) =~= Seq::<(Seq<u8>, Seq<u8>)>::empty());
        assert(exch@ == ExchangeView {
            request: RequestView { url: url@, headers: Seq::empty() },
            response: respv,
        });
    }
    Ok(exch)
}

/// Reads each indexed response out of the responses section payload.
#[verifier::rlimit(60)]
#[verifier::loop_isolation(false)]
fn parse_all_exchanges(
    buf: &[u8],
    entries: Vec<(String, u64, u64)>,
    roff: usize,
    rlen: usize,
) -> (r: Result<Vec<Exchange>, Error>)
    requires
        roff + rlen <= buf@.len(),
    ensures
        match r {
            Ok(v) => {
                &&& spec_parse_exchanges(
                    buf@,
                    entries_view(entries@),
                    0,
                    roff as int,
                    rlen as int,
                    Seq::empty(),
                ) == Ok::<Seq<ExchangeView>, Error>(exchanges_view(v@))
                &&& forall|j: int|
                    0 <= j < v@.len() ==> crate::bundle::resp_wf(
                        (#[trigger] exchanges_view(v@)[j]).response,
                    )
            },
            Err(e) => spec_parse_exchanges(
                buf@,
                entries_view(entries@),
                0,
                roff as int,
                rlen as int,
                Seq::empty(),
            ) == Err::<Seq<ExchangeView>, Error>(e),
        },
{
    let n = entries.len();
    let mut i: usize = 0;
    let mut out: Vec<Exchange> = Vec::new();
    proof {
        assert(exchanges_view(out@) =~= Seq::<ExchangeView>::empty());
    }
    while i < n
        invariant
            i <= n,
            out@.len() == i,
            spec_parse_exchanges(
                buf@,
                entries_view(entries@),
                0,
                roff as int,
                rlen as int,
                Seq::empty(),
            ) == spec_parse_exchanges(
                buf@,
                entries_view(entries@),
                i as int,
                roff as int,
                rlen as int,
                exchanges_view(out@),
            ),
            forall|j: int|
                0 <= j < out@.len() ==> crate::bundle::resp_wf(
                    (#[trigger] exchanges_view(out@)[j]).response,
                ),
        decreases n - i,
    {
        proof {
            assert(entries_view(entries@)[i as int] == IndexEntry {
                url: entries@[i as int].0@,
                off: entries@[i as int].1 as int,
                len: entries@[i as int].2 as int,
            });
        }
        let url = entries[i].0.clone();
        let exch = match exchange_step(buf, url, entries[i].1, entries[i].2, roff, rlen) {
            Ok(x) => x,
            Err(e) => {
                return Err(e);
            },
        };
        let ghost oldout = out@;
        let ghost exchv = exch@;
        out.push(exch);
        proof {
            assert(exchanges_view(out@) =~= exchanges_view(oldout).push(exchv));
        }
        i = i + 1;
    }
    Ok(out)
}

/// Classifies 4 version bytes.
fn classify_version(vb: &Vec<u8>) -> (r: Version)
    requires
        vb@.len() == 4,
    ensures
        r.spec_bytes() == vb@,
        r.canonical(),
{
    let b2 = b2_bytes_vec();
    let v1 = v1_bytes_vec();
    if bytes_eq(vb.as_slice(), b2.as_slice()) {
        Version::VersionB2
    } else if bytes_eq(vb.as_slice(), v1.as_slice()) {
        Version::Version1
    } else {
        let a: [u8; 4] = [vb[0], vb[1], vb[2], vb[3]];
        assert(a@ =~= vb@);
        Version::Unknown(a)
    }
}

impl Bundle {
    /// Parses the given bytes and returns the parsed Bundle.
    pub fn from_bytes(bytes: &[u8]) -> (r: Result<Bundle, Error>)
        ensures
            match r {
                Ok(b) => spec_parse(bytes@) == Ok::<BundleView, Error>(b@) && b.wf(),
                Err(e) => spec_parse(bytes@) == Err::<BundleView, Error>(e),
            },
    {
        let (vb, offs) = match parse_frame(bytes) {
            Ok(x) => x,
            Err(e) => {
                return Err(e);
            },
        };
        let (entries, primary) = match parse_all_sections(bytes, &offs) {
            Ok(x) => x,
            Err(e) => {
                return Err(e);
            },
        };
        let last_i = offs.len() - 1;
        let roff = offs[last_i].1;
        let rlen = offs[last_i].2;
        proof {
            assert(offs_view(offs@)[last_i as int] == (
                offs@[last_i as int].0@,
                offs@[last_i as int].1 as int,
                offs@[last_i as int].2 as int,
            ));
            assert(offs_view(offs@).last() == offs_view(offs@)[last_i as int]);
        }
        let exchanges = match parse_all_exchanges(bytes, entries, roff, rlen) {
            Ok(x) => x,
            Err(e) => {
                return Err(e);
            },
        };
        let version = classify_version(&vb);
        let b = bundle_from_parts(version, primary, exchanges);
        proof {
            assert(b@ == BundleView {
                version: vb@,
                primary_url: b@.primary_url,
                exchanges: exchanges_view(exchanges@),
            });
        }
        Ok(b)
    }
}

} // verus!
