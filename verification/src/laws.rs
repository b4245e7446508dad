//! Proved laws of the codec: offset correctness of the index, canonical
//! ordering of every emitted map, and the round trip between the encoder
//! and the decoder.

use crate::bundle::{
    bundle_wf, name_critical, name_index, name_primary, name_responses,
    resp_wf, spec_magic, status_key, valid_header_name, BundleView, ExchangeView,
    RequestView, ResponseView,
};
use crate::canon::{
    has_key, key_lt, keys_distinct, lemma_dedup_of_distinct, lemma_key_lt_asym,
    lemma_sort_pairs_of_sorted, pairs_strictly_sorted, spec_insert_sorted, PairSeq,
};
use crate::cbor::{
    enc_array_header, enc_bytes, enc_map_header, enc_text, enc_uint, lemma_read_array_header_at,
    lemma_read_bytes_at, lemma_read_map_header_at, lemma_read_text_at,
    lemma_read_uint_at, spec_be64, spec_read_array_header, spec_read_bytes, spec_read_header,
    spec_read_text,
};
use crate::decoder::{
    spec_be64_value, spec_parse, spec_parse_exchanges, spec_sec_offsets,
    spec_parse_frame, spec_parse_header_pairs, spec_parse_headers_blob, spec_parse_index,
    spec_parse_index_entries,
    spec_parse_meta, spec_parse_response, spec_parse_sec_pairs, spec_parse_sections,
    spec_exchange_step, spec_section_step, spec_status_of, sec_has_name, IndexEntry,
};
use crate::encoder::{
    index_no_dup, spec_concat_header_pairs, spec_concat_index_pairs, spec_concat_sec_blobs,
    spec_concat_sec_lens, spec_encode, spec_encode_body, spec_encode_res, spec_headers_blob,
    spec_headers_pairs, spec_index_pairs, spec_index_section, spec_index_sorted, spec_index_value, spec_offset, spec_resp_entries, spec_resp_entry,
    spec_responses_section, spec_section_lengths_blob, spec_sections,
};
use crate::error::Error;
use crate::strutil::{dec_digits, lemma_dec_digits_status};
use vstd::arithmetic::div_mod::{lemma_div_denominator, lemma_fundamental_div_mod};
use vstd::prelude::*;
use vstd::utf8::{
    decode_utf8, encode_utf8, encode_utf8_decode_utf8, encode_utf8_valid_utf8, is_ascii_chars,
    is_ascii_chars_encode_utf8, valid_utf8,
};

verus! {

/// An earlier prefix of the concatenated header pairs is a prefix of any
/// later one.
proof fn lemma_concat_header_prefix(ps: PairSeq, a: int, m: int)
    requires
        0 <= a <= m,
    ensures
        spec_concat_header_pairs(ps, a).len() <= spec_concat_header_pairs(ps, m).len(),
        spec_concat_header_pairs(ps, m).subrange(0, spec_concat_header_pairs(ps, a).len() as int) == spec_concat_header_pairs(
            ps,
            a,
        ),
    decreases m - a,
{
    let la = spec_concat_header_pairs(ps, a).len() as int;
    if m == a {
        assert(spec_concat_header_pairs(ps, a).subrange(0, la) =~= spec_concat_header_pairs(ps, a));
    } else {
        lemma_concat_header_prefix(ps, a, m - 1);
        assert forall|t: int| 0 <= t < la implies spec_concat_header_pairs(ps, m)[t] == spec_concat_header_pairs(
            ps,
            a,
        )[t] by {
            assert(spec_concat_header_pairs(ps, m)[t] == spec_concat_header_pairs(ps, m - 1)[t]);
            assert(spec_concat_header_pairs(ps, m - 1).subrange(0, la)[t] == spec_concat_header_pairs(ps, m - 1)[t]);
        }
        assert(spec_concat_header_pairs(ps, m).subrange(0, la) =~= spec_concat_header_pairs(ps, a));
    }
}

/// An earlier prefix of the concatenated index pairs is a prefix of any
/// later one.
proof fn lemma_concat_index_prefix(ps: PairSeq, a: int, m: int)
    requires
        0 <= a <= m,
    ensures
        spec_concat_index_pairs(ps, a).len() <= spec_concat_index_pairs(ps, m).len(),
        spec_concat_index_pairs(ps, m).subrange(0, spec_concat_index_pairs(ps, a).len() as int) == spec_concat_index_pairs(
            ps,
            a,
        ),
    decreases m - a,
{
    let la = spec_concat_index_pairs(ps, a).len() as int;
    if m == a {
        assert(spec_concat_index_pairs(ps, a).subrange(0, la) =~= spec_concat_index_pairs(ps, a));
    } else {
        lemma_concat_index_prefix(ps, a, m - 1);
        assert forall|t: int| 0 <= t < la implies spec_concat_index_pairs(ps, m)[t] == spec_concat_index_pairs(
            ps,
            a,
        )[t] by {
            assert(spec_concat_index_pairs(ps, m)[t] == spec_concat_index_pairs(ps, m - 1)[t]);
            assert(spec_concat_index_pairs(ps, m - 1).subrange(0, la)[t] == spec_concat_index_pairs(ps, m - 1)[t]);
        }
        assert(spec_concat_index_pairs(ps, m).subrange(0, la) =~= spec_concat_index_pairs(ps, a));
    }
}

/// An earlier prefix of the concatenated response entries is a prefix of
/// any later one.
proof fn lemma_resp_entries_prefix(exchs: Seq<ExchangeView>, a: int, m: int)
    requires
        0 <= a <= m,
    ensures
        spec_resp_entries(exchs, a).len() <= spec_resp_entries(exchs, m).len(),
        spec_resp_entries(exchs, m).subrange(0, spec_resp_entries(exchs, a).len() as int) == spec_resp_entries(
            exchs,
            a,
        ),
    decreases m - a,
{
    let la = spec_resp_entries(exchs, a).len() as int;
    if m == a {
        assert(spec_resp_entries(exchs, a).subrange(0, la) =~= spec_resp_entries(exchs, a));
    } else {
        lemma_resp_entries_prefix(exchs, a, m - 1);
        assert forall|t: int| 0 <= t < la implies spec_resp_entries(exchs, m)[t] == spec_resp_entries(
            exchs,
            a,
        )[t] by {
            assert(spec_resp_entries(exchs, m)[t] == spec_resp_entries(exchs, m - 1)[t]);
            assert(spec_resp_entries(exchs, m - 1).subrange(0, la)[t] == spec_resp_entries(exchs, m - 1)[t]);
        }
        assert(spec_resp_entries(exchs, m).subrange(0, la) =~= spec_resp_entries(exchs, a));
    }
}

/// Offset correctness: inside an encoded responses section, the slice that
/// index entry `i` points at holds exactly exchange `i`'s encoded
/// `[headers, body]` entry.
pub proof fn lemma_offset_correctness(exchs: Seq<ExchangeView>, i: int)
    requires
        0 <= i < exchs.len(),
    ensures
        spec_offset(exchs, i) + spec_resp_entry(exchs[i]).len() <= spec_responses_section(
            exchs,
        ).len(),
        spec_responses_section(exchs).subrange(
            spec_offset(exchs, i),
            spec_offset(exchs, i) + spec_resp_entry(exchs[i]).len() as int,
        ) == spec_resp_entry(exchs[i]),
{
    let n = exchs.len() as int;
    let sect = spec_responses_section(exchs);
    let hl = enc_array_header(n).len() as int;
    lemma_resp_entries_prefix(exchs, i + 1, n);
    assert(spec_resp_entries(exchs, i + 1) == spec_resp_entries(exchs, i) + spec_resp_entry(
        exchs[i],
    ));
    assert(spec_resp_entries(exchs, i + 1).len() <= spec_resp_entries(exchs, n).len());
    assert forall|t: int|
        0 <= t < spec_resp_entry(exchs[i]).len() implies sect[spec_offset(exchs, i) + t]
        == spec_resp_entry(exchs[i])[t] by {
        let pfx = spec_resp_entries(exchs, i).len() as int;
        assert(spec_resp_entries(exchs, n).subrange(
            0,
            spec_resp_entries(exchs, i + 1).len() as int,
        )[pfx + t] == spec_resp_entries(exchs, n)[pfx + t]);
        assert(spec_resp_entries(exchs, i + 1)[pfx + t] == spec_resp_entry(exchs[i])[t]);
        assert(sect[hl + (pfx + t)] == spec_resp_entries(exchs, n)[pfx + t]);
    }
    assert(sect.subrange(
        spec_offset(exchs, i),
        spec_offset(exchs, i) + spec_resp_entry(exchs[i]).len() as int,
    ) =~= spec_resp_entry(exchs[i]));
}

/// The ASCII decimal of a status in `[100, 599]` parses back to it.
proof fn lemma_status_roundtrip(st: int)
    requires
        100 <= st <= 599,
    ensures
        spec_status_of(dec_digits(st)) == Some(st),
{
    lemma_dec_digits_status(st);
    let v = dec_digits(st);
    assert(1 <= st / 100 <= 5) by (nonlinear_arith)
        requires
            100 <= st <= 599,
    ;
    assert(0 <= (st / 10) % 10 < 10);
    assert(0 <= st % 10 < 10);
    assert(v.len() == 3);
    assert(0x30 <= v[0] <= 0x39);
    assert(0x30 <= v[1] <= 0x39);
    assert(0x30 <= v[2] <= 0x39);
    assert((v[0] - 0x30) * 100 + (v[1] - 0x30) * 10 + (v[2] - 0x30) == st) by {
        lemma_fundamental_div_mod(st, 10);
        lemma_div_denominator(st, 10, 10);
        lemma_fundamental_div_mod(st / 10, 10);
    }
}

/// The four section names are valid UTF-8 and decode to themselves.
proof fn lemma_section_names_utf8()
    ensures
        valid_utf8(name_index()),
        valid_utf8(name_primary()),
        valid_utf8(name_responses()),
        valid_utf8(name_critical()),
{
    reveal_strlit("index");
    reveal_strlit("primary");
    reveal_strlit("responses");
    reveal_strlit("critical");
    let ci = "index"@;
    assert(is_ascii_chars(ci));
    is_ascii_chars_encode_utf8(ci);
    assert(encode_utf8(ci) =~= name_index());
    encode_utf8_valid_utf8(ci);
    let cp = "primary"@;
    assert(is_ascii_chars(cp));
    is_ascii_chars_encode_utf8(cp);
    assert(encode_utf8(cp) =~= name_primary());
    encode_utf8_valid_utf8(cp);
    let cr = "responses"@;
    assert(is_ascii_chars(cr));
    is_ascii_chars_encode_utf8(cr);
    assert(encode_utf8(cr) =~= name_responses());
    encode_utf8_valid_utf8(cr);
    let cc = "critical"@;
    assert(is_ascii_chars(cc));
    is_ascii_chars_encode_utf8(cc);
    assert(encode_utf8(cc) =~= name_critical());
    encode_utf8_valid_utf8(cc);
}

/// For a well-formed response, the full header map (stored headers plus
/// `:status`) is strictly sorted, holds the status pair exactly once, and
/// its other pairs are exactly the stored headers.
proof fn lemma_headers_pairs_strict(r: ResponseView)
    requires
        resp_wf(r),
    ensures
        pairs_strictly_sorted(spec_headers_pairs(r)),
        spec_headers_pairs(r).len() == r.headers.len() + 1,
        has_key(spec_headers_pairs(r), status_key()),
        forall|k: Seq<u8>|
            has_key(spec_headers_pairs(r), k) <==> (has_key(r.headers, k) || k == status_key()),
{
    assert(!has_key(r.headers, status_key())) by {
        if has_key(r.headers, status_key()) {
            let i = choose|i: int| 0 <= i < r.headers.len() && r.headers[i].0 == status_key();
            assert(valid_header_name(r.headers[i].0));
            assert(status_key()[0] == 0x3a);
        }
    }
    crate::canon::lemma_insert_sorted_strict(
        (status_key(), dec_digits(r.status as int)),
        r.headers,
    );
    assert(has_key(spec_headers_pairs(r), status_key()));
}


/// The pairs of `ps` from `j` on, without the `:status` pair: what the
/// decoder's accumulator holds after walking them.
spec fn filter_nonstatus(ps: PairSeq, j: int) -> PairSeq
    decreases ps.len() - j,
{
    if j < 0 || j >= ps.len() {
        Seq::empty()
    } else if ps[j].0 == status_key() {
        filter_nonstatus(ps, j + 1)
    } else {
        seq![ps[j]] + filter_nonstatus(ps, j + 1)
    }
}

/// A suffix without any `:status` pair filters to itself.
proof fn lemma_filter_all_nonstatus(ps: PairSeq, j: int)
    requires
        0 <= j <= ps.len(),
        forall|t: int| j <= t < ps.len() ==> (#[trigger] ps[t]).0 != status_key(),
    ensures
        filter_nonstatus(ps, j) == ps.subrange(j, ps.len() as int),
    decreases ps.len() - j,
{
    if j == ps.len() {
        assert(filter_nonstatus(ps, j) =~= ps.subrange(j, ps.len() as int));
    } else {
        lemma_filter_all_nonstatus(ps, j + 1);
        assert(seq![ps[j]] + ps.subrange(j + 1, ps.len() as int) =~= ps.subrange(
            j,
            ps.len() as int,
        ));
    }
}

/// Filtering past a prepended head is filtering the tail.
proof fn lemma_filter_shift(h: (Seq<u8>, Seq<u8>), w: PairSeq, j: int)
    requires
        0 <= j <= w.len(),
    ensures
        filter_nonstatus(seq![h] + w, j + 1) == filter_nonstatus(w, j),
    decreases w.len() - j,
{
    let u = seq![h] + w;
    if j == w.len() {
        assert(filter_nonstatus(u, j + 1) =~= filter_nonstatus(w, j));
    } else {
        assert(u[j + 1] == w[j]);
        lemma_filter_shift(h, w, j + 1);
    }
}

/// Filtering the `:status` pair out of its insertion into a status-free
/// sequence gives that sequence back.
proof fn lemma_filter_of_insert(x: (Seq<u8>, Seq<u8>), s: PairSeq)
    requires
        x.0 == status_key(),
        forall|t: int| 0 <= t < s.len() ==> (#[trigger] s[t]).0 != status_key(),
    ensures
        filter_nonstatus(spec_insert_sorted(x, s), 0) == s,
    decreases s.len(),
{
    let r = spec_insert_sorted(x, s);
    if s.len() == 0 {
        assert(r == seq![x]);
        assert(r[0].0 == status_key());
        assert(filter_nonstatus(r, 0) == filter_nonstatus(r, 1));
        assert(filter_nonstatus(r, 1) =~= s);
    } else if key_lt(x.0, s[0].0) {
        assert(r == seq![x] + s);
        assert(r[0] == x);
        assert(filter_nonstatus(r, 0) == filter_nonstatus(r, 1));
        lemma_filter_shift(x, s, 0);
        lemma_filter_all_nonstatus(s, 0);
        assert(s.subrange(0, s.len() as int) =~= s);
    } else {
        let st = s.subrange(1, s.len() as int);
        assert(forall|t: int| 0 <= t < st.len() ==> (#[trigger] st[t]).0 != status_key());
        lemma_filter_of_insert(x, st);
        let rt = spec_insert_sorted(x, st);
        assert(r == seq![s[0]] + rt);
        assert(r[0] == s[0]);
        assert(s[0].0 != status_key());
        assert(filter_nonstatus(r, 0) == seq![r[0]] + filter_nonstatus(r, 1));
        lemma_filter_shift(s[0], rt, 0);
        assert(filter_nonstatus(r, 0) == seq![s[0]] + filter_nonstatus(rt, 0));
        assert(seq![s[0]] + st =~= s);
    }
}

/// The two byte-string items of pair `j` sit right after the first `j`
/// pairs.
proof fn lemma_header_pair_at(hb: Seq<u8>, ps: PairSeq, j: int)
    requires
        hb == enc_map_header(ps.len() as int) + spec_concat_header_pairs(ps, ps.len() as int),
        0 <= j < ps.len(),
    ensures
        ({
            let mhl = enc_map_header(ps.len() as int).len() as int;
            let pos = mhl + spec_concat_header_pairs(ps, j).len() as int;
            let ek = enc_bytes(ps[j].0);
            let ev = enc_bytes(ps[j].1);
            &&& pos + ek.len() + ev.len() == mhl + spec_concat_header_pairs(ps, j + 1).len()
            &&& pos + ek.len() + ev.len() <= hb.len()
            &&& hb.subrange(pos, pos + ek.len() as int) == ek
            &&& hb.subrange(pos + ek.len(), pos + ek.len() + ev.len() as int) == ev
        }),
{
    let n = ps.len() as int;
    let mhl = enc_map_header(n).len() as int;
    let pos = mhl + spec_concat_header_pairs(ps, j).len() as int;
    let ek = enc_bytes(ps[j].0);
    let ev = enc_bytes(ps[j].1);
    lemma_concat_header_prefix(ps, j + 1, n);
    assert(spec_concat_header_pairs(ps, j + 1) == spec_concat_header_pairs(ps, j) + ek + ev);
    let cj = spec_concat_header_pairs(ps, j).len() as int;
    let cj1 = spec_concat_header_pairs(ps, j + 1).len() as int;
    assert forall|t: int| 0 <= t < ek.len() + ev.len() implies hb[pos + t] == (ek + ev)[t] by {
        assert(spec_concat_header_pairs(ps, n).subrange(0, cj1)[cj + t]
            == spec_concat_header_pairs(ps, n)[cj + t]);
        assert(spec_concat_header_pairs(ps, j + 1)[cj + t] == (ek + ev)[t]);
        assert(hb[mhl + (cj + t)] == spec_concat_header_pairs(ps, n)[cj + t]);
    }
    assert forall|t: int| 0 <= t < ek.len() implies hb.subrange(pos, pos + ek.len() as int)[t]
        == ek[t] by {
        assert(hb[pos + t] == (ek + ev)[t]);
        assert((ek + ev)[t] == ek[t]);
    }
    assert(hb.subrange(pos, pos + ek.len() as int) =~= ek);
    assert forall|t: int| 0 <= t < ev.len() implies hb.subrange(
        pos + ek.len(),
        pos + ek.len() + ev.len() as int,
    )[t] == ev[t] by {
        assert(hb[pos + (ek.len() + t)] == (ek + ev)[ek.len() + t]);
        assert((ek + ev)[ek.len() + t] == ev[t]);
    }
    assert(hb.subrange(pos + ek.len(), pos + ek.len() + ev.len() as int) =~= ev);
}

/// One step of the header-pair walk: reading pair `j` either records the
/// status or appends the pair, and advances past its bytes.
#[verifier::rlimit(100)]
proof fn lemma_chain_step(hb: Seq<u8>, ps: PairSeq, j: int, st: Option<int>, acc: PairSeq, stv: int)
    requires
        hb == enc_map_header(ps.len() as int) + spec_concat_header_pairs(ps, ps.len() as int),
        0 <= j < ps.len(),
        ps.len() < 0x10000000000000000,
        ps[j].0.len() < 0x10000000000000000,
        ps[j].1.len() < 0x10000000000000000,
        100 <= stv <= 599,
        ps[j].0 == status_key() ==> ps[j].1 == dec_digits(stv) && st is None,
        ps[j].0 != status_key() ==> valid_header_name(ps[j].0),
    ensures
        ({
            let mhl = enc_map_header(ps.len() as int).len() as int;
            let pos = mhl + spec_concat_header_pairs(ps, j).len() as int;
            let pos1 = mhl + spec_concat_header_pairs(ps, j + 1).len() as int;
            spec_parse_header_pairs(hb, pos, ps.len() - j, st, acc) == (
            if ps[j].0 == status_key() {
                spec_parse_header_pairs(hb, pos1, ps.len() - j - 1, Some(stv), acc)
            } else {
                spec_parse_header_pairs(hb, pos1, ps.len() - j - 1, st, acc.push(ps[j]))
            })
        }),
{
    let n = ps.len() as int;
    let mhl = enc_map_header(n).len() as int;
    let pos = mhl + spec_concat_header_pairs(ps, j).len() as int;
    let k = ps[j].0;
    let v = ps[j].1;
    let ek = enc_bytes(k);
    let ev = enc_bytes(v);
    lemma_header_pair_at(hb, ps, j);
    lemma_read_bytes_at(hb, pos, hb.len() as int, k);
    let p1 = pos + ek.len();
    lemma_read_bytes_at(hb, p1, hb.len() as int, v);
    assert(p1 + ev.len() == mhl + spec_concat_header_pairs(ps, j + 1).len());
    if k == status_key() {
        assert(k.len() > 0 && k[0] == 0x3a);
        lemma_status_roundtrip(stv);
    } else {
        assert(!(k.len() > 0 && k[0] == 0x3a)) by {
            assert(valid_header_name(k));
        }
    }
}

/// Walking the remaining header pairs of a well-formed header map blob
/// yields the status and the non-status pairs in order.
#[verifier::rlimit(100)]
#[verifier::spinoff_prover]
proof fn lemma_parse_header_pairs_chain(
    hb: Seq<u8>,
    ps: PairSeq,
    j: int,
    st: Option<int>,
    acc: PairSeq,
    stv: int,
)
    requires
        hb == enc_map_header(ps.len() as int) + spec_concat_header_pairs(ps, ps.len() as int),
        0 <= j <= ps.len(),
        ps.len() < 0x10000000000000000,
        100 <= stv <= 599,
        keys_distinct(ps),
        forall|t: int|
            j <= t < ps.len() ==> (#[trigger] ps[t]).0.len() < 0x10000000000000000 && ps[t].1.len()
                < 0x10000000000000000,
        forall|t: int|
            j <= t < ps.len() ==> ((#[trigger] ps[t]).0 == status_key() ==> ps[t].1 == dec_digits(
                stv,
            )),
        forall|t: int|
            j <= t < ps.len() ==> ((#[trigger] ps[t]).0 != status_key() ==> valid_header_name(
                ps[t].0,
            )),
        match st {
            Some(x) => x == stv && forall|t: int|
                j <= t < ps.len() ==> (#[trigger] ps[t]).0 != status_key(),
            None => exists|t: int| j <= t < ps.len() && (#[trigger] ps[t]).0 == status_key(),
        },
    ensures
        spec_parse_header_pairs(
            hb,
            enc_map_header(ps.len() as int).len() + spec_concat_header_pairs(ps, j).len() as int,
            ps.len() - j,
            st,
            acc,
        ) == Ok::<(int, PairSeq), Error>((stv, acc + filter_nonstatus(ps, j))),
    decreases ps.len() - j,
{
    let n = ps.len() as int;
    if j == n {
        assert(st is Some);
        assert(filter_nonstatus(ps, j) =~= Seq::<(Seq<u8>, Seq<u8>)>::empty());
        assert(acc + filter_nonstatus(ps, j) =~= acc);
    } else {
        let k = ps[j].0;
        lemma_chain_step(hb, ps, j, st, acc, stv);
        if k == status_key() {
            assert(st is None) by {
                if st is Some {
                    assert(ps[j].0 != status_key());
                }
            }
            assert forall|t: int| j + 1 <= t < n implies (#[trigger] ps[t]).0
                != status_key() by {
                if ps[t].0 == status_key() {
                    assert(ps[j].0 == ps[t].0);
                }
            }
            lemma_parse_header_pairs_chain(hb, ps, j + 1, Some(stv), acc, stv);
            assert(filter_nonstatus(ps, j) == filter_nonstatus(ps, j + 1));
        } else {
            if st is None {
                assert(exists|t: int| j + 1 <= t < n && (#[trigger] ps[t]).0 == status_key())
                    by {
                    let t = choose|t: int| j <= t < n && (#[trigger] ps[t]).0 == status_key();
                    assert(t != j);
                    assert(ps[t].0 == status_key());
                }
            }
            lemma_parse_header_pairs_chain(hb, ps, j + 1, st, acc.push((k, ps[j].1)), stv);
            assert(filter_nonstatus(ps, j) == seq![ps[j]] + filter_nonstatus(ps, j + 1));
            assert(acc + filter_nonstatus(ps, j) =~= acc.push((k, ps[j].1)) + filter_nonstatus(
                ps,
                j + 1,
            ));
        }
    }
}

/// Lengths that fit the wire: every count and byte-string length of a
/// response is below 2^64.
pub open spec fn resp_small(r: ResponseView) -> bool {
    &&& r.headers.len() + 1 < 0x10000000000000000
    &&& forall|t: int|
        0 <= t < r.headers.len() ==> (#[trigger] r.headers[t]).0.len() < 0x10000000000000000
            && r.headers[t].1.len() < 0x10000000000000000
    &&& spec_headers_blob(r).len() < 0x10000000000000000
    &&& r.body.len() < 0x10000000000000000
}

/// Parsing the encoded header map of a well-formed response yields its
/// status and exactly its stored headers.
#[verifier::rlimit(100)]
proof fn lemma_parse_headers_blob_of(r: ResponseView)
    requires
        resp_wf(r),
        resp_small(r),
    ensures
        spec_parse_headers_blob(spec_headers_blob(r)) == Ok::<(int, PairSeq), Error>(
            (r.status as int, r.headers),
        ),
{
    let ps = spec_headers_pairs(r);
    let hb = spec_headers_blob(r);
    let n = ps.len() as int;
    lemma_headers_pairs_strict(r);
    assert(keys_distinct(ps)) by {
        assert forall|i: int, j: int| 0 <= i < j < n implies ps[i].0 != ps[j].0 by {
            assert(key_lt(ps[i].0, ps[j].0));
            lemma_key_lt_asym(ps[i].0, ps[j].0);
        }
    }
    // the map header is at position 0
    let mh = enc_map_header(n);
    assert(hb.subrange(0, mh.len() as int) =~= mh);
    lemma_read_map_header_at(hb, 0, hb.len() as int, n);
    // the element facts of the full pair sequence
    crate::canon::lemma_insert_sorted_elems((status_key(), dec_digits(r.status as int)), r.headers);
    assert forall|t: int| 0 <= t < n implies (#[trigger] ps[t]).0.len() < 0x10000000000000000
        && ps[t].1.len() < 0x10000000000000000 by {
        if ps[t] == (status_key(), dec_digits(r.status as int)) {
            lemma_dec_digits_status(r.status as int);
        } else {
            assert(crate::canon::pair_in(r.headers, ps[t]));
            let m = choose|m: int| 0 <= m < r.headers.len() && r.headers[m] == ps[t];
        }
    }
    assert forall|t: int| 0 <= t < n implies ((#[trigger] ps[t]).0 == status_key() ==> ps[t].1
        == dec_digits(r.status as int)) by {
        if ps[t].0 == status_key() && ps[t] != (status_key(), dec_digits(r.status as int)) {
            assert(crate::canon::pair_in(r.headers, ps[t]));
            let m = choose|m: int| 0 <= m < r.headers.len() && r.headers[m] == ps[t];
            assert(valid_header_name(r.headers[m].0));
            assert(status_key()[0] == 0x3a);
        }
    }
    assert forall|t: int| 0 <= t < n implies ((#[trigger] ps[t]).0 != status_key()
        ==> valid_header_name(ps[t].0)) by {
        if ps[t].0 != status_key() {
            assert(ps[t] != (status_key(), dec_digits(r.status as int)));
            assert(crate::canon::pair_in(r.headers, ps[t]));
            let m = choose|m: int| 0 <= m < r.headers.len() && r.headers[m] == ps[t];
            assert(valid_header_name(r.headers[m].0));
        }
    }
    assert(exists|t: int| 0 <= t < n && (#[trigger] ps[t]).0 == status_key()) by {
        assert(crate::canon::pair_in(ps, (status_key(), dec_digits(r.status as int))));
        let t = choose|t: int|
            0 <= t < ps.len() && ps[t] == (status_key(), dec_digits(r.status as int));
        assert(ps[t].0 == status_key());
    }
    assert(spec_concat_header_pairs(ps, 0).len() == 0);
    lemma_parse_header_pairs_chain(hb, ps, 0, None, Seq::empty(), r.status as int);
    // the accumulator is exactly the stored headers
    assert(forall|t: int|
        0 <= t < r.headers.len() ==> (#[trigger] r.headers[t]).0 != status_key()) by {
        assert forall|t: int| 0 <= t < r.headers.len() implies (#[trigger] r.headers[t]).0
            != status_key() by {
            assert(valid_header_name(r.headers[t].0));
            assert(status_key()[0] == 0x3a);
        }
    }
    lemma_filter_of_insert((status_key(), dec_digits(r.status as int)), r.headers);
    assert(Seq::<(Seq<u8>, Seq<u8>)>::empty() + filter_nonstatus(ps, 0) =~= r.headers);
    // deduplication and sorting leave the already-canonical headers alone
    assert(keys_distinct(r.headers)) by {
        assert forall|i: int, j: int| 0 <= i < j < r.headers.len() implies r.headers[i].0
            != r.headers[j].0 by {
            assert(key_lt(r.headers[i].0, r.headers[j].0));
            lemma_key_lt_asym(r.headers[i].0, r.headers[j].0);
        }
    }
    lemma_dedup_of_distinct(r.headers);
    lemma_sort_pairs_of_sorted(r.headers);
}


/// Parsing the slice that holds an encoded response entry yields exactly
/// that exchange's response.
#[verifier::rlimit(100)]
#[verifier::spinoff_prover]
proof fn lemma_parse_response_of(b: Seq<u8>, start: int, e: ExchangeView)
    requires
        resp_wf(e.response),
        resp_small(e.response),
        0 <= start,
        start + spec_resp_entry(e).len() <= b.len(),
        b.subrange(start, start + spec_resp_entry(e).len() as int) == spec_resp_entry(e),
    ensures
        spec_parse_response(b, start, start + spec_resp_entry(e).len() as int) == Ok::<
            ResponseView,
            Error,
        >(e.response),
{
    let entry = spec_resp_entry(e);
    let end = start + entry.len() as int;
    let hb = spec_headers_blob(e.response);
    let body = e.response.body;
    let ah = enc_array_header(2);
    let ebh = enc_bytes(hb);
    let ebb = enc_bytes(body);
    assert(entry == ah + ebh + ebb);
    assert(ah.len() == 1);
    assert forall|t: int| 0 <= t < entry.len() implies b[start + t] == entry[t] by {
        assert(b.subrange(start, end)[t] == b[start + t]);
    }
    assert(b.subrange(start, start + 1) =~= ah) by {
        assert(b[start + 0] == entry[0]);
        assert(entry[0] == ah[0]);
    }
    lemma_read_array_header_at(b, start, end, 2);
    let p0 = start + 1;
    assert forall|t: int| 0 <= t < ebh.len() implies b.subrange(p0, p0 + ebh.len() as int)[t]
        == ebh[t] by {
        assert(b[start + (1 + t)] == entry[1 + t]);
        assert(entry[1 + t] == (ah + ebh)[1 + t]);
        assert((ah + ebh)[1 + t] == ebh[t]);
    }
    assert(b.subrange(p0, p0 + ebh.len() as int) =~= ebh);
    lemma_read_bytes_at(b, p0, end, hb);
    let p1 = p0 + ebh.len() as int;
    lemma_parse_headers_blob_of(e.response);
    assert forall|t: int| 0 <= t < ebb.len() implies b.subrange(p1, p1 + ebb.len() as int)[t]
        == ebb[t] by {
        assert(b[start + (1 + ebh.len() + t)] == entry[1 + ebh.len() + t]);
        assert(entry[1 + ebh.len() + t] == ebb[t]);
    }
    assert(b.subrange(p1, p1 + ebb.len() as int) =~= ebb);
    lemma_read_bytes_at(b, p1, end, body);
    assert(ResponseView {
        status: e.response.status,
        headers: e.response.headers,
        body: e.response.body,
    } == e.response);
}

/// Parsing the remaining encoded index pairs yields the remaining entries.
#[verifier::rlimit(100)]
#[verifier::spinoff_prover]
proof fn lemma_parse_index_entries_of(
    b: Seq<u8>,
    base: int,
    end: int,
    ps: PairSeq,
    ents: Seq<IndexEntry>,
    j: int,
    acc: Seq<IndexEntry>,
)
    requires
        ps.len() == ents.len(),
        ps.len() < 0x10000000000000000,
        0 <= j <= ps.len(),
        0 <= base,
        base + spec_concat_index_pairs(ps, ps.len() as int).len() <= end <= b.len(),
        b.subrange(base, base + spec_concat_index_pairs(ps, ps.len() as int).len() as int)
            == spec_concat_index_pairs(ps, ps.len() as int),
        forall|t: int|
            0 <= t < ps.len() ==> {
                &&& (#[trigger] ps[t]).0.len() < 0x10000000000000000
                &&& valid_utf8(ps[t].0)
                &&& decode_utf8(ps[t].0) == ents[t].url
                &&& 0 <= ents[t].off < 0x10000000000000000
                &&& 0 <= ents[t].len < 0x10000000000000000
                &&& ps[t].1 == spec_index_value(ents[t].off, ents[t].len)
            },
    ensures
        spec_parse_index_entries(
            b,
            base + spec_concat_index_pairs(ps, j).len() as int,
            end,
            ps.len() - j,
            acc,
        ) == Ok::<Seq<IndexEntry>, Error>(acc + ents.subrange(j, ents.len() as int)),
    decreases ps.len() - j,
{
    let n = ps.len() as int;
    let pos = base + spec_concat_index_pairs(ps, j).len() as int;
    if j == n {
        assert(ents.subrange(j, n) =~= Seq::<IndexEntry>::empty());
        assert(acc + ents.subrange(j, n) =~= acc);
    } else {
        let key = ps[j].0;
        let et = enc_text(key);
        let va = enc_array_header(2);
        let eo = enc_uint(ents[j].off);
        let el = enc_uint(ents[j].len);
        assert(ps[j].1 == va + eo + el);
        let pb = et + ps[j].1;
        lemma_concat_index_prefix(ps, j + 1, n);
        assert(spec_concat_index_pairs(ps, j + 1) == spec_concat_index_pairs(ps, j) + et
            + ps[j].1);
        let cj = spec_concat_index_pairs(ps, j).len() as int;
        let cj1 = spec_concat_index_pairs(ps, j + 1).len() as int;
        assert forall|t: int| 0 <= t < pb.len() implies b[pos + t] == pb[t] by {
            assert(spec_concat_index_pairs(ps, n).subrange(0, cj1)[cj + t]
                == spec_concat_index_pairs(ps, n)[cj + t]);
            assert(spec_concat_index_pairs(ps, j + 1)[cj + t] == pb[t]) by {
                assert(spec_concat_index_pairs(ps, j + 1) == spec_concat_index_pairs(ps, j)
                    + pb);
            }
            assert(b.subrange(base, base + spec_concat_index_pairs(ps, n).len() as int)[cj + t]
                == b[base + (cj + t)]);
        }
        assert(b.subrange(pos, pos + et.len() as int) =~= et) by {
            assert forall|t: int| 0 <= t < et.len() implies b.subrange(
                pos,
                pos + et.len() as int,
            )[t] == et[t] by {
                assert(b[pos + t] == pb[t]);
                assert(pb[t] == et[t]);
            }
        }
        lemma_read_text_at(b, pos, end, key);
        let p1 = pos + et.len() as int;
        assert(b.subrange(p1, p1 + 1) =~= va) by {
            assert(b[pos + (et.len() + 0)] == pb[et.len() as int]);
            assert(pb[et.len() as int] == va[0]);
        }
        lemma_read_array_header_at(b, p1, end, 2);
        let p2 = p1 + 1;
        assert(b.subrange(p2, p2 + eo.len() as int) =~= eo) by {
            assert forall|t: int| 0 <= t < eo.len() implies b.subrange(
                p2,
                p2 + eo.len() as int,
            )[t] == eo[t] by {
                assert(b[pos + (et.len() + 1 + t)] == pb[et.len() + 1 + t]);
                assert(pb[et.len() + 1 + t] == (va + eo + el)[1 + t]);
                assert((va + eo + el)[1 + t] == eo[t]);
            }
        }
        lemma_read_uint_at(b, p2, end, ents[j].off);
        let p3 = p2 + eo.len() as int;
        assert(b.subrange(p3, p3 + el.len() as int) =~= el) by {
            assert forall|t: int| 0 <= t < el.len() implies b.subrange(
                p3,
                p3 + el.len() as int,
            )[t] == el[t] by {
                assert(b[pos + (et.len() + 1 + eo.len() + t)] == pb[et.len() + 1 + eo.len()
                    + t]);
                assert(pb[et.len() + 1 + eo.len() + t] == (va + eo + el)[1 + eo.len() + t]);
                assert((va + eo + el)[1 + eo.len() + t] == el[t]);
            }
        }
        lemma_read_uint_at(b, p3, end, ents[j].len);
        let p4 = p3 + el.len() as int;
        assert(p4 == base + cj1);
        assert(IndexEntry { url: decode_utf8(key), off: ents[j].off, len: ents[j].len }
            == ents[j]);
        lemma_parse_index_entries_of(b, base, end, ps, ents, j + 1, acc.push(ents[j]));
        assert(acc + ents.subrange(j, n) =~= acc.push(ents[j]) + ents.subrange(j + 1, n));
    }
}


/// An earlier prefix of the concatenated section-length entries is a
/// prefix of any later one.
proof fn lemma_concat_sec_lens_prefix(ps: PairSeq, a: int, m: int)
    requires
        0 <= a <= m,
    ensures
        spec_concat_sec_lens(ps, a).len() <= spec_concat_sec_lens(ps, m).len(),
        spec_concat_sec_lens(ps, m).subrange(0, spec_concat_sec_lens(ps, a).len() as int)
            == spec_concat_sec_lens(ps, a),
    decreases m - a,
{
    let la = spec_concat_sec_lens(ps, a).len() as int;
    if m == a {
        assert(spec_concat_sec_lens(ps, a).subrange(0, la) =~= spec_concat_sec_lens(ps, a));
    } else {
        lemma_concat_sec_lens_prefix(ps, a, m - 1);
        assert forall|t: int| 0 <= t < la implies spec_concat_sec_lens(ps, m)[t]
            == spec_concat_sec_lens(ps, a)[t] by {
            assert(spec_concat_sec_lens(ps, m)[t] == spec_concat_sec_lens(ps, m - 1)[t]);
            assert(spec_concat_sec_lens(ps, m - 1).subrange(0, la)[t] == spec_concat_sec_lens(
                ps,
                m - 1,
            )[t]);
        }
        assert(spec_concat_sec_lens(ps, m).subrange(0, la) =~= spec_concat_sec_lens(ps, a));
    }
}

/// An earlier prefix of the concatenated section bodies is a prefix of any
/// later one.
proof fn lemma_concat_sec_blobs_prefix(ps: PairSeq, a: int, m: int)
    requires
        0 <= a <= m,
    ensures
        spec_concat_sec_blobs(ps, a).len() <= spec_concat_sec_blobs(ps, m).len(),
        spec_concat_sec_blobs(ps, m).subrange(0, spec_concat_sec_blobs(ps, a).len() as int)
            == spec_concat_sec_blobs(ps, a),
    decreases m - a,
{
    let la = spec_concat_sec_blobs(ps, a).len() as int;
    if m == a {
        assert(spec_concat_sec_blobs(ps, a).subrange(0, la) =~= spec_concat_sec_blobs(ps, a));
    } else {
        lemma_concat_sec_blobs_prefix(ps, a, m - 1);
        assert forall|t: int| 0 <= t < la implies spec_concat_sec_blobs(ps, m)[t]
            == spec_concat_sec_blobs(ps, a)[t] by {
            assert(spec_concat_sec_blobs(ps, m)[t] == spec_concat_sec_blobs(ps, m - 1)[t]);
            assert(spec_concat_sec_blobs(ps, m - 1).subrange(0, la)[t] == spec_concat_sec_blobs(
                ps,
                m - 1,
            )[t]);
        }
        assert(spec_concat_sec_blobs(ps, m).subrange(0, la) =~= spec_concat_sec_blobs(ps, a));
    }
}

/// The position of the sections array payload inside an encoded bundle.
pub open spec fn spec_sections_payload_pos(v: BundleView) -> int {
    let secs = spec_sections(v);
    enc_array_header(5).len() + enc_bytes(spec_magic()).len() + enc_bytes(v.version).len()
        + enc_bytes(spec_section_lengths_blob(secs)).len() + enc_array_header(
        secs.len() as int,
    ).len() as int
}

/// The section offset triples the decoder computes for an encoded bundle.
pub open spec fn spec_frame_offsets(v: BundleView) -> Seq<(Seq<u8>, int, int)> {
    let secs = spec_sections(v);
    let p4 = spec_sections_payload_pos(v);
    Seq::new(
        secs.len(),
        |i: int| (secs[i].0, p4 + spec_concat_sec_blobs(secs, i).len() as int, secs[i].1.len() as int),
    )
}

/// The expected `(name, length)` pairs of the section-lengths blob.
pub open spec fn spec_sec_len_pairs(secs: PairSeq) -> Seq<(Seq<u8>, int)> {
    Seq::new(secs.len(), |i: int| (secs[i].0, secs[i].1.len() as int))
}

/// Walking the remaining section-lengths entries yields the expected
/// `(name, length)` pairs.
#[verifier::rlimit(100)]
#[verifier::spinoff_prover]
proof fn lemma_parse_sec_pairs_of(blob: Seq<u8>, secs: PairSeq, j: int)
    requires
        0 <= j <= secs.len(),
        secs.len() < 0x10000000000000000,
        blob == enc_array_header(2 * secs.len() as int) + spec_concat_sec_lens(
            secs,
            secs.len() as int,
        ),
        forall|t: int|
            0 <= t < secs.len() ==> {
                &&& (#[trigger] secs[t]).0.len() < 0x10000000000000000
                &&& valid_utf8(secs[t].0)
                &&& secs[t].1.len() < 0x10000000000000000
            },
        forall|t1: int, t2: int|
            0 <= t1 < t2 < secs.len() ==> (#[trigger] secs[t1]).0 != (#[trigger] secs[t2]).0,
    ensures
        spec_parse_sec_pairs(
            blob,
            enc_array_header(2 * secs.len() as int).len() + spec_concat_sec_lens(
                secs,
                j,
            ).len() as int,
            secs.len() - j,
            spec_sec_len_pairs(secs).subrange(0, j),
        ) == Ok::<Seq<(Seq<u8>, int)>, Error>(spec_sec_len_pairs(secs)),
    decreases secs.len() - j,
{
    let n = secs.len() as int;
    let ahl = enc_array_header(2 * n).len() as int;
    let pos = ahl + spec_concat_sec_lens(secs, j).len() as int;
    let exp = spec_sec_len_pairs(secs);
    if j == n {
        assert(exp.subrange(0, n) =~= exp);
    } else {
        let name = secs[j].0;
        let et = enc_text(name);
        let eu = enc_uint(secs[j].1.len() as int);
        lemma_concat_sec_lens_prefix(secs, j + 1, n);
        assert(spec_concat_sec_lens(secs, j + 1) == spec_concat_sec_lens(secs, j) + et + eu);
        let cj = spec_concat_sec_lens(secs, j).len() as int;
        let cj1 = spec_concat_sec_lens(secs, j + 1).len() as int;
        assert forall|t: int| 0 <= t < et.len() + eu.len() implies blob[pos + t]
            == (et + eu)[t] by {
            assert(spec_concat_sec_lens(secs, n).subrange(0, cj1)[cj + t]
                == spec_concat_sec_lens(secs, n)[cj + t]);
            assert(spec_concat_sec_lens(secs, j + 1)[cj + t] == (et + eu)[t]);
            assert(blob[ahl + (cj + t)] == spec_concat_sec_lens(secs, n)[cj + t]);
        }
        assert(blob.subrange(pos, pos + et.len() as int) =~= et) by {
            assert forall|t: int| 0 <= t < et.len() implies blob.subrange(
                pos,
                pos + et.len() as int,
            )[t] == et[t] by {
                assert(blob[pos + t] == (et + eu)[t]);
                assert((et + eu)[t] == et[t]);
            }
        }
        lemma_read_text_at(blob, pos, blob.len() as int, name);
        let p1 = pos + et.len() as int;
        assert(blob.subrange(p1, p1 + eu.len() as int) =~= eu) by {
            assert forall|t: int| 0 <= t < eu.len() implies blob.subrange(
                p1,
                p1 + eu.len() as int,
            )[t] == eu[t] by {
                assert(blob[pos + (et.len() + t)] == (et + eu)[et.len() + t]);
                assert((et + eu)[et.len() + t] == eu[t]);
            }
        }
        lemma_read_uint_at(blob, p1, blob.len() as int, secs[j].1.len() as int);
        // the name has not been seen among the first `j` entries
        assert(!sec_has_name(exp.subrange(0, j), name)) by {
            if sec_has_name(exp.subrange(0, j), name) {
                let t = choose|t: int|
                    0 <= t < exp.subrange(0, j).len() && exp.subrange(0, j)[t].0 == name;
                assert(exp[t].0 == secs[t].0);
                assert(secs[t].0 != secs[j].0);
            }
        }
        lemma_parse_sec_pairs_of(blob, secs, j + 1);
        assert(exp.subrange(0, j).push((name, secs[j].1.len() as int)) =~= exp.subrange(
            0,
            j + 1,
        ));
    }
}

/// Computing the absolute offsets of the sections succeeds and yields the
/// expected triples; the last section ends 8 bytes before the buffer end.
proof fn lemma_sec_offsets_of(v: BundleView, blen: int, j: int)
    requires
        blen == spec_encode_body(v).len() + 8,
        0 <= j <= spec_sections(v).len(),
    ensures
        spec_sec_offsets(
            spec_sec_len_pairs(spec_sections(v)),
            blen,
            j,
            spec_frame_offsets(v).subrange(0, j),
            spec_sections_payload_pos(v) + spec_concat_sec_blobs(spec_sections(v), j).len() as int,
        ) == Ok::<(Seq<(Seq<u8>, int, int)>, int), Error>(
            (
                spec_frame_offsets(v),
                spec_sections_payload_pos(v) + spec_concat_sec_blobs(
                    spec_sections(v),
                    spec_sections(v).len() as int,
                ).len() as int,
            ),
        ),
    decreases spec_sections(v).len() - j,
{
    let secs = spec_sections(v);
    let n = secs.len() as int;
    let pairs = spec_sec_len_pairs(secs);
    let p4 = spec_sections_payload_pos(v);
    let cur = p4 + spec_concat_sec_blobs(secs, j).len() as int;
    assert(blen == p4 + spec_concat_sec_blobs(secs, n).len() + 8);
    if j == n {
        assert(spec_frame_offsets(v).subrange(0, n) =~= spec_frame_offsets(v));
    } else {
        let ln = pairs[j].1;
        assert(ln == secs[j].1.len());
        lemma_concat_sec_blobs_prefix(secs, j + 1, n);
        assert(spec_concat_sec_blobs(secs, j + 1) == spec_concat_sec_blobs(secs, j) + secs[j].1);
        assert(ln <= blen - cur);
        lemma_sec_offsets_of(v, blen, j + 1);
        assert(spec_frame_offsets(v).subrange(0, j).push((secs[j].0, cur, ln))
            =~= spec_frame_offsets(v).subrange(0, j + 1));
    }
}

/// Inside an encoded bundle, section `i`'s body sits at its computed
/// offset.
proof fn lemma_section_at(v: BundleView, i: int)
    requires
        0 <= i < spec_sections(v).len(),
    ensures
        ({
            let b = spec_encode(v);
            let secs = spec_sections(v);
            let off = spec_frame_offsets(v)[i].1;
            let ln = spec_frame_offsets(v)[i].2;
            &&& 0 <= off
            &&& off + ln <= spec_encode_body(v).len()
            &&& b.subrange(off, off + ln) == secs[i].1
        }),
{
    let b = spec_encode(v);
    let body = spec_encode_body(v);
    let secs = spec_sections(v);
    let n = secs.len() as int;
    let p4 = spec_sections_payload_pos(v);
    let off = p4 + spec_concat_sec_blobs(secs, i).len() as int;
    let ln = secs[i].1.len() as int;
    lemma_concat_sec_blobs_prefix(secs, i + 1, n);
    assert(spec_concat_sec_blobs(secs, i + 1) == spec_concat_sec_blobs(secs, i) + secs[i].1);
    let ci = spec_concat_sec_blobs(secs, i).len() as int;
    let ci1 = spec_concat_sec_blobs(secs, i + 1).len() as int;
    assert(body == enc_array_header(5) + enc_bytes(spec_magic()) + enc_bytes(v.version)
        + enc_bytes(spec_section_lengths_blob(secs)) + enc_array_header(n)
        + spec_concat_sec_blobs(secs, n));
    assert forall|t: int| 0 <= t < ln implies b[off + t] == secs[i].1[t] by {
        assert(spec_concat_sec_blobs(secs, n).subrange(0, ci1)[ci + t] == spec_concat_sec_blobs(
            secs,
            n,
        )[ci + t]);
        assert(spec_concat_sec_blobs(secs, i + 1)[ci + t] == secs[i].1[t]);
        assert(body[p4 + (ci + t)] == spec_concat_sec_blobs(secs, n)[ci + t]);
        assert(b[p4 + (ci + t)] == body[p4 + (ci + t)]);
    }
    assert(b.subrange(off, off + ln) =~= secs[i].1);
}


/// Lengths that fit the wire, for a whole bundle.  Any bundle that exists
/// in memory satisfies these machine limits.
pub open spec fn bundle_small(v: BundleView) -> bool {
    &&& v.exchanges.len() < 0x10000000000000000
    &&& forall|i: int|
        0 <= i < v.exchanges.len() ==> resp_small((#[trigger] v.exchanges[i]).response)
    &&& forall|i: int|
        0 <= i < v.exchanges.len() ==> encode_utf8((#[trigger] v.exchanges[i]).request.url).len()
            < 0x1000000000000000
    &&& spec_responses_section(v.exchanges).len() < 0x1000000000000000
    &&& spec_index_section(v.exchanges).len() < 0x1000000000000000
    &&& match v.primary_url {
        Some(u) => encode_utf8(u).len() < 0x1000000000000000,
        None => true,
    }
}

/// The shape of an encoded bundle's section list: two or three sections,
/// short distinct UTF-8 names, `responses` last.
proof fn lemma_sections_facts(v: BundleView)
    requires
        bundle_wf(v),
        bundle_small(v),
    ensures
        ({
            let secs = spec_sections(v);
            let n = secs.len() as int;
            &&& 2 <= n <= 3
            &&& (forall|t: int|
                0 <= t < n ==> valid_utf8((#[trigger] secs[t]).0) && secs[t].0.len() < 24
                    && secs[t].1.len() < 0x10000000000000000)
            &&& (forall|t1: int, t2: int|
                0 <= t1 < t2 < n ==> (#[trigger] secs[t1]).0 != (#[trigger] secs[t2]).0)
            &&& secs[n - 1] == (name_responses(), spec_responses_section(v.exchanges))
            &&& secs[n - 2] == (name_index(), spec_index_section(v.exchanges))
            &&& (v.primary_url is Some <==> n == 3)
            &&& (v.primary_url is Some ==> secs[0] == (
                name_primary(),
                enc_text(encode_utf8(v.primary_url.unwrap())),
            ))
        }),
{
    lemma_section_names_utf8();
    let secs = spec_sections(v);
    match v.primary_url {
        Some(u) => {
            assert(secs.len() == 3);
            assert(secs[0] == (name_primary(), enc_text(encode_utf8(u))));
            assert(secs[1] == (name_index(), spec_index_section(v.exchanges)));
            assert(secs[2] == (name_responses(), spec_responses_section(v.exchanges)));
            assert(enc_text(encode_utf8(u)).len() < 0x10000000000000000);
        },
        None => {
            assert(secs.len() == 2);
            assert(secs[0] == (name_index(), spec_index_section(v.exchanges)));
            assert(secs[1] == (name_responses(), spec_responses_section(v.exchanges)));
        },
    }
}

/// Each section-lengths entry takes under 33 bytes.
proof fn lemma_concat_sec_lens_bound(secs: PairSeq, m: int)
    requires
        0 <= m <= secs.len(),
        forall|t: int| 0 <= t < secs.len() ==> (#[trigger] secs[t]).0.len() < 24,
    ensures
        spec_concat_sec_lens(secs, m).len() <= 33 * m,
    decreases m,
{
    if m > 0 {
        lemma_concat_sec_lens_bound(secs, m - 1);
        assert(enc_text(secs[m - 1].0).len() <= 24);
        assert(enc_uint(secs[m - 1].1.len() as int).len() <= 9);
    }
}

/// The position right after the section-lengths item in an encoded bundle.
pub open spec fn spec_meta_end(v: BundleView) -> int {
    enc_array_header(5).len() + enc_bytes(spec_magic()).len() + enc_bytes(v.version).len()
        + enc_bytes(spec_section_lengths_blob(spec_sections(v))).len() as int
}

/// Parsing the prelude of an encoded bundle succeeds with its version
/// bytes and the section-lengths pairs.
#[verifier::rlimit(100)]
#[verifier::spinoff_prover]
proof fn lemma_parse_meta_of(v: BundleView)
    requires
        bundle_wf(v),
        bundle_small(v),
        spec_encode_body(v).len() + 8 < 0x10000000000000000,
    ensures
        spec_parse_meta(spec_encode(v)) == Ok::<(Seq<u8>, Seq<(Seq<u8>, int)>, int), Error>(
            (v.version, spec_sec_len_pairs(spec_sections(v)), spec_meta_end(v)),
        ),
        ({
            let b = spec_encode(v);
            let blen = b.len() as int;
            let secs = spec_sections(v);
            let slb = spec_section_lengths_blob(secs);
            let q2 = 1 + enc_bytes(spec_magic()).len() as int;
            let q3 = q2 + enc_bytes(v.version).len() as int;
            &&& spec_read_array_header(b, 0, blen) == Some((5int, 1int))
            &&& spec_read_bytes(b, 1, blen) == Some((spec_magic(), q2))
            &&& spec_read_bytes(b, q2, blen) == Some((v.version, q3))
            &&& spec_read_bytes(b, q3, blen) == Some((slb, spec_meta_end(v)))
            &&& slb.len() < 8192
            &&& spec_read_array_header(slb, 0, slb.len() as int) == Some(
                (2 * secs.len() as int, 1int),
            )
            &&& spec_parse_sec_pairs(slb, 1, secs.len() as int, Seq::empty()) == Ok::<
                Seq<(Seq<u8>, int)>,
                Error,
            >(spec_sec_len_pairs(secs))
            &&& spec_sec_len_pairs(secs).len() == secs.len()
            &&& spec_sec_len_pairs(secs).last().0 == name_responses()
            &&& v.version.len() == 4
        }),
{
    let b = spec_encode(v);
    let body = spec_encode_body(v);
    let secs = spec_sections(v);
    let n = secs.len() as int;
    let slb = spec_section_lengths_blob(secs);
    let total = body.len() as int + 8;
    lemma_sections_facts(v);
    let pah5 = enc_array_header(5);
    let pm = enc_bytes(spec_magic());
    let pv = enc_bytes(v.version);
    let psl = enc_bytes(slb);
    let pan = enc_array_header(n);
    let blobs = spec_concat_sec_blobs(secs, n);
    assert(body == pah5 + pm + pv + psl + pan + blobs);
    assert(b == body + spec_be64(total));
    assert(pah5.len() == 1);
    let q1: int = 1;
    let q2 = q1 + pm.len() as int;
    let q3 = q2 + pv.len() as int;
    let q4 = q3 + psl.len() as int;
    assert forall|t: int| 0 <= t < body.len() implies b[t] == body[t] by {}
    assert(b.subrange(0, 1) =~= pah5) by {
        assert(b[0] == body[0]);
        assert(body[0] == pah5[0]);
    }
    lemma_read_array_header_at(b, 0, b.len() as int, 5);
    assert(b.subrange(q1, q1 + pm.len() as int) =~= pm) by {
        assert forall|t: int| 0 <= t < pm.len() implies b.subrange(q1, q2)[t] == pm[t] by {
            assert(b[q1 + t] == body[q1 + t]);
            assert(body[q1 + t] == pm[t]);
        }
    }
    lemma_read_bytes_at(b, q1, b.len() as int, spec_magic());
    assert(b.subrange(q2, q2 + pv.len() as int) =~= pv) by {
        assert forall|t: int| 0 <= t < pv.len() implies b.subrange(q2, q3)[t] == pv[t] by {
            assert(b[q2 + t] == body[q2 + t]);
            assert(body[q2 + t] == pv[t]);
        }
    }
    assert(v.version.len() == 4);
    lemma_read_bytes_at(b, q2, b.len() as int, v.version);
    assert(b.subrange(q3, q3 + psl.len() as int) =~= psl) by {
        assert forall|t: int| 0 <= t < psl.len() implies b.subrange(q3, q4)[t] == psl[t] by {
            assert(b[q3 + t] == body[q3 + t]);
            assert(body[q3 + t] == psl[t]);
        }
    }
    assert(slb.len() < 8192) by {
        lemma_concat_sec_lens_bound(secs, n);
        assert(enc_array_header(2 * n).len() == 1);
    }
    lemma_read_bytes_at(b, q3, b.len() as int, slb);
    assert(slb.subrange(0, 1) =~= enc_array_header(2 * n)) by {
        assert(slb[0] == enc_array_header(2 * n)[0]);
    }
    lemma_read_array_header_at(slb, 0, slb.len() as int, 2 * n);
    assert((2 * n) / 2 == n) by (nonlinear_arith)
        requires
            0 <= n,
    ;
    assert(spec_sec_len_pairs(secs).subrange(0, 0) =~= Seq::<(Seq<u8>, int)>::empty());
    assert(spec_concat_sec_lens(secs, 0).len() == 0);
    lemma_parse_sec_pairs_of(slb, secs, 0);
    let pairs = spec_sec_len_pairs(secs);
    assert(pairs.len() == n);
    assert(pairs.last().0 == name_responses());
    assert(q4 == spec_meta_end(v));
}

/// Parsing the frame of an encoded bundle succeeds with its version bytes
/// and the expected section offsets.
#[verifier::rlimit(100)]
#[verifier::spinoff_prover]
proof fn lemma_parse_frame_of(v: BundleView)
    requires
        bundle_wf(v),
        bundle_small(v),
        spec_encode_body(v).len() + 8 < 0x10000000000000000,
    ensures
        spec_parse_frame(spec_encode(v)) == Ok::<(Seq<u8>, Seq<(Seq<u8>, int, int)>), Error>(
            (v.version, spec_frame_offsets(v)),
        ),
        ({
            let b = spec_encode(v);
            let blen = b.len() as int;
            let secs = spec_sections(v);
            &&& spec_read_array_header(b, spec_meta_end(v), blen) == Some(
                (secs.len() as int, spec_sections_payload_pos(v)),
            )
            &&& spec_sec_offsets(
                spec_sec_len_pairs(secs),
                blen,
                0,
                Seq::empty(),
                spec_sections_payload_pos(v),
            ) == Ok::<(Seq<(Seq<u8>, int, int)>, int), Error>((spec_frame_offsets(v), blen - 8))
        }),
{
    let b = spec_encode(v);
    let body = spec_encode_body(v);
    let secs = spec_sections(v);
    let n = secs.len() as int;
    let slb = spec_section_lengths_blob(secs);
    let total = body.len() as int + 8;
    lemma_sections_facts(v);
    lemma_parse_meta_of(v);
    let pah5 = enc_array_header(5);
    let pm = enc_bytes(spec_magic());
    let pv = enc_bytes(v.version);
    let psl = enc_bytes(slb);
    let pan = enc_array_header(n);
    let blobs = spec_concat_sec_blobs(secs, n);
    assert(body == pah5 + pm + pv + psl + pan + blobs);
    assert(b == body + spec_be64(total));
    let q4 = spec_meta_end(v);
    let q5 = q4 + pan.len() as int;
    let q6 = q5 + blobs.len() as int;
    assert(q6 == body.len());
    assert(b.len() == body.len() + 8);
    assert forall|t: int| 0 <= t < body.len() implies b[t] == body[t] by {}
    assert(b.subrange(q4, q4 + pan.len() as int) =~= pan) by {
        assert forall|t: int| 0 <= t < pan.len() implies b.subrange(q4, q5)[t] == pan[t] by {
            assert(b[q4 + t] == body[q4 + t]);
            assert(body[q4 + t] == pan[t]);
        }
    }
    lemma_read_array_header_at(b, q4, b.len() as int, n);
    let pairs = spec_sec_len_pairs(secs);
    assert(pairs.len() == n);
    assert(spec_sections_payload_pos(v) == q5);
    assert(spec_frame_offsets(v).subrange(0, 0) =~= Seq::<(Seq<u8>, int, int)>::empty());
    assert(spec_concat_sec_blobs(secs, 0).len() == 0);
    lemma_sec_offsets_of(v, b.len() as int, 0);
    let secend = q6;
    assert(b.len() - secend == 8);
    assert forall|t: int| 0 <= t < 8 implies b[secend + t] == spec_be64(total)[t] by {}
    assert(spec_be64_value(b, secend) == total) by {
        crate::cbor::lemma_recompose8(total);
    }
    assert(total == b.len());
}


/// The index entries that an encoded bundle's index section holds, in
/// exchange order.
pub open spec fn spec_expected_entries(exchs: Seq<ExchangeView>) -> Seq<IndexEntry> {
    Seq::new(
        exchs.len(),
        |t: int|
            IndexEntry {
                url: exchs[t].request.url,
                off: spec_offset(exchs, t),
                len: spec_resp_entry(exchs[t]).len() as int,
            },
    )
}

/// Bounds of each entry inside the responses section.
proof fn lemma_entry_bounds(exchs: Seq<ExchangeView>, t: int)
    requires
        0 <= t < exchs.len(),
    ensures
        0 <= spec_offset(exchs, t),
        spec_offset(exchs, t) + spec_resp_entry(exchs[t]).len() <= spec_responses_section(
            exchs,
        ).len(),
{
    let n = exchs.len() as int;
    lemma_resp_entries_prefix(exchs, t + 1, n);
    assert(spec_resp_entries(exchs, t + 1) == spec_resp_entries(exchs, t) + spec_resp_entry(
        exchs[t],
    ));
}

/// Parsing the index section of an encoded bundle yields the expected
/// entries.
#[verifier::rlimit(100)]
#[verifier::spinoff_prover]
proof fn lemma_parse_index_of(v: BundleView)
    requires
        bundle_wf(v),
        bundle_small(v),
        pairs_strictly_sorted(spec_index_pairs(v.exchanges)),
        spec_encode_body(v).len() + 8 < 0x10000000000000000,
    ensures
        ({
            let secs = spec_sections(v);
            let n = secs.len() as int;
            let off = spec_frame_offsets(v)[n - 2].1;
            let ln = spec_frame_offsets(v)[n - 2].2;
            spec_parse_index(spec_encode(v), off, off + ln) == Ok::<Seq<IndexEntry>, Error>(
                spec_expected_entries(v.exchanges),
            )
        }),
{
    let b = spec_encode(v);
    let exchs = v.exchanges;
    let m = exchs.len() as int;
    let secs = spec_sections(v);
    let n = secs.len() as int;
    lemma_sections_facts(v);
    let off = spec_frame_offsets(v)[n - 2].1;
    let ln = spec_frame_offsets(v)[n - 2].2;
    lemma_section_at(v, n - 2);
    let isec = spec_index_section(exchs);
    assert(b.subrange(off, off + ln) == isec);
    assert(ln == isec.len());
    lemma_sort_pairs_of_sorted(spec_index_pairs(exchs));
    let ps = spec_index_pairs(exchs);
    assert(spec_index_sorted(exchs) == ps);
    let mh = enc_map_header(m);
    assert(isec == mh + spec_concat_index_pairs(ps, m));
    assert forall|t: int| 0 <= t < isec.len() implies b[off + t] == isec[t] by {
        assert(b.subrange(off, off + ln)[t] == b[off + t]);
    }
    assert(b.subrange(off, off + mh.len() as int) =~= mh) by {
        assert forall|t: int| 0 <= t < mh.len() implies b.subrange(
            off,
            off + mh.len() as int,
        )[t] == mh[t] by {
            assert(b[off + t] == isec[t]);
            assert(isec[t] == mh[t]);
        }
    }
    lemma_read_map_header_at(b, off, off + ln, m);
    let base = off + mh.len() as int;
    let cc = spec_concat_index_pairs(ps, m);
    assert(b.subrange(base, base + cc.len() as int) =~= cc) by {
        assert forall|t: int| 0 <= t < cc.len() implies b.subrange(
            base,
            base + cc.len() as int,
        )[t] == cc[t] by {
            assert(b[off + (mh.len() + t)] == isec[mh.len() + t]);
            assert(isec[mh.len() + t] == cc[t]);
        }
    }
    let ents = spec_expected_entries(exchs);
    assert forall|t: int| 0 <= t < m implies {
        &&& (#[trigger] ps[t]).0.len() < 0x10000000000000000
        &&& valid_utf8(ps[t].0)
        &&& decode_utf8(ps[t].0) == ents[t].url
        &&& 0 <= ents[t].off < 0x10000000000000000
        &&& 0 <= ents[t].len < 0x10000000000000000
        &&& ps[t].1 == spec_index_value(ents[t].off, ents[t].len)
    } by {
        assert(ps[t] == (
            encode_utf8(exchs[t].request.url),
            spec_index_value(spec_offset(exchs, t), spec_resp_entry(exchs[t]).len() as int),
        ));
        encode_utf8_valid_utf8(exchs[t].request.url);
        encode_utf8_decode_utf8(exchs[t].request.url);
        lemma_entry_bounds(exchs, t);
    }
    lemma_parse_index_entries_of(b, base, off + ln, ps, ents, 0, Seq::empty());
    assert(spec_concat_index_pairs(ps, 0).len() == 0);
    assert(Seq::<IndexEntry>::empty() + ents.subrange(0, m) =~= ents);
}

/// The exchanges a decoded bundle holds: the encoded ones, their request
/// headers dropped (only the URL is persisted on the wire).
pub open spec fn scrub_exchanges(exchs: Seq<ExchangeView>) -> Seq<ExchangeView> {
    Seq::new(
        exchs.len(),
        |t: int|
            ExchangeView {
                request: RequestView { url: exchs[t].request.url, headers: Seq::empty() },
                response: exchs[t].response,
            },
    )
}

/// The bundle a decoded bundle equals: the encoded one with request
/// headers dropped.
pub open spec fn scrub_request_headers(v: BundleView) -> BundleView {
    BundleView {
        version: v.version,
        primary_url: v.primary_url,
        exchanges: scrub_exchanges(v.exchanges),
    }
}

/// Reading the primary section of an encoded bundle yields the primary
/// URL text.
#[verifier::rlimit(100)]
#[verifier::spinoff_prover]
proof fn lemma_parse_primary_of(v: BundleView, u: Seq<char>)
    requires
        bundle_wf(v),
        bundle_small(v),
        v.primary_url == Some(u),
    ensures
        spec_read_text(
            spec_encode(v),
            spec_frame_offsets(v)[0].1,
            spec_frame_offsets(v)[0].1 + spec_frame_offsets(v)[0].2,
        ) == Some(
            (encode_utf8(u), spec_frame_offsets(v)[0].1 + enc_text(encode_utf8(u)).len() as int),
        ),
        decode_utf8(encode_utf8(u)) == u,
{
    let b = spec_encode(v);
    lemma_sections_facts(v);
    let offs = spec_frame_offsets(v);
    lemma_section_at(v, 0);
    let pblob = enc_text(encode_utf8(u));
    assert(spec_sections(v)[0].1 == pblob);
    assert(b.subrange(offs[0].1, offs[0].1 + offs[0].2) == pblob);
    assert(offs[0].2 == pblob.len());
    encode_utf8_valid_utf8(u);
    encode_utf8_decode_utf8(u);
    assert forall|t: int| 0 <= t < pblob.len() implies b.subrange(
        offs[0].1,
        offs[0].1 + pblob.len() as int,
    )[t] == pblob[t] by {}
    lemma_read_text_at(b, offs[0].1, offs[0].1 + offs[0].2, encode_utf8(u));
}

/// One walk step over the index section.
proof fn lemma_step_index(
    b: Seq<u8>,
    off: int,
    ln: int,
    entries: Seq<IndexEntry>,
    primary: Option<Seq<char>>,
    ents: Seq<IndexEntry>,
)
    requires
        spec_parse_index(b, off, off + ln) == Ok::<Seq<IndexEntry>, Error>(ents),
    ensures
        spec_section_step(b, name_index(), off, ln, entries, primary) == Ok::<
            (Seq<IndexEntry>, Option<Seq<char>>),
            Error,
        >((ents, primary)),
{
}

/// One walk step over the primary section.
proof fn lemma_step_primary(
    b: Seq<u8>,
    off: int,
    ln: int,
    entries: Seq<IndexEntry>,
    primary: Option<Seq<char>>,
    ub: Seq<u8>,
    p: int,
)
    requires
        spec_read_text(b, off, off + ln) == Some((ub, p)),
    ensures
        spec_section_step(b, name_primary(), off, ln, entries, primary) == Ok::<
            (Seq<IndexEntry>, Option<Seq<char>>),
            Error,
        >((entries, Some(decode_utf8(ub)))),
{
    assert(name_primary() != name_index());
}

/// One walk step over the responses section, which is skipped here.
proof fn lemma_step_responses(
    b: Seq<u8>,
    off: int,
    ln: int,
    entries: Seq<IndexEntry>,
    primary: Option<Seq<char>>,
)
    ensures
        spec_section_step(b, name_responses(), off, ln, entries, primary) == Ok::<
            (Seq<IndexEntry>, Option<Seq<char>>),
            Error,
        >((entries, primary)),
{
    assert(name_responses() != name_index());
    assert(name_responses() != name_primary());
    assert(name_responses() != name_critical());
}

/// Walking a two-section list (index, responses) over any buffer.
proof fn lemma_walk_two(b: Seq<u8>, offs: Seq<(Seq<u8>, int, int)>, ents: Seq<IndexEntry>)
    requires
        offs.len() == 2,
        offs[0].0 == name_index(),
        offs[1].0 == name_responses(),
        spec_parse_index(b, offs[0].1, offs[0].1 + offs[0].2) == Ok::<Seq<IndexEntry>, Error>(
            ents,
        ),
    ensures
        spec_parse_sections(b, offs, 0, Seq::empty(), None) == Ok::<
            (Seq<IndexEntry>, Option<Seq<char>>),
            Error,
        >((ents, None)),
{
    lemma_step_index(b, offs[0].1, offs[0].2, Seq::empty(), None, ents);
    lemma_step_responses(b, offs[1].1, offs[1].2, ents, None);
    let okr = Ok::<(Seq<IndexEntry>, Option<Seq<char>>), Error>((ents, None));
    assert(spec_parse_sections(b, offs, 2, ents, None) == okr);
    assert(spec_parse_sections(b, offs, 1, ents, None) == okr);
    assert(spec_parse_sections(b, offs, 0, Seq::empty(), None) == okr);
}

/// Walking a three-section list (primary, index, responses) over any
/// buffer.
proof fn lemma_walk_three(
    b: Seq<u8>,
    offs: Seq<(Seq<u8>, int, int)>,
    ents: Seq<IndexEntry>,
    u: Seq<char>,
    ub: Seq<u8>,
    p: int,
)
    requires
        offs.len() == 3,
        offs[0].0 == name_primary(),
        offs[1].0 == name_index(),
        offs[2].0 == name_responses(),
        spec_read_text(b, offs[0].1, offs[0].1 + offs[0].2) == Some((ub, p)),
        decode_utf8(ub) == u,
        spec_parse_index(b, offs[1].1, offs[1].1 + offs[1].2) == Ok::<Seq<IndexEntry>, Error>(
            ents,
        ),
    ensures
        spec_parse_sections(b, offs, 0, Seq::empty(), None) == Ok::<
            (Seq<IndexEntry>, Option<Seq<char>>),
            Error,
        >((ents, Some(u))),
{
    lemma_step_primary(b, offs[0].1, offs[0].2, Seq::empty(), None, ub, p);
    lemma_step_index(b, offs[1].1, offs[1].2, Seq::empty(), Some(u), ents);
    lemma_step_responses(b, offs[2].1, offs[2].2, ents, Some(u));
    let okr = Ok::<(Seq<IndexEntry>, Option<Seq<char>>), Error>((ents, Some(u)));
    assert(spec_parse_sections(b, offs, 3, ents, Some(u)) == okr);
    assert(spec_parse_sections(b, offs, 2, ents, Some(u)) == okr);
    assert(spec_parse_sections(b, offs, 1, Seq::empty(), Some(u)) == okr);
    assert(spec_parse_sections(b, offs, 0, Seq::empty(), None) == okr);
}

/// Walking the sections of an encoded bundle yields the expected entries
/// and the primary URL.
#[verifier::rlimit(100)]
#[verifier::spinoff_prover]
proof fn lemma_parse_sections_of(v: BundleView)
    requires
        bundle_wf(v),
        bundle_small(v),
        pairs_strictly_sorted(spec_index_pairs(v.exchanges)),
        spec_encode_body(v).len() + 8 < 0x10000000000000000,
    ensures
        spec_parse_sections(spec_encode(v), spec_frame_offsets(v), 0, Seq::empty(), None) == Ok::<
            (Seq<IndexEntry>, Option<Seq<char>>),
            Error,
        >((spec_expected_entries(v.exchanges), v.primary_url)),
{
    let b = spec_encode(v);
    let n = spec_sections(v).len() as int;
    let offs = spec_frame_offsets(v);
    lemma_sections_facts(v);
    lemma_parse_index_of(v);
    let ents = spec_expected_entries(v.exchanges);
    match v.primary_url {
        Some(u) => {
            assert(offs.len() == 3);
            assert(offs[0].0 == name_primary());
            assert(offs[1].0 == name_index());
            assert(offs[2].0 == name_responses());
            assert(offs[1].1 == spec_frame_offsets(v)[n - 2].1 && offs[1].2
                == spec_frame_offsets(v)[n - 2].2);
            lemma_parse_primary_of(v, u);
            lemma_walk_three(
                b,
                offs,
                ents,
                u,
                encode_utf8(u),
                offs[0].1 + enc_text(encode_utf8(u)).len() as int,
            );
        },
        None => {
            assert(offs.len() == 2);
            assert(offs[0].0 == name_index());
            assert(offs[1].0 == name_responses());
            assert(offs[0].1 == spec_frame_offsets(v)[n - 2].1 && offs[0].2
                == spec_frame_offsets(v)[n - 2].2);
            lemma_walk_two(b, offs, ents);
        },
    }
}

/// Reading one indexed response yields the scrubbed exchange.
#[verifier::rlimit(100)]
#[verifier::spinoff_prover]
proof fn lemma_parse_one_exchange_of(v: BundleView, j: int)
    requires
        bundle_wf(v),
        bundle_small(v),
        spec_encode_body(v).len() + 8 < 0x10000000000000000,
        0 <= j < v.exchanges.len(),
    ensures
        ({
            let n = spec_sections(v).len() as int;
            let roff = spec_frame_offsets(v)[n - 1].1;
            let rlen = spec_frame_offsets(v)[n - 1].2;
            spec_exchange_step(
                spec_encode(v),
                spec_expected_entries(v.exchanges)[j],
                roff,
                rlen,
            ) == Ok::<ExchangeView, Error>(scrub_exchanges(v.exchanges)[j])
        }),
{
    let b = spec_encode(v);
    let exchs = v.exchanges;
    let secs = spec_sections(v);
    let n = secs.len() as int;
    lemma_sections_facts(v);
    let roff = spec_frame_offsets(v)[n - 1].1;
    let rlen = spec_frame_offsets(v)[n - 1].2;
    let ents = spec_expected_entries(exchs);
    let sc = scrub_exchanges(exchs);
    let e = ents[j];
    lemma_entry_bounds(exchs, j);
    lemma_section_at(v, n - 1);
    let rsec = spec_responses_section(exchs);
    assert(b.subrange(roff, roff + rlen) == rsec);
    assert(rlen == rsec.len());
    assert(e.off + e.len <= rlen);
    lemma_offset_correctness(exchs, j);
    let entry = spec_resp_entry(exchs[j]);
    let start = roff + e.off;
    assert(b.subrange(start, start + entry.len() as int) =~= entry) by {
        assert forall|t: int| 0 <= t < entry.len() implies b.subrange(
            start,
            start + entry.len() as int,
        )[t] == entry[t] by {
            assert(b.subrange(roff, roff + rlen)[e.off + t] == b[roff + (e.off + t)]);
            assert(rsec.subrange(e.off, e.off + entry.len() as int)[t] == rsec[e.off + t]);
        }
    }
    assert(resp_small(exchs[j].response));
    lemma_parse_response_of(b, start, exchs[j]);
    assert(sc[j] == ExchangeView {
        request: RequestView { url: e.url, headers: Seq::empty() },
        response: exchs[j].response,
    });
}

/// Reading the remaining indexed responses yields the remaining scrubbed
/// exchanges.
#[verifier::rlimit(100)]
#[verifier::spinoff_prover]
proof fn lemma_parse_exchanges_of(v: BundleView, j: int, acc: Seq<ExchangeView>)
    requires
        bundle_wf(v),
        bundle_small(v),
        spec_encode_body(v).len() + 8 < 0x10000000000000000,
        0 <= j <= v.exchanges.len(),
    ensures
        ({
            let n = spec_sections(v).len() as int;
            let roff = spec_frame_offsets(v)[n - 1].1;
            let rlen = spec_frame_offsets(v)[n - 1].2;
            spec_parse_exchanges(
                spec_encode(v),
                spec_expected_entries(v.exchanges),
                j,
                roff,
                rlen,
                acc,
            ) == Ok::<Seq<ExchangeView>, Error>(
                acc + scrub_exchanges(v.exchanges).subrange(j, v.exchanges.len() as int),
            )
        }),
    decreases v.exchanges.len() - j,
{
    let m = v.exchanges.len() as int;
    let sc = scrub_exchanges(v.exchanges);
    if j == m {
        assert(sc.subrange(m, m) =~= Seq::<ExchangeView>::empty());
        assert(acc + sc.subrange(m, m) =~= acc);
    } else {
        lemma_parse_one_exchange_of(v, j);
        lemma_parse_exchanges_of(v, j + 1, acc.push(sc[j]));
        assert(acc + sc.subrange(j, m) =~= acc.push(sc[j]) + sc.subrange(j + 1, m));
    }
}

/// Round trip: a well-formed bundle whose exchanges stand in canonical
/// index order encodes successfully, and decoding those bytes returns the
/// bundle exactly, with request headers dropped (only the URL is persisted
/// on the wire).  The size bound is the machine limit of the 64-bit
/// trailing length field.
pub proof fn lemma_parse_encode_roundtrip(v: BundleView)
    requires
        bundle_wf(v),
        bundle_small(v),
        pairs_strictly_sorted(spec_index_pairs(v.exchanges)),
        spec_encode_body(v).len() + 8 < 0x10000000000000000,
    ensures
        index_no_dup(v),
        spec_encode_res(v) == Ok::<Seq<u8>, Error>(spec_encode(v)),
        spec_parse(spec_encode(v)) == Ok::<BundleView, Error>(scrub_request_headers(v)),
{
    let b = spec_encode(v);
    let exchs = v.exchanges;
    let secs = spec_sections(v);
    let n = secs.len() as int;
    lemma_sort_pairs_of_sorted(spec_index_pairs(exchs));
    assert(index_no_dup(v)) by {
        let si = spec_index_sorted(exchs);
        assert forall|i: int| 0 <= i < si.len() - 1 implies (#[trigger] si[i]).0 != si[i + 1].0 by {
            assert(key_lt(si[i].0, si[i + 1].0));
            lemma_key_lt_asym(si[i].0, si[i + 1].0);
        }
    }
    lemma_parse_frame_of(v);
    lemma_parse_sections_of(v);
    lemma_sections_facts(v);
    let offs = spec_frame_offsets(v);
    assert(offs.last() == offs[n - 1]);
    lemma_parse_exchanges_of(v, 0, Seq::empty());
    assert(Seq::<ExchangeView>::empty() + scrub_exchanges(exchs).subrange(
        0,
        exchs.len() as int,
    ) =~= scrub_exchanges(exchs));
    assert(spec_parse(b) == Ok::<BundleView, Error>(
        BundleView {
            version: v.version,
            primary_url: v.primary_url,
            exchanges: scrub_exchanges(exchs),
        },
    ));
}

/// The encoder reads nothing of the request headers: scrubbing them
/// changes no encoded byte.
proof fn lemma_encode_of_scrub(v: BundleView)
    ensures
        spec_resp_entries(scrub_exchanges(v.exchanges), v.exchanges.len() as int)
            == spec_resp_entries(v.exchanges, v.exchanges.len() as int),
        spec_sections(scrub_request_headers(v)) == spec_sections(v),
        spec_encode_body(scrub_request_headers(v)) == spec_encode_body(v),
        spec_encode(scrub_request_headers(v)) == spec_encode(v),
        spec_index_pairs(scrub_exchanges(v.exchanges)) == spec_index_pairs(v.exchanges),
        bundle_wf(v) ==> bundle_wf(scrub_request_headers(v)),
        bundle_small(v) ==> bundle_small(scrub_request_headers(v)),
{
    let exchs = v.exchanges;
    let sc = scrub_exchanges(exchs);
    let w = scrub_request_headers(v);
    assert forall|k: int| 0 <= k <= exchs.len() implies spec_resp_entries(sc, k)
        == spec_resp_entries(exchs, k) by {
        lemma_resp_entries_congruent(exchs, k);
    }
    assert(spec_resp_entries(sc, exchs.len() as int) == spec_resp_entries(
        exchs,
        exchs.len() as int,
    ));
    assert(spec_responses_section(sc) == spec_responses_section(exchs));
    assert(spec_index_pairs(sc) =~= spec_index_pairs(exchs)) by {
        assert forall|t: int| 0 <= t < exchs.len() implies spec_index_pairs(sc)[t]
            == spec_index_pairs(exchs)[t] by {
            lemma_resp_entries_congruent(exchs, t);
            assert(sc[t].request.url == exchs[t].request.url);
            assert(sc[t].response == exchs[t].response);
        }
    }
    assert(spec_index_section(sc) == spec_index_section(exchs));
    assert(spec_sections(w) =~= spec_sections(v));
    assert(spec_encode_body(w) == spec_encode_body(v));
    if bundle_wf(v) {
        assert forall|i: int| 0 <= i < w.exchanges.len() implies resp_wf(
            (#[trigger] w.exchanges[i]).response,
        ) by {
            assert(w.exchanges[i].response == exchs[i].response);
        }
    }
    if bundle_small(v) {
        assert forall|i: int| 0 <= i < w.exchanges.len() implies resp_small(
            (#[trigger] w.exchanges[i]).response,
        ) by {
            assert(w.exchanges[i].response == exchs[i].response);
        }
        assert forall|i: int| 0 <= i < w.exchanges.len() implies encode_utf8(
            (#[trigger] w.exchanges[i]).request.url,
        ).len() < 0x1000000000000000 by {
            assert(w.exchanges[i].request.url == exchs[i].request.url);
        }
    }
}

/// The response entries of scrubbed exchanges equal the original ones.
proof fn lemma_resp_entries_congruent(exchs: Seq<ExchangeView>, k: int)
    requires
        0 <= k <= exchs.len(),
    ensures
        spec_resp_entries(scrub_exchanges(exchs), k) == spec_resp_entries(exchs, k),
        k < exchs.len() ==> spec_offset(scrub_exchanges(exchs), k) == spec_offset(exchs, k),
    decreases k,
{
    let sc = scrub_exchanges(exchs);
    if k > 0 {
        lemma_resp_entries_congruent(exchs, k - 1);
        assert(sc[k - 1].response == exchs[k - 1].response);
        assert(spec_resp_entry(sc[k - 1]) == spec_resp_entry(exchs[k - 1]));
    }
}

/// Canonical stability: decoding an encoded bundle and encoding the result
/// reproduces the original bytes exactly.
pub proof fn lemma_canonical_stability(v: BundleView)
    requires
        bundle_wf(v),
        bundle_small(v),
        pairs_strictly_sorted(spec_index_pairs(v.exchanges)),
        spec_encode_body(v).len() + 8 < 0x10000000000000000,
    ensures
        spec_parse(spec_encode(v)) == Ok::<BundleView, Error>(scrub_request_headers(v)),
        spec_encode_res(scrub_request_headers(v)) == Ok::<Seq<u8>, Error>(spec_encode(v)),
{
    lemma_parse_encode_roundtrip(v);
    lemma_encode_of_scrub(v);
    let w = scrub_request_headers(v);
    lemma_parse_encode_roundtrip(w);
}

/// The encoder only emits maps in canonical key order: each response's
/// header map is strictly sorted, and the index map is sorted.
pub proof fn lemma_encoder_emits_canonical_maps(v: BundleView)
    requires
        bundle_wf(v),
    ensures
        forall|i: int|
            0 <= i < v.exchanges.len() ==> pairs_strictly_sorted(
                spec_headers_pairs((#[trigger] v.exchanges[i]).response),
            ),
        forall|i: int, j: int|
            0 <= i < j < spec_index_sorted(v.exchanges).len() ==> !key_lt(
                spec_index_sorted(v.exchanges)[j].0,
                spec_index_sorted(v.exchanges)[i].0,
            ),
{
    assert forall|i: int| 0 <= i < v.exchanges.len() implies pairs_strictly_sorted(
        spec_headers_pairs((#[trigger] v.exchanges[i]).response),
    ) by {
        lemma_headers_pairs_strict(v.exchanges[i].response);
    }
    crate::canon::lemma_sort_pairs_keeps_order(spec_index_pairs(v.exchanges));
}


/// A header read that succeeds on a prefix agrees with the read on the
/// whole buffer.
#[verifier::rlimit(100)]
proof fn lemma_read_header_prefix(b: Seq<u8>, p: Seq<u8>, pos: int)
    requires
        p.len() <= b.len(),
        p == b.subrange(0, p.len() as int),
        0 <= pos,
    ensures
        spec_read_header(p, pos, p.len() as int) is Some ==> spec_read_header(
            p,
            pos,
            p.len() as int,
        ) == spec_read_header(b, pos, b.len() as int),
{
    let plen = p.len() as int;
    assert forall|i: int| 0 <= i < plen implies p[i] == b[i] by {
        assert(b.subrange(0, plen)[i] == b[i]);
    }
}

/// A byte-string read that succeeds on a prefix agrees with the read on
/// the whole buffer.
#[verifier::rlimit(100)]
proof fn lemma_read_bytes_prefix(b: Seq<u8>, p: Seq<u8>, pos: int)
    requires
        p.len() <= b.len(),
        p == b.subrange(0, p.len() as int),
        0 <= pos,
    ensures
        spec_read_bytes(p, pos, p.len() as int) is Some ==> spec_read_bytes(
            p,
            pos,
            p.len() as int,
        ) == spec_read_bytes(b, pos, b.len() as int),
{
    let plen = p.len() as int;
    lemma_read_header_prefix(b, p, pos);
    if spec_read_bytes(p, pos, plen) is Some {
        let (_major, value, next) = spec_read_header(p, pos, plen).unwrap();
        assert(p.subrange(next, next + value) =~= b.subrange(next, next + value)) by {
            assert forall|i: int| 0 <= i < value implies #[trigger] p.subrange(
                next,
                next + value,
            )[i] == b.subrange(next, next + value)[i] by {
                assert(p[next + i] == b.subrange(0, plen)[next + i]);
            }
        }
    }
}

/// An array-header read that succeeds on a prefix agrees with the read on
/// the whole buffer.
proof fn lemma_read_array_header_prefix(b: Seq<u8>, p: Seq<u8>, pos: int)
    requires
        p.len() <= b.len(),
        p == b.subrange(0, p.len() as int),
        0 <= pos,
    ensures
        spec_read_array_header(p, pos, p.len() as int) is Some ==> spec_read_array_header(
            p,
            pos,
            p.len() as int,
        ) == spec_read_array_header(b, pos, b.len() as int),
{
    lemma_read_header_prefix(b, p, pos);
}

/// Offset computation that succeeds against a shorter buffer end succeeds
/// identically against a longer one.
proof fn lemma_sec_offsets_prefix(
    pairs: Seq<(Seq<u8>, int)>,
    plen: int,
    blen: int,
    i: int,
    acc: Seq<(Seq<u8>, int, int)>,
    cur: int,
)
    requires
        plen <= blen,
        0 <= i <= pairs.len(),
    ensures
        spec_sec_offsets(pairs, plen, i, acc, cur) is Ok ==> spec_sec_offsets(
            pairs,
            blen,
            i,
            acc,
            cur,
        ) == spec_sec_offsets(pairs, plen, i, acc, cur),
    decreases pairs.len() - i,
{
    if i < pairs.len() {
        let ln = pairs[i].1;
        if !(ln > plen - cur) {
            lemma_sec_offsets_prefix(
                pairs,
                plen,
                blen,
                i + 1,
                acc.push((pairs[i].0, cur, ln)),
                cur + ln,
            );
        }
    }
}

/// The core of truncation safety, over an abstract buffer: where the
/// whole buffer's frame parses with its sections ending 8 bytes before
/// its end, every strict prefix fails to parse.
#[verifier::rlimit(100)]
#[verifier::spinoff_prover]
proof fn lemma_truncated_parse_err(
    b: Seq<u8>,
    p: Seq<u8>,
    vb: Seq<u8>,
    slb: Seq<u8>,
    pairs: Seq<(Seq<u8>, int)>,
    nsec: int,
    q2: int,
    q3: int,
    q4: int,
    q5: int,
    offs: Seq<(Seq<u8>, int, int)>,
)
    requires
        p.len() < b.len(),
        p == b.subrange(0, p.len() as int),
        spec_read_array_header(b, 0, b.len() as int) == Some((5int, 1int)),
        spec_read_bytes(b, 1, b.len() as int) == Some((spec_magic(), q2)),
        spec_read_bytes(b, q2, b.len() as int) == Some((vb, q3)),
        vb.len() == 4,
        spec_read_bytes(b, q3, b.len() as int) == Some((slb, q4)),
        slb.len() < 8192,
        spec_read_array_header(slb, 0, slb.len() as int) == Some((2 * nsec, 1int)),
        0 <= nsec,
        spec_parse_sec_pairs(slb, 1, nsec, Seq::empty()) == Ok::<Seq<(Seq<u8>, int)>, Error>(
            pairs,
        ),
        pairs.len() == nsec,
        nsec > 0,
        pairs.last().0 == name_responses(),
        spec_read_array_header(b, q4, b.len() as int) == Some((nsec, q5)),
        spec_sec_offsets(pairs, b.len() as int, 0, Seq::empty(), q5) == Ok::<
            (Seq<(Seq<u8>, int, int)>, int),
            Error,
        >((offs, b.len() as int - 8)),
    ensures
        spec_parse(p) is Err,
{
    let plen = p.len() as int;
    let blen = b.len() as int;
    lemma_read_array_header_prefix(b, p, 0);
    if spec_read_array_header(p, 0, plen) is None {
        return;
    }
    lemma_read_bytes_prefix(b, p, 1);
    if spec_read_bytes(p, 1, plen) is None {
        return;
    }
    lemma_read_bytes_prefix(b, p, q2);
    if spec_read_bytes(p, q2, plen) is None {
        return;
    }
    lemma_read_bytes_prefix(b, p, q3);
    if spec_read_bytes(p, q3, plen) is None {
        return;
    }
    assert((2 * nsec) / 2 == nsec) by (nonlinear_arith)
        requires
            0 <= nsec,
    ;
    assert(spec_parse_meta(p) == Ok::<(Seq<u8>, Seq<(Seq<u8>, int)>, int), Error>(
        (vb, pairs, q4),
    ));
    lemma_read_array_header_prefix(b, p, q4);
    if spec_read_array_header(p, q4, plen) is None {
        return;
    }
    lemma_sec_offsets_prefix(pairs, plen, blen, 0, Seq::empty(), q5);
    if spec_sec_offsets(pairs, plen, 0, Seq::empty(), q5) is Err {
        return;
    }
    assert(spec_sec_offsets(pairs, blen, 0, Seq::empty(), q5) == spec_sec_offsets(
        pairs,
        plen,
        0,
        Seq::empty(),
        q5,
    ));
    assert(plen - (blen - 8) < 8);
}

/// Truncation safety: parsing any strict prefix of an encoded bundle
/// returns an error (and, being verified, the decoder neither panics nor
/// reads out of bounds on any input whatever).
pub proof fn lemma_truncation_safety(v: BundleView, p: Seq<u8>)
    requires
        bundle_wf(v),
        bundle_small(v),
        pairs_strictly_sorted(spec_index_pairs(v.exchanges)),
        spec_encode_body(v).len() + 8 < 0x10000000000000000,
        p.len() < spec_encode(v).len(),
        p == spec_encode(v).subrange(0, p.len() as int),
    ensures
        spec_parse(p) is Err,
{
    let b = spec_encode(v);
    let secs = spec_sections(v);
    let slb = spec_section_lengths_blob(secs);
    lemma_parse_meta_of(v);
    lemma_parse_frame_of(v);
    lemma_sections_facts(v);
    let q2 = 1 + enc_bytes(spec_magic()).len() as int;
    let q3 = q2 + enc_bytes(v.version).len() as int;
    lemma_truncated_parse_err(
        b,
        p,
        v.version,
        slb,
        spec_sec_len_pairs(secs),
        secs.len() as int,
        q2,
        q3,
        spec_meta_end(v),
        spec_sections_payload_pos(v),
        spec_frame_offsets(v),
    );
}

} // verus!






