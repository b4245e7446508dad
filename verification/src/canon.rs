//! Canonical CBOR map-key ordering.
//!
//! Canonical CBOR (RFC 7049 section 3.9) sorts map keys by their serialized
//! bytes.  All keys of one map here share one major type and the serialized
//! length prefix of CBOR is order-preserving, so for raw key bytes that
//! order is the shortlex order: shorter keys first, equal lengths bytewise.
//! This module defines that order, proves it total, and provides a verified
//! insertion sort for key/value pairs held as raw bytes.

use vstd::prelude::*;

verus! {

/// Strict lexicographic order on byte sequences of equal length (also
/// defined, but not used, on unequal lengths: a proper prefix sorts first).
pub open spec fn lex_lt(a: Seq<u8>, b: Seq<u8>) -> bool
    decreases a.len(),
{
    if b.len() == 0 {
        false
    } else if a.len() == 0 {
        true
    } else if a[0] < b[0] {
        true
    } else if a[0] > b[0] {
        false
    } else {
        lex_lt(a.subrange(1, a.len() as int), b.subrange(1, b.len() as int))
    }
}

/// The canonical map-key order: shorter serialized keys sort first, keys of
/// one length sort bytewise.
pub open spec fn key_lt(a: Seq<u8>, b: Seq<u8>) -> bool {
    a.len() < b.len() || (a.len() == b.len() && lex_lt(a, b))
}

/// For equal-length sequences with a common prefix of length `i`, the order
/// is decided by the remainders.
proof fn lemma_lex_lt_skip(a: Seq<u8>, b: Seq<u8>, i: int)
    requires
        a.len() == b.len(),
        0 <= i <= a.len(),
        forall|j: int| 0 <= j < i ==> a[j] == b[j],
    ensures
        lex_lt(a, b) == lex_lt(a.subrange(i, a.len() as int), b.subrange(i, b.len() as int)),
    decreases i,
{
    if i == 0 {
        assert(a.subrange(0, a.len() as int) =~= a);
        assert(b.subrange(0, b.len() as int) =~= b);
    } else {
        let at = a.subrange(1, a.len() as int);
        let bt = b.subrange(1, b.len() as int);
        assert(a[0] == b[0]);
        assert(forall|j: int| 0 <= j < i - 1 ==> at[j] == bt[j]);
        lemma_lex_lt_skip(at, bt, i - 1);
        assert(at.subrange(i - 1, at.len() as int) =~= a.subrange(i, a.len() as int));
        assert(bt.subrange(i - 1, bt.len() as int) =~= b.subrange(i, b.len() as int));
    }
}

/// Equal-length sequences are ordered one way, the other way, or equal.
proof fn lemma_lex_lt_connex(a: Seq<u8>, b: Seq<u8>)
    requires
        a.len() == b.len(),
    ensures
        lex_lt(a, b) || lex_lt(b, a) || a == b,
    decreases a.len(),
{
    if a.len() == 0 {
        assert(a =~= b);
    } else if a[0] == b[0] {
        let at = a.subrange(1, a.len() as int);
        let bt = b.subrange(1, b.len() as int);
        lemma_lex_lt_connex(at, bt);
        if !lex_lt(a, b) && !lex_lt(b, a) {
            assert(at =~= bt);
            assert forall|i: int| 0 <= i < a.len() implies a[i] == b[i] by {
                if i > 0 {
                    assert(at[i - 1] == a[i]);
                    assert(bt[i - 1] == b[i]);
                }
            }
            assert(a =~= b);
        }
    }
}

/// Equal-length sequences are never ordered both ways.
proof fn lemma_lex_lt_asym(a: Seq<u8>, b: Seq<u8>)
    requires
        a.len() == b.len(),
    ensures
        !(lex_lt(a, b) && lex_lt(b, a)),
    decreases a.len(),
{
    if a.len() > 0 && a[0] == b[0] {
        lemma_lex_lt_asym(a.subrange(1, a.len() as int), b.subrange(1, b.len() as int));
    }
}

/// The lexicographic order is transitive on equal-length sequences.
proof fn lemma_lex_lt_trans(a: Seq<u8>, b: Seq<u8>, c: Seq<u8>)
    requires
        a.len() == b.len() == c.len(),
        lex_lt(a, b),
        lex_lt(b, c),
    ensures
        lex_lt(a, c),
    decreases a.len(),
{
    if a.len() > 0 && a[0] == b[0] && b[0] == c[0] {
        lemma_lex_lt_trans(
            a.subrange(1, a.len() as int),
            b.subrange(1, b.len() as int),
            c.subrange(1, c.len() as int),
        );
    }
}

/// The key order is connex: two keys are ordered or equal.
pub proof fn lemma_key_lt_connex(a: Seq<u8>, b: Seq<u8>)
    ensures
        key_lt(a, b) || key_lt(b, a) || a == b,
{
    if a.len() == b.len() {
        lemma_lex_lt_connex(a, b);
    }
}

/// The key order is asymmetric.
pub proof fn lemma_key_lt_asym(a: Seq<u8>, b: Seq<u8>)
    ensures
        !(key_lt(a, b) && key_lt(b, a)),
{
    if a.len() == b.len() {
        lemma_lex_lt_asym(a, b);
    }
}

/// The key order is transitive.
pub proof fn lemma_key_lt_trans(a: Seq<u8>, b: Seq<u8>, c: Seq<u8>)
    requires
        key_lt(a, b),
        key_lt(b, c),
    ensures
        key_lt(a, c),
{
    if a.len() == b.len() && b.len() == c.len() {
        lemma_lex_lt_trans(a, b, c);
    }
}

/// Decides the canonical key order on two byte slices.
pub fn key_lt_exec(a: &[u8], b: &[u8]) -> (r: bool)
    ensures
        r == key_lt(a@, b@),
{
    if a.len() != b.len() {
        return a.len() < b.len();
    }
    let n = a.len();
    let mut i: usize = 0;
    while i < n
        invariant
            i <= n,
            n == a@.len() == b@.len(),
            forall|j: int| 0 <= j < i ==> a@[j] == b@[j],
        decreases n - i,
    {
        if a[i] < b[i] {
            proof {
                lemma_lex_lt_skip(a@, b@, i as int);
            }
            return true;
        }
        if a[i] > b[i] {
            proof {
                lemma_lex_lt_skip(a@, b@, i as int);
            }
            return false;
        }
        i += 1;
    }
    proof {
        lemma_lex_lt_skip(a@, b@, n as int);
    }
    false
}

/// Whether two byte slices hold the same bytes.
pub fn bytes_eq(a: &[u8], b: &[u8]) -> (r: bool)
    ensures
        r == (a@ == b@),
{
    if a.len() != b.len() {
        return false;
    }
    let n = a.len();
    let mut i: usize = 0;
    while i < n
        invariant
            i <= n,
            n == a@.len() == b@.len(),
            forall|j: int| 0 <= j < i ==> a@[j] == b@[j],
        decreases n - i,
    {
        if a[i] != b[i] {
            return false;
        }
        i += 1;
    }
    assert(a@ =~= b@);
    true
}

/// A key/value pair of raw bytes, as held by executable code.
pub type BytesPair = (Vec<u8>, Vec<u8>);

/// A key/value pair sequence at the specification level.
pub type PairSeq = Seq<(Seq<u8>, Seq<u8>)>;

/// The view of a pair vector's contents: each side taken to its bytes.
pub open spec fn pairs_view(h: Seq<BytesPair>) -> PairSeq {
    Seq::new(h.len(), |i: int| (h[i].0@, h[i].1@))
}

/// Inserts `x` into `s` just before the first element whose key is greater,
/// so repeated insertion yields the canonical sort.
pub open spec fn spec_insert_sorted(x: (Seq<u8>, Seq<u8>), s: PairSeq) -> PairSeq
    decreases s.len(),
{
    if s.len() == 0 {
        seq![x]
    } else if key_lt(x.0, s[0].0) {
        seq![x] + s
    } else {
        seq![s[0]] + spec_insert_sorted(x, s.subrange(1, s.len() as int))
    }
}

/// The canonical sort of a pair sequence: stable insertion sort by key.
pub open spec fn spec_sort_pairs(s: PairSeq) -> PairSeq
    decreases s.len(),
{
    if s.len() == 0 {
        s
    } else {
        spec_insert_sorted(s.last(), spec_sort_pairs(s.drop_last()))
    }
}

/// The keys of `s` are strictly increasing in the canonical order.
pub open spec fn pairs_strictly_sorted(s: PairSeq) -> bool {
    forall|i: int, j: int| 0 <= i < j < s.len() ==> key_lt(s[i].0, s[j].0)
}

/// Some element of `s` carries the key `k`.
pub open spec fn has_key(s: PairSeq, k: Seq<u8>) -> bool {
    exists|i: int| 0 <= i < s.len() && s[i].0 == k
}

/// The keys of `s` are pairwise distinct.
pub open spec fn keys_distinct(s: PairSeq) -> bool {
    forall|i: int, j: int| 0 <= i < j < s.len() ==> s[i].0 != s[j].0
}

/// Where the first `j` keys are not greater than `x`'s and the `j`-th is,
/// insertion places `x` exactly at position `j`.
proof fn lemma_insert_sorted_at(x: (Seq<u8>, Seq<u8>), s: PairSeq, j: int)
    requires
        0 <= j <= s.len(),
        forall|k: int| 0 <= k < j ==> !key_lt(x.0, s[k].0),
        j < s.len() ==> key_lt(x.0, s[j].0),
    ensures
        spec_insert_sorted(x, s) == s.subrange(0, j) + seq![x] + s.subrange(j, s.len() as int),
    decreases s.len(),
{
    if s.len() == 0 {
        assert(spec_insert_sorted(x, s) =~= s.subrange(0, j) + seq![x] + s.subrange(
            j,
            s.len() as int,
        ));
    } else if key_lt(x.0, s[0].0) {
        assert(j == 0);
        assert(seq![x] + s =~= s.subrange(0, 0) + seq![x] + s.subrange(0, s.len() as int));
    } else {
        assert(j >= 1);
        let st = s.subrange(1, s.len() as int);
        assert(forall|k: int| 0 <= k < j - 1 ==> st[k] == s[k + 1]);
        lemma_insert_sorted_at(x, st, j - 1);
        assert(st.subrange(0, j - 1) =~= s.subrange(1, j));
        assert(st.subrange(j - 1, st.len() as int) =~= s.subrange(j, s.len() as int));
        assert(seq![s[0]] + (s.subrange(1, j) + seq![x] + s.subrange(j, s.len() as int)) =~= s
            .subrange(0, j) + seq![x] + s.subrange(j, s.len() as int));
    }
}

/// Inserting a key not already present keeps the keys strictly sorted and
/// only adds that key.
pub proof fn lemma_insert_sorted_strict(x: (Seq<u8>, Seq<u8>), s: PairSeq)
    requires
        pairs_strictly_sorted(s),
        !has_key(s, x.0),
    ensures
        pairs_strictly_sorted(spec_insert_sorted(x, s)),
        forall|k: Seq<u8>| has_key(spec_insert_sorted(x, s), k) <==> (has_key(s, k) || k == x.0),
        spec_insert_sorted(x, s).len() == s.len() + 1,
    decreases s.len(),
{
    let r = spec_insert_sorted(x, s);
    if s.len() == 0 {
        assert forall|k: Seq<u8>| has_key(r, k) <==> (has_key(s, k) || k == x.0) by {
            if k == x.0 {
                assert(r[0].0 == k);
            }
        }
    } else if key_lt(x.0, s[0].0) {
        assert(r =~= seq![x] + s);
        assert forall|i: int, j: int| 0 <= i < j < r.len() implies key_lt(r[i].0, r[j].0) by {
            if i == 0 {
                assert(r[0] == x);
                assert(r[j] == s[j - 1]);
                if j >= 2 {
                    assert(key_lt(s[0].0, s[j - 1].0));
                    lemma_key_lt_trans(x.0, s[0].0, s[j - 1].0);
                }
            } else {
                assert(r[i] == s[i - 1] && r[j] == s[j - 1]);
                assert(key_lt(s[i - 1].0, s[j - 1].0));
            }
        }
        assert forall|k: Seq<u8>| has_key(r, k) <==> (has_key(s, k) || k == x.0) by {
            if has_key(r, k) {
                let i = choose|i: int| 0 <= i < r.len() && r[i].0 == k;
                if i == 0 {
                } else {
                    assert(s[i - 1].0 == k);
                }
            }
            if k == x.0 {
                assert(r[0].0 == k);
            }
            if has_key(s, k) {
                let i = choose|i: int| 0 <= i < s.len() && s[i].0 == k;
                assert(r[i + 1].0 == k);
            }
        }
    } else {
        let st = s.subrange(1, s.len() as int);
        assert(forall|i: int, j: int| 0 <= i < j < st.len() ==> key_lt(st[i].0, st[j].0));
        assert(!has_key(st, x.0)) by {
            if has_key(st, x.0) {
                let i = choose|i: int| 0 <= i < st.len() && st[i].0 == x.0;
                assert(s[i + 1].0 == x.0);
            }
        }
        lemma_insert_sorted_strict(x, st);
        let rt = spec_insert_sorted(x, st);
        assert(r =~= seq![s[0]] + rt);
        assert(s[0].0 != x.0) by {
            if s[0].0 == x.0 {
                assert(has_key(s, x.0));
            }
        }
        lemma_key_lt_connex(x.0, s[0].0);
        assert(key_lt(s[0].0, x.0));
        assert forall|i: int, j: int| 0 <= i < j < r.len() implies key_lt(r[i].0, r[j].0) by {
            if i == 0 {
                assert(r[0] == s[0]);
                assert(r[j] == rt[j - 1]);
                assert(has_key(rt, rt[j - 1].0));
                if rt[j - 1].0 == x.0 {
                    assert(key_lt(s[0].0, r[j].0));
                } else {
                    assert(has_key(st, rt[j - 1].0));
                    let m = choose|m: int| 0 <= m < st.len() && st[m].0 == rt[j - 1].0;
                    assert(s[m + 1].0 == rt[j - 1].0);
                    assert(key_lt(s[0].0, s[m + 1].0));
                }
            } else {
                assert(r[i] == rt[i - 1] && r[j] == rt[j - 1]);
                assert(key_lt(rt[i - 1].0, rt[j - 1].0));
            }
        }
        assert forall|k: Seq<u8>| has_key(r, k) <==> (has_key(s, k) || k == x.0) by {
            if has_key(r, k) {
                let i = choose|i: int| 0 <= i < r.len() && r[i].0 == k;
                if i == 0 {
                    assert(s[0].0 == k);
                } else {
                    assert(rt[i - 1].0 == k);
                    assert(has_key(rt, k));
                    if k != x.0 {
                        assert(has_key(st, k));
                        let m = choose|m: int| 0 <= m < st.len() && st[m].0 == k;
                        assert(s[m + 1].0 == k);
                    }
                }
            }
            if k == x.0 {
                assert(has_key(rt, k));
                let m = choose|m: int| 0 <= m < rt.len() && rt[m].0 == k;
                assert(r[m + 1].0 == k);
            }
            if has_key(s, k) {
                let i = choose|i: int| 0 <= i < s.len() && s[i].0 == k;
                if i == 0 {
                    assert(r[0].0 == k);
                } else {
                    assert(st[i - 1].0 == k);
                    assert(has_key(st, k));
                    assert(has_key(rt, k));
                    let m = choose|m: int| 0 <= m < rt.len() && rt[m].0 == k;
                    assert(r[m + 1].0 == k);
                }
            }
        }
    }
}

/// Sorting a sequence whose keys are pairwise distinct yields strictly
/// sorted keys and keeps exactly those keys.
pub proof fn lemma_sort_pairs_strict(s: PairSeq)
    requires
        keys_distinct(s),
    ensures
        pairs_strictly_sorted(spec_sort_pairs(s)),
        forall|k: Seq<u8>| has_key(spec_sort_pairs(s), k) <==> has_key(s, k),
        spec_sort_pairs(s).len() == s.len(),
    decreases s.len(),
{
    if s.len() == 0 {
    } else {
        let sd = s.drop_last();
        let x = s.last();
        assert forall|i: int, j: int| 0 <= i < j < sd.len() implies sd[i].0 != sd[j].0 by {
            assert(sd[i] == s[i]);
            assert(sd[j] == s[j]);
        }
        lemma_sort_pairs_strict(sd);
        let rd = spec_sort_pairs(sd);
        assert(!has_key(rd, x.0)) by {
            if has_key(rd, x.0) {
                assert(has_key(sd, x.0));
                let i = choose|i: int| 0 <= i < sd.len() && sd[i].0 == x.0;
                assert(s[i].0 != s[s.len() - 1].0);
            }
        }
        lemma_insert_sorted_strict(x, rd);
        assert forall|k: Seq<u8>| has_key(spec_sort_pairs(s), k) <==> has_key(s, k) by {
            if has_key(sd, k) {
                let i = choose|i: int| 0 <= i < sd.len() && sd[i].0 == k;
                assert(s[i].0 == k);
            }
            if k == x.0 {
                assert(s[s.len() - 1].0 == k);
            }
            if has_key(s, k) {
                let i = choose|i: int| 0 <= i < s.len() && s[i].0 == k;
                if i < s.len() - 1 {
                    assert(sd[i].0 == k);
                }
            }
        }
    }
}

/// Sorting a sequence whose keys are already strictly increasing returns it
/// unchanged.
pub proof fn lemma_sort_pairs_of_sorted(s: PairSeq)
    requires
        pairs_strictly_sorted(s),
    ensures
        spec_sort_pairs(s) == s,
    decreases s.len(),
{
    if s.len() == 0 {
        assert(spec_sort_pairs(s) =~= s);
    } else {
        let sd = s.drop_last();
        let x = s.last();
        assert forall|i: int, j: int| 0 <= i < j < sd.len() implies key_lt(sd[i].0, sd[j].0) by {
            assert(sd[i] == s[i]);
            assert(sd[j] == s[j]);
        }
        lemma_sort_pairs_of_sorted(sd);
        assert forall|k: int| 0 <= k < sd.len() implies !key_lt(x.0, sd[k].0) by {
            assert(key_lt(s[k].0, s[s.len() - 1].0));
            lemma_key_lt_asym(x.0, sd[k].0);
        }
        lemma_insert_sorted_at(x, sd, sd.len() as int);
        assert(sd.subrange(0, sd.len() as int) =~= sd);
        assert(sd.subrange(sd.len() as int, sd.len() as int) =~= Seq::<(Seq<u8>, Seq<u8>)>::empty());
        assert(sd + seq![x] + Seq::<(Seq<u8>, Seq<u8>)>::empty() =~= s);
    }
}

/// Index of the first element whose key is greater than `key`, or the
/// length when there is none.
fn find_insert_pos(v: &Vec<BytesPair>, key: &[u8]) -> (j: usize)
    ensures
        j <= v@.len(),
        forall|k: int| 0 <= k < j ==> !key_lt(key@, v@[k].0@),
        j < v@.len() ==> key_lt(key@, v@[j as int].0@),
{
    let n = v.len();
    let mut j: usize = 0;
    while j < n
        invariant
            j <= n,
            n == v@.len(),
            forall|k: int| 0 <= k < j ==> !key_lt(key@, v@[k].0@),
        decreases n - j,
    {
        if key_lt_exec(key, v[j].0.as_slice()) {
            return j;
        }
        j += 1;
    }
    j
}

/// Inserts one pair into a vector at its canonical position.
pub fn insert_pair_sorted(v: &mut Vec<BytesPair>, x: BytesPair)
    ensures
        pairs_view(final(v)@) == spec_insert_sorted((x.0@, x.1@), pairs_view(old(v)@)),
{
    let ghost s = pairs_view(v@);
    let ghost xv = (x.0@, x.1@);
    let j = find_insert_pos(v, x.0.as_slice());
    proof {
        assert(forall|k: int| 0 <= k < j ==> s[k].0 == v@[k].0@);
        lemma_insert_sorted_at(xv, s, j as int);
    }
    v.insert(j, x);
    assert(pairs_view(v@) =~= s.subrange(0, j as int) + seq![xv] + s.subrange(
        j as int,
        s.len() as int,
    ));
}

/// Sorts key/value pairs into the canonical key order.
pub fn sort_pairs(v: Vec<BytesPair>) -> (r: Vec<BytesPair>)
    ensures
        pairs_view(r@) == spec_sort_pairs(pairs_view(v@)),
{
    let ghost s = pairs_view(v@);
    let n = v.len();
    let mut rest = v;
    let mut out: Vec<BytesPair> = Vec::new();
    let mut i: usize = 0;
    proof {
        assert(pairs_view(out@) =~= spec_sort_pairs(s.subrange(0, 0)));
        assert(pairs_view(rest@) =~= s.subrange(0, n as int));
    }
    while i < n
        invariant
            i <= n,
            n == s.len(),
            rest@.len() == n - i,
            pairs_view(rest@) == s.subrange(i as int, n as int),
            pairs_view(out@) == spec_sort_pairs(s.subrange(0, i as int)),
        decreases n - i,
    {
        let ghost k = i as int;
        let ghost rawrest = rest@;
        let x = rest.remove(0);
        let ghost xv = (x.0@, x.1@);
        proof {
            assert(pairs_view(rawrest)[0] == (rawrest[0].0@, rawrest[0].1@));
            assert(s.subrange(k, n as int)[0] == s[k]);
            assert(xv == s[k]);
            assert forall|j: int| 0 <= j < rest@.len() implies pairs_view(rest@)[j] == s.subrange(
                k + 1,
                n as int,
            )[j] by {
                assert(rest@[j] == rawrest[j + 1]);
                assert(pairs_view(rawrest)[j + 1] == (rawrest[j + 1].0@, rawrest[j + 1].1@));
                assert(s.subrange(k, n as int)[j + 1] == s[k + 1 + j]);
            }
            assert(pairs_view(rest@) =~= s.subrange(k + 1, n as int));
        }
        insert_pair_sorted(&mut out, x);
        proof {
            let before = s.subrange(0, k);
            let after = s.subrange(0, k + 1);
            assert(after.drop_last() =~= before);
            assert(after.last() == s[k]);
            assert(pairs_view(out@) == spec_sort_pairs(after));
        }
        i += 1;
    }
    proof {
        assert(s.subrange(0, n as int) =~= s);
    }
    out
}

/// Copies a pair vector, preserving its view.
pub fn copy_pairs(h: &Vec<BytesPair>) -> (r: Vec<BytesPair>)
    ensures
        pairs_view(r@) == pairs_view(h@),
{
    let n = h.len();
    let mut r: Vec<BytesPair> = Vec::new();
    let mut i: usize = 0;
    while i < n
        invariant
            i <= n,
            n == h@.len(),
            r@.len() == i,
            forall|j: int| 0 <= j < i ==> #[trigger] pairs_view(r@)[j] == pairs_view(h@)[j],
        decreases n - i,
    {
        let ghost oldr = r@;
        let k = vstd::slice::slice_to_vec(h[i].0.as_slice());
        let v = vstd::slice::slice_to_vec(h[i].1.as_slice());
        r.push((k, v));
        proof {
            assert forall|j: int| 0 <= j < i + 1 implies #[trigger] pairs_view(r@)[j]
                == pairs_view(h@)[j] by {
                if j < i {
                    assert(pairs_view(oldr)[j] == pairs_view(h@)[j]);
                    assert(r@[j] == oldr[j]);
                    assert(pairs_view(r@)[j] == (r@[j].0@, r@[j].1@));
                    assert(pairs_view(oldr)[j] == (oldr[j].0@, oldr[j].1@));
                } else {
                    assert(pairs_view(r@)[j] == (r@[j].0@, r@[j].1@));
                    assert(pairs_view(h@)[j] == (h@[j].0@, h@[j].1@));
                }
            }
        }
        i += 1;
    }
    proof {
        assert(pairs_view(r@) =~= pairs_view(h@));
    }
    r
}

/// Some element of `s` equals `p`.
pub open spec fn pair_in(s: PairSeq, p: (Seq<u8>, Seq<u8>)) -> bool {
    exists|j: int| 0 <= j < s.len() && s[j] == p
}

/// Keeps, for each key, its last occurrence only, preserving the order of
/// the kept elements: the replacement semantics of a header map filled in
/// wire order.
pub open spec fn dedup_keep_last(s: PairSeq) -> PairSeq
    decreases s.len(),
{
    if s.len() == 0 {
        s
    } else if has_key(s.subrange(1, s.len() as int), s[0].0) {
        dedup_keep_last(s.subrange(1, s.len() as int))
    } else {
        seq![s[0]] + dedup_keep_last(s.subrange(1, s.len() as int))
    }
}

/// Deduplication yields pairwise distinct keys, keeps exactly the keys of
/// `s`, and every kept pair occurs in `s`.
pub proof fn lemma_dedup_props(s: PairSeq)
    ensures
        keys_distinct(dedup_keep_last(s)),
        forall|k: Seq<u8>| has_key(dedup_keep_last(s), k) <==> has_key(s, k),
        forall|i: int|
            0 <= i < dedup_keep_last(s).len() ==> pair_in(s, #[trigger] dedup_keep_last(s)[i]),
    decreases s.len(),
{
    let d = dedup_keep_last(s);
    if s.len() == 0 {
    } else {
        let st = s.subrange(1, s.len() as int);
        lemma_dedup_props(st);
        let dt = dedup_keep_last(st);
        assert forall|i: int| 0 <= i < dt.len() implies pair_in(s, #[trigger] dt[i]) by {
            assert(pair_in(st, dt[i]));
            let j = choose|j: int| 0 <= j < st.len() && st[j] == dt[i];
            assert(s[j + 1] == dt[i]);
        }
        if has_key(st, s[0].0) {
            assert forall|k: Seq<u8>| has_key(d, k) implies has_key(s, k) by {
                assert(has_key(st, k));
                let j = choose|j: int| 0 <= j < st.len() && st[j].0 == k;
                assert(s[j + 1].0 == k);
            }
            assert forall|k: Seq<u8>| has_key(s, k) implies has_key(d, k) by {
                let j = choose|j: int| 0 <= j < s.len() && s[j].0 == k;
                if j == 0 {
                    assert(has_key(st, s[0].0));
                } else {
                    assert(st[j - 1].0 == k);
                    assert(has_key(st, k));
                }
            }
        } else {
            assert(d =~= seq![s[0]] + dt);
            assert forall|i: int, j: int| 0 <= i < j < d.len() implies d[i].0 != d[j].0 by {
                if i == 0 {
                    assert(d[j] == dt[j - 1]);
                    assert(has_key(dt, dt[j - 1].0));
                    assert(has_key(st, dt[j - 1].0));
                    if d[0].0 == d[j].0 {
                        assert(has_key(st, s[0].0));
                    }
                } else {
                    assert(d[i] == dt[i - 1] && d[j] == dt[j - 1]);
                }
            }
            assert forall|i: int| 0 <= i < d.len() implies pair_in(s, #[trigger] d[i]) by {
                if i == 0 {
                    assert(d[0] == s[0]);
                } else {
                    assert(d[i] == dt[i - 1]);
                    assert(pair_in(s, dt[i - 1]));
                }
            }
            assert forall|k: Seq<u8>| has_key(d, k) implies has_key(s, k) by {
                let j = choose|j: int| 0 <= j < d.len() && d[j].0 == k;
                if j == 0 {
                    assert(s[0].0 == k);
                } else {
                    assert(dt[j - 1].0 == k);
                    assert(has_key(dt, k));
                    assert(has_key(st, k));
                    let m = choose|m: int| 0 <= m < st.len() && st[m].0 == k;
                    assert(s[m + 1].0 == k);
                }
            }
            assert forall|k: Seq<u8>| has_key(s, k) implies has_key(d, k) by {
                let j = choose|j: int| 0 <= j < s.len() && s[j].0 == k;
                if j == 0 {
                    assert(d[0].0 == k);
                } else {
                    assert(st[j - 1].0 == k);
                    assert(has_key(st, k));
                    assert(has_key(dt, k));
                    let m = choose|m: int| 0 <= m < dt.len() && dt[m].0 == k;
                    assert(d[m + 1].0 == k);
                }
            }
        }
    }
}

/// Deduplication of a sequence with pairwise distinct keys is the identity.
pub proof fn lemma_dedup_of_distinct(s: PairSeq)
    requires
        keys_distinct(s),
    ensures
        dedup_keep_last(s) == s,
    decreases s.len(),
{
    if s.len() == 0 {
    } else {
        let st = s.subrange(1, s.len() as int);
        assert(!has_key(st, s[0].0)) by {
            if has_key(st, s[0].0) {
                let j = choose|j: int| 0 <= j < st.len() && st[j].0 == s[0].0;
                assert(s[j + 1].0 == s[0].0);
            }
        }
        assert(forall|i: int, j: int| 0 <= i < j < st.len() ==> st[i].0 != st[j].0);
        lemma_dedup_of_distinct(st);
        assert(seq![s[0]] + st =~= s);
    }
}

/// Removes, for each header name, all but its last occurrence.
pub fn dedup_pairs_keep_last(v: &Vec<BytesPair>) -> (r: Vec<BytesPair>)
    ensures
        pairs_view(r@) == dedup_keep_last(pairs_view(v@)),
{
    let ghost s = pairs_view(v@);
    let n = v.len();
    let mut out: Vec<BytesPair> = Vec::new();
    let mut i: usize = 0;
    proof {
        assert(s.subrange(0, n as int) =~= s);
    }
    while i < n
        invariant
            i <= n,
            n == v@.len(),
            s == pairs_view(v@),
            s.len() == n,
            dedup_keep_last(s) == pairs_view(out@) + dedup_keep_last(
                s.subrange(i as int, n as int),
            ),
        decreases n - i,
    {
        let ghost rest = s.subrange(i as int, n as int);
        proof {
            assert(rest[0] == s[i as int]);
            assert(s[i as int] == (v@[i as int].0@, v@[i as int].1@));
            assert(rest.subrange(1, rest.len() as int) =~= s.subrange(i as int + 1, n as int));
        }
        // does the name occur again later?
        let mut found = false;
        let mut j: usize = i + 1;
        while j < n
            invariant
                i < j <= n,
                i < n,
                n == v@.len(),
                s == pairs_view(v@),
                s.len() == n,
                found ==> has_key(s.subrange(i as int + 1, n as int), s[i as int].0),
                !found ==> forall|m: int| i < m < j ==> s[m].0 != s[i as int].0,
            decreases n - j,
        {
            if bytes_eq(v[j].0.as_slice(), v[i].0.as_slice()) {
                proof {
                    assert(s[j as int] == (v@[j as int].0@, v@[j as int].1@));
                    assert(s[i as int] == (v@[i as int].0@, v@[i as int].1@));
                    assert(s.subrange(i as int + 1, n as int)[j - i - 1] == s[j as int]);
                }
                found = true;
                j = n;
            } else {
                proof {
                    assert(s[j as int] == (v@[j as int].0@, v@[j as int].1@));
                    assert(s[i as int] == (v@[i as int].0@, v@[i as int].1@));
                }
                j += 1;
            }
        }
        proof {
            if !found {
                assert forall|m: int| 0 <= m < s.subrange(i as int + 1, n as int).len() implies (
                #[trigger] s.subrange(i as int + 1, n as int)[m]).0 != s[i as int].0 by {
                    assert(s.subrange(i as int + 1, n as int)[m] == s[m + i + 1]);
                }
                assert(!has_key(s.subrange(i as int + 1, n as int), s[i as int].0));
            }
        }
        if !found {
            let ghost oldout = out@;
            let k = vstd::slice::slice_to_vec(v[i].0.as_slice());
            let val = vstd::slice::slice_to_vec(v[i].1.as_slice());
            out.push((k, val));
            proof {
                assert(pairs_view(out@) =~= pairs_view(oldout) + seq![s[i as int]]);
                assert(dedup_keep_last(rest) == seq![s[i as int]] + dedup_keep_last(
                    s.subrange(i as int + 1, n as int),
                ));
                assert(pairs_view(oldout) + dedup_keep_last(rest) =~= pairs_view(out@)
                    + dedup_keep_last(s.subrange(i as int + 1, n as int)));
            }
        } else {
            proof {
                assert(dedup_keep_last(rest) == dedup_keep_last(
                    s.subrange(i as int + 1, n as int),
                ));
            }
        }
        i += 1;
    }
    proof {
        assert(s.subrange(n as int, n as int) =~= Seq::<(Seq<u8>, Seq<u8>)>::empty());
        assert(dedup_keep_last(s.subrange(n as int, n as int)).len() == 0);
        assert(dedup_keep_last(s) =~= pairs_view(out@));
    }
    out
}

/// Every element of an insertion result is the inserted pair or one of the
/// original elements, and the inserted pair is among them.
pub proof fn lemma_insert_sorted_elems(x: (Seq<u8>, Seq<u8>), s: PairSeq)
    ensures
        forall|i: int|
            0 <= i < spec_insert_sorted(x, s).len() ==> (#[trigger] spec_insert_sorted(x, s)[i])
                == x || pair_in(s, spec_insert_sorted(x, s)[i]),
        pair_in(spec_insert_sorted(x, s), x),
        spec_insert_sorted(x, s).len() == s.len() + 1,
    decreases s.len(),
{
    let r = spec_insert_sorted(x, s);
    if s.len() == 0 {
        assert(r[0] == x);
    } else if key_lt(x.0, s[0].0) {
        assert(r == seq![x] + s);
        assert(r[0] == x);
        assert forall|i: int| 0 <= i < r.len() implies r[i] == x || pair_in(s, r[i]) by {
            if i > 0 {
                assert(r[i] == s[i - 1]);
            }
        }
    } else {
        let st = s.subrange(1, s.len() as int);
        lemma_insert_sorted_elems(x, st);
        let rt = spec_insert_sorted(x, st);
        assert(r == seq![s[0]] + rt);
        assert forall|i: int| 0 <= i < r.len() implies r[i] == x || pair_in(s, r[i]) by {
            if i == 0 {
                assert(r[0] == s[0]);
                assert(pair_in(s, s[0]));
            } else {
                assert(r[i] == rt[i - 1]);
                if rt[i - 1] != x {
                    assert(pair_in(st, rt[i - 1]));
                    let t = choose|t: int| 0 <= t < st.len() && st[t] == rt[i - 1];
                    assert(s[t + 1] == rt[i - 1]);
                }
            }
        }
        assert(pair_in(rt, x));
        let m = choose|m: int| 0 <= m < rt.len() && rt[m] == x;
        assert(r[m + 1] == x);
    }
}

/// Insertion keeps keys in the non-strict canonical order.
pub proof fn lemma_insert_sorted_keeps_order(x: (Seq<u8>, Seq<u8>), s: PairSeq)
    requires
        forall|i: int, j: int| 0 <= i < j < s.len() ==> !key_lt(s[j].0, s[i].0),
    ensures
        forall|i: int, j: int|
            0 <= i < j < spec_insert_sorted(x, s).len() ==> !key_lt(
                spec_insert_sorted(x, s)[j].0,
                spec_insert_sorted(x, s)[i].0,
            ),
    decreases s.len(),
{
    let r = spec_insert_sorted(x, s);
    if s.len() == 0 {
    } else if key_lt(x.0, s[0].0) {
        assert(r == seq![x] + s);
        assert forall|i: int, j: int| 0 <= i < j < r.len() implies !key_lt(r[j].0, r[i].0) by {
            if i == 0 {
                assert(r[0] == x);
                assert(r[j] == s[j - 1]);
                if key_lt(r[j].0, x.0) {
                    if j >= 2 {
                        lemma_key_lt_trans(s[j - 1].0, x.0, s[0].0);
                        assert(key_lt(s[j - 1].0, s[0].0));
                    } else {
                        lemma_key_lt_asym(x.0, s[0].0);
                    }
                }
            } else {
                assert(r[i] == s[i - 1] && r[j] == s[j - 1]);
            }
        }
    } else {
        let st = s.subrange(1, s.len() as int);
        assert(forall|i: int, j: int| 0 <= i < j < st.len() ==> !key_lt(st[j].0, st[i].0));
        lemma_insert_sorted_keeps_order(x, st);
        let rt = spec_insert_sorted(x, st);
        lemma_insert_sorted_elems(x, st);
        assert(r == seq![s[0]] + rt);
        lemma_key_lt_connex(x.0, s[0].0);
        assert forall|i: int, j: int| 0 <= i < j < r.len() implies !key_lt(r[j].0, r[i].0) by {
            if i == 0 {
                assert(r[0] == s[0]);
                assert(r[j] == rt[j - 1]);
                if rt[j - 1] == x {
                    lemma_key_lt_asym(x.0, s[0].0);
                } else {
                    assert(pair_in(st, rt[j - 1]));
                    let t = choose|t: int| 0 <= t < st.len() && st[t] == rt[j - 1];
                    assert(s[t + 1] == rt[j - 1]);
                    assert(!key_lt(s[t + 1].0, s[0].0));
                }
            } else {
                assert(r[i] == rt[i - 1] && r[j] == rt[j - 1]);
            }
        }
    }
}

/// The canonical sort emits keys in the non-strict canonical order.
pub proof fn lemma_sort_pairs_keeps_order(s: PairSeq)
    ensures
        forall|i: int, j: int|
            0 <= i < j < spec_sort_pairs(s).len() ==> !key_lt(
                spec_sort_pairs(s)[j].0,
                spec_sort_pairs(s)[i].0,
            ),
    decreases s.len(),
{
    if s.len() == 0 {
    } else {
        lemma_sort_pairs_keeps_order(s.drop_last());
        lemma_insert_sorted_keeps_order(s.last(), spec_sort_pairs(s.drop_last()));
    }
}

} // verus!



