//! Mapping a URL (or URL reference) to a relative, filesystem-like path,
//! as used when a bundle's exchanges are extracted to a directory tree.
//!
//! The reference is resolved against the fixed base `https://example.com/`;
//! the path is `scheme/host[/port]/` followed by the normalized path
//! segments, with `.` and empty segments dropped and `..` removing the
//! previous segment.

use vstd::prelude::*;
use vstd::string::{StrSliceExecFns, StringExecFns};

verus! {

/// What resolving a reference against the base `https://example.com/`
/// yields: the scheme, host, port and path of the resolved URL, or nothing
/// when the reference cannot be resolved.  Named so that contracts can
/// speak of it; resolution is a function of the reference alone.
pub uninterp spec fn url_resolution(s: Seq<char>) -> Option<
    (Seq<char>, Option<Seq<char>>, Option<u16>, Seq<char>),
>;

/// Relies on `url::Url::parse` and `url::Url::join`: RFC 3986 reference
/// resolution against the fixed base `https://example.com/`, and the
/// accessors `scheme`, `host_str`, `port` and `path` of the resolved URL.
#[verifier::external_body]
fn resolve_url(s: &str) -> (r: Option<(String, Option<String>, Option<u16>, String)>)
    ensures
        match r {
            Some((scheme, host, port, path)) => url_resolution(s@) == Some(
                (
                    scheme@,
                    match host {
                        Some(h) => Some(h@),
                        None => None,
                    },
                    port,
                    path@,
                ),
            ),
            None => url_resolution(s@) is None,
        },
{
    match url::Url::parse("https://example.com/") {
        Ok(base) => match base.join(s) {
            Ok(u) => {
                let scheme = u.scheme().to_string();
                let host = u.host_str().map(|h| h.to_string());
                let port = u.port();
                let path = u.path().to_string();
                Some((scheme, host, port, path))
            },
            Err(_) => None,
        },
        Err(_) => None,
    }
}

/// One path segment applied to the stack of kept segments.
pub open spec fn spec_apply_seg(acc: Seq<Seq<char>>, seg: Seq<char>) -> Seq<Seq<char>> {
    if seg.len() == 0 || (seg.len() == 1 && seg[0] == '.') {
        acc
    } else if seg.len() == 2 && seg[0] == '.' && seg[1] == '.' {
        if acc.len() > 0 {
            acc.drop_last()
        } else {
            acc
        }
    } else {
        acc.push(seg)
    }
}

/// Scans `p` from position `i`, the current segment starting at `start`,
/// and applies each `/`-terminated segment and the final one.
pub open spec fn spec_segs(p: Seq<char>, i: int, start: int, acc: Seq<Seq<char>>) -> Seq<
    Seq<char>,
>
    decreases p.len() - i,
{
    if i >= p.len() {
        spec_apply_seg(acc, p.subrange(start, p.len() as int))
    } else if p[i] == '/' {
        spec_segs(p, i + 1, i + 1, spec_apply_seg(acc, p.subrange(start, i)))
    } else {
        spec_segs(p, i + 1, start, acc)
    }
}

/// The normalized relative segments of a URL path.
pub open spec fn spec_rel_segments(p: Seq<char>) -> Seq<Seq<char>> {
    spec_segs(p, 0, 0, Seq::empty())
}

/// The first `n` segments joined with `/`.
pub open spec fn spec_join(segs: Seq<Seq<char>>, n: int) -> Seq<char>
    decreases n,
{
    if n <= 0 {
        Seq::empty()
    } else if n == 1 {
        segs[0]
    } else {
        spec_join(segs, n - 1) + seq!['/'] + segs[n - 1]
    }
}

/// The decimal digit character of `d`.
pub open spec fn dec_char_digit(d: int) -> char {
    if d == 0 {
        '0'
    } else if d == 1 {
        '1'
    } else if d == 2 {
        '2'
    } else if d == 3 {
        '3'
    } else if d == 4 {
        '4'
    } else if d == 5 {
        '5'
    } else if d == 6 {
        '6'
    } else if d == 7 {
        '7'
    } else if d == 8 {
        '8'
    } else {
        '9'
    }
}

/// The decimal digits of `n` as characters, most significant first.
pub open spec fn dec_chars(n: int) -> Seq<char>
    recommends
        0 <= n,
    decreases n,
{
    if n < 10 {
        seq![dec_char_digit(n)]
    } else {
        dec_chars(n / 10) + seq![dec_char_digit(n % 10)]
    }
}

/// The path that a URL reference maps to: `scheme/host[/port]/` plus the
/// normalized segments, keeping a trailing slash when the resolved URL
/// path ends in one.
pub open spec fn spec_url_path(s: Seq<char>) -> Option<Seq<char>> {
    match url_resolution(s) {
        None => None,
        Some((scheme, host, port, upath)) => {
            let segs = spec_rel_segments(upath);
            let head = scheme + (
            match host {
                Some(h) => seq!['/'] + h,
                None => Seq::empty(),
            }) + (
            match port {
                Some(p) => seq!['/'] + dec_chars(p as int),
                None => Seq::empty(),
            });
            let rel = spec_join(segs, segs.len() as int);
            let trail: Seq<char> = if segs.len() > 0 && upath.len() > 0 && upath[upath.len() - 1]
                == '/' {
                seq!['/']
            } else {
                Seq::empty()
            };
            Some(head + seq!['/'] + rel + trail)
        },
    }
}

/// A one-character string for the digit `d`.
fn digit_str(d: u16) -> (r: &'static str)
    requires
        d < 10,
    ensures
        r@ == seq![dec_char_digit(d as int)],
{
    if d == 0 {
        proof {
            reveal_strlit("0");
        }
        let r = "0";
        assert(r@ =~= seq![dec_char_digit(0)]);
        r
    } else if d == 1 {
        proof {
            reveal_strlit("1");
        }
        let r = "1";
        assert(r@ =~= seq![dec_char_digit(1)]);
        r
    } else if d == 2 {
        proof {
            reveal_strlit("2");
        }
        let r = "2";
        assert(r@ =~= seq![dec_char_digit(2)]);
        r
    } else if d == 3 {
        proof {
            reveal_strlit("3");
        }
        let r = "3";
        assert(r@ =~= seq![dec_char_digit(3)]);
        r
    } else if d == 4 {
        proof {
            reveal_strlit("4");
        }
        let r = "4";
        assert(r@ =~= seq![dec_char_digit(4)]);
        r
    } else if d == 5 {
        proof {
            reveal_strlit("5");
        }
        let r = "5";
        assert(r@ =~= seq![dec_char_digit(5)]);
        r
    } else if d == 6 {
        proof {
            reveal_strlit("6");
        }
        let r = "6";
        assert(r@ =~= seq![dec_char_digit(6)]);
        r
    } else if d == 7 {
        proof {
            reveal_strlit("7");
        }
        let r = "7";
        assert(r@ =~= seq![dec_char_digit(7)]);
        r
    } else if d == 8 {
        proof {
            reveal_strlit("8");
        }
        let r = "8";
        assert(r@ =~= seq![dec_char_digit(8)]);
        r
    } else {
        proof {
            reveal_strlit("9");
        }
        let r = "9";
        assert(r@ =~= seq![dec_char_digit(9)]);
        r
    }
}

/// Renders a port number in decimal.
fn u16_to_dec_str(n: u16) -> (r: String)
    ensures
        r@ == dec_chars(n as int),
    decreases n,
{
    if n < 10 {
        let r = String::from_str(digit_str(n));
        assert(r@ =~= dec_chars(n as int));
        r
    } else {
        let mut r = u16_to_dec_str(n / 10);
        r.append(digit_str(n % 10));
        assert(r@ =~= dec_chars(n as int));
        r
    }
}

/// The views of a vector of strings.
pub open spec fn strs_view(v: Seq<String>) -> Seq<Seq<char>> {
    Seq::new(v.len(), |i: int| v[i]@)
}

/// Applies one segment to the stack of kept segments.
fn apply_seg(acc: &mut Vec<String>, seg: &str)
    ensures
        strs_view(final(acc)@) == spec_apply_seg(strs_view(old(acc)@), seg@),
{
    let ghost oldv = strs_view(acc@);
    let l = seg.unicode_len();
    if l == 0 {
        return;
    }
    if l == 1 && seg.get_char(0) == '.' {
        return;
    }
    if l == 2 && seg.get_char(0) == '.' && seg.get_char(1) == '.' {
        if acc.len() > 0 {
            acc.pop();
            proof {
                assert(strs_view(acc@) =~= oldv.drop_last());
            }
        }
        return;
    }
    acc.push(String::from_str(seg));
    proof {
        assert(strs_view(acc@) =~= oldv.push(seg@));
    }
}

/// Splits a URL path into its normalized relative segments.
#[verifier::loop_isolation(false)]
fn rel_segments(p: &str) -> (r: Vec<String>)
    ensures
        strs_view(r@) == spec_rel_segments(p@),
{
    let n = p.unicode_len();
    let mut acc: Vec<String> = Vec::new();
    let mut i: usize = 0;
    let mut start: usize = 0;
    proof {
        assert(strs_view(acc@) =~= Seq::<Seq<char>>::empty());
    }
    while i < n
        invariant
            start <= i <= n,
            n == p@.len(),
            spec_segs(p@, 0, 0, Seq::empty()) == spec_segs(p@, i as int, start as int, strs_view(acc@)),
        decreases n - i,
    {
        if p.get_char(i) == '/' {
            let seg = p.substring_char(start, i);
            proof {
                assert(seg@ == p@.subrange(start as int, i as int));
            }
            apply_seg(&mut acc, seg);
            start = i + 1;
        }
        i += 1;
    }
    let seg = p.substring_char(start, n);
    proof {
        assert(seg@ == p@.subrange(start as int, n as int));
    }
    apply_seg(&mut acc, seg);
    acc
}

/// Maps a URL reference to a relative path string, or nothing when it
/// cannot be resolved against the base.
pub fn url_to_path(url: &str) -> (r: Option<String>)
    ensures
        match r {
            Some(p) => spec_url_path(url@) == Some(p@),
            None => spec_url_path(url@) is None,
        },
{
    let parts = match resolve_url(url) {
        Some(x) => x,
        None => {
            return None;
        },
    };
    let (scheme, host, port, upath) = parts;
    let mut out = scheme;
    proof {
        reveal_strlit("/");
    }
    match &host {
        Some(h) => {
            out.append("/");
            out.append(h.as_str());
        },
        None => {},
    }
    match port {
        Some(pt) => {
            out.append("/");
            let ps = u16_to_dec_str(pt);
            out.append(ps.as_str());
        },
        None => {},
    }
    out.append("/");
    let segs = rel_segments(upath.as_str());
    let ghost sv = strs_view(segs@);
    let ghost head_and_slash = out@;
    let nsegs = segs.len();
    let mut j: usize = 0;
    while j < nsegs
        invariant
            j <= nsegs,
            nsegs == segs@.len(),
            sv == strs_view(segs@),
            sv.len() == nsegs,
            out@ == head_and_slash + spec_join(sv, j as int),
        decreases nsegs - j,
    {
        proof {
            assert(sv[j as int] == segs@[j as int]@);
        }
        if j > 0 {
            out.append("/");
        }
        out.append(segs[j].as_str());
        proof {
            reveal_strlit("/");
            if j == 0 {
                assert(out@ =~= head_and_slash + spec_join(sv, 1));
            } else {
                assert(out@ =~= head_and_slash + (spec_join(sv, j as int) + seq!['/']
                    + sv[j as int]));
            }
        }
        j += 1;
    }
    let ulen = upath.as_str().unicode_len();
    if nsegs > 0 && ulen > 0 && upath.as_str().get_char(ulen - 1) == '/' {
        out.append("/");
    }
    proof {
        reveal_strlit("/");
        assert(spec_url_path(url@) == Some(out@));
    }
    Some(out)
}

} // verus!
