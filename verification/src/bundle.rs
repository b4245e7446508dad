//! The in-memory data model: versions, requests, responses, exchanges and
//! bundles, with their mathematical views and well-formedness conditions.

use crate::canon::{
    bytes_eq, keys_distinct, lemma_sort_pairs_strict, pairs_strictly_sorted, pairs_view,
    sort_pairs, spec_sort_pairs, BytesPair, PairSeq,
};
use crate::strutil::{dec_digits, str_utf8_bytes, u64_to_dec};
use vstd::prelude::*;
use vstd::utf8::encode_utf8;

verus! {

/// The 8 magic bytes at the start of every bundle, after the top-level
/// array opener and the byte-string header.
pub open spec fn spec_magic() -> Seq<u8> {
    seq![0xf0u8, 0x9f, 0x8c, 0x90, 0xf0, 0x9f, 0x93, 0xa6]
}

/// The magic bytes as a vector.
pub(crate) fn magic_bytes() -> (r: Vec<u8>)
    ensures
        r@ == spec_magic(),
{
    let mut v: Vec<u8> = Vec::new();
    v.push(0xf0);
    v.push(0x9f);
    v.push(0x8c);
    v.push(0x90);
    v.push(0xf0);
    v.push(0x9f);
    v.push(0x93);
    v.push(0xa6);
    assert(v@ =~= spec_magic());
    v
}

/// The version bytes of the current layout, ASCII `b2` padded with zeros.
pub open spec fn b2_bytes() -> Seq<u8> {
    seq![0x62u8, 0x32, 0x00, 0x00]
}

/// The version bytes of the historical layout, ASCII `1` padded with zeros.
pub open spec fn v1_bytes() -> Seq<u8> {
    seq![0x31u8, 0x00, 0x00, 0x00]
}

/// The section name `index` in ASCII.
pub open spec fn name_index() -> Seq<u8> {
    seq![0x69u8, 0x6e, 0x64, 0x65, 0x78]
}

/// The section name `responses` in ASCII.
pub open spec fn name_responses() -> Seq<u8> {
    seq![0x72u8, 0x65, 0x73, 0x70, 0x6f, 0x6e, 0x73, 0x65, 0x73]
}

/// The section name `primary` in ASCII.
pub open spec fn name_primary() -> Seq<u8> {
    seq![0x70u8, 0x72, 0x69, 0x6d, 0x61, 0x72, 0x79]
}

/// The section name `critical` in ASCII.
pub open spec fn name_critical() -> Seq<u8> {
    seq![0x63u8, 0x72, 0x69, 0x74, 0x69, 0x63, 0x61, 0x6c]
}

/// The pseudo-header name `:status` in ASCII.
pub open spec fn status_key() -> Seq<u8> {
    seq![0x3au8, 0x73, 0x74, 0x61, 0x74, 0x75, 0x73]
}

pub(crate) fn name_index_bytes() -> (r: Vec<u8>)
    ensures
        r@ == name_index(),
{
    let mut v: Vec<u8> = Vec::new();
    v.push(0x69);
    v.push(0x6e);
    v.push(0x64);
    v.push(0x65);
    v.push(0x78);
    assert(v@ =~= name_index());
    v
}

pub(crate) fn name_responses_bytes() -> (r: Vec<u8>)
    ensures
        r@ == name_responses(),
{
    let mut v: Vec<u8> = Vec::new();
    v.push(0x72);
    v.push(0x65);
    v.push(0x73);
    v.push(0x70);
    v.push(0x6f);
    v.push(0x6e);
    v.push(0x73);
    v.push(0x65);
    v.push(0x73);
    assert(v@ =~= name_responses());
    v
}

pub(crate) fn name_primary_bytes() -> (r: Vec<u8>)
    ensures
        r@ == name_primary(),
{
    let mut v: Vec<u8> = Vec::new();
    v.push(0x70);
    v.push(0x72);
    v.push(0x69);
    v.push(0x6d);
    v.push(0x61);
    v.push(0x72);
    v.push(0x79);
    assert(v@ =~= name_primary());
    v
}

pub(crate) fn name_critical_bytes() -> (r: Vec<u8>)
    ensures
        r@ == name_critical(),
{
    let mut v: Vec<u8> = Vec::new();
    v.push(0x63);
    v.push(0x72);
    v.push(0x69);
    v.push(0x74);
    v.push(0x69);
    v.push(0x63);
    v.push(0x61);
    v.push(0x6c);
    assert(v@ =~= name_critical());
    v
}

pub(crate) fn b2_bytes_vec() -> (r: Vec<u8>)
    ensures
        r@ == b2_bytes(),
{
    let mut v: Vec<u8> = Vec::new();
    v.push(0x62);
    v.push(0x32);
    v.push(0x00);
    v.push(0x00);
    assert(v@ =~= b2_bytes());
    v
}

pub(crate) fn v1_bytes_vec() -> (r: Vec<u8>)
    ensures
        r@ == v1_bytes(),
{
    let mut v: Vec<u8> = Vec::new();
    v.push(0x31);
    v.push(0x00);
    v.push(0x00);
    v.push(0x00);
    assert(v@ =~= v1_bytes());
    v
}

pub(crate) fn status_key_bytes() -> (r: Vec<u8>)
    ensures
        r@ == status_key(),
{
    let mut v: Vec<u8> = Vec::new();
    v.push(0x3a);
    v.push(0x73);
    v.push(0x74);
    v.push(0x61);
    v.push(0x74);
    v.push(0x75);
    v.push(0x73);
    assert(v@ =~= status_key());
    v
}

/// The header name `content-type` in ASCII.
pub open spec fn content_type_name() -> Seq<u8> {
    seq![0x63u8, 0x6f, 0x6e, 0x74, 0x65, 0x6e, 0x74, 0x2d, 0x74, 0x79, 0x70, 0x65]
}

/// The header name `content-length` in ASCII.
pub open spec fn content_length_name() -> Seq<u8> {
    seq![0x63u8, 0x6f, 0x6e, 0x74, 0x65, 0x6e, 0x74, 0x2d, 0x6c, 0x65, 0x6e, 0x67, 0x74, 0x68]
}

/// The header name `location` in ASCII.
pub open spec fn location_name() -> Seq<u8> {
    seq![0x6cu8, 0x6f, 0x63, 0x61, 0x74, 0x69, 0x6f, 0x6e]
}

fn content_type_name_bytes() -> (r: Vec<u8>)
    ensures
        r@ == content_type_name(),
{
    let mut v: Vec<u8> = Vec::new();
    v.push(0x63);
    v.push(0x6f);
    v.push(0x6e);
    v.push(0x74);
    v.push(0x65);
    v.push(0x6e);
    v.push(0x74);
    v.push(0x2d);
    v.push(0x74);
    v.push(0x79);
    v.push(0x70);
    v.push(0x65);
    assert(v@ =~= content_type_name());
    v
}

fn content_length_name_bytes() -> (r: Vec<u8>)
    ensures
        r@ == content_length_name(),
{
    let mut v: Vec<u8> = Vec::new();
    v.push(0x63);
    v.push(0x6f);
    v.push(0x6e);
    v.push(0x74);
    v.push(0x65);
    v.push(0x6e);
    v.push(0x74);
    v.push(0x2d);
    v.push(0x6c);
    v.push(0x65);
    v.push(0x6e);
    v.push(0x67);
    v.push(0x74);
    v.push(0x68);
    assert(v@ =~= content_length_name());
    v
}

fn location_name_bytes() -> (r: Vec<u8>)
    ensures
        r@ == location_name(),
{
    let mut v: Vec<u8> = Vec::new();
    v.push(0x6c);
    v.push(0x6f);
    v.push(0x63);
    v.push(0x61);
    v.push(0x74);
    v.push(0x69);
    v.push(0x6f);
    v.push(0x6e);
    assert(v@ =~= location_name());
    v
}

/// The version of a bundle.
#[derive(Clone, Copy, Debug, PartialEq, Eq)]
pub enum Version {
    /// Version `b2`, the current wire layout.
    VersionB2,
    /// Version `1`, a historical layout; recognized but not produced by new
    /// callers.
    Version1,
    /// Any other 4-byte version, decoded but flagged.
    Unknown([u8; 4]),
}

impl Version {
    /// The 4 bytes that stand for this version on the wire.
    pub open spec fn spec_bytes(self) -> Seq<u8> {
        match self {
            Version::VersionB2 => b2_bytes(),
            Version::Version1 => v1_bytes(),
            Version::Unknown(a) => a@,
        }
    }

    /// The classification is faithful: an `Unknown` value never carries the
    /// bytes of a known version.  The decoder only produces canonical
    /// versions; the constructor does not enforce it.
    pub open spec fn canonical(self) -> bool {
        match self {
            Version::Unknown(a) => a@ != b2_bytes() && a@ != v1_bytes(),
            _ => true,
        }
    }

    /// Gets the bytes which represent this version.
    pub fn bytes(&self) -> (r: [u8; 4])
        ensures
            r@ == self.spec_bytes(),
    {
        match self {
            Version::VersionB2 => {
                let r: [u8; 4] = [0x62, 0x32, 0x00, 0x00];
                assert(r@ =~= b2_bytes());
                r
            },
            Version::Version1 => {
                let r: [u8; 4] = [0x31, 0x00, 0x00, 0x00];
                assert(r@ =~= v1_bytes());
                r
            },
            Version::Unknown(a) => *a,
        }
    }
}

/// The mathematical content of a request.
pub struct RequestView {
    pub url: Seq<char>,
    pub headers: PairSeq,
}

/// The mathematical content of a response.
pub struct ResponseView {
    pub status: u16,
    pub headers: PairSeq,
    pub body: Seq<u8>,
}

/// The mathematical content of an exchange.
pub struct ExchangeView {
    pub request: RequestView,
    pub response: ResponseView,
}

/// The mathematical content of a bundle.  The version is carried as its 4
/// wire bytes, so that differently classified values with equal bytes are
/// equal in the model.
pub struct BundleView {
    pub version: Seq<u8>,
    pub primary_url: Option<Seq<char>>,
    pub exchanges: Seq<ExchangeView>,
}

/// A header name fit for the wire: non-empty, ASCII, no uppercase letter,
/// and not a pseudo-header.
pub open spec fn valid_header_name(n: Seq<u8>) -> bool {
    &&& n.len() > 0
    &&& n[0] != 0x3a
    &&& forall|i: int| 0 <= i < n.len() ==> #[trigger] n[i] < 0x80 && !(0x41 <= n[i] <= 0x5a)
}

/// Decides `valid_header_name`.
pub(crate) fn valid_header_name_exec(n: &[u8]) -> (r: bool)
    ensures
        r == valid_header_name(n@),
{
    if n.len() == 0 {
        return false;
    }
    if n[0] == 0x3a {
        return false;
    }
    let mut i: usize = 0;
    let len = n.len();
    while i < len
        invariant
            i <= len,
            len == n@.len(),
            forall|j: int| 0 <= j < i ==> #[trigger] n@[j] < 0x80 && !(0x41 <= n@[j] <= 0x5a),
        decreases len - i,
    {
        let b = n[i];
        if b >= 0x80 || (0x41 <= b && b <= 0x5a) {
            return false;
        }
        i += 1;
    }
    true
}

/// A well-formed response-header map: valid names, strictly increasing in
/// the canonical key order (hence unique).
pub open spec fn headers_wf(h: PairSeq) -> bool {
    &&& forall|i: int| 0 <= i < h.len() ==> valid_header_name(#[trigger] h[i].0)
    &&& pairs_strictly_sorted(h)
}

/// A well-formed response: an HTTP status and a well-formed header map.
pub open spec fn resp_wf(r: ResponseView) -> bool {
    &&& 100 <= r.status <= 599
    &&& headers_wf(r.headers)
}

/// What `Response::new` accepts: a status in range, valid names, no
/// duplicate name.
pub open spec fn response_input_ok(status: u16, h: PairSeq) -> bool {
    &&& 100 <= status <= 599
    &&& forall|i: int| 0 <= i < h.len() ==> valid_header_name(#[trigger] h[i].0)
    &&& keys_distinct(h)
}

/// An HTTP exchange's request: the URL (absolute or relative; only the URL
/// is persisted on the wire) and a header map.
#[derive(Debug)]
pub struct Request {
    url: String,
    headers: Vec<BytesPair>,
}

impl View for Request {
    type V = RequestView;

    closed spec fn view(&self) -> RequestView {
        RequestView { url: self.url@, headers: pairs_view(self.headers@) }
    }
}

impl Request {
    /// Creates a new `Request` with the given url and headers.
    pub fn new(url: String, headers: Vec<BytesPair>) -> (r: Request)
        ensures
            r@.url == url@,
            r@.headers == pairs_view(headers@),
    {
        Request { url, headers }
    }

    /// Returns a reference to the associated url.
    pub fn url(&self) -> (r: &String)
        ensures
            r@ == self@.url,
    {
        &self.url
    }

    /// Returns a reference to the associated header field map.
    pub fn headers(&self) -> (r: &Vec<BytesPair>)
        ensures
            pairs_view(r@) == self@.headers,
    {
        &self.headers
    }
}

/// An HTTP response: a status in `[100, 599]`, a canonically ordered header
/// map, and an opaque body.
#[derive(Debug)]
pub struct Response {
    status: u16,
    headers: Vec<BytesPair>,
    body: Vec<u8>,
}

impl View for Response {
    type V = ResponseView;

    closed spec fn view(&self) -> ResponseView {
        ResponseView {
            status: self.status,
            headers: pairs_view(self.headers@),
            body: self.body@,
        }
    }
}

impl Response {
    /// Whether this response satisfies the model invariants.  Every value
    /// this crate hands out satisfies them.
    pub open spec fn wf(self) -> bool {
        resp_wf(self@)
    }

    /// Creates a response.  The headers are sorted into the canonical CBOR
    /// key order; the call fails exactly when the status is out of range, a
    /// name is invalid, or a name repeats.
    pub fn new(status: u16, headers: Vec<BytesPair>, body: Vec<u8>) -> (r: Option<Response>)
        ensures
            r is Some <==> response_input_ok(status, pairs_view(headers@)),
            match r {
                Some(resp) => {
                    &&& resp@.status == status
                    &&& resp@.body == body@
                    &&& resp@.headers == spec_sort_pairs(pairs_view(headers@))
                    &&& resp.wf()
                },
                None => true,
            },
    {
        let ghost hv = pairs_view(headers@);
        if status < 100 || status > 599 {
            return None;
        }
        let hn = headers.len();
        let mut i: usize = 0;
        while i < hn
            invariant
                i <= hn,
                hn == headers@.len(),
                hv == pairs_view(headers@),
                forall|j: int| 0 <= j < i ==> valid_header_name(#[trigger] hv[j].0),
            decreases hn - i,
        {
            if !valid_header_name_exec(headers[i].0.as_slice()) {
                proof {
                    assert(hv[i as int].0 == headers@[i as int].0@);
                }
                return None;
            }
            proof {
                assert(hv[i as int].0 == headers@[i as int].0@);
            }
            i += 1;
        }
        let mut a: usize = 0;
        while a < hn
            invariant
                a <= hn,
                hn == headers@.len(),
                hv == pairs_view(headers@),
                forall|p: int, q: int| 0 <= p < a && p < q < hn ==> hv[p].0 != hv[q].0,
            decreases hn - a,
        {
            let mut b: usize = a + 1;
            while b < hn
                invariant
                    a < b <= hn || (a + 1 == b && b > hn),
                    a < hn,
                    hn == headers@.len(),
                    hv == pairs_view(headers@),
                    forall|q: int| a < q < b ==> hv[a as int].0 != hv[q].0,
                decreases hn - b,
            {
                if bytes_eq(headers[a].0.as_slice(), headers[b].0.as_slice()) {
                    proof {
                        assert(hv[a as int].0 == headers@[a as int].0@);
                        assert(hv[b as int].0 == headers@[b as int].0@);
                    }
                    return None;
                }
                proof {
                    assert(hv[a as int].0 == headers@[a as int].0@);
                    assert(hv[b as int].0 == headers@[b as int].0@);
                }
                b += 1;
            }
            a += 1;
        }
        assert(keys_distinct(hv));
        let sorted = sort_pairs(headers);
        proof {
            lemma_sort_pairs_strict(hv);
            let sv = spec_sort_pairs(hv);
            assert forall|i2: int| 0 <= i2 < sv.len() implies valid_header_name(
                #[trigger] sv[i2].0,
            ) by {
                assert(crate::canon::has_key(sv, sv[i2].0));
                assert(crate::canon::has_key(hv, sv[i2].0));
                let j2 = choose|j2: int| 0 <= j2 < hv.len() && hv[j2].0 == sv[i2].0;
                assert(valid_header_name(hv[j2].0));
            }
        }
        Some(Response { status, headers: sorted, body })
    }

    /// Gets the status.
    pub fn status(&self) -> (r: u16)
        ensures
            r == self@.status,
    {
        self.status
    }

    /// Returns a reference to the header map, in canonical key order.
    pub fn headers(&self) -> (r: &Vec<BytesPair>)
        ensures
            pairs_view(r@) == self@.headers,
    {
        &self.headers
    }

    /// Returns a reference to the body.
    pub fn body(&self) -> (r: &Vec<u8>)
        ensures
            r@ == self@.body,
    {
        &self.body
    }

    /// Looks a header up by name.
    pub fn header_value(&self, name: &[u8]) -> (r: Option<&Vec<u8>>)
        ensures
            match r {
                Some(v) => exists|i: int|
                    0 <= i < self@.headers.len() && #[trigger] self@.headers[i] == (name@, v@),
                None => forall|i: int|
                    0 <= i < self@.headers.len() ==> (#[trigger] self@.headers[i]).0 != name@,
            },
    {
        let n = self.headers.len();
        let mut i: usize = 0;
        while i < n
            invariant
                i <= n,
                n == self.headers@.len(),
                forall|j: int| 0 <= j < i ==> (#[trigger] pairs_view(self.headers@)[j]).0 != name@,
            decreases n - i,
        {
            if bytes_eq(self.headers[i].0.as_slice(), name) {
                proof {
                    assert(pairs_view(self.headers@)[i as int] == (
                        self.headers@[i as int].0@,
                        self.headers@[i as int].1@,
                    ));
                    assert(self@.headers[i as int] == (name@, self.headers@[i as int].1@));
                }
                return Some(&self.headers[i].1);
            }
            proof {
                assert(pairs_view(self.headers@)[i as int] == (
                    self.headers@[i as int].0@,
                    self.headers@[i as int].1@,
                ));
            }
            i += 1;
        }
        None
    }
}

/// What `mime_guess` answers for a path: a pure lookup on the extension,
/// named here so that contracts can speak of it.
pub uninterp spec fn mime_of(path: Seq<char>) -> Seq<char>;

/// Relies on `mime_guess::from_path(..).first_or_octet_stream()`: a pure
/// table lookup on the path's extension, so the result is a function of the
/// path alone.
#[verifier::external_body]
fn guess_mime(path: &str) -> (r: String)
    ensures
        r@ == mime_of(path@),
{
    mime_guess::from_path(path).first_or_octet_stream().to_string()
}

/// An HTTP exchange: a request paired with its response.
#[derive(Debug)]
pub struct Exchange {
    pub request: Request,
    pub response: Response,
}

impl View for Exchange {
    type V = ExchangeView;

    open spec fn view(&self) -> ExchangeView {
        ExchangeView { request: self.request@, response: self.response@ }
    }
}

/// The headers that the convenience constructors attach: a content type and
/// the body's length, in canonical order.
pub open spec fn typed_headers(content_type: Seq<char>, body_len: int) -> PairSeq {
    spec_sort_pairs(
        seq![
            (content_type_name(), encode_utf8(content_type)),
            (content_length_name(), dec_digits(body_len)),
        ],
    )
}

impl Exchange {
    /// Builds an exchange for `url` serving `body` with status 200; the
    /// content type is guessed from the URL's path suffix.
    pub fn from(parts: (String, Vec<u8>)) -> (r: Exchange)
        ensures
            r@.request.url == parts.0@,
            r@.request.headers.len() == 0,
            r@.response.status == 200,
            r@.response.body == parts.1@,
            r@.response.headers == typed_headers(mime_of(parts.0@), parts.1@.len() as int),
            r.response.wf(),
    {
        let (url, body) = parts;
        let content_type = guess_mime(url.as_str());
        Exchange::from_with_content_type((url, body, content_type))
    }

    /// Builds an exchange for `url` serving `body` with status 200 and the
    /// given content type.
    pub fn from_with_content_type(parts: (String, Vec<u8>, String)) -> (r: Exchange)
        ensures
            r@.request.url == parts.0@,
            r@.request.headers.len() == 0,
            r@.response.status == 200,
            r@.response.body == parts.1@,
            r@.response.headers == typed_headers(parts.2@, parts.1@.len() as int),
            r.response.wf(),
    {
        let (url, body, content_type) = parts;
        let ghost ctv = content_type@;
        let ghost bodyv = body@;
        let mut hdrs: Vec<BytesPair> = Vec::new();
        let ct_value = str_utf8_bytes(content_type.as_str());
        hdrs.push((content_type_name_bytes(), ct_value));
        let cl_value = u64_to_dec(body.len() as u64);
        hdrs.push((content_length_name_bytes(), cl_value));
        proof {
            assert(pairs_view(hdrs@) =~= seq![
                (content_type_name(), encode_utf8(ctv)),
                (content_length_name(), dec_digits(bodyv.len() as int)),
            ]);
            assert(valid_header_name(content_type_name()));
            assert(valid_header_name(content_length_name()));
            assert(content_type_name().len() != content_length_name().len());
            assert(keys_distinct(pairs_view(hdrs@)));
        }
        let response_opt = Response::new(200, hdrs, body);
        assert(response_opt is Some);
        let response = response_opt.unwrap();
        Exchange { request: Request::new(url, Vec::new()), response }
    }

    /// Builds a redirect exchange: status 301 with a `location` header and
    /// an empty body.
    pub fn redirect(url: String, location: String) -> (r: Exchange)
        ensures
            r@.request.url == url@,
            r@.request.headers.len() == 0,
            r@.response.status == 301,
            r@.response.body.len() == 0,
            r@.response.headers == spec_sort_pairs(
                seq![(location_name(), encode_utf8(location@))],
            ),
            r.response.wf(),
    {
        let ghost locv = location@;
        let mut hdrs: Vec<BytesPair> = Vec::new();
        let loc_value = str_utf8_bytes(location.as_str());
        hdrs.push((location_name_bytes(), loc_value));
        proof {
            assert(pairs_view(hdrs@) =~= seq![(location_name(), encode_utf8(locv))]);
            assert(valid_header_name(location_name()));
            assert(keys_distinct(pairs_view(hdrs@)));
        }
        let response_opt = Response::new(301, hdrs, Vec::new());
        assert(response_opt is Some);
        let response = response_opt.unwrap();
        Exchange { request: Request::new(url, Vec::new()), response }
    }
}

/// The views of a sequence of exchanges.
pub open spec fn exchanges_view(s: Seq<Exchange>) -> Seq<ExchangeView> {
    Seq::new(s.len(), |i: int| s[i]@)
}

/// A well-formed bundle: 4 version bytes and well-formed responses.
pub open spec fn bundle_wf(b: BundleView) -> bool {
    &&& b.version.len() == 4
    &&& forall|i: int| 0 <= i < b.exchanges.len() ==> resp_wf((#[trigger] b.exchanges[i]).response)
}

/// A bundle: a version, an optional primary URL, and an ordered sequence of
/// exchanges.  Immutable once built; the builder and the decoder are the
/// only construction paths.
#[derive(Debug)]
pub struct Bundle {
    pub(crate) version: Version,
    pub(crate) primary_url: Option<String>,
    pub(crate) exchanges: Vec<Exchange>,
}

impl View for Bundle {
    type V = BundleView;

    closed spec fn view(&self) -> BundleView {
        BundleView {
            version: self.version.spec_bytes(),
            primary_url: match self.primary_url {
                Some(u) => Some(u@),
                None => None,
            },
            exchanges: exchanges_view(self.exchanges@),
        }
    }
}

/// Assembles a bundle from its parts; the builder's and the decoder's only
/// construction path.
pub(crate) fn bundle_from_parts(
    version: Version,
    primary_url: Option<String>,
    exchanges: Vec<Exchange>,
) -> (r: Bundle)
    ensures
        r@.version == version.spec_bytes(),
        match primary_url {
            Some(u) => r@.primary_url == Some(u@),
            None => r@.primary_url is None,
        },
        r@.exchanges == exchanges_view(exchanges@),
{
    Bundle { version, primary_url, exchanges }
}

impl Bundle {
    /// The wire bytes of this bundle's version, as a vector.
    pub(crate) fn version_bytes_vec(&self) -> (r: Vec<u8>)
        ensures
            r@ == self@.version,
    {
        let a = self.version.bytes();
        let mut v: Vec<u8> = Vec::new();
        v.push(a[0]);
        v.push(a[1]);
        v.push(a[2]);
        v.push(a[3]);
        assert(v@ =~= a@);
        v
    }

    /// Whether this bundle satisfies the model invariants.
    pub open spec fn wf(self) -> bool {
        bundle_wf(self@)
    }

    /// Gets the version.
    pub fn version(&self) -> (r: &Version)
        ensures
            r.spec_bytes() == self@.version,
    {
        &self.version
    }

    /// Gets the primary url.
    pub fn primary_url(&self) -> (r: &Option<String>)
        ensures
            match r {
                Some(u) => self@.primary_url == Some(u@),
                None => self@.primary_url is None,
            },
    {
        &self.primary_url
    }

    /// Gets the exchanges.
    pub fn exchanges(&self) -> (r: &[Exchange])
        ensures
            exchanges_view(r@) == self@.exchanges,
    {
        self.exchanges.as_slice()
    }
}

} // verus!
