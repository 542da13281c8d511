use vstd::prelude::*;
use vstd::utf8::*;
use vstd::string::StringSliceAdditionalSpecFns;
use crate::handoff::{utf8_to_string, copy_range};

verus! {

/// One header line: name and raw value bytes.
pub struct Header {
    pub name: Vec<u8>,
    pub value: Vec<u8>,
}

impl View for Header {
    type V = (Seq<u8>, Seq<u8>);

    open spec fn view(&self) -> (Seq<u8>, Seq<u8>) {
        (self.name@, self.value@)
    }
}

pub open spec fn headers_view(hs: Seq<Header>) -> Seq<(Seq<u8>, Seq<u8>)> {
    hs.map_values(|h: Header| h@)
}

/// An incoming request, without its body, which is read only once the
/// request has been accepted for forwarding.
pub struct InboundRequest {
    pub method: String,
    pub path: String,
    pub query: Option<String>,
    pub headers: Vec<Header>,
}

/// The request to send upstream, without its body, which is forwarded as
/// it was read.
pub struct OutboundRequest {
    pub method: String,
    pub uri: String,
    pub headers: Vec<Header>,
}

/// A response to hand back to the client.
pub struct ProxyResponse {
    pub status: u16,
    pub headers: Vec<Header>,
    pub body: Vec<u8>,
}

pub const MISSING_TARGET_BODY: &'static str = "Proxy-Host header is missing";

pub const INVALID_TARGET_BODY: &'static str = "Proxy-Host header is not a valid string";

pub const UNREADABLE_BODY: &'static str = "Failed to read request body";

pub const SEND_FAILED_PREFIX: &'static str = "Failed to send request: ";

/// The name of the header that names the proxy target, in lower case.
pub open spec fn target_header_name() -> Seq<u8> {
    seq![112u8, 114u8, 111u8, 120u8, 121u8, 45u8, 104u8, 111u8, 115u8, 116u8]
}

pub open spec fn ascii_lower(b: u8) -> u8 {
    if 65 <= b <= 90 { (b + 32) as u8 } else { b }
}

/// Header names compare without regard to ASCII case.
pub open spec fn is_target_name(n: Seq<u8>) -> bool {
    n.len() == target_header_name().len() && forall|i: int| 0 <= i < n.len() ==> ascii_lower(
        #[trigger] n[i],
    ) == target_header_name()[i]
}

/// A header value is text when every byte is visible ASCII or a tab.
pub open spec fn is_visible_text(v: Seq<u8>) -> bool {
    forall|i: int| 0 <= i < v.len() ==> (32 <= #[trigger] v[i] < 127 || v[i] == 9)
}

/// The value of the first target header, if there is one.
pub open spec fn first_target(hs: Seq<(Seq<u8>, Seq<u8>)>) -> Option<Seq<u8>>
    decreases hs.len(),
{
    if hs.len() == 0 {
        None
    } else {
        match first_target(hs.drop_last()) {
            Some(v) => Some(v),
            None => if is_target_name(hs.last().0) { Some(hs.last().1) } else { None },
        }
    }
}

/// The headers with every target header taken out, in order.
pub open spec fn without_target(hs: Seq<(Seq<u8>, Seq<u8>)>) -> Seq<(Seq<u8>, Seq<u8>)>
    decreases hs.len(),
{
    if hs.len() == 0 {
        Seq::empty()
    } else if is_target_name(hs.last().0) {
        without_target(hs.drop_last())
    } else {
        without_target(hs.drop_last()).push(hs.last())
    }
}

/// The outbound URI: the target, the path, then `?` and the query when
/// there is one; nothing is normalised.
pub open spec fn forward_uri(target: Seq<char>, path: Seq<char>, query: Option<Seq<char>>) -> Seq<char> {
    match query {
        Some(q) => target + path + seq!['?'] + q,
        None => target + path,
    }
}

pub open spec fn query_view(q: Option<String>) -> Option<Seq<char>> {
    match q {
        Some(s) => Some(s@),
        None => None,
    }
}

/// A response with no headers and a fixed text body.
pub open spec fn is_plain(r: ProxyResponse, status: u16, body: Seq<u8>) -> bool {
    r.status == status && r.headers@.len() == 0 && r.body@ == body
}

proof fn lemma_visible_text_is_utf8(v: Seq<u8>)
    requires
        is_visible_text(v),
    ensures
        valid_utf8(v),
{
    assert(v.subrange(0, 0) =~= Seq::<u8>::empty());
    assert(partial_valid_utf8(v, 0));
    assert forall|i: int| 0 <= 0 <= i < v.len() <= v.len() implies #[trigger] is_leading_byte_width_1(v[i]) by {}
    partial_valid_utf8_extend_ascii_block(v, 0, v.len() as int);
    assert(v.subrange(0, v.len() as int) =~= v);
}

fn plain(status: u16, text: &str) -> (r: ProxyResponse)
    ensures
        is_plain(r, status, text.spec_bytes()),
{
    ProxyResponse { status, headers: Vec::new(), body: text.as_bytes_vec() }
}

fn is_target_header(n: &Vec<u8>) -> (r: bool)
    ensures
        r == is_target_name(n@),
{
    let expected: Vec<u8> = vec![112u8, 114u8, 111u8, 120u8, 121u8, 45u8, 104u8, 111u8, 115u8, 116u8];
    assert(expected@ =~= target_header_name());
    if n.len() != expected.len() {
        return false;
    }
    let mut i: usize = 0;
    while i < n.len()
        invariant
            n@.len() == expected@.len(),
            expected@ == target_header_name(),
            i <= n@.len(),
            forall|k: int| 0 <= k < i ==> ascii_lower(#[trigger] n@[k]) == target_header_name()[k],
        decreases n@.len() - i,
    {
        let b = n[i];
        let lower = if 65 <= b && b <= 90 { b + 32 } else { b };
        if lower != expected[i] {
            return false;
        }
        i = i + 1;
    }
    true
}

fn is_visible(v: &Vec<u8>) -> (r: bool)
    ensures
        r == is_visible_text(v@),
{
    let mut i: usize = 0;
    while i < v.len()
        invariant
            i <= v@.len(),
            forall|k: int| 0 <= k < i ==> (32 <= #[trigger] v@[k] < 127 || v@[k] == 9),
        decreases v@.len() - i,
    {
        let b = v[i];
        if !((32 <= b && b < 127) || b == 9) {
            return false;
        }
        i = i + 1;
    }
    true
}

/// Decides what to do with an incoming request. Without a target header
/// the answer is 400, and so it is when the first target header is not
/// text. Otherwise the request goes upstream with the same method, every
/// other header in order, and the target followed by the path and query as
/// its URI.
pub fn prepare_request(req: &InboundRequest) -> (r: Result<OutboundRequest, ProxyResponse>)
    ensures
        ({
            let hs = headers_view(req.headers@);
            match first_target(hs) {
                None => r matches Err(e) && is_plain(e, 400, MISSING_TARGET_BODY.spec_bytes()),
                Some(v) => if is_visible_text(v) {
                    r matches Ok(o) && o.method@ == req.method@ && o.uri@ == forward_uri(
                        decode_utf8(v),
                        req.path@,
                        query_view(req.query),
                    ) && headers_view(o.headers@) == without_target(hs)
                } else {
                    r matches Err(e) && is_plain(e, 400, INVALID_TARGET_BODY.spec_bytes())
                },
            }
        }),
{
    let ghost hs = headers_view(req.headers@);
    let n = req.headers.len();
    let mut target: Option<usize> = None;
    let mut kept: Vec<Header> = Vec::new();
    let mut i: usize = 0;
    while i < n
        invariant
            n == req.headers@.len(),
            hs == headers_view(req.headers@),
            i <= n,
            match target {
                Some(t) => t < i && first_target(hs.subrange(0, i as int)) == Some(hs[t as int].1),
                None => first_target(hs.subrange(0, i as int)) is None,
            },
            headers_view(kept@) == without_target(hs.subrange(0, i as int)),
        decreases n - i,
    {
        let ghost pre = hs.subrange(0, i as int);
        assert(hs.subrange(0, i + 1).drop_last() =~= pre);
        assert(hs.subrange(0, i + 1).last() == hs[i as int]);
        if is_target_header(&req.headers[i].name) {
            if target.is_none() {
                target = Some(i);
            }
        } else {
            let h = Header {
                name: copy_range(&req.headers[i].name, 0, req.headers[i].name.len()),
                value: copy_range(&req.headers[i].value, 0, req.headers[i].value.len()),
            };
            assert(req.headers[i as int].name@.subrange(0, req.headers[i as int].name@.len() as int) =~= req.headers[i as int].name@);
            assert(req.headers[i as int].value@.subrange(0, req.headers[i as int].value@.len() as int) =~= req.headers[i as int].value@);
            let ghost prev = kept@;
            kept.push(h);
            assert(headers_view(kept@) =~= headers_view(prev).push(h@));
        }
        i = i + 1;
    }
    assert(hs.subrange(0, n as int) =~= hs);
    let t = match target {
        None => {
            return Err(plain(400, MISSING_TARGET_BODY));
        },
        Some(t) => t,
    };
    let value = &req.headers[t].value;
    if !is_visible(value) {
        return Err(plain(400, INVALID_TARGET_BODY));
    }
    proof {
        lemma_visible_text_is_utf8(value@);
    }
    let copied = copy_range(value, 0, value.len());
    assert(value@.subrange(0, value@.len() as int) =~= value@);
    let mut uri = match utf8_to_string(copied) {
        Some(s) => s,
        None => {
            return Err(plain(400, INVALID_TARGET_BODY));
        },
    };
    uri.append(req.path.as_str());
    match &req.query {
        Some(q) => {
            uri.append("?");
            uri.append(q.as_str());
            proof {
                reveal_strlit("?");
            }
        },
        None => {},
    }
    Ok(OutboundRequest { method: req.method.clone(), uri, headers: kept })
}

/// The client's answer when the request body could not be read.
pub fn unreadable_body() -> (r: ProxyResponse)
    ensures
        is_plain(r, 400, UNREADABLE_BODY.spec_bytes()),
{
    plain(400, UNREADABLE_BODY)
}

/// The client's answer when the upstream request could not be sent; the
/// error detail follows a fixed prefix in the body.
pub fn upstream_failure(detail: &str) -> (r: ProxyResponse)
    ensures
        is_plain(r, 500, SEND_FAILED_PREFIX.spec_bytes() + detail.spec_bytes()),
{
    let mut body = SEND_FAILED_PREFIX.as_bytes_vec();
    let tail = detail.as_bytes_vec();
    let ghost start = body@;
    let mut i: usize = 0;
    while i < tail.len()
        invariant
            i <= tail@.len(),
            body@ =~= start + tail@.subrange(0, i as int),
        decreases tail@.len() - i,
    {
        body.push(tail[i]);
        i = i + 1;
    }
    assert(tail@.subrange(0, tail@.len() as int) =~= tail@);
    ProxyResponse { status: 500, headers: Vec::new(), body }
}

/// The client's answer when upstream replied: its status, every header and
/// the whole body, as they came.
pub fn relay_upstream(status: u16, headers: Vec<Header>, body: Vec<u8>) -> (r: ProxyResponse)
    ensures
        r.status == status,
        headers_view(r.headers@) == headers_view(headers@),
        r.body@ == body@,
{
    ProxyResponse { status, headers, body }
}

} // verus!
