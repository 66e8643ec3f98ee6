//! Serving scrapes over HTTP: choosing the response format from the request's `Accept` header.
use crate::labels::str_eq;
use mime::MimeIter;
use vstd::prelude::*;

verus! {

/// The media types that `mime::MimeIter` reads from a header, as `(type, subtype)`, skipping
/// the parts it cannot read.
pub uninterp spec fn media_types(header: Seq<char>) -> Seq<(Seq<char>, Seq<char>)>;

/// `mime::MimeIter::new(header).flatten()`, each media type given by its type and its subtype
/// (without any `+suffix` or parameters), in the order of the header.
/// The header must be ASCII: the parser steps over an unreadable first character one byte at
/// a time, which would split a wider character.
#[verifier::external_body]
fn parse_media_types(header: &str) -> (r: Vec<(String, String)>)
    requires
        is_ascii(header@),
    ensures
        r@.len() == media_types(header@).len(),
        forall|i: int|
            0 <= i < r@.len() ==> (#[trigger] r@[i]).0@ == media_types(header@)[i].0 && r@[i].1@
                == media_types(header@)[i].1,
{
    MimeIter::new(header)
        .flatten()
        .map(|m| (m.type_().as_str().to_string(), m.subtype().as_str().to_string()))
        .collect()
}

/// The format of a scrape response.
pub enum ResponseFormat {
    /// The text exposition format.
    Text,
    /// The protobuf format.
    Protobuf,
}

/// The code of the ASCII lower case of a character.
pub open spec fn ascii_lower(c: char) -> u32 {
    if 'A' <= c && c <= 'Z' {
        (c as u32 + 32) as u32
    } else {
        c as u32
    }
}

/// Equal up to ASCII case, as media type names are compared.
pub open spec fn eq_ignore_ascii_case(a: Seq<char>, b: Seq<char>) -> bool {
    a.len() == b.len() && forall|i: int| 0 <= i < a.len() ==> ascii_lower(a[i]) == ascii_lower(b[i])
}

/// A media type that asks for protobuf: `application/vnd.google.protobuf` or
/// `application/x-protobuf`, in any case.
pub open spec fn asks_for_protobuf(t: (Seq<char>, Seq<char>)) -> bool {
    eq_ignore_ascii_case(t.0, "application"@) && (eq_ignore_ascii_case(t.1, "vnd.google.protobuf"@)
        || eq_ignore_ascii_case(t.1, "x-protobuf"@))
}

fn lower(c: char) -> (r: u32)
    ensures
        r == ascii_lower(c),
{
    if 'A' <= c && c <= 'Z' {
        (c as u32) + 32
    } else {
        c as u32
    }
}

fn same_ignoring_case(a: &str, b: &str) -> (r: bool)
    ensures
        r == eq_ignore_ascii_case(a@, b@),
{
    let a_len = a.unicode_len();
    let b_len = b.unicode_len();
    if a_len != b_len {
        return false;
    }
    let mut i: usize = 0;
    while i < a_len
        invariant
            i <= a_len,
            a_len == a@.len(),
            b_len == b@.len(),
            a_len == b_len,
            forall|j: int| 0 <= j < i ==> ascii_lower(a@[j]) == ascii_lower(b@[j]),
        decreases a_len - i,
    {
        if lower(a.get_char(i)) != lower(b.get_char(i)) {
            return false;
        }
        i = i + 1;
    }
    true
}

/// Every character is ASCII.
pub open spec fn is_ascii(s: Seq<char>) -> bool {
    forall|i: int| 0 <= i < s.len() ==> (#[trigger] s[i]) as u32 <= 0x7f
}

/// Whether a character may stand in a header value read as text: visible ASCII or a tab.
pub open spec fn is_header_char(c: char) -> bool {
    c == '\t' || (' ' <= c && c <= '~')
}

/// Whether a header value can be read as text: all its characters are visible ASCII or tabs.
pub open spec fn is_header_text(s: Seq<char>) -> bool {
    forall|i: int| 0 <= i < s.len() ==> is_header_char(#[trigger] s[i])
}

/// The `Accept` header's text; empty when there is none, or when it cannot be read as text.
pub open spec fn accept_header(accept: Option<&str>) -> Seq<char> {
    match accept {
        Some(a) => if is_header_text(a@) {
            a@
        } else {
            ""@
        },
        None => ""@,
    }
}

fn header_text(s: &str) -> (r: bool)
    ensures
        r == is_header_text(s@),
{
    let n = s.unicode_len();
    let mut i: usize = 0;
    while i < n
        invariant
            i <= n,
            n == s@.len(),
            forall|j: int| 0 <= j < i ==> is_header_char(#[trigger] s@[j]),
        decreases n - i,
    {
        let c = s.get_char(i);
        if !(c == '\t' || (' ' <= c && c <= '~')) {
            assert(!is_header_char(s@[i as int]));
            return false;
        }
        i = i + 1;
    }
    true
}

/// Protobuf when some media type asks for it, text otherwise.
pub open spec fn format_for(types: Seq<(Seq<char>, Seq<char>)>) -> ResponseFormat {
    if exists|i: int| 0 <= i < types.len() && #[trigger] asks_for_protobuf(types[i]) {
        ResponseFormat::Protobuf
    } else {
        ResponseFormat::Text
    }
}

/// The media types as characters.
pub open spec fn media_types_view(types: Seq<(String, String)>) -> Seq<(Seq<char>, Seq<char>)> {
    types.map_values(|t: (String, String)| (t.0@, t.1@))
}

/// Chooses the response format for the media types of an `Accept` header: protobuf when one
/// of them asks for it, text otherwise.
pub fn choose_format(types: &[(String, String)]) -> (r: ResponseFormat)
    ensures
        r == format_for(media_types_view(types@)),
{
    let ghost ts = media_types_view(types@);
    let mut i: usize = 0;
    while i < types.len()
        invariant
            i <= types@.len(),
            ts == media_types_view(types@),
            forall|j: int| 0 <= j < i ==> !asks_for_protobuf(#[trigger] ts[j]),
        decreases types@.len() - i,
    {
        let (t, s) = &types[i];
        if same_ignoring_case(t.as_str(), "application") && (same_ignoring_case(
            s.as_str(),
            "vnd.google.protobuf",
        ) || same_ignoring_case(s.as_str(), "x-protobuf")) {
            assert(asks_for_protobuf(ts[i as int]));
            return ResponseFormat::Protobuf;
        }
        i = i + 1;
    }
    ResponseFormat::Text
}

/// Chooses the response format from the `Accept` header, if there is one and it can be read as
/// text (visible ASCII and tabs; any other header counts as none):
/// protobuf when one of the media types it lists asks for it, text otherwise.
pub fn negotiate_content_type(accept: Option<&str>) -> (r: ResponseFormat)
    ensures
        r == format_for(media_types(accept_header(accept))),
{
    let header = match accept {
        Some(a) => if header_text(a) {
            a
        } else {
            ""
        },
        None => "",
    };
    proof {
        reveal_strlit("");
        assert(header@ == accept_header(accept));
        assert forall|i: int| 0 <= i < header@.len() implies (#[trigger] header@[i]) as u32 <= 0x7f by {
            assert(is_header_char(header@[i]));
        }
    }
    let types = parse_media_types(header);
    proof {
        assert(media_types_view(types@) =~= media_types(header@));
    }
    choose_format(types.as_slice())
}

// ---------------------------------------------------------------------------------------------
// Who may scrape, and what a request is answered
// ---------------------------------------------------------------------------------------------

/// An IP address, as its bits.
pub enum IpAddress {
    V4(u32),
    V6(u128),
}

/// An IP network: an address and the length of its prefix.
pub enum IpNetwork {
    V4(u32, u8),
    V6(u128, u8),
}

impl IpNetwork {
    /// The network is well formed: its prefix is no longer than its address.
    pub open spec fn wf(self) -> bool {
        match self {
            IpNetwork::V4(_, prefix_len) => prefix_len <= 32,
            IpNetwork::V6(_, prefix_len) => prefix_len <= 128,
        }
    }

    /// The network holds the address: the same family, and the first `prefix_len` bits agree.
    pub open spec fn spec_contains(self, ip: IpAddress) -> bool {
        match (self, ip) {
            (IpNetwork::V4(addr, prefix_len), IpAddress::V4(a)) => prefix_len == 0 || (a >> (32
                - prefix_len) as u32) == (addr >> (32 - prefix_len) as u32),
            (IpNetwork::V6(addr, prefix_len), IpAddress::V6(a)) => prefix_len == 0 || (a >> (128
                - prefix_len) as u128) == (addr >> (128 - prefix_len) as u128),
            _ => false,
        }
    }

    /// Whether the network holds the address.
    pub fn contains(&self, ip: &IpAddress) -> (r: bool)
        requires
            self.wf(),
        ensures
            r == self.spec_contains(*ip),
    {
        match (self, ip) {
            (IpNetwork::V4(addr, prefix_len), IpAddress::V4(a)) => {
                if *prefix_len == 0 {
                    true
                } else {
                    let shift: u32 = 32 - (*prefix_len as u32);
                    (*a >> shift) == (*addr >> shift)
                }
            },
            (IpNetwork::V6(addr, prefix_len), IpAddress::V6(a)) => {
                if *prefix_len == 0 {
                    true
                } else {
                    let shift: u128 = 128 - (*prefix_len as u128);
                    (*a >> shift) == (*addr >> shift)
                }
            },
            _ => false,
        }
    }
}

/// Some network of `nets` holds `ip`.
pub open spec fn some_network_contains(nets: Seq<IpNetwork>, ip: IpAddress) -> bool {
    exists|i: int| 0 <= i < nets.len() && (#[trigger] nets[i]).spec_contains(ip)
}

/// A network of prefix length `p` holds exactly the addresses whose first `p` bits are its
/// own: those that agree with its address once the last `32 - p` (IPv4) or `128 - p` (IPv6)
/// bits are divided away. An address of the other family is never held.
pub proof fn lemma_network_holds_its_prefix(addr4: u32, a4: u32, addr6: u128, a6: u128, p: u8)
    ensures
        1 <= p <= 32 ==> (IpNetwork::V4(addr4, p).spec_contains(IpAddress::V4(a4)) <==> a4 as nat
            / vstd::arithmetic::power2::pow2((32 - p) as nat) == addr4 as nat
            / vstd::arithmetic::power2::pow2((32 - p) as nat)),
        1 <= p <= 128 ==> (IpNetwork::V6(addr6, p).spec_contains(IpAddress::V6(a6)) <==> a6 as nat
            / vstd::arithmetic::power2::pow2((128 - p) as nat) == addr6 as nat
            / vstd::arithmetic::power2::pow2((128 - p) as nat)),
        IpNetwork::V4(addr4, 0).spec_contains(IpAddress::V4(a4)),
        IpNetwork::V6(addr6, 0).spec_contains(IpAddress::V6(a6)),
        !IpNetwork::V4(addr4, p).spec_contains(IpAddress::V6(a6)),
        !IpNetwork::V6(addr6, p).spec_contains(IpAddress::V4(a4)),
{
    if 1 <= p <= 32 {
        let shift = (32 - p) as u32;
        vstd::bits::lemma_u32_shr_is_div(a4, shift);
        vstd::bits::lemma_u32_shr_is_div(addr4, shift);
    }
    if 1 <= p <= 128 {
        let shift = (128 - p) as u128;
        vstd::bits::lemma_u128_shr_is_div(a6, shift);
        vstd::bits::lemma_u128_shr_is_div(addr6, shift);
    }
}

/// Whether a client may scrape: always, without an allow-list; with one, only when its
/// address is known and some allowed network holds it.
pub open spec fn spec_allowed(allowed: Option<Seq<IpNetwork>>, peer: Option<IpAddress>) -> bool {
    match allowed {
        None => true,
        Some(nets) => match peer {
            None => false,
            Some(ip) => some_network_contains(nets, ip),
        },
    }
}

/// Decides whether a client may scrape (see [`spec_allowed`]); `peer` is `None` when the
/// client's address could not be read.
pub fn check_allowed(allowed: Option<&[IpNetwork]>, peer: Option<&IpAddress>) -> (r: bool)
    requires
        match allowed {
            Some(nets) => forall|i: int| 0 <= i < nets@.len() ==> (#[trigger] nets@[i]).wf(),
            None => true,
        },
    ensures
        r == spec_allowed(
            match allowed {
                Some(nets) => Some(nets@),
                None => None,
            },
            match peer {
                Some(ip) => Some(*ip),
                None => None,
            },
        ),
{
    let nets = match allowed {
        None => return true,
        Some(nets) => nets,
    };
    let ip = match peer {
        None => return false,
        Some(ip) => ip,
    };
    let mut i: usize = 0;
    while i < nets.len()
        invariant
            i <= nets@.len(),
            allowed == Some(nets),
            peer == Some(ip),
            forall|k: int| 0 <= k < nets@.len() ==> (#[trigger] nets@[k]).wf(),
            forall|k: int| 0 <= k < i ==> !(#[trigger] nets@[k]).spec_contains(*ip),
        decreases nets@.len() - i,
    {
        if nets[i].contains(ip) {
            assert(nets@[i as int].spec_contains(*ip));
            assert(some_network_contains(nets@, *ip));
            return true;
        }
        i = i + 1;
    }
    false
}

/// The answer to a scrape request.
pub enum Reply {
    /// `403 Forbidden`, with an empty body: the client may not scrape.
    Forbidden,
    /// `OK` as text: the health check.
    Health,
    /// The metrics, in this format.
    Metrics(ResponseFormat),
}

/// Answers a request: a client that may not scrape is refused; the path `/health` is the
/// health check; any other path gets the metrics, in the format the `Accept` header asks for.
pub fn reply_for(is_allowed: bool, path: &str, accept: Option<&str>) -> (r: Reply)
    ensures
        !is_allowed ==> r is Forbidden,
        is_allowed && path@ == "/health"@ ==> r is Health,
        is_allowed && path@ != "/health"@ ==> r == Reply::Metrics(
            format_for(media_types(accept_header(accept))),
        ),
{
    if !is_allowed {
        return Reply::Forbidden;
    }
    if str_eq(path, "/health") {
        return Reply::Health;
    }
    Reply::Metrics(negotiate_content_type(accept))
}

} // verus!
