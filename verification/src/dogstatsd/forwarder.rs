//! Forwarding payloads: the remote address, the forwarder configuration, and the client's
//! connection state machine.
use crate::formatting::{push_char, push_str};
use crate::labels::str_eq;
use std::time::Duration;
use vstd::prelude::*;

verus! {

broadcast use vstd::string::group_string_axioms;

/// Where payloads are sent.
///
/// A UDP address is held as given (`<host>:<port>`); it is resolved to socket addresses when
/// the client connects.
pub enum RemoteAddr {
    Udp(String),
    Unixgram(String),
    Unix(String),
}

/// A remote address as characters.
pub enum RemoteAddrView {
    Udp(Seq<char>),
    Unixgram(Seq<char>),
    Unix(Seq<char>),
}

impl View for RemoteAddr {
    type V = RemoteAddrView;

    open spec fn view(&self) -> RemoteAddrView {
        match self {
            RemoteAddr::Udp(a) => RemoteAddrView::Udp(a@),
            RemoteAddr::Unixgram(p) => RemoteAddrView::Unixgram(p@),
            RemoteAddr::Unix(p) => RemoteAddrView::Unix(p@),
        }
    }
}

/// `s` holds `://` at position `i`.
pub open spec fn separator_at(s: Seq<char>, i: int) -> bool {
    0 <= i && i + 3 <= s.len() && s[i] == ':' && s[i + 1] == '/' && s[i + 2] == '/'
}

/// The position of the first `://` in `s`, if there is one.
pub open spec fn first_separator(s: Seq<char>) -> Option<int> {
    if exists|i: int| #[trigger] separator_at(s, i) {
        Some(
            choose|i: int|
                #[trigger] separator_at(s, i) && forall|j: int| 0 <= j < i ==> !separator_at(s, j),
        )
    } else {
        None
    }
}

/// The error for an address with an unknown scheme.
pub open spec fn unknown_scheme_message(scheme: Seq<char>) -> Seq<char> {
    "invalid scheme '"@ + scheme + "' (expected 'udp', 'unix', or 'unixgram')"@
}

/// How an address is read: `<scheme>://<rest>` selects the transport by its scheme (`udp`,
/// `unix` or `unixgram`; any other is an error), split at the first `://`; an address without
/// a scheme is a UDP address.
pub open spec fn spec_parse_remote_addr(s: Seq<char>) -> Result<RemoteAddrView, Seq<char>> {
    match first_separator(s) {
        Some(i) => {
            let scheme = s.take(i);
            let rest = s.skip(i + 3);
            if scheme == "unix"@ {
                Ok(RemoteAddrView::Unix(rest))
            } else if scheme == "unixgram"@ {
                Ok(RemoteAddrView::Unixgram(rest))
            } else if scheme == "udp"@ {
                Ok(RemoteAddrView::Udp(rest))
            } else {
                Err(unknown_scheme_message(scheme))
            }
        },
        None => Ok(RemoteAddrView::Udp(s)),
    }
}

/// The view of a parse result.
pub open spec fn parse_result_view(r: Result<RemoteAddr, String>) -> Result<
    RemoteAddrView,
    Seq<char>,
> {
    match r {
        Ok(a) => Ok(a@),
        Err(e) => Err(e@),
    }
}

/// The characters of a string slice, in order.
fn chars_of(s: &str) -> (r: Vec<char>)
    ensures
        r@ == s@,
{
    let mut out: Vec<char> = Vec::new();
    for c in it: s.chars()
        invariant
            it.seq() == s@,
            out@ == it.seq().take(it.index() as int),
    {
        out.push(c);
        proof {
            assert(it.seq().take(it.index() as int + 1) =~= it.seq().take(it.index() as int).push(c));
        }
    }
    proof {
        assert(s@.take(s@.len() as int) =~= s@);
    }
    out
}

/// The characters `chars[from..to]` as a string.
fn string_of(chars: &Vec<char>, from: usize, to: usize) -> (r: String)
    requires
        from <= to <= chars@.len(),
    ensures
        r@ == chars@.subrange(from as int, to as int),
{
    let mut out = String::new();
    let mut i: usize = from;
    while i < to
        invariant
            from <= i <= to <= chars@.len(),
            out@ == chars@.subrange(from as int, i as int),
        decreases to - i,
    {
        push_char(&mut out, chars[i]);
        proof {
            assert(chars@.subrange(from as int, i + 1) =~= chars@.subrange(from as int, i as int).push(
                chars@[i as int],
            ));
        }
        i = i + 1;
    }
    out
}

/// The error message for an unknown scheme.
pub fn unknown_scheme_error_str(scheme: &str) -> (r: String)
    ensures
        r@ == unknown_scheme_message(scheme@),
{
    let mut out = String::new();
    push_str(&mut out, "invalid scheme '");
    push_str(&mut out, scheme);
    push_str(&mut out, "' (expected 'udp', 'unix', or 'unixgram')");
    proof {
        assert(out@ =~= unknown_scheme_message(scheme@));
    }
    out
}

/// The position of the first `://` in `chars`.
fn find_separator(chars: &Vec<char>) -> (r: Option<usize>)
    ensures
        match r {
            Some(i) => i + 3 <= chars@.len() && first_separator(chars@) == Some(i as int),
            None => first_separator(chars@) is None,
        },
{
    let n = chars.len();
    let mut i: usize = 0;
    while i <= n && n - i >= 3
        invariant
            i <= n,
            n == chars@.len(),
            forall|j: int| 0 <= j < i ==> !separator_at(chars@, j),
        decreases n - i,
    {
        if chars[i] == ':' && chars[i + 1] == '/' && chars[i + 2] == '/' {
            proof {
                let s = chars@;
                assert(separator_at(s, i as int));
                let k = choose|k: int|
                    #[trigger] separator_at(s, k) && forall|j: int| 0 <= j < k ==> !separator_at(s, j);
                if k > i {
                    assert(!separator_at(s, i as int));
                }
                assert(first_separator(s) == Some(i as int));
            }
            return Some(i);
        }
        i = i + 1;
    }
    proof {
        assert forall|j: int| !#[trigger] separator_at(chars@, j) by {
            if 0 <= j < i {
            }
        }
    }
    None
}

impl RemoteAddr {
    /// Reads a remote address: `<scheme>://<rest>`, where the scheme is `udp`, `unix` or
    /// `unixgram`, or a bare `<host>:<port>` for UDP.
    pub fn try_from(addr: &str) -> (r: Result<RemoteAddr, String>)
        ensures
            parse_result_view(r) == spec_parse_remote_addr(addr@),
    {
        let chars = chars_of(addr);
        let n = chars.len();
        match find_separator(&chars) {
            Some(i) => {
                let scheme = string_of(&chars, 0, i);
                let rest = string_of(&chars, i + 3, n);
                proof {
                    assert(scheme@ =~= addr@.take(i as int));
                    assert(rest@ =~= addr@.skip(i + 3));
                }
                if str_eq(scheme.as_str(), "unix") {
                    Ok(RemoteAddr::Unix(rest))
                } else if str_eq(scheme.as_str(), "unixgram") {
                    Ok(RemoteAddr::Unixgram(rest))
                } else if str_eq(scheme.as_str(), "udp") {
                    Ok(RemoteAddr::Udp(rest))
                } else {
                    Err(unknown_scheme_error_str(scheme.as_str()))
                }
            },
            None => {
                let whole = string_of(&chars, 0, n);
                proof {
                    assert(whole@ =~= addr@);
                }
                Ok(RemoteAddr::Udp(whole))
            },
        }
    }

    /// Returns the transport ID for the remote address: `udp`, `uds-stream` for a Unix stream
    /// socket, and `uds` for a Unix datagram socket.
    pub fn transport_id(&self) -> (r: &'static str)
        ensures
            r@ == match self@ {
                RemoteAddrView::Udp(_) => "udp"@,
                RemoteAddrView::Unix(_) => "uds-stream"@,
                RemoteAddrView::Unixgram(_) => "uds"@,
            },
    {
        match self {
            RemoteAddr::Udp(_) => "udp",
            RemoteAddr::Unix(_) => "uds-stream",
            RemoteAddr::Unixgram(_) => "uds",
        }
    }
}

/// Forwarder configuration.
pub struct ForwarderConfiguration {
    pub remote_addr: RemoteAddr,
    pub max_payload_len: usize,
    pub flush_interval: Duration,
    pub write_timeout: Duration,
}

impl ForwarderConfiguration {
    /// Returns `true` if the remote address requires a length prefix to be sent before each
    /// payload: Unix sockets do, UDP does not.
    pub fn is_length_prefixed(&self) -> (r: bool)
        ensures
            r == !(self.remote_addr@ is Udp),
    {
        match self.remote_addr {
            RemoteAddr::Udp(_) => false,
            RemoteAddr::Unix(_) => true,
            RemoteAddr::Unixgram(_) => true,
        }
    }
}

// ---------------------------------------------------------------------------------------------
// Client connection state
// ---------------------------------------------------------------------------------------------

/// The connection state of the forwarder's client.
pub enum ClientState {
    /// Between taking the state and putting a new one back; a failed connection attempt
    /// leaves the client here.
    Inconsistent,
    /// Not connected.
    Disconnected,
    /// Connected and ready to send.
    Ready,
}

/// What the client does next to send a payload.
pub enum ClientAction {
    /// Connect to the remote address.
    Connect,
    /// Send the payload.
    Send,
}

/// The outcome of a client action.
pub enum ClientOutcome {
    Connected,
    ConnectFailed,
    Sent,
    SendFailed,
}

impl ClientState {
    /// The action that sending a payload takes from this state: connect first when
    /// disconnected, send when ready. Sending from the inconsistent state is not possible.
    pub fn next_action(&self) -> (r: ClientAction)
        requires
            !(*self is Inconsistent),
        ensures
            (*self is Disconnected) == (r is Connect),
    {
        match self {
            ClientState::Ready => ClientAction::Send,
            _ => ClientAction::Connect,
        }
    }

    /// The state after an action, and whether the send attempt is over: a connection makes
    /// the client ready and the attempt goes on with the send; a failed connection ends the
    /// attempt with an error and leaves the client inconsistent; a send, successful or not,
    /// ends the attempt, leaving the client ready, or disconnected after a failure.
    pub fn after(outcome: ClientOutcome) -> (r: (ClientState, bool))
        ensures
            r == match outcome {
                ClientOutcome::Connected => (ClientState::Ready, false),
                ClientOutcome::ConnectFailed => (ClientState::Inconsistent, true),
                ClientOutcome::Sent => (ClientState::Ready, true),
                ClientOutcome::SendFailed => (ClientState::Disconnected, true),
            },
    {
        match outcome {
            ClientOutcome::Connected => (ClientState::Ready, false),
            ClientOutcome::ConnectFailed => (ClientState::Inconsistent, true),
            ClientOutcome::Sent => (ClientState::Ready, true),
            ClientOutcome::SendFailed => (ClientState::Disconnected, true),
        }
    }
}

/// How long to wait between payloads: the time left until the next flush, split evenly over
/// the remaining payloads and the flush itself.
pub fn inter_payload_sleep_nanos(remaining_nanos: u64, remaining_payloads: usize) -> (r: u64)
    requires
        (remaining_payloads as u32) < u32::MAX,
    ensures
        r as int == remaining_nanos as int / ((remaining_payloads as u32) as int + 1),
{
    let d: u64 = (remaining_payloads as u32) as u64 + 1;
    remaining_nanos / d
}

} // verus!
