//! Pushing metrics to a gateway: the basic authentication header.
use base64::engine::general_purpose::STANDARD;
use base64::Engine;
use vstd::prelude::*;
use vstd::utf8::encode_utf8;

verus! {

broadcast use vstd::string::group_string_axioms;

/// The character of a six-bit group in the standard base64 alphabet: `A`-`Z`, `a`-`z`, `0`-`9`,
/// `+` and `/`.
pub open spec fn base64_char(i: int) -> u8 {
    if i < 26 {
        (65 + i) as u8
    } else if i < 52 {
        (97 + i - 26) as u8
    } else if i < 62 {
        (48 + i - 52) as u8
    } else if i == 62 {
        43u8
    } else {
        47u8
    }
}

/// The four characters of a 24-bit group `n`, six bits each, most significant first.
pub open spec fn base64_quad(n: int) -> Seq<u8> {
    seq![
        base64_char((n / 262144) % 64),
        base64_char((n / 4096) % 64),
        base64_char((n / 64) % 64),
        base64_char(n % 64),
    ]
}

/// The standard base64 encoding (RFC 4648 alphabet, with padding) of `input`: each group of
/// three bytes becomes four characters; a last group of one or two bytes is filled with zero
/// bits and padded with `=` to four characters.
pub open spec fn base64_standard(input: Seq<u8>) -> Seq<u8>
    decreases input.len(),
{
    if input.len() == 0 {
        Seq::empty()
    } else if input.len() == 1 {
        base64_quad(input[0] as int * 65536).take(2) + seq![61u8, 61u8]
    } else if input.len() == 2 {
        base64_quad(input[0] as int * 65536 + input[1] as int * 256).take(3) + seq![61u8]
    } else {
        base64_quad(input[0] as int * 65536 + input[1] as int * 256 + input[2] as int)
            + base64_standard(input.skip(3))
    }
}

/// The length of the padded base64 encoding of `n` bytes.
pub open spec fn base64_padded_len(n: nat) -> int {
    4 * (n / 3) + if n % 3 > 0 {
        4int
    } else {
        0int
    }
}

/// `base64::engine::general_purpose::STANDARD.encode`: the padded standard base64 encoding of
/// the input, `4 * ceil(n / 3)` ASCII bytes long. The crate panics when that length does not fit
/// in a `usize`.
#[verifier::external_body]
fn encode_base64(input: &[u8]) -> (r: Vec<u8>)
    requires
        base64_padded_len(input@.len()) <= usize::MAX,
    ensures
        r@ == base64_standard(input@),
        r@.len() == base64_padded_len(input@.len()),
{
    STANDARD.encode(input).into_bytes()
}

/// The credentials as encoded: `username:` followed by the password, if any.
pub open spec fn credentials(username: Seq<char>, password: Option<Seq<char>>) -> Seq<u8> {
    encode_utf8(username) + seq![58u8] + match password {
        Some(p) => encode_utf8(p),
        None => Seq::empty(),
    }
}

/// `Basic ` in ASCII.
pub open spec fn basic_prefix() -> Seq<u8> {
    seq![66u8, 97u8, 115u8, 105u8, 99u8, 32u8]
}

fn append(v: &mut Vec<u8>, s: &[u8])
    ensures
        final(v)@ == old(v)@ + s@,
{
    let ghost start = v@;
    let mut i: usize = 0;
    while i < s.len()
        invariant
            i <= s@.len(),
            v@ == start + s@.take(i as int),
        decreases s.len() - i,
    {
        v.push(s[i]);
        proof {
            assert(s@.take(i as int + 1) =~= s@.take(i as int).push(s@[i as int]));
        }
        i = i + 1;
    }
    proof {
        assert(s@.take(s@.len() as int) =~= s@);
    }
}

/// A basic authentication header value from encoded credentials: `Basic ` followed by them.
pub fn basic_header(encoded: &[u8]) -> (r: Vec<u8>)
    ensures
        r@ == basic_prefix() + encoded@,
{
    let mut header: Vec<u8> = vec![66u8, 97u8, 115u8, 105u8, 99u8, 32u8];
    append(&mut header, encoded);
    header
}

/// The value of a basic authentication header: `Basic ` followed by the base64 encoding of
/// `username:password` (or `username:` without a password).
pub fn basic_auth(username: &str, password: Option<&str>) -> (r: Vec<u8>)
    requires
        base64_padded_len(
            (encode_utf8(username@).len() + 1 + match password {
                Some(p) => encode_utf8(p@).len(),
                None => 0,
            }) as nat,
        ) + 6 <= usize::MAX,
    ensures
        r@ == basic_prefix() + base64_standard(
            credentials(
                username@,
                match password {
                    Some(p) => Some(p@),
                    None => None,
                },
            ),
        ),
{
    let mut plain: Vec<u8> = Vec::new();
    append(&mut plain, username.as_bytes());
    plain.push(58u8);
    if let Some(p) = password {
        append(&mut plain, p.as_bytes());
    }
    let encoded = encode_base64(plain.as_slice());
    let header = basic_header(encoded.as_slice());
    proof {
        let pw = match password {
            Some(p) => Some(p@),
            None => None,
        };
        assert(plain@ =~= credentials(username@, pw));
    }
    header
}

} // verus!
