//! The address of a document: scheme, host, path and port.

use crate::networking::header::{request_text, Header, HeaderView};
use crate::text::{first_occurrence, occurs, same_text, split_once, substring, to_chars};
use vstd::pervasive::unreached;
use vstd::prelude::*;

verus! {

/// Whether `c` is a decimal digit.
pub open spec fn is_digit(c: char) -> bool {
    '0' <= c <= '9'
}

/// The number that a run of decimal digits spells.
pub open spec fn digits_value(s: Seq<char>) -> nat
    decreases s.len(),
{
    if s.len() == 0 {
        0
    } else {
        digits_value(s.drop_last()) * 10 + (s.last() as u32 - '0' as u32) as nat
    }
}

/// The port that `s` spells: an optional plus sign and then one decimal
/// digit or more, of a value below 65536.
pub open spec fn port_of(s: Seq<char>) -> Option<u16> {
    if s.len() > 0 && s[0] == '+' {
        unsigned_port_of(s.skip(1))
    } else {
        unsigned_port_of(s)
    }
}

/// The port that a run of digits spells.
pub open spec fn unsigned_port_of(digits: Seq<char>) -> Option<u16> {
    if digits.len() > 0 && (forall|i: int| 0 <= i < digits.len() ==> is_digit(digits[i]))
        && digits_value(digits) <= u16::MAX {
        Some(digits_value(digits) as u16)
    } else {
        None
    }
}

/// A longer run of digits spells no smaller a number.
proof fn lemma_digits_grow(s: Seq<char>, n: int)
    requires
        0 <= n <= s.len(),
    ensures
        digits_value(s.take(n)) <= digits_value(s),
    decreases s.len(),
{
    if n < s.len() {
        assert(s.drop_last().take(n) =~= s.take(n));
        lemma_digits_grow(s.drop_last(), n);
    } else {
        assert(s.take(n) =~= s);
    }
}

/// The port that the digits `s` spell.
fn parse_digits(s: &Vec<char>) -> (r: Option<u16>)
    ensures
        r == unsigned_port_of(s@),
{
    if s.len() == 0 {
        return None;
    }
    let mut value: u32 = 0;
    let mut i: usize = 0;
    assert(s@.take(0) =~= Seq::empty());
    while i < s.len()
        invariant
            i <= s.len(),
            value <= u16::MAX,
            value == digits_value(s@.take(i as int)),
            forall|k: int| 0 <= k < i ==> is_digit(s@[k]),
        decreases s.len() - i,
    {
        let c = s[i];
        if !('0' <= c && c <= '9') {
            assert(!is_digit(s@[i as int]));
            return None;
        }
        assert(s@.take(i + 1).drop_last() =~= s@.take(i as int));
        assert(s@.take(i + 1).last() == c);
        let next: u32 = value * 10 + (c as u32 - '0' as u32);
        if next > 65535 {
            proof {
                lemma_digits_grow(s@, i + 1);
            }
            return None;
        }
        value = next;
        i += 1;
    }
    assert(s@.take(s@.len() as int) =~= s@);
    Some(value as u16)
}

/// The port that `s` spells.
fn parse_port(s: &str) -> (r: Option<u16>)
    ensures
        r == port_of(s@),
{
    let chars = to_chars(s);
    if chars.len() > 0 && chars[0] == '+' {
        let digits = to_chars(substring(&chars, 1, chars.len()).as_str());
        assert(chars@.subrange(1, chars@.len() as int) =~= chars@.skip(1));
        parse_digits(&digits)
    } else {
        parse_digits(&chars)
    }
}

/// An address, taken apart. `host` holds the port too where the address
/// names one.
pub struct URL {
    pub scheme: String,
    pub host: String,
    pub path: String,
    pub port: u16,
}

/// The mathematical value of a [`URL`].
pub ghost struct UrlView {
    pub scheme: Seq<char>,
    pub host: Seq<char>,
    pub path: Seq<char>,
    pub port: u16,
}

impl View for URL {
    type V = UrlView;

    open spec fn view(&self) -> UrlView {
        UrlView { scheme: self.scheme@, host: self.host@, path: self.path@, port: self.port }
    }
}

/// What stands before the first `://`.
pub open spec fn scheme_of(url: Seq<char>) -> Seq<char> {
    url.take(first_occurrence(url, "://"@))
}

/// What stands after the first `://`.
pub open spec fn rest_of(url: Seq<char>) -> Seq<char> {
    url.skip(first_occurrence(url, "://"@) + 3)
}

/// The host: what stands after the scheme, up to the first slash.
pub open spec fn host_of(url: Seq<char>) -> Seq<char> {
    let rest = rest_of(url);
    if occurs(rest, "/"@) {
        rest.take(first_occurrence(rest, "/"@))
    } else {
        rest
    }
}

/// The path: a slash and what stands after the first slash behind the
/// scheme, or `/` alone where none does.
pub open spec fn path_of(url: Seq<char>) -> Seq<char> {
    let rest = rest_of(url);
    if occurs(rest, "/"@) {
        "/"@ + rest.skip(first_occurrence(rest, "/"@) + 1)
    } else {
        "/"@
    }
}

/// The port: what the host names after its first colon, or the scheme's
/// own, 80 for `http` and 443 otherwise.
pub open spec fn port_in(url: Seq<char>) -> Option<u16> {
    let host = host_of(url);
    if occurs(host, ":"@) {
        port_of(host.skip(first_occurrence(host, ":"@) + 1))
    } else if scheme_of(url) == "http"@ {
        Some(80)
    } else {
        Some(443)
    }
}

/// Whether `url` is an address that can be taken apart: it holds `://`
/// after the scheme `http` or `https`, and a port that its host names is a
/// number below 65536.
pub open spec fn is_url(url: Seq<char>) -> bool {
    &&& occurs(url, "://"@)
    &&& scheme_of(url) == "http"@ || scheme_of(url) == "https"@
    &&& port_in(url) is Some
}

/// The parts of the address `url`.
pub open spec fn url_of(url: Seq<char>) -> UrlView {
    UrlView {
        scheme: scheme_of(url),
        host: host_of(url),
        path: path_of(url),
        port: port_in(url).unwrap(),
    }
}

impl URL {
    /// Takes the address `url` apart, if it is one.
    pub fn parse(url: &str) -> (r: Option<URL>)
        ensures
            r is Some <==> is_url(url@),
            r matches Some(u) ==> u@ == url_of(url@),
    {
        proof {
            reveal_strlit("://");
            reveal_strlit("/");
            reveal_strlit(":");
        }
        let (scheme, rest) = match split_once(&to_chars(url), "://") {
            Some(parts) => parts,
            None => {
                return None;
            },
        };
        let is_http = same_text(scheme.as_str(), "http");
        if !is_http && !same_text(scheme.as_str(), "https") {
            return None;
        }
        let (host, path) = match split_once(&to_chars(rest.as_str()), "/") {
            Some((host, tail)) => {
                let mut path = "/".to_owned();
                path.append(tail.as_str());
                (host, path)
            },
            None => (rest, "/".to_owned()),
        };
        let port = match split_once(&to_chars(host.as_str()), ":") {
            Some((_, number)) => match parse_port(number.as_str()) {
                Some(port) => port,
                None => {
                    return None;
                },
            },
            None => if is_http {
                80
            } else {
                443
            },
        };
        Some(URL { scheme, host, path, port })
    }

    /// The request that asks `host` for `path`: a `GET` that accepts no
    /// encoding of the body.
    pub fn request_text(&self) -> (text: String)
        ensures
            text@ == request_text(
                HeaderView {
                    path: self.path@,
                    host: self.host@,
                    fields: seq![("Accept-Encoding"@, "identity"@)],
                },
            ),
    {
        let header = Header::new(self.path.as_str(), self.host.as_str()).add(
            "Accept-Encoding",
            "identity",
        );
        assert(header@.fields =~= seq![("Accept-Encoding"@, "identity"@)]);
        header.to_string()
    }

    /// Takes the address `url` apart.
    pub fn new(url: &str) -> (r: Self)
        requires
            is_url(url@),
        ensures
            r@ == url_of(url@),
    {
        match URL::parse(url) {
            Some(parsed) => parsed,
            None => unreached(),
        }
    }
}

} // verus!
