use crate::ben::{digits, digits_end, digits_value, scan_digits, FormatError};
use vstd::string::{StrSliceExecFns, StringExecFns, StringSliceAdditionalSpecFns};
use vstd::prelude::*;

verus! {

/// The address of a peer: four bytes of address and a port.
#[derive(Clone, Copy, Debug, PartialEq, Eq)]
pub struct Peer(pub [u8; 4], pub u16);

/// `peer` is what the compact entry `s` stands for: four bytes of address,
/// then the port in two bytes, the more significant first.
pub open spec fn compact(s: Seq<u8>, peer: Peer) -> bool {
    &&& s.len() == 6
    &&& peer.0@ == s.subrange(0, 4)
    &&& peer.1 == s[4] as int * 256 + s[5] as int
}

/// One number of a dotted address at `at`: one to three decimal digits, no
/// zero in front of another digit, at most 255. The result is the number and the index behind it.
pub open spec fn octet(s: Seq<u8>, at: int) -> Option<(int, int)> {
    let e = digits_end(s, at);
    let v = digits_value(s, at, e);
    if e == at || e - at > 3 || (e - at > 1 && s[at] == 0x30) || v > 255 {
        None
    } else {
        Some((v as int, e))
    }
}

/// A number of a dotted address at `at` that is followed by the byte `sep`.
pub open spec fn octet_then(s: Seq<u8>, at: int, sep: u8) -> Option<(int, int)> {
    match octet(s, at) {
        Some((v, e)) => if e < s.len() && s[e] == sep {
            Some((v, e + 1))
        } else {
            None
        },
        None => None,
    }
}

/// The address and the port that the text `a.b.c.d:port` gives: four
/// numbers of at most 255 each, and a port of at most 65535 in decimal digits.
pub open spec fn peer_text(s: Seq<u8>) -> Option<(Seq<u8>, int)> {
    match octet_then(s, 0, 0x2e) {
        Some((a, i)) => match octet_then(s, i, 0x2e) {
            Some((b, j)) => match octet_then(s, j, 0x2e) {
                Some((c, k)) => match octet_then(s, k, 0x3a) {
                    Some((d, m)) => {
                        let e = digits_end(s, m);
                        let port = digits_value(s, m, e);
                        if e == m || e != s.len() || port > 65535 {
                            None
                        } else {
                            Some((seq![a as u8, b as u8, c as u8, d as u8], port as int))
                        }
                    },
                    None => None,
                },
                None => None,
            },
            None => None,
        },
        None => None,
    }
}

/// The bytes of `s` as characters.
pub open spec fn as_text(s: Seq<u8>) -> Seq<char> {
    s.map_values(|b: u8| b as char)
}

/// A peer as text: the four numbers of its address with dots between, a colon, the port.
pub open spec fn peer_display(p: Peer) -> Seq<char> {
    as_text(digits(p.0@[0] as nat)) + seq!['.'] + as_text(digits(p.0@[1] as nat)) + seq!['.'] + as_text(
        digits(p.0@[2] as nat),
    ) + seq!['.'] + as_text(digits(p.0@[3] as nat)) + seq![':'] + as_text(digits(p.1 as nat))
}

fn read_octet(input: &[u8], at: usize, sep: u8) -> (r: Option<(u8, usize)>)
    requires
        at <= input@.len(),
    ensures
        match octet_then(input@, at as int, sep) {
            Some((v, e)) => r == Some((v as u8, e as usize)) && at < e <= input@.len() && 0 <= v <= 255,
            None => r is None,
        },
{
    let (n, over, e) = scan_digits(input, at);
    if e == at || e - at > 3 || (e - at > 1 && input[at] == 0x30) || over || n > 255 {
        return None;
    }
    if e < input.len() && input[e] == sep {
        Some((n as u8, e + 1))
    } else {
        None
    }
}

/// Writes the decimal digits of `n` behind the text `out`.
fn append_decimal(out: &mut String, n: u64)
    ensures
        final(out)@ == old(out)@ + as_text(digits(n as nat)),
    decreases n,
{
    if n >= 10 {
        append_decimal(out, n / 10);
    }
    let d: usize = (n % 10) as usize;
    proof {
        reveal_strlit("0123456789");
    }
    out.append("0123456789".substring_char(d, d + 1));
    assert(out@ =~= old(out)@ + as_text(digits(n as nat)));
}

impl Peer {
    /// Reads a peer from a compact entry. A shape error unless `bytes` are six.
    pub fn try_from(bytes: &[u8]) -> (r: Result<Peer, FormatError>)
        ensures
            match r {
                Ok(p) => compact(bytes@, p),
                Err(e) => bytes@.len() != 6 && e == FormatError::Shape,
            },
    {
        if bytes.len() != 6 {
            return Err(FormatError::Shape);
        }
        let ip: [u8; 4] = [bytes[0], bytes[1], bytes[2], bytes[3]];
        let port: u16 = (bytes[4] as u16) * 256 + (bytes[5] as u16);
        assert(ip@ =~= bytes@.subrange(0, 4));
        Ok(Peer(ip, port))
    }
    /// Reads a peer from the text `a.b.c.d:port`. A shape error for any other text.
    pub fn from_text(text: &[u8]) -> (r: Result<Peer, FormatError>)
        ensures
            match peer_text(text@) {
                Some((ip, port)) => r matches Ok(p) && p.0@ == ip && p.1 == port,
                None => r == Err::<Peer, FormatError>(FormatError::Shape),
            },
    {
        let (a, i) = match read_octet(text, 0, 0x2e) {
            Some(x) => x,
            None => {
                return Err(FormatError::Shape);
            },
        };
        let (b, j) = match read_octet(text, i, 0x2e) {
            Some(x) => x,
            None => {
                return Err(FormatError::Shape);
            },
        };
        let (c, k) = match read_octet(text, j, 0x2e) {
            Some(x) => x,
            None => {
                return Err(FormatError::Shape);
            },
        };
        let (d, m) = match read_octet(text, k, 0x3a) {
            Some(x) => x,
            None => {
                return Err(FormatError::Shape);
            },
        };
        let (port, over, e) = scan_digits(text, m);
        if e == m || e != text.len() || over || port > 65535 {
            return Err(FormatError::Shape);
        }
        let ip: [u8; 4] = [a, b, c, d];
        assert(ip@ =~= seq![a, b, c, d]);
        Ok(Peer(ip, port as u16))
    }

    /// The peer as text, `a.b.c.d:port`.
    pub fn to_string(&self) -> (r: String)
        ensures
            r@ == peer_display(*self),
    {
        proof {
            reveal_strlit(".");
            reveal_strlit(":");
        }
        let mut out = String::new();
        append_decimal(&mut out, self.0[0] as u64);
        out.append(".");
        append_decimal(&mut out, self.0[1] as u64);
        out.append(".");
        append_decimal(&mut out, self.0[2] as u64);
        out.append(".");
        append_decimal(&mut out, self.0[3] as u64);
        out.append(":");
        append_decimal(&mut out, self.1 as u64);
        assert(out@ =~= peer_display(*self));
        out
    }
}

impl core::str::FromStr for Peer {
    type Err = FormatError;

    /// Reads a peer from the text `a.b.c.d:port`. A shape error for any other text.
    fn from_str(s: &str) -> (r: Result<Self, FormatError>)
        ensures
            match peer_text(s.spec_bytes()) {
                Some((ip, port)) => r matches Ok(p) && p.0@ == ip && p.1 == port,
                None => r == Err::<Peer, FormatError>(FormatError::Shape),
            },
    {
        Peer::from_text(s.as_bytes())
    }
}

} // verus!
