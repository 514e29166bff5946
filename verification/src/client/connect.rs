use super::peer::{compact, Peer};
use super::query::{form_encoded, form_urlencode, pairs_view};
use crate::ben::{digits, lookup, parse_all, push_decimal, Ben, FormatError, Value};
use crate::error::Fault;
use crate::hash::url_text;
use crate::torrent::Torrent;
use vstd::prelude::*;
use vstd::slice::{slice_subrange, slice_to_vec};
use vstd::string::StringExecFns;

verus! {

/// The port that the client declares to the tracker.
pub const PORT: u16 = 65535;

/// What the client tells the tracker.
#[derive(Clone, Copy, Debug)]
pub struct Request {
    pub info_hash: crate::hash::Hash,
    pub peer_id: crate::hash::Hash,
    pub port: u16,
    pub uploaded: u32,
    pub downloaded: u32,
    pub left: u32,
    pub compact: u8,
}

/// The fields of a request that go through the form encoding, in the order
/// in which they are written. The descriptor hash is not among them: it is binary, and is escaped byte by byte.
pub open spec fn query_pairs(q: Request) -> Seq<(Seq<char>, Seq<u8>)> {
    seq![
        ("peer_id"@, q.peer_id@),
        ("port"@, digits(q.port as nat)),
        ("uploaded"@, digits(q.uploaded as nat)),
        ("downloaded"@, digits(q.downloaded as nat)),
        ("left"@, digits(q.left as nat)),
        ("compact"@, digits(q.compact as nat)),
    ]
}

/// The query that is sent to the tracker, given the form encoding of the
/// fields of `query_pairs`: the descriptor hash is added behind them.
pub open spec fn query_text(encoded: Seq<char>, info_hash: Seq<u8>) -> Seq<char> {
    encoded + "&info_hash="@ + url_text(info_hash)
}

fn decimal(n: u64) -> (r: Vec<u8>)
    ensures
        r@ == digits(n as nat),
{
    let mut out: Vec<u8> = Vec::new();
    push_decimal(&mut out, n);
    assert(out@ =~= digits(n as nat));
    out
}

impl Request {
    /// The request of the client `id` for the file of `t`: nothing has
    /// been uploaded or downloaded, the whole file is left, and the peers are
    /// asked for in compact form.
    pub fn new(id: crate::hash::Hash, t: &Torrent) -> (r: Self)
        ensures
            r.info_hash@ == crate::torrent::info::info_hash(t@.info),
            r.peer_id == id,
            r.port == PORT,
            r.uploaded == 0,
            r.downloaded == 0,
            r.left == t@.info.length,
            r.compact == 1,
    {
        Request {
            info_hash: t.info.hash(),
            peer_id: id,
            port: PORT,
            uploaded: 0,
            downloaded: 0,
            left: t.info.length(),
            compact: 1,
        }
    }

    /// Puts the query together from the outcome of the form encoding:
    /// behind the encoded fields comes the descriptor hash, every byte of
    /// it escaped. Where the encoding failed, the result is a shape error.
    pub fn query_from(&self, encoded: Result<String, serde_urlencoded::ser::Error>) -> (r: Result<String, Fault>)
        ensures
            match encoded {
                Ok(s) => r matches Ok(q) && q@ == query_text(s@, self.info_hash@),
                Err(_) => r == Err::<String, Fault>(Fault::Format(FormatError::Shape)),
            },
    {
        match encoded {
            Ok(s) => {
                let mut q = s;
                q.append("&info_hash=");
                q.append(self.info_hash.url_encoded().as_str());
                Ok(q)
            },
            Err(_) => Err(Fault::Format(FormatError::Shape)),
        }
    }

    /// The query of the announce: the form encoding of the fields, then
    /// the descriptor hash. A shape error exactly where the form encoding
    /// refuses the fields, which it does for a client id that is no text.
    pub fn url_encoded(&self) -> (r: Result<String, Fault>)
        ensures
            match form_encoded(query_pairs(*self)) {
                Some(text) => r matches Ok(q) && q@ == query_text(text, self.info_hash@),
                None => r == Err::<String, Fault>(Fault::Format(FormatError::Shape)),
            },
    {
        let mut pairs: Vec<(String, Vec<u8>)> = Vec::new();
        pairs.push(("peer_id".to_owned(), slice_to_vec(self.peer_id.as_bytes())));
        pairs.push(("port".to_owned(), decimal(self.port as u64)));
        pairs.push(("uploaded".to_owned(), decimal(self.uploaded as u64)));
        pairs.push(("downloaded".to_owned(), decimal(self.downloaded as u64)));
        pairs.push(("left".to_owned(), decimal(self.left as u64)));
        pairs.push(("compact".to_owned(), decimal(self.compact as u64)));
        assert(pairs_view(pairs@) =~= query_pairs(*self));
        self.query_from(form_urlencode(&pairs))
    }
}

/// The key `peers`.
pub open spec fn key_peers() -> Seq<u8> {
    seq![112u8, 101, 101, 114, 115]
}

/// The compact peer list that a tracker's answer holds: the fault where
/// the answer is no term, is no dictionary with a byte string under `peers`,
/// or that string is not made of entries of six bytes.
pub open spec fn answer_peers(body: Seq<u8>) -> Result<Seq<u8>, FormatError> {
    match parse_all(body) {
        Err(o) => Err(FormatError::Syntax { offset: o as usize }),
        Ok(v) => match lookup(v, key_peers()) {
            Some(Value::Bytes(p)) => if p.len() % 6 == 0 {
                Ok(p)
            } else {
                Err(FormatError::Shape)
            },
            _ => Err(FormatError::Shape),
        },
    }
}

/// Reads the peers from the body of a tracker's answer, in the order in
/// which the answer lists them. An answer with no peers is in order.
pub fn discover(body: &[u8]) -> (r: Result<Vec<Peer>, Fault>)
    ensures
        match answer_peers(body@) {
            Ok(p) => r matches Ok(v) && v@.len() == p.len() / 6 && forall|i: int|
                0 <= i < v@.len() ==> compact(p.subrange(6 * i, 6 * i + 6), #[trigger] v@[i]),
            Err(e) => r == Err::<Vec<Peer>, Fault>(Fault::Format(e)),
        },
{
    let term = match Ben::parse(body) {
        Ok(t) => t,
        Err(e) => {
            return Err(Fault::Format(e));
        },
    };
    let blob: &[u8] = match term.get(vec![112u8, 101, 101, 114, 115].as_slice()) {
        Some(Ben::String(p)) => p.as_slice(),
        _ => {
            return Err(Fault::Format(FormatError::Shape));
        },
    };
    if blob.len() % 6 != 0 {
        return Err(Fault::Format(FormatError::Shape));
    }
    let n: usize = blob.len() / 6;
    let mut out: Vec<Peer> = Vec::new();
    let mut i: usize = 0;
    while i < n
        invariant
            0 <= i <= n,
            n == blob@.len() / 6,
            blob@.len() % 6 == 0,
            blob@.len() <= usize::MAX,
            out@.len() == i,
            forall|k: int| 0 <= k < i ==> compact(blob@.subrange(6 * k, 6 * k + 6), #[trigger] out@[k]),
        decreases n - i,
    {
        match Peer::try_from(slice_subrange(blob, 6 * i, 6 * i + 6)) {
            Ok(p) => {
                out.push(p);
            },
            Err(_) => {
                assert(false);
            },
        }
        i += 1;
    }
    Ok(out)
}

/// What a tracker's answer with status `status` and body `body` comes to: a
/// network error unless the status says success, else what the body holds.
pub open spec fn answer(status: u16, body: Seq<u8>) -> Result<Seq<u8>, Fault> {
    if !(200 <= status < 300) {
        Err(Fault::Network)
    } else {
        match answer_peers(body) {
            Ok(p) => Ok(p),
            Err(e) => Err(Fault::Format(e)),
        }
    }
}

/// Reads the peers from a tracker's answer. A status other than success is
/// a network error, whatever the body holds; a malformed body is a format error.
pub fn answered(status: u16, body: &[u8]) -> (r: Result<Vec<Peer>, Fault>)
    ensures
        match answer(status, body@) {
            Ok(p) => r matches Ok(v) && v@.len() == p.len() / 6 && forall|i: int|
                0 <= i < v@.len() ==> compact(p.subrange(6 * i, 6 * i + 6), #[trigger] v@[i]),
            Err(e) => r == Err::<Vec<Peer>, Fault>(e),
        },
{
    if status < 200 || status >= 300 {
        return Err(Fault::Network);
    }
    discover(body)
}

} // verus!
