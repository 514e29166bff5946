pub mod info;

use crate::ben::{lookup, parse_all, Ben, FormatError, Value};
use info::{key_length, key_name, key_piece_length, key_pieces, valid, Info, InfoView};
use vstd::prelude::*;
use vstd::slice::slice_to_vec;

verus! {

/// What a descriptor says: where the tracker is, and the description of the file.
pub struct TorrentView {
    pub announce: Seq<u8>,
    pub info: InfoView,
}

/// A descriptor of a shared file.
#[derive(Debug, PartialEq, Eq)]
pub struct Torrent {
    /// The tracker's address, as the descriptor gives it.
    pub announce: Vec<u8>,
    pub info: Info,
}

impl View for Torrent {
    type V = TorrentView;

    open spec fn view(&self) -> TorrentView {
        TorrentView { announce: self.announce@, info: self.info@ }
    }
}

/// The key `announce`.
pub open spec fn key_announce() -> Seq<u8> {
    seq![97u8, 110, 110, 111, 117, 110, 99, 101]
}

/// The key `info`.
pub open spec fn key_info() -> Seq<u8> {
    seq![105u8, 110, 102, 111]
}

/// The file description that the dictionary `v` holds, where it holds a valid one.
pub open spec fn info_of(v: Value) -> Option<InfoView> {
    match (lookup(v, key_length()), lookup(v, key_name()), lookup(v, key_piece_length()), lookup(v, key_pieces())) {
        (Some(Value::Int(l)), Some(Value::Bytes(n)), Some(Value::Int(p)), Some(Value::Bytes(h))) => {
            let i = InfoView { length: l, name: n, piece_length: p, pieces: h };
            if valid(i) {
                Some(i)
            } else {
                None
            }
        },
        _ => None,
    }
}

/// The descriptor that the value `v` holds, where it has the shape of one.
pub open spec fn descriptor_of(v: Value) -> Option<TorrentView> {
    match (lookup(v, key_announce()), lookup(v, key_info())) {
        (Some(Value::Bytes(a)), Some(i)) => match info_of(i) {
            Some(info) => Some(TorrentView { announce: a, info }),
            None => None,
        },
        _ => None,
    }
}

/// What `load` makes of the bytes `s`.
pub open spec fn loaded(s: Seq<u8>) -> Result<TorrentView, FormatError> {
    match parse_all(s) {
        Err(o) => Err(FormatError::Syntax { offset: o as usize }),
        Ok(v) => match descriptor_of(v) {
            Some(t) => Ok(t),
            None => Err(FormatError::Shape),
        },
    }
}

impl Info {
    /// Reads a file description from a decoded dictionary. A shape error
    /// where a field is missing or of the wrong kind, or the description is not valid.
    pub fn from_ben(b: &Ben) -> (r: Result<Info, FormatError>)
        ensures
            match info_of(b@) {
                Some(i) => r matches Ok(x) && x@ == i,
                None => r == Err::<Info, FormatError>(FormatError::Shape),
            },
    {
        let length = b.get(vec![108u8, 101, 110, 103, 116, 104].as_slice());
        let name = b.get(vec![110u8, 97, 109, 101].as_slice());
        let piece_length = b.get(vec![112u8, 105, 101, 99, 101, 32, 108, 101, 110, 103, 116, 104].as_slice());
        let pieces = b.get(vec![112u8, 105, 101, 99, 101, 115].as_slice());
        match (length, name, piece_length, pieces) {
            (Some(Ben::Number(l)), Some(Ben::String(n)), Some(Ben::Number(p)), Some(Ben::String(h))) => {
                if *l < 1 || *l > 0xffff_ffff || *p < 1 || *p > 0xffff_ffff {
                    return Err(FormatError::Shape);
                }
                Info::new(*l as u32, slice_to_vec(n.as_slice()), *p as u32, slice_to_vec(h.as_slice()))
            },
            _ => Err(FormatError::Shape),
        }
    }
}

impl Torrent {
    /// Reads a descriptor from a decoded value.
    pub fn from_ben(b: &Ben) -> (r: Result<Torrent, FormatError>)
        ensures
            match descriptor_of(b@) {
                Some(t) => r matches Ok(x) && x@ == t,
                None => r == Err::<Torrent, FormatError>(FormatError::Shape),
            },
    {
        let announce = b.get(vec![97u8, 110, 110, 111, 117, 110, 99, 101].as_slice());
        let info = b.get(vec![105u8, 110, 102, 111].as_slice());
        match (announce, info) {
            (Some(Ben::String(a)), Some(i)) => match Info::from_ben(i) {
                Ok(info) => Ok(Torrent { announce: slice_to_vec(a.as_slice()), info }),
                Err(e) => Err(e),
            },
            _ => Err(FormatError::Shape),
        }
    }

    /// Reads a descriptor from the bytes of a descriptor file: the bytes
    /// are decoded, then the decoded value is held to the shape of a descriptor.
    pub fn load(bytes: &[u8]) -> (r: Result<Torrent, FormatError>)
        ensures
            match loaded(bytes@) {
                Ok(t) => r matches Ok(x) && x@ == t,
                Err(e) => r == Err::<Torrent, FormatError>(e),
            },
    {
        match Ben::parse(bytes) {
            Ok(b) => Torrent::from_ben(&b),
            Err(e) => Err(e),
        }
    }
}

} // verus!
