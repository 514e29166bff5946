pub mod buf;
pub mod connect;
pub mod download;
pub mod message;
pub mod peer;
pub mod query;
pub mod stream;

use crate::ben::FormatError;
use crate::error::Fault;
use crate::torrent::info::{info_hash, piece_count, piece_len};
use crate::torrent::{loaded, Torrent};
use connect::{answer, Request};
use download::{parts_of, Download, DownloadView, Phase};
use peer::{compact, Peer};
use stream::Handshake;
use vstd::prelude::*;

verus! {

/// The id under which this client is known to trackers and peers.
pub open spec fn client_id() -> Seq<u8> {
    seq![98u8, 105, 116, 116, 111, 114, 114, 101, 110, 116, 45, 104, 101, 114, 110, 97, 110, 45, 114, 115]
}

/// A client for one descriptor: who it is, what it is after, and the peers it has learnt of.
#[derive(Debug)]
pub struct Client {
    pub id: crate::hash::Hash,
    pub torrent: Torrent,
    pub peers: Vec<Peer>,
}

impl Client {
    /// A client for `torrent` that knows no peer yet.
    pub fn new(torrent: Torrent) -> (r: Self)
        ensures
            r.id@ == client_id(),
            r.torrent == torrent,
            r.peers@.len() == 0,
    {
        let id: [u8; 20] = [98, 105, 116, 116, 111, 114, 114, 101, 110, 116, 45, 104, 101, 114, 110, 97, 110, 45, 114, 115];
        assert(id@ =~= client_id());
        Client { id: crate::hash::Hash::new(id), torrent, peers: Vec::new() }
    }

    /// A client for the descriptor that `bytes` hold.
    pub fn load(bytes: &[u8]) -> (r: Result<Self, FormatError>)
        ensures
            match loaded(bytes@) {
                Ok(t) => r matches Ok(c) && c.torrent@ == t && c.id@ == client_id() && c.peers@.len() == 0,
                Err(e) => r matches Err(x) && x == e,
            },
    {
        match Torrent::load(bytes) {
            Ok(t) => Ok(Client::new(t)),
            Err(e) => Err(e),
        }
    }

    /// What to tell the tracker.
    pub fn announce(&self) -> (r: Request)
        ensures
            r.info_hash@ == info_hash(self.torrent@.info),
            r.peer_id == self.id,
            r.port == connect::PORT,
            r.uploaded == 0,
            r.downloaded == 0,
            r.left == self.torrent@.info.length,
            r.compact == 1,
    {
        Request::new(self.id, &self.torrent)
    }

    /// Takes the peers from the tracker's answer, given its status and its
    /// body. Where the answer is a failure or malformed the client keeps the peers it had.
    pub fn discovered(&mut self, status: u16, body: &[u8]) -> (r: Result<(), Fault>)
        ensures
            final(self).id == old(self).id,
            final(self).torrent == old(self).torrent,
            match answer(status, body@) {
                Ok(p) => r is Ok && final(self).peers@.len() == p.len() / 6 && forall|i: int|
                    0 <= i < p.len() / 6 ==> compact(p.subrange(6 * i, 6 * i + 6), #[trigger] final(self).peers@[i]),
                Err(e) => r == Err::<(), Fault>(e) && final(self).peers == old(self).peers,
            },
    {
        match connect::answered(status, body) {
            Ok(peers) => {
                self.peers = peers;
                Ok(())
            },
            Err(e) => Err(e),
        }
    }

    /// The peer to turn to: the first that the tracker named, if it named any.
    pub fn next_peer(&self) -> (r: Option<Peer>)
        ensures
            match r {
                Some(p) => self.peers@.len() > 0 && p == self.peers@[0],
                None => self.peers@.len() == 0,
            },
    {
        if self.peers.len() > 0 {
            Some(self.peers[0])
        } else {
            None
        }
    }

    /// The handshake that opens a session for this descriptor.
    pub fn handshake(&self) -> (r: Handshake)
        ensures
            r.info_hash@ == info_hash(self.torrent@.info),
            r.peer_id == self.id,
    {
        Handshake::new(self.id, self.torrent.info.hash())
    }

    /// The exchange that fetches piece `index`, before anything has come from
    /// the peer. An index error where there is no such piece.
    pub fn download_piece(&self, index: u32) -> (r: Result<Download, Fault>)
        ensures
            match r {
                Ok(d) => index < piece_count(self.torrent@.info) && d@ == (DownloadView {
                    hash: self.torrent@.info.pieces.subrange(20 * index, 20 * index + 20),
                    parts: parts_of(index, piece_len(self.torrent@.info, index as int)),
                    phase: Phase::AwaitBitfield,
                    sent: 0,
                    buffer: Seq::empty(),
                }),
                Err(e) => index >= piece_count(self.torrent@.info) && e == Fault::Index,
            },
    {
        match self.torrent.fetch_index(index) {
            Ok(f) => {
                let d = Download::new(f);
                Ok(d)
            },
            Err(e) => Err(e),
        }
    }
}

} // verus!
