use super::buf::{be32, unread};
use super::message::payload::{Piece, Request};
use super::message::{Code, Incoming, Outgoing};
use super::stream::{frame, Decodable, Encodable};
use crate::ben::FormatError;
use crate::error::Fault;
use crate::hash::sha1_digest;
use crate::torrent::info::{piece_count, piece_len, valid, InfoView};
use crate::torrent::Torrent;
use bytes::Bytes;
use vstd::prelude::*;

verus! {

/// The most bytes that one request asks for.
pub const CHUNK_SIZE: u32 = 16384;

/// The number of requests that a piece of `len` bytes takes.
pub open spec fn chunk_count(len: int) -> int {
    (len + CHUNK_SIZE - 1) / (CHUNK_SIZE as int)
}

/// The `k`-th request for a piece of `len` bytes: a whole chunk, or what is left of the piece.
pub open spec fn part(index: u32, len: int, k: int) -> Request {
    Request {
        index,
        begin: (k * CHUNK_SIZE) as u32,
        length: (if len - k * CHUNK_SIZE < CHUNK_SIZE {
            len - k * CHUNK_SIZE
        } else {
            CHUNK_SIZE as int
        }) as u32,
    }
}

/// The requests for a piece of `len` bytes, in the order in which they are sent.
pub open spec fn parts_of(index: u32, len: int) -> Seq<Request> {
    Seq::new(chunk_count(len) as nat, |k: int| part(index, len, k))
}

/// The lengths of the first `n` requests for a piece of `len` bytes, added up.
pub open spec fn parts_total(index: u32, len: int, n: int) -> int
    decreases n,
{
    if n <= 0 {
        0
    } else {
        parts_total(index, len, n - 1) + part(index, len, n - 1).length
    }
}

/// The requests for a piece follow one another without a gap, none is
/// empty or longer than a chunk, and together they ask for the whole piece.
pub proof fn lemma_parts_cover(index: u32, len: int, n: int)
    requires
        0 < len <= u32::MAX,
        0 <= n <= chunk_count(len),
    ensures
        forall|k: int| 0 <= k < chunk_count(len) ==> 0 < (#[trigger] part(index, len, k)).length <= CHUNK_SIZE,
        forall|k: int| 0 <= k < chunk_count(len) ==> (#[trigger] part(index, len, k)).begin == k * CHUNK_SIZE,
        n < chunk_count(len) ==> parts_total(index, len, n) == n * CHUNK_SIZE,
        n == chunk_count(len) ==> parts_total(index, len, n) == len,
    decreases n,
{
    let c = chunk_count(len);
    assert(16384 * (c - 1) < len && len <= 16384 * c);
    if n > 0 {
        lemma_parts_cover(index, len, n - 1);
    }
}

/// What to fetch for one piece: its fingerprint, and the requests that cover it.
#[derive(Debug)]
pub struct Fetch {
    pub hash: crate::hash::Hash,
    pub parts: Vec<Request>,
}

/// `f` is the plan for piece `index` of `info`.
pub open spec fn planned(info: InfoView, index: u32, f: Fetch) -> bool {
    &&& f.hash@ == info.pieces.subrange(20 * index, 20 * index + 20)
    &&& f.parts@ == parts_of(index, piece_len(info, index as int))
}

impl Torrent {
    /// The plan for piece `index`: an index error where there is no such piece.
    pub fn fetch_index(&self, index: u32) -> (r: Result<Fetch, Fault>)
        ensures
            match r {
                Ok(f) => index < piece_count(self@.info) && planned(self@.info, index, f),
                Err(e) => index >= piece_count(self@.info) && e == Fault::Index,
            },
    {
        let hash = match self.info.piece_at(index as usize) {
            Ok(h) => h,
            Err(e) => {
                return Err(e);
            },
        };
        let len: u32 = match self.info.piece_range(index as usize) {
            Ok((_, l)) => l,
            Err(e) => {
                return Err(e);
            },
        };
        let mut parts: Vec<Request> = Vec::new();
        let mut begin: u32 = 0;
        proof {
            lemma_parts_cover(index, len as int, 0);
        }
        while begin < len
            invariant
                0 < len,
                parts@.len() * CHUNK_SIZE == begin || (begin == len && parts@.len() == chunk_count(len as int)),
                parts@.len() <= chunk_count(len as int),
                begin <= len,
                forall|k: int| 0 <= k < parts@.len() ==> parts@[k] == part(index, len as int, k),
            decreases len - begin,
        {
            let left: u32 = len - begin;
            let size: u32 = if left < CHUNK_SIZE {
                left
            } else {
                CHUNK_SIZE
            };
            parts.push(Request::new(index, begin, size));
            begin = begin + size;
        }
        assert(parts@ =~= parts_of(index, len as int));
        Ok(Fetch { hash, parts })
    }

    /// The plans for all pieces, in the order of the pieces.
    pub fn fetch_all(&self) -> (r: Vec<Fetch>)
        ensures
            r@.len() == piece_count(self@.info),
            forall|i: int| 0 <= i < r@.len() ==> planned(self@.info, i as u32, #[trigger] r@[i]),
    {
        let count: usize = self.info.piece_count();
        let mut out: Vec<Fetch> = Vec::new();
        let mut i: usize = 0;
        while i < count
            invariant
                0 <= i <= count,
                count == piece_count(self@.info),
                valid(self@.info),
                out@.len() == i,
                forall|k: int| 0 <= k < i ==> planned(self@.info, k as u32, #[trigger] out@[k]),
            decreases count - i,
        {
            assert(count <= u32::MAX) by (nonlinear_arith)
                requires
                    count == (self@.info.length + self@.info.piece_length - 1) / self@.info.piece_length,
                    1 <= self@.info.length <= u32::MAX,
                    1 <= self@.info.piece_length,
            ;
            match self.fetch_index(i as u32) {
                Ok(f) => {
                    out.push(f);
                },
                Err(_) => {
                    assert(false);
                },
            }
            i += 1;
        }
        out
    }
}

/// Where the exchange for one piece stands.
#[derive(Clone, Copy, Debug, PartialEq, Eq, Structural)]
pub enum Phase {
    /// The peer's bitfield is awaited.
    AwaitBitfield,
    /// Interest was declared; the peer's unchoke is awaited.
    AwaitUnchoke,
    /// A request was sent; its block is awaited.
    AwaitPiece,
    /// The piece came whole and matches its fingerprint.
    Done,
    /// The exchange failed; what had come of the piece is discarded.
    Failed,
}

/// What the caller is to do next.
#[derive(Debug)]
pub enum Action {
    /// Write these bytes to the peer, then hand in the next message that comes.
    Send(Bytes),
    /// The piece is verified: these are its bytes.
    Done(Vec<u8>),
    /// Give up on this piece.
    Fail(Fault),
}

/// An action, as the values it holds.
pub enum ActionView {
    Send(Seq<u8>),
    Done(Seq<u8>),
    Fail(Fault),
}

impl View for Action {
    type V = ActionView;

    open spec fn view(&self) -> ActionView {
        match self {
            Action::Send(b) => ActionView::Send(unread(*b)),
            Action::Done(d) => ActionView::Done(d@),
            Action::Fail(e) => ActionView::Fail(*e),
        }
    }
}

/// The state of the exchange for one piece.
pub struct DownloadView {
    /// The fingerprint that the piece must match.
    pub hash: Seq<u8>,
    /// The requests to send, in order.
    pub parts: Seq<Request>,
    pub phase: Phase,
    /// How many of the requests have been sent.
    pub sent: int,
    /// The bytes of the piece that have come so far.
    pub buffer: Seq<u8>,
}

/// `w` with its length in four bytes in front.
pub open spec fn framed(w: Seq<u8>) -> Seq<u8> {
    be32(w.len() as u32) + w
}

/// The exchange has failed with `e`: what had come is discarded.
pub open spec fn fail(d: DownloadView, e: Fault) -> (DownloadView, ActionView) {
    (DownloadView { phase: Phase::Failed, buffer: Seq::empty(), ..d }, ActionView::Fail(e))
}

/// The peer may be asked: the next request goes out, one at a time. When
/// none is left the piece is held to its fingerprint, and is handed
/// out only if it matches.
pub open spec fn proceed(d: DownloadView) -> (DownloadView, ActionView) {
    if 0 <= d.sent < d.parts.len() {
        (
            DownloadView { phase: Phase::AwaitPiece, sent: d.sent + 1, ..d },
            ActionView::Send(framed(seq![Code::Request.value()] + d.parts[d.sent].wire())),
        )
    } else if sha1_digest(d.buffer) == d.hash {
        (DownloadView { phase: Phase::Done, ..d }, ActionView::Done(d.buffer))
    } else {
        fail(d, Fault::Integrity)
    }
}

/// The exchange after a message with code `code` and payload `body` has come.
pub open spec fn after(d: DownloadView, code: Code, body: Seq<u8>) -> (DownloadView, ActionView) {
    match d.phase {
        Phase::AwaitBitfield => if code == Code::Bitfield {
            (DownloadView { phase: Phase::AwaitUnchoke, ..d }, ActionView::Send(framed(seq![Code::Interested.value()])))
        } else {
            fail(d, Fault::Protocol)
        },
        Phase::AwaitUnchoke => if code == Code::Unchoke {
            proceed(d)
        } else {
            fail(d, Fault::Protocol)
        },
        Phase::AwaitPiece => if code != Code::Piece {
            fail(d, Fault::Protocol)
        } else if body.len() < 8 {
            fail(d, Fault::Format(FormatError::Shape))
        } else {
            proceed(DownloadView { buffer: d.buffer + body.skip(8), ..d })
        },
        _ => fail(d, Fault::Protocol),
    }
}

/// A piece is handed out only if its bytes hash to its fingerprint, and a
/// failed exchange holds no bytes.
pub proof fn lemma_integrity_gate(d: DownloadView, code: Code, body: Seq<u8>)
    ensures
        after(d, code, body).1 matches ActionView::Done(bytes) ==> sha1_digest(bytes) == d.hash,
        after(d, code, body).1 is Fail ==> after(d, code, body).0.phase == Phase::Failed && after(
            d,
            code,
            body,
        ).0.buffer.len() == 0,
        after(d, code, body).1 is Done <==> after(d, code, body).0.phase == Phase::Done,
{
}

/// The exchange for one piece, driven message by message.
#[derive(Debug)]
pub struct Download {
    fetch: Fetch,
    phase: Phase,
    sent: usize,
    buffer: Vec<u8>,
}

impl View for Download {
    type V = DownloadView;

    closed spec fn view(&self) -> DownloadView {
        DownloadView {
            hash: self.fetch.hash@,
            parts: self.fetch.parts@,
            phase: self.phase,
            sent: self.sent as int,
            buffer: self.buffer@,
        }
    }
}

impl Download {
    /// The exchange for `fetch`, before anything has come from the peer.
    pub fn new(fetch: Fetch) -> (r: Self)
        ensures
            r@ == (DownloadView {
                hash: fetch.hash@,
                parts: fetch.parts@,
                phase: Phase::AwaitBitfield,
                sent: 0,
                buffer: Seq::empty(),
            }),
    {
        Download { fetch, phase: Phase::AwaitBitfield, sent: 0, buffer: Vec::new() }
    }

    /// Where the exchange stands.
    pub fn phase(&self) -> (r: Phase)
        ensures
            r == self@.phase,
    {
        self.phase
    }

    fn fail(&mut self, e: Fault) -> (r: Action)
        ensures
            (final(self)@, r@) == self::fail(old(self)@, e),
    {
        self.phase = Phase::Failed;
        self.buffer = Vec::new();
        Action::Fail(e)
    }

    fn proceed(&mut self) -> (r: Action)
        ensures
            (final(self)@, r@) == self::proceed(old(self)@),
    {
        if self.sent < self.fetch.parts.len() {
            let out = Outgoing::request(self.fetch.parts[self.sent]);
            self.phase = Phase::AwaitPiece;
            self.sent = self.sent + 1;
            Action::Send(frame(&out))
        } else {
            let got = crate::hash::Hash::encode(self.buffer.as_slice());
            if got.same(&self.fetch.hash) {
                self.phase = Phase::Done;
                let mut bytes: Vec<u8> = Vec::new();
                bytes.extend_from_slice(self.buffer.as_slice());
                assert(bytes@ =~= self.buffer@);
                Action::Done(bytes)
            } else {
                self.fail(Fault::Integrity)
            }
        }
    }

    /// Takes the next message from the peer and says what to do next. The
    /// exchange is strictly in turn: the bitfield, then the unchoke, then
    /// one block for each request.
    pub fn on_message(&mut self, msg: &Incoming) -> (r: Action)
        ensures
            (final(self)@, r@) == after(old(self)@, msg.code, msg.body()),
    {
        match self.phase {
            Phase::AwaitBitfield => match msg.expect(Code::Bitfield) {
                Ok(_) => {
                    self.phase = Phase::AwaitUnchoke;
                    Action::Send(frame(&Code::Interested))
                },
                Err(e) => self.fail(e),
            },
            Phase::AwaitUnchoke => match msg.expect(Code::Unchoke) {
                Ok(_) => self.proceed(),
                Err(e) => self.fail(e),
            },
            Phase::AwaitPiece => match msg.expect(Code::Piece) {
                Ok(_) => match msg.payload::<Piece>() {
                    Ok(p) => {
                        proof {
                            let rest = choose|rest: Seq<u8>| Piece::decodes(msg.body(), p, rest);
                            assert(p.data@ == msg.body().skip(8));
                        }
                        self.buffer.extend_from_slice(p.data.as_slice());
                        assert(self@.buffer == old(self)@.buffer + msg.body().skip(8));
                        self.proceed()
                    },
                    Err(e) => self.fail(e),
                },
                Err(e) => self.fail(e),
            },
            _ => self.fail(Fault::Protocol),
        }
    }
}

/// What the download of a whole file does next.
#[derive(Clone, Copy, Debug, PartialEq, Eq)]
pub enum Turn {
    /// Fetch the piece with this index over a session of its own, and keep it.
    Fetch(usize),
    /// Every piece is there and verified: put them together in the order of their indices.
    Join,
    /// A piece failed: give up the whole download and write no output.
    Abort(Fault),
}

/// The turn after `done` of `count` pieces have been fetched, the last
/// attempt having ended as `last`. One failure ends the download; otherwise
/// the pieces are fetched one by one in the order of their indices.
pub open spec fn turn_after(count: usize, done: usize, last: Result<(), Fault>) -> Turn {
    match last {
        Err(e) => Turn::Abort(e),
        Ok(_) => if done < count {
            Turn::Fetch(done)
        } else {
            Turn::Join
        },
    }
}

/// Says what the download of a whole file does next.
pub fn next_turn(count: usize, done: usize, last: Result<(), Fault>) -> (r: Turn)
    ensures
        r == turn_after(count, done, last),
{
    match last {
        Err(e) => Turn::Abort(e),
        Ok(_) => if done < count {
            Turn::Fetch(done)
        } else {
            Turn::Join
        },
    }
}

/// The byte strings `parts[0..n]`, one behind the other.
pub open spec fn joined(parts: Seq<Seq<u8>>, n: int) -> Seq<u8>
    decreases n,
{
    if n <= 0 || n > parts.len() {
        Seq::empty()
    } else {
        joined(parts, n - 1) + parts[n - 1]
    }
}

/// The file that the verified pieces make up: the pieces one behind the
/// other in the order of their indices.
pub fn assemble(pieces: &Vec<Vec<u8>>) -> (r: Vec<u8>)
    ensures
        r@ == joined(pieces@.map_values(|p: Vec<u8>| p@), pieces@.len() as int),
{
    let mut out: Vec<u8> = Vec::new();
    let mut i: usize = 0;
    while i < pieces.len()
        invariant
            0 <= i <= pieces@.len(),
            out@ == joined(pieces@.map_values(|p: Vec<u8>| p@), i as int),
        decreases pieces@.len() - i,
    {
        out.extend_from_slice(pieces[i].as_slice());
        i += 1;
    }
    out
}

/// Pieces of the lengths that a valid description gives make up a file of
/// exactly the length that it gives.
pub proof fn lemma_assembled_length(info: InfoView, pieces: Seq<Seq<u8>>, n: int)
    requires
        valid(info),
        pieces.len() == piece_count(info),
        forall|i: int| 0 <= i < pieces.len() ==> (#[trigger] pieces[i]).len() == piece_len(info, i),
        0 <= n <= pieces.len(),
    ensures
        joined(pieces, n).len() == crate::torrent::info::pieces_total(info, n),
        n == pieces.len() ==> joined(pieces, n).len() == info.length,
    decreases n,
{
    if n > 0 {
        lemma_assembled_length(info, pieces, n - 1);
    }
    crate::torrent::info::lemma_pieces_cover(info, n);
}

} // verus!
