use crate::ben::{bytes_less, dict_view, encode, lemma_view_dict, less_from, Ben, FormatError, Value, MAX_DEPTH};
use crate::canonical::{canonical, keys_ascending, lemma_encode_injective};
use crate::error::Fault;
use crate::hash::sha1_digest;
use vstd::prelude::*;
use vstd::slice::slice_to_vec;

verus! {

/// What a file description says: the file's name and length, the length of
/// a piece, and the fingerprints of the pieces, 20 bytes each, one behind the other.
pub struct InfoView {
    pub length: int,
    pub name: Seq<u8>,
    pub piece_length: int,
    pub pieces: Seq<u8>,
}

/// The number of fingerprints that `v` holds.
pub open spec fn piece_count(v: InfoView) -> int {
    v.pieces.len() as int / 20
}

/// The number of pieces that a file of `v.length` bytes falls into.
pub open spec fn pieces_needed(v: InfoView) -> int {
    (v.length + v.piece_length - 1) / v.piece_length
}

/// Both lengths are positive and fit in 32 bits, and there is one whole
/// fingerprint for each piece of the file.
pub open spec fn valid(v: InfoView) -> bool {
    &&& 1 <= v.length <= u32::MAX
    &&& 1 <= v.piece_length <= u32::MAX
    &&& v.pieces.len() % 20 == 0
    &&& piece_count(v) == pieces_needed(v)
}

/// Where piece `index` starts in the file.
pub open spec fn piece_offset(v: InfoView, index: int) -> int {
    index * v.piece_length
}

/// The length of piece `index`: the piece length, but for the last piece,
/// which holds what is left of the file.
pub open spec fn piece_len(v: InfoView, index: int) -> int {
    if index + 1 < piece_count(v) {
        v.piece_length
    } else {
        v.length - v.piece_length * (piece_count(v) - 1)
    }
}

/// The lengths of the first `n` pieces, added up.
pub open spec fn pieces_total(v: InfoView, n: int) -> int
    decreases n,
{
    if n <= 0 {
        0
    } else {
        pieces_total(v, n - 1) + piece_len(v, n - 1)
    }
}

/// The key `length`.
pub open spec fn key_length() -> Seq<u8> {
    seq![108u8, 101, 110, 103, 116, 104]
}

/// The key `name`.
pub open spec fn key_name() -> Seq<u8> {
    seq![110u8, 97, 109, 101]
}

/// The key `piece length`.
pub open spec fn key_piece_length() -> Seq<u8> {
    seq![112u8, 105, 101, 99, 101, 32, 108, 101, 110, 103, 116, 104]
}

/// The key `pieces`.
pub open spec fn key_pieces() -> Seq<u8> {
    seq![112u8, 105, 101, 99, 101, 115]
}

/// The dictionary that stands for `v` in a descriptor, its keys in ascending order.
pub open spec fn info_value(v: InfoView) -> Value {
    Value::Dict(
        seq![
            (key_length(), Value::Int(v.length)),
            (key_name(), Value::Bytes(v.name)),
            (key_piece_length(), Value::Int(v.piece_length)),
            (key_pieces(), Value::Bytes(v.pieces)),
        ],
    )
}

/// The content hash of a description: the digest of the canonical encoding
/// of its dictionary, whatever bytes it was first read from.
pub open spec fn info_hash(v: InfoView) -> Seq<u8> {
    sha1_digest(encode(info_value(v)))
}

/// A piece of a valid description lies within the file and is not empty.
pub proof fn lemma_piece_bounds(v: InfoView, index: int)
    requires
        valid(v),
        0 <= index < piece_count(v),
    ensures
        0 < piece_len(v, index) <= v.piece_length,
        piece_offset(v, index) + piece_len(v, index) <= v.length,
        index + 1 < piece_count(v) ==> piece_offset(v, index + 1) == piece_offset(v, index) + piece_len(v, index),
        index + 1 == piece_count(v) ==> piece_offset(v, index) + piece_len(v, index) == v.length,
{
    let l = v.length;
    let p = v.piece_length;
    let c = piece_count(v);
    assert(p * (c - 1) < l && l <= p * c) by (nonlinear_arith)
        requires
            l >= 1,
            p >= 1,
            c == (l + p - 1) / p,
    ;
    assert(index * p + p <= p * (c - 1) || index + 1 == c) by (nonlinear_arith)
        requires
            0 <= index < c,
            p >= 1,
    ;
    assert(index + 1 == c ==> index * p == p * (c - 1)) by (nonlinear_arith);
    assert(p * c == p * (c - 1) + p) by (nonlinear_arith);
    assert((index + 1) * p == index * p + p) by (nonlinear_arith);
}

/// The pieces of a valid description, one behind the other, make up the file:
/// the first `n` of them reach to where piece `n` starts, and all of them together are `v.length` bytes.
pub proof fn lemma_pieces_cover(v: InfoView, n: int)
    requires
        valid(v),
        0 <= n <= piece_count(v),
    ensures
        n < piece_count(v) ==> pieces_total(v, n) == piece_offset(v, n),
        n == piece_count(v) ==> pieces_total(v, n) == v.length,
    decreases n,
{
    if n > 0 {
        lemma_pieces_cover(v, n - 1);
        lemma_piece_bounds(v, n - 1);
    } else {
        assert(piece_count(v) >= 1) by (nonlinear_arith)
            requires
                v.length >= 1,
                v.piece_length >= 1,
                piece_count(v) == (v.length + v.piece_length - 1) / v.piece_length,
        ;
        assert(0 * v.piece_length == 0);
    }
}

/// The dictionary of a valid description is one that the decoder can give back.
pub proof fn lemma_info_value_canonical(v: InfoView)
    requires
        valid(v),
    ensures
        canonical(info_value(v), MAX_DEPTH as nat),
{
    let d = info_value(v)->Dict_0;
    reveal_with_fuel(less_from, 8);
    assert(bytes_less(key_length(), key_name()));
    assert(bytes_less(key_length(), key_piece_length()));
    assert(bytes_less(key_length(), key_pieces()));
    assert(bytes_less(key_name(), key_piece_length()));
    assert(bytes_less(key_name(), key_pieces()));
    assert(bytes_less(key_piece_length(), key_pieces()));
    assert(keys_ascending(d));
    assert forall|i: int| 0 <= i < d.len() implies canonical((#[trigger] d[i]).1, (MAX_DEPTH - 1) as nat) by {
        if i == 0 {
            assert(d[i].1 == Value::Int(v.length));
        } else if i == 1 {
            assert(d[i].1 == Value::Bytes(v.name));
        } else if i == 2 {
            assert(d[i].1 == Value::Int(v.piece_length));
        } else {
            assert(d[i].1 == Value::Bytes(v.pieces));
        }
    }
}

/// The content hash of a description is the digest of bytes that the
/// description alone determines, and those bytes tell descriptions apart:
/// two valid descriptions have the same canonical encoding only if they
/// agree in every field, name, length, piece length and fingerprints.
pub proof fn lemma_info_encoding_tells(a: InfoView, b: InfoView)
    requires
        valid(a),
        valid(b),
    ensures
        a == b ==> info_hash(a) == info_hash(b),
        encode(info_value(a)) == encode(info_value(b)) ==> a == b,
{
    if encode(info_value(a)) == encode(info_value(b)) {
        lemma_info_value_canonical(a);
        lemma_info_value_canonical(b);
        lemma_encode_injective(info_value(a), info_value(b));
        let x = info_value(a)->Dict_0;
        let y = info_value(b)->Dict_0;
        assert(x[0].1 == y[0].1);
        assert(x[1].1 == y[1].1);
        assert(x[2].1 == y[2].1);
        assert(x[3].1 == y[3].1);
    }
}

/// The description of the shared file.
#[derive(Debug, PartialEq, Eq)]
pub struct Info {
    length: u32,
    name: Vec<u8>,
    piece_length: u32,
    pieces: Vec<u8>,
}

impl View for Info {
    type V = InfoView;

    closed spec fn view(&self) -> InfoView {
        InfoView {
            length: self.length as int,
            name: self.name@,
            piece_length: self.piece_length as int,
            pieces: self.pieces@,
        }
    }
}

impl Info {
    #[verifier::type_invariant]
    spec fn well_formed(self) -> bool {
        valid(self@)
    }

    /// Makes a description. Fails with a shape error unless both lengths
    /// are positive and `pieces` holds one whole fingerprint for each piece.
    pub fn new(length: u32, name: Vec<u8>, piece_length: u32, pieces: Vec<u8>) -> (r: Result<Info, FormatError>)
        ensures
            match r {
                Ok(info) => info@ == (InfoView {
                    length: length as int,
                    name: name@,
                    piece_length: piece_length as int,
                    pieces: pieces@,
                }) && valid(info@),
                Err(e) => e == FormatError::Shape && !valid(
                    InfoView { length: length as int, name: name@, piece_length: piece_length as int, pieces: pieces@ },
                ),
            },
    {
        if length == 0 || piece_length == 0 || pieces.len() % 20 != 0 {
            return Err(FormatError::Shape);
        }
        let needed: u64 = (length as u64 + piece_length as u64 - 1) / (piece_length as u64);
        if (pieces.len() / 20) as u64 != needed {
            return Err(FormatError::Shape);
        }
        Ok(Info { length, name, piece_length, pieces })
    }

    /// The length of the file in bytes.
    pub fn length(&self) -> (r: u32)
        ensures
            r == self@.length,
            valid(self@),
    {
        proof {
            use_type_invariant(self);
        }
        self.length
    }

    /// The name of the file, as raw bytes.
    pub fn name(&self) -> (r: &[u8])
        ensures
            r@ == self@.name,
    {
        self.name.as_slice()
    }

    /// The length of every piece but the last.
    pub fn piece_length(&self) -> (r: u32)
        ensures
            r == self@.piece_length,
            valid(self@),
    {
        proof {
            use_type_invariant(self);
        }
        self.piece_length
    }

    /// The content hash of the description: its dictionary is encoded
    /// anew in canonical form, and those bytes are hashed.
    pub fn hash(&self) -> (r: crate::hash::Hash)
        ensures
            r@ == info_hash(self@),
    {
        let mut entries: Vec<(Vec<u8>, Ben)> = Vec::new();
        entries.push((vec![108u8, 101, 110, 103, 116, 104], Ben::Number(self.length as i64)));
        entries.push((vec![110u8, 97, 109, 101], Ben::String(slice_to_vec(self.name.as_slice()))));
        entries.push(
            (vec![112u8, 105, 101, 99, 101, 32, 108, 101, 110, 103, 116, 104], Ben::Number(self.piece_length as i64)),
        );
        entries.push((vec![112u8, 105, 101, 99, 101, 115], Ben::String(slice_to_vec(self.pieces.as_slice()))));
        proof {
            lemma_view_dict(entries);
            assert(dict_view(entries@) =~= info_value(self@)->Dict_0);
        }
        let term = Ben::Dict(entries);
        let bytes = term.encode();
        crate::hash::Hash::encode(bytes.as_slice())
    }

    /// The fingerprint of piece `index`, or an index error where there is no such piece.
    pub fn piece_at(&self, index: usize) -> (r: Result<crate::hash::Hash, Fault>)
        ensures
            match r {
                Ok(h) => index < piece_count(self@) && h@ == self@.pieces.subrange(20 * index, 20 * index + 20),
                Err(e) => index >= piece_count(self@) && e == Fault::Index,
            },
    {
        if index >= self.pieces.len() / 20 {
            return Err(Fault::Index);
        }
        Ok(crate::hash::Hash::copy_from(self.pieces.as_slice(), 20 * index))
    }

    /// The fingerprints of all pieces, in the order of the pieces.
    pub fn pieces(&self) -> (r: Vec<crate::hash::Hash>)
        ensures
            r@.len() == piece_count(self@),
            forall|i: int| 0 <= i < r@.len() ==> (#[trigger] r@[i])@ == self@.pieces.subrange(20 * i, 20 * i + 20),
    {
        crate::hash::Hash::build(self.pieces.as_slice())
    }

    /// The number of pieces: at least one.
    pub fn piece_count(&self) -> (r: usize)
        ensures
            r == piece_count(self@),
            r == pieces_needed(self@),
            valid(self@),
    {
        proof {
            use_type_invariant(self);
        }
        self.pieces.len() / 20
    }

    /// Where piece `index` lies in the file: its offset and its length.
    /// An index error where there is no such piece.
    pub fn piece_range(&self, index: usize) -> (r: Result<(u64, u32), Fault>)
        ensures
            match r {
                Ok((offset, length)) => index < piece_count(self@) && offset == piece_offset(self@, index as int)
                    && length == piece_len(self@, index as int) && length > 0,
                Err(e) => index >= piece_count(self@) && e == Fault::Index,
            },
    {
        proof {
            use_type_invariant(self);
        }
        let count: usize = self.pieces.len() / 20;
        if index >= count {
            return Err(Fault::Index);
        }
        proof {
            lemma_piece_bounds(self@, index as int);
            assert(index * self@.piece_length <= self@.length) by (nonlinear_arith)
                requires
                    piece_offset(self@, index as int) == index * self@.piece_length,
                    piece_offset(self@, index as int) <= self@.length,
            ;
        }
        let offset: u64 = (index as u64) * (self.piece_length as u64);
        let length: u32 = if index + 1 < count {
            self.piece_length
        } else {
            (self.length as u64 - offset) as u32
        };
        Ok((offset, length))
    }
}

} // verus!
