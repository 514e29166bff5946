use vstd::array::array_as_slice;
use vstd::prelude::*;
use vstd::string::StringExecFns;

verus! {

/// The result of SHA-1 on `data`: always 20 bytes.
pub uninterp spec fn sha1_digest(data: Seq<u8>) -> Seq<u8>;

/// `sha1::Sha1::digest`, the SHA-1 hash of `data`. Trusted: the 20 bytes
/// that come back are what the name `sha1_digest` stands for on these bytes.
#[verifier::external_body]
fn sha1_of(data: &[u8]) -> (r: [u8; 20])
    ensures
        r@ == sha1_digest(data@),
{
    <sha1::Sha1 as sha1::Digest>::digest(data).into()
}

/// The lower-case hexadecimal digit of `n`, for `n` below 16.
pub open spec fn hex_digit(n: int) -> char {
    if n < 10 {
        ((0x30 + n) as u8) as char
    } else {
        ((0x57 + n) as u8) as char
    }
}

/// `data` in hexadecimal: two lower-case digits for each byte, the high half first.
pub open spec fn hex_text(data: Seq<u8>) -> Seq<char> {
    Seq::new(
        2 * data.len(),
        |i: int| if i % 2 == 0 { hex_digit(data[i / 2] as int / 16) } else { hex_digit(data[i / 2] as int % 16) },
    )
}

/// `data` as a query value in which every byte is escaped: `%` and the
/// two hexadecimal digits of each byte.
pub open spec fn url_text(data: Seq<u8>) -> Seq<char> {
    Seq::new(
        3 * data.len(),
        |i: int| if i % 3 == 0 { '%' } else if i % 3 == 1 { hex_digit(data[i / 3] as int / 16) } else { hex_digit(data[i / 3] as int % 16) },
    )
}

/// `hex::encode`. Trusted: the string holds, for each byte of `data` in
/// turn, the lower-case digit of its high four bits and then that of its low four bits.
#[verifier::external_body]
fn hex_encode(data: &[u8]) -> (r: String)
    ensures
        r@ == hex_text(data@),
{
    hex::encode(data)
}

/// A 20-byte digest.
#[derive(Clone, Copy, Debug, PartialEq, Eq)]
pub struct Hash(pub [u8; 20]);

impl View for Hash {
    type V = Seq<u8>;

    open spec fn view(&self) -> Seq<u8> {
        self.0@
    }
}

impl Hash {
    /// The 20 bytes of the digest.
    pub fn as_bytes(&self) -> (r: &[u8])
        ensures
            r@ == self@,
            r@.len() == 20,
    {
        array_as_slice(&self.0)
    }

    /// The digest in hexadecimal, 40 lower-case digits.
    pub fn digest(&self) -> (r: String)
        ensures
            r@ == hex_text(self@),
            r@.len() == 40,
    {
        hex_encode(self.as_bytes())
    }

    /// The digest as a query value, every byte escaped.
    pub fn url_encoded(&self) -> (r: String)
        ensures
            r@ == url_text(self@),
            r@.len() == 60,
    {
        let dgs = self.digest();
        let mut out = String::new();
        let mut i: usize = 0;
        while i < 20
            invariant
                0 <= i <= 20,
                dgs@ == hex_text(self@),
                self@.len() == 20,
                out@ == url_text(self@).subrange(0, 3 * i),
            decreases 20 - i,
        {
            proof {
                reveal_strlit("%");
            }
            let ghost before = out@;
            out.append("%");
            out.append(dgs.as_str().substring_char(2 * i, 2 * i + 2));
            i += 1;
            assert(out@ =~= url_text(self@).subrange(0, 3 * i));
        }
        assert(out@ =~= url_text(self@));
        out
    }

    /// The digest that holds the bytes `b`.
    pub fn new(b: [u8; 20]) -> (r: Self)
        ensures
            r@ == b@,
            r.0 == b,
    {
        Hash(b)
    }

    /// The SHA-1 digest of `data`.
    pub fn encode(data: &[u8]) -> (r: Self)
        ensures
            r@ == sha1_digest(data@),
    {
        Hash(sha1_of(data))
    }

    /// Tells whether two digests hold the same bytes.
    pub fn same(&self, other: &Hash) -> (r: bool)
        ensures
            r == (self@ == other@),
    {
        crate::ben::bytes_equal(self.as_bytes(), other.as_bytes())
    }

    /// The digest that stands in `data` at index `at`.
    pub(crate) fn copy_from(data: &[u8], at: usize) -> (r: Self)
        requires
            at + 20 <= data@.len(),
        ensures
            r@ == data@.subrange(at as int, at + 20),
    {
        let mut b: [u8; 20] = [0u8; 20];
        let mut j: usize = 0;
        let len: usize = data.len();
        while j < 20
            invariant
                0 <= j <= 20,
                at + 20 <= data@.len() == len,
                forall|k: int| 0 <= k < j ==> b@[k] == data@[at + k],
            decreases 20 - j,
        {
            b[j] = data[at + j];
            j += 1;
        }
        assert(b@ =~= data@.subrange(at as int, at + 20));
        Hash(b)
    }

    /// Cuts `data` into digests of 20 bytes each. Bytes behind the last
    /// whole digest are left out.
    pub fn build(data: &[u8]) -> (r: Vec<Hash>)
        ensures
            r@.len() == data@.len() / 20,
            forall|i: int| 0 <= i < r@.len() ==> (#[trigger] r@[i])@ == data@.subrange(20 * i, 20 * i + 20),
    {
        let n: usize = data.len() / 20;
        let mut out: Vec<Hash> = Vec::new();
        let mut i: usize = 0;
        while i < n
            invariant
                0 <= i <= n,
                n == data@.len() / 20,
                data@.len() <= usize::MAX,
                out@.len() == i,
                forall|k: int| 0 <= k < i ==> (#[trigger] out@[k])@ == data@.subrange(20 * k, 20 * k + 20),
            decreases n - i,
        {
            out.push(Hash::copy_from(data, 20 * i));
            i += 1;
        }
        out
    }
}

} // verus!
