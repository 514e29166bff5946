use crate::canonical::{canonical, lemma_parsed_canonical};
use vstd::prelude::*;
use vstd::slice::slice_subrange;

verus! {

/// A decoded term: the mathematical value that a `Ben` stands for.
/// A dictionary is the sequence of its entries.
pub enum Value {
    Bytes(Seq<u8>),
    Int(int),
    List(Seq<Value>),
    Dict(Seq<(Seq<u8>, Value)>),
}

/// A term of the encoding, as held in memory. The decoder keeps the entries
/// of a dictionary in ascending order of their keys, each key once.
#[derive(Debug, PartialEq, Eq)]
pub enum Ben {
    String(Vec<u8>),
    Number(i64),
    List(Vec<Ben>),
    Dict(Vec<(Vec<u8>, Ben)>),
}

/// Malformed input.
#[derive(Clone, Copy, Debug, PartialEq, Eq)]
pub enum FormatError {
    /// The bytes are no term of the encoding: `offset` is the index of the
    /// byte at which the fault was found.
    Syntax { offset: usize },
    /// The bytes are a term, but not of the shape that was asked for.
    Shape,
}

/// How deep lists and dictionaries may nest in input that the decoder accepts.
pub const MAX_DEPTH: usize = 64;

impl Ben {
    /// The value that the term stands for.
    pub open spec fn view(&self) -> Value
        decreases self,
    {
        match self {
            Ben::String(s) => Value::Bytes(s@),
            Ben::Number(n) => Value::Int(*n as int),
            Ben::List(v) => Value::List(
                Seq::new(v@.len(), |i: int| if 0 <= i < v@.len() { v@[i].view() } else { Value::Int(0) }),
            ),
            Ben::Dict(m) => Value::Dict(
                Seq::new(
                    m@.len(),
                    |i: int| if 0 <= i < m@.len() { (m@[i].0@, m@[i].1.view()) } else { (Seq::empty(), Value::Int(0)) },
                ),
            ),
        }
    }
}

/// The values of a sequence of terms.
pub open spec fn list_view(v: Seq<Ben>) -> Seq<Value> {
    Seq::new(v.len(), |i: int| v[i]@)
}

/// The entries of a dictionary held in memory.
pub open spec fn dict_view(m: Seq<(Vec<u8>, Ben)>) -> Seq<(Seq<u8>, Value)> {
    Seq::new(m.len(), |i: int| (m[i].0@, m[i].1@))
}

/// The value of a list is the list of the values of its items.
pub proof fn lemma_view_list(v: Vec<Ben>)
    ensures
        Ben::List(v)@ == Value::List(list_view(v@)),
{
    assert(Ben::List(v)@->List_0 =~= list_view(v@));
}

/// The value of a dictionary is the sequence of its entries, each key with the value bound to it.
pub proof fn lemma_view_dict(m: Vec<(Vec<u8>, Ben)>)
    ensures
        Ben::Dict(m)@ == Value::Dict(dict_view(m@)),
{
    assert(Ben::Dict(m)@->Dict_0 =~= dict_view(m@));
}

// ---------------------------------------------------------------------
// The grammar
// ---------------------------------------------------------------------

/// `c` is one of the decimal digits `0` to `9`.
pub open spec fn is_digit(c: u8) -> bool {
    0x30 <= c <= 0x39
}

/// The first index from `at` on that holds no decimal digit.
pub open spec fn digits_end(s: Seq<u8>, at: int) -> int
    decreases s.len() - at,
{
    if 0 <= at < s.len() && is_digit(s[at]) {
        digits_end(s, at + 1)
    } else {
        at
    }
}

/// The number that the decimal digits `s[from..to]` write.
pub open spec fn digits_value(s: Seq<u8>, from: int, to: int) -> nat
    decreases to - from,
{
    if to <= from {
        0
    } else {
        (digits_value(s, from, to - 1) * 10 + (s[to - 1] - 0x30)) as nat
    }
}

/// Lexicographic order of byte strings: `a` comes strictly before `b`,
/// compared from index `i` on.
pub open spec fn less_from(a: Seq<u8>, b: Seq<u8>, i: int) -> bool
    decreases a.len() - i,
{
    if i < 0 || i >= b.len() {
        false
    } else if i >= a.len() {
        true
    } else if a[i] != b[i] {
        a[i] < b[i]
    } else {
        less_from(a, b, i + 1)
    }
}

/// `a` comes strictly before `b` in the order of raw byte values.
pub open spec fn bytes_less(a: Seq<u8>, b: Seq<u8>) -> bool {
    less_from(a, b, 0)
}

/// Where an entry with key `k` belongs in `d`: the first index from `i` on
/// whose key does not come before `k`.
pub open spec fn slot_from(d: Seq<(Seq<u8>, Value)>, k: Seq<u8>, i: int) -> int
    decreases d.len() - i,
{
    if 0 <= i < d.len() && bytes_less(d[i].0, k) {
        slot_from(d, k, i + 1)
    } else {
        i
    }
}

/// `d` with `k` bound to `v`: a binding that `d` has for `k` is replaced.
pub open spec fn dict_insert(d: Seq<(Seq<u8>, Value)>, k: Seq<u8>, v: Value) -> Seq<(Seq<u8>, Value)> {
    let p = slot_from(d, k, 0);
    if p < d.len() && d[p].0 == k {
        d.update(p, (k, v))
    } else {
        d.insert(p, (k, v))
    }
}

/// The value that the entries `d` bind to `k`, looked for from index `i` on.
pub open spec fn lookup_from(d: Seq<(Seq<u8>, Value)>, k: Seq<u8>, i: int) -> Option<Value>
    decreases d.len() - i,
{
    if i < 0 || i >= d.len() {
        None
    } else if d[i].0 == k {
        Some(d[i].1)
    } else {
        lookup_from(d, k, i + 1)
    }
}

/// The value that the dictionary `v` binds to `k`. A value that is no dictionary binds nothing.
pub open spec fn lookup(v: Value, k: Seq<u8>) -> Option<Value> {
    match v {
        Value::Dict(d) => lookup_from(d, k, 0),
        _ => None,
    }
}

/// A byte string at `at`: `<decimal length>:<raw bytes>`. The result is the
/// string and the index behind it, or the index of the fault.
pub open spec fn parse_bytes(s: Seq<u8>, at: int) -> Result<(Seq<u8>, int), int> {
    let e = digits_end(s, at);
    let n = digits_value(s, at, e);
    if e == at {
        Err(at)
    } else if e >= s.len() || s[e] != 0x3a {
        Err(e)
    } else if n > s.len() - (e + 1) {
        Err(at)
    } else {
        Ok((s.subrange(e + 1, e + 1 + n), e + 1 + n))
    }
}

/// An integer at `at`: `i<decimal, optional leading '-'>e`, within 64 bits.
pub open spec fn parse_int(s: Seq<u8>, at: int) -> Result<(int, int), int> {
    if !(0 <= at < s.len()) || s[at] != 0x69 {
        Err(at)
    } else {
        let neg = at + 1 < s.len() && s[at + 1] == 0x2d;
        let q = if neg { at + 2 } else { at + 1 };
        let e = digits_end(s, q);
        let n = digits_value(s, q, e);
        let v = if neg { -(n as int) } else { n as int };
        if e == q {
            Err(q)
        } else if e >= s.len() || s[e] != 0x65 {
            Err(e)
        } else if v < i64::MIN || v > i64::MAX {
            Err(at)
        } else {
            Ok((v, e + 1))
        }
    }
}

/// A term at `at`, nested at most `depth` deep.
pub open spec fn parse_value(s: Seq<u8>, at: int, depth: nat) -> Result<(Value, int), int>
    decreases depth, s.len() - at, 2nat,
{
    if at < 0 || at >= s.len() {
        Err(at)
    } else if is_digit(s[at]) {
        match parse_bytes(s, at) {
            Ok((b, n)) => Ok((Value::Bytes(b), n)),
            Err(e) => Err(e),
        }
    } else if s[at] == 0x69 {
        match parse_int(s, at) {
            Ok((i, n)) => Ok((Value::Int(i), n)),
            Err(e) => Err(e),
        }
    } else if s[at] == 0x6c {
        match parse_list(s, at, depth) {
            Ok((l, n)) => Ok((Value::List(l), n)),
            Err(e) => Err(e),
        }
    } else if s[at] == 0x64 {
        match parse_dict(s, at, depth) {
            Ok((d, n)) => Ok((Value::Dict(d), n)),
            Err(e) => Err(e),
        }
    } else {
        Err(at)
    }
}

/// A list at `at`: `l<items>e`, its items nested less than `depth` deep.
pub open spec fn parse_list(s: Seq<u8>, at: int, depth: nat) -> Result<(Seq<Value>, int), int>
    decreases depth, s.len() - at, 1nat,
{
    if at < 0 || at >= s.len() || s[at] != 0x6c || depth == 0 {
        Err(at)
    } else {
        parse_items(s, at + 1, (depth - 1) as nat, Seq::empty())
    }
}

/// A dictionary at `at`: `d<key, value pairs>e`, its values nested less than `depth` deep.
pub open spec fn parse_dict(s: Seq<u8>, at: int, depth: nat) -> Result<(Seq<(Seq<u8>, Value)>, int), int>
    decreases depth, s.len() - at, 1nat,
{
    if at < 0 || at >= s.len() || s[at] != 0x64 || depth == 0 {
        Err(at)
    } else {
        parse_entries(s, at + 1, (depth - 1) as nat, Seq::empty())
    }
}

/// The items of a list from `at` up to its closing `e`, behind the items `acc`.
pub open spec fn parse_items(s: Seq<u8>, at: int, depth: nat, acc: Seq<Value>) -> Result<
    (Seq<Value>, int),
    int,
>
    decreases depth, s.len() - at, 3nat,
{
    if at < 0 || at >= s.len() {
        Err(at)
    } else if s[at] == 0x65 {
        Ok((acc, at + 1))
    } else {
        match parse_value(s, at, depth) {
            Ok((v, n)) => if at < n <= s.len() {
                parse_items(s, n, depth, acc.push(v))
            } else {
                Err(at)
            },
            Err(e) => Err(e),
        }
    }
}

/// The entries of a dictionary from `at` up to its closing `e`, added to `acc`.
/// The keys may come in any order; a key that comes again replaces the earlier binding.
pub open spec fn parse_entries(s: Seq<u8>, at: int, depth: nat, acc: Seq<(Seq<u8>, Value)>) -> Result<
    (Seq<(Seq<u8>, Value)>, int),
    int,
>
    decreases depth, s.len() - at, 3nat,
{
    if at < 0 || at >= s.len() {
        Err(at)
    } else if s[at] == 0x65 {
        Ok((acc, at + 1))
    } else {
        match parse_bytes(s, at) {
            Ok((k, p)) => if at < p <= s.len() {
                match parse_value(s, p, depth) {
                    Ok((v, n)) => if p < n <= s.len() {
                        parse_entries(s, n, depth, dict_insert(acc, k, v))
                    } else {
                        Err(at)
                    },
                    Err(e) => Err(e),
                }
            } else {
                Err(at)
            },
            Err(e) => Err(e),
        }
    }
}

/// A whole input: one term and nothing behind it.
pub open spec fn parse_all(s: Seq<u8>) -> Result<Value, int> {
    match parse_value(s, 0, MAX_DEPTH as nat) {
        Ok((v, n)) => if n == s.len() {
            Ok(v)
        } else {
            Err(n)
        },
        Err(e) => Err(e),
    }
}


// ---------------------------------------------------------------------
// The encoding
// ---------------------------------------------------------------------

/// The decimal digits of `n`, without leading zeros.
pub open spec fn digits(n: nat) -> Seq<u8>
    decreases n,
{
    if n < 10 {
        seq![(0x30 + n) as u8]
    } else {
        digits(n / 10).push((0x30 + n % 10) as u8)
    }
}

/// The decimal form of `i`, with `-` in front where it is negative.
pub open spec fn encode_int(i: int) -> Seq<u8> {
    if i < 0 {
        seq![0x2du8] + digits((-i) as nat)
    } else {
        digits(i as nat)
    }
}

/// A byte string: its length, a colon, its bytes.
pub open spec fn encode_bytes(b: Seq<u8>) -> Seq<u8> {
    digits(b.len()) + seq![0x3au8] + b
}

/// The canonical encoding of a value.
pub open spec fn encode(v: Value) -> Seq<u8>
    decreases v, 0nat,
{
    match v {
        Value::Bytes(b) => encode_bytes(b),
        Value::Int(i) => seq![0x69u8] + encode_int(i) + seq![0x65u8],
        Value::List(l) => seq![0x6cu8] + encode_items(l, l.len()) + seq![0x65u8],
        Value::Dict(d) => seq![0x64u8] + encode_entries(d, d.len()) + seq![0x65u8],
    }
}

/// The encodings of the first `n` items of `l`, one behind the other.
pub open spec fn encode_items(l: Seq<Value>, n: nat) -> Seq<u8>
    decreases l, n,
{
    if n == 0 || n > l.len() {
        Seq::empty()
    } else {
        encode_items(l, (n - 1) as nat) + encode(l[n - 1])
    }
}

/// The encodings of the first `n` entries of `d`: each key, then its value.
pub open spec fn encode_entries(d: Seq<(Seq<u8>, Value)>, n: nat) -> Seq<u8>
    decreases d, n,
{
    if n == 0 || n > d.len() {
        Seq::empty()
    } else {
        encode_entries(d, (n - 1) as nat) + encode_bytes(d[n - 1].0) + encode(d[n - 1].1)
    }
}

// ---------------------------------------------------------------------
// The decoder
// ---------------------------------------------------------------------

/// Reads the decimal digits from `at` on. The result is their value, whether
/// that value is beyond 64 bits (the value is then void), and the index behind them.
pub(crate) fn scan_digits(input: &[u8], at: usize) -> (r: (u64, bool, usize))
    requires
        at <= input@.len(),
    ensures
        r.2 == digits_end(input@, at as int),
        at <= r.2 <= input@.len(),
        r.1 ==> digits_value(input@, at as int, r.2 as int) > u64::MAX,
        !r.1 ==> r.0 == digits_value(input@, at as int, r.2 as int),
{
    let mut i: usize = at;
    let mut acc: u64 = 0;
    let mut over: bool = false;
    while i < input.len() && 0x30 <= input[i] && input[i] <= 0x39
        invariant
            at <= i <= input@.len(),
            digits_end(input@, at as int) == digits_end(input@, i as int),
            over ==> digits_value(input@, at as int, i as int) > u64::MAX,
            !over ==> acc == digits_value(input@, at as int, i as int),
        decreases input@.len() - i,
    {
        let d: u64 = (input[i] - 0x30) as u64;
        if !over {
            if acc > (u64::MAX - d) / 10 {
                over = true;
            } else {
                acc = acc * 10 + d;
            }
        }
        i += 1;
    }
    (acc, over, i)
}

/// Tells whether `a` comes strictly before `b` in the order of raw byte values.
pub fn bytes_before(a: &[u8], b: &[u8]) -> (r: bool)
    ensures
        r == bytes_less(a@, b@),
{
    let mut i: usize = 0;
    while i < a.len() && i < b.len() && a[i] == b[i]
        invariant
            0 <= i <= a@.len(),
            less_from(a@, b@, 0) == less_from(a@, b@, i as int),
        decreases a@.len() - i,
    {
        i += 1;
    }
    if i >= b.len() {
        false
    } else if i >= a.len() {
        true
    } else {
        a[i] < b[i]
    }
}

/// Tells whether `a` and `b` hold the same bytes.
pub fn bytes_equal(a: &[u8], b: &[u8]) -> (r: bool)
    ensures
        r == (a@ == b@),
{
    if a.len() != b.len() {
        return false;
    }
    let mut i: usize = 0;
    while i < a.len()
        invariant
            0 <= i <= a@.len(),
            a@.len() == b@.len(),
            forall|j: int| 0 <= j < i ==> a@[j] == b@[j],
        decreases a@.len() - i,
    {
        if a[i] != b[i] {
            return false;
        }
        i += 1;
    }
    assert(a@ =~= b@);
    true
}

/// Binds `k` to `b` in the entries `m`, at the place that the order of keys gives it.
fn insert_entry(m: &mut Vec<(Vec<u8>, Ben)>, k: Vec<u8>, b: Ben)
    ensures
        dict_view(final(m)@) == dict_insert(dict_view(old(m)@), k@, b@),
{
    let ghost d = dict_view(m@);
    let mut p: usize = 0;
    while p < m.len() && bytes_before(m[p].0.as_slice(), k.as_slice())
        invariant
            0 <= p <= m@.len(),
            m@ == old(m)@,
            d == dict_view(m@),
            slot_from(d, k@, 0) == slot_from(d, k@, p as int),
        decreases m@.len() - p,
    {
        p += 1;
    }
    if p < m.len() && bytes_equal(m[p].0.as_slice(), k.as_slice()) {
        let ghost kv = (k@, b@);
        m.set(p, (k, b));
        assert(dict_view(m@) =~= d.update(p as int, kv));
    } else {
        let ghost kv = (k@, b@);
        m.insert(p, (k, b));
        assert(dict_view(m@) =~= d.insert(p as int, kv));
    }
}

/// What the decoder returns for a term where the grammar gives `expect`.
pub open spec fn decoded(r: Result<(usize, Ben), FormatError>, expect: Result<(Value, int), int>) -> bool {
    match expect {
        Ok((v, n)) => r matches Ok(p) && p.0 == n && p.1@ == v,
        Err(o) => r == Err::<(usize, Ben), FormatError>(FormatError::Syntax { offset: o as usize }),
    }
}

/// What the decoder returns for a byte string where the grammar gives `expect`.
pub open spec fn decoded_bytes(r: Result<(usize, Vec<u8>), FormatError>, expect: Result<(Seq<u8>, int), int>) -> bool {
    match expect {
        Ok((v, n)) => r matches Ok(p) && p.0 == n && p.1@ == v,
        Err(o) => r == Err::<(usize, Vec<u8>), FormatError>(FormatError::Syntax { offset: o as usize }),
    }
}

impl Ben {
    /// Decodes the byte string at `at`. The result holds the index behind it.
    pub fn decode_str(input: &[u8], at: usize) -> (r: Result<(usize, Vec<u8>), FormatError>)
        ensures
            decoded_bytes(r, parse_bytes(input@, at as int)),
            r matches Ok(p) ==> at < p.0 <= input@.len(),
    {
        if at > input.len() {
            return Err(FormatError::Syntax { offset: at });
        }
        let (n, over, e) = scan_digits(input, at);
        if e == at {
            return Err(FormatError::Syntax { offset: at });
        }
        if e >= input.len() || input[e] != 0x3a {
            return Err(FormatError::Syntax { offset: e });
        }
        let room: usize = input.len() - (e + 1);
        if over || n > room as u64 {
            return Err(FormatError::Syntax { offset: at });
        }
        let stop: usize = e + 1 + n as usize;
        let out = vstd::slice::slice_to_vec(slice_subrange(input, e + 1, stop));
        Ok((stop, out))
    }

    /// Decodes the byte string at `at` as a term.
    pub fn decode_string(input: &[u8], at: usize) -> (r: Result<(usize, Ben), FormatError>)
        ensures
            decoded(r, match parse_bytes(input@, at as int) {
                Ok((b, n)) => Ok((Value::Bytes(b), n)),
                Err(e) => Err(e),
            }),
            r matches Ok(p) ==> at < p.0 <= input@.len(),
    {
        match Self::decode_str(input, at) {
            Ok((n, s)) => Ok((n, Ben::String(s))),
            Err(e) => Err(e),
        }
    }

    /// Decodes the integer at `at`.
    pub fn decode_number(input: &[u8], at: usize) -> (r: Result<(usize, Ben), FormatError>)
        ensures
            decoded(r, match parse_int(input@, at as int) {
                Ok((i, n)) => Ok((Value::Int(i), n)),
                Err(e) => Err(e),
            }),
            r matches Ok(p) ==> at < p.0 <= input@.len(),
    {
        if at >= input.len() || input[at] != 0x69 {
            return Err(FormatError::Syntax { offset: at });
        }
        let neg: bool = at + 1 < input.len() && input[at + 1] == 0x2d;
        let q: usize = if neg { at + 2 } else { at + 1 };
        let (n, over, e) = scan_digits(input, q);
        if e == q {
            return Err(FormatError::Syntax { offset: q });
        }
        if e >= input.len() || input[e] != 0x65 {
            return Err(FormatError::Syntax { offset: e });
        }
        if over {
            return Err(FormatError::Syntax { offset: at });
        }
        if neg {
            if n > 0x8000_0000_0000_0000u64 {
                Err(FormatError::Syntax { offset: at })
            } else if n == 0x8000_0000_0000_0000u64 {
                Ok((e + 1, Ben::Number(i64::MIN)))
            } else {
                Ok((e + 1, Ben::Number(-(n as i64))))
            }
        } else {
            if n > 0x7fff_ffff_ffff_ffffu64 {
                Err(FormatError::Syntax { offset: at })
            } else {
                Ok((e + 1, Ben::Number(n as i64)))
            }
        }
    }

    /// Decodes the list at `at`, its items nested less than `depth` deep.
    pub fn decode_list(input: &[u8], at: usize, depth: usize) -> (r: Result<(usize, Ben), FormatError>)
        ensures
            decoded(r, match parse_list(input@, at as int, depth as nat) {
                Ok((l, n)) => Ok((Value::List(l), n)),
                Err(e) => Err(e),
            }),
            r matches Ok(p) ==> at < p.0 <= input@.len(),
        decreases depth, 0nat,
    {
        if at >= input.len() || input[at] != 0x6c || depth == 0 {
            return Err(FormatError::Syntax { offset: at });
        }
        let mut v: Vec<Ben> = Vec::new();
        let mut i: usize = at + 1;
        assert(list_view(v@) =~= Seq::empty());
        loop
            invariant
                at < i <= input@.len(),
                input@[at as int] == 0x6c,
                depth > 0,
                parse_items(input@, at + 1, (depth - 1) as nat, Seq::empty()) == parse_items(
                    input@,
                    i as int,
                    (depth - 1) as nat,
                    list_view(v@),
                ),
            decreases input@.len() - i,
        {
            if i >= input.len() {
                return Err(FormatError::Syntax { offset: i });
            }
            if input[i] == 0x65 {
                proof {
                    lemma_view_list(v);
                }
                return Ok((i + 1, Ben::List(v)));
            }
            match Self::decode_at(input, i, depth - 1) {
                Err(e) => {
                    return Err(e);
                },
                Ok((n, b)) => {
                    let ghost before = v@;
                    v.push(b);
                    assert(list_view(v@) =~= list_view(before).push(b@));
                    i = n;
                },
            }
        }
    }

    /// Decodes the dictionary at `at`, its values nested less than `depth` deep.
    pub fn decode_dict(input: &[u8], at: usize, depth: usize) -> (r: Result<(usize, Ben), FormatError>)
        ensures
            decoded(r, match parse_dict(input@, at as int, depth as nat) {
                Ok((d, n)) => Ok((Value::Dict(d), n)),
                Err(e) => Err(e),
            }),
            r matches Ok(p) ==> at < p.0 <= input@.len(),
        decreases depth, 0nat,
    {
        if at >= input.len() || input[at] != 0x64 || depth == 0 {
            return Err(FormatError::Syntax { offset: at });
        }
        let mut m: Vec<(Vec<u8>, Ben)> = Vec::new();
        let mut i: usize = at + 1;
        assert(dict_view(m@) =~= Seq::empty());
        loop
            invariant
                at < i <= input@.len(),
                input@[at as int] == 0x64,
                depth > 0,
                parse_entries(input@, at + 1, (depth - 1) as nat, Seq::empty()) == parse_entries(
                    input@,
                    i as int,
                    (depth - 1) as nat,
                    dict_view(m@),
                ),
            decreases input@.len() - i,
        {
            if i >= input.len() {
                return Err(FormatError::Syntax { offset: i });
            }
            if input[i] == 0x65 {
                proof {
                    lemma_view_dict(m);
                }
                return Ok((i + 1, Ben::Dict(m)));
            }
            match Self::decode_str(input, i) {
                Err(e) => {
                    return Err(e);
                },
                Ok((p, k)) => {
                    match Self::decode_at(input, p, depth - 1) {
                        Err(e) => {
                            return Err(e);
                        },
                        Ok((n, b)) => {
                            insert_entry(&mut m, k, b);
                            i = n;
                        },
                    }
                },
            }
        }
    }

    /// Decodes the term at `at`, nested at most `depth` deep. The result holds
    /// the index behind the term.
    pub fn decode_at(input: &[u8], at: usize, depth: usize) -> (r: Result<(usize, Ben), FormatError>)
        ensures
            decoded(r, parse_value(input@, at as int, depth as nat)),
            r matches Ok(p) ==> at < p.0 <= input@.len(),
        decreases depth, 1nat,
    {
        if at >= input.len() {
            return Err(FormatError::Syntax { offset: at });
        }
        let c: u8 = input[at];
        if 0x30 <= c && c <= 0x39 {
            Self::decode_string(input, at)
        } else if c == 0x69 {
            Self::decode_number(input, at)
        } else if c == 0x6c {
            Self::decode_list(input, at, depth)
        } else if c == 0x64 {
            Self::decode_dict(input, at, depth)
        } else {
            Err(FormatError::Syntax { offset: at })
        }
    }
    /// The term that a dictionary binds to `key`.
    pub fn get(&self, key: &[u8]) -> (r: Option<&Ben>)
        ensures
            match lookup(self@, key@) {
                Some(v) => r matches Some(b) && b@ == v,
                None => r is None,
            },
    {
        match self {
            Ben::Dict(m) => {
                proof {
                    lemma_view_dict(*m);
                }
                let mut i: usize = 0;
                while i < m.len()
                    invariant
                        0 <= i <= m@.len(),
                        self@ == Value::Dict(dict_view(m@)),
                        lookup_from(dict_view(m@), key@, 0) == lookup_from(dict_view(m@), key@, i as int),
                    decreases m@.len() - i,
                {
                    if bytes_equal(m[i].0.as_slice(), key) {
                        return Some(&m[i].1);
                    }
                    i += 1;
                }
                None
            },
            _ => None,
        }
    }

    /// Decodes one term from the front of `input`. The result holds what is left of `input`.
    pub fn decode(input: &[u8]) -> (r: Result<(&[u8], Ben), FormatError>)
        ensures
            match parse_value(input@, 0, MAX_DEPTH as nat) {
                Ok((v, n)) => r matches Ok(p) && p.1@ == v && p.0@ == input@.subrange(n, input@.len() as int),
                Err(o) => r matches Err(e) && e == (FormatError::Syntax { offset: o as usize }),
            },
            r matches Ok(p) ==> canonical(p.1@, MAX_DEPTH as nat),
    {
        proof {
            lemma_parsed_canonical(input@, 0, MAX_DEPTH as nat);
        }
        match Self::decode_at(input, 0, MAX_DEPTH) {
            Ok((n, b)) => Ok((slice_subrange(input, n, input.len()), b)),
            Err(e) => Err(e),
        }
    }

    /// Decodes `input` as one term with nothing behind it.
    pub fn parse(input: &[u8]) -> (r: Result<Ben, FormatError>)
        ensures
            match parse_all(input@) {
                Ok(v) => r matches Ok(b) && b@ == v,
                Err(o) => r matches Err(e) && e == (FormatError::Syntax { offset: o as usize }),
            },
            r matches Ok(b) ==> canonical(b@, MAX_DEPTH as nat),
    {
        proof {
            lemma_parsed_canonical(input@, 0, MAX_DEPTH as nat);
        }
        match Self::decode_at(input, 0, MAX_DEPTH) {
            Ok((n, b)) => if n == input.len() {
                Ok(b)
            } else {
                Err(FormatError::Syntax { offset: n })
            },
            Err(e) => Err(e),
        }
    }

    /// Tells whether `input` is a canonical encoding: one term, written the
    /// one way in which the encoder writes it.
    pub fn is_canonical(input: &[u8]) -> (r: bool)
        ensures
            r == crate::canonical::is_canonical(input@),
    {
        proof {
            crate::canonical::lemma_canonical_iff(input@);
        }
        match Self::parse(input) {
            Ok(b) => {
                let again = b.encode();
                bytes_equal(again.as_slice(), input)
            },
            Err(_) => false,
        }
    }

    /// The canonical encoding of the term.
    pub fn encode(&self) -> (r: Vec<u8>)
        ensures
            r@ == self::encode(self@),
    {
        let mut out: Vec<u8> = Vec::new();
        self.encode_into(&mut out);
        out
    }

    /// Writes the canonical encoding of the term behind what `out` holds.
    pub fn encode_into(&self, out: &mut Vec<u8>)
        ensures
            final(out)@ == old(out)@ + self::encode(self@),
        decreases self,
    {
        match self {
            Ben::String(s) => {
                push_bytes(out, s.as_slice());
            },
            Ben::Number(n) => {
                out.push(0x69);
                if *n < 0 {
                    out.push(0x2d);
                    let m: u64 = (-(*n + 1)) as u64 + 1;
                    push_decimal(out, m);
                } else {
                    push_decimal(out, *n as u64);
                }
                out.push(0x65);
                assert(out@ =~= old(out)@ + self::encode(self@));
            },
            Ben::List(v) => {
                proof {
                    lemma_view_list(*v);
                }
                out.push(0x6c);
                let mut k: usize = 0;
                while k < v.len()
                    invariant
                        0 <= k <= v@.len(),
                        *self == Ben::List(*v),
                        out@ == old(out)@ + seq![0x6cu8] + encode_items(list_view(v@), k as nat),
                    decreases v@.len() - k,
                {
                    proof {
                        vstd::std_specs::vec::axiom_vec_index_decreases(*v, k as int);
                        assert(decreases_to!(*self => self->List_0));
                    }
                    v[k].encode_into(out);
                    k += 1;
                    assert(out@ =~= old(out)@ + seq![0x6cu8] + encode_items(list_view(v@), k as nat));
                }
                out.push(0x65);
                assert(out@ =~= old(out)@ + self::encode(self@));
            },
            Ben::Dict(m) => {
                proof {
                    lemma_view_dict(*m);
                }
                out.push(0x64);
                let mut k: usize = 0;
                while k < m.len()
                    invariant
                        0 <= k <= m@.len(),
                        *self == Ben::Dict(*m),
                        out@ == old(out)@ + seq![0x64u8] + encode_entries(dict_view(m@), k as nat),
                    decreases m@.len() - k,
                {
                    push_bytes(out, m[k].0.as_slice());
                    proof {
                        vstd::std_specs::vec::axiom_vec_index_decreases(*m, k as int);
                        assert(decreases_to!(*self => self->Dict_0));
                        assert(decreases_to!(m[k as int] => m[k as int].1));
                    }
                    m[k].1.encode_into(out);
                    k += 1;
                    assert(out@ =~= old(out)@ + seq![0x64u8] + encode_entries(dict_view(m@), k as nat));
                }
                out.push(0x65);
                assert(out@ =~= old(out)@ + self::encode(self@));
            },
        }
    }
}

/// Writes the decimal digits of `n` behind what `out` holds.
pub fn push_decimal(out: &mut Vec<u8>, n: u64)
    ensures
        final(out)@ == old(out)@ + digits(n as nat),
    decreases n,
{
    if n >= 10 {
        push_decimal(out, n / 10);
    }
    out.push(0x30 + (n % 10) as u8);
    assert(out@ =~= old(out)@ + digits(n as nat));
}

/// Writes `b` as a byte string of the encoding behind what `out` holds.
pub fn push_bytes(out: &mut Vec<u8>, b: &[u8])
    ensures
        final(out)@ == old(out)@ + encode_bytes(b@),
{
    push_decimal(out, b.len() as u64);
    out.push(0x3a);
    out.extend_from_slice(b);
    assert(out@ =~= old(out)@ + encode_bytes(b@));
}

} // verus!
