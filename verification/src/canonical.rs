use crate::ben::{bytes_less, dict_insert, digits, digits_end, digits_value, encode, encode_bytes, encode_entries, encode_int, encode_items, is_digit, less_from, parse_all, parse_bytes, parse_entries, parse_int, parse_items, parse_value, slot_from, Value, MAX_DEPTH};
use vstd::prelude::*;

verus! {

/// The keys of `d` stand in strictly ascending order of raw byte values.
pub open spec fn keys_ascending(d: Seq<(Seq<u8>, Value)>) -> bool {
    forall|i: int, j: int| 0 <= i < j < d.len() ==> bytes_less(#[trigger] d[i].0, #[trigger] d[j].0)
}

/// `v` is a value that the decoder can give back: its integers fit in 64
/// bits, its dictionaries hold each key once and in ascending order, and it
/// nests at most `depth` deep.
pub open spec fn canonical(v: Value, depth: nat) -> bool
    decreases v,
{
    match v {
        Value::Bytes(b) => true,
        Value::Int(i) => i64::MIN <= i <= i64::MAX,
        Value::List(l) => depth > 0 && forall|i: int|
            0 <= i < l.len() ==> canonical(#[trigger] l[i], (depth - 1) as nat),
        Value::Dict(d) => depth > 0 && keys_ascending(d) && forall|i: int|
            0 <= i < d.len() ==> canonical((#[trigger] d[i]).1, (depth - 1) as nat),
    }
}

/// `bytes` is the canonical encoding of some value that the decoder can give back.
pub open spec fn is_canonical(bytes: Seq<u8>) -> bool {
    exists|v: Value| canonical(v, MAX_DEPTH as nat) && encode(v) == bytes
}

/// `e` stands in `s` from index `at` on.
pub open spec fn holds_at(s: Seq<u8>, at: int, e: Seq<u8>) -> bool {
    0 <= at && at + e.len() <= s.len() && s.subrange(at, at + e.len()) == e
}

proof fn lemma_split(s: Seq<u8>, at: int, a: Seq<u8>, b: Seq<u8>)
    requires
        holds_at(s, at, a + b),
    ensures
        holds_at(s, at, a),
        holds_at(s, at + a.len(), b),
{
    let w = s.subrange(at, at + (a + b).len());
    assert(s.subrange(at, at + a.len()) =~= w.subrange(0, a.len() as int));
    assert(w.subrange(0, a.len() as int) =~= a);
    assert(s.subrange(at + a.len(), at + a.len() + b.len()) =~= w.subrange(a.len() as int, (a + b).len() as int));
    assert(w.subrange(a.len() as int, (a + b).len() as int) =~= b);
}

proof fn lemma_digits_shape(n: nat)
    ensures
        digits(n).len() >= 1,
        forall|i: int| 0 <= i < digits(n).len() ==> is_digit(#[trigger] digits(n)[i]),
    decreases n,
{
    if n >= 10 {
        lemma_digits_shape(n / 10);
    }
}

proof fn lemma_digits_end(s: Seq<u8>, at: int, e: int)
    requires
        0 <= at <= e <= s.len(),
        forall|i: int| at <= i < e ==> is_digit(#[trigger] s[i]),
        e == s.len() || !is_digit(s[e]),
    ensures
        digits_end(s, at) == e,
    decreases e - at,
{
    if at < e {
        lemma_digits_end(s, at + 1, e);
    }
}

proof fn lemma_digits_value(s: Seq<u8>, at: int, n: nat)
    requires
        holds_at(s, at, digits(n)),
    ensures
        digits_value(s, at, at + digits(n).len()) == n,
    decreases n,
{
    let e = at + digits(n).len();
    if n < 10 {
        assert(s[at] == s.subrange(at, e)[0]);
        assert(digits_value(s, at, at) == 0);
    } else {
        let a = digits(n / 10);
        let b = seq![(0x30 + n % 10) as u8];
        assert(digits(n) =~= a + b);
        lemma_split(s, at, a, b);
        lemma_digits_value(s, at, n / 10);
        assert(s[e - 1] == s.subrange(e - 1, e)[0]);
    }
}

/// A number written by `digits` and followed by a byte that is no digit is read back.
proof fn lemma_digits_read(s: Seq<u8>, at: int, n: nat)
    requires
        holds_at(s, at, digits(n)),
        at + digits(n).len() == s.len() || !is_digit(s[at + digits(n).len()]),
    ensures
        digits_end(s, at) == at + digits(n).len(),
        digits_value(s, at, at + digits(n).len()) == n,
{
    lemma_digits_shape(n);
    let e = at + digits(n).len();
    assert forall|i: int| at <= i < e implies is_digit(#[trigger] s[i]) by {
        assert(s[i] == s.subrange(at, e)[i - at]);
    }
    lemma_digits_end(s, at, e);
    lemma_digits_value(s, at, n);
}

proof fn lemma_bytes_read(s: Seq<u8>, at: int, b: Seq<u8>)
    requires
        holds_at(s, at, encode_bytes(b)),
    ensures
        parse_bytes(s, at) == Ok::<(Seq<u8>, int), int>((b, at + encode_bytes(b).len())),
        is_digit(s[at]),
{
    let d = digits(b.len());
    lemma_digits_shape(b.len());
    assert(encode_bytes(b) =~= d + (seq![0x3au8] + b));
    lemma_split(s, at, d, seq![0x3au8] + b);
    lemma_split(s, at + d.len(), seq![0x3au8], b);
    let e = at + d.len();
    assert(s[e] == s.subrange(e, e + 1)[0]);
    lemma_digits_read(s, at, b.len());
    assert(s[at] == s.subrange(at, e)[0]);
}

proof fn lemma_int_read(s: Seq<u8>, at: int, i: int)
    requires
        holds_at(s, at, seq![0x69u8] + encode_int(i) + seq![0x65u8]),
        i64::MIN <= i <= i64::MAX,
    ensures
        parse_int(s, at) == Ok::<(int, int), int>((i, at + encode_int(i).len() + 2)),
{
    let body = encode_int(i);
    assert(seq![0x69u8] + body + seq![0x65u8] =~= seq![0x69u8] + (body + seq![0x65u8]));
    lemma_split(s, at, seq![0x69u8], body + seq![0x65u8]);
    lemma_split(s, at + 1, body, seq![0x65u8]);
    assert(s[at] == s.subrange(at, at + 1)[0]);
    let e = at + 1 + body.len();
    assert(s[e] == s.subrange(e, e + 1)[0]);
    if i < 0 {
        let n = (-i) as nat;
        lemma_digits_shape(n);
        lemma_split(s, at + 1, seq![0x2du8], digits(n));
        assert(s[at + 1] == s.subrange(at + 1, at + 2)[0]);
        lemma_digits_read(s, at + 2, n);
    } else {
        let n = i as nat;
        lemma_digits_shape(n);
        assert(s[at + 1] == s.subrange(at + 1, e)[0]);
        lemma_digits_read(s, at + 1, n);
    }
}

/// The first byte of an encoding tells the kind of the value, and is never the closing `e`.
proof fn lemma_first_byte(v: Value)
    ensures
        encode(v).len() >= 1,
        encode(v)[0] != 0x65,
        v is Bytes <==> is_digit(encode(v)[0]),
        v is Int <==> encode(v)[0] == 0x69,
        v is List <==> encode(v)[0] == 0x6c,
        v is Dict <==> encode(v)[0] == 0x64,
{
    match v {
        Value::Bytes(b) => {
            lemma_digits_shape(b.len());
        },
        _ => {},
    }
}

proof fn lemma_item_at(s: Seq<u8>, base: int, l: Seq<Value>, n: nat, k: int)
    requires
        holds_at(s, base, encode_items(l, n)),
        0 <= k < n <= l.len(),
    ensures
        holds_at(s, base + encode_items(l, k as nat).len(), encode(l[k])),
        encode_items(l, k as nat).len() + encode(l[k]).len() == encode_items(l, (k + 1) as nat).len(),
        encode_items(l, (k + 1) as nat).len() <= encode_items(l, n).len(),
    decreases n,
{
    lemma_split(s, base, encode_items(l, (n - 1) as nat), encode(l[n - 1]));
    if k < n - 1 {
        lemma_item_at(s, base, l, (n - 1) as nat, k);
    }
}

proof fn lemma_entry_at(s: Seq<u8>, base: int, d: Seq<(Seq<u8>, Value)>, n: nat, k: int)
    requires
        holds_at(s, base, encode_entries(d, n)),
        0 <= k < n <= d.len(),
    ensures
        holds_at(s, base + encode_entries(d, k as nat).len(), encode_bytes(d[k].0)),
        holds_at(s, base + encode_entries(d, k as nat).len() + encode_bytes(d[k].0).len(), encode(d[k].1)),
        encode_entries(d, k as nat).len() + encode_bytes(d[k].0).len() + encode(d[k].1).len()
            == encode_entries(d, (k + 1) as nat).len(),
        encode_entries(d, (k + 1) as nat).len() <= encode_entries(d, n).len(),
    decreases n,
{
    let a = encode_entries(d, (n - 1) as nat);
    assert(encode_entries(d, n) =~= a + (encode_bytes(d[n - 1].0) + encode(d[n - 1].1)));
    lemma_split(s, base, a, encode_bytes(d[n - 1].0) + encode(d[n - 1].1));
    lemma_split(s, base + a.len(), encode_bytes(d[n - 1].0), encode(d[n - 1].1));
    if k < n - 1 {
        lemma_entry_at(s, base, d, (n - 1) as nat, k);
    }
}

proof fn lemma_slot_end(d: Seq<(Seq<u8>, Value)>, k: Seq<u8>, i: int)
    requires
        0 <= i <= d.len(),
        forall|j: int| 0 <= j < d.len() ==> bytes_less(#[trigger] d[j].0, k),
    ensures
        slot_from(d, k, i) == d.len(),
    decreases d.len() - i,
{
    if i < d.len() {
        lemma_slot_end(d, k, i + 1);
    }
}

/// The decoder reads back a canonical encoding that stands in `s` at `at`.
pub proof fn lemma_value_read(s: Seq<u8>, at: int, v: Value, depth: nat)
    requires
        canonical(v, depth),
        holds_at(s, at, encode(v)),
    ensures
        parse_value(s, at, depth) == Ok::<(Value, int), int>((v, at + encode(v).len())),
    decreases v, 0nat,
{
    lemma_first_byte(v);
    assert(s[at] == s.subrange(at, at + encode(v).len())[0]);
    match v {
        Value::Bytes(b) => {
            lemma_bytes_read(s, at, b);
        },
        Value::Int(i) => {
            lemma_int_read(s, at, i);
        },
        Value::List(l) => {
            let body = encode_items(l, l.len());
            assert(encode(v) =~= seq![0x6cu8] + (body + seq![0x65u8]));
            lemma_split(s, at, seq![0x6cu8], body + seq![0x65u8]);
            lemma_split(s, at + 1, body, seq![0x65u8]);
            let e = at + 1 + body.len();
            assert(s[e] == s.subrange(e, e + 1)[0]);
            assert(l.take(0) =~= Seq::<Value>::empty());
            assert(decreases_to!(v => v->List_0));
            lemma_items_read(s, at + 1, l, 0, (depth - 1) as nat);
        },
        Value::Dict(d) => {
            let body = encode_entries(d, d.len());
            assert(encode(v) =~= seq![0x64u8] + (body + seq![0x65u8]));
            lemma_split(s, at, seq![0x64u8], body + seq![0x65u8]);
            lemma_split(s, at + 1, body, seq![0x65u8]);
            let e = at + 1 + body.len();
            assert(s[e] == s.subrange(e, e + 1)[0]);
            assert(d.take(0) =~= Seq::<(Seq<u8>, Value)>::empty());
            assert(decreases_to!(v => v->Dict_0));
            lemma_entries_read(s, at + 1, d, 0, (depth - 1) as nat);
        },
    }
}

proof fn lemma_items_read(s: Seq<u8>, base: int, l: Seq<Value>, k: int, depth: nat)
    requires
        forall|i: int| 0 <= i < l.len() ==> canonical(#[trigger] l[i], depth),
        holds_at(s, base, encode_items(l, l.len())),
        base + encode_items(l, l.len()).len() < s.len(),
        s[base + encode_items(l, l.len()).len()] == 0x65,
        0 <= k <= l.len(),
    ensures
        encode_items(l, k as nat).len() <= encode_items(l, l.len()).len(),
        parse_items(s, base + encode_items(l, k as nat).len(), depth, l.take(k)) == Ok::<(Seq<Value>, int), int>(
            (l, base + encode_items(l, l.len()).len() + 1),
        ),
    decreases l, l.len() - k,
{
    if k == l.len() {
        assert(l.take(k) =~= l);
    } else {
        lemma_item_at(s, base, l, l.len(), k);
        let at = base + encode_items(l, k as nat).len();
        lemma_first_byte(l[k]);
        assert(s[at] == s.subrange(at, at + encode(l[k]).len())[0]);
        lemma_value_read(s, at, l[k], depth);
        assert(l.take(k).push(l[k]) =~= l.take(k + 1));
        lemma_items_read(s, base, l, k + 1, depth);
    }
}

proof fn lemma_entries_read(s: Seq<u8>, base: int, d: Seq<(Seq<u8>, Value)>, k: int, depth: nat)
    requires
        keys_ascending(d),
        forall|i: int| 0 <= i < d.len() ==> canonical((#[trigger] d[i]).1, depth),
        holds_at(s, base, encode_entries(d, d.len())),
        base + encode_entries(d, d.len()).len() < s.len(),
        s[base + encode_entries(d, d.len()).len()] == 0x65,
        0 <= k <= d.len(),
    ensures
        encode_entries(d, k as nat).len() <= encode_entries(d, d.len()).len(),
        parse_entries(s, base + encode_entries(d, k as nat).len(), depth, d.take(k)) == Ok::<
            (Seq<(Seq<u8>, Value)>, int),
            int,
        >((d, base + encode_entries(d, d.len()).len() + 1)),
    decreases d, d.len() - k,
{
    if k == d.len() {
        assert(d.take(k) =~= d);
    } else {
        lemma_entry_at(s, base, d, d.len(), k);
        let at = base + encode_entries(d, k as nat).len();
        lemma_bytes_read(s, at, d[k].0);
        let p = at + encode_bytes(d[k].0).len();
        lemma_first_byte(d[k].1);
        lemma_digits_shape(d[k].0.len());
        assert(decreases_to!(d => d[k]));
        assert(decreases_to!(d[k] => d[k].1));
        lemma_value_read(s, p, d[k].1, depth);
        let acc = d.take(k);
        assert forall|j: int| 0 <= j < acc.len() implies bytes_less(#[trigger] acc[j].0, d[k].0) by {
            assert(acc[j] == d[j]);
        }
        lemma_slot_end(acc, d[k].0, 0);
        assert(acc.insert(k, d[k]) =~= d.take(k + 1));
        assert(dict_insert(acc, d[k].0, d[k].1) == d.take(k + 1));
        lemma_entries_read(s, base, d, k + 1, depth);
    }
}

/// Of two byte strings that differ, one comes before the other.
proof fn lemma_less_total(a: Seq<u8>, b: Seq<u8>, i: int)
    requires
        0 <= i <= a.len(),
        i <= b.len(),
        forall|j: int| 0 <= j < i ==> a[j] == b[j],
        !less_from(a, b, i),
        !less_from(b, a, i),
    ensures
        a == b,
    decreases a.len() - i,
{
    if i < a.len() && i < b.len() {
        lemma_less_total(a, b, i + 1);
    } else {
        assert(a =~= b);
    }
}

/// The order of byte strings is transitive.
proof fn lemma_less_trans(a: Seq<u8>, b: Seq<u8>, c: Seq<u8>, i: int)
    requires
        0 <= i,
        less_from(a, b, i),
        less_from(b, c, i),
    ensures
        less_from(a, c, i),
    decreases a.len() - i,
{
    if i < a.len() && a[i] == b[i] && b[i] == c[i] {
        lemma_less_trans(a, b, c, i + 1);
    }
}

/// Where `slot_from` stops: every key before the slot comes before `k`,
/// and the key at the slot does not.
proof fn lemma_slot(d: Seq<(Seq<u8>, Value)>, k: Seq<u8>, i: int)
    requires
        0 <= i <= d.len(),
    ensures
        i <= slot_from(d, k, i) <= d.len(),
        forall|j: int| i <= j < slot_from(d, k, i) ==> bytes_less(#[trigger] d[j].0, k),
        slot_from(d, k, i) < d.len() ==> !bytes_less(d[slot_from(d, k, i)].0, k),
    decreases d.len() - i,
{
    if i < d.len() && bytes_less(d[i].0, k) {
        lemma_slot(d, k, i + 1);
    }
}

/// Binding a key keeps the keys in strictly ascending order.
pub proof fn lemma_insert_keeps_order(d: Seq<(Seq<u8>, Value)>, k: Seq<u8>, v: Value)
    requires
        keys_ascending(d),
    ensures
        keys_ascending(dict_insert(d, k, v)),
{
    let p = slot_from(d, k, 0);
    let n = dict_insert(d, k, v);
    lemma_slot(d, k, 0);
    if p < d.len() && d[p].0 == k {
        assert forall|i: int, j: int| 0 <= i < j < n.len() implies bytes_less(#[trigger] n[i].0, #[trigger] n[j].0) by {
            assert(n[i].0 == d[i].0);
            assert(n[j].0 == d[j].0);
        }
    } else {
        if p < d.len() && !bytes_less(k, d[p].0) {
            lemma_less_total(d[p].0, k, 0);
        }
        assert forall|i: int, j: int| 0 <= i < j < n.len() implies bytes_less(#[trigger] n[i].0, #[trigger] n[j].0) by {
            if j < p {
                assert(n[i] == d[i] && n[j] == d[j]);
            } else if j == p {
                assert(n[i] == d[i]);
            } else if i < p {
                assert(n[i] == d[i] && n[j] == d[j - 1]);
            } else if i == p {
                assert(n[j] == d[j - 1]);
                if j - 1 > p {
                    assert(bytes_less(d[p].0, d[j - 1].0));
                    lemma_less_trans(k, d[p].0, d[j - 1].0, 0);
                }
            } else {
                assert(n[i] == d[i - 1] && n[j] == d[j - 1]);
            }
        }
    }
}

/// What the decoder gives back is canonical: integers of 64 bits,
/// dictionaries with each key once and in ascending order, nesting within the bound.
pub proof fn lemma_parsed_canonical(s: Seq<u8>, at: int, depth: nat)
    ensures
        parse_value(s, at, depth) matches Ok(r) ==> canonical(r.0, depth),
    decreases depth, s.len() - at, 2nat,
{
    if 0 <= at < s.len() && !is_digit(s[at]) && s[at] != 0x69 && depth > 0 {
        if s[at] == 0x6c {
            lemma_items_canonical(s, at + 1, (depth - 1) as nat, Seq::empty());
        } else if s[at] == 0x64 {
            lemma_entries_canonical(s, at + 1, (depth - 1) as nat, Seq::empty());
        }
    }
}

proof fn lemma_items_canonical(s: Seq<u8>, at: int, depth: nat, acc: Seq<Value>)
    requires
        forall|i: int| 0 <= i < acc.len() ==> canonical(#[trigger] acc[i], depth),
    ensures
        parse_items(s, at, depth, acc) matches Ok(r) ==> forall|i: int|
            0 <= i < r.0.len() ==> canonical(#[trigger] r.0[i], depth),
    decreases depth, s.len() - at, 3nat,
{
    if 0 <= at < s.len() && s[at] != 0x65 {
        lemma_parsed_canonical(s, at, depth);
        match parse_value(s, at, depth) {
            Ok((v, n)) => {
                if at < n <= s.len() {
                    lemma_items_canonical(s, n, depth, acc.push(v));
                }
            },
            Err(_) => {},
        }
    }
}

proof fn lemma_entries_canonical(s: Seq<u8>, at: int, depth: nat, acc: Seq<(Seq<u8>, Value)>)
    requires
        keys_ascending(acc),
        forall|i: int| 0 <= i < acc.len() ==> canonical((#[trigger] acc[i]).1, depth),
    ensures
        parse_entries(s, at, depth, acc) matches Ok(r) ==> keys_ascending(r.0) && forall|i: int|
            0 <= i < r.0.len() ==> canonical((#[trigger] r.0[i]).1, depth),
    decreases depth, s.len() - at, 3nat,
{
    if 0 <= at < s.len() && s[at] != 0x65 {
        match parse_bytes(s, at) {
            Ok((k, p)) => {
                if at < p <= s.len() {
                    lemma_parsed_canonical(s, p, depth);
                    match parse_value(s, p, depth) {
                        Ok((v, n)) => {
                            if p < n <= s.len() {
                                let next = dict_insert(acc, k, v);
                                lemma_insert_keeps_order(acc, k, v);
                                lemma_slot(acc, k, 0);
                                let slot = slot_from(acc, k, 0);
                                assert forall|i: int| 0 <= i < next.len() implies canonical(
                                    (#[trigger] next[i]).1,
                                    depth,
                                ) by {
                                    if slot < acc.len() && acc[slot].0 == k {
                                        if i != slot {
                                            assert(next[i] == acc[i]);
                                        }
                                    } else {
                                        if i < slot {
                                            assert(next[i] == acc[i]);
                                        } else if i > slot {
                                            assert(next[i] == acc[i - 1]);
                                        }
                                    }
                                }
                                lemma_entries_canonical(s, n, depth, next);
                            }
                        },
                        Err(_) => {},
                    }
                }
            },
            Err(_) => {},
        }
    }
}

/// Encoding is the left inverse of decoding on every decoded value: what
/// `parse_all` gives back is canonical, and its canonical encoding decodes to it again.
pub proof fn lemma_decoded_round_trip(bytes: Seq<u8>)
    ensures
        parse_all(bytes) matches Ok(v) ==> canonical(v, MAX_DEPTH as nat) && parse_all(encode(v)) == Ok::<
            Value,
            int,
        >(v),
{
    lemma_parsed_canonical(bytes, 0, MAX_DEPTH as nat);
    if let Ok(v) = parse_all(bytes) {
        lemma_decode_encode(v);
    }
}

/// Where the digits from `at` on end: every byte before the end is a digit,
/// and the byte at the end, if there is one, is none.
proof fn lemma_digits_run(s: Seq<u8>, at: int)
    requires
        0 <= at <= s.len(),
    ensures
        at <= digits_end(s, at) <= s.len(),
        forall|i: int| at <= i < digits_end(s, at) ==> is_digit(#[trigger] s[i]),
        digits_end(s, at) == s.len() || !is_digit(s[digits_end(s, at)]),
    decreases s.len() - at,
{
    if at < s.len() && is_digit(s[at]) {
        lemma_digits_run(s, at + 1);
    }
}

proof fn lemma_digits_value_local(s: Seq<u8>, t: Seq<u8>, at: int, e: int)
    requires
        0 <= at <= e,
        e <= s.len(),
        e <= t.len(),
        forall|i: int| at <= i < e ==> s[i] == t[i],
    ensures
        digits_value(t, at, e) == digits_value(s, at, e),
    decreases e - at,
{
    if at < e {
        lemma_digits_value_local(s, t, at, e - 1);
    }
}

/// The digits read from `at` on, together with the byte that ends them,
/// are read alike from any input that holds the same bytes there.
proof fn lemma_digits_local(s: Seq<u8>, t: Seq<u8>, at: int)
    requires
        0 <= at <= s.len(),
        digits_end(s, at) < s.len(),
        digits_end(s, at) < t.len(),
        forall|i: int| at <= i <= digits_end(s, at) ==> s[i] == t[i],
    ensures
        digits_end(t, at) == digits_end(s, at),
        digits_value(t, at, digits_end(s, at)) == digits_value(s, at, digits_end(s, at)),
{
    let e = digits_end(s, at);
    lemma_digits_run(s, at);
    assert forall|i: int| at <= i < e implies is_digit(#[trigger] t[i]) by {
        assert(s[i] == t[i]);
    }
    lemma_digits_end(t, at, e);
    lemma_digits_value_local(s, t, at, e);
}

proof fn lemma_bytes_local(s: Seq<u8>, t: Seq<u8>, at: int)
    requires
        0 <= at <= s.len(),
        parse_bytes(s, at) is Ok,
        parse_bytes(s, at)->Ok_0.1 <= t.len(),
        forall|i: int| at <= i < parse_bytes(s, at)->Ok_0.1 ==> s[i] == t[i],
    ensures
        parse_bytes(t, at) == parse_bytes(s, at),
        at < parse_bytes(s, at)->Ok_0.1 <= s.len(),
{
    let e = digits_end(s, at);
    let n = parse_bytes(s, at)->Ok_0.1;
    lemma_digits_run(s, at);
    lemma_digits_local(s, t, at);
    assert(s[e] == t[e]);
    assert(s.subrange(e + 1, n) =~= t.subrange(e + 1, n));
}

proof fn lemma_int_local(s: Seq<u8>, t: Seq<u8>, at: int)
    requires
        parse_int(s, at) is Ok,
        parse_int(s, at)->Ok_0.1 <= t.len(),
        forall|i: int| at <= i < parse_int(s, at)->Ok_0.1 ==> s[i] == t[i],
    ensures
        parse_int(t, at) == parse_int(s, at),
        at < parse_int(s, at)->Ok_0.1 <= s.len(),
{
    let neg = at + 1 < s.len() && s[at + 1] == 0x2d;
    let q = if neg {
        at + 2
    } else {
        at + 1
    };
    let e = digits_end(s, q);
    lemma_digits_run(s, q);
    assert(s[at] == t[at]);
    assert(s[at + 1] == t[at + 1]);
    lemma_digits_local(s, t, q);
    assert(s[e] == t[e]);
}

/// A term that was decoded ends within the input, behind where it starts.
pub proof fn lemma_parse_bounds(s: Seq<u8>, at: int, depth: nat)
    ensures
        parse_value(s, at, depth) matches Ok(r) ==> 0 <= at < r.1 <= s.len(),
    decreases depth, s.len() - at, 2nat,
{
    if 0 <= at < s.len() {
        if is_digit(s[at]) {
            lemma_digits_run(s, at);
        } else if s[at] == 0x69 {
            let neg = at + 1 < s.len() && s[at + 1] == 0x2d;
            lemma_digits_run(s, if neg { at + 2 } else { at + 1 });
        } else if s[at] == 0x6c && depth > 0 {
            lemma_items_bounds(s, at + 1, (depth - 1) as nat, Seq::empty());
        } else if s[at] == 0x64 && depth > 0 {
            lemma_entries_bounds(s, at + 1, (depth - 1) as nat, Seq::empty());
        }
    }
}

proof fn lemma_items_bounds(s: Seq<u8>, at: int, depth: nat, acc: Seq<Value>)
    ensures
        parse_items(s, at, depth, acc) matches Ok(r) ==> 0 <= at < r.1 <= s.len(),
    decreases depth, s.len() - at, 3nat,
{
    if 0 <= at < s.len() && s[at] != 0x65 {
        match parse_value(s, at, depth) {
            Ok((v, n)) => {
                if at < n <= s.len() {
                    lemma_items_bounds(s, n, depth, acc.push(v));
                }
            },
            Err(_) => {},
        }
    }
}

proof fn lemma_entries_bounds(s: Seq<u8>, at: int, depth: nat, acc: Seq<(Seq<u8>, Value)>)
    ensures
        parse_entries(s, at, depth, acc) matches Ok(r) ==> 0 <= at < r.1 <= s.len(),
    decreases depth, s.len() - at, 3nat,
{
    if 0 <= at < s.len() && s[at] != 0x65 {
        match parse_bytes(s, at) {
            Ok((k, p)) => {
                if at < p <= s.len() {
                    match parse_value(s, p, depth) {
                        Ok((v, n)) => {
                            if p < n <= s.len() {
                                lemma_entries_bounds(s, n, depth, dict_insert(acc, k, v));
                            }
                        },
                        Err(_) => {},
                    }
                }
            },
            Err(_) => {},
        }
    }
}

/// Decoding depends on the bytes of the term alone: an input that holds
/// the same bytes from `at` up to where the term ends decodes there to the
/// same value, ending at the same index, whatever else it holds.
pub proof fn lemma_parse_local(s: Seq<u8>, t: Seq<u8>, at: int, depth: nat)
    requires
        parse_value(s, at, depth) is Ok,
        parse_value(s, at, depth)->Ok_0.1 <= t.len(),
        forall|i: int| at <= i < parse_value(s, at, depth)->Ok_0.1 ==> s[i] == t[i],
    ensures
        parse_value(t, at, depth) == parse_value(s, at, depth),
    decreases depth, s.len() - at, 2nat,
{
    lemma_parse_bounds(s, at, depth);
    assert(s[at] == t[at]);
    if is_digit(s[at]) {
        lemma_bytes_local(s, t, at);
    } else if s[at] == 0x69 {
        lemma_int_local(s, t, at);
    } else if s[at] == 0x6c {
        lemma_items_local(s, t, at + 1, (depth - 1) as nat, Seq::empty());
    } else {
        lemma_entries_local(s, t, at + 1, (depth - 1) as nat, Seq::empty());
    }
}

proof fn lemma_items_local(s: Seq<u8>, t: Seq<u8>, at: int, depth: nat, acc: Seq<Value>)
    requires
        parse_items(s, at, depth, acc) is Ok,
        parse_items(s, at, depth, acc)->Ok_0.1 <= t.len(),
        forall|i: int| at <= i < parse_items(s, at, depth, acc)->Ok_0.1 ==> s[i] == t[i],
    ensures
        parse_items(t, at, depth, acc) == parse_items(s, at, depth, acc),
    decreases depth, s.len() - at, 3nat,
{
    lemma_items_bounds(s, at, depth, acc);
    assert(s[at] == t[at]);
    if s[at] != 0x65 {
        let (v, n) = parse_value(s, at, depth)->Ok_0;
        lemma_items_bounds(s, n, depth, acc.push(v));
        lemma_parse_local(s, t, at, depth);
        lemma_items_local(s, t, n, depth, acc.push(v));
    }
}

proof fn lemma_entries_local(s: Seq<u8>, t: Seq<u8>, at: int, depth: nat, acc: Seq<(Seq<u8>, Value)>)
    requires
        parse_entries(s, at, depth, acc) is Ok,
        parse_entries(s, at, depth, acc)->Ok_0.1 <= t.len(),
        forall|i: int| at <= i < parse_entries(s, at, depth, acc)->Ok_0.1 ==> s[i] == t[i],
    ensures
        parse_entries(t, at, depth, acc) == parse_entries(s, at, depth, acc),
    decreases depth, s.len() - at, 3nat,
{
    lemma_entries_bounds(s, at, depth, acc);
    assert(s[at] == t[at]);
    if s[at] != 0x65 {
        let (k, p) = parse_bytes(s, at)->Ok_0;
        let (v, n) = parse_value(s, p, depth)->Ok_0;
        lemma_entries_bounds(s, n, depth, dict_insert(acc, k, v));
        lemma_bytes_local(s, t, at);
        lemma_parse_local(s, t, p, depth);
        lemma_entries_local(s, t, n, depth, dict_insert(acc, k, v));
    }
}

/// Decoding undoes encoding: the canonical encoding of a value that the
/// decoder can give back decodes to that value, with nothing left over.
pub proof fn lemma_decode_encode(v: Value)
    requires
        canonical(v, MAX_DEPTH as nat),
    ensures
        parse_all(encode(v)) == Ok::<Value, int>(v),
{
    let s = encode(v);
    assert(s.subrange(0, s.len() as int) =~= s);
    lemma_value_read(s, 0, v, MAX_DEPTH as nat);
}

/// Round trip: an input that is a canonical encoding decodes, and encoding
/// the decoded value gives the input back, byte for byte.
pub proof fn lemma_round_trip(bytes: Seq<u8>)
    requires
        is_canonical(bytes),
    ensures
        parse_all(bytes) matches Ok(v) && encode(v) == bytes,
{
    let v = choose|v: Value| canonical(v, MAX_DEPTH as nat) && encode(v) == bytes;
    lemma_decode_encode(v);
}

/// The canonical encoding tells values apart: two values that the decoder
/// can give back and that differ are encoded differently.
pub proof fn lemma_encode_injective(a: Value, b: Value)
    requires
        canonical(a, MAX_DEPTH as nat),
        canonical(b, MAX_DEPTH as nat),
        encode(a) == encode(b),
    ensures
        a == b,
{
    lemma_decode_encode(a);
    lemma_decode_encode(b);
}

/// An input is a canonical encoding exactly if it decodes and the decoded
/// value is encoded to the same bytes again.
pub proof fn lemma_canonical_iff(bytes: Seq<u8>)
    ensures
        is_canonical(bytes) <==> (parse_all(bytes) matches Ok(v) && encode(v) == bytes),
{
    if is_canonical(bytes) {
        lemma_round_trip(bytes);
    }
    if let Ok(v) = parse_all(bytes) {
        if encode(v) == bytes {
            lemma_decoded_round_trip(bytes);
            assert(canonical(v, MAX_DEPTH as nat) && encode(v) == bytes);
        }
    }
}

} // verus!
