use vstd::prelude::*;
use vstd::utf8::{decode_utf8, encode_utf8, valid_utf8};

use crate::error::{Error, ErrorKind};
use crate::schema::{Column, Schema, Type};
use crate::table::pow256;
use crate::types::{value_eq, values_eq, Row, Value};

verus! {

/// The low `k` bytes of `n`, least significant first.
pub open spec fn le_bytes(n: nat, k: nat) -> Seq<u8>
    decreases k,
{
    if k == 0 {
        Seq::empty()
    } else {
        seq![(n % 256) as u8] + le_bytes(n / 256, (k - 1) as nat)
    }
}

/// The two's-complement bits of an `i64`, as a number.
pub open spec fn i64_bits(v: i64) -> nat {
    if v < 0 {
        (v + 0x1_0000_0000_0000_0000) as nat
    } else {
        v as nat
    }
}

/// The encoding of one value: a four-byte tag, then the payload.
pub open spec fn value_bytes(v: Value) -> Seq<u8> {
    match v {
        Value::Null => le_bytes(0, 4),
        Value::Bool(b) => le_bytes(1, 4).push(if b { 1u8 } else { 0u8 }),
        Value::Int(n) => le_bytes(2, 4) + le_bytes(i64_bits(n), 8),
        Value::String(s) => le_bytes(3, 4) + le_bytes(encode_utf8(s@).len(), 8) + encode_utf8(s@),
    }
}

/// The encodings of a sequence of values, one after another.
pub open spec fn values_bytes(vs: Seq<Value>) -> Seq<u8>
    decreases vs.len(),
{
    if vs.len() == 0 {
        Seq::empty()
    } else {
        value_bytes(vs[0]) + values_bytes(vs.drop_first())
    }
}

/// The stored form of a row: its length as eight bytes, then each value.
pub open spec fn row_bytes(vs: Seq<Value>) -> Seq<u8> {
    le_bytes(vs.len(), 8) + values_bytes(vs)
}

proof fn lemma_le_len(n: nat, k: nat)
    ensures
        le_bytes(n, k).len() == k,
    decreases k,
{
    if k > 0 {
        lemma_le_len(n / 256, (k - 1) as nat);
    }
}

proof fn lemma_le_injective(a: nat, b: nat, k: nat)
    requires
        a < pow256(k),
        b < pow256(k),
        le_bytes(a, k) == le_bytes(b, k),
    ensures
        a == b,
    decreases k,
{
    if k > 0 {
        let (la, lb) = (le_bytes(a, k), le_bytes(b, k));
        assert(la[0] == lb[0]);
        assert(la.drop_first() =~= le_bytes(a / 256, (k - 1) as nat));
        assert(lb.drop_first() =~= le_bytes(b / 256, (k - 1) as nat));
        assert(a / 256 < pow256((k - 1) as nat) && b / 256 < pow256((k - 1) as nat)) by (nonlinear_arith)
            requires
                a < pow256(k),
                b < pow256(k),
                pow256(k) == 256 * pow256((k - 1) as nat),
        ;
        lemma_le_injective(a / 256, b / 256, (k - 1) as nat);
        assert(a == 256 * (a / 256) + a % 256 && b == 256 * (b / 256) + b % 256) by (nonlinear_arith);
    }
}

proof fn lemma_values_bytes_push(vs: Seq<Value>, v: Value)
    ensures
        values_bytes(vs.push(v)) == values_bytes(vs) + value_bytes(v),
    decreases vs.len(),
{
    if vs.len() == 0 {
        assert(vs.push(v).drop_first() =~= Seq::<Value>::empty());
        assert(values_bytes(Seq::<Value>::empty()) == Seq::<u8>::empty());
        assert(vs =~= Seq::<Value>::empty());
        assert(vs.push(v)[0] == v);
        assert(values_bytes(vs.push(v)) =~= values_bytes(vs) + value_bytes(v));
    } else {
        assert(vs.push(v)[0] == vs[0]);
        assert(vs.push(v).drop_first() =~= vs.drop_first().push(v));
        lemma_values_bytes_push(vs.drop_first(), v);
        assert(values_bytes(vs.push(v)) =~= values_bytes(vs) + value_bytes(v));
    }
}

/// Appends the low `k` bytes of `n`, least significant first.
fn push_le(out: &mut Vec<u8>, n: u64, k: usize)
    ensures
        final(out)@ == old(out)@ + le_bytes(n as nat, k as nat),
{
    let mut x: u64 = n;
    let mut i: usize = 0;
    proof {
        assert(old(out)@ + le_bytes(n as nat, k as nat) =~= out@ + le_bytes(x as nat, (k - i) as nat));
    }
    while i < k
        invariant
            i <= k,
            old(out)@ + le_bytes(n as nat, k as nat) == out@ + le_bytes(x as nat, (k - i) as nat),
        decreases k - i,
    {
        let ghost before = out@;
        out.push((x % 256) as u8);
        proof {
            assert(before + le_bytes(x as nat, (k - i) as nat) =~= out@ + le_bytes(
                (x / 256) as nat,
                (k - i - 1) as nat,
            ));
        }
        x = x / 256;
        i = i + 1;
    }
    proof {
        assert(out@ + le_bytes(x as nat, 0) =~= out@);
    }
}

/// Reads `k` bytes at `pos` as a little-endian number.
fn read_le(bytes: &Vec<u8>, pos: usize, k: usize) -> (r: u64)
    requires
        k <= 8,
        pos + k <= bytes@.len(),
    ensures
        le_bytes(r as nat, k as nat) == bytes@.subrange(pos as int, pos + k),
        (r as nat) < pow256(k as nat),
{
    let mut x: u64 = 0;
    let mut i: usize = k;
    let len = bytes.len();
    proof {
        assert(le_bytes(0, 0) =~= bytes@.subrange(pos + k, pos + k));
    }
    while i > 0
        invariant
            i <= k <= 8,
            pos + k <= bytes@.len(),
            len == bytes@.len(),
            (x as nat) < pow256((k - i) as nat),
            le_bytes(x as nat, (k - i) as nat) == bytes@.subrange(pos + i, pos + k),
        decreases i,
    {
        proof {
            crate::table::lemma_pow256_bound((k - i) as nat);
            assert(x * 256 + 255 < 0x1_0000_0000_0000_0000) by (nonlinear_arith)
                requires
                    (x as nat) < pow256((k - i) as nat),
                    pow256((k - i) as nat) * 256 <= 0x1_0000_0000_0000_0000,
            ;
        }
        let b = bytes[pos + i - 1];
        let y: u64 = x * 256 + b as u64;
        proof {
            assert(y / 256 == x && y % 256 == b) by (nonlinear_arith)
                requires
                    y == x * 256 + b,
                    b < 256,
            ;
            assert(le_bytes(y as nat, (k - i + 1) as nat) =~= bytes@.subrange(pos + i - 1, pos + k));
            assert((y as nat) < pow256((k - i + 1) as nat)) by (nonlinear_arith)
                requires
                    y == x * 256 + b,
                    b < 256,
                    (x as nat) < pow256((k - i) as nat),
                    pow256((k - i + 1) as nat) == 256 * pow256((k - i) as nat),
            ;
        }
        x = y;
        i = i - 1;
    }
    x
}

/// Relies on `String::from_utf8`: it accepts exactly the valid UTF-8 byte
/// strings, and the string holds the characters those bytes encode.
#[verifier::external_body]
fn string_from_utf8(b: Vec<u8>) -> (r: Option<String>)
    ensures
        r is Some <==> valid_utf8(b@),
        r matches Some(s) ==> s@ == decode_utf8(b@),
{
    String::from_utf8(b).ok()
}

fn push_value(out: &mut Vec<u8>, v: &Value)
    ensures
        final(out)@ == old(out)@ + value_bytes(*v),
{
    match v {
        Value::Null => push_le(out, 0, 4),
        Value::Bool(b) => {
            push_le(out, 1, 4);
            out.push(if *b { 1u8 } else { 0u8 });
        },
        Value::Int(n) => {
            push_le(out, 2, 4);
            let bits: u64 = if *n >= 0 {
                *n as u64
            } else {
                (*n + 0x7fff_ffff_ffff_ffffi64 + 1) as u64 + 0x8000_0000_0000_0000u64
            };
            assert(bits as nat == i64_bits(*n));
            push_le(out, bits, 8);
            proof {
                assert(out@ =~= old(out)@ + value_bytes(*v));
            }
        },
        Value::String(t) => {
            let b = t.as_str().as_bytes();
            push_le(out, 3, 4);
            push_le(out, b.len() as u64, 8);
            let ghost mid = out@;
            let mut i: usize = 0;
            while i < b.len()
                invariant
                    i <= b@.len(),
                    out@ == mid + b@.subrange(0, i as int),
                decreases b@.len() - i,
            {
                out.push(b[i]);
                proof {
                    assert(out@ =~= mid + b@.subrange(0, i + 1));
                }
                i = i + 1;
            }
            proof {
                assert(b@.subrange(0, i as int) =~= b@);
                assert(out@ =~= old(out)@ + value_bytes(*v));
            }
        },
    }
}

/// `s` begins with `p`.
pub open spec fn starts_with(s: Seq<u8>, p: Seq<u8>) -> bool {
    p.len() <= s.len() && s.subrange(0, p.len() as int) == p
}

fn corrupt() -> (r: Error)
    ensures
        r.kind == ErrorKind::Storage,
{
    Error::new(ErrorKind::Storage, "malformed stored row")
}

/// The tag that leads a value's encoding.
pub open spec fn tag_of(v: Value) -> nat {
    match v {
        Value::Null => 0,
        Value::Bool(_) => 1,
        Value::Int(_) => 2,
        Value::String(_) => 3,
    }
}

proof fn lemma_value_bytes_shape(t: Value)
    ensures
        value_bytes(t).len() >= 4,
        value_bytes(t).subrange(0, 4) == le_bytes(tag_of(t), 4),
        t is Bool ==> value_bytes(t).len() == 5 && value_bytes(t)[4] == (if t->Bool_0 { 1u8 } else { 0u8 }),
        t is Int ==> value_bytes(t).len() == 12 && value_bytes(t).subrange(4, 12) == le_bytes(i64_bits(t->Int_0), 8),
        t is String ==> value_bytes(t).len() == 12 + encode_utf8(t->String_0@).len()
            && value_bytes(t).subrange(4, 12) == le_bytes(encode_utf8(t->String_0@).len(), 8)
            && value_bytes(t).subrange(12, value_bytes(t).len() as int) == encode_utf8(t->String_0@),
{
    lemma_le_len(tag_of(t), 4);
    match t {
        Value::Null => {
            assert(value_bytes(t).subrange(0, 4) =~= le_bytes(tag_of(t), 4));
        },
        Value::Bool(b) => {
            assert(value_bytes(t).subrange(0, 4) =~= le_bytes(tag_of(t), 4));
        },
        Value::Int(n) => {
            lemma_le_len(i64_bits(n), 8);
            assert(value_bytes(t).subrange(0, 4) =~= le_bytes(tag_of(t), 4));
            assert(value_bytes(t).subrange(4, 12) =~= le_bytes(i64_bits(n), 8));
        },
        Value::String(x) => {
            let eb = encode_utf8(x@);
            lemma_le_len(eb.len(), 8);
            assert(value_bytes(t).subrange(0, 4) =~= le_bytes(tag_of(t), 4));
            assert(value_bytes(t).subrange(4, 12) =~= le_bytes(eb.len(), 8));
            assert(value_bytes(t).subrange(12, value_bytes(t).len() as int) =~= eb);
        },
    }
}

/// Reads one value at `pos`.
fn read_value(bytes: &Vec<u8>, pos: usize, Ghost(target): Ghost<Option<Value>>) -> (r: Result<(Value, usize), Error>)
    requires
        pos <= bytes@.len(),
    ensures
        r matches Ok((v, next)) ==> pos <= next <= bytes@.len() && bytes@.subrange(pos as int, next as int)
            == value_bytes(v),
        r is Err ==> r->Err_0.kind == ErrorKind::Storage,
        (target is Some && starts_with(bytes@.skip(pos as int), value_bytes(target->Some_0))) ==> (
        r matches Ok((v, next)) && next == pos + value_bytes(target->Some_0).len()),
{
    let len = bytes.len();
    let ghost matched = target is Some && starts_with(bytes@.skip(pos as int), value_bytes(target->Some_0));
    let ghost t = target->Some_0;
    proof {
        lemma_value_bytes_shape(t);
        if matched {
            assert forall|j: int| 0 <= j < value_bytes(t).len() implies #[trigger] bytes@[pos + j] == value_bytes(t)[j] by {
                assert(bytes@[pos + j] == bytes@.skip(pos as int).subrange(0, value_bytes(t).len() as int)[j]);
            }
        }
    }
    if len - pos < 4 {
        return Err(corrupt());
    }
    let tag = read_le(bytes, pos, 4);
    let p = pos + 4;
    proof {
        reveal_with_fuel(pow256, 9);
        if matched {
            assert(bytes@.subrange(pos as int, p as int) =~= value_bytes(t).subrange(0, 4));
            lemma_le_injective(tag as nat, tag_of(t), 4);
        }
        assert(matched ==> tag as nat == tag_of(t));
    }
    if tag == 0 {
        proof {
            assert(bytes@.subrange(pos as int, p as int) =~= value_bytes(Value::Null));
        }
        Ok((Value::Null, p))
    } else if tag == 1 {
        if len - p < 1 {
            return Err(corrupt());
        }
        let b = bytes[p];
        if b > 1 {
            proof {
                if matched {
                    assert(bytes@[pos + 4] == value_bytes(t)[4]);
                }
            }
            return Err(corrupt());
        }
        let v = Value::Bool(b == 1);
        proof {
            assert(bytes@.subrange(pos as int, p + 1) =~= value_bytes(v));
        }
        Ok((v, p + 1))
    } else if tag == 2 {
        if len - p < 8 {
            return Err(corrupt());
        }
        let bits = read_le(bytes, p, 8);
        let n: i64 = if bits >= 0x8000_0000_0000_0000u64 {
            ((bits - 0x8000_0000_0000_0000u64) as i64) - 0x7fff_ffff_ffff_ffffi64 - 1
        } else {
            bits as i64
        };
        proof {
            assert(i64_bits(n) == bits as nat);
            assert(bytes@.subrange(pos as int, p + 8) =~= value_bytes(Value::Int(n)));
        }
        Ok((Value::Int(n), p + 8))
    } else if tag == 3 {
        if len - p < 8 {
            return Err(corrupt());
        }
        let n = read_le(bytes, p, 8);
        let q = p + 8;
        proof {
            if matched {
                let eb = encode_utf8(t->String_0@);
                assert(bytes@.subrange(p as int, q as int) =~= value_bytes(t).subrange(4, 12));
                assert(eb.len() < pow256(8));
                lemma_le_injective(n as nat, eb.len(), 8);
            }
            assert(matched ==> n as nat == encode_utf8(t->String_0@).len());
        }
        if n > (len - q) as u64 {
            return Err(corrupt());
        }
        let end = q + n as usize;
        let mut raw: Vec<u8> = Vec::new();
        let mut i: usize = q;
        while i < end
            invariant
                q <= i <= end <= bytes@.len(),
                raw@ == bytes@.subrange(q as int, i as int),
            decreases end - i,
        {
            raw.push(bytes[i]);
            proof {
                assert(raw@ =~= bytes@.subrange(q as int, i + 1));
            }
            i = i + 1;
        }
        let ghost raw_view = raw@;
        proof {
            if matched {
                assert(raw_view =~= encode_utf8(t->String_0@));
                vstd::utf8::encode_utf8_valid_utf8(t->String_0@);
            }
        }
        match string_from_utf8(raw) {
            Some(text) => {
                proof {
                    vstd::utf8::decode_utf8_encode_utf8(raw_view);
                    assert(bytes@.subrange(pos as int, end as int) =~= value_bytes(Value::String(text)));
                }
                Ok((Value::String(text), end))
            },
            None => Err(corrupt()),
        }
    } else {
        Err(corrupt())
    }
}

proof fn lemma_value_prefix(u: Value, w: Value, s: Seq<u8>)
    requires
        starts_with(s, value_bytes(u)),
        starts_with(s, value_bytes(w)),
        s.len() < pow256(8),
    ensures
        value_bytes(u) == value_bytes(w),
        value_eq(u, w),
{
    reveal_with_fuel(pow256, 9);
    lemma_value_bytes_shape(u);
    lemma_value_bytes_shape(w);
    let (bu, bw) = (value_bytes(u), value_bytes(w));
    assert(bu.subrange(0, 4) == s.subrange(0, 4)) by {
        assert(bu.subrange(0, 4) =~= s.subrange(0, bu.len() as int).subrange(0, 4));
    }
    assert(bw.subrange(0, 4) == s.subrange(0, 4)) by {
        assert(bw.subrange(0, 4) =~= s.subrange(0, bw.len() as int).subrange(0, 4));
    }
    lemma_le_injective(tag_of(u), tag_of(w), 4);
    match (u, w) {
        (Value::Bool(x), Value::Bool(y)) => {
            assert(bu[4] == s[4] && bw[4] == s[4]);
            assert(bu =~= bw);
        },
        (Value::Int(x), Value::Int(y)) => {
            assert(bu.subrange(4, 12) =~= s.subrange(4, 12));
            assert(bw.subrange(4, 12) =~= s.subrange(4, 12));
            lemma_le_injective(i64_bits(x), i64_bits(y), 8);
            assert(bu =~= bw);
        },
        (Value::String(x), Value::String(y)) => {
            let (ex, ey) = (encode_utf8(x@), encode_utf8(y@));
            assert(bu.subrange(4, 12) =~= s.subrange(4, 12));
            assert(bw.subrange(4, 12) =~= s.subrange(4, 12));
            lemma_le_injective(ex.len(), ey.len(), 8);
            assert(ex =~= ey) by {
                assert forall|j: int| 0 <= j < ex.len() implies ex[j] == ey[j] by {
                    assert(ex[j] == bu.subrange(12, bu.len() as int)[j]);
                    assert(ey[j] == bw.subrange(12, bw.len() as int)[j]);
                    assert(bu[12 + j] == s[12 + j]);
                    assert(bw[12 + j] == s[12 + j]);
                }
            }
            vstd::utf8::encode_utf8_decode_utf8(x@);
            vstd::utf8::encode_utf8_decode_utf8(y@);
            assert(bu =~= bw);
        },
        (Value::Null, Value::Null) => {
            assert(bu =~= bw);
        },
        _ => {},
    }
}

proof fn lemma_values_injective(a: Seq<Value>, b: Seq<Value>)
    requires
        a.len() == b.len(),
        values_bytes(a) == values_bytes(b),
        values_bytes(a).len() < pow256(8),
    ensures
        values_eq(a, b),
    decreases a.len(),
{
    if a.len() > 0 {
        let s = values_bytes(a);
        let (ua, ub) = (value_bytes(a[0]), value_bytes(b[0]));
        assert(s == ua + values_bytes(a.drop_first()));
        assert(s == ub + values_bytes(b.drop_first()));
        assert(s.subrange(0, ua.len() as int) =~= ua);
        assert(s.subrange(0, ub.len() as int) =~= ub);
        lemma_value_prefix(a[0], b[0], s);
        assert(values_bytes(a.drop_first()) =~= s.subrange(ua.len() as int, s.len() as int));
        assert(values_bytes(b.drop_first()) =~= s.subrange(ub.len() as int, s.len() as int));
        lemma_values_injective(a.drop_first(), b.drop_first());
        crate::ops::sort::lemma_values_eq_cons(a, b);
    }
}

/// Serialization round-trips: two rows whose stored forms agree hold equal
/// values, so a row deserialized from what another serialized equals it
/// value by value.
pub proof fn lemma_row_round_trip(original: Seq<Value>, decoded: Seq<Value>)
    requires
        row_bytes(decoded) == row_bytes(original),
        row_bytes(original).len() < pow256(8),
    ensures
        values_eq(decoded, original),
{
    reveal_with_fuel(pow256, 9);
    let s = row_bytes(original);
    lemma_le_len(original.len(), 8);
    lemma_le_len(decoded.len(), 8);
    assert(s.subrange(0, 8) =~= le_bytes(original.len(), 8));
    assert(row_bytes(decoded).subrange(0, 8) =~= le_bytes(decoded.len(), 8));
    assert(original.len() < pow256(8) && decoded.len() < pow256(8)) by {
        lemma_values_len_bound(original);
        lemma_values_len_bound(decoded);
    }
    lemma_le_injective(decoded.len(), original.len(), 8);
    assert(values_bytes(decoded) =~= s.subrange(8, s.len() as int));
    assert(values_bytes(original) =~= s.subrange(8, s.len() as int));
    lemma_values_injective(decoded, original);
}

proof fn lemma_values_len_bound(vs: Seq<Value>)
    ensures
        values_bytes(vs).len() >= 4 * vs.len(),
    decreases vs.len(),
{
    if vs.len() > 0 {
        lemma_value_bytes_shape(vs[0]);
        lemma_values_len_bound(vs.drop_first());
    }
}

impl Row {
    /// Appends the stored form of the row.
    pub fn serialize(&self, bytes: &mut Vec<u8>) -> (r: Result<(), Error>)
        ensures
            r is Ok,
            final(bytes)@ == old(bytes)@ + row_bytes(self@),
    {
        push_le(bytes, self.len() as u64, 8);
        let ghost mid = bytes@;
        let mut i: usize = 0;
        proof {
            assert(self@.take(0) =~= Seq::<Value>::empty());
            assert(bytes@ =~= mid + values_bytes(self@.take(0)));
        }
        while i < self.len()
            invariant
                i <= self@.len(),
                bytes@ == mid + values_bytes(self@.take(i as int)),
                mid == old(bytes)@ + le_bytes(self@.len(), 8),
            decreases self@.len() - i,
        {
            push_value(bytes, self.get(i));
            proof {
                assert(self@.take(i + 1) =~= self@.take(i as int).push(self@[i as int]));
                lemma_values_bytes_push(self@.take(i as int), self@[i as int]);
            }
            i = i + 1;
        }
        proof {
            assert(self@.take(i as int) =~= self@);
        }
        Ok(())
    }

    /// Reads a row from its stored form. The bytes are self-describing; the
    /// schema is not needed to decode them.
    pub fn deserialize(bytes: &Vec<u8>, schema: &Schema) -> (r: Result<Row, Error>)
        ensures
            r matches Ok(row) ==> row_bytes(row@) == bytes@,
            (exists|vs: Seq<Value>| row_bytes(vs) == bytes@) ==> r is Ok,
            r is Err ==> r->Err_0.kind == ErrorKind::Storage,
    {
        let len = bytes.len();
        let ghost target: Option<Seq<Value>> = if exists|vs: Seq<Value>| row_bytes(vs) == bytes@ {
            Some(choose|vs: Seq<Value>| row_bytes(vs) == bytes@)
        } else {
            None
        };
        let ghost tv = target->Some_0;
        proof {
            if target is Some {
                lemma_le_len(tv.len(), 8);
            }
        }
        if len < 8 {
            return Err(corrupt());
        }
        let count = read_le(bytes, 0, 8);
        proof {
            reveal_with_fuel(pow256, 9);
            if target is Some {
                assert(bytes@.subrange(0, 8) =~= le_bytes(tv.len(), 8));
                lemma_values_len_bound(tv);
                lemma_le_injective(count as nat, tv.len(), 8);
                lemma_le_len(tv.len(), 8);
                assert(bytes@ == row_bytes(tv));
                assert(tv.skip(0) =~= tv);
                assert(bytes@.skip(8) =~= values_bytes(tv.skip(0)));
            }
        }
        let mut vals: Vec<Value> = Vec::new();
        let mut pos: usize = 8;
        let mut i: u64 = 0;
        proof {
            assert(bytes@.subrange(8, 8) =~= values_bytes(vals@));
        }
        while i < count
            invariant
                8 <= pos <= len,
                len == bytes@.len(),
                bytes@.subrange(8, pos as int) == values_bytes(vals@),
                vals@.len() == i,
                i <= count,
                le_bytes(count as nat, 8) == bytes@.subrange(0, 8),
                (exists|vs: Seq<Value>| row_bytes(vs) == bytes@) ==> target is Some,
                target is Some ==> (count == tv.len() && i <= count && bytes@.skip(pos as int) == values_bytes(
                    tv.skip(i as int),
                )),
            decreases count - i,
        {
            let ghost ti: Option<Value> = if target is Some {
                Some(tv[i as int])
            } else {
                None
            };
            proof {
                if target is Some {
                    let rest = tv.skip(i as int);
                    assert(rest.drop_first() =~= tv.skip(i + 1));
                    assert(values_bytes(rest) == value_bytes(tv[i as int]) + values_bytes(tv.skip(i + 1)));
                    assert(bytes@.skip(pos as int).subrange(0, value_bytes(tv[i as int]).len() as int)
                        =~= value_bytes(tv[i as int]));
                    assert(starts_with(bytes@.skip(pos as int), value_bytes(tv[i as int])));
                    assert(ti == Some(tv[i as int]));
                }
            }
            assert(target is Some ==> (ti is Some && starts_with(bytes@.skip(pos as int), value_bytes(ti->Some_0))));
            let (v, next) = match read_value(bytes, pos, Ghost(ti)) {
                Ok(x) => x,
                Err(e) => {
                    assert(target is None);
                    return Err(e);
                },
            };
            let ghost before = vals@;
            vals.push(v);
            proof {
                lemma_values_bytes_push(before, v);
                assert(bytes@.subrange(8, next as int) =~= bytes@.subrange(8, pos as int) + bytes@.subrange(
                    pos as int,
                    next as int,
                ));
                if target is Some {
                    assert(bytes@.skip(next as int) =~= bytes@.skip(pos as int).subrange(
                        value_bytes(tv[i as int]).len() as int,
                        bytes@.skip(pos as int).len() as int,
                    ));
                    assert(bytes@.skip(next as int) =~= values_bytes(tv.skip(i + 1)));
                }
            }
            pos = next;
            i = i + 1;
        }
        if pos != len {
            proof {
                if target is Some {
                    assert(tv.skip(i as int) =~= Seq::<Value>::empty());
                }
            }
            return Err(corrupt());
        }
        proof {
            assert(bytes@ =~= bytes@.subrange(0, 8) + bytes@.subrange(8, pos as int));
        }
        Ok(Row::new(vals))
    }
}

/// The number that stands for a column type in a stored schema.
pub open spec fn type_code(t: Type) -> i64 {
    match t {
        Type::Null => 0,
        Type::Bool => 1,
        Type::Integer => 2,
        Type::Text => 3,
    }
}

/// A schema as a row of values: the primary key position (`-1` for none),
/// then each column's name and type code.
pub open spec fn schema_values(s: Schema) -> Seq<Value> {
    seq![Value::Int(
        match s.primary_key {
            Some(i) => i as i64,
            None => -1i64,
        },
    )] + Seq::new(2 * s.columns@.len(), |k: int|
        if k % 2 == 0 {
            Value::String(s.columns@[k / 2].name)
        } else {
            Value::Int(type_code(s.columns@[k / 2].type_))
        })
}

/// The stored form of a schema: the stored form of its row of values.
pub open spec fn schema_bytes(s: Schema) -> Seq<u8> {
    row_bytes(schema_values(s))
}

proof fn lemma_values_eq_bytes(a: Seq<Value>, b: Seq<Value>)
    requires
        values_eq(a, b),
    ensures
        values_bytes(a) == values_bytes(b),
    decreases a.len(),
{
    if a.len() > 0 {
        assert(value_eq(a[0], b[0]));
        assert(value_bytes(a[0]) == value_bytes(b[0]));
        assert(values_eq(a.drop_first(), b.drop_first())) by {
            assert forall|i: int| 0 <= i < a.len() - 1 implies value_eq(
                #[trigger] a.drop_first()[i],
                b.drop_first()[i],
            ) by {
                assert(value_eq(a[i + 1], b[i + 1]));
            }
        }
        lemma_values_eq_bytes(a.drop_first(), b.drop_first());
    }
}

fn type_of_code(c: i64) -> (r: Option<Type>)
    ensures
        r matches Some(t) ==> type_code(t) == c,
        (0 <= c <= 3) ==> r is Some,
{
    if c == 0 {
        Some(Type::Null)
    } else if c == 1 {
        Some(Type::Bool)
    } else if c == 2 {
        Some(Type::Integer)
    } else if c == 3 {
        Some(Type::Text)
    } else {
        None
    }
}

/// Positions `1 + 2j` and `2 + 2j` of a stored schema's row describe the column.
pub open spec fn column_at(row: Seq<Value>, j: int, c: Column) -> bool {
    value_eq(row[1 + 2 * j], Value::String(c.name)) && row[2 + 2 * j] == Value::Int(type_code(c.type_))
}

/// A schema that can be stored and read back: a primary key that names a
/// column, and sizes that fit the stored form.
pub open spec fn storable(s: Schema) -> bool {
    &&& s.primary_key matches Some(i) ==> i < s.columns@.len() && i <= i64::MAX
    &&& s.columns@.len() <= usize::MAX / 2
}

impl Schema {
    /// Appends the stored form of the schema.
    pub fn serialize(&self, bytes: &mut Vec<u8>) -> (r: Result<(), Error>)
        requires
            self.primary_key matches Some(i) ==> i <= i64::MAX,
            self.columns@.len() <= usize::MAX / 2,
        ensures
            r is Ok,
            final(bytes)@ == old(bytes)@ + schema_bytes(*self),
    {
        let mut vals: Vec<Value> = Vec::new();
        vals.push(
            Value::Int(
                match self.primary_key {
                    Some(i) => i as i64,
                    None => -1,
                },
            ),
        );
        let mut i: usize = 0;
        while i < self.columns.len()
            invariant
                i <= self.columns@.len(),
                self.columns@.len() <= usize::MAX / 2,
                vals@ == schema_values(*self).take(1 + 2 * i),
            decreases self.columns@.len() - i,
        {
            let c = &self.columns[i];
            vals.push(Value::String(c.name.clone()));
            vals.push(Value::Int(match c.type_ {
                Type::Null => 0,
                Type::Bool => 1,
                Type::Integer => 2,
                Type::Text => 3,
            }));
            proof {
                assert(vals@ =~= schema_values(*self).take(1 + 2 * (i + 1)));
            }
            i = i + 1;
        }
        proof {
            assert(vals@ =~= schema_values(*self));
        }
        Row::new(vals).serialize(bytes)
    }

    /// Reads a schema from its stored form.
    pub fn deserialize(bytes: &Vec<u8>) -> (r: Result<Schema, Error>)
        ensures
            r matches Ok(s) ==> schema_bytes(s) == bytes@,
            r is Err ==> r->Err_0.kind == ErrorKind::Storage,
            (exists|s: Schema| #[trigger] storable(s) && schema_bytes(s) == bytes@) ==> r is Ok,
    {
        let len = bytes.len();
        let ghost good = exists|s: Schema| #[trigger] storable(s) && schema_bytes(s) == bytes@;
        let ghost target = choose|s: Schema| #[trigger] storable(s) && schema_bytes(s) == bytes@;
        let row = match Row::deserialize(bytes, &Schema::empty()) {
            Ok(row) => row,
            Err(e) => {
                proof {
                    if good {
                        assert(row_bytes(schema_values(target)) == bytes@);
                    }
                }
                return Err(e);
            },
        };
        let ghost tv = schema_values(target);
        proof {
            if good {
                reveal_with_fuel(pow256, 9);
                assert(bytes@.len() <= usize::MAX);
                lemma_row_round_trip(tv, row@);
                assert(values_eq(row@, tv));
            }
        }
        let n = row.len();
        proof {
            if good {
                assert(tv.len() == 1 + 2 * target.columns@.len());
            }
        }
        if n == 0 || n % 2 == 0 {
            return Err(Error::new(ErrorKind::Storage, "malformed stored schema"));
        }
        proof {
            if good {
                assert(value_eq(row@[0], tv[0]));
            }
        }
        let primary_key = match row.get(0) {
            Value::Int(p) => if *p == -1 {
                None
            } else if *p >= 0 && (*p as u64) < (n as u64) / 2 {
                Some(*p as usize)
            } else {
                return Err(Error::new(ErrorKind::Storage, "malformed stored schema"));
            },
            _ => return Err(Error::new(ErrorKind::Storage, "malformed stored schema")),
        };
        let ncols = n / 2;
        let mut columns: Vec<Column> = Vec::new();
        let mut i: usize = 0;
        while i < ncols
            invariant
                ncols == n / 2,
                n == row@.len(),
                n % 2 == 1,
                good == (exists|s: Schema| #[trigger] storable(s) && schema_bytes(s) == bytes@),
                good ==> values_eq(row@, tv) && tv == schema_values(target) && ncols == target.columns@.len(),
                i <= ncols,
                columns@.len() == i,
                forall|j: int| 0 <= j < i ==> column_at(row@, j, #[trigger] columns@[j]),
            decreases ncols - i,
        {
            proof {
                if good {
                    assert(value_eq(row@[1 + 2 * i], tv[1 + 2 * i]));
                    assert(value_eq(row@[2 + 2 * i], tv[2 + 2 * i]));
                    assert(tv[2 + 2 * i] == Value::Int(type_code(target.columns@[i as int].type_)));
                }
            }
            let name = match row.get(1 + 2 * i) {
                Value::String(s) => {
                    let c = s.clone();
                    assert(c@ == s@);
                    c
                },
                _ => return Err(Error::new(ErrorKind::Storage, "malformed stored schema")),
            };
            let type_ = match row.get(2 + 2 * i) {
                Value::Int(c) => match type_of_code(*c) {
                    Some(t) => t,
                    None => return Err(Error::new(ErrorKind::Storage, "malformed stored schema")),
                },
                _ => return Err(Error::new(ErrorKind::Storage, "malformed stored schema")),
            };
            let ghost before = columns@;
            let ghost gname = name;
            proof {
                assert(value_eq(row@[1 + 2 * i], Value::String(gname)));
                assert(row@[2 + 2 * i] == Value::Int(type_code(type_)));
            }
            columns.push(Column { name, type_ });
            proof {
                assert(columns@[i as int].name == gname);
                assert forall|j: int| 0 <= j < i + 1 implies column_at(row@, j, #[trigger] columns@[j]) by {
                    if j < i {
                        assert(columns@[j] == before[j]);
                        assert(column_at(row@, j, before[j]));
                    }
                }
            }
            i = i + 1;
        }
        let schema = Schema { primary_key, columns };
        proof {
            let sv = schema_values(schema);
            assert(sv.len() == row@.len());
            assert(values_eq(sv, row@)) by {
                assert forall|k: int| 0 <= k < sv.len() implies value_eq(#[trigger] sv[k], row@[k]) by {
                    if k > 0 {
                        let j = (k - 1) / 2;
                        assert(column_at(row@, j, schema.columns@[j]));
                        if k % 2 == 1 {
                            assert(k == 1 + 2 * j);
                            assert(sv[k] == Value::String(schema.columns@[j].name));
                        } else {
                            assert(k == 2 + 2 * j);
                            assert(sv[k] == Value::Int(type_code(schema.columns@[j].type_)));
                        }
                    }
                }
            }
            lemma_values_eq_bytes(sv, row@);
        }
        Ok(schema)
    }
}

} // verus!
