use vstd::arithmetic::div_mod::lemma_div_is_ordered;
use vstd::prelude::*;

use crate::error::{Error, ErrorKind};
use crate::schema::Schema;
use crate::types::{Row, Value};

verus! {

/// `256^k`.
pub open spec fn pow256(k: nat) -> nat
    decreases k,
{
    if k == 0 {
        1
    } else {
        256 * pow256((k - 1) as nat)
    }
}

/// The low `k` bytes of `n`, most significant first.
pub open spec fn be_bytes(n: nat, k: nat) -> Seq<u8>
    decreases k,
{
    if k == 0 {
        Seq::empty()
    } else {
        be_bytes(n / 256, (k - 1) as nat).push((n % 256) as u8)
    }
}

/// Bytewise lexicographic order, the order of keys in the store.
pub open spec fn bytes_lt(a: Seq<u8>, b: Seq<u8>) -> bool
    decreases a.len(),
{
    if a.len() == 0 {
        b.len() > 0
    } else if b.len() == 0 {
        false
    } else if a[0] != b[0] {
        a[0] < b[0]
    } else {
        bytes_lt(a.drop_first(), b.drop_first())
    }
}

/// The key of an integer primary key: big-endian with the sign bit flipped,
/// so that byte order is numeric order.
pub open spec fn int_key(v: i64) -> Seq<u8> {
    be_bytes((v + 0x8000_0000_0000_0000) as nat, 8)
}

/// The key of a hidden primary key: the counter, big-endian.
pub open spec fn hidden_key(n: u64) -> Seq<u8> {
    be_bytes(n as nat, 8)
}

/// The key of a row under a schema's declared primary key.
pub open spec fn declared_key(v: Value) -> Option<Seq<u8>> {
    match v {
        Value::Bool(b) => Some(seq![if b { 1u8 } else { 0u8 }]),
        Value::Int(n) => Some(int_key(n)),
        Value::String(s) => Some(vstd::utf8::encode_utf8(s@)),
        Value::Null => None,
    }
}

/// The eight big-endian bytes of `n`.
pub fn be_u64(n: u64) -> (r: Vec<u8>)
    ensures
        r@ == be_bytes(n as nat, 8),
{
    let mut out: Vec<u8> = Vec::new();
    let mut x: u64 = n;
    let mut k: usize = 0;
    while k < 8
        invariant
            k <= 8,
            be_bytes(n as nat, 8) == be_bytes(x as nat, (8 - k) as nat) + out@,
        decreases 8 - k,
    {
        let ghost before = out@;
        out.insert(0, (x % 256) as u8);
        proof {
            assert(be_bytes(x as nat, (8 - k) as nat) == be_bytes((x / 256) as nat, (8 - k - 1) as nat).push(
                (x % 256) as u8,
            ));
            assert(be_bytes(x as nat, (8 - k) as nat) + before =~= be_bytes(
                (x / 256) as nat,
                (8 - k - 1) as nat,
            ) + out@);
        }
        x = x / 256;
        k = k + 1;
    }
    proof {
        assert(be_bytes(x as nat, 0) + out@ =~= out@);
    }
    out
}

pub(crate) proof fn lemma_pow256_bound(k: nat)
    requires
        k <= 8,
    ensures
        pow256(k) <= 0x1_0000_0000_0000_0000,
        k < 8 ==> pow256(k) * 256 <= 0x1_0000_0000_0000_0000,
        pow256(k) > 0,
    decreases k,
{
    if k > 0 {
        lemma_pow256_bound((k - 1) as nat);
    }
    reveal_with_fuel(pow256, 9);
}

/// The number that eight big-endian bytes stand for.
pub fn from_be_u64(b: &Vec<u8>) -> (r: u64)
    requires
        b@.len() == 8,
    ensures
        be_bytes(r as nat, 8) == b@,
{
    let mut x: u64 = 0;
    let mut k: usize = 0;
    while k < 8
        invariant
            k <= 8,
            b@.len() == 8,
            (x as nat) < pow256(k as nat),
            be_bytes(x as nat, k as nat) == b@.subrange(0, k as int),
        decreases 8 - k,
    {
        proof {
            lemma_pow256_bound(k as nat);
            assert(x * 256 + 255 < 0x1_0000_0000_0000_0000) by (nonlinear_arith)
                requires
                    (x as nat) < pow256(k as nat),
                    pow256(k as nat) * 256 <= 0x1_0000_0000_0000_0000,
            ;
        }
        let y: u64 = x * 256 + b[k] as u64;
        proof {
            assert(y / 256 == x && y % 256 == b@[k as int]) by (nonlinear_arith)
                requires
                    y == x * 256 + b@[k as int],
                    b@[k as int] < 256,
            ;
            assert(be_bytes(y as nat, (k + 1) as nat) =~= b@.subrange(0, k + 1));
            assert((y as nat) < pow256((k + 1) as nat)) by (nonlinear_arith)
                requires
                    y == x * 256 + b@[k as int],
                    b@[k as int] < 256,
                    (x as nat) < pow256(k as nat),
                    pow256((k + 1) as nat) == 256 * pow256(k as nat),
            ;
        }
        x = y;
        k = k + 1;
    }
    proof {
        assert(b@.subrange(0, 8) =~= b@);
    }
    x
}

/// The schema of a stored table, with the counter for its hidden primary key.
#[derive(Debug)]
pub struct Table {
    schema: Schema,
    hidden_pk: u64,
}

impl Table {
    pub closed spec fn schema_spec(&self) -> Schema {
        self.schema
    }

    /// The next hidden primary key to hand out.
    pub closed spec fn counter(&self) -> u64 {
        self.hidden_pk
    }

    pub fn new(schema: Schema, hidden_pk: u64) -> (r: Table)
        ensures
            r.schema_spec() == schema,
            r.counter() == hidden_pk,
    {
        Table { schema, hidden_pk }
    }

    pub fn schema(&self) -> (r: &Schema)
        ensures
            *r == self.schema_spec(),
    {
        &self.schema
    }

    /// The key of the next row: its declared primary key, or else the next
    /// value of the hidden counter, which advances by one.
    pub fn get_key(&mut self, row: &Row) -> (r: Result<Vec<u8>, Error>)
        ensures
            final(self).schema_spec() == old(self).schema_spec(),
            match old(self).schema_spec().primary_key {
                None => {
                    &&& old(self).counter() < u64::MAX ==> (r matches Ok(k) && k@ == hidden_key(old(self).counter())
                        && final(self).counter() == old(self).counter() + 1)
                    &&& old(self).counter() == u64::MAX ==> (r matches Err(e) && e.kind == ErrorKind::Constraint
                        && final(self).counter() == old(self).counter())
                },
                Some(i) => {
                    &&& final(self).counter() == old(self).counter()
                    &&& i < row@.len() && declared_key(row@[i as int]) is Some ==> (r matches Ok(k)
                        && k@ == declared_key(row@[i as int])->Some_0)
                    &&& !(i < row@.len() && declared_key(row@[i as int]) is Some) ==> (r matches Err(e)
                        && e.kind == ErrorKind::Constraint)
                },
            },
    {
        match self.schema.primary_key {
            None => {
                if self.hidden_pk == u64::MAX {
                    return Err(Error::new(ErrorKind::Constraint, "hidden primary key exhausted"));
                }
                let key = be_u64(self.hidden_pk);
                self.hidden_pk = self.hidden_pk + 1;
                Ok(key)
            },
            Some(index) => {
                if index >= row.len() {
                    return Err(Error::new(ErrorKind::Constraint, "row has no primary key column"));
                }
                match row.get(index) {
                    Value::Bool(val) => {
                        let mut key: Vec<u8> = Vec::new();
                        key.push(if *val { 1u8 } else { 0u8 });
                        proof {
                            assert(key@ =~= seq![if *val { 1u8 } else { 0u8 }]);
                        }
                        Ok(key)
                    },
                    Value::Int(val) => {
                        let v = *val;
                        let flipped: u64 = if v >= 0 {
                            v as u64 + 0x8000_0000_0000_0000u64
                        } else {
                            (v + 0x7fff_ffff_ffff_ffffi64 + 1) as u64
                        };
                        assert(flipped as int == v + 0x8000_0000_0000_0000);
                        Ok(be_u64(flipped))
                    },
                    Value::String(val) => Ok(vstd::slice::slice_to_vec(val.as_str().as_bytes())),
                    Value::Null => Err(Error::new(ErrorKind::Constraint, "primary key cannot be NULL")),
                }
            },
        }
    }
}

/// The hidden counter of a table whose greatest stored key is `last`: one
/// past it, or zero for an empty table.
pub fn hidden_pk_after(last: Option<&Vec<u8>>) -> (r: Result<u64, Error>)
    ensures
        last is None ==> r == Ok::<u64, Error>(0),
        last is Some ==> (r matches Ok(c) ==> c >= 1 && be_bytes((c - 1) as nat, 8) == last->Some_0@),
        last is Some ==> (r is Err ==> last->Some_0@.len() != 8 || last->Some_0@ == be_bytes(
            u64::MAX as nat,
            8,
        )),
        r is Err ==> r->Err_0.kind == ErrorKind::Storage,
{
    match last {
        None => Ok(0),
        Some(k) => {
            if k.len() != 8 {
                return Err(Error::new(ErrorKind::Storage, "malformed hidden primary key"));
            }
            let n = from_be_u64(k);
            if n == u64::MAX {
                return Err(Error::new(ErrorKind::Storage, "hidden primary key exhausted"));
            }
            Ok(n + 1)
        },
    }
}

proof fn lemma_bytes_lt_irreflexive(p: Seq<u8>)
    ensures
        !bytes_lt(p, p),
    decreases p.len(),
{
    if p.len() > 0 {
        lemma_bytes_lt_irreflexive(p.drop_first());
    }
}

proof fn lemma_bytes_lt_push(p: Seq<u8>, q: Seq<u8>, c: u8, d: u8)
    requires
        p.len() == q.len(),
    ensures
        bytes_lt(p.push(c), q.push(d)) <==> (bytes_lt(p, q) || (p == q && c < d)),
    decreases p.len(),
{
    let (pc, qd) = (p.push(c), q.push(d));
    if p.len() == 0 {
        assert(p =~= q);
        assert(pc[0] == c && qd[0] == d);
        assert(pc.drop_first() =~= Seq::<u8>::empty());
        assert(qd.drop_first() =~= Seq::<u8>::empty());
        assert(!bytes_lt(Seq::<u8>::empty(), Seq::<u8>::empty()));
        assert(!bytes_lt(p, q));
        assert(bytes_lt(pc, qd) == (c < d));
    } else {
        assert(pc[0] == p[0] && qd[0] == q[0]);
        assert(pc.drop_first() =~= p.drop_first().push(c));
        assert(qd.drop_first() =~= q.drop_first().push(d));
        lemma_bytes_lt_push(p.drop_first(), q.drop_first(), c, d);
        if p[0] == q[0] && p.drop_first() == q.drop_first() {
            assert forall|i: int| 0 <= i < p.len() implies p[i] == q[i] by {
                if i > 0 {
                    assert(p[i] == p.drop_first()[i - 1]);
                    assert(q[i] == q.drop_first()[i - 1]);
                }
            }
            assert(p =~= q);
        }
        if p == q {
            assert(p.drop_first() == q.drop_first());
        }
    }
}

proof fn lemma_be_len(n: nat, k: nat)
    ensures
        be_bytes(n, k).len() == k,
    decreases k,
{
    if k > 0 {
        lemma_be_len(n / 256, (k - 1) as nat);
    }
}

proof fn lemma_be_order(x: nat, y: nat, k: nat)
    requires
        x < y < pow256(k),
    ensures
        bytes_lt(be_bytes(x, k), be_bytes(y, k)),
        !bytes_lt(be_bytes(y, k), be_bytes(x, k)),
    decreases k,
{
    if k == 0 {
        assert(false);
    } else {
        let (qx, qy) = (x / 256, y / 256);
        lemma_div_is_ordered(x as int, y as int, 256);
        lemma_be_len(qx, (k - 1) as nat);
        lemma_be_len(qy, (k - 1) as nat);
        assert(qx < pow256((k - 1) as nat) && qy < pow256((k - 1) as nat)) by (nonlinear_arith)
            requires
                x < y < pow256(k),
                pow256(k) == 256 * pow256((k - 1) as nat),
                qx == x / 256,
                qy == y / 256,
                qx <= qy,
        ;
        lemma_bytes_lt_push(be_bytes(qx, (k - 1) as nat), be_bytes(qy, (k - 1) as nat), (x % 256) as u8, (y % 256) as u8);
        lemma_bytes_lt_push(be_bytes(qy, (k - 1) as nat), be_bytes(qx, (k - 1) as nat), (y % 256) as u8, (x % 256) as u8);
        if qx < qy {
            lemma_be_order(qx, qy, (k - 1) as nat);
            lemma_bytes_lt_irreflexive(be_bytes(qx, (k - 1) as nat));
        } else {
            assert(x % 256 < y % 256) by (nonlinear_arith)
                requires
                    x < y,
                    qx == x / 256,
                    qy == y / 256,
                    qx == qy,
            ;
            lemma_bytes_lt_irreflexive(be_bytes(qx, (k - 1) as nat));
        }
    }
}

/// Keys of a declared integer primary key sort in the store as the integers do.
pub proof fn lemma_int_key_order(a: i64, b: i64)
    requires
        a < b,
    ensures
        bytes_lt(int_key(a), int_key(b)),
        !bytes_lt(int_key(b), int_key(a)),
{
    reveal_with_fuel(pow256, 9);
    lemma_be_order((a + 0x8000_0000_0000_0000) as nat, (b + 0x8000_0000_0000_0000) as nat, 8);
}

/// Hidden primary keys sort in the store as the counter values they encode,
/// so successive inserts get strictly increasing keys.
pub proof fn lemma_hidden_key_order(m: u64, n: u64)
    requires
        m < n,
    ensures
        bytes_lt(hidden_key(m), hidden_key(n)),
        !bytes_lt(hidden_key(n), hidden_key(m)),
{
    reveal_with_fuel(pow256, 9);
    lemma_be_order(m as nat, n as nat, 8);
}

} // verus!
