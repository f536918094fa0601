use vstd::prelude::*;

use crate::error::{Error, ErrorKind};
use crate::schema::{Schema, Type};

verus! {

/// A scalar value.
#[derive(Debug, Clone)]
pub enum Value {
    Null,
    Bool(bool),
    Int(i64),
    String(String),
}

/// The type tag of a value.
pub open spec fn type_spec(v: Value) -> Type {
    match v {
        Value::Null => Type::Null,
        Value::Bool(_) => Type::Bool,
        Value::Int(_) => Type::Integer,
        Value::String(_) => Type::Text,
    }
}

/// Value equality: same tag and same payload (`Null` equals only `Null`).
pub open spec fn value_eq(a: Value, b: Value) -> bool {
    match (a, b) {
        (Value::Null, Value::Null) => true,
        (Value::Bool(x), Value::Bool(y)) => x == y,
        (Value::Int(x), Value::Int(y)) => x == y,
        (Value::String(x), Value::String(y)) => x@ == y@,
        _ => false,
    }
}

/// Integer coercion: booleans become 0 or 1.
pub open spec fn int_of(v: Value) -> Option<i64> {
    match v {
        Value::Bool(b) => Some(if b { 1i64 } else { 0i64 }),
        Value::Int(n) => Some(n),
        _ => None,
    }
}

/// Boolean coercion: integers are true when non-zero.
pub open spec fn bool_of(v: Value) -> Option<bool> {
    match v {
        Value::Bool(b) => Some(b),
        Value::Int(n) => Some(n != 0),
        _ => None,
    }
}

/// A value that coerces to `true`.
pub open spec fn truthy(v: Value) -> bool {
    bool_of(v) == Some(true)
}

/// Lexicographic order on character sequences, by code point.
pub open spec fn text_lt(a: Seq<char>, b: Seq<char>) -> bool
    decreases a.len(),
{
    if a.len() == 0 {
        b.len() > 0
    } else if b.len() == 0 {
        false
    } else if a[0] != b[0] {
        a[0] < b[0]
    } else {
        text_lt(a.drop_first(), b.drop_first())
    }
}

/// Ordering is defined only between values of the same non-null tag.
pub open spec fn comparable(a: Value, b: Value) -> bool {
    match (a, b) {
        (Value::Bool(_), Value::Bool(_)) => true,
        (Value::Int(_), Value::Int(_)) => true,
        (Value::String(_), Value::String(_)) => true,
        _ => false,
    }
}

/// Strict order between comparable values.
pub open spec fn value_lt(a: Value, b: Value) -> bool {
    match (a, b) {
        (Value::Bool(x), Value::Bool(y)) => !x && y,
        (Value::Int(x), Value::Int(y)) => x < y,
        (Value::String(x), Value::String(y)) => text_lt(x@, y@),
        _ => false,
    }
}

/// Checked integer arithmetic: the four operators.
#[derive(Clone, Copy, Debug, PartialEq, Eq, Structural)]
pub enum Arith {
    Add,
    Sub,
    Mul,
    Div,
}

/// The result of an arithmetic operator on two integers, `None` on overflow
/// or division by zero.
pub open spec fn arith_int(op: Arith, x: i64, y: i64) -> Option<i64> {
    match op {
        Arith::Add => x.checked_add(y),
        Arith::Sub => x.checked_sub(y),
        Arith::Mul => x.checked_mul(y),
        Arith::Div => x.checked_div(y),
    }
}

/// Arithmetic on values: both operands coerce to integers, else a value error;
/// overflow and division by zero are arithmetic errors.
pub open spec fn arith_spec(op: Arith, a: Value, b: Value) -> Result<Value, ErrorKind> {
    match (int_of(a), int_of(b)) {
        (Some(x), Some(y)) => match arith_int(op, x, y) {
            Some(z) => Ok(Value::Int(z)),
            None => Err(ErrorKind::Arithmetic),
        },
        _ => Err(ErrorKind::Value),
    }
}

/// Logical AND / OR on values coerced to booleans.
pub open spec fn logic_spec(is_and: bool, a: Value, b: Value) -> Result<Value, ErrorKind> {
    match (bool_of(a), bool_of(b)) {
        (Some(x), Some(y)) => Ok(Value::Bool(if is_and { x && y } else { x || y })),
        _ => Err(ErrorKind::Value),
    }
}

fn text_less(a: &String, b: &String) -> (r: bool)
    ensures
        r == text_lt(a@, b@),
{
    let sa = a.as_str();
    let sb = b.as_str();
    let la = sa.unicode_len();
    let lb = sb.unicode_len();
    let mut i: usize = 0;
    assert(a@.skip(0) =~= a@);
    assert(b@.skip(0) =~= b@);
    while i < la && i < lb
        invariant
            la == a@.len(),
            lb == b@.len(),
            sa@ == a@,
            sb@ == b@,
            i <= la,
            i <= lb,
            text_lt(a@, b@) == text_lt(a@.skip(i as int), b@.skip(i as int)),
        decreases la - i,
    {
        let ca = sa.get_char(i);
        let cb = sb.get_char(i);
        if ca != cb {
            return ca < cb;
        }
        assert(a@.skip(i as int).drop_first() =~= a@.skip(i + 1));
        assert(b@.skip(i as int).drop_first() =~= b@.skip(i + 1));
        i = i + 1;
    }
    i < lb
}

impl Value {
    /// The type tag of this value.
    pub fn type_(&self) -> (r: Type)
        ensures
            r == type_spec(*self),
    {
        match self {
            Value::Null => Type::Null,
            Value::Bool(_) => Type::Bool,
            Value::Int(_) => Type::Integer,
            Value::String(_) => Type::Text,
        }
    }

    /// A copy of this value.
    pub fn copy(&self) -> (r: Value)
        ensures
            r == *self,
    {
        match self {
            Value::Null => Value::Null,
            Value::Bool(b) => Value::Bool(*b),
            Value::Int(n) => Value::Int(*n),
            Value::String(s) => Value::String(s.clone()),
        }
    }

    pub fn to_bool(&self) -> (r: Option<bool>)
        ensures
            r == bool_of(*self),
    {
        match self {
            Value::Bool(val) => Some(*val),
            Value::Int(val) => Some(*val != 0),
            _ => None,
        }
    }

    pub fn to_int(&self) -> (r: Option<i64>)
        ensures
            r == int_of(*self),
    {
        match self {
            Value::Bool(val) => Some(if *val { 1i64 } else { 0i64 }),
            Value::Int(val) => Some(*val),
            _ => None,
        }
    }

    fn arith(&self, op: Arith, right: Value) -> (r: Result<Value, Error>)
        ensures
            crate::error::outcome(r) == arith_spec(op, *self, right),
    {
        let (left, right) = match (self.to_int(), right.to_int()) {
            (Some(x), Some(y)) => (x, y),
            _ => {
                return Err(Error::new(ErrorKind::Value, "operands are not convertible to integer"));
            },
        };
        let result = match op {
            Arith::Add => left.checked_add(right),
            Arith::Sub => left.checked_sub(right),
            Arith::Mul => left.checked_mul(right),
            Arith::Div => left.checked_div(right),
        };
        match result {
            Some(z) => Ok(Value::Int(z)),
            None => Err(Error::new(ErrorKind::Arithmetic, "integer overflow or division by zero")),
        }
    }

    pub fn add(&self, right: Value) -> (r: Result<Value, Error>)
        ensures
            crate::error::outcome(r) == arith_spec(Arith::Add, *self, right),
    {
        self.arith(Arith::Add, right)
    }

    pub fn sub(&self, right: Value) -> (r: Result<Value, Error>)
        ensures
            crate::error::outcome(r) == arith_spec(Arith::Sub, *self, right),
    {
        self.arith(Arith::Sub, right)
    }

    pub fn mul(&self, right: Value) -> (r: Result<Value, Error>)
        ensures
            crate::error::outcome(r) == arith_spec(Arith::Mul, *self, right),
    {
        self.arith(Arith::Mul, right)
    }

    pub fn div(&self, right: Value) -> (r: Result<Value, Error>)
        ensures
            crate::error::outcome(r) == arith_spec(Arith::Div, *self, right),
    {
        self.arith(Arith::Div, right)
    }

    pub fn and(&self, right: Value) -> (r: Result<Value, Error>)
        ensures
            crate::error::outcome(r) == logic_spec(true, *self, right),
    {
        match (self.to_bool(), right.to_bool()) {
            (Some(x), Some(y)) => Ok(Value::Bool(x && y)),
            _ => Err(Error::new(ErrorKind::Value, "operands are not convertible to bool")),
        }
    }

    pub fn or(&self, right: Value) -> (r: Result<Value, Error>)
        ensures
            crate::error::outcome(r) == logic_spec(false, *self, right),
    {
        match (self.to_bool(), right.to_bool()) {
            (Some(x), Some(y)) => Ok(Value::Bool(x || y)),
            _ => Err(Error::new(ErrorKind::Value, "operands are not convertible to bool")),
        }
    }

    /// Value equality (`Null` equals only `Null`).
    pub fn equals(&self, other: &Value) -> (r: bool)
        ensures
            r == value_eq(*self, *other),
    {
        match (self, other) {
            (Value::Null, Value::Null) => true,
            (Value::Bool(x), Value::Bool(y)) => *x == *y,
            (Value::Int(x), Value::Int(y)) => *x == *y,
            (Value::String(x), Value::String(y)) => x.eq(y),
            _ => false,
        }
    }

    /// Strict order; an error unless both values carry the same non-null tag.
    pub fn less_than(&self, other: &Value) -> (r: Result<bool, Error>)
        ensures
            comparable(*self, *other) ==> r == Ok::<bool, Error>(value_lt(*self, *other)),
            !comparable(*self, *other) ==> crate::error::fails_with(r, ErrorKind::Type),
    {
        match (self, other) {
            (Value::Bool(x), Value::Bool(y)) => Ok(!*x && *y),
            (Value::Int(x), Value::Int(y)) => Ok(*x < *y),
            (Value::String(x), Value::String(y)) => Ok(text_less(x, y)),
            _ => Err(Error::new(ErrorKind::Type, "cannot order values of different types")),
        }
    }

    /// Strict order, false between values of different tags or nulls.
    pub fn less(&self, other: &Value) -> (r: bool)
        ensures
            r == value_lt(*self, *other),
    {
        match self.less_than(other) {
            Ok(x) => x,
            Err(_) => false,
        }
    }

    /// The textual form: `null`, `true`/`false`, a decimal integer, or the raw text.
    pub fn render(&self) -> (r: String)
        ensures
            r@ == rendering(*self),
    {
        match self {
            Value::Null => "null".to_string(),
            Value::Bool(b) => if *b { "true".to_string() } else { "false".to_string() },
            Value::Int(n) => render_int(*n),
            Value::String(s) => s.clone(),
        }
    }
}

/// The textual form of a value: `null`, `true`/`false`, a decimal integer,
/// or the raw text.
pub open spec fn rendering(v: Value) -> Seq<char> {
    match v {
        Value::Null => "null"@,
        Value::Bool(b) => if b {
            "true"@
        } else {
            "false"@
        },
        Value::Int(n) => decimal(n as int),
        Value::String(s) => s@,
    }
}

/// Decimal digits of a natural number, most significant first.
pub open spec fn digits(n: nat) -> Seq<char>
    decreases n,
{
    if n < 10 {
        seq![(('0' as u32) + n) as char]
    } else {
        digits(n / 10).push((('0' as u32) + (n % 10)) as char)
    }
}

/// The decimal form of an integer, with a leading `-` when negative.
pub open spec fn decimal(n: int) -> Seq<char> {
    if n < 0 {
        seq!['-'].add(digits((-n) as nat))
    } else {
        digits(n as nat)
    }
}

/// Relies on `i64`'s `ToString` (through `Display`): the decimal form, with a
/// leading `-` for negative numbers and no leading zeros.
#[verifier::external_body]
fn render_int(n: i64) -> (r: String)
    ensures
        r@ == decimal(n as int),
{
    n.to_string()
}

impl PartialEq for Value {
    fn eq(&self, other: &Value) -> (r: bool) {
        self.equals(other)
    }
}

impl vstd::std_specs::cmp::PartialEqSpecImpl for Value {
    open spec fn obeys_eq_spec() -> bool {
        true
    }

    open spec fn eq_spec(&self, other: &Value) -> bool {
        value_eq(*self, *other)
    }
}

/// An ordered sequence of values.
#[derive(Clone, Debug)]
pub struct Row(pub Vec<Value>);

impl View for Row {
    type V = Seq<Value>;

    open spec fn view(&self) -> Seq<Value> {
        self.0@
    }
}

/// Pointwise value equality of two sequences of values.
pub open spec fn values_eq(a: Seq<Value>, b: Seq<Value>) -> bool {
    &&& a.len() == b.len()
    &&& forall|i: int| 0 <= i < a.len() ==> value_eq(#[trigger] a[i], b[i])
}

impl Row {
    pub fn new(values: Vec<Value>) -> (r: Row)
        ensures
            r@ == values@,
    {
        Row(values)
    }

    pub fn len(&self) -> (r: usize)
        ensures
            r == self@.len(),
    {
        self.0.len()
    }

    pub fn values(&self) -> (r: &Vec<Value>)
        ensures
            r@ == self@,
    {
        &self.0
    }

    pub fn get(&self, i: usize) -> (r: &Value)
        requires
            i < self@.len(),
        ensures
            *r == self@[i as int],
    {
        &self.0[i]
    }

    /// A copy of this row.
    pub fn copy(&self) -> (r: Row)
        ensures
            r@ == self@,
    {
        let mut out: Vec<Value> = Vec::new();
        let mut i: usize = 0;
        while i < self.0.len()
            invariant
                i <= self@.len(),
                out@ == self@.subrange(0, i as int),
            decreases self@.len() - i,
        {
            out.push(self.0[i].copy());
            proof {
                assert(out@ =~= self@.subrange(0, i + 1));
            }
            i = i + 1;
        }
        proof {
            assert(out@ =~= self@);
        }
        Row(out)
    }

    /// Pointwise equality with another row.
    pub fn equals(&self, other: &Row) -> (r: bool)
        ensures
            r == values_eq(self@, other@),
    {
        if self.0.len() != other.0.len() {
            return false;
        }
        let mut i: usize = 0;
        while i < self.0.len()
            invariant
                self@.len() == other@.len(),
                i <= self@.len(),
                forall|j: int| 0 <= j < i ==> value_eq(#[trigger] self@[j], other@[j]),
            decreases self@.len() - i,
        {
            if !self.0[i].equals(&other.0[i]) {
                return false;
            }
            i = i + 1;
        }
        true
    }

    /// The textual form of each value.
    pub fn render(&self) -> (r: Vec<String>)
        ensures
            r@.len() == self@.len(),
            forall|i: int| 0 <= i < r@.len() ==> (#[trigger] r@[i])@ == rendering(self@[i]),
    {
        let mut out: Vec<String> = Vec::new();
        let mut i: usize = 0;
        while i < self.0.len()
            invariant
                i <= self@.len(),
                out@.len() == i,
                forall|k: int| 0 <= k < i ==> (#[trigger] out@[k])@ == rendering(self@[k]),
            decreases self@.len() - i,
        {
            out.push(self.0[i].render());
            i = i + 1;
        }
        out
    }
}

/// A schema and the materialized rows of a query result.
#[derive(Clone, Debug)]
pub struct RowSet {
    pub schema: Schema,
    pub rows: Vec<Row>,
}

impl RowSet {
    /// The column names, for a header.
    pub fn header(&self) -> (r: Vec<String>)
        ensures
            r@.len() == self.schema.columns@.len(),
            forall|i: int| 0 <= i < r@.len() ==> (#[trigger] r@[i])@ == self.schema.columns@[i].name@,
    {
        let mut out: Vec<String> = Vec::new();
        let mut i: usize = 0;
        while i < self.schema.columns.len()
            invariant
                i <= self.schema.columns@.len(),
                out@.len() == i,
                forall|j: int| 0 <= j < i ==> (#[trigger] out@[j])@ == self.schema.columns@[j].name@,
            decreases self.schema.columns@.len() - i,
        {
            out.push(self.schema.columns[i].name.clone());
            i = i + 1;
        }
        out
    }
}

} // verus!
