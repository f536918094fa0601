use vstd::prelude::*;

use crate::ast::{Literal, SqlBinaryOp, SqlExpr, SqlUnaryOp};
use crate::error::{outcome, Error, ErrorKind};
use crate::schema::{convertible, Column, Schema, Type};
use crate::types::{
    arith_spec, bool_of, comparable, int_of, logic_spec, truthy, type_spec, value_eq, value_lt,
    Arith, Row, Value,
};

verus! {

/// Binary operators.
#[derive(Clone, Copy, Debug, PartialEq, Eq, Structural)]
pub enum Op {
    Add,
    Sub,
    Mul,
    Div,
    And,
    Or,
    Equal,
    NotEqual,
    Less,
    LessOrEqual,
    Greater,
    GreaterOrEqual,
}

/// Unary operators.
#[derive(Clone, Copy, Debug, PartialEq, Eq, Structural)]
pub enum UnaryOp {
    Not,
    Plus,
    Minus,
}

/// An expression tree, resolved against a schema.
#[derive(Debug)]
pub enum Expression {
    Field(usize),
    Const(Value),
    Abs(Box<Expression>),
    UnaryOp(UnaryOp, Box<Expression>),
    BinOp(Box<Expression>, Op, Box<Expression>),
    Case(Vec<(Expression, Expression)>, Option<Box<Expression>>),
}

pub open spec fn is_arith(op: Op) -> bool {
    op == Op::Add || op == Op::Sub || op == Op::Mul || op == Op::Div
}

pub open spec fn is_logic(op: Op) -> bool {
    op == Op::And || op == Op::Or
}

pub open spec fn arith_of(op: Op) -> Arith {
    match op {
        Op::Add => Arith::Add,
        Op::Sub => Arith::Sub,
        Op::Mul => Arith::Mul,
        _ => Arith::Div,
    }
}

/// A binary operator applied to two evaluated operands.
pub open spec fn binop_spec(op: Op, a: Value, b: Value) -> Result<Value, ErrorKind> {
    if is_arith(op) {
        arith_spec(arith_of(op), a, b)
    } else if is_logic(op) {
        logic_spec(op == Op::And, a, b)
    } else if op == Op::Equal {
        Ok(Value::Bool(value_eq(a, b)))
    } else if op == Op::NotEqual {
        Ok(Value::Bool(!value_eq(a, b)))
    } else if !comparable(a, b) {
        Err(ErrorKind::Type)
    } else {
        Ok(
            Value::Bool(
                match op {
                    Op::Less => value_lt(a, b),
                    Op::LessOrEqual => value_lt(a, b) || value_eq(a, b),
                    Op::Greater => value_lt(b, a),
                    _ => value_lt(b, a) || value_eq(a, b),
                },
            ),
        )
    }
}

/// A unary operator applied to an evaluated operand.
pub open spec fn unary_spec(op: UnaryOp, v: Value) -> Result<Value, ErrorKind> {
    match op {
        UnaryOp::Not => match bool_of(v) {
            Some(b) => Ok(Value::Bool(!b)),
            None => Err(ErrorKind::Value),
        },
        UnaryOp::Plus => Ok(v),
        UnaryOp::Minus => match int_of(v) {
            Some(n) => if n == i64::MIN {
                Err(ErrorKind::Arithmetic)
            } else {
                Ok(Value::Int((-n) as i64))
            },
            None => Err(ErrorKind::Value),
        },
    }
}

/// `abs` applied to an evaluated operand.
pub open spec fn abs_spec(v: Value) -> Result<Value, ErrorKind> {
    match int_of(v) {
        Some(n) => if n == i64::MIN {
            Err(ErrorKind::Arithmetic)
        } else {
            Ok(Value::Int(if n < 0 { (-n) as i64 } else { n }))
        },
        None => Err(ErrorKind::Value),
    }
}

/// The value of an expression on a row.
pub open spec fn eval_spec(e: Expression, row: Seq<Value>) -> Result<Value, ErrorKind>
    decreases e, 1nat, 0nat,
{
    match e {
        Expression::Field(i) => if i < row.len() {
            Ok(row[i as int])
        } else {
            Err(ErrorKind::Resolution)
        },
        Expression::Const(v) => Ok(v),
        Expression::Abs(x) => match eval_spec(*x, row) {
            Ok(v) => abs_spec(v),
            Err(k) => Err(k),
        },
        Expression::UnaryOp(op, x) => match eval_spec(*x, row) {
            Ok(v) => unary_spec(op, v),
            Err(k) => Err(k),
        },
        Expression::BinOp(l, op, r) => match eval_spec(*l, row) {
            Ok(a) => match eval_spec(*r, row) {
                Ok(b) => binop_spec(op, a, b),
                Err(k) => Err(k),
            },
            Err(k) => Err(k),
        },
        Expression::Case(cases, otherwise) => eval_case_spec(e, 0, row),
    }
}

/// CASE from branch `i` on: the first branch whose condition is truthy decides;
/// otherwise the ELSE branch, or `Bool(false)` without one.
pub open spec fn eval_case_spec(e: Expression, i: nat, row: Seq<Value>) -> Result<
    Value,
    ErrorKind,
>
    decreases e, 0nat, (if e is Case { e->Case_0@.len() } else { 0 }) - i,
{
    if let Expression::Case(cases, otherwise) = e {
        if i >= cases@.len() {
            match otherwise {
                Some(x) => eval_spec(*x, row),
                None => Ok(Value::Bool(false)),
            }
        } else {
            proof {
                assert(decreases_to!(cases => cases@[i as int]));
            }
            match eval_spec(cases@[i as int].0, row) {
                Ok(c) => if truthy(c) {
                    eval_spec(cases@[i as int].1, row)
                } else {
                    eval_case_spec(e, i + 1, row)
                },
                Err(k) => Err(k),
            }
        }
    } else {
        Err(ErrorKind::Type)
    }
}

/// The static type of an expression over columns of the given types.
pub open spec fn expr_type(e: Expression, cols: Seq<Type>) -> Result<Type, ErrorKind>
    decreases e, 1nat, 0nat,
{
    match e {
        Expression::Const(v) => Ok(type_spec(v)),
        Expression::Field(i) => if i < cols.len() {
            Ok(cols[i as int])
        } else {
            Err(ErrorKind::Resolution)
        },
        Expression::UnaryOp(op, x) => match expr_type(*x, cols) {
            Ok(t) => match op {
                UnaryOp::Not => if convertible(t, Type::Bool) {
                    Ok(Type::Bool)
                } else {
                    Err(ErrorKind::Type)
                },
                UnaryOp::Plus => Ok(t),
                UnaryOp::Minus => if convertible(t, Type::Integer) {
                    Ok(Type::Integer)
                } else {
                    Err(ErrorKind::Type)
                },
            },
            Err(k) => Err(k),
        },
        Expression::BinOp(l, op, r) => match expr_type(*l, cols) {
            Ok(a) => match expr_type(*r, cols) {
                Ok(b) => if is_arith(op) {
                    if convertible(a, Type::Integer) && convertible(b, Type::Integer) {
                        Ok(Type::Integer)
                    } else {
                        Err(ErrorKind::Type)
                    }
                } else if is_logic(op) {
                    if convertible(a, Type::Bool) && convertible(b, Type::Bool) {
                        Ok(Type::Bool)
                    } else {
                        Err(ErrorKind::Type)
                    }
                } else if a == b {
                    Ok(Type::Bool)
                } else {
                    Err(ErrorKind::Type)
                },
                Err(k) => Err(k),
            },
            Err(k) => Err(k),
        },
        Expression::Abs(x) => match expr_type(*x, cols) {
            Ok(t) => if convertible(t, Type::Integer) {
                Ok(Type::Integer)
            } else {
                Err(ErrorKind::Type)
            },
            Err(k) => Err(k),
        },
        Expression::Case(cases, otherwise) => if cases@.len() == 0 {
            Err(ErrorKind::Type)
        } else {
            proof {
                assert(decreases_to!(cases => cases@[0]));
            }
            match expr_type(cases@[0].1, cols) {
                Ok(t0) => match case_types(e, 0, cols, t0) {
                    Ok(_) => match otherwise {
                        Some(x) => match expr_type(*x, cols) {
                            Ok(t) => if convertible(t, t0) {
                                Ok(t0)
                            } else {
                                Err(ErrorKind::Type)
                            },
                            Err(k) => Err(k),
                        },
                        None => Ok(t0),
                    },
                    Err(k) => Err(k),
                },
                Err(k) => Err(k),
            }
        },
    }
}

/// The CASE branches from `i` on type-check: conditions convert to `Bool`,
/// results to the first result's type `t0`.
pub open spec fn case_types(e: Expression, i: nat, cols: Seq<Type>, t0: Type) -> Result<
    (),
    ErrorKind,
>
    decreases e, 0nat, (if e is Case { e->Case_0@.len() } else { 0 }) - i,
{
    if let Expression::Case(cases, otherwise) = e {
        if i >= cases@.len() {
            Ok(())
        } else {
            proof {
                assert(decreases_to!(cases => cases@[i as int]));
            }
            match expr_type(cases@[i as int].0, cols) {
                Ok(c) => match expr_type(cases@[i as int].1, cols) {
                    Ok(r) => if !convertible(c, Type::Bool) {
                        Err(ErrorKind::Type)
                    } else if !convertible(r, t0) {
                        Err(ErrorKind::Type)
                    } else {
                        case_types(e, i + 1, cols, t0)
                    },
                    Err(k) => Err(k),
                },
                Err(k) => Err(k),
            }
        }
    } else {
        Ok(())
    }
}

fn apply_unary(op: UnaryOp, v: Value) -> (r: Result<Value, Error>)
    ensures
        outcome(r) == unary_spec(op, v),
{
    match op {
        UnaryOp::Not => match v.to_bool() {
            Some(b) => Ok(Value::Bool(!b)),
            None => Err(Error::new(ErrorKind::Value, "cannot convert to BOOL for NOT")),
        },
        UnaryOp::Plus => Ok(v),
        UnaryOp::Minus => match v.to_int() {
            Some(n) => if n == i64::MIN {
                Err(Error::new(ErrorKind::Arithmetic, "integer overflow on unary '-'"))
            } else {
                Ok(Value::Int(-n))
            },
            None => Err(Error::new(ErrorKind::Value, "cannot convert to INT for unary '-'")),
        },
    }
}

fn apply_abs(v: Value) -> (r: Result<Value, Error>)
    ensures
        outcome(r) == abs_spec(v),
{
    match v.to_int() {
        Some(n) => if n == i64::MIN {
            Err(Error::new(ErrorKind::Arithmetic, "integer overflow in 'abs'"))
        } else {
            Ok(Value::Int(if n < 0 { -n } else { n }))
        },
        None => Err(Error::new(ErrorKind::Value, "cannot convert 'abs' argument to integer")),
    }
}

fn apply_binop(op: Op, a: Value, b: Value) -> (r: Result<Value, Error>)
    ensures
        outcome(r) == binop_spec(op, a, b),
{
    match op {
        Op::Add => a.add(b),
        Op::Sub => a.sub(b),
        Op::Mul => a.mul(b),
        Op::Div => a.div(b),
        Op::And => a.and(b),
        Op::Or => a.or(b),
        Op::Equal => Ok(Value::Bool(a.equals(&b))),
        Op::NotEqual => Ok(Value::Bool(!a.equals(&b))),
        Op::Less => match a.less_than(&b) {
            Ok(x) => Ok(Value::Bool(x)),
            Err(e) => Err(e),
        },
        Op::LessOrEqual => match a.less_than(&b) {
            Ok(x) => Ok(Value::Bool(x || a.equals(&b))),
            Err(e) => Err(e),
        },
        Op::Greater => match b.less_than(&a) {
            Ok(x) => Ok(Value::Bool(x)),
            Err(e) => Err(e),
        },
        Op::GreaterOrEqual => match b.less_than(&a) {
            Ok(x) => Ok(Value::Bool(x || a.equals(&b))),
            Err(e) => Err(e),
        },
    }
}

fn type_error(message: &str) -> (r: Result<Type, Error>)
    ensures
        outcome(r) == Err::<Type, ErrorKind>(ErrorKind::Type),
{
    Err(Error::new(ErrorKind::Type, message))
}

impl Expression {
    /// Evaluates the expression against one row.
    pub fn eval(&self, row: &Row) -> (r: Result<Value, Error>)
        ensures
            outcome(r) == eval_spec(*self, row@),
        decreases self, 1nat, 0nat,
    {
        match self {
            Expression::Field(index) => if *index < row.len() {
                Ok(row.get(*index).copy())
            } else {
                Err(Error::new(ErrorKind::Resolution, "reference to unknown column"))
            },
            Expression::Const(val) => Ok(val.copy()),
            Expression::UnaryOp(op, expr) => match expr.eval(row) {
                Ok(v) => apply_unary(*op, v),
                Err(e) => Err(e),
            },
            Expression::BinOp(left, op, right) => {
                let a = match left.eval(row) {
                    Ok(v) => v,
                    Err(e) => return Err(e),
                };
                let b = match right.eval(row) {
                    Ok(v) => v,
                    Err(e) => return Err(e),
                };
                apply_binop(*op, a, b)
            },
            Expression::Abs(arg) => match arg.eval(row) {
                Ok(v) => apply_abs(v),
                Err(e) => Err(e),
            },
            Expression::Case(cases, otherwise) => self.eval_case(row),
        }
    }

    fn eval_case(&self, row: &Row) -> (r: Result<Value, Error>)
        requires
            self is Case,
        ensures
            outcome(r) == eval_case_spec(*self, 0, row@),
        decreases self, 0nat, 1nat,
    {
        match self {
            Expression::Case(cases, otherwise) => {
                let mut i: usize = 0;
                while i < cases.len()
                    invariant
                        *self == Expression::Case(*cases, *otherwise),
                        i <= cases@.len(),
                        eval_case_spec(*self, 0, row@) == eval_case_spec(*self, i as nat, row@),
                    decreases cases@.len() - i,
                {
                    proof {
                        assert(decreases_to!(*cases => cases@[i as int]));
                    }
                    let c = match cases[i].0.eval(row) {
                        Ok(v) => v,
                        Err(e) => return Err(e),
                    };
                    if c.to_bool() == Some(true) {
                        return cases[i].1.eval(row);
                    }
                    i = i + 1;
                }
                match otherwise {
                    Some(x) => x.eval(row),
                    None => Ok(Value::Bool(false)),
                }
            },
            _ => Err(Error::new(ErrorKind::Type, "not a CASE expression")),
        }
    }

    /// The static type of the expression's values under the given schema.
    pub fn result_type(&self, schema: &Schema) -> (r: Result<Type, Error>)
        ensures
            outcome(r) == expr_type(*self, crate::schema::types_of(*schema)),
        decreases self, 1nat, 0nat,
    {
        let ghost cols = crate::schema::types_of(*schema);
        match self {
            Expression::Const(value) => Ok(value.type_()),
            Expression::Field(i) => if *i < schema.columns.len() {
                Ok(schema.columns[*i].type_)
            } else {
                Err(Error::new(ErrorKind::Resolution, "reference to unknown column"))
            },
            Expression::UnaryOp(op, expr) => {
                let t = match expr.result_type(schema) {
                    Ok(t) => t,
                    Err(e) => return Err(e),
                };
                match op {
                    UnaryOp::Not => if t.convertable_to(Type::Bool) {
                        Ok(Type::Bool)
                    } else {
                        type_error("invalid NOT: operand is not convertible to bool")
                    },
                    UnaryOp::Plus => Ok(t),
                    UnaryOp::Minus => if t.convertable_to(Type::Integer) {
                        Ok(Type::Integer)
                    } else {
                        type_error("invalid unary '-': operand is not convertible to integer")
                    },
                }
            },
            Expression::BinOp(left, op, right) => {
                let a = match left.result_type(schema) {
                    Ok(t) => t,
                    Err(e) => return Err(e),
                };
                let b = match right.result_type(schema) {
                    Ok(t) => t,
                    Err(e) => return Err(e),
                };
                match op {
                    Op::Add | Op::Sub | Op::Mul | Op::Div => {
                        if a.convertable_to(Type::Integer) && b.convertable_to(Type::Integer) {
                            Ok(Type::Integer)
                        } else {
                            type_error("arithmetic operands are not convertible to integer")
                        }
                    },
                    Op::And | Op::Or => {
                        if a.convertable_to(Type::Bool) && b.convertable_to(Type::Bool) {
                            Ok(Type::Bool)
                        } else {
                            type_error("logical operands are not convertible to bool")
                        }
                    },
                    _ => {
                        if a == b {
                            Ok(Type::Bool)
                        } else {
                            type_error("attempt to compare values of different types")
                        }
                    },
                }
            },
            Expression::Abs(arg) => {
                let t = match arg.result_type(schema) {
                    Ok(t) => t,
                    Err(e) => return Err(e),
                };
                if t.convertable_to(Type::Integer) {
                    Ok(Type::Integer)
                } else {
                    type_error("cannot convert argument of 'abs' to integer")
                }
            },
            Expression::Case(cases, otherwise) => {
                if cases.len() == 0 {
                    return type_error("empty CASE");
                }
                proof {
                    assert(decreases_to!(*cases => cases@[0]));
                }
                let t0 = match cases[0].1.result_type(schema) {
                    Ok(t) => t,
                    Err(e) => return Err(e),
                };
                let mut i: usize = 0;
                while i < cases.len()
                    invariant
                        *self == Expression::Case(*cases, *otherwise),
                        i <= cases@.len(),
                        cols == crate::schema::types_of(*schema),
                        cases@.len() > 0,
                        expr_type(cases@[0].1, cols) == Ok::<Type, ErrorKind>(t0),
                        case_types(*self, 0, cols, t0) == case_types(*self, i as nat, cols, t0),
                    decreases cases@.len() - i,
                {
                    proof {
                        assert(decreases_to!(*cases => cases@[i as int]));
                    }
                    let c = match cases[i].0.result_type(schema) {
                        Ok(t) => t,
                        Err(e) => {
                            assert(case_types(*self, i as nat, cols, t0) == Err::<(), ErrorKind>(e.kind));
                            return Err(e);
                        },
                    };
                    let r = match cases[i].1.result_type(schema) {
                        Ok(t) => t,
                        Err(e) => {
                            assert(case_types(*self, i as nat, cols, t0) == Err::<(), ErrorKind>(e.kind));
                            return Err(e);
                        },
                    };
                    if !c.convertable_to(Type::Bool) {
                        return type_error("cannot convert CASE condition to bool");
                    }
                    if !r.convertable_to(t0) {
                        return type_error("cannot convert CASE result to the first result's type");
                    }
                    i = i + 1;
                }
                match otherwise {
                    Some(x) => {
                        let t = match x.result_type(schema) {
                            Ok(t) => t,
                            Err(e) => return Err(e),
                        };
                        if t.convertable_to(t0) {
                            Ok(t0)
                        } else {
                            type_error("cannot convert ELSE result to the first result's type")
                        }
                    },
                    None => Ok(t0),
                }
            },
        }
    }
}

/// Column `i` is the first one named `name`.
pub open spec fn first_column(cols: Seq<Column>, name: Seq<char>, i: int) -> bool {
    &&& 0 <= i < cols.len()
    &&& cols[i].name@ == name
    &&& forall|j: int| 0 <= j < i ==> (#[trigger] cols[j]).name@ != name
}

/// No column is named `name`.
pub open spec fn no_column(cols: Seq<Column>, name: Seq<char>) -> bool {
    forall|j: int| 0 <= j < cols.len() ==> (#[trigger] cols[j]).name@ != name
}

/// The value of the decimal digits `s`.
pub open spec fn digits_value(s: Seq<char>) -> int
    decreases s.len(),
{
    if s.len() == 0 {
        0
    } else {
        digits_value(s.drop_last()) * 10 + (s.last() as int - '0' as int)
    }
}

pub open spec fn all_digits(s: Seq<char>) -> bool {
    &&& s.len() > 0
    &&& forall|i: int| 0 <= i < s.len() ==> '0' <= #[trigger] s[i] <= '9'
}

/// An integer numeral: an optional sign and at least one decimal digit, in `i64` range.
pub open spec fn numeral(s: Seq<char>) -> Option<i64> {
    let signed = s.len() > 0 && (s[0] == '-' || s[0] == '+');
    let body = if signed { s.drop_first() } else { s };
    let v = if signed && s[0] == '-' { -digits_value(body) } else { digits_value(body) };
    if all_digits(body) && i64::MIN <= v <= i64::MAX {
        Some(v as i64)
    } else {
        None
    }
}

/// Relies on `str::parse::<i64>` (`i64::from_str`): an optional `+` or `-`
/// followed by decimal digits, accepted when the value fits in `i64`.
#[verifier::external_body]
fn parse_i64(s: &str) -> (r: Option<i64>)
    ensures
        r == numeral(s@),
{
    s.parse::<i64>().ok()
}

/// The name `abs`, in any letter case.
pub open spec fn is_abs(name: Seq<char>) -> bool {
    &&& name.len() == 3
    &&& (name[0] == 'a' || name[0] == 'A')
    &&& (name[1] == 'b' || name[1] == 'B')
    &&& (name[2] == 's' || name[2] == 'S')
}

pub open spec fn literal_fail(lit: Literal) -> Option<ErrorKind> {
    match lit {
        Literal::Number(n) => if numeral(n@) is Some {
            None
        } else {
            Some(ErrorKind::Value)
        },
        Literal::Other => Some(ErrorKind::Unsupported),
        _ => None,
    }
}

/// The value a literal stands for.
pub open spec fn literal_value(lit: Literal, v: Value) -> bool {
    match lit {
        Literal::Null => v == Value::Null,
        Literal::Boolean(b) => v == Value::Bool(b),
        Literal::Number(n) => numeral(n@) == Some(v->Int_0) && v is Int,
        Literal::SingleQuotedString(s) => v is String && v->String_0@ == s@,
        Literal::Other => false,
    }
}

pub open spec fn binary_op_of(op: SqlBinaryOp) -> Op {
    match op {
        SqlBinaryOp::Plus => Op::Add,
        SqlBinaryOp::Minus => Op::Sub,
        SqlBinaryOp::Multiply => Op::Mul,
        SqlBinaryOp::Divide => Op::Div,
        SqlBinaryOp::And => Op::And,
        SqlBinaryOp::Or => Op::Or,
        SqlBinaryOp::Eq => Op::Equal,
        SqlBinaryOp::NotEq => Op::NotEqual,
        SqlBinaryOp::Lt => Op::Less,
        SqlBinaryOp::LtEq => Op::LessOrEqual,
        SqlBinaryOp::Gt => Op::Greater,
        SqlBinaryOp::GtEq => Op::GreaterOrEqual,
        SqlBinaryOp::Other => Op::GreaterOrEqual,
    }
}

/// Why an expression fails to resolve against the columns, if it does.
pub open spec fn parse_fail(x: SqlExpr, cols: Seq<Column>) -> Option<ErrorKind>
    decreases x, 1nat, 0nat,
{
    match x {
        SqlExpr::Identifier(n) => if no_column(cols, n@) {
            Some(ErrorKind::Resolution)
        } else {
            None
        },
        SqlExpr::Value(lit) => literal_fail(lit),
        SqlExpr::UnaryOp(op, inner) => match parse_fail(*inner, cols) {
            Some(k) => Some(k),
            None => if op == SqlUnaryOp::Other {
                Some(ErrorKind::Unsupported)
            } else {
                None
            },
        },
        SqlExpr::BinaryOp(l, op, r) => match parse_fail(*l, cols) {
            Some(k) => Some(k),
            None => match parse_fail(*r, cols) {
                Some(k) => Some(k),
                None => if op == SqlBinaryOp::Other {
                    Some(ErrorKind::Unsupported)
                } else {
                    None
                },
            },
        },
        SqlExpr::Nested(inner) => parse_fail(*inner, cols),
        SqlExpr::Function(name, args) => if !is_abs(name@) || args@.len() != 1 {
            Some(ErrorKind::Unsupported)
        } else {
            proof {
                assert(decreases_to!(args => args@[0]));
            }
            parse_fail(args@[0], cols)
        },
        SqlExpr::Case(cases, otherwise) => match case_fail(x, 0, cols) {
            Some(k) => Some(k),
            None => match otherwise {
                Some(o) => parse_fail(*o, cols),
                None => None,
            },
        },
        SqlExpr::Unsupported => Some(ErrorKind::Unsupported),
    }
}

/// The first failure among the CASE branches from `i` on.
pub open spec fn case_fail(x: SqlExpr, i: nat, cols: Seq<Column>) -> Option<ErrorKind>
    decreases x, 0nat, (if x is Case { x->Case_0@.len() } else { 0 }) - i,
{
    if let SqlExpr::Case(cases, otherwise) = x {
        if i >= cases@.len() {
            None
        } else {
            proof {
                assert(decreases_to!(cases => cases@[i as int]));
            }
            match parse_fail(cases@[i as int].0, cols) {
                Some(k) => Some(k),
                None => match parse_fail(cases@[i as int].1, cols) {
                    Some(k) => Some(k),
                    None => case_fail(x, i + 1, cols),
                },
            }
        }
    } else {
        None
    }
}

/// `e` is the resolved form of `x` (assuming resolution succeeds): identifiers
/// become the first column of that name, literals constants, and unary
/// operators on constants are folded.
pub open spec fn parses(x: SqlExpr, cols: Seq<Column>, e: Expression) -> bool
    decreases x, 1nat, 0nat,
{
    match x {
        SqlExpr::Identifier(n) => e is Field && first_column(cols, n@, e->Field_0 as int),
        SqlExpr::Value(lit) => e is Const && literal_value(lit, e->Const_0),
        SqlExpr::UnaryOp(op, inner) => match op {
            SqlUnaryOp::Not => {
                ||| (e matches Expression::Const(Value::Bool(b)) && parses(
                    *inner,
                    cols,
                    Expression::Const(Value::Bool(!b)),
                ))
                ||| (e matches Expression::UnaryOp(UnaryOp::Not, ie) && parses(*inner, cols, *ie)
                    && !(*ie matches Expression::Const(Value::Bool(_))))
            },
            SqlUnaryOp::Plus => {
                ||| (e is Const && parses(*inner, cols, e))
                ||| (e matches Expression::UnaryOp(UnaryOp::Plus, ie) && parses(*inner, cols, *ie)
                    && !(*ie is Const))
            },
            SqlUnaryOp::Minus => {
                ||| (e matches Expression::Const(Value::Int(n)) && n != i64::MIN && parses(
                    *inner,
                    cols,
                    Expression::Const(Value::Int((-n) as i64)),
                ))
                ||| (e matches Expression::UnaryOp(UnaryOp::Minus, ie) && parses(*inner, cols, *ie)
                    && !(*ie matches Expression::Const(Value::Int(m)) && m != i64::MIN))
            },
            SqlUnaryOp::Other => false,
        },
        SqlExpr::BinaryOp(l, op, r) => op != SqlBinaryOp::Other && (e matches Expression::BinOp(
            le,
            eop,
            re,
        ) && eop == binary_op_of(op) && parses(*l, cols, *le) && parses(*r, cols, *re)),
        SqlExpr::Nested(inner) => parses(*inner, cols, e),
        SqlExpr::Function(name, args) => is_abs(name@) && args@.len() == 1 && e is Abs && {
            proof {
                assert(decreases_to!(args => args@[0]));
            }
            parses(args@[0], cols, *e->Abs_0)
        },
        SqlExpr::Case(cases, otherwise) => e is Case && e->Case_0@.len() == cases@.len()
            && case_parses(x, 0, cols, e) && match otherwise {
            Some(o) => e->Case_1 is Some && parses(*o, cols, *e->Case_1.unwrap()),
            None => e->Case_1 is None,
        },
        SqlExpr::Unsupported => false,
    }
}

/// The CASE branches from `i` on resolve to those of `e`.
pub open spec fn case_parses(x: SqlExpr, i: nat, cols: Seq<Column>, e: Expression) -> bool
    decreases x, 0nat, (if x is Case { x->Case_0@.len() } else { 0 }) - i,
{
    if let SqlExpr::Case(cases, otherwise) = x {
        if i >= cases@.len() {
            true
        } else {
            proof {
                assert(decreases_to!(cases => cases@[i as int]));
            }
            e is Case && i < e->Case_0@.len() && parses(cases@[i as int].0, cols, e->Case_0@[i as int].0)
                && parses(cases@[i as int].1, cols, e->Case_0@[i as int].1) && case_parses(
                x,
                i + 1,
                cols,
                e,
            )
        }
    } else {
        true
    }
}

/// Branch `j` of the CASE `x` resolves to branch `j` of `e`.
pub open spec fn branch_parses(x: SqlExpr, cols: Seq<Column>, e: Expression, j: int) -> bool {
    parses(x->Case_0@[j].0, cols, e->Case_0@[j].0) && parses(x->Case_0@[j].1, cols, e->Case_0@[j].1)
}

proof fn lemma_case_parses(x: SqlExpr, i: nat, cols: Seq<Column>, e: Expression)
    requires
        x is Case,
        e is Case,
        e->Case_0@.len() == x->Case_0@.len(),
        forall|j: int| i <= j < x->Case_0@.len() ==> #[trigger] branch_parses(x, cols, e, j),
    ensures
        case_parses(x, i, cols, e),
    decreases x->Case_0@.len() - i,
{
    if i < x->Case_0@.len() {
        assert(branch_parses(x, cols, e, i as int));
        lemma_case_parses(x, i + 1, cols, e);
    }
}

fn name_is_abs(name: &String) -> (r: bool)
    ensures
        r == is_abs(name@),
{
    let s = name.as_str();
    if s.unicode_len() != 3 {
        return false;
    }
    let a = s.get_char(0);
    let b = s.get_char(1);
    let c = s.get_char(2);
    (a == 'a' || a == 'A') && (b == 'b' || b == 'B') && (c == 's' || c == 'S')
}

/// The position of the first column named `name`.
pub fn find_column(schema: &Schema, name: &String) -> (r: Option<usize>)
    ensures
        r matches Some(i) ==> first_column(schema.columns@, name@, i as int),
        r is None ==> no_column(schema.columns@, name@),
{
    let mut i: usize = 0;
    while i < schema.columns.len()
        invariant
            i <= schema.columns@.len(),
            forall|j: int| 0 <= j < i ==> (#[trigger] schema.columns@[j]).name@ != name@,
        decreases schema.columns@.len() - i,
    {
        if schema.columns[i].name.eq(name) {
            return Some(i);
        }
        i = i + 1;
    }
    None
}

fn parse_error(kind: ErrorKind, message: &str) -> (r: Result<Expression, Error>)
    ensures
        r is Err,
        r->Err_0.kind == kind,
{
    Err(Error::new(kind, message))
}

impl Expression {
    /// Resolves a parsed expression against a schema: identifiers become
    /// fields by first-match column name, literals become constants, and
    /// unary operators on constants are folded.
    pub fn parse(expr: &SqlExpr, schema: &Schema) -> (r: Result<Expression, Error>)
        ensures
            match r {
                Ok(e) => parse_fail(*expr, schema.columns@) is None && parses(
                    *expr,
                    schema.columns@,
                    e,
                ),
                Err(err) => parse_fail(*expr, schema.columns@) == Some(err.kind),
            },
        decreases expr,
    {
        let ghost cols = schema.columns@;
        match expr {
            SqlExpr::Identifier(name) => match find_column(schema, name) {
                Some(i) => Ok(Expression::Field(i)),
                None => parse_error(ErrorKind::Resolution, "no such column"),
            },
            SqlExpr::Value(lit) => match lit {
                Literal::Null => Ok(Expression::Const(Value::Null)),
                Literal::Boolean(b) => Ok(Expression::Const(Value::Bool(*b))),
                Literal::Number(n) => match parse_i64(n.as_str()) {
                    Some(v) => Ok(Expression::Const(Value::Int(v))),
                    None => parse_error(ErrorKind::Value, "numeric literal out of range"),
                },
                Literal::SingleQuotedString(t) => Ok(Expression::Const(Value::String(t.clone()))),
                Literal::Other => parse_error(ErrorKind::Unsupported, "unsupported value type"),
            },
            SqlExpr::UnaryOp(op, inner) => {
                let e = match Expression::parse(inner, schema) {
                    Ok(e) => e,
                    Err(err) => return Err(err),
                };
                match op {
                    SqlUnaryOp::Not => match e {
                        Expression::Const(Value::Bool(v)) => Ok(Expression::Const(Value::Bool(!v))),
                        other => Ok(Expression::UnaryOp(UnaryOp::Not, Box::new(other))),
                    },
                    SqlUnaryOp::Plus => match e {
                        Expression::Const(v) => Ok(Expression::Const(v)),
                        other => Ok(Expression::UnaryOp(UnaryOp::Plus, Box::new(other))),
                    },
                    SqlUnaryOp::Minus => match e {
                        Expression::Const(Value::Int(v)) => {
                            if v != i64::MIN {
                                Ok(Expression::Const(Value::Int(-v)))
                            } else {
                                Ok(
                                    Expression::UnaryOp(
                                        UnaryOp::Minus,
                                        Box::new(Expression::Const(Value::Int(v))),
                                    ),
                                )
                            }
                        },
                        other => Ok(Expression::UnaryOp(UnaryOp::Minus, Box::new(other))),
                    },
                    SqlUnaryOp::Other => parse_error(
                        ErrorKind::Unsupported,
                        "unsupported unary operator",
                    ),
                }
            },
            SqlExpr::BinaryOp(left, op, right) => {
                let l = match Expression::parse(left, schema) {
                    Ok(e) => e,
                    Err(err) => return Err(err),
                };
                let r = match Expression::parse(right, schema) {
                    Ok(e) => e,
                    Err(err) => return Err(err),
                };
                let op = match op {
                    SqlBinaryOp::Plus => Op::Add,
                    SqlBinaryOp::Minus => Op::Sub,
                    SqlBinaryOp::Multiply => Op::Mul,
                    SqlBinaryOp::Divide => Op::Div,
                    SqlBinaryOp::And => Op::And,
                    SqlBinaryOp::Or => Op::Or,
                    SqlBinaryOp::Eq => Op::Equal,
                    SqlBinaryOp::NotEq => Op::NotEqual,
                    SqlBinaryOp::Lt => Op::Less,
                    SqlBinaryOp::LtEq => Op::LessOrEqual,
                    SqlBinaryOp::Gt => Op::Greater,
                    SqlBinaryOp::GtEq => Op::GreaterOrEqual,
                    SqlBinaryOp::Other => {
                        return parse_error(ErrorKind::Unsupported, "unsupported binary operation");
                    },
                };
                Ok(Expression::BinOp(Box::new(l), op, Box::new(r)))
            },
            SqlExpr::Nested(inner) => Expression::parse(inner, schema),
            SqlExpr::Function(name, args) => {
                if !name_is_abs(name) || args.len() != 1 {
                    return parse_error(ErrorKind::Unsupported, "unknown function or wrong number of arguments");
                }
                proof {
                    assert(decreases_to!(*args => args@[0]));
                }
                match Expression::parse(&args[0], schema) {
                    Ok(e) => Ok(Expression::Abs(Box::new(e))),
                    Err(err) => Err(err),
                }
            },
            SqlExpr::Case(cases, otherwise) => {
                let mut out: Vec<(Expression, Expression)> = Vec::new();
                let mut i: usize = 0;
                while i < cases.len()
                    invariant
                        *expr == SqlExpr::Case(*cases, *otherwise),
                        cols == schema.columns@,
                        i <= cases@.len(),
                        out@.len() == i,
                        case_fail(*expr, 0, cols) == case_fail(*expr, i as nat, cols),
                        forall|j: int|
                            0 <= j < i ==> parses(#[trigger] cases@[j].0, cols, out@[j].0)
                                && parses(cases@[j].1, cols, out@[j].1),
                    decreases cases@.len() - i,
                {
                    proof {
                        assert(decreases_to!(*cases => cases@[i as int]));
                    }
                    let ghost old_out = out@;
                    let c = match Expression::parse(&cases[i].0, schema) {
                        Ok(e) => e,
                        Err(err) => return Err(err),
                    };
                    let r = match Expression::parse(&cases[i].1, schema) {
                        Ok(e) => e,
                        Err(err) => return Err(err),
                    };
                    let ghost pair = (c, r);
                    out.push((c, r));
                    proof {
                        assert(out@[i as int] == pair);
                        assert forall|j: int| 0 <= j < i + 1 implies parses(#[trigger] cases@[j].0, cols, out@[j].0)
                            && parses(cases@[j].1, cols, out@[j].1) by {
                            if j < i {
                                assert(out@[j] == old_out[j]);
                            }
                        }
                    }
                    i = i + 1;
                }
                let other = match otherwise {
                    Some(o) => match Expression::parse(o, schema) {
                        Ok(e) => Some(Box::new(e)),
                        Err(err) => return Err(err),
                    },
                    None => None,
                };
                let ghost outv = out@;
                let result = Expression::Case(out, other);
                proof {
                    assert(result->Case_0@ == outv);
                    let ghost x = *expr;
                    assert forall|j: int| 0 <= j < x->Case_0@.len() implies #[trigger] branch_parses(x, cols, result, j) by {
                        assert(parses(cases@[j].0, cols, outv[j].0));
                        assert(parses(cases@[j].1, cols, outv[j].1));
                    }
                    lemma_case_parses(x, 0nat, cols, result);
                }
                Ok(result)
            },
            SqlExpr::Unsupported => parse_error(ErrorKind::Unsupported, "unsupported expression kind"),
        }
    }
}

} // verus!
