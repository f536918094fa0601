use vstd::prelude::*;

use crate::ast::{ColumnDef, DataType};
use crate::error::{Error, ErrorKind};
use crate::types::{type_spec, Row, Value};

verus! {

/// A column type.
#[derive(Clone, Copy, Debug, PartialEq, Eq, Structural)]
pub enum Type {
    Null,
    Bool,
    Integer,
    Text,
}

/// Convertibility: identity, `Bool <-> Integer`; `Null` only to `Null`, `Text` to nothing else.
pub open spec fn convertible(from: Type, to: Type) -> bool {
    from == to || (from == Type::Bool && to == Type::Integer) || (from == Type::Integer && to
        == Type::Bool)
}

impl Type {
    pub fn convertable_to(&self, type_: Type) -> (r: bool)
        ensures
            r == convertible(*self, type_),
    {
        if *self == type_ {
            return true;
        }
        match self {
            Type::Null => type_ == Type::Null,
            Type::Bool => type_ == Type::Integer,
            Type::Integer => type_ == Type::Bool,
            Type::Text => false,
        }
    }

    /// The type's name as written in messages.
    pub fn name(&self) -> (r: &'static str) {
        match self {
            Type::Null => "null",
            Type::Bool => "bool",
            Type::Integer => "int",
            Type::Text => "text",
        }
    }
}

/// A named, typed column.
#[derive(Clone, Debug)]
pub struct Column {
    pub name: String,
    pub type_: Type,
}

impl Column {
    /// A copy of this column.
    pub fn copy(&self) -> (r: Column)
        ensures
            r == *self,
    {
        Column { name: self.name.clone(), type_: self.type_ }
    }
}

/// Columns plus the position of the declared primary key, if any
/// (`None` means rows are keyed by a hidden counter).
#[derive(Clone, Debug)]
pub struct Schema {
    pub primary_key: Option<usize>,
    pub columns: Vec<Column>,
}

/// The column types of a schema, in order.
pub open spec fn types_of(s: Schema) -> Seq<Type> {
    col_types(s.columns@)
}

/// The types of a sequence of columns, in order.
pub open spec fn col_types(cols: Seq<Column>) -> Seq<Type> {
    cols.map_values(|c: Column| c.type_)
}

/// A row fits a schema: same arity, and each value's type is the column's type or `Null`.
pub open spec fn fits(s: Schema, row: Seq<Value>) -> bool {
    &&& row.len() == s.columns@.len()
    &&& forall|i: int|
        0 <= i < row.len() ==> (type_spec(#[trigger] row[i]) == s.columns@[i].type_ || type_spec(
            row[i],
        ) == Type::Null)
}

/// Two schemas with the same arity and the same type in every position.
pub open spec fn compatible(a: Schema, b: Schema) -> bool {
    &&& a.columns@.len() == b.columns@.len()
    &&& forall|i: int|
        0 <= i < a.columns@.len() ==> (#[trigger] a.columns@[i]).type_ == b.columns@[i].type_
}

/// At most one primary key: the index, when present, names a column.
pub open spec fn schema_wf(s: Schema) -> bool {
    s.primary_key matches Some(i) ==> i < s.columns@.len()
}

impl Schema {
    /// The schema with no columns and no primary key.
    pub fn empty() -> (r: Schema)
        ensures
            r.primary_key is None,
            r.columns@.len() == 0,
    {
        Schema { primary_key: None, columns: Vec::new() }
    }

    /// A copy of this schema.
    pub fn copy(&self) -> (r: Schema)
        ensures
            r.primary_key == self.primary_key,
            r.columns@ == self.columns@,
    {
        let mut columns: Vec<Column> = Vec::new();
        let mut i: usize = 0;
        while i < self.columns.len()
            invariant
                i <= self.columns@.len(),
                columns@ == self.columns@.subrange(0, i as int),
            decreases self.columns@.len() - i,
        {
            columns.push(self.columns[i].copy());
            proof {
                assert(columns@ =~= self.columns@.subrange(0, i + 1));
            }
            i = i + 1;
        }
        proof {
            assert(columns@ =~= self.columns@);
        }
        Schema { primary_key: self.primary_key, columns }
    }

    pub fn columns(&self) -> (r: &Vec<Column>)
        ensures
            r == self.columns,
    {
        &self.columns
    }

    pub fn num_columns(&self) -> (r: usize)
        ensures
            r == self.columns@.len(),
    {
        self.columns.len()
    }

    /// Succeeds iff `other` has the same arity and the same column types.
    pub fn check_compatible(&self, other: &Schema) -> (r: Result<(), Error>)
        ensures
            r is Ok <==> compatible(*self, *other),
            r is Err ==> r->Err_0.kind == ErrorKind::Type,
    {
        if self.columns.len() != other.columns.len() {
            return Err(Error::new(ErrorKind::Type, "number of columns does not match"));
        }
        let mut i: usize = 0;
        while i < self.columns.len()
            invariant
                self.columns@.len() == other.columns@.len(),
                i <= self.columns@.len(),
                forall|j: int| 0 <= j < i ==> (#[trigger] self.columns@[j]).type_ == other.columns@[j].type_,
            decreases self.columns@.len() - i,
        {
            if self.columns[i].type_ != other.columns[i].type_ {
                return Err(Error::new(ErrorKind::Type, "column type mismatch"));
            }
            i = i + 1;
        }
        Ok(())
    }

    /// Succeeds iff the row fits this schema.
    pub fn check(&self, row: &Row) -> (r: Result<(), Error>)
        ensures
            r is Ok <==> fits(*self, row@),
            r is Err ==> r->Err_0.kind == ErrorKind::Type,
    {
        if row.len() != self.columns.len() {
            return Err(Error::new(ErrorKind::Type, "number of fields does not match"));
        }
        let mut i: usize = 0;
        while i < self.columns.len()
            invariant
                row@.len() == self.columns@.len(),
                i <= self.columns@.len(),
                forall|j: int|
                    0 <= j < i ==> (type_spec(#[trigger] row@[j]) == self.columns@[j].type_
                        || type_spec(row@[j]) == Type::Null),
            decreases self.columns@.len() - i,
        {
            let value_type = row.get(i).type_();
            if value_type != self.columns[i].type_ && value_type != Type::Null {
                return Err(Error::new(ErrorKind::Type, "field type does not match"));
            }
            i = i + 1;
        }
        Ok(())
    }
}

/// The column type a declared type stands for.
pub open spec fn declared_type(d: DataType) -> Option<Type> {
    match d {
        DataType::Bool => Some(Type::Bool),
        DataType::Integer => Some(Type::Integer),
        DataType::Text => Some(Type::Text),
        DataType::Unsupported => None,
    }
}

/// Every column has a supported type, and at most one is the primary key.
pub open spec fn valid_defs(defs: Seq<ColumnDef>) -> bool {
    &&& forall|i: int| 0 <= i < defs.len() ==> (declared_type(#[trigger] defs[i].data_type) is Some)
    &&& forall|i: int, j: int|
        0 <= i < defs.len() && 0 <= j < defs.len() && (#[trigger] defs[i]).primary_key && (
        #[trigger] defs[j]).primary_key ==> i == j
}

/// The column type of a declared type, when it is supported.
pub fn type_of(column: &ColumnDef) -> (r: Result<Type, Error>)
    ensures
        match r {
            Ok(t) => declared_type(column.data_type) == Some(t),
            Err(e) => declared_type(column.data_type) is None && e.kind == ErrorKind::Schema,
        },
{
    match column.data_type {
        DataType::Bool => Ok(Type::Bool),
        DataType::Integer => Ok(Type::Integer),
        DataType::Text => Ok(Type::Text),
        DataType::Unsupported => Err(Error::new(ErrorKind::Schema, "unsupported column type")),
    }
}

impl Schema {
    /// The schema that `CREATE TABLE` declares.
    pub fn new(desc: &Vec<ColumnDef>) -> (r: Result<Schema, Error>)
        ensures
            r is Ok <==> valid_defs(desc@),
            r is Err ==> r->Err_0.kind == ErrorKind::Schema,
            r matches Ok(s) ==> {
                &&& s.columns@.len() == desc@.len()
                &&& forall|i: int|
                    0 <= i < desc@.len() ==> (#[trigger] s.columns@[i]).name@ == desc@[i].name@ && Some(
                        s.columns@[i].type_,
                    ) == declared_type(desc@[i].data_type)
                &&& forall|i: int| 0 <= i < desc@.len() ==> (s.primary_key == Some(i as usize) <==> (#[trigger] desc@[i]).primary_key)
                &&& schema_wf(s)
            },
    {
        let mut columns: Vec<Column> = Vec::new();
        let mut primary_key: Option<usize> = None;
        let mut i: usize = 0;
        while i < desc.len()
            invariant
                i <= desc@.len(),
                columns@.len() == i,
                forall|k: int| 0 <= k < i ==> (declared_type(#[trigger] desc@[k].data_type) is Some),
                forall|k: int|
                    0 <= k < i ==> (#[trigger] columns@[k]).name@ == desc@[k].name@ && Some(columns@[k].type_)
                        == declared_type(desc@[k].data_type),
                forall|k: int| 0 <= k < i ==> (primary_key == Some(k as usize) <==> (#[trigger] desc@[k]).primary_key),
                primary_key matches Some(p) ==> p < i,
            decreases desc@.len() - i,
        {
            let column = &desc[i];
            if column.primary_key {
                if primary_key.is_some() {
                    proof {
                        let p = primary_key->Some_0 as int;
                        assert(desc@[p].primary_key && desc@[i as int].primary_key && p != i);
                    }
                    return Err(Error::new(ErrorKind::Schema, "at most one column may be the primary key"));
                }
                primary_key = Some(i);
            }
            let type_ = match type_of(column) {
                Ok(t) => t,
                Err(e) => return Err(e),
            };
            let ghost before = columns@;
            columns.push(Column { name: column.name.clone(), type_ });
            proof {
                assert forall|k: int| 0 <= k < i + 1 implies (#[trigger] columns@[k]).name@ == desc@[k].name@
                    && Some(columns@[k].type_) == declared_type(desc@[k].data_type) by {
                    if k < i {
                        assert(columns@[k] == before[k]);
                    }
                }
            }
            i = i + 1;
        }
        Ok(Schema { primary_key, columns })
    }
}

} // verus!
