//! Typed cell values and per-column storage.
use crate::literal::{
    decimal_literal, integer_literal, is_null_literal, is_null_text, parse_decimal, parse_integer,
};
use vstd::prelude::*;

verus! {

/// The declared type of a column.
#[derive(Clone, Copy, Debug, PartialEq, Eq, Structural)]
pub enum ColumnDataType {
    Integer,
    Float,
    Text,
}

/// A fractional number held exactly, as a count of 10^-9 units.
#[derive(Clone, Copy, Debug, PartialEq, Eq, Structural)]
pub struct Decimal {
    pub nanos: i128,
}

/// One cell of a column.
#[derive(Clone, Debug)]
pub enum Value {
    Integer(i64),
    Float(Decimal),
    Text(String),
    Null,
}

/// What a cell holds, with text seen as its characters.
pub enum Datum {
    Integer(i64),
    Float(i128),
    Text(Seq<char>),
    Null,
}

impl View for Value {
    type V = Datum;

    open spec fn view(&self) -> Datum {
        match self {
            Value::Integer(i) => Datum::Integer(*i),
            Value::Float(d) => Datum::Float(d.nanos),
            Value::Text(s) => Datum::Text(s@),
            Value::Null => Datum::Null,
        }
    }
}

impl PartialEq for Value {
    fn eq(&self, other: &Value) -> (r: bool) {
        same_value(self, other)
    }
}

impl vstd::std_specs::cmp::PartialEqSpecImpl for Value {
    open spec fn obeys_eq_spec() -> bool {
        true
    }

    open spec fn eq_spec(&self, other: &Value) -> bool {
        self@ == other@
    }
}

/// Compares two cells by what they hold.
pub fn same_value(a: &Value, b: &Value) -> (r: bool)
    ensures
        r == (a@ == b@),
{
    match (a, b) {
        (Value::Integer(x), Value::Integer(y)) => *x == *y,
        (Value::Float(x), Value::Float(y)) => x.nanos == y.nanos,
        (Value::Text(x), Value::Text(y)) => *x == *y,
        (Value::Null, Value::Null) => true,
        _ => false,
    }
}

impl Value {
    /// A copy of this cell.
    pub fn duplicate(&self) -> (r: Value)
        ensures
            r@ == self@,
    {
        match self {
            Value::Integer(i) => Value::Integer(*i),
            Value::Float(d) => Value::Float(*d),
            Value::Text(s) => Value::Text(s.clone()),
            Value::Null => Value::Null,
        }
    }

    pub fn is_null(&self) -> (r: bool)
        ensures
            r == (self@ == Datum::Null),
    {
        match self {
            Value::Null => true,
            _ => false,
        }
    }
}

/// What a literal denotes in a column of type `t`; `None` when it does not
/// read as that type.
pub open spec fn typed_literal(t: ColumnDataType, s: Seq<char>) -> Option<Datum> {
    match t {
        ColumnDataType::Integer => match integer_literal(s) {
            Some(i) => Some(Datum::Integer(i)),
            None => None,
        },
        ColumnDataType::Float => match decimal_literal(s) {
            Some(d) => Some(Datum::Float(d)),
            None => None,
        },
        ColumnDataType::Text => Some(Datum::Text(s)),
    }
}

/// What a literal written into a cell of type `t` denotes: the word `null`
/// in any case gives the null cell, whatever the type.
pub open spec fn cell_literal(t: ColumnDataType, s: Seq<char>) -> Option<Datum> {
    if is_null_literal(s) {
        Some(Datum::Null)
    } else {
        typed_literal(t, s)
    }
}

/// Reads a literal as a value of type `t`.
pub fn parse_typed(t: ColumnDataType, s: &str) -> (r: Option<Value>)
    ensures
        match r {
            Some(v) => typed_literal(t, s@) == Some(v@),
            None => typed_literal(t, s@) is None,
        },
{
    match t {
        ColumnDataType::Integer => match parse_integer(s) {
            Some(i) => Some(Value::Integer(i)),
            None => None,
        },
        ColumnDataType::Float => match parse_decimal(s) {
            Some(d) => Some(Value::Float(Decimal { nanos: d })),
            None => None,
        },
        ColumnDataType::Text => Some(Value::Text(s.to_string())),
    }
}

/// Reads a literal written into a cell of type `t`.
pub fn parse_cell(t: ColumnDataType, s: &str) -> (r: Option<Value>)
    ensures
        match r {
            Some(v) => cell_literal(t, s@) == Some(v@),
            None => cell_literal(t, s@) is None,
        },
{
    if is_null_text(s) {
        Some(Value::Null)
    } else {
        parse_typed(t, s)
    }
}

/// The table and column that a foreign-key column refers to.
#[derive(Clone, Debug)]
pub struct ForeignKeyInfo {
    pub reference_table: String,
    pub reference_column: String,
}

impl ForeignKeyInfo {
    pub fn new(reference_table: &str, reference_column: &str) -> (r: ForeignKeyInfo)
        ensures
            r.reference_table@ == reference_table@,
            r.reference_column@ == reference_column@,
    {
        ForeignKeyInfo {
            reference_table: reference_table.to_string(),
            reference_column: reference_column.to_string(),
        }
    }

    pub fn duplicate(&self) -> (r: ForeignKeyInfo)
        ensures
            r.reference_table@ == self.reference_table@,
            r.reference_column@ == self.reference_column@,
    {
        ForeignKeyInfo {
            reference_table: self.reference_table.clone(),
            reference_column: self.reference_column.clone(),
        }
    }
}

/// A column: its name, declared type, one value per row, whether it is the
/// primary key, and the column it refers to if it is a foreign key.
#[derive(Clone, Debug)]
pub struct Column {
    pub name: String,
    pub data_type: ColumnDataType,
    pub data: Vec<Value>,
    pub is_primary_key: bool,
    pub foreign_key: Option<ForeignKeyInfo>,
}

/// The schema part of a column: everything but its values.
pub struct ColumnSchema {
    pub name: Seq<char>,
    pub data_type: ColumnDataType,
    pub is_primary_key: bool,
    pub foreign_key: Option<(Seq<char>, Seq<char>)>,
}

impl Column {
    pub open spec fn schema(&self) -> ColumnSchema {
        ColumnSchema {
            name: self.name@,
            data_type: self.data_type,
            is_primary_key: self.is_primary_key,
            foreign_key: match self.foreign_key {
                Some(fk) => Some((fk.reference_table@, fk.reference_column@)),
                None => None,
            },
        }
    }

    /// The column's cells, in row order.
    pub open spec fn values(&self) -> Seq<Datum> {
        self.data@.map_values(|v: Value| v@)
    }

    /// Creates a column; it holds one row, `default_value`, when that is given.
    pub fn new(
        name: &str,
        data_type: ColumnDataType,
        default_value: Option<Value>,
        is_primary_key: bool,
        foreign_key: Option<ForeignKeyInfo>,
    ) -> (r: Column)
        ensures
            r.name@ == name@,
            r.data_type == data_type,
            r.is_primary_key == is_primary_key,
            r.foreign_key == foreign_key,
            r.values() == match default_value {
                Some(v) => seq![v@],
                None => Seq::<Datum>::empty(),
            },
    {
        let data = match default_value {
            Some(value) => {
                let mut d: Vec<Value> = Vec::new();
                d.push(value);
                d
            },
            None => Vec::new(),
        };
        let r = Column { name: name.to_string(), data_type, data, is_primary_key, foreign_key };
        assert(r.values() =~= match default_value {
            Some(v) => seq![v@],
            None => Seq::<Datum>::empty(),
        });
        r
    }

    /// A copy of this column, holding the same schema and cells.
    pub fn duplicate(&self) -> (r: Column)
        ensures
            r.schema() == self.schema(),
            r.values() == self.values(),
    {
        let mut data: Vec<Value> = Vec::new();
        let mut i: usize = 0;
        while i < self.data.len()
            invariant
                i <= self.data@.len(),
                data@.map_values(|v: Value| v@) =~= self.values().take(i as int),
            decreases self.data@.len() - i,
        {
            data.push(self.data[i].duplicate());
            assert(self.values().take(i + 1) =~= self.values().take(i as int).push(self.data@[i as int]@));
            i = i + 1;
        }
        assert(self.values().take(i as int) =~= self.values());
        Column {
            name: self.name.clone(),
            data_type: self.data_type,
            data,
            is_primary_key: self.is_primary_key,
            foreign_key: match &self.foreign_key {
                Some(fk) => Some(fk.duplicate()),
                None => None,
            },
        }
    }
}

} // verus!

verus! {

pub open spec fn column_schemas(cols: Seq<Column>) -> Seq<ColumnSchema> {
    cols.map_values(|c: Column| c.schema())
}

/// `i` is the first column of `cols` named `name`.
pub open spec fn first_named(cols: Seq<Column>, name: Seq<char>, i: int) -> bool {
    &&& 0 <= i < cols.len()
    &&& cols[i].name@ == name
    &&& forall|j: int| 0 <= j < i ==> cols[j].name@ != name
}

/// Position of the first column named `name`, if there is one.
pub open spec fn column_index(cols: Seq<Column>, name: Seq<char>) -> Option<int> {
    if exists|i: int| first_named(cols, name, i) {
        Some(choose|i: int| first_named(cols, name, i))
    } else {
        None
    }
}

pub open spec fn has_column(cols: Seq<Column>, name: Seq<char>) -> bool {
    exists|i: int| 0 <= i < cols.len() && cols[i].name@ == name
}

pub proof fn lemma_column_index(cols: Seq<Column>, name: Seq<char>, i: int)
    requires
        first_named(cols, name, i),
    ensures
        column_index(cols, name) == Some(i),
        has_column(cols, name),
{
    let j = choose|j: int| first_named(cols, name, j);
    assert(first_named(cols, name, j));
    if j < i {
        assert(cols[j].name@ != name);
    } else if j > i {
        assert(cols[i].name@ != name);
    }
}

/// Finds the first column named `name`.
pub fn find_column(cols: &Vec<Column>, name: &str) -> (r: Option<usize>)
    ensures
        match r {
            Some(i) => column_index(cols@, name@) == Some(i as int) && has_column(cols@, name@),
            None => column_index(cols@, name@) is None && !has_column(cols@, name@),
        },
{
    let target = name.to_string();
    let mut i: usize = 0;
    while i < cols.len()
        invariant
            i <= cols@.len(),
            target@ == name@,
            forall|j: int| 0 <= j < i ==> cols@[j].name@ != name@,
        decreases cols@.len() - i,
    {
        if cols[i].name == target {
            proof {
                lemma_column_index(cols@, name@, i as int);
            }
            return Some(i);
        }
        i = i + 1;
    }
    assert(!exists|k: int| first_named(cols@, name@, k));
    None
}

} // verus!
