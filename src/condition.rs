//! Nested AND/OR conditions over a table's rows, and their evaluation.
use crate::column::{
    column_index, find_column, parse_typed, typed_literal, Column, ColumnDataType, Datum, Value,
};
use crate::table_errors::{Error, ErrorView};
use vstd::prelude::*;

verus! {

/// A comparison operator of a leaf condition.
#[derive(Clone, Copy, Debug, PartialEq, Eq, Structural)]
pub enum Operator {
    Equal,
    NotEqual,
    LessThan,
    GreaterThan,
    LessThanOrEqual,
    GreaterThanOrEqual,
}

/// The operator that a symbol names: `=`, `!=`, `<`, `>`, `<=` or `>=`.
pub open spec fn operator_of(s: Seq<char>) -> Option<Operator> {
    if s == seq!['='] {
        Some(Operator::Equal)
    } else if s == seq!['!', '='] {
        Some(Operator::NotEqual)
    } else if s == seq!['<'] {
        Some(Operator::LessThan)
    } else if s == seq!['>'] {
        Some(Operator::GreaterThan)
    } else if s == seq!['<', '='] {
        Some(Operator::LessThanOrEqual)
    } else if s == seq!['>', '='] {
        Some(Operator::GreaterThanOrEqual)
    } else {
        None
    }
}

/// Whether `a op b` holds for two numbers.
pub open spec fn compare(a: int, b: int, op: Operator) -> bool {
    match op {
        Operator::Equal => a == b,
        Operator::NotEqual => a != b,
        Operator::LessThan => a < b,
        Operator::GreaterThan => a > b,
        Operator::LessThanOrEqual => a <= b,
        Operator::GreaterThanOrEqual => a >= b,
    }
}

/// Whether a cell stands in relation `op` to a literal's value. Numbers
/// compare by value; text supports only `=` and `!=`; any other pairing is
/// false.
pub open spec fn satisfies(v: Datum, lit: Datum, op: Operator) -> bool {
    match (v, lit) {
        (Datum::Integer(a), Datum::Integer(b)) => compare(a as int, b as int, op),
        (Datum::Float(a), Datum::Float(b)) => compare(a as int, b as int, op),
        (Datum::Text(a), Datum::Text(b)) => match op {
            Operator::Equal => a == b,
            Operator::NotEqual => a != b,
            _ => false,
        },
        _ => false,
    }
}

impl Operator {
    /// Reads an operator symbol; an unknown symbol comes back as the error.
    pub fn from_str(s: &str) -> (r: Result<Operator, String>)
        ensures
            match r {
                Ok(op) => operator_of(s@) == Some(op),
                Err(e) => operator_of(s@) is None && e@ == s@,
            },
    {
        let len = s.unicode_len();
        if len == 1 {
            let c = s.get_char(0);
            if c == '=' {
                assert(s@ =~= seq!['=']);
                return Ok(Operator::Equal);
            } else if c == '<' {
                assert(s@ =~= seq!['<']);
                return Ok(Operator::LessThan);
            } else if c == '>' {
                assert(s@ =~= seq!['>']);
                return Ok(Operator::GreaterThan);
            }
        } else if len == 2 {
            let c = s.get_char(0);
            let d = s.get_char(1);
            if d == '=' {
                if c == '!' {
                    assert(s@ =~= seq!['!', '=']);
                    return Ok(Operator::NotEqual);
                } else if c == '<' {
                    assert(s@ =~= seq!['<', '=']);
                    return Ok(Operator::LessThanOrEqual);
                } else if c == '>' {
                    assert(s@ =~= seq!['>', '=']);
                    return Ok(Operator::GreaterThanOrEqual);
                }
            }
        }
        Err(s.to_string())
    }
}

fn compare_i128(a: i128, b: i128, op: Operator) -> (r: bool)
    ensures
        r == compare(a as int, b as int, op),
{
    match op {
        Operator::Equal => a == b,
        Operator::NotEqual => a != b,
        Operator::LessThan => a < b,
        Operator::GreaterThan => a > b,
        Operator::LessThanOrEqual => a <= b,
        Operator::GreaterThanOrEqual => a >= b,
    }
}

/// Whether `value` stands in relation `operator` to `cond_value` read as a
/// literal of type `cond_column_data_type`; false when the literal does not
/// read as that type.
pub fn satisfies_condition(
    value: &Value,
    cond_column_data_type: ColumnDataType,
    cond_value: &str,
    operator: &Operator,
) -> (r: bool)
    ensures
        r == match typed_literal(cond_column_data_type, cond_value@) {
            Some(lit) => satisfies(value@, lit, *operator),
            None => false,
        },
{
    let lit = match parse_typed(cond_column_data_type, cond_value) {
        Some(l) => l,
        None => return false,
    };
    match (value, &lit) {
        (Value::Integer(a), Value::Integer(b)) => compare_i128(*a as i128, *b as i128, *operator),
        (Value::Float(a), Value::Float(b)) => compare_i128(a.nanos, b.nanos, *operator),
        (Value::Text(a), Value::Text(b)) => match operator {
            Operator::Equal => *a == *b,
            Operator::NotEqual => *a != *b,
            _ => false,
        },
        _ => false,
    }
}

/// A selection over rows: a comparison of one column with a literal, or the
/// conjunction or disjunction of two selections.
#[derive(Debug)]
pub enum NestedCondition {
    Condition(String, String, String),
    And(Box<NestedCondition>, Box<NestedCondition>),
    Or(Box<NestedCondition>, Box<NestedCondition>),
}

/// What `c` says of row `row` of `cols`. A leaf names its column
/// (`NonExistingColumn` if absent) and an operator (`InvalidOperator` if
/// unknown); a row that the column does not have fails the leaf; otherwise
/// the literal is read as the column's type (`ParseError` if it does not
/// read) and compared. Both sides of `And` and `Or` are evaluated, left
/// first, and the first error wins.
pub open spec fn eval(c: NestedCondition, cols: Seq<Column>, row: int) -> Result<bool, ErrorView>
    decreases c,
{
    match c {
        NestedCondition::Condition(name, op, lit) => match column_index(cols, name@) {
            None => Err(ErrorView::NonExistingColumn(name@)),
            Some(k) => match operator_of(op@) {
                None => Err(ErrorView::InvalidOperator(op@)),
                Some(o) => if row < 0 || row >= cols[k].data@.len() {
                    Ok(false)
                } else {
                    match typed_literal(cols[k].data_type, lit@) {
                        None => Err(ErrorView::ParseError(0, lit@)),
                        Some(l) => Ok(satisfies(cols[k].values()[row], l, o)),
                    }
                },
            },
        },
        NestedCondition::And(a, b) => match eval(*a, cols, row) {
            Err(e) => Err(e),
            Ok(x) => match eval(*b, cols, row) {
                Err(e) => Err(e),
                Ok(y) => Ok(x && y),
            },
        },
        NestedCondition::Or(a, b) => match eval(*a, cols, row) {
            Err(e) => Err(e),
            Ok(x) => match eval(*b, cols, row) {
                Err(e) => Err(e),
                Ok(y) => Ok(x || y),
            },
        },
    }
}

/// Evaluates `condition` on row `row_idx` of `columns`.
pub fn evaluate_nested_conditions(
    condition: &NestedCondition,
    columns: &Vec<Column>,
    row_idx: usize,
) -> (r: Result<bool, Error>)
    ensures
        match r {
            Ok(b) => eval(*condition, columns@, row_idx as int) == Ok::<bool, ErrorView>(b),
            Err(e) => eval(*condition, columns@, row_idx as int) == Err::<bool, ErrorView>(e@),
        },
    decreases condition,
{
    match condition {
        NestedCondition::Condition(column_name, operator, value) => {
            let k = match find_column(columns, column_name.as_str()) {
                Some(k) => k,
                None => return Err(Error::NonExistingColumn(column_name.clone())),
            };
            let op = match Operator::from_str(operator.as_str()) {
                Ok(op) => op,
                Err(_) => return Err(Error::InvalidOperator(operator.clone())),
            };
            let column = &columns[k];
            if row_idx >= column.data.len() {
                return Ok(false);
            }
            if parse_typed(column.data_type, value.as_str()).is_none() {
                return Err(Error::ParseError(0, value.clone()));
            }
            Ok(satisfies_condition(&column.data[row_idx], column.data_type, value.as_str(), &op))
        },
        NestedCondition::And(left, right) => {
            let a = evaluate_nested_conditions(left, columns, row_idx)?;
            let b = evaluate_nested_conditions(right, columns, row_idx)?;
            Ok(a && b)
        },
        NestedCondition::Or(left, right) => {
            let a = evaluate_nested_conditions(left, columns, row_idx)?;
            let b = evaluate_nested_conditions(right, columns, row_idx)?;
            Ok(a || b)
        },
    }
}

/// `And` and `Or` of two conditions that evaluate without error on a row
/// give the conjunction and the disjunction of their values on that row.
pub proof fn lemma_and_or_combine(a: NestedCondition, b: NestedCondition, cols: Seq<Column>, row: int)
    requires
        eval(a, cols, row) is Ok,
        eval(b, cols, row) is Ok,
    ensures
        eval(NestedCondition::And(Box::new(a), Box::new(b)), cols, row) == Ok::<bool, ErrorView>(
            eval(a, cols, row)->Ok_0 && eval(b, cols, row)->Ok_0,
        ),
        eval(NestedCondition::Or(Box::new(a), Box::new(b)), cols, row) == Ok::<bool, ErrorView>(
            eval(a, cols, row)->Ok_0 || eval(b, cols, row)->Ok_0,
        ),
{
}

/// An error on either side of `And` or `Or` is the error of the whole, the
/// left side's first.
pub proof fn lemma_and_or_error(a: NestedCondition, b: NestedCondition, cols: Seq<Column>, row: int)
    requires
        eval(a, cols, row) is Err || eval(b, cols, row) is Err,
    ensures
        eval(NestedCondition::And(Box::new(a), Box::new(b)), cols, row) == (if eval(a, cols, row) is Err {
            eval(a, cols, row)
        } else {
            eval(b, cols, row)
        }),
        eval(NestedCondition::Or(Box::new(a), Box::new(b)), cols, row) == (if eval(a, cols, row) is Err {
            eval(a, cols, row)
        } else {
            eval(b, cols, row)
        }),
{
}

} // verus!
