//! Rewriting cells of one column.
use crate::column::{column_index, find_column, parse_typed, typed_literal, Datum, Value};
use crate::condition::NestedCondition;
use crate::table::{distinct, eval_rows, valid_keys, Table};
use crate::table_errors::{Error, ErrorView};
use crate::table_insert::datums;
use vstd::prelude::*;

verus! {

/// The column that `update_column(name, lit)` overwrites and the value it
/// writes, or the error it reports.
pub open spec fn update_column_outcome(t: Table, name: Seq<char>, lit: Seq<char>) -> Result<
    (int, Datum),
    ErrorView,
> {
    if t.primary_key is Some && t.columns@[t.primary_key->Some_0 as int].name@ == name {
        Err(ErrorView::CannotBatchUpdatePrimaryKey)
    } else {
        match column_index(t.columns@, name) {
            None => Err(ErrorView::NonExistingColumn(name)),
            Some(k) => match typed_literal(t.columns@[k].data_type, lit) {
                None => Err(ErrorView::ParseError(0, lit)),
                Some(v) => Ok((k, v)),
            },
        }
    }
}

/// `s` with `v` written at every position that `m` selects.
pub open spec fn overwrite(s: Seq<Datum>, m: Seq<bool>, v: Datum) -> Seq<Datum> {
    Seq::new(s.len(), |i: int| if m[i] { v } else { s[i] })
}

/// The column that `update_with_nested_conditions((name, lit), c)` rewrites
/// and its new cells, or the error it reports.
pub open spec fn conditional_update_outcome(
    t: Table,
    name: Seq<char>,
    lit: Seq<char>,
    c: NestedCondition,
) -> Result<(int, Seq<Datum>), ErrorView> {
    match column_index(t.columns@, name) {
        None => Err(ErrorView::NonExistingColumn(name)),
        Some(k) => match typed_literal(t.columns@[k].data_type, lit) {
            None => Err(ErrorView::ParseError(1, lit)),
            Some(v) => match eval_rows(c, t.columns@, t.row_count()) {
                Err(e) => Err(e),
                Ok(m) => {
                    let new = overwrite(t.columns@[k].values(), m, v);
                    if t.columns@[k].is_primary_key && !distinct(new) {
                        Err(ErrorView::DuplicatePrimaryKey)
                    } else {
                        Ok((k, new))
                    }
                },
            },
        }
    }
}

/// Whether some value occurs twice among `v`.
pub fn has_duplicates(v: &Vec<Value>) -> (r: bool)
    ensures
        r == !distinct(datums(v@)),
{
    let n = v.len();
    let mut i: usize = 0;
    while i < n
        invariant
            i <= n == v@.len(),
            forall|a: int, b: int| 0 <= a < i && 0 <= b < n && a != b ==> v@[a]@ != v@[b]@,
        decreases n - i,
    {
        let mut j: usize = 0;
        while j < n
            invariant
                i < n == v@.len(),
                j <= n,
                forall|a: int, b: int| 0 <= a < i && 0 <= b < n && a != b ==> v@[a]@ != v@[b]@,
                forall|b: int| 0 <= b < j && b != i ==> v@[i as int]@ != v@[b]@,
            decreases n - j,
        {
            if j != i && crate::column::same_value(&v[i], &v[j]) {
                assert(datums(v@)[i as int] == datums(v@)[j as int]);
                return true;
            }
            j = j + 1;
        }
        i = i + 1;
    }
    assert(distinct(datums(v@))) by {
        assert forall|a: int, b: int|
            0 <= a < n && 0 <= b < n && a != b implies datums(v@)[a] != datums(v@)[b] by {
            assert(v@[a]@ != v@[b]@);
        }
    }
    false
}

impl Table {
    /// Replaces the cells of column `k`, keeping the table's invariant.
    pub(crate) fn replace_column_data(&mut self, k: usize, data: Vec<Value>)
        requires
            old(self).wf(),
            k < old(self).columns@.len(),
            data@.len() == old(self).row_count(),
            old(self).columns@[k as int].is_primary_key ==> valid_keys(datums(data@)),
        ensures
            final(self).wf(),
            final(self).schema() == old(self).schema(),
            final(self).cells() == old(self).cells().update(k as int, datums(data@)),
            final(self).row_count() == old(self).row_count(),
    {
        let ghost old_table = *self;
        self.columns[k].data = data;
        assert(self.schema().columns =~= old_table.schema().columns);
        assert(self.cells() =~= old_table.cells().update(k as int, datums(data@)));
        assert forall|j: int| 0 <= j < self.columns@.len() implies #[trigger] self.columns@[j].data@.len()
            == self.row_count() by {
            assert(old_table.columns@[0].data@.len() == old_table.row_count());
            assert(old_table.columns@[j].data@.len() == old_table.row_count());
            if j != k {
                assert(self.columns@[j] == old_table.columns@[j]);
            }
            if k != 0 {
                assert(self.columns@[0] == old_table.columns@[0]);
            }
        }
        assert forall|j: int| 0 <= j < self.columns@.len() implies #[trigger] self.columns@[j].is_primary_key
            == old_table.columns@[j].is_primary_key by {
        }
    }

    /// Writes one value, read from `new_value` as the column's type, into
    /// every row of the named column. Fails, leaving the table as it was,
    /// with `CannotBatchUpdatePrimaryKey` for the primary-key column,
    /// `NonExistingColumn`, or `ParseError` at position 0.
    pub fn update_column(&mut self, column_name: &str, new_value: &str) -> (r: Result<(), Error>)
        requires
            old(self).wf(),
        ensures
            final(self).wf(),
            final(self).schema() == old(self).schema(),
            match update_column_outcome(*old(self), column_name@, new_value@) {
                Ok((k, v)) => r is Ok && final(self).cells() == old(self).cells().update(
                    k,
                    Seq::new(old(self).row_count(), |i: int| v),
                ),
                Err(e) => r is Err && r->Err_0@ == e && *final(self) == *old(self),
            },
    {
        if let Some(p) = self.primary_key {
            if self.columns[p].name == column_name.to_string() {
                return Err(Error::CannotBatchUpdatePrimaryKey);
            }
        }
        let k = match find_column(&self.columns, column_name) {
            Some(k) => k,
            None => return Err(Error::NonExistingColumn(column_name.to_string())),
        };
        let v = match parse_typed(self.columns[k].data_type, new_value) {
            Some(v) => v,
            None => return Err(Error::ParseError(0, new_value.to_string())),
        };
        let n = self.columns[k].data.len();
        let mut data: Vec<Value> = Vec::new();
        let mut i: usize = 0;
        while i < n
            invariant
                i <= n,
                data@.len() == i,
                forall|j: int| 0 <= j < i ==> data@[j]@ == v@,
            decreases n - i,
        {
            data.push(v.duplicate());
            i = i + 1;
        }
        assert(datums(data@) =~= Seq::new(self.row_count(), |i: int| v@));
        self.replace_column_data(k, data);
        Ok(())
    }

    /// Writes one value, read from the second part of `update_input` as the
    /// type of the column that the first part names, into the rows that
    /// satisfy `nested_condition`. Fails, leaving the table as it was, with
    /// `NonExistingColumn`, `ParseError` at position 1, the condition's
    /// error, or `DuplicatePrimaryKey` when the primary-key column would
    /// hold a value twice.
    pub fn update_with_nested_conditions(
        &mut self,
        update_input: (String, String),
        nested_condition: NestedCondition,
    ) -> (r: Result<(), Error>)
        requires
            old(self).wf(),
        ensures
            final(self).wf(),
            final(self).schema() == old(self).schema(),
            match conditional_update_outcome(
                *old(self),
                update_input.0@,
                update_input.1@,
                nested_condition,
            ) {
                Ok((k, new)) => r is Ok && final(self).cells() == old(self).cells().update(k, new),
                Err(e) => r is Err && r->Err_0@ == e && *final(self) == *old(self),
            },
    {
        let k = match find_column(&self.columns, update_input.0.as_str()) {
            Some(k) => k,
            None => return Err(Error::NonExistingColumn(update_input.0.clone())),
        };
        let v = match parse_typed(self.columns[k].data_type, update_input.1.as_str()) {
            Some(v) => v,
            None => return Err(Error::ParseError(1, update_input.1.clone())),
        };
        let mask = match self.matching_rows(&nested_condition) {
            Ok(m) => m,
            Err(e) => return Err(e),
        };
        let n = self.columns[k].data.len();
        let mut data: Vec<Value> = Vec::new();
        let mut i: usize = 0;
        while i < n
            invariant
                self.wf(),
                k < self.columns@.len(),
                n == self.columns@[k as int].data@.len() == mask@.len(),
                i <= n,
                data@.len() == i,
                forall|j: int| 0 <= j < i ==> data@[j]@ == (if mask@[j] {
                    v@
                } else {
                    self.columns@[k as int].data@[j]@
                }),
            decreases n - i,
        {
            if mask[i] {
                data.push(v.duplicate());
            } else {
                data.push(self.columns[k].data[i].duplicate());
            }
            i = i + 1;
        }
        let ghost new = overwrite(self.columns@[k as int].values(), mask@, v@);
        assert(datums(data@) =~= new);
        if self.columns[k].is_primary_key && has_duplicates(&data) {
            return Err(Error::DuplicatePrimaryKey);
        }
        proof {
            if self.columns@[k as int].is_primary_key {
                assert(valid_keys(new)) by {
                    assert(self.primary_key == Some(k));
                    assert forall|j: int| 0 <= j < new.len() implies new[j] != Datum::Null by {
                        assert(self.columns@[k as int].values()[j] != Datum::Null);
                    }
                }
            }
        }
        self.replace_column_data(k, data);
        Ok(())
    }
}

} // verus!
