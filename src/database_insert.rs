//! Inserting rows through the registry, with foreign keys checked first.
use crate::column::{cell_literal, column_index, find_column, parse_cell, Column, Datum};
use crate::database::{registry_ok, schemas, table_index, Database};
use crate::db_errors::{DbErrorView, Error};
use crate::table::Table;
use crate::table_errors::{string_views, ErrorView};
use crate::table_insert::{any_missing, contains_name, contains_value, insert_outcome, sparse_insert_outcome, with_row};
use vstd::prelude::*;

verus! {

/// What the registry says of the literal `lit` written into `col`: for a
/// foreign-key column, the referenced table and column must exist, the
/// literal must read (else `parse_err`), must not be null, and must occur
/// in the referenced column.
pub open spec fn foreign_value_error(
    tables: Seq<Table>,
    col: Column,
    lit: Seq<char>,
    parse_err: DbErrorView,
) -> Option<DbErrorView> {
    match col.foreign_key {
        None => None,
        Some(fk) => match table_index(tables, fk.reference_table@) {
            None => Some(DbErrorView::ReferencedTableNotFound(fk.reference_table@)),
            Some(k) => match column_index(tables[k].columns@, fk.reference_column@) {
                None => Some(
                    DbErrorView::ReferencedColumnNotFound(fk.reference_table@, fk.reference_column@),
                ),
                Some(p) => match cell_literal(col.data_type, lit) {
                    None => Some(parse_err),
                    Some(v) => if v == Datum::Null {
                        Some(DbErrorView::NullForeignKey(col.name@))
                    } else if !tables[k].columns@[p].values().contains(v) {
                        Some(DbErrorView::ForeignKeyViolation(lit, col.name@, fk.reference_table@))
                    } else {
                        None
                    },
                },
            },
        },
    }
}

/// The first foreign-key error among the first `n` literals of a full row
/// for table `t`.
pub open spec fn row_foreign_error(tables: Seq<Table>, t: Table, data: Seq<String>, n: nat) -> Option<
    DbErrorView,
>
    decreases n,
{
    if n == 0 {
        None
    } else {
        match row_foreign_error(tables, t, data, (n - 1) as nat) {
            Some(e) => Some(e),
            None => foreign_value_error(
                tables,
                t.columns@[n - 1],
                data[n - 1]@,
                DbErrorView::ParseError((n - 1) as usize, data[n - 1]@),
            ),
        }
    }
}

/// The first foreign-key error among the first `n` named literals for
/// table `t`; an unknown name gives `NonExistingColumn`.
pub open spec fn named_foreign_error(
    tables: Seq<Table>,
    t: Table,
    names: Seq<String>,
    data: Seq<String>,
    n: nat,
) -> Option<DbErrorView>
    decreases n,
{
    if n == 0 {
        None
    } else {
        match named_foreign_error(tables, t, names, data, (n - 1) as nat) {
            Some(e) => Some(e),
            None => match column_index(t.columns@, names[n - 1]@) {
                None => Some(DbErrorView::TableError(ErrorView::NonExistingColumn(names[n - 1]@))),
                Some(c) => foreign_value_error(
                    tables,
                    t.columns@[c],
                    data[n - 1]@,
                    DbErrorView::TableError(ErrorView::ParseError((n - 1) as usize, data[n - 1]@)),
                ),
            },
        }
    }
}

/// The foreign-key columns of `cols` that `names` leaves out, in column
/// order.
pub open spec fn missing_foreign_keys(cols: Seq<Column>, names: Seq<String>, n: nat) -> Seq<Seq<char>>
    decreases n,
{
    if n == 0 {
        Seq::empty()
    } else {
        let p = missing_foreign_keys(cols, names, (n - 1) as nat);
        if cols[n - 1].foreign_key is Some && !string_views(names).contains(cols[n - 1].name@) {
            p.push(cols[n - 1].name@)
        } else {
            p
        }
    }
}

pub open spec fn min(a: int, b: int) -> int {
    if a < b {
        a
    } else {
        b
    }
}

/// `after` is `before` with table `i` replaced by one of the same schema.
pub open spec fn replaced_table(before: Seq<Table>, after: Seq<Table>, i: int) -> bool {
    &&& after.len() == before.len()
    &&& 0 <= i < before.len()
    &&& after[i].schema() == before[i].schema()
    &&& forall|j: int| 0 <= j < before.len() && j != i ==> after[j] == before[j]
}

pub proof fn lemma_replaced_table(before: Seq<Table>, after: Seq<Table>, i: int)
    requires
        registry_ok(schemas(before)),
        replaced_table(before, after, i),
    ensures
        schemas(after) == schemas(before),
        registry_ok(schemas(after)),
{
    assert(schemas(after) =~= schemas(before));
}

/// A foreign-key literal that reads as a non-null value absent from the
/// referenced column gives `ForeignKeyViolation`, naming the literal, the
/// column and the referenced table.
pub proof fn lemma_absent_value_violates(
    tables: Seq<Table>,
    col: Column,
    lit: Seq<char>,
    parse_err: DbErrorView,
    k: int,
    p: int,
)
    requires
        col.foreign_key is Some,
        table_index(tables, col.foreign_key->Some_0.reference_table@) == Some(k),
        column_index(tables[k].columns@, col.foreign_key->Some_0.reference_column@) == Some(p),
        cell_literal(col.data_type, lit) is Some,
        cell_literal(col.data_type, lit)->Some_0 != Datum::Null,
        !tables[k].columns@[p].values().contains(cell_literal(col.data_type, lit)->Some_0),
    ensures
        foreign_value_error(tables, col, lit, parse_err) == Some(
            DbErrorView::ForeignKeyViolation(lit, col.name@, col.foreign_key->Some_0.reference_table@),
        ),
{
}

/// In a named insert, a foreign-key literal that reads as a non-null value
/// absent from the referenced column, after pairs that pass, makes the
/// whole check fail with `ForeignKeyViolation`; the insert then reports it
/// and leaves every table as it was.
pub proof fn lemma_named_violation(
    tables: Seq<Table>,
    t: Table,
    names: Seq<String>,
    data: Seq<String>,
    q: nat,
    m: nat,
    c: int,
    k: int,
    p: int,
)
    requires
        q < m,
        named_foreign_error(tables, t, names, data, q) is None,
        column_index(t.columns@, names[q as int]@) == Some(c),
        t.columns@[c].foreign_key is Some,
        table_index(tables, t.columns@[c].foreign_key->Some_0.reference_table@) == Some(k),
        column_index(tables[k].columns@, t.columns@[c].foreign_key->Some_0.reference_column@) == Some(p),
        cell_literal(t.columns@[c].data_type, data[q as int]@) is Some,
        cell_literal(t.columns@[c].data_type, data[q as int]@)->Some_0 != Datum::Null,
        !tables[k].columns@[p].values().contains(
            cell_literal(t.columns@[c].data_type, data[q as int]@)->Some_0,
        ),
    ensures
        named_foreign_error(tables, t, names, data, m) == Some(
            DbErrorView::ForeignKeyViolation(
                data[q as int]@,
                t.columns@[c].name@,
                t.columns@[c].foreign_key->Some_0.reference_table@,
            ),
        ),
{
    assert(named_foreign_error(tables, t, names, data, q + 1) is Some);
    lemma_named_foreign_error_some(tables, t, names, data, q + 1, m);
}

impl Database {
    /// Checks the literal `lit` for the column `col` against the registry.
    pub fn check_foreign_value(&self, col: &Column, lit: &str, parse_err: Error) -> (r: Result<
        (),
        Error,
    >)
        requires
            self.wf(),
        ensures
            match foreign_value_error(self.tables@, *col, lit@, parse_err@) {
                Some(e) => r is Err && r->Err_0@ == e,
                None => r is Ok,
            },
    {
        let fk = match &col.foreign_key {
            None => return Ok(()),
            Some(fk) => fk,
        };
        let k = match self.find_table(fk.reference_table.as_str()) {
            Some(k) => k,
            None => return Err(Error::ReferencedTableNotFound(fk.reference_table.clone())),
        };
        let referenced = &self.tables[k];
        let p = match find_column(&referenced.columns, fk.reference_column.as_str()) {
            Some(p) => p,
            None => return Err(
                Error::ReferencedColumnNotFound(fk.reference_table.clone(), fk.reference_column.clone()),
            ),
        };
        let v = match parse_cell(col.data_type, lit) {
            Some(v) => v,
            None => return Err(parse_err),
        };
        if v.is_null() {
            return Err(Error::NullForeignKey(col.name.clone()));
        }
        if !contains_value(&referenced.columns[p].data, &v) {
            return Err(
                Error::ForeignKeyViolation(
                    lit.to_string(),
                    col.name.clone(),
                    fk.reference_table.clone(),
                ),
            );
        }
        Ok(())
    }

    /// Inserts a full row into the named table. Fails, leaving every table
    /// as it was, with `TableNotFound`; then, column by column, with a
    /// foreign-key error (`ReferencedTableNotFound`,
    /// `ReferencedColumnNotFound`, `ParseError`, `NullForeignKey`,
    /// `ForeignKeyViolation`); then with the table's own error.
    pub fn insert_into_table(&mut self, table_name: &str, data: Vec<String>) -> (r: Result<(), Error>)
        requires
            old(self).wf(),
        ensures
            final(self).wf(),
            final(self).name == old(self).name,
            match table_index(old(self).tables@, table_name@) {
                None => r is Err && r->Err_0@ == DbErrorView::TableNotFound(table_name@)
                    && *final(self) == *old(self),
                Some(i) => match row_foreign_error(
                    old(self).tables@,
                    old(self).tables@[i],
                    data@,
                    min(data@.len() as int, old(self).tables@[i].columns@.len() as int) as nat,
                ) {
                    Some(e) => r is Err && r->Err_0@ == e && *final(self) == *old(self),
                    None => match insert_outcome(old(self).tables@[i], data@) {
                        Ok(row) => r is Ok && replaced_table(old(self).tables@, final(self).tables@, i)
                            && final(self).tables@[i].cells() == with_row(
                            old(self).tables@[i].cells(),
                            row,
                        ),
                        Err(e) => r is Err && r->Err_0@ == DbErrorView::TableError(e)
                            && final(self).tables@ == old(self).tables@,
                    },
                },
            },
    {
        let ti = match self.find_table(table_name) {
            Some(i) => i,
            None => return Err(Error::TableNotFound(table_name.to_string())),
        };
        let n = if data.len() < self.tables[ti].columns.len() {
            data.len()
        } else {
            self.tables[ti].columns.len()
        };
        let mut i: usize = 0;
        while i < n
            invariant
                *self == *old(self),
                self.wf(),
                ti < self.tables@.len(),
                table_index(old(self).tables@, table_name@) == Some(ti as int),
                n == min(data@.len() as int, self.tables@[ti as int].columns@.len() as int),
                i <= n,
                row_foreign_error(self.tables@, self.tables@[ti as int], data@, i as nat) is None,
            decreases n - i,
        {
            let parse_err = Error::ParseError(i, data[i].clone());
            match self.check_foreign_value(&self.tables[ti].columns[i], data[i].as_str(), parse_err) {
                Err(e) => {
                    proof {
                        lemma_row_foreign_error_some(
                            self.tables@,
                            self.tables@[ti as int],
                            data@,
                            (i + 1) as nat,
                            n as nat,
                        );
                    }
                    return Err(e);
                },
                Ok(()) => {},
            }
            i = i + 1;
        }
        let ghost before = self.tables@;
        assert(before[ti as int].wf());
        let res = self.tables[ti].insert(data);
        proof {
            lemma_replaced_table(before, self.tables@, ti as int);
            assert forall|j: int| 0 <= j < self.tables@.len() implies (#[trigger] self.tables@[j]).wf() by {
                if j != ti {
                    assert(self.tables@[j] == before[j]);
                }
            }
        }
        match res {
            Err(e) => {
                assert(self.tables@ =~= before);
                Err(Error::TableError(e))
            },
            Ok(()) => Ok(()),
        }
    }
}

impl Database {
    /// Inserts a row that names its columns into the named table. Fails,
    /// leaving every table as it was, with `TableNotFound`; with
    /// `MissingForeignKeyColumns` listing, in column order, the foreign-key
    /// columns that the names leave out; then, pair by pair, with
    /// `NonExistingColumn` or a foreign-key error; then with the table's own
    /// error.
    pub fn insert_with_columns_into_table(
        &mut self,
        table_name: &str,
        column_names: Vec<String>,
        data: Vec<String>,
    ) -> (r: Result<(), Error>)
        requires
            old(self).wf(),
        ensures
            final(self).wf(),
            final(self).name == old(self).name,
            match table_index(old(self).tables@, table_name@) {
                None => r is Err && r->Err_0@ == DbErrorView::TableNotFound(table_name@)
                    && *final(self) == *old(self),
                Some(i) => {
                    let t = old(self).tables@[i];
                    let missing = missing_foreign_keys(t.columns@, column_names@, t.columns@.len());
                    if missing.len() > 0 {
                        r is Err && r->Err_0@ == DbErrorView::MissingForeignKeyColumns(missing)
                            && *final(self) == *old(self)
                    } else {
                        match named_foreign_error(
                            old(self).tables@,
                            t,
                            column_names@,
                            data@,
                            min(data@.len() as int, column_names@.len() as int) as nat,
                        ) {
                            Some(e) => r is Err && r->Err_0@ == e && *final(self) == *old(self),
                            None => if any_missing(t.columns@, column_names@) {
                                &&& r is Err
                                &&& r->Err_0 is TableError
                                &&& r->Err_0->TableError_0 is NonExistingColumns
                                &&& final(self).tables@ == old(self).tables@
                            } else {
                                match sparse_insert_outcome(t, column_names@, data@) {
                                    Ok(row) => r is Ok && replaced_table(
                                        old(self).tables@,
                                        final(self).tables@,
                                        i,
                                    ) && final(self).tables@[i].cells() == with_row(t.cells(), row),
                                    Err(e) => r is Err && r->Err_0@ == DbErrorView::TableError(e)
                                        && final(self).tables@ == old(self).tables@,
                                }
                            },
                        }
                    }
                },
            },
    {
        let ti = match self.find_table(table_name) {
            Some(i) => i,
            None => return Err(Error::TableNotFound(table_name.to_string())),
        };
        let ghost t = self.tables@[ti as int];
        let mut missing: Vec<String> = Vec::new();
        let mut c: usize = 0;
        assert(string_views(missing@) =~= Seq::<Seq<char>>::empty());
        while c < self.tables[ti].columns.len()
            invariant
                *self == *old(self),
                ti < self.tables@.len(),
                t == self.tables@[ti as int],
                table_index(old(self).tables@, table_name@) == Some(ti as int),
                c <= t.columns@.len(),
                string_views(missing@) == missing_foreign_keys(t.columns@, column_names@, c as nat),
            decreases t.columns@.len() - c,
        {
            let col = &self.tables[ti].columns[c];
            if col.foreign_key.is_some() && !contains_name(&column_names, &col.name) {
                let ghost before = missing@;
                missing.push(col.name.clone());
                assert(string_views(missing@) =~= string_views(before).push(col.name@));
            }
            c = c + 1;
        }
        if missing.len() > 0 {
            return Err(Error::MissingForeignKeyColumns(missing));
        }
        assert(missing_foreign_keys(t.columns@, column_names@, t.columns@.len()).len() == 0);
        let n = if data.len() < column_names.len() {
            data.len()
        } else {
            column_names.len()
        };
        let mut i: usize = 0;
        while i < n
            invariant
                *self == *old(self),
                self.wf(),
                ti < self.tables@.len(),
                t == self.tables@[ti as int],
                table_index(old(self).tables@, table_name@) == Some(ti as int),
                missing_foreign_keys(t.columns@, column_names@, t.columns@.len()).len() == 0,
                n == min(data@.len() as int, column_names@.len() as int),
                i <= n,
                named_foreign_error(self.tables@, t, column_names@, data@, i as nat) is None,
            decreases n - i,
        {
            let c = match find_column(&self.tables[ti].columns, column_names[i].as_str()) {
                Some(c) => c,
                None => {
                    proof {
                        lemma_named_foreign_error_some(
                            self.tables@,
                            t,
                            column_names@,
                            data@,
                            (i + 1) as nat,
                            n as nat,
                        );
                    }
                    return Err(
                        Error::TableError(
                            crate::table_errors::Error::NonExistingColumn(column_names[i].clone()),
                        ),
                    );
                },
            };
            let parse_err = Error::TableError(
                crate::table_errors::Error::ParseError(i, data[i].clone()),
            );
            match self.check_foreign_value(&self.tables[ti].columns[c], data[i].as_str(), parse_err) {
                Err(e) => {
                    proof {
                        lemma_named_foreign_error_some(
                            self.tables@,
                            t,
                            column_names@,
                            data@,
                            (i + 1) as nat,
                            n as nat,
                        );
                    }
                    return Err(e);
                },
                Ok(()) => {},
            }
            i = i + 1;
        }
        let ghost before = self.tables@;
        assert(before[ti as int].wf());
        assert(string_views(missing@).len() == 0);
        let res = self.tables[ti].insert_with_columns(column_names, data);
        proof {
            lemma_replaced_table(before, self.tables@, ti as int);
            assert forall|j: int| 0 <= j < self.tables@.len() implies (#[trigger] self.tables@[j]).wf() by {
                if j != ti {
                    assert(self.tables@[j] == before[j]);
                }
            }
        }
        match res {
            Err(e) => {
                assert(self.tables@ =~= before);
                Err(Error::TableError(e))
            },
            Ok(()) => Ok(()),
        }
    }
}

proof fn lemma_row_foreign_error_some(tables: Seq<Table>, t: Table, data: Seq<String>, n: nat, m: nat)
    requires
        n <= m,
        row_foreign_error(tables, t, data, n) is Some,
    ensures
        row_foreign_error(tables, t, data, m) == row_foreign_error(tables, t, data, n),
    decreases m - n,
{
    if m > n {
        lemma_row_foreign_error_some(tables, t, data, n, (m - 1) as nat);
    }
}

proof fn lemma_named_foreign_error_some(
    tables: Seq<Table>,
    t: Table,
    names: Seq<String>,
    data: Seq<String>,
    n: nat,
    m: nat,
)
    requires
        n <= m,
        named_foreign_error(tables, t, names, data, n) is Some,
    ensures
        named_foreign_error(tables, t, names, data, m) == named_foreign_error(tables, t, names, data, n),
    decreases m - n,
{
    if m > n {
        lemma_named_foreign_error_some(tables, t, names, data, n, (m - 1) as nat);
    }
}

} // verus!
