//! Appending rows to a table.
use crate::column::{cell_literal, column_index, find_column, has_column, parse_cell, Column, Datum, Value};
use crate::table::{valid_keys, Table};
use crate::table_errors::{string_views, Error, ErrorView};
use vstd::prelude::*;

verus! {

/// The views of a row of values.
pub open spec fn datums(v: Seq<Value>) -> Seq<Datum> {
    v.map_values(|x: Value| x@)
}

/// The first `n` literals of `data` read into the columns of the same
/// position; the first one that does not read gives `ParseError`.
pub open spec fn parse_row(cols: Seq<Column>, data: Seq<Seq<char>>, n: nat) -> Result<
    Seq<Datum>,
    ErrorView,
>
    decreases n,
{
    if n == 0 {
        Ok(Seq::empty())
    } else {
        match parse_row(cols, data, (n - 1) as nat) {
            Err(e) => Err(e),
            Ok(p) => match cell_literal(cols[n - 1].data_type, data[n - 1]) {
                None => Err(ErrorView::ParseError((n - 1) as usize, data[n - 1])),
                Some(v) => Ok(p.push(v)),
            },
        }
    }
}

/// What the primary key says of a new row: `NullPrimaryKey` for a null
/// key, `DuplicatePrimaryKey` for one already present.
pub open spec fn key_error(t: Table, row: Seq<Datum>) -> Option<ErrorView> {
    match t.primary_key {
        None => None,
        Some(k) => if row[k as int] == Datum::Null {
            Some(ErrorView::NullPrimaryKey)
        } else if t.columns@[k as int].values().contains(row[k as int]) {
            Some(ErrorView::DuplicatePrimaryKey)
        } else {
            None
        },
    }
}

/// The row that `insert(data)` appends to `t`, or the error it reports.
pub open spec fn insert_outcome(t: Table, data: Seq<String>) -> Result<Seq<Datum>, ErrorView> {
    if data.len() != t.columns@.len() {
        Err(ErrorView::MismatchedColumnCount)
    } else {
        match parse_row(t.columns@, string_views(data), data.len()) {
            Err(e) => Err(e),
            Ok(row) => match key_error(t, row) {
                Some(e) => Err(e),
                None => Ok(row),
            },
        }
    }
}

/// The cells with one more row.
pub open spec fn with_row(cells: Seq<Seq<Datum>>, row: Seq<Datum>) -> Seq<Seq<Datum>> {
    Seq::new(cells.len(), |i: int| cells[i].push(row[i]))
}

pub proof fn lemma_parse_row_len(cols: Seq<Column>, data: Seq<Seq<char>>, n: nat)
    ensures
        parse_row(cols, data, n) is Ok ==> parse_row(cols, data, n)->Ok_0.len() == n,
    decreases n,
{
    if n > 0 {
        lemma_parse_row_len(cols, data, (n - 1) as nat);
    }
}

proof fn lemma_parse_row_err(cols: Seq<Column>, data: Seq<Seq<char>>, n: nat, m: nat)
    requires
        n <= m,
        parse_row(cols, data, n) is Err,
    ensures
        parse_row(cols, data, m) == parse_row(cols, data, n),
    decreases m - n,
{
    if m > n {
        lemma_parse_row_err(cols, data, n, (m - 1) as nat);
    }
}

pub proof fn lemma_push_keeps_keys(s: Seq<Datum>, x: Datum)
    requires
        valid_keys(s),
        x != Datum::Null,
        !s.contains(x),
    ensures
        valid_keys(s.push(x)),
{
    let t = s.push(x);
    assert forall|i: int, j: int| 0 <= i < t.len() && 0 <= j < t.len() && i != j implies t[i]
        != t[j] by {
        if i == s.len() {
            assert(s[j] == t[j]);
        } else if j == s.len() {
            assert(s[i] == t[i]);
        }
    }
}

/// Whether `x` occurs among the cells `v`.
pub fn contains_value(v: &Vec<Value>, x: &Value) -> (r: bool)
    ensures
        r == datums(v@).contains(x@),
{
    let mut i: usize = 0;
    while i < v.len()
        invariant
            i <= v@.len(),
            forall|j: int| 0 <= j < i ==> v@[j]@ != x@,
        decreases v@.len() - i,
    {
        if crate::column::same_value(&v[i], x) {
            assert(datums(v@)[i as int] == x@);
            return true;
        }
        i = i + 1;
    }
    assert(!datums(v@).contains(x@)) by {
        if datums(v@).contains(x@) {
            let j = choose|j: int| 0 <= j < datums(v@).len() && datums(v@)[j] == x@;
            assert(v@[j]@ == x@);
        }
    }
    false
}

impl Table {
    /// Checks `row` against the primary key.
    fn check_key(&self, row: &Vec<Value>) -> (r: Result<(), Error>)
        requires
            self.wf(),
            row@.len() == self.columns@.len(),
        ensures
            match key_error(*self, datums(row@)) {
                Some(e) => r is Err && r->Err_0@ == e,
                None => r is Ok,
            },
    {
        if let Some(k) = self.primary_key {
            if row[k].is_null() {
                return Err(Error::NullPrimaryKey);
            }
            if contains_value(&self.columns[k].data, &row[k]) {
                return Err(Error::DuplicatePrimaryKey);
            }
        }
        Ok(())
    }

    /// Appends `row`, one cell to each column.
    fn append_row(&mut self, row: Vec<Value>)
        requires
            old(self).wf(),
            row@.len() == old(self).columns@.len(),
            key_error(*old(self), datums(row@)) is None,
        ensures
            final(self).wf(),
            final(self).schema() == old(self).schema(),
            final(self).cells() == with_row(old(self).cells(), datums(row@)),
    {
        let ghost old_table = *self;
        let n = self.columns.len();
        let mut i: usize = 0;
        while i < n
            invariant
                n == self.columns@.len() == old_table.columns@.len() == row@.len(),
                i <= n,
                self.name == old_table.name,
                self.primary_key == old_table.primary_key,
                self.referenced_as_foreign_key == old_table.referenced_as_foreign_key,
                forall|j: int| 0 <= j < n ==> (#[trigger] self.columns@[j]).schema()
                    == old_table.columns@[j].schema(),
                forall|j: int| 0 <= j < i ==> (#[trigger] self.columns@[j]).values()
                    == old_table.columns@[j].values().push(row@[j]@),
                forall|j: int| i <= j < n ==> #[trigger] self.columns@[j] == old_table.columns@[j],
            decreases n - i,
        {
            let v = row[i].duplicate();
            let ghost before = self.columns@[i as int];
            self.columns[i].data.push(v);
            assert(self.columns@[i as int].values() =~= before.values().push(v@));
            i = i + 1;
        }
        assert(self.schema().columns =~= old_table.schema().columns);
        assert(self.cells() =~= with_row(old_table.cells(), datums(row@)));
        assert forall|j: int| 0 <= j < n implies #[trigger] self.columns@[j].data@.len()
            == self.row_count() by {
            assert(self.columns@[j].values().len() == self.columns@[j].data@.len());
            assert(self.columns@[0].values().len() == self.columns@[0].data@.len());
            assert(old_table.columns@[j].values().len() == old_table.columns@[j].data@.len());
        }
        if let Some(k) = self.primary_key {
            proof {
                assert(datums(row@)[k as int] == row@[k as int]@);
                lemma_push_keeps_keys(old_table.columns@[k as int].values(), row@[k as int]@);
                assert(self.columns@[k as int].values() == old_table.columns@[k as int].values().push(row@[k as int]@));
                assert(self.columns@[k as int].schema() == old_table.columns@[k as int].schema());
            }
        }
        assert forall|j: int| 0 <= j < n implies #[trigger] self.columns@[j].is_primary_key
            == old_table.columns@[j].is_primary_key by {
            assert(self.columns@[j].schema() == old_table.columns@[j].schema());
        }
    }

    /// Inserts a row given as one literal per column. The word `null` in any
    /// case gives a null cell. Fails, leaving the table as it was, with
    /// `MismatchedColumnCount`, `ParseError` at the first literal that does
    /// not read, `NullPrimaryKey` or `DuplicatePrimaryKey`.
    pub fn insert(&mut self, data: Vec<String>) -> (r: Result<(), Error>)
        requires
            old(self).wf(),
        ensures
            final(self).wf(),
            final(self).schema() == old(self).schema(),
            match insert_outcome(*old(self), data@) {
                Ok(row) => r is Ok && final(self).cells() == with_row(old(self).cells(), row),
                Err(e) => r is Err && r->Err_0@ == e && *final(self) == *old(self),
            },
    {
        if data.len() != self.columns.len() {
            return Err(Error::MismatchedColumnCount);
        }
        let mut row: Vec<Value> = Vec::new();
        let mut i: usize = 0;
        assert(datums(row@) =~= Seq::<Datum>::empty());
        while i < data.len()
            invariant
                *self == *old(self),
                old(self).wf(),
                data@.len() == self.columns@.len(),
                i <= data@.len(),
                parse_row(self.columns@, string_views(data@), i as nat) == Ok::<Seq<Datum>, ErrorView>(
                    datums(row@),
                ),
            decreases data@.len() - i,
        {
            match parse_cell(self.columns[i].data_type, data[i].as_str()) {
                Some(v) => {
                    let ghost before = row@;
                    row.push(v);
                    assert(datums(row@) =~= datums(before).push(v@));
                },
                None => {
                    proof {
                        lemma_parse_row_err(self.columns@, string_views(data@), (i + 1) as nat, data@.len());
                    }
                    return Err(Error::ParseError(i, data[i].clone()));
                },
            }
            i = i + 1;
        }
        proof {
            lemma_parse_row_len(self.columns@, string_views(data@), data@.len());
        }
        match self.check_key(&row) {
            Err(e) => return Err(e),
            Ok(()) => {},
        }
        self.append_row(row);
        Ok(())
    }
}

/// Whether `s` is among `v`, by characters.
pub fn contains_name(v: &Vec<String>, s: &String) -> (r: bool)
    ensures
        r == string_views(v@).contains(s@),
{
    let mut i: usize = 0;
    while i < v.len()
        invariant
            i <= v@.len(),
            forall|j: int| 0 <= j < i ==> v@[j]@ != s@,
        decreases v@.len() - i,
    {
        if v[i] == *s {
            assert(string_views(v@)[i as int] == s@);
            return true;
        }
        i = i + 1;
    }
    assert(!string_views(v@).contains(s@)) by {
        if string_views(v@).contains(s@) {
            let j = choose|j: int| 0 <= j < string_views(v@).len() && string_views(v@)[j] == s@;
            assert(v@[j]@ == s@);
        }
    }
    false
}

/// Some name in `names` is not a column of `cols`.
pub open spec fn any_missing(cols: Seq<Column>, names: Seq<String>) -> bool {
    exists|i: int| 0 <= i < names.len() && !has_column(cols, #[trigger] names[i]@)
}

/// `s` is one of `names` and names no column of `cols`.
pub open spec fn is_missing(cols: Seq<Column>, names: Seq<String>, s: Seq<char>) -> bool {
    &&& string_views(names).contains(s)
    &&& !has_column(cols, s)
}

pub open spec fn no_repeats(s: Seq<Seq<char>>) -> bool {
    forall|i: int, j: int| 0 <= i < s.len() && 0 <= j < s.len() && i != j ==> s[i] != s[j]
}

pub proof fn lemma_contains_push<A>(s: Seq<A>, x: A, y: A)
    ensures
        s.push(x).contains(y) <==> (s.contains(y) || x == y),
{
    if s.contains(y) {
        let k = choose|k: int| 0 <= k < s.len() && s[k] == y;
        assert(s.push(x)[k] == y);
    }
    if x == y {
        assert(s.push(x)[s.len() as int] == y);
    }
    if s.push(x).contains(y) {
        let k = choose|k: int| 0 <= k < s.push(x).len() && s.push(x)[k] == y;
        if k < s.len() {
            assert(s[k] == y);
        }
    }
}

proof fn lemma_push_no_repeats(s: Seq<Seq<char>>, x: Seq<char>)
    requires
        no_repeats(s),
        !s.contains(x),
    ensures
        no_repeats(s.push(x)),
{
    let t = s.push(x);
    assert forall|i: int, j: int| 0 <= i < t.len() && 0 <= j < t.len() && i != j implies t[i]
        != t[j] by {
        if i == s.len() {
            assert(t[j] == s[j]);
        } else if j == s.len() {
            assert(t[i] == s[i]);
        }
    }
}

/// The names among `names` that no column of `cols` has, each once, in the
/// order of their first occurrence.
pub fn missing_columns(cols: &Vec<Column>, names: &Vec<String>) -> (r: Vec<String>)
    ensures
        forall|s: Seq<char>| #[trigger] string_views(r@).contains(s) <==> is_missing(cols@, names@, s),
        no_repeats(string_views(r@)),
        any_missing(cols@, names@) <==> r@.len() > 0,
{
    let mut missing: Vec<String> = Vec::new();
    let mut i: usize = 0;
    assert(string_views(missing@) =~= Seq::<Seq<char>>::empty());
    assert(string_views(names@.take(0)) =~= Seq::<Seq<char>>::empty());
    while i < names.len()
        invariant
            i <= names@.len(),
            forall|s: Seq<char>| #[trigger] string_views(missing@).contains(s) <==> (string_views(
                names@.take(i as int),
            ).contains(s) && !has_column(cols@, s)),
            no_repeats(string_views(missing@)),
        decreases names@.len() - i,
    {
        let ghost before = string_views(missing@);
        let ghost ni = names@[i as int]@;
        assert(string_views(names@.take(i + 1)) =~= string_views(names@.take(i as int)).push(ni));
        let absent = find_column(cols, names[i].as_str()).is_none();
        let seen = contains_name(&missing, &names[i]);
        if absent && !seen {
            missing.push(names[i].clone());
            assert(string_views(missing@) =~= before.push(ni));
            proof {
                lemma_push_no_repeats(before, ni);
            }
        }
        proof {
            assert(absent == !has_column(cols@, ni));
            assert(seen == before.contains(ni));
            assert forall|s: Seq<char>| #[trigger] string_views(missing@).contains(s) <==> (string_views(
                names@.take(i + 1),
            ).contains(s) && !has_column(cols@, s)) by {
                lemma_contains_push(string_views(names@.take(i as int)), ni, s);
                if absent && !seen {
                    lemma_contains_push(before, ni, s);
                }
            }
        }
        i = i + 1;
    }
    assert(names@.take(i as int) =~= names@);
    assert(string_views(names@.take(i as int)) == string_views(names@));
    proof {
        if any_missing(cols@, names@) {
            let k = choose|k: int| 0 <= k < names@.len() && !has_column(cols@, #[trigger] names@[k]@);
            assert(string_views(names@)[k] == names@[k]@);
            assert(string_views(names@).contains(names@[k]@));
            assert(string_views(missing@).contains(names@[k]@));
        }
        if missing@.len() > 0 {
            let s = string_views(missing@)[0];
            assert(string_views(missing@).contains(s));
            assert(string_views(names@).contains(s));
            let k = choose|k: int| 0 <= k < string_views(names@).len() && string_views(names@)[k] == s;
            assert(names@[k]@ == s);
        }
    }
    assert forall|s: Seq<char>| string_views(missing@).contains(s) <==> is_missing(cols@, names@, s) by {
    }
    missing
}

/// The row that the first `n` pairs of `names` and `data` describe: it
/// starts all null, and each pair writes its literal, read as its column's
/// type, into its column; the first that does not read gives `ParseError`
/// at that column's position.
pub open spec fn sparse_row(cols: Seq<Column>, names: Seq<String>, data: Seq<String>, n: nat) -> Result<
    Seq<Datum>,
    ErrorView,
>
    decreases n,
{
    if n == 0 {
        Ok(Seq::new(cols.len(), |i: int| Datum::Null))
    } else {
        match sparse_row(cols, names, data, (n - 1) as nat) {
            Err(e) => Err(e),
            Ok(p) => match column_index(cols, names[n - 1]@) {
                None => Ok(p),
                Some(k) => match cell_literal(cols[k].data_type, data[n - 1]@) {
                    None => Err(ErrorView::ParseError(k as usize, data[n - 1]@)),
                    Some(v) => Ok(p.update(k, v)),
                },
            },
        }
    }
}

/// The row that `insert_with_columns(names, data)` appends to `t`, or the
/// error it reports, once every name is known to be a column.
pub open spec fn sparse_insert_outcome(t: Table, names: Seq<String>, data: Seq<String>) -> Result<
    Seq<Datum>,
    ErrorView,
> {
    if data.len() != names.len() {
        Err(ErrorView::MismatchedColumnCount)
    } else if t.primary_key is Some && !string_views(names).contains(
        t.columns@[t.primary_key->Some_0 as int].name@,
    ) {
        Err(ErrorView::PrimaryKeyNotProvided(t.columns@[t.primary_key->Some_0 as int].name@))
    } else {
        match sparse_row(t.columns@, names, data, names.len()) {
            Err(e) => Err(e),
            Ok(row) => match key_error(t, row) {
                Some(e) => Err(e),
                None => Ok(row),
            },
        }
    }
}

proof fn lemma_sparse_row_err(cols: Seq<Column>, names: Seq<String>, data: Seq<String>, n: nat, m: nat)
    requires
        n <= m,
        sparse_row(cols, names, data, n) is Err,
    ensures
        sparse_row(cols, names, data, m) == sparse_row(cols, names, data, n),
    decreases m - n,
{
    if m > n {
        lemma_sparse_row_err(cols, names, data, n, (m - 1) as nat);
    }
}

impl Table {
    /// Inserts a row that gives literals for the named columns only; the
    /// other columns get null. Fails, leaving the table as it was, with
    /// `NonExistingColumns` listing every unknown name, `MismatchedColumnCount`,
    /// `PrimaryKeyNotProvided`, `ParseError`, `NullPrimaryKey` or
    /// `DuplicatePrimaryKey`, checked in that order.
    pub fn insert_with_columns(&mut self, column_names: Vec<String>, data: Vec<String>) -> (r:
        Result<(), Error>)
        requires
            old(self).wf(),
        ensures
            final(self).wf(),
            final(self).schema() == old(self).schema(),
            if any_missing(old(self).columns@, column_names@) {
                &&& r is Err
                &&& r->Err_0 is NonExistingColumns
                &&& forall|s: Seq<char>|
                    #[trigger] string_views(r->Err_0->NonExistingColumns_0@).contains(s) <==> is_missing(
                        old(self).columns@,
                        column_names@,
                        s,
                    )
                &&& no_repeats(string_views(r->Err_0->NonExistingColumns_0@))
                &&& *final(self) == *old(self)
            } else {
                match sparse_insert_outcome(*old(self), column_names@, data@) {
                    Ok(row) => r is Ok && final(self).cells() == with_row(old(self).cells(), row),
                    Err(e) => r is Err && r->Err_0@ == e && *final(self) == *old(self),
                }
            },
    {
        let missing = missing_columns(&self.columns, &column_names);
        if missing.len() > 0 {
            return Err(Error::NonExistingColumns(missing));
        }
        if data.len() != column_names.len() {
            return Err(Error::MismatchedColumnCount);
        }
        if let Some(k) = self.primary_key {
            if !contains_name(&column_names, &self.columns[k].name) {
                return Err(Error::PrimaryKeyNotProvided(self.columns[k].name.clone()));
            }
        }
        let n = self.columns.len();
        let mut row: Vec<Value> = Vec::new();
        let mut j: usize = 0;
        while j < n
            invariant
                j <= n == self.columns@.len(),
                row@.len() == j,
                forall|q: int| 0 <= q < j ==> row@[q]@ == Datum::Null,
            decreases n - j,
        {
            row.push(Value::Null);
            j = j + 1;
        }
        assert(datums(row@) =~= Seq::new(n as nat, |q: int| Datum::Null));
        let mut i: usize = 0;
        while i < column_names.len()
            invariant
                *self == *old(self),
                old(self).wf(),
                !any_missing(self.columns@, column_names@),
                data@.len() == column_names@.len(),
                self.primary_key is Some ==> string_views(column_names@).contains(
                    self.columns@[self.primary_key->Some_0 as int].name@,
                ),
                n == self.columns@.len(),
                row@.len() == n,
                i <= column_names@.len(),
                sparse_row(self.columns@, column_names@, data@, i as nat) == Ok::<
                    Seq<Datum>,
                    ErrorView,
                >(datums(row@)),
            decreases column_names@.len() - i,
        {
            match find_column(&self.columns, column_names[i].as_str()) {
                None => {
                    assert(!has_column(self.columns@, column_names@[i as int]@));
                },
                Some(k) => match parse_cell(self.columns[k].data_type, data[i].as_str()) {
                    Some(v) => {
                        let ghost before = row@;
                        row.set(k, v);
                        assert(datums(row@) =~= datums(before).update(k as int, v@));
                    },
                    None => {
                        proof {
                            lemma_sparse_row_err(
                                self.columns@,
                                column_names@,
                                data@,
                                (i + 1) as nat,
                                column_names@.len(),
                            );
                        }
                        return Err(Error::ParseError(k, data[i].clone()));
                    },
                },
            }
            i = i + 1;
        }
        match self.check_key(&row) {
            Err(e) => return Err(e),
            Ok(()) => {},
        }
        self.append_row(row);
        Ok(())
    }
}

} // verus!
