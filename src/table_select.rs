//! Removing, selecting, projecting and counting rows.
use crate::column::{column_index, find_column, Column, Datum, Value};
use crate::condition::NestedCondition;
use crate::table::{eval_rows, valid_keys, Table};
use crate::table_errors::{string_views, Error, ErrorView};
use crate::table_insert::{any_missing, datums, is_missing, missing_columns, no_repeats};
use vstd::prelude::*;

verus! {

/// The cells of `s` at the positions where `m` equals `keep`, in order.
pub open spec fn select(s: Seq<Datum>, m: Seq<bool>, keep: bool) -> Seq<Datum>
    decreases s.len(),
{
    if s.len() == 0 {
        Seq::empty()
    } else {
        let p = select(s.drop_last(), m, keep);
        if m[s.len() - 1] == keep {
            p.push(s.last())
        } else {
            p
        }
    }
}

/// How many entries of `m` equal `b`.
pub open spec fn count(m: Seq<bool>, b: bool) -> nat
    decreases m.len(),
{
    if m.len() == 0 {
        0
    } else {
        count(m.drop_last(), b) + if m.last() == b {
            1nat
        } else {
            0nat
        }
    }
}

/// How many cells of `s` are not null.
pub open spec fn non_null_count(s: Seq<Datum>) -> nat
    decreases s.len(),
{
    if s.len() == 0 {
        0
    } else {
        non_null_count(s.drop_last()) + if s.last() == Datum::Null {
            0nat
        } else {
            1nat
        }
    }
}

/// Selecting keeps exactly as many cells as the mask has matching entries.
pub proof fn lemma_select_len(s: Seq<Datum>, m: Seq<bool>, keep: bool)
    requires
        s.len() == m.len(),
    ensures
        select(s, m, keep).len() == count(m, keep),
    decreases s.len(),
{
    if s.len() > 0 {
        assert(s.drop_last().len() == m.drop_last().len());
        lemma_select_len(s.drop_last(), m.drop_last(), keep);
        lemma_select_prefix_mask(s.drop_last(), m, keep);
    }
}

/// Only the first `s.len()` entries of the mask matter.
proof fn lemma_select_prefix_mask(s: Seq<Datum>, m: Seq<bool>, keep: bool)
    requires
        s.len() < m.len(),
    ensures
        select(s, m, keep) == select(s, m.drop_last(), keep),
    decreases s.len(),
{
    if s.len() > 0 {
        lemma_select_prefix_mask(s.drop_last(), m, keep);
    }
}

/// A mask that keeps every position keeps the whole sequence, and one that
/// keeps none keeps nothing.
pub proof fn lemma_select_uniform(s: Seq<Datum>, m: Seq<bool>, keep: bool)
    requires
        forall|i: int| 0 <= i < s.len() ==> m[i] != keep,
    ensures
        select(s, m, !keep) == s,
        select(s, m, keep).len() == 0,
    decreases s.len(),
{
    if s.len() > 0 {
        lemma_select_uniform(s.drop_last(), m, keep);
        assert(s.drop_last().push(s.last()) =~= s);
    }
}

/// A cell at a position whose mask entry is `keep` is selected.
pub proof fn lemma_select_includes(s: Seq<Datum>, m: Seq<bool>, keep: bool, i: int)
    requires
        0 <= i < s.len(),
        m[i] == keep,
    ensures
        select(s, m, keep).contains(s[i]),
    decreases s.len(),
{
    let p = select(s.drop_last(), m, keep);
    if i == s.len() - 1 {
        assert(select(s, m, keep)[p.len() as int] == s[i]);
    } else {
        lemma_select_includes(s.drop_last(), m, keep, i);
        let k = choose|k: int| 0 <= k < p.len() && p[k] == s.drop_last()[i];
        assert(select(s, m, keep)[k] == s[i]);
    }
}

/// Every selected cell is a cell of `s`, and selection keeps valid keys.
pub proof fn lemma_select_keys(s: Seq<Datum>, m: Seq<bool>, keep: bool)
    ensures
        forall|x: Datum| #[trigger] select(s, m, keep).contains(x) ==> s.contains(x),
        valid_keys(s) ==> valid_keys(select(s, m, keep)),
    decreases s.len(),
{
    if s.len() > 0 {
        let p = select(s.drop_last(), m, keep);
        lemma_select_keys(s.drop_last(), m, keep);
        assert forall|x: Datum| #[trigger] select(s, m, keep).contains(x) implies s.contains(x) by {
            let q = select(s, m, keep);
            let i = choose|i: int| 0 <= i < q.len() && q[i] == x;
            if i < p.len() {
                assert(p[i] == x);
                assert(p.contains(x));
                let j = choose|j: int| 0 <= j < s.drop_last().len() && s.drop_last()[j] == x;
                assert(s[j] == x);
            } else {
                assert(s[s.len() - 1] == x);
            }
        }
        if valid_keys(s) {
            assert(valid_keys(s.drop_last())) by {
                assert forall|i: int, j: int|
                    0 <= i < s.drop_last().len() && 0 <= j < s.drop_last().len() && i != j implies s.drop_last()[i]
                    != s.drop_last()[j] by {
                    assert(s[i] != s[j]);
                }
                assert forall|i: int| 0 <= i < s.drop_last().len() implies s.drop_last()[i] != Datum::Null by {
                    assert(s[i] != Datum::Null);
                }
            }
            if m[s.len() - 1] == keep {
                let x = s.last();
                if p.contains(x) {
                    let j = choose|j: int| 0 <= j < s.drop_last().len() && s.drop_last()[j] == x;
                    assert(s[j] == s[s.len() - 1]);
                }
                crate::table_insert::lemma_push_keeps_keys(p, x);
            }
        }
    }
}

/// Copies the cells of `col` at the positions where `mask` equals `keep`.
fn select_values(col: &Column, mask: &Vec<bool>, keep: bool) -> (r: Vec<Value>)
    requires
        mask@.len() == col.data@.len(),
    ensures
        datums(r@) == select(col.values(), mask@, keep),
{
    let n = col.data.len();
    let mut out: Vec<Value> = Vec::new();
    let mut i: usize = 0;
    assert(col.values().take(0) =~= Seq::<Datum>::empty());
    assert(datums(out@) =~= Seq::<Datum>::empty());
    while i < n
        invariant
            i <= n == col.data@.len() == mask@.len(),
            datums(out@) == select(col.values().take(i as int), mask@, keep),
        decreases n - i,
    {
        let ghost before = datums(out@);
        assert(col.values().take(i + 1).drop_last() =~= col.values().take(i as int));
        if mask[i] == keep {
            out.push(col.data[i].duplicate());
            assert(datums(out@) =~= before.push(col.values()[i as int]));
        }
        i = i + 1;
    }
    assert(col.values().take(n as int) =~= col.values());
    out
}

/// Cells of each column at the rows where `m` equals `keep`.
pub open spec fn select_rows(cells: Seq<Seq<Datum>>, m: Seq<bool>, keep: bool) -> Seq<Seq<Datum>> {
    Seq::new(cells.len(), |j: int| select(cells[j], m, keep))
}

/// The columns that a projection on `names` yields: all of them when
/// `names` is empty, else the first column of each name, in the order given.
pub open spec fn projected(cols: Seq<Column>, names: Seq<String>) -> Seq<Column> {
    if names.len() == 0 {
        cols
    } else {
        Seq::new(names.len(), |i: int| cols[column_index(cols, names[i]@)->Some_0])
    }
}

/// `r` holds the columns `cols`, with their cells at the rows where `m`
/// equals `keep`.
pub open spec fn selected_columns(r: Seq<Column>, cols: Seq<Column>, m: Seq<bool>, keep: bool) -> bool {
    &&& r.len() == cols.len()
    &&& forall|i: int|
        0 <= i < r.len() ==> (#[trigger] r[i]).schema() == cols[i].schema() && r[i].values()
            == select(cols[i].values(), m, keep)
}

impl Table {
    /// Removes the rows that satisfy `nested_condition`, judging every row
    /// on the table as it was before any removal. On the condition's error
    /// the table is left as it was.
    pub fn delete_with_nested_conditions(&mut self, nested_condition: &NestedCondition) -> (r:
        Result<(), Error>)
        requires
            old(self).wf(),
        ensures
            final(self).wf(),
            final(self).schema() == old(self).schema(),
            match eval_rows(*nested_condition, old(self).columns@, old(self).row_count()) {
                Ok(m) => r is Ok && final(self).cells() == select_rows(old(self).cells(), m, false)
                    && final(self).row_count() == old(self).row_count() - count(m, true),
                Err(e) => r is Err && r->Err_0@ == e && *final(self) == *old(self),
            },
    {
        let mask = match self.matching_rows(nested_condition) {
            Ok(m) => m,
            Err(e) => return Err(e),
        };
        self.delete_rows(&mask);
        Ok(())
    }

    /// The primary-key values of the rows that `mask` selects; none when the
    /// table has no primary key.
    pub fn selected_keys(&self, mask: &Vec<bool>) -> (r: Vec<Value>)
        requires
            self.wf(),
            mask@.len() == self.row_count(),
        ensures
            datums(r@) == select(self.keys(), mask@, true),
    {
        match self.primary_key {
            Some(p) => {
                assert(self.columns@[p as int].data@.len() == self.row_count());
                select_values(&self.columns[p], mask, true)
            },
            None => {
                let d: Vec<Value> = Vec::new();
                assert(datums(d@) =~= select(self.keys(), mask@, true));
                d
            },
        }
    }

    /// Removes the rows that `mask` selects.
    pub fn delete_rows(&mut self, mask: &Vec<bool>)
        requires
            old(self).wf(),
            mask@.len() == old(self).row_count(),
        ensures
            final(self).wf(),
            final(self).schema() == old(self).schema(),
            final(self).cells() == select_rows(old(self).cells(), mask@, false),
            final(self).row_count() == old(self).row_count() - count(mask@, true),
    {
        let ghost old_table = *self;
        let n = self.columns.len();
        let mut i: usize = 0;
        while i < n
            invariant
                n == self.columns@.len() == old_table.columns@.len(),
                old_table.wf(),
                mask@.len() == old_table.row_count(),
                i <= n,
                self.name == old_table.name,
                self.primary_key == old_table.primary_key,
                self.referenced_as_foreign_key == old_table.referenced_as_foreign_key,
                forall|j: int| 0 <= j < n ==> (#[trigger] self.columns@[j]).schema()
                    == old_table.columns@[j].schema(),
                forall|j: int| 0 <= j < i ==> (#[trigger] self.columns@[j]).values() == select(
                    old_table.columns@[j].values(),
                    mask@,
                    false,
                ),
                forall|j: int| i <= j < n ==> #[trigger] self.columns@[j] == old_table.columns@[j],
            decreases n - i,
        {
            let kept = select_values(&self.columns[i], mask, false);
            self.columns[i].data = kept;
            i = i + 1;
        }
        proof {
            let m = mask@;
            lemma_complement_count(m);
            assert(self.schema().columns =~= old_table.schema().columns);
            assert(self.cells() =~= select_rows(old_table.cells(), m, false));
            assert forall|j: int| 0 <= j < n implies #[trigger] self.columns@[j].data@.len()
                == count(m, false) by {
                assert(old_table.columns@[j].data@.len() == old_table.row_count());
                lemma_select_len(old_table.columns@[j].values(), m, false);
                assert(self.columns@[j].values().len() == self.columns@[j].data@.len());
            }
            assert forall|j: int| 0 <= j < n implies #[trigger] self.columns@[j].is_primary_key
                == old_table.columns@[j].is_primary_key by {
                assert(self.columns@[j].schema() == old_table.columns@[j].schema());
            }
            if let Some(k) = self.primary_key {
                lemma_select_keys(old_table.columns@[k as int].values(), m, false);
            }
        }
    }

    /// The rows that satisfy `nested_condition`, as copies of all columns.
    pub fn filter_with_nested_conditions(&self, nested_condition: NestedCondition) -> (r: Result<
        Vec<Column>,
        Error,
    >)
        requires
            self.wf(),
        ensures
            match eval_rows(nested_condition, self.columns@, self.row_count()) {
                Ok(m) => r is Ok && selected_columns(r->Ok_0@, self.columns@, m, true),
                Err(e) => r is Err && r->Err_0@ == e,
            },
    {
        let mask = match self.matching_rows(&nested_condition) {
            Ok(m) => m,
            Err(e) => return Err(e),
        };
        self.select_columns(&mask)
    }

    fn select_columns(&self, mask: &Vec<bool>) -> (r: Result<Vec<Column>, Error>)
        requires
            self.wf(),
            mask@.len() == self.row_count(),
        ensures
            r is Ok && selected_columns(r->Ok_0@, self.columns@, mask@, true),
    {
        let mut out: Vec<Column> = Vec::new();
        let mut i: usize = 0;
        while i < self.columns.len()
            invariant
                self.wf(),
                mask@.len() == self.row_count(),
                i <= self.columns@.len(),
                out@.len() == i,
                forall|j: int| 0 <= j < i ==> (#[trigger] out@[j]).schema() == self.columns@[j].schema()
                    && out@[j].values() == select(self.columns@[j].values(), mask@, true),
            decreases self.columns@.len() - i,
        {
            let c = &self.columns[i];
            let data = select_values(c, mask, true);
            let fk = match &c.foreign_key {
                Some(f) => Some(f.duplicate()),
                None => None,
            };
            out.push(
                Column {
                    name: c.name.clone(),
                    data_type: c.data_type,
                    data,
                    is_primary_key: c.is_primary_key,
                    foreign_key: fk,
                },
            );
            i = i + 1;
        }
        Ok(out)
    }

    /// Copies of the named columns, in the order given; all columns when
    /// `column_names` is empty. Fails with `NonExistingColumns` listing every
    /// unknown name.
    pub fn project(&self, column_names: Vec<String>) -> (r: Result<Vec<Column>, Error>)
        requires
            self.wf(),
        ensures
            if any_missing(self.columns@, column_names@) {
                &&& r is Err
                &&& r->Err_0 is NonExistingColumns
                &&& forall|s: Seq<char>|
                    #[trigger] string_views(r->Err_0->NonExistingColumns_0@).contains(s) <==> is_missing(
                        self.columns@,
                        column_names@,
                        s,
                    )
                &&& no_repeats(string_views(r->Err_0->NonExistingColumns_0@))
            } else {
                &&& r is Ok
                &&& r->Ok_0@.len() == projected(self.columns@, column_names@).len()
                &&& forall|i: int|
                    0 <= i < r->Ok_0@.len() ==> (#[trigger] r->Ok_0@[i]).schema() == projected(
                        self.columns@,
                        column_names@,
                    )[i].schema() && r->Ok_0@[i].values() == projected(
                        self.columns@,
                        column_names@,
                    )[i].values() && r->Ok_0@[i].data@.len() == self.row_count()
            },
    {
        let missing = missing_columns(&self.columns, &column_names);
        if missing.len() > 0 {
            return Err(Error::NonExistingColumns(missing));
        }
        let mut out: Vec<Column> = Vec::new();
        if column_names.len() == 0 {
            let mut i: usize = 0;
            while i < self.columns.len()
                invariant
                    i <= self.columns@.len(),
                    out@.len() == i,
                    self.wf(),
                    forall|j: int| 0 <= j < i ==> (#[trigger] out@[j]).schema()
                        == self.columns@[j].schema() && out@[j].values() == self.columns@[j].values()
                        && out@[j].data@.len() == self.row_count(),
                decreases self.columns@.len() - i,
            {
                let c = self.columns[i].duplicate();
                assert(c.values().len() == c.data@.len());
                assert(self.columns@[i as int].values().len() == self.columns@[i as int].data@.len());
                out.push(c);
                i = i + 1;
            }
        } else {
            let mut i: usize = 0;
            while i < column_names.len()
                invariant
                    !any_missing(self.columns@, column_names@),
                    column_names@.len() > 0,
                    i <= column_names@.len(),
                    out@.len() == i,
                    forall|j: int| 0 <= j < i ==> (#[trigger] out@[j]).schema() == projected(
                        self.columns@,
                        column_names@,
                    )[j].schema() && out@[j].values() == projected(
                        self.columns@,
                        column_names@,
                    )[j].values() && out@[j].data@.len() == self.row_count(),
                    self.wf(),
                decreases column_names@.len() - i,
            {
                match find_column(&self.columns, column_names[i].as_str()) {
                    Some(k) => {
                        let c = self.columns[k].duplicate();
                        assert(c.values().len() == c.data@.len());
                        assert(self.columns@[k as int].values().len() == self.columns@[k as int].data@.len());
                        out.push(c);
                    },
                    None => {
                        // every name was found above, so this cannot happen
                        assert(!crate::column::has_column(self.columns@, column_names@[i as int]@));
                        return Err(Error::NonExistingColumn(column_names[i].clone()));
                    },
                }
                i = i + 1;
            }
        }
        Ok(out)
    }

    /// The named columns (all when `column_names` is empty) of the rows that
    /// satisfy `nested_condition`. The condition is judged first; then
    /// unknown names give `NonExistingColumns`.
    pub fn filter_and_project(&self, column_names: Vec<String>, nested_condition: NestedCondition) -> (r:
        Result<Vec<Column>, Error>)
        requires
            self.wf(),
        ensures
            match eval_rows(nested_condition, self.columns@, self.row_count()) {
                Err(e) => r is Err && r->Err_0@ == e,
                Ok(m) => if any_missing(self.columns@, column_names@) {
                    &&& r is Err
                    &&& r->Err_0 is NonExistingColumns
                    &&& forall|s: Seq<char>|
                        #[trigger] string_views(r->Err_0->NonExistingColumns_0@).contains(s) <==> is_missing(
                            self.columns@,
                            column_names@,
                            s,
                        )
                    &&& no_repeats(string_views(r->Err_0->NonExistingColumns_0@))
                } else {
                    &&& r is Ok
                    &&& r->Ok_0@.len() == projected(self.columns@, column_names@).len()
                    &&& forall|i: int|
                        0 <= i < r->Ok_0@.len() ==> (#[trigger] r->Ok_0@[i]).schema() == projected(
                            self.columns@,
                            column_names@,
                        )[i].schema() && r->Ok_0@[i].values() == select(
                            projected(self.columns@, column_names@)[i].values(),
                            m,
                            true,
                        )
                },
            },
    {
        let mask = match self.matching_rows(&nested_condition) {
            Ok(m) => m,
            Err(e) => return Err(e),
        };
        let projection = match self.project(column_names) {
            Ok(p) => p,
            Err(e) => return Err(e),
        };
        let mut out: Vec<Column> = Vec::new();
        let mut i: usize = 0;
        while i < projection.len()
            invariant
                self.wf(),
                mask@.len() == self.row_count(),
                i <= projection@.len(),
                out@.len() == i,
                forall|j: int| 0 <= j < projection@.len() ==> (#[trigger] projection@[j]).data@.len() == self.row_count(),
                forall|j: int| 0 <= j < i ==> (#[trigger] out@[j]).schema() == projection@[j].schema()
                    && out@[j].values() == select(projection@[j].values(), mask@, true),
            decreases projection@.len() - i,
        {
            let c = &projection[i];
            let data = select_values(c, &mask, true);
            let fk = match &c.foreign_key {
                Some(f) => Some(f.duplicate()),
                None => None,
            };
            out.push(
                Column {
                    name: c.name.clone(),
                    data_type: c.data_type,
                    data,
                    is_primary_key: c.is_primary_key,
                    foreign_key: fk,
                },
            );
            i = i + 1;
        }
        Ok(out)
    }

    /// The number of rows when `column_name` is `None`; else the number of
    /// non-null cells of the named column (`NonExistingColumn` if absent).
    pub fn column_count(&self, column_name: Option<String>) -> (r: Result<usize, Error>)
        requires
            self.wf(),
        ensures
            match column_name {
                None => r == Ok::<usize, Error>(self.row_count() as usize),
                Some(name) => match column_index(self.columns@, name@) {
                    None => r is Err && r->Err_0@ == ErrorView::NonExistingColumn(name@),
                    Some(k) => r is Ok && r->Ok_0 == non_null_count(self.columns@[k].values()),
                },
            },
    {
        match column_name {
            None => {
                if self.columns.len() == 0 {
                    Ok(0)
                } else {
                    Ok(self.columns[0].data.len())
                }
            },
            Some(name) => {
                let k = match find_column(&self.columns, name.as_str()) {
                    Some(k) => k,
                    None => return Err(Error::NonExistingColumn(name)),
                };
                let col = &self.columns[k];
                let mut c: usize = 0;
                let mut i: usize = 0;
                assert(col.values().take(0) =~= Seq::<Datum>::empty());
                while i < col.data.len()
                    invariant
                        i <= col.data@.len(),
                        c == non_null_count(col.values().take(i as int)),
                        c <= i,
                    decreases col.data@.len() - i,
                {
                    assert(col.values().take(i + 1).drop_last() =~= col.values().take(i as int));
                    if !col.data[i].is_null() {
                        c = c + 1;
                    }
                    i = i + 1;
                }
                assert(col.values().take(i as int) =~= col.values());
                Ok(c)
            },
        }
    }
}

/// Matching and non-matching rows together make up all rows.
pub proof fn lemma_complement_count(m: Seq<bool>)
    ensures
        count(m, true) + count(m, false) == m.len(),
    decreases m.len(),
{
    if m.len() > 0 {
        lemma_complement_count(m.drop_last());
    }
}

} // verus!
