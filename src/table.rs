//! One relation: a fixed list of columns of equal length, an optional
//! primary key, and the list of foreign keys elsewhere that point at it.
use crate::column::{column_schemas, Column, ColumnSchema, Datum};
use crate::condition::{eval, evaluate_nested_conditions, NestedCondition};
use crate::table_errors::{Error, ErrorView};
use vstd::prelude::*;

verus! {

/// A table: its name, its columns, the position of its primary-key column,
/// and the `(table, column)` pairs whose foreign key targets it.
#[derive(Clone, Debug)]
pub struct Table {
    pub name: String,
    pub columns: Vec<Column>,
    pub primary_key: Option<usize>,
    pub referenced_as_foreign_key: Vec<(String, String)>,
}

/// Everything of a table that its row operations leave as it is.
pub struct TableSchema {
    pub name: Seq<char>,
    pub columns: Seq<ColumnSchema>,
    pub primary_key: Option<usize>,
    pub referenced_as_foreign_key: Seq<(Seq<char>, Seq<char>)>,
}

/// No value occurs twice.
pub open spec fn distinct(s: Seq<Datum>) -> bool {
    forall|i: int, j: int| 0 <= i < s.len() && 0 <= j < s.len() && i != j ==> s[i] != s[j]
}

/// What a primary-key column may hold: no null, no value twice.
pub open spec fn valid_keys(s: Seq<Datum>) -> bool {
    &&& distinct(s)
    &&& forall|i: int| 0 <= i < s.len() ==> s[i] != Datum::Null
}

pub open spec fn pair_views(v: Seq<(String, String)>) -> Seq<(Seq<char>, Seq<char>)> {
    v.map_values(|p: (String, String)| (p.0@, p.1@))
}

/// Columns of distinct names and of one length, whose primary-key columns
/// hold valid keys.
pub open spec fn columns_consistent(cols: Seq<Column>) -> bool {
    &&& forall|i: int, j: int|
        0 <= i < cols.len() && 0 <= j < cols.len() && i != j ==> #[trigger] cols[i].name@
            != #[trigger] cols[j].name@
    &&& forall|i: int| 0 <= i < cols.len() ==> #[trigger] cols[i].data@.len() == cols[0].data@.len()
    &&& forall|i: int| 0 <= i < cols.len() && #[trigger] cols[i].is_primary_key ==> valid_keys(cols[i].values())
}

/// Whether more than one column is marked as the primary key.
pub open spec fn several_keys(cols: Seq<Column>) -> bool {
    exists|i: int, j: int|
        0 <= i < j < cols.len() && cols[i].is_primary_key && cols[j].is_primary_key
}

/// In a well-formed table the primary-key column holds no null and no
/// value twice; every operation that changes a table keeps it well formed.
pub proof fn lemma_primary_key_valid(t: Table)
    requires
        t.wf(),
    ensures
        valid_keys(t.keys()),
        forall|i: int| 0 <= i < t.keys().len() ==> t.keys()[i] != Datum::Null,
        forall|i: int, j: int| 0 <= i < j < t.keys().len() ==> t.keys()[i] != t.keys()[j],
{
}

/// Tables of one schema have columns of the same schemas.
pub proof fn lemma_same_schema(a: Table, b: Table)
    requires
        a.schema() == b.schema(),
    ensures
        a.columns@.len() == b.columns@.len(),
        a.name@ == b.name@,
        a.primary_key == b.primary_key,
        forall|i: int| 0 <= i < a.columns@.len() ==> #[trigger] a.columns@[i].schema() == b.columns@[i].schema(),
        forall|i: int| 0 <= i < a.columns@.len() ==> #[trigger] a.columns@[i].name@ == b.columns@[i].name@,
{
    assert(a.schema().columns.len() == a.columns@.len());
    assert(b.schema().columns.len() == b.columns@.len());
    assert forall|i: int| 0 <= i < a.columns@.len() implies #[trigger] a.columns@[i].schema()
        == b.columns@[i].schema() by {
        assert(a.schema().columns[i] == a.columns@[i].schema());
        assert(b.schema().columns[i] == b.columns@[i].schema());
    }
    assert forall|i: int| 0 <= i < a.columns@.len() implies #[trigger] a.columns@[i].name@
        == b.columns@[i].name@ by {
        assert(a.columns@[i].schema() == b.columns@[i].schema());
    }
}

impl Table {
    pub open spec fn row_count(&self) -> nat {
        if self.columns@.len() == 0 {
            0
        } else {
            self.columns@[0].data@.len()
        }
    }

    /// The cells, column by column.
    pub open spec fn cells(&self) -> Seq<Seq<Datum>> {
        self.columns@.map_values(|c: Column| c.values())
    }

    pub open spec fn schema(&self) -> TableSchema {
        TableSchema {
            name: self.name@,
            columns: column_schemas(self.columns@),
            primary_key: self.primary_key,
            referenced_as_foreign_key: pair_views(self.referenced_as_foreign_key@),
        }
    }

    /// The table's invariant: columns of equal length; the primary key, if
    /// any, is the one column so marked and holds valid keys.
    pub open spec fn wf(&self) -> bool {
        &&& forall|i: int|
            0 <= i < self.columns@.len() ==> #[trigger] self.columns@[i].data@.len()
                == self.row_count()
        &&& match self.primary_key {
            Some(k) => {
                &&& k < self.columns@.len()
                &&& self.columns@[k as int].is_primary_key
                &&& forall|j: int|
                    0 <= j < self.columns@.len() && j != k ==> !#[trigger] self.columns@[j].is_primary_key
                &&& valid_keys(self.columns@[k as int].values())
            },
            None => forall|j: int|
                0 <= j < self.columns@.len() ==> !#[trigger] self.columns@[j].is_primary_key,
        }
    }

    /// The values of the primary-key column, if there is one.
    pub open spec fn keys(&self) -> Seq<Datum> {
        match self.primary_key {
            Some(k) => self.columns@[k as int].values(),
            None => Seq::empty(),
        }
    }

    /// Creates a table. Fails with `MultiplePrimaryKeys` when more than one
    /// column is marked as the primary key.
    pub fn new(table_name: &str, columns: Vec<Column>) -> (r: Result<Table, Error>)
        requires
            columns_consistent(columns@),
        ensures
            match r {
                Ok(t) => {
                    &&& !several_keys(columns@)
                    &&& t.wf()
                    &&& t.name@ == table_name@
                    &&& t.columns == columns
                    &&& t.referenced_as_foreign_key@.len() == 0
                    &&& match t.primary_key {
                        Some(k) => columns@[k as int].is_primary_key,
                        None => forall|j: int| 0 <= j < columns@.len() ==> !columns@[j].is_primary_key,
                    }
                },
                Err(e) => several_keys(columns@) && e@ == ErrorView::MultiplePrimaryKeys,
            },
    {
        let mut primary_key: Option<usize> = None;
        let mut i: usize = 0;
        while i < columns.len()
            invariant
                i <= columns@.len(),
                match primary_key {
                    Some(k) => k < i && columns@[k as int].is_primary_key && forall|j: int|
                        0 <= j < i && j != k ==> !columns@[j].is_primary_key,
                    None => forall|j: int| 0 <= j < i ==> !columns@[j].is_primary_key,
                },
            decreases columns@.len() - i,
        {
            if columns[i].is_primary_key {
                if let Some(k) = primary_key {
                    assert(k < i);
                    return Err(Error::MultiplePrimaryKeys);
                }
                primary_key = Some(i);
            }
            i = i + 1;
        }
        Ok(Table {
            name: table_name.to_string(),
            columns,
            primary_key,
            referenced_as_foreign_key: Vec::new(),
        })
    }

    /// A copy of this table: same schema, same cells.
    pub fn copy(&self) -> (r: Table)
        requires
            self.wf(),
        ensures
            r.wf(),
            r.schema() == self.schema(),
            r.cells() == self.cells(),
    {
        let mut columns: Vec<Column> = Vec::new();
        let mut i: usize = 0;
        while i < self.columns.len()
            invariant
                i <= self.columns@.len(),
                columns@.len() == i,
                forall|j: int| 0 <= j < i ==> (#[trigger] columns@[j]).schema() == self.columns@[j].schema()
                    && columns@[j].values() == self.columns@[j].values(),
            decreases self.columns@.len() - i,
        {
            columns.push(self.columns[i].duplicate());
            i = i + 1;
        }
        let refs = self.copy_references();
        let r = Table {
            name: self.name.clone(),
            columns,
            primary_key: self.primary_key,
            referenced_as_foreign_key: refs,
        };
        assert(r.schema().columns =~= self.schema().columns);
        assert(r.cells() =~= self.cells());
        assert forall|k: int| 0 <= k < r.columns@.len() implies #[trigger] r.columns@[k].data@.len()
            == r.row_count() by {
            assert(r.columns@[k].values().len() == self.columns@[k].values().len());
            assert(r.columns@[0].values().len() == self.columns@[0].values().len());
        }
        r
    }

    /// A copy of the list of `(table, column)` pairs that refer to this
    /// table.
    pub fn copy_references(&self) -> (r: Vec<(String, String)>)
        ensures
            pair_views(r@) == pair_views(self.referenced_as_foreign_key@),
    {
        let mut refs: Vec<(String, String)> = Vec::new();
        let mut j: usize = 0;
        while j < self.referenced_as_foreign_key.len()
            invariant
                j <= self.referenced_as_foreign_key@.len(),
                pair_views(refs@) =~= pair_views(self.referenced_as_foreign_key@).take(j as int),
            decreases self.referenced_as_foreign_key@.len() - j,
        {
            let p = &self.referenced_as_foreign_key[j];
            refs.push((p.0.clone(), p.1.clone()));
            assert(pair_views(self.referenced_as_foreign_key@).take(j + 1) =~= pair_views(
                self.referenced_as_foreign_key@,
            ).take(j as int).push((p.0@, p.1@)));
            j = j + 1;
        }
        assert(pair_views(self.referenced_as_foreign_key@).take(j as int) =~= pair_views(
            self.referenced_as_foreign_key@,
        ));
        refs
    }

    pub fn name(&self) -> (r: &String)
        ensures
            r == &self.name,
    {
        &self.name
    }

    pub fn columns(&self) -> (r: &Vec<Column>)
        ensures
            r == &self.columns,
    {
        &self.columns
    }

    /// The primary-key column, if the table has one.
    pub fn primary_key_column(&self) -> (r: Option<&Column>)
        requires
            self.wf(),
        ensures
            match self.primary_key {
                Some(k) => r == Some(&self.columns@[k as int]),
                None => r is None,
            },
    {
        match self.primary_key {
            Some(k) => Some(&self.columns[k]),
            None => None,
        }
    }

    /// The `(table, column)` pairs whose foreign key targets this table.
    pub fn referenced_as_foreign_key(&self) -> (r: &Vec<(String, String)>)
        ensures
            r == &self.referenced_as_foreign_key,
    {
        &self.referenced_as_foreign_key
    }
}

/// The value of `c` on each of the first `n` rows of `cols`, or the error
/// of the first row whose evaluation fails.
pub open spec fn eval_rows(c: NestedCondition, cols: Seq<Column>, n: nat) -> Result<
    Seq<bool>,
    ErrorView,
>
    decreases n,
{
    if n == 0 {
        Ok(Seq::empty())
    } else {
        match eval_rows(c, cols, (n - 1) as nat) {
            Err(e) => Err(e),
            Ok(m) => match eval(c, cols, n - 1) {
                Err(e) => Err(e),
                Ok(b) => Ok(m.push(b)),
            },
        }
    }
}

proof fn lemma_eval_rows_err(c: NestedCondition, cols: Seq<Column>, n: nat, m: nat)
    requires
        n <= m,
        eval_rows(c, cols, n) is Err,
    ensures
        eval_rows(c, cols, m) == eval_rows(c, cols, n),
    decreases m - n,
{
    if m > n {
        lemma_eval_rows_err(c, cols, n, (m - 1) as nat);
    }
}

impl Table {
    /// Which rows satisfy `condition`.
    pub fn matching_rows(&self, condition: &NestedCondition) -> (r: Result<Vec<bool>, Error>)
        requires
            self.wf(),
        ensures
            match r {
                Ok(m) => eval_rows(*condition, self.columns@, self.row_count()) == Ok::<
                    Seq<bool>,
                    ErrorView,
                >(m@) && m@.len() == self.row_count(),
                Err(e) => eval_rows(*condition, self.columns@, self.row_count()) == Err::<
                    Seq<bool>,
                    ErrorView,
                >(e@),
            },
    {
        let n: usize = if self.columns.len() == 0 {
            0
        } else {
            self.columns[0].data.len()
        };
        let mut mask: Vec<bool> = Vec::new();
        let mut i: usize = 0;
        assert(mask@ =~= Seq::<bool>::empty());
        while i < n
            invariant
                i <= n == self.row_count(),
                eval_rows(*condition, self.columns@, i as nat) == Ok::<Seq<bool>, ErrorView>(
                    mask@,
                ),
                mask@.len() == i,
            decreases n - i,
        {
            match evaluate_nested_conditions(condition, &self.columns, i) {
                Ok(b) => {
                    mask.push(b);
                },
                Err(e) => {
                    proof {
                        lemma_eval_rows_err(*condition, self.columns@, (i + 1) as nat, n as nat);
                    }
                    return Err(e);
                },
            }
            i = i + 1;
        }
        Ok(mask)
    }
}

} // verus!
