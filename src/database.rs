//! A registry of named tables that keeps foreign keys consistent across
//! them and carries key updates and deletes over to the tables that refer
//! to a key.
use crate::column::Column;
use crate::db_errors::{DbErrorView, Error};
use crate::table::{columns_consistent, pair_views, several_keys, Table, TableSchema};
use vstd::prelude::*;

verus! {

/// A database: a name and its tables, no two of the same name.
pub struct Database {
    pub name: String,
    pub tables: Vec<Table>,
}

pub open spec fn schemas(tables: Seq<Table>) -> Seq<TableSchema> {
    tables.map_values(|t: Table| t.schema())
}

/// Position of the table named `name`.
pub open spec fn schema_index(s: Seq<TableSchema>, name: Seq<char>) -> Option<int> {
    if exists|i: int| 0 <= i < s.len() && #[trigger] s[i].name == name {
        Some(choose|i: int| 0 <= i < s.len() && #[trigger] s[i].name == name)
    } else {
        None
    }
}

pub open spec fn table_index(tables: Seq<Table>, name: Seq<char>) -> Option<int> {
    schema_index(schemas(tables), name)
}

/// Some table after position `j` is named `name`.
pub open spec fn named_after(s: Seq<TableSchema>, j: int, name: Seq<char>) -> bool {
    exists|i: int| j < i < s.len() && #[trigger] s[i].name == name
}

/// A table before position `i` is named by `fk.0`, and its primary-key
/// column by `fk.1`.
pub open spec fn key_target(s: Seq<TableSchema>, i: int, fk: (Seq<char>, Seq<char>)) -> bool {
    exists|k: int|
        0 <= k < i && #[trigger] s[k].name == fk.0 && s[k].primary_key is Some
            && s[k].primary_key->Some_0 < s[k].columns.len()
            && s[k].columns[s[k].primary_key->Some_0 as int].name == fk.1
}

pub open spec fn distinct_names(s: Seq<TableSchema>) -> bool {
    forall|i: int, j: int| 0 <= i < s.len() && 0 <= j < s.len() && i != j ==> s[i].name != s[j].name
}

/// The registry's shape: names are unique; every foreign key targets the
/// primary key of a table created earlier; every back-reference names a
/// table created later.
pub open spec fn registry_ok(s: Seq<TableSchema>) -> bool {
    &&& distinct_names(s)
    &&& forall|i: int, c: int|
        0 <= i < s.len() && 0 <= c < s[i].columns.len() && (#[trigger] s[i].columns[c]).foreign_key is Some
            ==> key_target(s, i, s[i].columns[c].foreign_key->Some_0)
    &&& forall|j: int, b: int|
        0 <= j < s.len() && 0 <= b < s[j].referenced_as_foreign_key.len() ==> named_after(
            s,
            j,
            (#[trigger] s[j].referenced_as_foreign_key[b]).0,
        )
}

pub proof fn lemma_schema_index(s: Seq<TableSchema>, name: Seq<char>, i: int)
    requires
        distinct_names(s),
        0 <= i < s.len(),
        s[i].name == name,
    ensures
        schema_index(s, name) == Some(i),
{
    let j = choose|j: int| 0 <= j < s.len() && #[trigger] s[j].name == name;
    assert(s[j].name == name);
}

impl Database {
    /// The invariant: a well-formed registry of well-formed tables.
    pub open spec fn wf(&self) -> bool {
        &&& registry_ok(schemas(self.tables@))
        &&& forall|i: int| 0 <= i < self.tables@.len() ==> (#[trigger] self.tables@[i]).wf()
    }

    /// An empty database.
    pub fn new(name: String) -> (r: Database)
        ensures
            r.wf(),
            r.name == name,
            r.tables@.len() == 0,
    {
        let r = Database { name, tables: Vec::new() };
        assert(schemas(r.tables@) =~= Seq::<TableSchema>::empty());
        r
    }

    /// Finds the table named `name`.
    pub fn find_table(&self, name: &str) -> (r: Option<usize>)
        requires
            distinct_names(schemas(self.tables@)),
        ensures
            match r {
                Some(i) => table_index(self.tables@, name@) == Some(i as int) && i < self.tables@.len(),
                None => table_index(self.tables@, name@) is None,
            },
    {
        let target = name.to_string();
        let mut i: usize = 0;
        while i < self.tables.len()
            invariant
                distinct_names(schemas(self.tables@)),
                i <= self.tables@.len(),
                target@ == name@,
                forall|j: int| 0 <= j < i ==> self.tables@[j].name@ != name@,
            decreases self.tables@.len() - i,
        {
            if self.tables[i].name == target {
                proof {
                    assert(schemas(self.tables@)[i as int].name == name@);
                    lemma_schema_index(schemas(self.tables@), name@, i as int);
                }
                return Some(i);
            }
            i = i + 1;
        }
        assert(!exists|j: int| 0 <= j < schemas(self.tables@).len() && #[trigger] schemas(self.tables@)[j].name == name@) by {
            if exists|j: int| 0 <= j < schemas(self.tables@).len() && #[trigger] schemas(self.tables@)[j].name == name@ {
                let j = choose|j: int| 0 <= j < schemas(self.tables@).len() && #[trigger] schemas(self.tables@)[j].name == name@;
                assert(self.tables@[j].name@ == name@);
            }
        }
        None
    }

    /// The table named `table_name`, if there is one.
    pub fn get_table(&self, table_name: &str) -> (r: Option<&Table>)
        requires
            self.wf(),
        ensures
            match table_index(self.tables@, table_name@) {
                Some(i) => r == Some(&self.tables@[i]),
                None => r is None,
            },
    {
        match self.find_table(table_name) {
            Some(i) => Some(&self.tables[i]),
            None => None,
        }
    }

    /// The table named `table_name`, to change in place.
    pub fn get_table_mut(&mut self, table_name: &str) -> (r: Option<&mut Table>)
        requires
            old(self).wf(),
        ensures
            match table_index(old(self).tables@, table_name@) {
                Some(i) => r is Some && *r->Some_0 == old(self).tables@[i] && final(self).name
                    == old(self).name && final(self).tables@ == old(self).tables@.update(
                    i,
                    *final(r->Some_0),
                ),
                None => r is None && *final(self) == *old(self),
            },
    {
        match self.find_table(table_name) {
            Some(i) => Some(&mut self.tables[i]),
            None => None,
        }
    }
}

/// What column `i` of a new table says against the registry `s`: a second
/// primary key, or a foreign key whose table, column or key status is
/// wrong.
pub open spec fn column_schema_error(s: Seq<TableSchema>, cols: Seq<Column>, i: int) -> Option<
    DbErrorView,
> {
    if cols[i].is_primary_key && exists|j: int| 0 <= j < i && #[trigger] cols[j].is_primary_key {
        Some(DbErrorView::MultiplePrimaryKeys)
    } else {
        match cols[i].foreign_key {
            None => None,
            Some(fk) => match schema_index(s, fk.reference_table@) {
                None => Some(DbErrorView::ReferencedTableNotFound(fk.reference_table@)),
                Some(k) => if !exists|p: int|
                    0 <= p < s[k].columns.len() && #[trigger] s[k].columns[p].name
                        == fk.reference_column@ {
                    Some(
                        DbErrorView::ReferencedColumnNotFound(
                            fk.reference_table@,
                            fk.reference_column@,
                        ),
                    )
                } else if !exists|p: int|
                    0 <= p < s[k].columns.len() && #[trigger] s[k].columns[p].name
                        == fk.reference_column@ && s[k].columns[p].is_primary_key {
                    Some(
                        DbErrorView::ReferencedColumnNotPrimaryKey(
                            fk.reference_table@,
                            fk.reference_column@,
                        ),
                    )
                } else {
                    None
                },
            },
        }
    }
}

/// The first error among the first `n` columns of a new table.
pub open spec fn schema_error(s: Seq<TableSchema>, cols: Seq<Column>, n: nat) -> Option<DbErrorView>
    decreases n,
{
    if n == 0 {
        None
    } else {
        match schema_error(s, cols, (n - 1) as nat) {
            Some(e) => Some(e),
            None => column_schema_error(s, cols, n - 1),
        }
    }
}

/// The back-references that the first `n` columns of a new table `name`
/// add to the table named `target`, in column order.
pub open spec fn added_references(name: Seq<char>, cols: Seq<Column>, target: Seq<char>, n: nat) -> Seq<
    (Seq<char>, Seq<char>),
>
    decreases n,
{
    if n == 0 {
        Seq::empty()
    } else {
        let p = added_references(name, cols, target, (n - 1) as nat);
        match cols[n - 1].foreign_key {
            Some(fk) => if fk.reference_table@ == target {
                p.push((name, cols[n - 1].name@))
            } else {
                p
            },
            None => p,
        }
    }
}

proof fn lemma_added_names(name: Seq<char>, cols: Seq<Column>, target: Seq<char>, n: nat)
    ensures
        forall|b: int|
            0 <= b < added_references(name, cols, target, n).len() ==> (#[trigger] added_references(
                name,
                cols,
                target,
                n,
            )[b]).0 == name,
    decreases n,
{
    if n > 0 {
        lemma_added_names(name, cols, target, (n - 1) as nat);
        let p = added_references(name, cols, target, (n - 1) as nat);
        let q = added_references(name, cols, target, n);
        assert forall|b: int| 0 <= b < q.len() implies (#[trigger] q[b]).0 == name by {
            if b < p.len() {
                assert(q[b] == p[b]);
            }
        }
    }
}

proof fn lemma_schema_error_none(s: Seq<TableSchema>, cols: Seq<Column>, n: nat, i: int)
    requires
        schema_error(s, cols, n) is None,
        0 <= i < n,
    ensures
        column_schema_error(s, cols, i) is None,
    decreases n,
{
    if i < n - 1 {
        lemma_schema_error_none(s, cols, (n - 1) as nat, i);
    }
}

proof fn lemma_schema_error_some(s: Seq<TableSchema>, cols: Seq<Column>, n: nat, m: nat)
    requires
        n <= m,
        schema_error(s, cols, n) is Some,
    ensures
        schema_error(s, cols, m) == schema_error(s, cols, n),
    decreases m - n,
{
    if m > n {
        lemma_schema_error_some(s, cols, n, (m - 1) as nat);
    }
}

impl Database {
    /// Checks one column of a new table against the registry.
    fn check_column_schema(&self, columns: &Vec<Column>, i: usize, seen_key: bool) -> (r: Result<
        (),
        Error,
    >)
        requires
            self.wf(),
            i < columns@.len(),
            seen_key == exists|j: int| 0 <= j < i && #[trigger] columns@[j].is_primary_key,
        ensures
            match column_schema_error(schemas(self.tables@), columns@, i as int) {
                Some(e) => r is Err && r->Err_0@ == e,
                None => r is Ok,
            },
    {
        let column = &columns[i];
        if column.is_primary_key && seen_key {
            return Err(Error::MultiplePrimaryKeys);
        }
        match &column.foreign_key {
            None => Ok(()),
            Some(fk) => {
                let k = match self.find_table(fk.reference_table.as_str()) {
                    Some(k) => k,
                    None => return Err(Error::ReferencedTableNotFound(fk.reference_table.clone())),
                };
                let ghost sk = schemas(self.tables@)[k as int];
                let cols = &self.tables[k].columns;
                assert(sk.columns == cols@.map_values(|c: Column| c.schema()));
                let target = fk.reference_column.clone();
                let mut found = false;
                let mut found_key = false;
                let mut p: usize = 0;
                while p < cols.len()
                    invariant
                        p <= cols@.len(),
                        sk.columns == cols@.map_values(|c: Column| c.schema()),
                        target@ == fk.reference_column@,
                        found == exists|q: int| 0 <= q < p && #[trigger] sk.columns[q].name == target@,
                        found_key == exists|q: int|
                            0 <= q < p && #[trigger] sk.columns[q].name == target@
                                && sk.columns[q].is_primary_key,
                    decreases cols@.len() - p,
                {
                    if cols[p].name == target {
                        found = true;
                        assert(sk.columns[p as int].name == target@);
                        if cols[p].is_primary_key {
                            found_key = true;
                        }
                    }
                    p = p + 1;
                }
                if !found {
                    return Err(
                        Error::ReferencedColumnNotFound(
                            fk.reference_table.clone(),
                            fk.reference_column.clone(),
                        ),
                    );
                }
                if !found_key {
                    return Err(
                        Error::ReferencedColumnNotPrimaryKey(
                            fk.reference_table.clone(),
                            fk.reference_column.clone(),
                        ),
                    );
                }
                Ok(())
            },
        }
    }

    proof fn lemma_created(
        &self,
        old_tables: Seq<Table>,
        table: Table,
        name: Seq<char>,
        cols: Seq<Column>,
    )
        requires
            registry_ok(schemas(old_tables)),
            forall|k: int| 0 <= k < old_tables.len() ==> (#[trigger] old_tables[k]).wf(),
            table.wf(),
            table.name@ == name,
            table.columns@ == cols,
            table.referenced_as_foreign_key@.len() == 0,
            table_index(old_tables, name) is None,
            schema_error(schemas(old_tables), cols, cols.len()) is None,
            self.tables@.len() == old_tables.len() + 1,
            self.tables@.last() == table,
            forall|k: int|
                0 <= k < old_tables.len() ==> {
                    &&& (#[trigger] self.tables@[k]).name == old_tables[k].name
                    &&& self.tables@[k].columns == old_tables[k].columns
                    &&& self.tables@[k].primary_key == old_tables[k].primary_key
                    &&& pair_views(self.tables@[k].referenced_as_foreign_key@) == pair_views(
                        old_tables[k].referenced_as_foreign_key@,
                    ) + added_references(name, cols, old_tables[k].name@, cols.len())
                },
        ensures
            self.wf(),
    {
        let s = schemas(old_tables);
        let t = schemas(self.tables@);
        let n = old_tables.len() as int;
        assert forall|k: int| 0 <= k < n implies #[trigger] t[k].name == s[k].name && t[k].columns
            == s[k].columns && t[k].primary_key == s[k].primary_key by {
            assert(self.tables@[k].columns@ == old_tables[k].columns@);
        }
        assert(t[n].name == name);
        // names stay distinct
        assert forall|i: int, j: int| 0 <= i < t.len() && 0 <= j < t.len() && i != j implies t[i].name
            != t[j].name by {
            if i == n {
                assert(!(0 <= j < s.len() && s[j].name == name));
            } else if j == n {
                assert(!(0 <= i < s.len() && s[i].name == name));
            } else {
                assert(s[i].name != s[j].name);
            }
        }
        // foreign keys target primary keys of earlier tables
        assert forall|i: int, c: int|
            0 <= i < t.len() && 0 <= c < t[i].columns.len() && (#[trigger] t[i].columns[c]).foreign_key is Some
                implies key_target(t, i, t[i].columns[c].foreign_key->Some_0) by {
            if i < n {
                assert(t[i].columns[c] == s[i].columns[c]);
                let fk = s[i].columns[c].foreign_key->Some_0;
                assert(key_target(s, i, fk));
                let k = choose|k: int|
                    0 <= k < i && #[trigger] s[k].name == fk.0 && s[k].primary_key is Some
                        && s[k].primary_key->Some_0 < s[k].columns.len()
                        && s[k].columns[s[k].primary_key->Some_0 as int].name == fk.1;
                assert(t[k].name == fk.0);
            } else {
                assert(t[i].columns[c] == cols[c].schema());
                lemma_schema_error_none(s, cols, cols.len(), c);
                let fk = cols[c].foreign_key->Some_0;
                let k = schema_index(s, fk.reference_table@)->Some_0;
                assert(s[k].name == fk.reference_table@);
                let p = choose|p: int|
                    0 <= p < s[k].columns.len() && #[trigger] s[k].columns[p].name
                        == fk.reference_column@ && s[k].columns[p].is_primary_key;
                assert(old_tables[k].wf());
                assert(old_tables[k].columns@[p].is_primary_key);
                assert(old_tables[k].primary_key == Some(p as usize));
                assert(t[k].name == fk.reference_table@);
            }
        }
        // back-references name later tables
        assert forall|j: int, b: int|
            0 <= j < t.len() && 0 <= b < t[j].referenced_as_foreign_key.len() implies named_after(
            t,
            j,
            (#[trigger] t[j].referenced_as_foreign_key[b]).0,
        ) by {
            if j < n {
                let old_refs = s[j].referenced_as_foreign_key;
                if b < old_refs.len() {
                    assert(t[j].referenced_as_foreign_key[b] == old_refs[b]);
                    assert(named_after(s, j, old_refs[b].0));
                    let i = choose|i: int| j < i < s.len() && #[trigger] s[i].name == old_refs[b].0;
                    assert(t[i].name == old_refs[b].0);
                } else {
                    lemma_added_names(name, cols, old_tables[j].name@, cols.len());
                    let added = added_references(name, cols, old_tables[j].name@, cols.len());
                    assert(t[j].referenced_as_foreign_key[b] == added[b - old_refs.len()]);
                    assert(t[n].name == name);
                }
            }
        }
        assert(registry_ok(t));
        assert forall|i: int| 0 <= i < self.tables@.len() implies (#[trigger] self.tables@[i]).wf() by {
            if i < n {
                assert(old_tables[i].wf());
                assert(self.tables@[i].columns@ == old_tables[i].columns@);
            }
        }
    }

    /// Adds a table. Fails, leaving the database as it was, with
    /// `TableAlreadyExists`, or at the first column that is a second primary
    /// key (`MultiplePrimaryKeys`) or a foreign key whose table is absent
    /// (`ReferencedTableNotFound`), whose column is absent
    /// (`ReferencedColumnNotFound`) or not that table's primary key
    /// (`ReferencedColumnNotPrimaryKey`). On success each referenced table
    /// records the new `(table, column)` pairs that point at it.
    pub fn create_table(&mut self, table_name: &str, columns: Vec<Column>) -> (r: Result<(), Error>)
        requires
            old(self).wf(),
            columns_consistent(columns@),
        ensures
            final(self).wf(),
            final(self).name == old(self).name,
            if table_index(old(self).tables@, table_name@) is Some {
                r is Err && r->Err_0@ == DbErrorView::TableAlreadyExists(table_name@) && *final(self)
                    == *old(self)
            } else {
                match schema_error(schemas(old(self).tables@), columns@, columns@.len()) {
                    Some(e) => r is Err && r->Err_0@ == e && *final(self) == *old(self),
                    None => {
                        &&& r is Ok
                        &&& final(self).tables@.len() == old(self).tables@.len() + 1
                        &&& final(self).tables@.last().name@ == table_name@
                        &&& final(self).tables@.last().columns == columns
                        &&& final(self).tables@.last().referenced_as_foreign_key@.len() == 0
                        &&& forall|k: int|
                            0 <= k < old(self).tables@.len() ==> {
                                &&& (#[trigger] final(self).tables@[k]).name == old(self).tables@[k].name
                                &&& final(self).tables@[k].columns == old(self).tables@[k].columns
                                &&& final(self).tables@[k].primary_key == old(self).tables@[k].primary_key
                                &&& pair_views(final(self).tables@[k].referenced_as_foreign_key@) == pair_views(
                                    old(self).tables@[k].referenced_as_foreign_key@,
                                ) + added_references(
                                    table_name@,
                                    columns@,
                                    old(self).tables@[k].name@,
                                    columns@.len(),
                                )
                            }
                    },
                }
            },
    {
        if self.find_table(table_name).is_some() {
            return Err(Error::TableAlreadyExists(table_name.to_string()));
        }
        let ghost s = schemas(self.tables@);
        let mut seen_key = false;
        let mut i: usize = 0;
        while i < columns.len()
            invariant
                self.wf(),
                *self == *old(self),
                table_index(old(self).tables@, table_name@) is None,
                columns_consistent(columns@),
                s == schemas(self.tables@),
                i <= columns@.len(),
                schema_error(s, columns@, i as nat) is None,
                seen_key == exists|j: int| 0 <= j < i && #[trigger] columns@[j].is_primary_key,
            decreases columns@.len() - i,
        {
            match self.check_column_schema(&columns, i, seen_key) {
                Err(e) => {
                    proof {
                        lemma_schema_error_some(s, columns@, (i + 1) as nat, columns@.len());
                    }
                    return Err(e);
                },
                Ok(()) => {},
            }
            if columns[i].is_primary_key {
                seen_key = true;
            }
            i = i + 1;
        }
        proof {
            if several_keys(columns@) {
                let (a, b) = choose|a: int, b: int|
                    0 <= a < b < columns@.len() && columns@[a].is_primary_key && columns@[b].is_primary_key;
                lemma_schema_error_none(s, columns@, columns@.len(), b);
                assert(columns@[a].is_primary_key);
            }
        }
        let table = match Table::new(table_name, columns) {
            Ok(t) => t,
            Err(_) => return Err(Error::MultiplePrimaryKeys),
        };
        let ghost old_tables = self.tables@;
        let ghost cols = table.columns@;
        let mut c: usize = 0;
        while c < table.columns.len()
            invariant
                c <= cols.len(),
                cols == table.columns@,
                table.name@ == table_name@,
                table.wf(),
                table.referenced_as_foreign_key@.len() == 0,
                old_tables == old(self).tables@,
                self.name == old(self).name,
                table_index(old_tables, table_name@) is None,
                forall|k: int| 0 <= k < old_tables.len() ==> (#[trigger] old_tables[k]).wf(),
                s == schemas(old_tables),
                registry_ok(s),
                schema_error(s, cols, cols.len()) is None,
                self.tables@.len() == old_tables.len(),
                forall|k: int|
                    0 <= k < old_tables.len() ==> {
                        &&& (#[trigger] self.tables@[k]).name == old_tables[k].name
                        &&& self.tables@[k].columns == old_tables[k].columns
                        &&& self.tables@[k].primary_key == old_tables[k].primary_key
                        &&& pair_views(self.tables@[k].referenced_as_foreign_key@) == pair_views(
                            old_tables[k].referenced_as_foreign_key@,
                        ) + added_references(table_name@, cols, old_tables[k].name@, c as nat)
                    },
            decreases cols.len() - c,
        {
            proof {
                assert forall|q: int| 0 <= q < s.len() implies #[trigger] schemas(self.tables@)[q].name
                    == s[q].name by {
                    assert(self.tables@[q].name == old_tables[q].name);
                }
                assert(distinct_names(schemas(self.tables@)));
            }
            let column = &table.columns[c];
            if let Some(fk) = &column.foreign_key {
                proof {
                    lemma_schema_error_none(s, cols, cols.len(), c as int);
                }
                let k = match self.find_table(fk.reference_table.as_str()) {
                    Some(k) => k,
                    None => {
                        proof {
                            let q = schema_index(s, fk.reference_table@)->Some_0;
                            assert(s[q].name == fk.reference_table@);
                            assert(schemas(self.tables@)[q].name == fk.reference_table@);
                        }
                        c = c + 1;
                        continue;
                    },
                };
                let ghost before = self.tables@[k as int].referenced_as_foreign_key@;
                let entry = (table.name.clone(), column.name.clone());
                self.tables[k].referenced_as_foreign_key.push(entry);
                proof {
                    assert(schemas(self.tables@)[k as int].name == fk.reference_table@);
                    assert(pair_views(before.push(entry)) =~= pair_views(before).push(
                        (table_name@, cols[c as int].name@),
                    ));
                    assert forall|q: int| 0 <= q < old_tables.len() implies pair_views(
                        (#[trigger] self.tables@[q]).referenced_as_foreign_key@,
                    ) == pair_views(old_tables[q].referenced_as_foreign_key@) + added_references(
                        table_name@,
                        cols,
                        old_tables[q].name@,
                        (c + 1) as nat,
                    ) by {
                        if q != k {
                            assert(old_tables[q].name@ != fk.reference_table@) by {
                                assert(s[q].name != s[k as int].name);
                            }
                        }
                    }
                }
            }
            c = c + 1;
        }
        let ghost new_table = table;
        self.tables.push(table);
        proof {
            self.lemma_created(old_tables, new_table, table_name@, cols);
        }
        Ok(())
    }
}

} // verus!
