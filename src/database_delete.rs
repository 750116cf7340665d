//! Deleting rows through the registry, carried over to the rows that refer
//! to the deleted keys.
use crate::column::{column_index, find_column, Datum, Value};
use crate::condition::NestedCondition;
use crate::database::{lemma_schema_index, named_after, registry_ok, schemas, table_index, Database};
use crate::database_insert::{lemma_replaced_table, replaced_table};
use crate::database_update::{lemma_referred_same, referred_column, lemma_no_key_lost, lemma_same_names_index, referring_column};
use crate::db_errors::{DbErrorView, Error};
use crate::table::{eval_rows, pair_views, Table};
use crate::table_insert::{contains_value, datums};
use crate::table_select::{count, lemma_select_uniform, lemma_select_includes, lemma_select_keys, select, select_rows};
use vstd::prelude::*;

verus! {

/// Every value of `a` is a value of `b`.
pub open spec fn values_within(a: Seq<Datum>, b: Seq<Datum>) -> bool {
    forall|x: Datum| #[trigger] a.contains(x) ==> b.contains(x)
}

/// No value of `keys` occurs in `s`.
pub open spec fn avoids(s: Seq<Datum>, keys: Seq<Datum>) -> bool {
    forall|x: Datum| #[trigger] keys.contains(x) ==> !s.contains(x)
}

/// From `a` to `b` the tables kept their schemas and their columns lost
/// values at most.
pub open spec fn only_removed(a: Seq<Table>, b: Seq<Table>) -> bool {
    &&& b.len() == a.len()
    &&& schemas(b) == schemas(a)
    &&& forall|j: int, c: int|
        0 <= j < a.len() && 0 <= c < a[j].columns@.len() ==> values_within(
            (#[trigger] b[j].columns@[c]).values(),
            a[j].columns@[c].values(),
        )
    &&& forall|j: int|
        0 <= j < a.len() && (#[trigger] b[j].cells()) != a[j].cells() ==> exists|c: int|
            referred_column(a, j, c)
}

/// Every column that one of `refs` names in `before` holds none of `keys`
/// in `after`.
pub open spec fn references_cleared(
    before: Seq<Table>,
    after: Seq<Table>,
    refs: Seq<(Seq<char>, Seq<char>)>,
    keys: Seq<Datum>,
) -> bool {
    forall|b: int|
        0 <= b < refs.len() && (#[trigger] referring_column(before, refs[b])) is Some ==> {
            let (q, c) = referring_column(before, refs[b])->Some_0;
            avoids(after[q].columns@[c].values(), keys)
        }
}

pub proof fn lemma_only_removed_trans(a: Seq<Table>, b: Seq<Table>, c: Seq<Table>)
    requires
        only_removed(a, b),
        only_removed(b, c),
    ensures
        only_removed(a, c),
{
    assert forall|j: int, q: int| 0 <= j < a.len() && 0 <= q < a[j].columns@.len() implies values_within(
        (#[trigger] c[j].columns@[q]).values(),
        a[j].columns@[q].values(),
    ) by {
        assert(schemas(b)[j] == schemas(a)[j]);
        crate::table::lemma_same_schema(a[j], b[j]);
        assert(values_within(b[j].columns@[q].values(), a[j].columns@[q].values()));
        assert(values_within(c[j].columns@[q].values(), b[j].columns@[q].values()));
    }
    assert forall|j: int| 0 <= j < a.len() && (#[trigger] c[j].cells()) != a[j].cells() implies exists|q: int|
        referred_column(a, j, q) by {
        if b[j].cells() == a[j].cells() {
            let q = choose|q: int| referred_column(b, j, q);
            lemma_referred_same(a, b, j, q);
        }
    }
}

/// A selected cell stands at a position whose mask entry is `keep`.
proof fn lemma_select_origin(s: Seq<Datum>, m: Seq<bool>, keep: bool, x: Datum)
    requires
        select(s, m, keep).contains(x),
    ensures
        exists|i: int| 0 <= i < s.len() && s[i] == x && m[i] == keep,
    decreases s.len(),
{
    let p = select(s.drop_last(), m, keep);
    let q = select(s, m, keep);
    let k = choose|k: int| 0 <= k < q.len() && q[k] == x;
    if k < p.len() {
        assert(p[k] == x);
        assert(p.contains(x));
        lemma_select_origin(s.drop_last(), m, keep, x);
        let i = choose|i: int| 0 <= i < s.drop_last().len() && s.drop_last()[i] == x && m[i] == keep;
        assert(s[i] == x);
    } else {
        assert(s[s.len() - 1] == x);
    }
}

/// A key that table `r` held in `a` and no longer holds in `b`.
pub open spec fn key_removed(a: Seq<Table>, b: Seq<Table>, r: int, x: Datum) -> bool {
    a[r].keys().contains(x) && !b[r].keys().contains(x)
}

/// The column that `rf` names in `a` does not hold `x` in `b`.
pub open spec fn reference_avoids(a: Seq<Table>, b: Seq<Table>, rf: (Seq<char>, Seq<char>), x: Datum) -> bool {
    match referring_column(a, rf) {
        None => true,
        Some((q, c)) => !b[q].columns@[c].values().contains(x),
    }
}

/// From `a` to `b`, no column that refers to a table at or after position
/// `from` holds a key that the table lost: no reference was left dangling.
pub open spec fn no_dangling_created(a: Seq<Table>, b: Seq<Table>, from: int) -> bool {
    forall|r: int, i: int, x: Datum|
        from <= r < a.len() && 0 <= i < schemas(a)[r].referenced_as_foreign_key.len() && key_removed(
            a,
            b,
            r,
            x,
        ) ==> #[trigger] reference_avoids(a, b, schemas(a)[r].referenced_as_foreign_key[i], x)
}

/// Tables of the same schemas resolve a reference to the same column.
pub proof fn lemma_referring_same(a: Seq<Table>, b: Seq<Table>, rf: (Seq<char>, Seq<char>))
    requires
        schemas(a) == schemas(b),
    ensures
        referring_column(a, rf) == referring_column(b, rf),
{
    if let Some(q) = table_index(a, rf.0) {
        assert(a.len() == schemas(a).len() && b.len() == schemas(b).len());
        assert(schemas(a)[q] == schemas(b)[q]);
        crate::table::lemma_same_schema(a[q], b[q]);
        lemma_same_names_index(a[q].columns@, b[q].columns@, rf.1);
    }
}

proof fn lemma_no_dangling_trans(a: Seq<Table>, b: Seq<Table>, c: Seq<Table>, from: int)
    requires
        only_removed(a, b),
        only_removed(b, c),
        no_dangling_created(a, b, from),
        no_dangling_created(b, c, from),
    ensures
        no_dangling_created(a, c, from),
{
    assert forall|r: int, i: int, x: Datum|
        from <= r < a.len() && 0 <= i < schemas(a)[r].referenced_as_foreign_key.len() && key_removed(
            a,
            c,
            r,
            x,
        ) implies #[trigger] reference_avoids(a, c, schemas(a)[r].referenced_as_foreign_key[i], x) by {
        let rf = schemas(a)[r].referenced_as_foreign_key[i];
        lemma_referring_same(a, b, rf);
        if let Some((q, k)) = referring_column(a, rf) {
            assert(schemas(a)[q] == schemas(b)[q]);
            crate::table::lemma_same_schema(a[q], b[q]);
            if key_removed(a, b, r, x) {
                assert(reference_avoids(a, b, rf, x));
                assert(values_within(c[q].columns@[k].values(), b[q].columns@[k].values()));
            } else {
                assert(key_removed(b, c, r, x));
                assert(schemas(b)[r].referenced_as_foreign_key[i] == rf);
                assert(reference_avoids(b, c, rf, x));
            }
        }
    }
}

/// Tables before position `from` that stayed as they were lost no key.
pub proof fn lemma_no_dangling_widen(a: Seq<Table>, b: Seq<Table>, from: int, to: int)
    requires
        0 <= from <= to,
        a.len() == b.len(),
        forall|j: int| 0 <= j < to ==> b[j] == a[j],
        no_dangling_created(a, b, to),
    ensures
        no_dangling_created(a, b, from),
{
    assert forall|r: int, i: int, x: Datum|
        from <= r < a.len() && 0 <= i < schemas(a)[r].referenced_as_foreign_key.len() && key_removed(
            a,
            b,
            r,
            x,
        ) implies #[trigger] reference_avoids(a, b, schemas(a)[r].referenced_as_foreign_key[i], x) by {
        if r < to {
            assert(b[r] == a[r]);
        }
    }
}

/// Deleting the rows that `m` selects from table `ti`, then clearing the
/// references to their keys, leaves no reference dangling.
proof fn lemma_local_delete(
    start: Seq<Table>,
    after: Seq<Table>,
    fin: Seq<Table>,
    ti: int,
    m: Seq<bool>,
    deleted: Seq<Datum>,
)
    requires
        replaced_table(start, after, ti),
        after[ti].keys() == select(start[ti].keys(), m, false),
        deleted == select(start[ti].keys(), m, true),
        fin.len() == after.len(),
        schemas(fin) == schemas(after),
        forall|j: int| 0 <= j <= ti ==> fin[j] == after[j],
        references_cleared(after, fin, schemas(after)[ti].referenced_as_foreign_key, deleted),
        no_dangling_created(after, fin, ti + 1),
    ensures
        no_dangling_created(start, fin, ti),
{
    assert(schemas(after) =~= schemas(start));
    assert forall|r: int, i: int, x: Datum|
        ti <= r < start.len() && 0 <= i < schemas(start)[r].referenced_as_foreign_key.len()
            && key_removed(start, fin, r, x) implies #[trigger] reference_avoids(
        start,
        fin,
        schemas(start)[r].referenced_as_foreign_key[i],
        x,
    ) by {
        let rf = schemas(start)[r].referenced_as_foreign_key[i];
        lemma_referring_same(start, after, rf);
        if r == ti {
            let keys = start[ti].keys();
            let w = choose|w: int| 0 <= w < keys.len() && keys[w] == x;
            if !m[w] {
                lemma_select_includes(keys, m, false, w);
            }
            lemma_select_includes(keys, m, true, w);
            assert(deleted.contains(x));
            assert(referring_column(after, schemas(after)[ti].referenced_as_foreign_key[i]) is Some
                ==> {
                let (q, c) = referring_column(after, schemas(after)[ti].referenced_as_foreign_key[i])->Some_0;
                avoids(fin[q].columns@[c].values(), deleted)
            });
        } else {
            assert(after[r] == start[r]);
            assert(key_removed(after, fin, r, x));
            assert(schemas(after)[r].referenced_as_foreign_key[i] == rf);
            assert(reference_avoids(after, fin, rf, x));
        }
    }
}

/// After deleting the rows that `m` selects, a table keeps the keys of the
/// other rows.
proof fn keys_after_delete(before: Table, after: Table, m: Seq<bool>)
    requires
        before.wf(),
        after.schema() == before.schema(),
        after.cells() == select_rows(before.cells(), m, false),
    ensures
        after.keys() == select(before.keys(), m, false),
{
    crate::table::lemma_same_schema(before, after);
    if let Some(p) = before.primary_key {
        assert(after.cells()[p as int] == after.columns@[p as int].values());
        assert(before.cells()[p as int] == before.columns@[p as int].values());
    } else {
        assert(select(Seq::<Datum>::empty(), m, false) =~= Seq::<Datum>::empty());
    }
}

/// Deleting with a mask that selects no row keeps every cell and deletes
/// no key.
proof fn lemma_delete_nothing(before: Table, after: Table, m: Seq<bool>)
    requires
        before.wf(),
        m.len() == before.row_count(),
        forall|i: int| 0 <= i < m.len() ==> !m[i],
        after.cells() == select_rows(before.cells(), m, false),
    ensures
        after.cells() == before.cells(),
        select(before.keys(), m, true).len() == 0,
{
    assert forall|j: int| 0 <= j < before.cells().len() implies #[trigger] select(before.cells()[j], m, false)
        == before.cells()[j] by {
        assert(before.cells()[j] == before.columns@[j].values());
        assert(before.columns@[j].data@.len() == before.row_count());
        lemma_select_uniform(before.cells()[j], m, true);
    }
    assert(after.cells() =~= before.cells());
    if let Some(p) = before.primary_key {
        assert(before.columns@[p as int].data@.len() == before.row_count());
    }
    lemma_select_uniform(before.keys(), m, true);
}

impl Database {
    /// Deletes from table `ti` the rows whose column `column_name` holds one
    /// of `keys`, then carries the deletion of their keys on.
    fn delete_referencing(
        &mut self,
        ti: usize,
        column_name: &String,
        keys: &Vec<Value>,
        Ghost(parent): Ghost<int>,
        Ghost(b): Ghost<int>,
    ) -> (r: Result<(), Error>)
        requires
            old(self).wf(),
            ti < old(self).tables@.len(),
            0 <= parent < old(self).tables@.len(),
            0 <= b < schemas(old(self).tables@)[parent].referenced_as_foreign_key.len(),
            schemas(old(self).tables@)[parent].referenced_as_foreign_key[b].1 == column_name@,
            table_index(
                old(self).tables@,
                schemas(old(self).tables@)[parent].referenced_as_foreign_key[b].0,
            ) == Some(ti as int),
        ensures
            final(self).wf(),
            final(self).name == old(self).name,
            only_removed(old(self).tables@, final(self).tables@),
            forall|j: int| 0 <= j < ti ==> final(self).tables@[j] == old(self).tables@[j],
            r is Ok,
            match column_index(old(self).tables@[ti as int].columns@, column_name@) {
                Some(c) => avoids(final(self).tables@[ti as int].columns@[c].values(), datums(keys@)),
                None => true,
            },
            no_dangling_created(old(self).tables@, final(self).tables@, ti as int),
            keys@.len() == 0 ==> forall|j: int|
                0 <= j < old(self).tables@.len() ==> #[trigger] final(self).tables@[j].cells() == old(
                    self,
                ).tables@[j].cells(),
        decreases old(self).tables@.len() - ti, 1nat,
    {
        let ghost start = self.tables@;
        assert(start[ti as int].wf());
        let c = match find_column(&self.tables[ti].columns, column_name.as_str()) {
            Some(c) => c,
            None => {
                // a back-reference to a column that is not there has nothing to delete
                proof {
                    lemma_no_key_lost(start, start, ti as int);
                }
                return Ok(());
            },
        };
        let rows = self.tables[ti].columns[c].data.len();
        let mut mask: Vec<bool> = Vec::new();
        let mut i: usize = 0;
        while i < rows
            invariant
                self.tables@ == start,
                ti < start.len(),
                c < start[ti as int].columns@.len(),
                rows == start[ti as int].columns@[c as int].data@.len(),
                i <= rows,
                mask@.len() == i,
                forall|j: int| 0 <= j < i ==> mask@[j] == datums(keys@).contains(
                    start[ti as int].columns@[c as int].values()[j],
                ),
            decreases rows - i,
        {
            mask.push(contains_value(keys, &self.tables[ti].columns[c].data[i]));
            i = i + 1;
        }
        assert(start[ti as int].columns@[c as int].data@.len() == start[ti as int].row_count());
        let deleted = self.tables[ti].selected_keys(&mask);
        self.tables[ti].delete_rows(&mask);
        let ghost after = self.tables@;
        proof {
            lemma_replaced_table(start, after, ti as int);
            assert forall|j: int| 0 <= j < after.len() implies (#[trigger] after[j]).wf() by {
                if j != ti {
                    assert(after[j] == start[j]);
                }
            }
            let vals = start[ti as int].columns@[c as int].values();
            crate::table::lemma_same_schema(start[ti as int], after[ti as int]);
            assert(after[ti as int].cells()[c as int] == after[ti as int].columns@[c as int].values());
            assert(after[ti as int].columns@[c as int].values() == select(vals, mask@, false));
            assert forall|x: Datum| #[trigger] datums(keys@).contains(x) implies !select(vals, mask@, false).contains(x) by {
                if select(vals, mask@, false).contains(x) {
                    lemma_select_origin(vals, mask@, false, x);
                    let w = choose|w: int| 0 <= w < vals.len() && vals[w] == x && mask@[w] == false;
                    assert(mask@[w] == datums(keys@).contains(vals[w]));
                }
            }
            assert forall|j: int, q: int| 0 <= j < start.len() && 0 <= q < start[j].columns@.len() implies values_within(
                (#[trigger] after[j].columns@[q]).values(),
                start[j].columns@[q].values(),
            ) by {
                if j == ti {
                    assert(after[j].cells()[q] == after[j].columns@[q].values());
                    assert(start[j].cells()[q] == start[j].columns@[q].values());
                    assert(start[j].columns@[q].data@.len() == start[j].row_count());
                    lemma_select_keys(start[j].columns@[q].values(), mask@, false);
                } else {
                    assert(after[j] == start[j]);
                }
            }
            assert forall|j: int| 0 <= j < start.len() && (#[trigger] after[j].cells()) != start[j].cells() implies exists|q: int|
                referred_column(start, j, q) by {
                if j == ti {
                    let rf = schemas(start)[parent].referenced_as_foreign_key[b];
                    assert(referring_column(start, rf) == Some((ti as int, c as int)));
                    assert(referred_column(start, ti as int, c as int));
                } else {
                    assert(after[j] == start[j]);
                }
            }
        }
        proof {
            keys_after_delete(start[ti as int], after[ti as int], mask@);
            if keys@.len() == 0 {
                assert forall|i: int| 0 <= i < mask@.len() implies !mask@[i] by {
                    assert(datums(keys@).len() == 0);
                }
                lemma_delete_nothing(start[ti as int], after[ti as int], mask@);
                assert(datums(deleted@).len() == 0);
            }
        }
        let res = self.delete_from_references(ti, &deleted);
        proof {
            lemma_only_removed_trans(start, after, self.tables@);
            if res is Ok {
                lemma_local_delete(start, after, self.tables@, ti as int, mask@, datums(deleted@));
            }
            if keys@.len() == 0 {
                assert forall|j: int| 0 <= j < start.len() implies #[trigger] self.tables@[j].cells()
                    == start[j].cells() by {
                    assert(self.tables@[j].cells() == after[j].cells());
                    if j != ti {
                        assert(after[j] == start[j]);
                    }
                }
            }
        }
        res
    }

    /// Deletes, in every column that refers to table `ti`, the rows that
    /// hold one of `keys`, and carries those deletions on.
    fn delete_from_references(&mut self, ti: usize, keys: &Vec<Value>) -> (r: Result<(), Error>)
        requires
            old(self).wf(),
            ti < old(self).tables@.len(),
        ensures
            final(self).wf(),
            final(self).name == old(self).name,
            only_removed(old(self).tables@, final(self).tables@),
            forall|j: int| 0 <= j <= ti ==> final(self).tables@[j] == old(self).tables@[j],
            r is Ok,
            references_cleared(
                old(self).tables@,
                final(self).tables@,
                schemas(old(self).tables@)[ti as int].referenced_as_foreign_key,
                datums(keys@),
            ),
            no_dangling_created(old(self).tables@, final(self).tables@, ti + 1),
            keys@.len() == 0 ==> forall|j: int|
                0 <= j < old(self).tables@.len() ==> #[trigger] final(self).tables@[j].cells() == old(
                    self,
                ).tables@[j].cells(),
        decreases old(self).tables@.len() - ti, 0nat,
    {
        let ghost start = self.tables@;
        let refs = self.tables[ti].copy_references();
        let ghost rv = schemas(start)[ti as int].referenced_as_foreign_key;
        let ghost ks = datums(keys@);
        assert(rv == pair_views(refs@));
        assert(no_dangling_created(start, start, ti + 1));
        let mut b: usize = 0;
        while b < refs.len()
            invariant
                self.wf(),
                self.name == old(self).name,
                start == old(self).tables@,
                ti < self.tables@.len(),
                self.tables@.len() == start.len(),
                registry_ok(schemas(start)),
                rv == schemas(start)[ti as int].referenced_as_foreign_key,
                rv == pair_views(refs@),
                ks == datums(keys@),
                b <= refs@.len(),
                only_removed(start, self.tables@),
                forall|j: int| 0 <= j <= ti ==> self.tables@[j] == start[j],
                references_cleared(start, self.tables@, rv.take(b as int), ks),
                no_dangling_created(start, self.tables@, ti + 1),
                keys@.len() == 0 ==> forall|j: int|
                    0 <= j < start.len() ==> #[trigger] self.tables@[j].cells() == start[j].cells(),
            decreases refs@.len() - b,
        {
            assert(schemas(self.tables@) == schemas(start));
            let k = match self.find_table(refs[b].0.as_str()) {
                Some(k) => k,
                None => {
                    // a back-reference to a table that is not there has nothing to delete
                    proof {
                        assert(rv[b as int] == (refs@[b as int].0@, refs@[b as int].1@));
                        assert(table_index(start, rv[b as int].0) is None);
                        let rb = rv.take(b + 1);
                        assert forall|x: int|
                            0 <= x < rb.len() && (#[trigger] referring_column(start, rb[x])) is Some implies {
                                let (q, c) = referring_column(start, rb[x])->Some_0;
                                avoids(self.tables@[q].columns@[c].values(), ks)
                            } by {
                            assert(rb[x] == rv.take(b as int)[x]);
                        }
                    }
                    b = b + 1;
                    continue;
                },
            };
            proof {
                let s = schemas(start);
                assert(rv[b as int] == (refs@[b as int].0@, refs@[b as int].1@));
                assert(named_after(s, ti as int, refs@[b as int].0@));
                let q = choose|q: int| ti < q < s.len() && #[trigger] s[q].name == refs@[b as int].0@;
                assert(schemas(self.tables@)[q].name == refs@[b as int].0@);
                lemma_schema_index(schemas(self.tables@), refs@[b as int].0@, q);
            }
            let ghost mid = self.tables@;
            proof {
                assert(schemas(mid)[ti as int].referenced_as_foreign_key[b as int] == rv[b as int]);
                assert(rv[b as int] == (refs@[b as int].0@, refs@[b as int].1@));
            }
            let res = self.delete_referencing(k, &refs[b].1, keys, Ghost(ti as int), Ghost(b as int));
            proof {
                lemma_only_removed_trans(start, mid, self.tables@);
                assert(table_index(start, rv[b as int].0) == Some(k as int)) by {
                    assert(schemas(mid) == schemas(start));
                }
                assert forall|j: int| 0 <= j <= ti implies self.tables@[j] == start[j] by {
                    assert(self.tables@[j] == mid[j]);
                }
            }
            match res {
                Err(e) => return Err(e),
                Ok(()) => {},
            }
            proof {
                lemma_no_dangling_widen(mid, self.tables@, ti + 1, k as int);
                lemma_no_dangling_trans(start, mid, self.tables@, ti + 1);
                let now = self.tables@;
                let rb = rv.take(b + 1);
                assert forall|x: int|
                    0 <= x < rb.len() && (#[trigger] referring_column(start, rb[x])) is Some implies {
                        let (q, c) = referring_column(start, rb[x])->Some_0;
                        avoids(now[q].columns@[c].values(), ks)
                    } by {
                    let (q, c) = referring_column(start, rb[x])->Some_0;
                    assert(schemas(mid)[q] == schemas(start)[q]);
                    crate::table::lemma_same_schema(start[q], mid[q]);
                    assert(schemas(now)[q] == schemas(mid)[q]);
                    crate::table::lemma_same_schema(mid[q], now[q]);
                    if x < b {
                        assert(rb[x] == rv.take(b as int)[x]);
                        assert(avoids(mid[q].columns@[c].values(), ks));
                        assert(values_within(now[q].columns@[c].values(), mid[q].columns@[c].values()));
                    } else {
                        assert(rb[x] == rv[b as int]);
                        assert(q == k);
                        assert(column_index(mid[q].columns@, refs@[b as int].1@) == Some(c)) by {
                            lemma_same_names_index(start[q].columns@, mid[q].columns@, refs@[b as int].1@);
                        }
                    }
                }
            }
            b = b + 1;
        }
        assert(rv.take(refs@.len() as int) =~= rv);
        Ok(())
    }

    /// Deletes the rows of the named table that satisfy a condition. Fails,
    /// leaving every table as it was, with `TableNotFound` or the
    /// condition's error. Then, in every column that refers to the table's
    /// primary key, the rows that hold a deleted key are deleted in turn,
    /// and so on down the chain of keys; this part always succeeds, and only
    /// tables that a back-reference leads to lose rows. When no row
    /// matches, no table changes.
    pub fn delete_with_nested_conditions_in_table(
        &mut self,
        table_name: &str,
        nested_condition: NestedCondition,
    ) -> (r: Result<(), Error>)
        requires
            old(self).wf(),
        ensures
            final(self).wf(),
            final(self).name == old(self).name,
            match table_index(old(self).tables@, table_name@) {
                None => r is Err && r->Err_0@ == DbErrorView::TableNotFound(table_name@)
                    && *final(self) == *old(self),
                Some(i) => {
                    let t = old(self).tables@[i];
                    match eval_rows(nested_condition, t.columns@, t.row_count()) {
                        Err(e) => r is Err && r->Err_0@ == DbErrorView::TableError(e) && *final(self)
                            == *old(self),
                        Ok(m) => {
                            &&& final(self).tables@[i].schema() == t.schema()
                            &&& final(self).tables@[i].cells() == select_rows(t.cells(), m, false)
                            &&& forall|j: int| 0 <= j < i ==> final(self).tables@[j] == old(self).tables@[j]
                            &&& only_removed(
                                old(self).tables@.update(i, final(self).tables@[i]),
                                final(self).tables@,
                            )
                            &&& r is Ok
                            &&& references_cleared(
                                old(self).tables@,
                                final(self).tables@,
                                t.schema().referenced_as_foreign_key,
                                select(t.keys(), m, true),
                            )
                            &&& no_dangling_created(
                                old(self).tables@,
                                final(self).tables@,
                                i,
                            )
                            &&& count(m, true) == 0 ==> forall|j: int|
                                0 <= j < old(self).tables@.len() ==> #[trigger] final(self).tables@[j].cells()
                                    == old(self).tables@[j].cells()
                        },
                    }
                },
            },
    {
        let ti = match self.find_table(table_name) {
            Some(i) => i,
            None => return Err(Error::TableNotFound(table_name.to_string())),
        };
        let ghost start = self.tables@;
        let ghost t = start[ti as int];
        assert(t.wf());
        let mask = match self.tables[ti].matching_rows(&nested_condition) {
            Ok(m) => m,
            Err(e) => return Err(Error::TableError(e)),
        };
        let deleted = self.tables[ti].selected_keys(&mask);
        self.tables[ti].delete_rows(&mask);
        let ghost after = self.tables@;
        proof {
            lemma_replaced_table(start, after, ti as int);
            assert forall|j: int| 0 <= j < after.len() implies (#[trigger] after[j]).wf() by {
                if j != ti {
                    assert(after[j] == start[j]);
                }
            }
            assert(after =~= start.update(ti as int, after[ti as int]));
        }
        proof {
            keys_after_delete(start[ti as int], after[ti as int], mask@);
            if count(mask@, true) == 0 {
                assert forall|i: int| 0 <= i < mask@.len() implies !mask@[i] by {
                    if mask@[i] {
                        crate::database_update::lemma_count_positive(mask@, i);
                    }
                }
                lemma_delete_nothing(start[ti as int], after[ti as int], mask@);
                assert(datums(deleted@).len() == 0);
            }
        }
        let res = self.delete_from_references(ti, &deleted);
        proof {
            if count(mask@, true) == 0 {
                assert forall|j: int| 0 <= j < start.len() implies #[trigger] self.tables@[j].cells()
                    == start[j].cells() by {
                    assert(self.tables@[j].cells() == after[j].cells());
                    if j != ti {
                        assert(after[j] == start[j]);
                    }
                }
            }
            if res is Ok {
                lemma_local_delete(start, after, self.tables@, ti as int, mask@, datums(deleted@));
            }
            assert(schemas(after)[ti as int].referenced_as_foreign_key == t.schema().referenced_as_foreign_key);
            assert forall|b: int|
                0 <= b < t.schema().referenced_as_foreign_key.len()
                    && (#[trigger] referring_column(start, t.schema().referenced_as_foreign_key[b])) is Some
                implies referring_column(after, t.schema().referenced_as_foreign_key[b])
                == referring_column(start, t.schema().referenced_as_foreign_key[b]) by {
                let rf = t.schema().referenced_as_foreign_key[b];
                let q = table_index(start, rf.0)->Some_0;
                assert(schemas(after) == schemas(start));
                if q != ti {
                    assert(after[q] == start[q]);
                } else {
                    crate::table::lemma_same_schema(start[q], after[q]);
                    lemma_same_names_index(start[q].columns@, after[q].columns@, rf.1);
                }
            }
        }
        res
    }
}

} // verus!
