//! Updating cells through the registry, with foreign keys checked first and
//! primary-key changes carried over to the columns that refer to them.
use crate::column::{column_index, find_column, parse_typed, typed_literal, Column, Datum, Value};
use crate::condition::NestedCondition;
use crate::database::{lemma_schema_index, named_after, registry_ok, schemas, table_index, Database};
use crate::database_delete::{key_removed, lemma_referring_same, no_dangling_created, reference_avoids};
use crate::database_insert::{foreign_value_error, lemma_replaced_table, replaced_table};
use crate::db_errors::{DbErrorView, Error};
use crate::table::{eval_rows, pair_views, valid_keys, Table};
use crate::table_errors::ErrorView;
use crate::table_insert::{contains_value, datums};
use crate::table_select::count;
use crate::table_update::{conditional_update_outcome, update_column_outcome};
use vstd::prelude::*;

verus! {

/// `s` with every `o` turned into `n`.
pub open spec fn replace(s: Seq<Datum>, o: Datum, n: Datum) -> Seq<Datum> {
    s.map_values(|x: Datum| if x == o { n } else { x })
}

/// From `a` to `b` the tables kept their schemas and each column either
/// stayed as it was or had every `o` turned into `n`.
pub open spec fn only_replaced(a: Seq<Table>, b: Seq<Table>, o: Datum, n: Datum) -> bool {
    &&& b.len() == a.len()
    &&& schemas(b) == schemas(a)
    &&& forall|j: int, c: int|
        0 <= j < a.len() && 0 <= c < a[j].columns@.len() ==> (#[trigger] b[j].columns@[c]).values()
            == a[j].columns@[c].values() || b[j].columns@[c].values() == replace(
            a[j].columns@[c].values(),
            o,
            n,
        )
    &&& forall|j: int, c: int|
        0 <= j < a.len() && 0 <= c < a[j].columns@.len() && (#[trigger] b[j].columns@[c]).values()
            != a[j].columns@[c].values() ==> referred_column(a, j, c)
}

/// Some back-reference of `s` leads to column `c` of table `j`.
pub open spec fn referred_column(s: Seq<Table>, j: int, c: int) -> bool {
    exists|r: int, b: int|
        0 <= r < s.len() && 0 <= b < schemas(s)[r].referenced_as_foreign_key.len()
            && #[trigger] referring_column(s, schemas(s)[r].referenced_as_foreign_key[b]) == Some(
            (j, c),
        )
}

pub proof fn lemma_referred_same(a: Seq<Table>, b: Seq<Table>, j: int, c: int)
    requires
        schemas(a) == schemas(b),
        referred_column(b, j, c),
    ensures
        referred_column(a, j, c),
{
    assert(a.len() == schemas(a).len() && b.len() == schemas(b).len());
    let (r, i) = choose|r: int, i: int|
        0 <= r < b.len() && 0 <= i < schemas(b)[r].referenced_as_foreign_key.len()
            && #[trigger] referring_column(b, schemas(b)[r].referenced_as_foreign_key[i]) == Some((j, c));
    crate::database_delete::lemma_referring_same(a, b, schemas(a)[r].referenced_as_foreign_key[i]);
    assert(referring_column(a, schemas(a)[r].referenced_as_foreign_key[i]) == Some((j, c)));
}

/// Position of the first `true` in `m`, or `m.len()`.
pub open spec fn first_true(m: Seq<bool>) -> int
    decreases m.len(),
{
    if m.len() == 0 {
        0
    } else if m[0] {
        0
    } else {
        1 + first_true(m.drop_first())
    }
}

/// The key change that a conditional update of column `k` of `t` to `v`
/// makes when `m` selects its rows: for the primary-key column with exactly
/// one selected row, its old key and `v`, when they differ.
pub open spec fn key_change(t: Table, k: int, m: Seq<bool>, v: Datum) -> Option<(Datum, Datum)> {
    if t.columns@[k].is_primary_key && count(m, true) == 1 {
        let o = t.columns@[k].values()[first_true(m)];
        if o != v {
            Some((o, v))
        } else {
            None
        }
    } else {
        None
    }
}

pub proof fn lemma_only_replaced_trans(a: Seq<Table>, b: Seq<Table>, c: Seq<Table>, o: Datum, n: Datum)
    requires
        o != n,
        only_replaced(a, b, o, n),
        only_replaced(b, c, o, n),
    ensures
        only_replaced(a, c, o, n),
{
    assert forall|j: int, q: int| 0 <= j < a.len() && 0 <= q < a[j].columns@.len() implies (#[trigger] c[j].columns@[q]).values()
        == a[j].columns@[q].values() || c[j].columns@[q].values() == replace(
        a[j].columns@[q].values(),
        o,
        n,
    ) by {
        assert(schemas(b)[j] == schemas(a)[j]);
        assert(b[j].columns@.len() == a[j].columns@.len()) by {
            assert(schemas(b)[j].columns.len() == b[j].columns@.len());
        }
        let av = a[j].columns@[q].values();
        let bv = b[j].columns@[q].values();
        let cv = c[j].columns@[q].values();
        if bv == replace(av, o, n) && cv == replace(bv, o, n) {
            assert(replace(replace(av, o, n), o, n) =~= replace(av, o, n));
        }
    }
    assert forall|j: int, q: int|
        0 <= j < a.len() && 0 <= q < a[j].columns@.len() && (#[trigger] c[j].columns@[q]).values()
            != a[j].columns@[q].values() implies referred_column(a, j, q) by {
        assert(schemas(b)[j] == schemas(a)[j]);
        assert(b[j].columns@.len() == a[j].columns@.len()) by {
            assert(schemas(b)[j].columns.len() == b[j].columns@.len());
        }
        if b[j].columns@[q].values() == a[j].columns@[q].values() {
            lemma_referred_same(a, b, j, q);
        }
    }
}

proof fn lemma_replace_keys(s: Seq<Datum>, o: Datum, n: Datum)
    requires
        valid_keys(s),
        n != Datum::Null,
        !s.contains(n),
    ensures
        valid_keys(replace(s, o, n)),
{
    let t = replace(s, o, n);
    assert forall|i: int, j: int| 0 <= i < t.len() && 0 <= j < t.len() && i != j implies t[i]
        != t[j] by {
        assert(s[i] != s[j]);
        if s[i] == o {
            assert(s[j] != n);
        }
        if s[j] == o {
            assert(s[i] != n);
        }
    }
}

/// Along replacements of `o` by `n`, the only key a table can lose is `o`.
proof fn lemma_replaced_key(a: Seq<Table>, b: Seq<Table>, r: int, x: Datum, o: Datum, n: Datum)
    requires
        only_replaced(a, b, o, n),
        0 <= r < a.len(),
        a[r].wf(),
        key_removed(a, b, r, x),
    ensures
        x == o,
{
    assert(schemas(a)[r] == schemas(b)[r]);
    crate::table::lemma_same_schema(a[r], b[r]);
    if let Some(p) = a[r].primary_key {
        let av = a[r].columns@[p as int].values();
        let bv = b[r].columns@[p as int].values();
        let w = choose|w: int| 0 <= w < av.len() && av[w] == x;
        if bv == av {
            assert(bv[w] == x);
            assert(bv.contains(x));
        } else {
            assert(bv == replace(av, o, n));
            if x != o {
                assert(bv[w] == x);
                assert(bv.contains(x));
            }
        }
    }
}

/// A column that holds no `o` holds none after `o` is replaced by `n`.
proof fn lemma_replace_avoids(s: Seq<Datum>, o: Datum, n: Datum)
    requires
        o != n,
    ensures
        !replace(s, o, n).contains(o),
{
    if replace(s, o, n).contains(o) {
        let w = choose|w: int| 0 <= w < replace(s, o, n).len() && replace(s, o, n)[w] == o;
        assert(replace(s, o, n)[w] == (if s[w] == o { n } else { s[w] }));
    }
}

proof fn lemma_no_dangling_trans_replaced(
    a: Seq<Table>,
    b: Seq<Table>,
    c: Seq<Table>,
    from: int,
    o: Datum,
    n: Datum,
)
    requires
        o != n,
        0 <= from,
        forall|j: int| 0 <= j < a.len() ==> (#[trigger] a[j]).wf(),
        only_replaced(a, b, o, n),
        only_replaced(b, c, o, n),
        no_dangling_created(a, b, from),
        no_dangling_created(b, c, from),
    ensures
        no_dangling_created(a, c, from),
{
    assert forall|r: int, i: int, x: Datum|
        from <= r < a.len() && 0 <= i < schemas(a)[r].referenced_as_foreign_key.len() && key_removed(
            a,
            c,
            r,
            x,
        ) implies #[trigger] reference_avoids(a, c, schemas(a)[r].referenced_as_foreign_key[i], x) by {
        let rf = schemas(a)[r].referenced_as_foreign_key[i];
        lemma_referring_same(a, b, rf);
        if let Some((q, k)) = referring_column(a, rf) {
            assert(schemas(a)[q] == schemas(b)[q]);
            crate::table::lemma_same_schema(a[q], b[q]);
            if key_removed(a, b, r, x) {
                assert(a[r].wf());
                lemma_replaced_key(a, b, r, x, o, n);
                assert(reference_avoids(a, b, rf, x));
                lemma_replace_avoids(b[q].columns@[k].values(), o, n);
            } else {
                assert(key_removed(b, c, r, x));
                assert(schemas(b)[r].referenced_as_foreign_key[i] == rf);
                assert(reference_avoids(b, c, rf, x));
            }
        }
    }
}

/// Changing keys of table `ti` only from `o` to `n`, then rewriting the
/// references to `o`, leaves no reference dangling.
proof fn lemma_local_replace(start: Seq<Table>, after: Seq<Table>, fin: Seq<Table>, ti: int, o: Datum, n: Datum)
    requires
        o != n,
        replaced_table(start, after, ti),
        forall|x: Datum| #[trigger] key_removed(start, after, ti, x) ==> x == o,
        fin.len() == after.len(),
        schemas(fin) == schemas(after),
        forall|j: int| 0 <= j <= ti ==> fin[j] == after[j],
        references_rewritten(after, fin, schemas(after)[ti].referenced_as_foreign_key, o, n),
        no_dangling_created(after, fin, ti + 1),
    ensures
        no_dangling_created(start, fin, ti),
{
    assert(schemas(after) =~= schemas(start));
    assert forall|r: int, i: int, x: Datum|
        ti <= r < start.len() && 0 <= i < schemas(start)[r].referenced_as_foreign_key.len()
            && key_removed(start, fin, r, x) implies #[trigger] reference_avoids(
        start,
        fin,
        schemas(start)[r].referenced_as_foreign_key[i],
        x,
    ) by {
        let rf = schemas(start)[r].referenced_as_foreign_key[i];
        lemma_referring_same(start, after, rf);
        if r == ti {
            assert(key_removed(start, after, ti, x));
            assert(x == o);
            assert(schemas(after)[ti].referenced_as_foreign_key[i] == rf);
            if let Some((q, c)) = referring_column(after, rf) {
                lemma_replace_avoids(after[q].columns@[c].values(), o, n);
            }
        } else {
            assert(after[r] == start[r]);
            assert(key_removed(after, fin, r, x));
            assert(schemas(after)[r].referenced_as_foreign_key[i] == rf);
            assert(reference_avoids(after, fin, rf, x));
        }
    }
}

/// With no key lost anywhere, no reference is left dangling.
pub proof fn lemma_no_key_lost(a: Seq<Table>, b: Seq<Table>, from: int)
    requires
        0 <= from,
        a.len() == b.len(),
        forall|r: int| 0 <= r < a.len() ==> #[trigger] b[r].keys() == a[r].keys(),
    ensures
        no_dangling_created(a, b, from),
{
    assert forall|r: int, i: int, x: Datum|
        from <= r < a.len() && 0 <= i < schemas(a)[r].referenced_as_foreign_key.len() && key_removed(
            a,
            b,
            r,
            x,
        ) implies #[trigger] reference_avoids(a, b, schemas(a)[r].referenced_as_foreign_key[i], x) by {
        assert(b[r].keys() == a[r].keys());
    }
}

proof fn lemma_first_true_props(m: Seq<bool>, w: int)
    requires
        0 <= w < m.len(),
        m[w],
    ensures
        0 <= first_true(m) <= w,
        m[first_true(m)],
    decreases m.len(),
{
    if !m[0] {
        lemma_first_true_props(m.drop_first(), w - 1);
    }
}

pub proof fn lemma_count_positive(m: Seq<bool>, a: int)
    requires
        0 <= a < m.len(),
        m[a],
    ensures
        count(m, true) >= 1,
    decreases m.len(),
{
    if a < m.len() - 1 {
        lemma_count_positive(m.drop_last(), a);
    }
}

proof fn lemma_count_two(m: Seq<bool>, a: int, b: int)
    requires
        0 <= a < b < m.len(),
        m[a],
        m[b],
    ensures
        count(m, true) >= 2,
    decreases m.len(),
{
    if b == m.len() - 1 {
        lemma_count_positive(m.drop_last(), a);
    } else {
        lemma_count_two(m.drop_last(), a, b);
    }
}

/// With exactly one selected row, every selected position is the first one.
proof fn lemma_single_match(m: Seq<bool>, w: int)
    requires
        count(m, true) == 1,
        0 <= w < m.len(),
        m[w],
    ensures
        w == first_true(m),
{
    lemma_first_true_props(m, w);
    if first_true(m) < w {
        lemma_count_two(m, first_true(m), w);
    }
}

/// A back-reference of table `p` leads to column `c` of table `q`, and that
/// column is its table's primary key.
pub open spec fn key_step(s: Seq<Table>, p: int, q: int, c: int) -> bool {
    &&& 0 <= p < s.len()
    &&& 0 <= q < s.len()
    &&& 0 <= c < s[q].columns@.len()
    &&& s[q].primary_key is Some
    &&& s[q].primary_key->Some_0 as int == c
    &&& exists|b: int|
        0 <= b < schemas(s)[p].referenced_as_foreign_key.len() && #[trigger] referring_column(
            s,
            schemas(s)[p].referenced_as_foreign_key[b],
        ) == Some((q, c))
}

/// A chain of key steps that starts at table `p`.
pub open spec fn key_chain(s: Seq<Table>, p: int, path: Seq<(int, int)>) -> bool {
    &&& path.len() > 0
    &&& key_step(s, p, path[0].0, path[0].1)
    &&& forall|i: int|
        0 <= i < path.len() - 1 ==> #[trigger] key_step(s, path[i].0, path[i + 1].0, path[i + 1].1)
}

/// Column `c` of table `q` is a key column that a key change in table `p`
/// reaches, through back-references and key columns.
pub open spec fn reaches_key(s: Seq<Table>, p: int, q: int, c: int) -> bool {
    exists|path: Seq<(int, int)>| #[trigger] key_chain(s, p, path) && path.last() == (q, c)
}

/// No key column that a key change in table `p` reaches holds both `o` and
/// `n`: turning `o` into `n` along the chain makes no key twice.
pub open spec fn clash_free(s: Seq<Table>, p: int, o: Datum, n: Datum) -> bool {
    forall|q: int, c: int|
        #[trigger] reaches_key(s, p, q, c) && s[q].keys().contains(o) ==> !s[q].keys().contains(n)
}

proof fn lemma_key_step_same(a: Seq<Table>, b: Seq<Table>, p: int, q: int, c: int)
    requires
        schemas(a) == schemas(b),
        key_step(b, p, q, c),
    ensures
        key_step(a, p, q, c),
{
    assert(a.len() == schemas(a).len() && b.len() == schemas(b).len());
    assert(schemas(a)[q].primary_key == a[q].primary_key);
    assert(schemas(b)[q].primary_key == b[q].primary_key);
    crate::table::lemma_same_schema(a[q], b[q]);
    let i = choose|i: int|
        0 <= i < schemas(b)[p].referenced_as_foreign_key.len() && #[trigger] referring_column(
            b,
            schemas(b)[p].referenced_as_foreign_key[i],
        ) == Some((q, c));
    crate::database_delete::lemma_referring_same(a, b, schemas(a)[p].referenced_as_foreign_key[i]);
    assert(referring_column(a, schemas(a)[p].referenced_as_foreign_key[i]) == Some((q, c)));
}

proof fn lemma_reaches_same(a: Seq<Table>, b: Seq<Table>, p: int, q: int, c: int)
    requires
        schemas(a) == schemas(b),
        reaches_key(b, p, q, c),
    ensures
        reaches_key(a, p, q, c),
{
    let path = choose|path: Seq<(int, int)>| #[trigger] key_chain(b, p, path) && path.last() == (q, c);
    lemma_key_step_same(a, b, p, path[0].0, path[0].1);
    assert forall|i: int| 0 <= i < path.len() - 1 implies #[trigger] key_step(
        a,
        path[i].0,
        path[i + 1].0,
        path[i + 1].1,
    ) by {
        lemma_key_step_same(a, b, path[i].0, path[i + 1].0, path[i + 1].1);
    }
    assert(key_chain(a, p, path));
}

proof fn lemma_reaches_one(s: Seq<Table>, p: int, q: int, c: int)
    requires
        key_step(s, p, q, c),
    ensures
        reaches_key(s, p, q, c),
{
    let path = seq![(q, c)];
    assert(key_chain(s, p, path));
}

/// What a key change in table `k` reaches, a key change in `p` reaches too
/// when `p` leads to `k`'s key.
proof fn lemma_reaches_step(s: Seq<Table>, p: int, k: int, ck: int, q: int, c: int)
    requires
        key_step(s, p, k, ck),
        reaches_key(s, k, q, c),
    ensures
        reaches_key(s, p, q, c),
{
    let path = choose|path: Seq<(int, int)>| #[trigger] key_chain(s, k, path) && path.last() == (q, c);
    let np = seq![(k, ck)] + path;
    assert forall|i: int| 0 <= i < np.len() - 1 implies #[trigger] key_step(
        s,
        np[i].0,
        np[i + 1].0,
        np[i + 1].1,
    ) by {
        if i == 0 {
            assert(np[0] == (k, ck));
            assert(np[1] == path[0]);
        } else {
            assert(np[i] == path[i - 1]);
            assert(np[i + 1] == path[i]);
            let j = i - 1;
            assert(key_step(s, path[j].0, path[j + 1].0, path[j + 1].1));
        }
    }
    assert(key_chain(s, p, np));
    assert(np.last() == path.last());
}

/// Clash freedom survives steps that keep the schemas and, at each table,
/// keep its keys or leave no `o` among them.
proof fn lemma_clash_free_keep(a: Seq<Table>, b: Seq<Table>, p: int, o: Datum, n: Datum)
    requires
        clash_free(a, p, o, n),
        a.len() == b.len(),
        schemas(a) == schemas(b),
        forall|q: int| 0 <= q < a.len() ==> #[trigger] b[q].keys() == a[q].keys() || !b[q].keys().contains(o),
    ensures
        clash_free(b, p, o, n),
{
    assert forall|q: int, c: int| #[trigger] reaches_key(b, p, q, c) && b[q].keys().contains(o) implies !b[q].keys().contains(n) by {
        lemma_reaches_same(a, b, p, q, c);
        let path = choose|path: Seq<(int, int)>| #[trigger] key_chain(b, p, path) && path.last() == (q, c);
        let l = path.len() - 1;
        assert(path[l] == (q, c));
        if l == 0 {
            assert(key_step(b, p, path[0].0, path[0].1));
        } else {
            let j = l - 1;
            assert(key_step(b, path[j].0, path[j + 1].0, path[j + 1].1));
        }
        assert(0 <= q < a.len());
        assert(b[q].keys() == a[q].keys() || !b[q].keys().contains(o));
    }
}

/// Along replacements of `o` by `n`, each table keeps its keys or holds no
/// `o` among them.
proof fn lemma_replaced_keys(a: Seq<Table>, b: Seq<Table>, o: Datum, n: Datum)
    requires
        o != n,
        only_replaced(a, b, o, n),
        forall|j: int| 0 <= j < a.len() ==> (#[trigger] a[j]).wf(),
    ensures
        forall|q: int| 0 <= q < a.len() ==> #[trigger] b[q].keys() == a[q].keys() || !b[q].keys().contains(o),
{
    assert forall|q: int| 0 <= q < a.len() implies #[trigger] b[q].keys() == a[q].keys() || !b[q].keys().contains(o) by {
        assert(schemas(a)[q] == schemas(b)[q]);
        crate::table::lemma_same_schema(a[q], b[q]);
        assert(a[q].wf());
        if let Some(p) = a[q].primary_key {
            let av = a[q].columns@[p as int].values();
            assert(b[q].keys() == b[q].columns@[p as int].values());
            assert(a[q].keys() == av);
            if b[q].columns@[p as int].values() != av {
                assert(b[q].columns@[p as int].values() == replace(av, o, n));
                lemma_replace_avoids(av, o, n);
            }
        }
    }
}

/// Replacing a value that does not occur changes nothing.
proof fn lemma_replace_absent(s: Seq<Datum>, o: Datum, n: Datum)
    requires
        !s.contains(o),
    ensures
        replace(s, o, n) == s,
{
    assert forall|w: int| 0 <= w < s.len() implies s[w] != o by {
        if s[w] == o {
            assert(s.contains(o));
        }
    }
    assert(replace(s, o, n) =~= s);
}

/// After a key cascade, every column that refers to a table that lost the
/// key `o` holds `n` exactly where it held `o`, and is otherwise unchanged.
pub proof fn lemma_cascade_rewrites(a: Seq<Table>, b: Seq<Table>, from: int, o: Datum, n: Datum)
    requires
        only_replaced(a, b, o, n),
        no_dangling_created(a, b, from),
    ensures
        forall|r: int, i: int|
            from <= r < a.len() && 0 <= i < schemas(a)[r].referenced_as_foreign_key.len()
                && key_removed(a, b, r, o) && (#[trigger] referring_column(
                a,
                schemas(a)[r].referenced_as_foreign_key[i],
            )) is Some ==> {
                let (q, c) = referring_column(a, schemas(a)[r].referenced_as_foreign_key[i])->Some_0;
                b[q].columns@[c].values() == replace(a[q].columns@[c].values(), o, n)
            },
{
    assert forall|r: int, i: int|
        from <= r < a.len() && 0 <= i < schemas(a)[r].referenced_as_foreign_key.len()
            && key_removed(a, b, r, o) && (#[trigger] referring_column(
            a,
            schemas(a)[r].referenced_as_foreign_key[i],
        )) is Some implies {
            let (q, c) = referring_column(a, schemas(a)[r].referenced_as_foreign_key[i])->Some_0;
            b[q].columns@[c].values() == replace(a[q].columns@[c].values(), o, n)
        } by {
        let rf = schemas(a)[r].referenced_as_foreign_key[i];
        let (q, c) = referring_column(a, rf)->Some_0;
        assert(reference_avoids(a, b, rf, o));
        assert(0 <= q < a.len()) by {
            assert(schemas(a)[q].name == rf.0);
        }
        assert(0 <= c < a[q].columns@.len()) by {
            let w = choose|w: int| crate::column::first_named(a[q].columns@, rf.1, w);
        }
        if b[q].columns@[c].values() == a[q].columns@[c].values() {
            lemma_replace_absent(a[q].columns@[c].values(), o, n);
        }
    }
}

impl Database {
    /// Turns every `o` into `n` in the column named `column_name` of table
    /// `ti`; when that column is its table's primary key and held `o`, does
    /// the same, in turn, in every column that refers to it.
    fn cascade_key_update(
        &mut self,
        ti: usize,
        column_name: &String,
        o: &Value,
        n: &Value,
        Ghost(parent): Ghost<int>,
        Ghost(b): Ghost<int>,
    ) -> (r: Result<(), Error>)
        requires
            old(self).wf(),
            ti < old(self).tables@.len(),
            o@ != n@,
            n@ != Datum::Null,
            0 <= parent < old(self).tables@.len(),
            0 <= b < schemas(old(self).tables@)[parent].referenced_as_foreign_key.len(),
            schemas(old(self).tables@)[parent].referenced_as_foreign_key[b].1 == column_name@,
            table_index(
                old(self).tables@,
                schemas(old(self).tables@)[parent].referenced_as_foreign_key[b].0,
            ) == Some(ti as int),
        ensures
            final(self).wf(),
            final(self).name == old(self).name,
            only_replaced(old(self).tables@, final(self).tables@, o@, n@),
            forall|j: int| 0 <= j < ti ==> final(self).tables@[j] == old(self).tables@[j],
            r is Err ==> r->Err_0@ == DbErrorView::TableError(ErrorView::DuplicatePrimaryKey),
            clash_free(old(self).tables@, parent, o@, n@) ==> r is Ok && clash_free(
                final(self).tables@,
                parent,
                o@,
                n@,
            ),
            r is Ok ==> match column_index(old(self).tables@[ti as int].columns@, column_name@) {
                Some(c) => final(self).tables@[ti as int].columns@[c].values() == replace(
                    old(self).tables@[ti as int].columns@[c].values(),
                    o@,
                    n@,
                ),
                None => true,
            },
            r is Ok ==> no_dangling_created(old(self).tables@, final(self).tables@, ti as int),
        decreases old(self).tables@.len() - ti, 1nat,
    {
        let ghost start = self.tables@;
        let c = match find_column(&self.tables[ti].columns, column_name.as_str()) {
            Some(c) => c,
            None => {
                // a back-reference to a column that is not there has nothing to rewrite
                proof {
                    lemma_no_key_lost(start, start, ti as int);
                }
                return Ok(());
            },
        };
        let is_key = self.tables[ti].primary_key == Some(c);
        let rows = self.tables[ti].columns[c].data.len();
        let mut data: Vec<Value> = Vec::new();
        let mut found = false;
        let mut i: usize = 0;
        while i < rows
            invariant
                self.tables@ == start,
                ti < start.len(),
                c < start[ti as int].columns@.len(),
                rows == start[ti as int].columns@[c as int].data@.len(),
                i <= rows,
                datums(data@) == replace(start[ti as int].columns@[c as int].values(), o@, n@).take(
                    i as int,
                ),
                found == start[ti as int].columns@[c as int].values().take(i as int).contains(o@),
            decreases rows - i,
        {
            let ghost vals = start[ti as int].columns@[c as int].values();
            let x = &self.tables[ti].columns[c].data[i];
            proof {
                crate::table_insert::lemma_contains_push(vals.take(i as int), vals[i as int], o@);
                assert(vals.take(i + 1) =~= vals.take(i as int).push(vals[i as int]));
            }
            let ghost before = data@;
            if crate::column::same_value(x, o) {
                data.push(n.duplicate());
                found = true;
            } else {
                data.push(x.duplicate());
            }
            assert(datums(data@) =~= datums(before).push(replace(vals, o@, n@)[i as int]));
            assert(replace(vals, o@, n@).take(i + 1) =~= replace(vals, o@, n@).take(i as int).push(
                replace(vals, o@, n@)[i as int],
            ));
            i = i + 1;
        }
        let ghost vals = start[ti as int].columns@[c as int].values();
        assert(replace(vals, o@, n@).take(rows as int) =~= replace(vals, o@, n@));
        assert(vals.take(rows as int) =~= vals);
        if is_key && found && contains_value(&self.tables[ti].columns[c].data, n) {
            proof {
                let rf = schemas(start)[parent].referenced_as_foreign_key[b];
                assert(referring_column(start, rf) == Some((ti as int, c as int)));
                assert(key_step(start, parent, ti as int, c as int));
                lemma_reaches_one(start, parent, ti as int, c as int);
                assert(start[ti as int].keys() == vals);
                lemma_no_key_lost(start, start, ti as int);
            }
            return Err(Error::TableError(crate::table_errors::Error::DuplicatePrimaryKey));
        }
        proof {
            assert(start[ti as int].wf());
            if start[ti as int].columns@[c as int].is_primary_key {
                assert(start[ti as int].primary_key == Some(c));
                if found {
                    lemma_replace_keys(vals, o@, n@);
                } else {
                    lemma_replace_absent(vals, o@, n@);
                }
            }
        }
        self.tables[ti].replace_column_data(c, data);
        proof {
            lemma_replaced_table(start, self.tables@, ti as int);
            assert forall|j: int| 0 <= j < self.tables@.len() implies (#[trigger] self.tables@[j]).wf() by {
                if j != ti {
                    assert(self.tables@[j] == start[j]);
                }
            }
            assert forall|j: int, q: int|
                0 <= j < start.len() && 0 <= q < start[j].columns@.len() implies (#[trigger] self.tables@[j].columns@[q]).values()
                == start[j].columns@[q].values() || self.tables@[j].columns@[q].values() == replace(
                start[j].columns@[q].values(),
                o@,
                n@,
            ) by {
                if j == ti {
                    let after = self.tables@[j];
                    assert(after.cells() == start[j].cells().update(c as int, datums(data@)));
                    assert(after.cells().len() == start[j].cells().len());
                    assert(after.columns@.len() == start[j].columns@.len());
                    assert(after.cells()[q] == after.columns@[q].values());
                    assert(start[j].cells()[q] == start[j].columns@[q].values());
                } else {
                    assert(self.tables@[j] == start[j]);
                }
            }
            assert forall|j: int, q: int|
                0 <= j < start.len() && 0 <= q < start[j].columns@.len() && (#[trigger] self.tables@[j].columns@[q]).values()
                    != start[j].columns@[q].values() implies referred_column(start, j, q) by {
                if j == ti {
                    let after = self.tables@[j];
                    assert(after.cells() == start[j].cells().update(c as int, datums(data@)));
                    assert(after.cells().len() == start[j].cells().len());
                    assert(after.columns@.len() == start[j].columns@.len());
                    assert(after.cells()[q] == after.columns@[q].values());
                    assert(start[j].cells()[q] == start[j].columns@[q].values());
                    if q == c {
                        let rf = schemas(start)[parent].referenced_as_foreign_key[b];
                        assert(referring_column(start, rf) == Some((ti as int, c as int)));
                    }
                } else {
                    assert(self.tables@[j] == start[j]);
                }
            }
        }
        proof {
            let after = self.tables@[ti as int];
            assert(after.cells() == start[ti as int].cells().update(c as int, datums(data@)));
            assert(after.cells().len() == start[ti as int].cells().len());
            assert(after.cells()[c as int] == after.columns@[c as int].values());
            assert(after.columns@[c as int].values() == replace(vals, o@, n@));
        }
        proof {
            let after = self.tables@;
            crate::table::lemma_same_schema(start[ti as int], after[ti as int]);
            assert forall|x: Datum| #[trigger] key_removed(start, after, ti as int, x) implies x == o@ by {
                if let Some(p) = start[ti as int].primary_key {
                    assert(after[ti as int].cells()[p as int] == after[ti as int].columns@[p as int].values());
                    assert(start[ti as int].cells()[p as int] == start[ti as int].columns@[p as int].values());
                    if p != c {
                        assert(after[ti as int].keys() == start[ti as int].keys());
                    } else {
                        let kv = start[ti as int].keys();
                        let w = choose|w: int| 0 <= w < kv.len() && kv[w] == x;
                        if x != o@ {
                            assert(after[ti as int].keys()[w] == x);
                        }
                    }
                }
            }
            if !(is_key && found) {
                assert forall|r: int| 0 <= r < start.len() implies #[trigger] after[r].keys() == start[r].keys() by {
                    if r != ti {
                        assert(after[r] == start[r]);
                    } else if let Some(p) = start[ti as int].primary_key {
                        assert(after[r].cells()[p as int] == after[r].columns@[p as int].values());
                        assert(start[r].cells()[p as int] == start[r].columns@[p as int].values());
                        if p == c {
                            assert(!vals.contains(o@));
                            assert(replace(vals, o@, n@) =~= vals) by {
                                assert forall|w: int| 0 <= w < vals.len() implies vals[w] != o@ by {
                                    if vals[w] == o@ {
                                        assert(vals.contains(o@));
                                    }
                                }
                            }
                        }
                    }
                }
                lemma_no_key_lost(start, after, ti as int);
            }
            if clash_free(start, parent, o@, n@) {
                assert forall|q: int| 0 <= q < start.len() implies #[trigger] after[q].keys()
                    == start[q].keys() || !after[q].keys().contains(o@) by {
                    if q != ti {
                        assert(after[q] == start[q]);
                    } else if let Some(p) = start[ti as int].primary_key {
                        assert(after[q].cells()[p as int] == after[q].columns@[p as int].values());
                        assert(start[q].cells()[p as int] == start[q].columns@[p as int].values());
                        if p == c {
                            lemma_replace_avoids(vals, o@, n@);
                        }
                    }
                }
                lemma_clash_free_keep(start, after, parent, o@, n@);
            }
        }
        if !(is_key && found) {
            return Ok(());
        }
        let ghost after_target = self.tables@;
        proof {
            if clash_free(start, parent, o@, n@) {
                assert(key_step(start, parent, ti as int, c as int));
                lemma_key_step_same(after_target, start, parent, ti as int, c as int);
                assert forall|q: int, c2: int| #[trigger] reaches_key(after_target, ti as int, q, c2)
                    && after_target[q].keys().contains(o@) implies !after_target[q].keys().contains(n@) by {
                    lemma_reaches_step(after_target, parent, ti as int, c as int, q, c2);
                }
            }
        }
        let res = self.cascade_from(ti, o, n);
        proof {
            lemma_only_replaced_trans(old(self).tables@, after_target, self.tables@, o@, n@);
            if res is Ok {
                lemma_local_replace(start, after_target, self.tables@, ti as int, o@, n@);
            }
            if clash_free(start, parent, o@, n@) {
                lemma_replaced_keys(after_target, self.tables@, o@, n@);
                lemma_clash_free_keep(after_target, self.tables@, parent, o@, n@);
            }

        }
        res
    }
}

/// Counts the `true` entries of `m` and finds the first one.
fn count_matches(m: &Vec<bool>) -> (r: (usize, usize))
    ensures
        r.0 == count(m@, true),
        r.1 == first_true(m@),
        r.1 <= m@.len(),
        r.1 < m@.len() ==> m@[r.1 as int],
        r.0 > 0 ==> r.1 < m@.len(),
{
    let mut c: usize = 0;
    let mut first: usize = m.len();
    let mut i: usize = 0;
    assert(m@.take(0) =~= Seq::<bool>::empty());
    while i < m.len()
        invariant
            i <= m@.len(),
            c == count(m@.take(i as int), true),
            c <= i,
            first == if c == 0 { m@.len() as int } else { first_true(m@) },
            c == 0 ==> forall|j: int| 0 <= j < i ==> !m@[j],
            c > 0 ==> first < m@.len() && m@[first as int],
        decreases m@.len() - i,
    {
        assert(m@.take(i + 1).drop_last() =~= m@.take(i as int));
        if m[i] {
            if c == 0 {
                proof {
                    lemma_first_true_at(m@, i as int);
                }
                first = i;
            }
            c = c + 1;
        }
        i = i + 1;
    }
    assert(m@.take(i as int) =~= m@);
    proof {
        if c == 0 {
            lemma_first_true_none(m@);
        }
    }
    (c, first)
}

proof fn lemma_first_true_at(m: Seq<bool>, i: int)
    requires
        0 <= i < m.len(),
        m[i],
        forall|j: int| 0 <= j < i ==> !m[j],
    ensures
        first_true(m) == i,
    decreases i,
{
    if i > 0 {
        assert forall|j: int| 0 <= j < i - 1 implies !m.drop_first()[j] by {
            assert(!m[j + 1]);
        }
        lemma_first_true_at(m.drop_first(), i - 1);
    }
}

proof fn lemma_first_true_none(m: Seq<bool>)
    requires
        forall|j: int| 0 <= j < m.len() ==> !m[j],
    ensures
        first_true(m) == m.len(),
    decreases m.len(),
{
    if m.len() > 0 {
        assert forall|j: int| 0 <= j < m.len() - 1 implies !m.drop_first()[j] by {
            assert(!m[j + 1]);
        }
        lemma_first_true_none(m.drop_first());
    }
}

/// The column that the back-reference `rf` names, in `tables`.
pub open spec fn referring_column(tables: Seq<Table>, rf: (Seq<char>, Seq<char>)) -> Option<(int, int)> {
    match table_index(tables, rf.0) {
        None => None,
        Some(q) => match column_index(tables[q].columns@, rf.1) {
            None => None,
            Some(c) => Some((q, c)),
        },
    }
}

/// Every column that one of `refs` names has had each `o` turned into `n`
/// from `before` to `after`.
pub open spec fn references_rewritten(
    before: Seq<Table>,
    after: Seq<Table>,
    refs: Seq<(Seq<char>, Seq<char>)>,
    o: Datum,
    n: Datum,
) -> bool {
    forall|b: int|
        0 <= b < refs.len() && (#[trigger] referring_column(before, refs[b])) is Some ==> {
            let (q, c) = referring_column(before, refs[b])->Some_0;
            after[q].columns@[c].values() == replace(before[q].columns@[c].values(), o, n)
        }
}

impl Database {
    /// Carries the key change `o` to `n` of table `ti` over to every column
    /// that refers to it, and on from there.
    fn cascade_from(&mut self, ti: usize, o: &Value, n: &Value) -> (r: Result<(), Error>)
        requires
            old(self).wf(),
            ti < old(self).tables@.len(),
            o@ != n@,
            n@ != Datum::Null,
        ensures
            final(self).wf(),
            final(self).name == old(self).name,
            only_replaced(old(self).tables@, final(self).tables@, o@, n@),
            forall|j: int| 0 <= j <= ti ==> final(self).tables@[j] == old(self).tables@[j],
            r is Ok ==> references_rewritten(
                old(self).tables@,
                final(self).tables@,
                schemas(old(self).tables@)[ti as int].referenced_as_foreign_key,
                o@,
                n@,
            ),
            r is Ok ==> no_dangling_created(old(self).tables@, final(self).tables@, ti + 1),
            r is Err ==> r->Err_0@ == DbErrorView::TableError(ErrorView::DuplicatePrimaryKey),
            clash_free(old(self).tables@, ti as int, o@, n@) ==> r is Ok && clash_free(
                final(self).tables@,
                ti as int,
                o@,
                n@,
            ),
        decreases old(self).tables@.len() - ti, 0nat,
    {
        let ghost start = self.tables@;
        let refs = self.tables[ti].copy_references();
        let ghost rv = schemas(start)[ti as int].referenced_as_foreign_key;
        assert(rv == pair_views(refs@));
        proof {
            lemma_no_key_lost(start, start, ti + 1);
        }
        let mut b: usize = 0;
        while b < refs.len()
            invariant
                self.wf(),
                self.name == old(self).name,
                start == old(self).tables@,
                ti < self.tables@.len(),
                o@ != n@,
                n@ != Datum::Null,
                self.tables@.len() == start.len(),
                registry_ok(schemas(start)),
                rv == schemas(start)[ti as int].referenced_as_foreign_key,
                rv == pair_views(refs@),
                b <= refs@.len(),
                only_replaced(start, self.tables@, o@, n@),
                forall|j: int| 0 <= j <= ti ==> self.tables@[j] == start[j],
                references_rewritten(start, self.tables@, rv.take(b as int), o@, n@),
                no_dangling_created(start, self.tables@, ti + 1),
                forall|j: int| 0 <= j < start.len() ==> (#[trigger] start[j]).wf(),
                clash_free(start, ti as int, o@, n@) ==> clash_free(self.tables@, ti as int, o@, n@),
            decreases refs@.len() - b,
        {
            assert(schemas(self.tables@) == schemas(start));
            let k = match self.find_table(refs[b].0.as_str()) {
                Some(k) => k,
                None => {
                    // a back-reference to a table that is not there has nothing to rewrite
                    proof {
                        assert(rv[b as int] == (refs@[b as int].0@, refs@[b as int].1@));
                        assert(table_index(start, rv[b as int].0) is None);
                        let rb = rv.take(b + 1);
                        assert forall|x: int|
                            0 <= x < rb.len() && (#[trigger] referring_column(start, rb[x])) is Some implies {
                                let (q, c) = referring_column(start, rb[x])->Some_0;
                                self.tables@[q].columns@[c].values() == replace(start[q].columns@[c].values(), o@, n@)
                            } by {
                            assert(rb[x] == rv.take(b as int)[x]);
                        }
                    }
                    b = b + 1;
                    continue;
                },
            };
            proof {
                let s = schemas(start);
                assert(rv[b as int] == (refs@[b as int].0@, refs@[b as int].1@));
                assert(named_after(s, ti as int, refs@[b as int].0@));
                let q = choose|q: int| ti < q < s.len() && #[trigger] s[q].name == refs@[b as int].0@;
                assert(schemas(self.tables@)[q].name == refs@[b as int].0@);
                lemma_schema_index(schemas(self.tables@), refs@[b as int].0@, q);
            }
            let ghost mid = self.tables@;
            proof {
                assert(schemas(mid)[ti as int].referenced_as_foreign_key[b as int] == rv[b as int]);
                assert(rv[b as int] == (refs@[b as int].0@, refs@[b as int].1@));
            }
            let res = self.cascade_key_update(k, &refs[b].1, o, n, Ghost(ti as int), Ghost(b as int));
            proof {

                lemma_only_replaced_trans(start, mid, self.tables@, o@, n@);
                assert(table_index(start, rv[b as int].0) == Some(k as int)) by {
                    assert(schemas(mid) == schemas(start));
                }
                assert forall|j: int| 0 <= j <= ti implies self.tables@[j] == start[j] by {
                    assert(self.tables@[j] == mid[j]);
                }
            }
            match res {
                Err(e) => return Err(e),
                Ok(()) => {},
            }
            proof {
                crate::database_delete::lemma_no_dangling_widen(mid, self.tables@, ti + 1, k as int);
                lemma_no_dangling_trans_replaced(start, mid, self.tables@, ti + 1, o@, n@);
                let after = self.tables@;
                let rb = rv.take(b + 1);
                assert forall|x: int|
                    0 <= x < rb.len() && (#[trigger] referring_column(start, rb[x])) is Some implies {
                        let (q, c) = referring_column(start, rb[x])->Some_0;
                        after[q].columns@[c].values() == replace(start[q].columns@[c].values(), o@, n@)
                    } by {
                    let (q, c) = referring_column(start, rb[x])->Some_0;
                    let sv = start[q].columns@[c].values();
                    assert(schemas(start)[q].columns.len() == start[q].columns@.len());
                    if x < b {
                        assert(rb[x] == rv.take(b as int)[x]);
                        let mv = mid[q].columns@[c].values();
                        assert(mv == replace(sv, o@, n@));
                        assert(after[q].columns@[c].values() == mv || after[q].columns@[c].values()
                            == replace(mv, o@, n@));
                        assert(replace(replace(sv, o@, n@), o@, n@) =~= replace(sv, o@, n@));
                    } else {
                        assert(rb[x] == rv[b as int]);
                        assert(q == k);
                        assert(start[q].columns@ == mid[q].columns@ ==> true);
                        let mv = mid[q].columns@[c].values();
                        assert(mid[q].columns@.len() == start[q].columns@.len()) by {
                            assert(schemas(mid)[q].columns.len() == mid[q].columns@.len());
                        }
                        assert(column_index(mid[q].columns@, refs@[b as int].1@) == Some(c)) by {
                            assert(schemas(mid)[q] == schemas(start)[q]);
                            crate::table::lemma_same_schema(start[q], mid[q]);
                            lemma_same_names_index(start[q].columns@, mid[q].columns@, refs@[b as int].1@);
                        }
                        assert(mv == sv || mv == replace(sv, o@, n@));
                        assert(replace(replace(sv, o@, n@), o@, n@) =~= replace(sv, o@, n@));
                    }
                }
            }
            b = b + 1;
        }
        assert(rv.take(refs@.len() as int) =~= rv);
        Ok(())
    }
}

impl Database {
    /// Writes one value into every row of a column of the named table.
    /// Fails, leaving every table as it was, with `TableNotFound`, with
    /// `NonExistingColumn`, with a foreign-key error on the new value
    /// (`ParseError` at position 0 when it does not read), or with the
    /// table's own error.
    pub fn update_column_in_table(&mut self, table_name: &str, column_name: &str, new_value: &str) -> (r:
        Result<(), Error>)
        requires
            old(self).wf(),
        ensures
            final(self).wf(),
            final(self).name == old(self).name,
            match table_index(old(self).tables@, table_name@) {
                None => r is Err && r->Err_0@ == DbErrorView::TableNotFound(table_name@)
                    && *final(self) == *old(self),
                Some(i) => {
                    let t = old(self).tables@[i];
                    match column_index(t.columns@, column_name@) {
                        None => r is Err && r->Err_0@ == DbErrorView::TableError(
                            ErrorView::NonExistingColumn(column_name@),
                        ) && *final(self) == *old(self),
                        Some(c) => match foreign_value_error(
                            old(self).tables@,
                            t.columns@[c],
                            new_value@,
                            DbErrorView::ParseError(0, new_value@),
                        ) {
                            Some(e) => r is Err && r->Err_0@ == e && *final(self) == *old(self),
                            None => match update_column_outcome(t, column_name@, new_value@) {
                                Ok((k, v)) => r is Ok && replaced_table(
                                    old(self).tables@,
                                    final(self).tables@,
                                    i,
                                ) && final(self).tables@[i].cells() == t.cells().update(
                                    k,
                                    Seq::new(t.row_count(), |q: int| v),
                                ),
                                Err(e) => r is Err && r->Err_0@ == DbErrorView::TableError(e)
                                    && final(self).tables@ == old(self).tables@,
                            },
                        },
                    }
                },
            },
    {
        let ti = match self.find_table(table_name) {
            Some(i) => i,
            None => return Err(Error::TableNotFound(table_name.to_string())),
        };
        let c = match find_column(&self.tables[ti].columns, column_name) {
            Some(c) => c,
            None => return Err(
                Error::TableError(
                    crate::table_errors::Error::NonExistingColumn(column_name.to_string()),
                ),
            ),
        };
        let parse_err = Error::ParseError(0, new_value.to_string());
        match self.check_foreign_value(&self.tables[ti].columns[c], new_value, parse_err) {
            Err(e) => return Err(e),
            Ok(()) => {},
        }
        let ghost before = self.tables@;
        assert(before[ti as int].wf());
        let res = self.tables[ti].update_column(column_name, new_value);
        proof {
            lemma_replaced_table(before, self.tables@, ti as int);
            assert forall|j: int| 0 <= j < self.tables@.len() implies (#[trigger] self.tables@[j]).wf() by {
                if j != ti {
                    assert(self.tables@[j] == before[j]);
                }
            }
        }
        match res {
            Err(e) => {
                assert(self.tables@ =~= before);
                Err(Error::TableError(e))
            },
            Ok(()) => Ok(()),
        }
    }

    /// Writes one value into the rows of the named table that satisfy a
    /// condition. Fails, leaving every table as it was, with `TableNotFound`,
    /// `NonExistingColumn`, a foreign-key error on the new value (`ParseError`
    /// at position 1 when it does not read); for the primary-key column with
    /// the condition's error or with `DuplicatePrimaryKey` when more than one
    /// row matches; or with the table's own error. When the primary key of
    /// the one matching row changes from `o` to `n`, every column that refers
    /// to it, directly or through a chain of keys, has each `o` turned into
    /// `n`, and no other column changes. This succeeds whenever no key column
    /// that the change reaches, through back-references and key columns,
    /// holds both `o` and `n`; otherwise it may stop with
    /// `DuplicatePrimaryKey`, keeping what was done.
    pub fn update_with_nested_conditions_in_table(
        &mut self,
        table_name: &str,
        update_input: (String, String),
        nested_condition: NestedCondition,
    ) -> (r: Result<(), Error>)
        requires
            old(self).wf(),
        ensures
            final(self).wf(),
            final(self).name == old(self).name,
            match table_index(old(self).tables@, table_name@) {
                None => r is Err && r->Err_0@ == DbErrorView::TableNotFound(table_name@)
                    && *final(self) == *old(self),
                Some(i) => {
                    let t = old(self).tables@[i];
                    let name = update_input.0@;
                    let lit = update_input.1@;
                    let m = eval_rows(nested_condition, t.columns@, t.row_count());
                    match column_index(t.columns@, name) {
                        None => r is Err && r->Err_0@ == DbErrorView::TableError(
                            ErrorView::NonExistingColumn(name),
                        ) && *final(self) == *old(self),
                        Some(c) => match foreign_value_error(
                            old(self).tables@,
                            t.columns@[c],
                            lit,
                            DbErrorView::ParseError(1, lit),
                        ) {
                            Some(e) => r is Err && r->Err_0@ == e && *final(self) == *old(self),
                            None => if t.columns@[c].is_primary_key && m is Err {
                                r is Err && r->Err_0@ == DbErrorView::TableError(m->Err_0)
                                    && *final(self) == *old(self)
                            } else if t.columns@[c].is_primary_key && count(m->Ok_0, true) > 1 {
                                r is Err && r->Err_0@ == DbErrorView::TableError(
                                    ErrorView::DuplicatePrimaryKey,
                                ) && *final(self) == *old(self)
                            } else {
                                match conditional_update_outcome(t, name, lit, nested_condition) {
                                    Err(e) => r is Err && r->Err_0@ == DbErrorView::TableError(e)
                                        && final(self).tables@ == old(self).tables@,
                                    Ok((k, new)) => {
                                        &&& final(self).tables@.len() == old(self).tables@.len()
                                        &&& final(self).tables@[i].schema() == t.schema()
                                        &&& final(self).tables@[i].cells() == t.cells().update(k, new)
                                        &&& forall|j: int|
                                            0 <= j < i ==> final(self).tables@[j] == old(self).tables@[j]
                                        &&& match key_change(
                                            t,
                                            k,
                                            m->Ok_0,
                                            typed_literal(t.columns@[k].data_type, lit)->Some_0,
                                        ) {
                                            None => r is Ok && replaced_table(
                                                old(self).tables@,
                                                final(self).tables@,
                                                i,
                                            ),
                                            Some((o, n)) => {
                                                &&& only_replaced(
                                                    old(self).tables@.update(i, final(self).tables@[i]),
                                                    final(self).tables@,
                                                    o,
                                                    n,
                                                )
                                                &&& r is Ok ==> references_rewritten(
                                                    old(self).tables@,
                                                    final(self).tables@,
                                                    t.schema().referenced_as_foreign_key,
                                                    o,
                                                    n,
                                                )
                                                &&& r is Ok ==> no_dangling_created(
                                                    old(self).tables@,
                                                    final(self).tables@,
                                                    i,
                                                )
                                                &&& r is Ok ==> no_dangling_created(
                                                    old(self).tables@.update(i, final(self).tables@[i]),
                                                    final(self).tables@,
                                                    i + 1,
                                                )
                                                &&& clash_free(old(self).tables@, i, o, n)
                                                    ==> r is Ok
                                                &&& r is Err ==> r->Err_0@ == DbErrorView::TableError(
                                                    ErrorView::DuplicatePrimaryKey,
                                                )
                                            },
                                        }
                                    },
                                }
                            },
                        },
                    }
                },
            },
    {
        let ti = match self.find_table(table_name) {
            Some(i) => i,
            None => return Err(Error::TableNotFound(table_name.to_string())),
        };
        let c = match find_column(&self.tables[ti].columns, update_input.0.as_str()) {
            Some(c) => c,
            None => return Err(
                Error::TableError(
                    crate::table_errors::Error::NonExistingColumn(update_input.0.clone()),
                ),
            ),
        };
        let parse_err = Error::ParseError(1, update_input.1.clone());
        match self.check_foreign_value(&self.tables[ti].columns[c], update_input.1.as_str(), parse_err) {
            Err(e) => return Err(e),
            Ok(()) => {},
        }
        let is_key = self.tables[ti].columns[c].is_primary_key;
        let mut old_key: Option<Value> = None;
        let ghost mut mask_view: Seq<bool> = Seq::empty();
        if is_key {
            assert(self.tables@[ti as int].wf());
            let mask = match self.tables[ti].matching_rows(&nested_condition) {
                Ok(m) => m,
                Err(e) => return Err(Error::TableError(e)),
            };
            let (matches, first) = count_matches(&mask);
            proof {
                mask_view = mask@;
            }
            if matches > 1 {
                return Err(Error::TableError(crate::table_errors::Error::DuplicatePrimaryKey));
            }
            if matches == 1 {
                old_key = Some(self.tables[ti].columns[c].data[first].duplicate());
            }
        }
        let new_key = parse_typed(self.tables[ti].columns[c].data_type, update_input.1.as_str());
        let ghost before = self.tables@;
        let ghost t = before[ti as int];
        let ghost m = eval_rows(nested_condition, t.columns@, t.row_count());
        assert(t.wf());
        let res = self.tables[ti].update_with_nested_conditions(update_input, nested_condition);
        proof {
            lemma_replaced_table(before, self.tables@, ti as int);
            assert forall|j: int| 0 <= j < self.tables@.len() implies (#[trigger] self.tables@[j]).wf() by {
                if j != ti {
                    assert(self.tables@[j] == before[j]);
                }
            }
        }
        match res {
            Err(e) => {
                assert(self.tables@ =~= before);
                return Err(Error::TableError(e));
            },
            Ok(()) => {},
        }
        let ghost updated = self.tables@;
        assert(updated =~= before.update(ti as int, updated[ti as int]));
        match (old_key, new_key) {
            (Some(o), Some(n)) => {
                if crate::column::same_value(&o, &n) {
                    return Ok(());
                }
                assert(n@ != Datum::Null);
                proof {
                    let m = mask_view;
                    let kv = t.keys();
                    crate::table::lemma_same_schema(t, updated[ti as int]);
                    assert(t.primary_key == Some(c));
                    assert(updated[ti as int].cells()[c as int] == updated[ti as int].columns@[c as int].values());
                    assert forall|x: Datum| #[trigger] key_removed(before, updated, ti as int, x) implies x == o@ by {
                        let w = choose|w: int| 0 <= w < kv.len() && kv[w] == x;
                        if !m[w] {
                            assert(updated[ti as int].keys()[w] == x);
                        } else {
                            lemma_single_match(m, w);
                        }
                    }
                }
                proof {
                    if clash_free(before, ti as int, o@, n@) {
                        assert(schemas(updated) == schemas(before));
                        let m = mask_view;
                        let kv = t.keys();
                        assert forall|q: int| 0 <= q < before.len() implies #[trigger] updated[q].keys()
                            == before[q].keys() || !updated[q].keys().contains(o@) by {
                            if q != ti {
                                assert(updated[q] == before[q]);
                            } else if updated[q].keys().contains(o@) {
                                let w = choose|w: int| 0 <= w < updated[q].keys().len() && updated[q].keys()[w] == o@;
                                let r0 = first_true(m);
                                lemma_first_true_props(m, w);
                                if m[w] {
                                    assert(updated[q].keys()[w] == n@);
                                } else {
                                    assert(kv[w] == o@);
                                    assert(m[r0]);
                                    assert(kv[r0] == o@);
                                    assert(r0 != w);
                                }
                            }
                        }
                        lemma_clash_free_keep(before, updated, ti as int, o@, n@);
                    }
                }
                let res = self.cascade_from(ti, &o, &n);
                proof {
                    if res is Ok {
                        lemma_local_replace(before, updated, self.tables@, ti as int, o@, n@);
                    }
                    assert(schemas(updated)[ti as int].referenced_as_foreign_key
                        == t.schema().referenced_as_foreign_key);
                    assert forall|b: int|
                        0 <= b < t.schema().referenced_as_foreign_key.len()
                            && (#[trigger] referring_column(before, t.schema().referenced_as_foreign_key[b])) is Some
                        implies referring_column(updated, t.schema().referenced_as_foreign_key[b])
                        == referring_column(before, t.schema().referenced_as_foreign_key[b]) by {
                        let rf = t.schema().referenced_as_foreign_key[b];
                        let q = table_index(before, rf.0)->Some_0;
                        assert(schemas(updated) == schemas(before));
                        if q != ti {
                            assert(updated[q] == before[q]);
                        } else {
                            crate::table::lemma_same_schema(before[q], updated[q]);
                            lemma_same_names_index(before[q].columns@, updated[q].columns@, rf.1);
                        }
                    }
                    if res is Ok {
                        assert forall|b: int|
                            0 <= b < t.schema().referenced_as_foreign_key.len()
                                && (#[trigger] referring_column(before, t.schema().referenced_as_foreign_key[b])) is Some
                            implies {
                                let (q, cc) = referring_column(before, t.schema().referenced_as_foreign_key[b])->Some_0;
                                self.tables@[q].columns@[cc].values() == replace(before[q].columns@[cc].values(), o@, n@)
                            } by {
                            let rf = t.schema().referenced_as_foreign_key[b];
                            let (q, cc) = referring_column(before, rf)->Some_0;
                            assert(referring_column(updated, rf) == Some((q, cc)));
                            assert(q > ti) by {
                                let s = schemas(before);
                                assert(s[ti as int].referenced_as_foreign_key[b] == rf);
                                assert(named_after(s, ti as int, rf.0));
                                let w = choose|w: int| ti < w < s.len() && #[trigger] s[w].name == rf.0;
                                lemma_schema_index(s, rf.0, w);
                            }
                            assert(updated[q] == before[q]);
                        }
                    }
                }
                res
            },
            _ => Ok(()),
        }
    }
}

/// Columns with the same names are found at the same positions.
pub proof fn lemma_same_names_index(a: Seq<Column>, b: Seq<Column>, name: Seq<char>)
    requires
        a.len() == b.len(),
        forall|i: int| 0 <= i < a.len() ==> #[trigger] a[i].name@ == b[i].name@,
    ensures
        column_index(a, name) == column_index(b, name),
{
    if exists|i: int| crate::column::first_named(a, name, i) {
        let i = choose|i: int| crate::column::first_named(a, name, i);
        crate::column::lemma_column_index(a, name, i);
        assert forall|j: int| 0 <= j < i implies b[j].name@ != name by {
            assert(a[j].name@ == b[j].name@);
        }
        assert(a[i].name@ == b[i].name@);
        assert(crate::column::first_named(b, name, i));
        crate::column::lemma_column_index(b, name, i);
    } else if exists|i: int| crate::column::first_named(b, name, i) {
        let i = choose|i: int| crate::column::first_named(b, name, i);
        assert forall|j: int| 0 <= j < i implies a[j].name@ != name by {
            assert(a[j].name@ == b[j].name@);
        }
        assert(a[i].name@ == b[i].name@);
        assert(crate::column::first_named(a, name, i));
    }
}

} // verus!
