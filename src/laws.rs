//! Laws of the store that relate several operations.
use crate::cell::{CellModel, RowModel};
use crate::interning::{intern_key, interned};
use crate::merge::{intern_all, merged, shifted, translate_cell, translate_row, translated_facts, translated_values};
use crate::schema::{depends_on, ColumnKind, DatabaseSchema};
use crate::tables::{cell_conforms, empty_model, model_wf, row_conforms, TablesModel};
use vstd::prelude::*;

verus! {

proof fn lemma_interned_key(s: Seq<RowModel>, v: RowModel)
    requires
        s.no_duplicates(),
    ensures
        interned(s, v).no_duplicates(),
        0 <= intern_key(s, v) < interned(s, v).len(),
        interned(s, v)[intern_key(s, v)] == v,
        interned(s, v).len() >= s.len(),
        forall|i: int| 0 <= i < s.len() ==> #[trigger] interned(s, v)[i] == s[i],
{
    if s.contains(v) {
        let i = s.index_of(v);
        assert(0 <= i < s.len() && s[i] == v);
    } else {
        let t = s.push(v);
        assert forall|i: int, j: int| 0 <= i < t.len() && 0 <= j < t.len() && i != j implies t[i]
            != t[j] by {
            if i < s.len() && j < s.len() {
            } else if i < s.len() {
                assert(s.contains(s[i]));
            } else {
                assert(s.contains(s[j]));
            }
        }
    }
}

/// Interning is content-addressed: after `v1` is interned into a table of
/// distinct values, interning `v2` returns the key of `v1` exactly when the
/// two values are equal.
pub proof fn lemma_intern_content_addressed(s: Seq<RowModel>, v1: RowModel, v2: RowModel)
    requires
        s.no_duplicates(),
    ensures
        (intern_key(interned(s, v1), v2) == intern_key(s, v1)) <==> (v1 == v2),
{
    lemma_interned_key(s, v1);
    let s1 = interned(s, v1);
    let k1 = intern_key(s, v1);
    lemma_interned_key(s1, v2);
    let k2 = intern_key(s1, v2);
    if v1 == v2 {
        assert(s1.contains(v2));
        let i = s1.index_of(v2);
        assert(0 <= i < s1.len() && s1[i] == v2);
        assert(s1[k1] == v2);
    }
    if k1 == k2 {
        assert(interned(s1, v2)[k1] == s1[k1]);
    }
}

proof fn lemma_intern_all_distinct(vs: Seq<RowModel>)
    requires
        vs.no_duplicates(),
    ensures
        intern_all(Seq::empty(), vs) == vs,
    decreases vs.len(),
{
    if vs.len() > 0 {
        let d = vs.drop_last();
        assert(d.no_duplicates());
        lemma_intern_all_distinct(d);
        assert(!d.contains(vs.last())) by {
            if d.contains(vs.last()) {
                let i = choose|i: int| 0 <= i < d.len() && d[i] == vs.last();
                assert(vs[i] == vs[vs.len() - 1]);
            }
        }
        assert(d.push(vs.last()) =~= vs);
    }
}

proof fn lemma_intern_key_distinct(vs: Seq<RowModel>, i: int)
    requires
        vs.no_duplicates(),
        0 <= i < vs.len(),
    ensures
        intern_key(intern_all(Seq::empty(), vs.take(i)), vs[i]) == i,
{
    let p = vs.take(i);
    assert(p.no_duplicates());
    lemma_intern_all_distinct(p);
    assert(!p.contains(vs[i])) by {
        if p.contains(vs[i]) {
            let j = choose|j: int| 0 <= j < p.len() && p[j] == vs[i];
            assert(vs[j] == vs[i]);
        }
    }
}

/// Translating a row of a well-formed source with the counters of an
/// empty store and identity remaps for its key columns changes nothing.
proof fn lemma_translate_identity(
    schema: DatabaseSchema,
    b: TablesModel,
    remaps: Seq<Seq<usize>>,
    cols: Seq<ColumnKind>,
    row: RowModel,
)
    requires
        model_wf(schema, b),
        row_conforms(row, cols, b.counters, b.interning),
        forall|c: int|
            0 <= c < cols.len() ==> match #[trigger] cols[c] {
                ColumnKind::Incremental { kind, .. } => kind < schema.spec_ids().len(),
                ColumnKind::Interned(j) => j < schema.spec_tables().len() && forall|i: int|
                    0 <= i < b.interning[j as int].len() ==> #[trigger] remaps[j as int][i] == i,
                _ => true,
            },
    ensures
        translate_row(schema, empty_model(schema).counters, remaps, cols, row) == row,
{
    let base = empty_model(schema).counters;
    assert forall|c: int| 0 <= c < row.len() implies translate_cell(schema, base, remaps, cols[c], row[c])
        == row[c] by {
        assert(cell_conforms(row[c], cols[c], b.counters, b.interning));
        match cols[c] {
            ColumnKind::Incremental { kind, .. } => {
                match row[c] {
                    CellModel::Int(v) => {
                        assert(shifted(schema, base, kind as int, v) == v);
                    },
                    CellModel::Text(_) => {},
                }
            },
            ColumnKind::Interned(j) => {
                match row[c] {
                    CellModel::Int(v) => {
                        assert(remaps[j as int][v as int] == v);
                    },
                    CellModel::Text(_) => {},
                }
            },
            _ => {},
        }
    }
    assert(translate_row(schema, base, remaps, cols, row) =~= row);
}

/// Merging a store into an empty one yields that store again, with every
/// key remapped to itself: the merge records exactly the facts that direct
/// extraction recorded.
pub proof fn lemma_merge_into_empty(
    schema: DatabaseSchema,
    other: TablesModel,
    remaps: Seq<Seq<usize>>,
    m: TablesModel,
)
    requires
        model_wf(schema, other),
        merged(schema, empty_model(schema), other, remaps, m),
    ensures
        m.relations == other.relations,
        m.interning == other.interning,
        m.counters == other.counters,
        forall|t: int, i: int|
            0 <= t < other.interning.len() && 0 <= i < other.interning[t].len()
                ==> #[trigger] remaps[t][i] == i,
{
    let e = empty_model(schema);
    let order = schema.spec_order();
    let nt = schema.spec_tables().len();
    lemma_prefix_identity(schema, other, remaps, m, order.len() as int);
    assert forall|t: int| 0 <= t < nt implies m.interning[t] == other.interning[t] && forall|i: int|
        0 <= i < other.interning[t].len() ==> #[trigger] remaps[t][i] == i by {
        schema.lemma_len_bounds();
        let tu = t as usize;
        assert(tu as int == t);
        assert(order.contains(tu));
        let q = choose|q: int| 0 <= q < order.len() && order[q] == tu;
        assert(order[q] as int == t);
    }
    assert(m.interning =~= other.interning);
    assert forall|r: int| 0 <= r < other.relations.len() implies m.relations[r] == other.relations[r] by {
        let cols = schema.relation_columns(r);
        let tf = translated_facts(schema, e.counters, remaps, r, other.relations[r]);
        assert forall|i: int| 0 <= i < tf.len() implies tf[i] == other.relations[r][i] by {
            assert(row_conforms(other.relations[r][i], cols, other.counters, other.interning));
            assert forall|c: int| 0 <= c < cols.len() implies match #[trigger] cols[c] {
                ColumnKind::Incremental { kind, .. } => kind < schema.spec_ids().len(),
                ColumnKind::Interned(j) => j < schema.spec_tables().len() && forall|ii: int|
                    0 <= ii < other.interning[j as int].len() ==> #[trigger] remaps[j as int][ii] == ii,
                _ => true,
            } by {
                assert(crate::schema::relation_column_valid(cols[c], schema.spec_ids().len(), nt));
            }
            lemma_translate_identity(schema, other, remaps, cols, other.relations[r][i]);
        }
        assert(tf =~= other.relations[r]);
        assert(e.relations[r] + tf =~= tf);
        assert(m.relations[r] == e.relations[r] + tf);
    }
    assert(m.relations =~= other.relations);
    assert(m.counters =~= other.counters);
}

/// The tables at the first `p` positions of the schema's order come back
/// unchanged, under identity remaps, from a merge into an empty store.
proof fn lemma_prefix_identity(
    schema: DatabaseSchema,
    other: TablesModel,
    remaps: Seq<Seq<usize>>,
    m: TablesModel,
    p: int,
)
    requires
        model_wf(schema, other),
        merged(schema, empty_model(schema), other, remaps, m),
        0 <= p <= schema.spec_order().len(),
    ensures
        forall|q: int|
            0 <= q < p ==> {
                let t = #[trigger] schema.spec_order()[q] as int;
                &&& m.interning[t] == other.interning[t]
                &&& forall|i: int| 0 <= i < other.interning[t].len() ==> #[trigger] remaps[t][i] == i
            },
    decreases p,
{
    if p > 0 {
        lemma_prefix_identity(schema, other, remaps, m, p - 1);
        let e = empty_model(schema);
        let order = schema.spec_order();
        let nt = schema.spec_tables().len();
        let t = order[p - 1] as int;
        let cols = schema.table_columns(t);
        assert(crate::merge::table_merged(schema, e, other, remaps, m, t));
        let tv = translated_values(schema, e.counters, remaps, t, other.interning[t]);
        assert forall|i: int| 0 <= i < tv.len() implies tv[i] == other.interning[t][i] by {
            assert(row_conforms(other.interning[t][i], cols, other.counters, other.interning));
            assert forall|c: int| 0 <= c < cols.len() implies match #[trigger] cols[c] {
                ColumnKind::Incremental { kind, .. } => kind < schema.spec_ids().len(),
                ColumnKind::Interned(j) => j < schema.spec_tables().len() && forall|ii: int|
                    0 <= ii < other.interning[j as int].len() ==> #[trigger] remaps[j as int][ii] == ii,
                _ => true,
            } by {
                assert(crate::schema::table_column_valid(cols[c], nt));
                match cols[c] {
                    ColumnKind::Interned(j) => {
                        assert(depends_on(schema.spec_tables(), t, j));
                        let pre = order.subrange(0, p - 1);
                        assert(pre.contains(j));
                        let q = choose|q: int| 0 <= q < pre.len() && pre[q] == j;
                        assert(order[q] == j);
                    },
                    _ => {},
                }
            }
            lemma_translate_identity(schema, other, remaps, cols, other.interning[t][i]);
        }
        assert(tv =~= other.interning[t]);
        assert(e.interning[t] == Seq::<RowModel>::empty());
        lemma_intern_all_distinct(other.interning[t]);
        assert forall|i: int| 0 <= i < other.interning[t].len() implies #[trigger] remaps[t][i] == i by {
            lemma_intern_key_distinct(other.interning[t], i);
        }
    }
}

/// A merge never gives an identifier that the source issued the value of
/// an identifier of the same kind that the destination already held: the
/// destination's lie below its old counter, the source's land at or above
/// it. Reserved constants, which are meant to be shared, are excepted.
pub proof fn lemma_merge_collision_free(
    schema: DatabaseSchema,
    a: TablesModel,
    b: TablesModel,
    remaps: Seq<Seq<usize>>,
    m: TablesModel,
    r1: int,
    i1: int,
    c1: int,
    r2: int,
    j2: int,
    c2: int,
    k: usize,
    v: u64,
)
    requires
        model_wf(schema, a),
        model_wf(schema, b),
        merged(schema, a, b, remaps, m),
        0 <= r1 < a.relations.len(),
        0 <= i1 < a.relations[r1].len(),
        0 <= c1 < schema.relation_columns(r1).len(),
        schema.relation_columns(r1)[c1] matches ColumnKind::Incremental { kind, .. } && kind == k,
        0 <= r2 < b.relations.len(),
        0 <= j2 < b.relations[r2].len(),
        0 <= c2 < schema.relation_columns(r2).len(),
        schema.relation_columns(r2)[c2] matches ColumnKind::Incremental { kind, .. } && kind == k,
        b.relations[r2][j2][c2] == CellModel::Int(v),
        v >= schema.num_constants(k as int),
        !crate::merge::kind_overflows(schema, a.counters, b.counters, k as int),
    ensures
        m.relations[r1][i1][c1] != m.relations[r2][a.relations[r2].len() + j2][c2],
{
    let cols1 = schema.relation_columns(r1);
    let cols2 = schema.relation_columns(r2);
    assert(row_conforms(a.relations[r1][i1], cols1, a.counters, a.interning));
    assert(cell_conforms(a.relations[r1][i1][c1], cols1[c1], a.counters, a.interning));
    assert(m.relations[r1][i1] == a.relations[r1][i1]);
    let tf = translated_facts(schema, a.counters, remaps, r2, b.relations[r2]);
    assert(m.relations[r2][a.relations[r2].len() + j2] == tf[j2]);
    assert(row_conforms(b.relations[r2][j2], cols2, b.counters, b.interning));
    assert(tf[j2][c2] == CellModel::Int(shifted(schema, a.counters, k as int, v)));
    assert(crate::schema::relation_column_valid(cols2[c2], schema.spec_ids().len(), schema.spec_tables().len()));
    assert(schema.max_of(k as int) <= u64::MAX) by {
        assert(crate::schema::width_max(schema.spec_ids()[k as int].width) <= u64::MAX);
    }
    assert(v < b.counters[k as int]);
    assert(a.counters[k as int] + b.counters[k as int] - schema.num_constants(k as int) == m.counters[k as int]) by {
        assert(m.counters[k as int] == (a.counters[k as int] + b.counters[k as int] - schema.num_constants(k as int)) as u64);
        assert(schema.num_constants(k as int) <= b.counters[k as int]);
        assert(m.counters.len() == a.counters.len());
    }
}

/// A merge renumbers the identifiers that the source issued one-to-one:
/// two such identifiers of a kind stay distinct.
pub proof fn lemma_shift_injective(schema: DatabaseSchema, base: Seq<u64>, k: int, v1: u64, v2: u64)
    requires
        0 <= k < base.len(),
        schema.num_constants(k) <= base[k],
        v1 != v2,
        v1 + base[k] - schema.num_constants(k) <= u64::MAX,
        v2 + base[k] - schema.num_constants(k) <= u64::MAX,
    ensures
        shifted(schema, base, k, v1) != shifted(schema, base, k, v2),
{
}

/// A merge leaves reserved constants where they are: a constant recorded
/// in a fact of the source keeps its value in the merged store.
pub proof fn lemma_constants_fixed(
    schema: DatabaseSchema,
    base: Seq<u64>,
    remaps: Seq<Seq<usize>>,
    k: usize,
    auto: bool,
    v: u64,
)
    requires
        v < schema.num_constants(k as int),
    ensures
        translate_cell(
            schema,
            base,
            remaps,
            ColumnKind::Incremental { kind: k, auto },
            CellModel::Int(v),
        ) == CellModel::Int(v),
{
}

} // verus!
