//! The merge engine: folds an independently numbered store into another.
use crate::cell::{row_model, Cell, CellModel, RowModel};
use crate::interning::{intern_key, interned};
use crate::schema::{depends_on, ColumnKind, DatabaseSchema};
use crate::tables::{
    cell_conforms, lemma_relation_columns_bounded, lemma_table_columns_bounded, model_wf,
    row_conforms, OverflowError, Tables, TablesModel,
};
use vstd::prelude::*;

verus! {

/// The model of the key remaps that a merge returns: for each interning
/// table, the new key of each of the merged store's old keys.
pub open spec fn remaps_model(r: Seq<Vec<usize>>) -> Seq<Seq<usize>> {
    r.map_values(|v: Vec<usize>| v@)
}

/// Where an incremental identifier of kind `k` lands: reserved constants
/// stay, other values continue after the destination's issued range.
pub open spec fn shifted(schema: DatabaseSchema, base: Seq<u64>, k: int, v: u64) -> u64 {
    if v < schema.num_constants(k) {
        v
    } else {
        (v + base[k] - schema.num_constants(k)) as u64
    }
}

/// The cell of a column after a merge into a store whose counters were
/// `base`, with interning keys translated by `remaps`.
pub open spec fn translate_cell(
    schema: DatabaseSchema,
    base: Seq<u64>,
    remaps: Seq<Seq<usize>>,
    kind: ColumnKind,
    c: CellModel,
) -> CellModel {
    match kind {
        ColumnKind::Incremental { kind: k, .. } => match c {
            CellModel::Int(v) => CellModel::Int(shifted(schema, base, k as int, v)),
            CellModel::Text(_) => c,
        },
        ColumnKind::Interned(j) => match c {
            CellModel::Int(v) => CellModel::Int(remaps[j as int][v as int] as u64),
            CellModel::Text(_) => c,
        },
        _ => c,
    }
}

/// A row after a merge, column by column.
pub open spec fn translate_row(
    schema: DatabaseSchema,
    base: Seq<u64>,
    remaps: Seq<Seq<usize>>,
    cols: Seq<ColumnKind>,
    row: RowModel,
) -> RowModel {
    Seq::new(row.len(), |c: int| translate_cell(schema, base, remaps, cols[c], row[c]))
}

/// The values of interning table `t` of the source, translated.
pub open spec fn translated_values(
    schema: DatabaseSchema,
    base: Seq<u64>,
    remaps: Seq<Seq<usize>>,
    t: int,
    values: Seq<RowModel>,
) -> Seq<RowModel> {
    Seq::new(
        values.len(),
        |i: int| translate_row(schema, base, remaps, schema.table_columns(t), values[i]),
    )
}

/// The facts of relation `r` of the source, translated.
pub open spec fn translated_facts(
    schema: DatabaseSchema,
    base: Seq<u64>,
    remaps: Seq<Seq<usize>>,
    r: int,
    facts: Seq<RowModel>,
) -> Seq<RowModel> {
    Seq::new(
        facts.len(),
        |i: int| translate_row(schema, base, remaps, schema.relation_columns(r), facts[i]),
    )
}

/// The table that results from interning `vs` into `s` one after another.
pub open spec fn intern_all(s: Seq<RowModel>, vs: Seq<RowModel>) -> Seq<RowModel>
    decreases vs.len(),
{
    if vs.len() == 0 {
        s
    } else {
        interned(intern_all(s, vs.drop_last()), vs.last())
    }
}

/// The counter of kind `k` would pass its largest value in a merge.
pub open spec fn kind_overflows(schema: DatabaseSchema, a: Seq<u64>, b: Seq<u64>, k: int) -> bool {
    a[k] + b[k] - schema.num_constants(k) > schema.max_of(k)
}

/// Interning table `t` of `m` holds the translated values of table `t` of
/// `b` interned, in key order, into table `t` of `a`, and `remaps[t]` maps
/// each key of `b` to the key of its translated value.
pub open spec fn table_merged(
    schema: DatabaseSchema,
    a: TablesModel,
    b: TablesModel,
    remaps: Seq<Seq<usize>>,
    m: TablesModel,
    t: int,
) -> bool {
    let tv = translated_values(schema, a.counters, remaps, t, b.interning[t]);
    &&& remaps[t].len() == b.interning[t].len()
    &&& m.interning[t] == intern_all(a.interning[t], tv)
    &&& forall|i: int|
        0 <= i < tv.len() ==> #[trigger] remaps[t][i] == intern_key(
            intern_all(a.interning[t], tv.take(i)),
            tv[i],
        )
    &&& forall|i: int|
        0 <= i < tv.len() ==> #[trigger] remaps[t][i] < m.interning[t].len()
            && m.interning[t][remaps[t][i] as int] == tv[i]
}

/// `m` is the result of merging `b` into `a`, with key remaps `remaps`.
pub open spec fn merged(
    schema: DatabaseSchema,
    a: TablesModel,
    b: TablesModel,
    remaps: Seq<Seq<usize>>,
    m: TablesModel,
) -> bool {
    &&& m.counters == Seq::new(
        a.counters.len(),
        |k: int| (a.counters[k] + b.counters[k] - schema.num_constants(k)) as u64,
    )
    &&& remaps.len() == a.interning.len()
    &&& m.interning.len() == a.interning.len()
    &&& forall|t: int| 0 <= t < a.interning.len() ==> #[trigger] table_merged(schema, a, b, remaps, m, t)
    &&& m.relations.len() == a.relations.len()
    &&& forall|r: int|
        0 <= r < a.relations.len() ==> #[trigger] m.relations[r] == a.relations[r]
            + translated_facts(schema, a.counters, remaps, r, b.relations[r])
}

proof fn lemma_intern_all_step(s: Seq<RowModel>, vs: Seq<RowModel>, i: int)
    requires
        0 <= i < vs.len(),
    ensures
        intern_all(s, vs.take(i + 1)) == interned(intern_all(s, vs.take(i)), vs[i]),
{
    assert(vs.take(i + 1).drop_last() =~= vs.take(i));
}

/// The bounds that translating a row of `b` for a merge into `a` needs.
proof fn lemma_translate_bounds(schema: DatabaseSchema, a: TablesModel, b: TablesModel)
    requires
        model_wf(schema, a),
        model_wf(schema, b),
        forall|k: int| 0 <= k < a.counters.len() ==> !kind_overflows(schema, a.counters, b.counters, k),
    ensures
        forall|k: int|
            0 <= k < a.counters.len() ==> schema.num_constants(k) <= #[trigger] a.counters[k]
                && schema.num_constants(k) <= b.counters[k] && a.counters[k] + b.counters[k]
                - schema.num_constants(k) <= schema.max_of(k),
{
    assert forall|k: int| 0 <= k < a.counters.len() implies schema.num_constants(k) <= #[trigger] a.counters[k]
        && schema.num_constants(k) <= b.counters[k] && a.counters[k] + b.counters[k]
        - schema.num_constants(k) <= schema.max_of(k) by {
        assert(!kind_overflows(schema, a.counters, b.counters, k));
        assert(b.counters[k] >= schema.num_constants(k));
    }
}

/// Translation reads only the remaps of the tables that the columns name.
proof fn lemma_translate_row_frame(
    schema: DatabaseSchema,
    base: Seq<u64>,
    r1: Seq<Seq<usize>>,
    r2: Seq<Seq<usize>>,
    cols: Seq<ColumnKind>,
    row: RowModel,
)
    requires
        row.len() == cols.len(),
        forall|c: int|
            0 <= c < cols.len() ==> match #[trigger] cols[c] {
                ColumnKind::Interned(j) => r1[j as int] == r2[j as int],
                _ => true,
            },
    ensures
        translate_row(schema, base, r1, cols, row) == translate_row(schema, base, r2, cols, row),
{
    assert forall|c: int| 0 <= c < row.len() implies translate_cell(schema, base, r1, cols[c], row[c])
        == translate_cell(schema, base, r2, cols[c], row[c]) by {
        match cols[c] {
            ColumnKind::Interned(j) => {
                assert(r1[j as int] == r2[j as int]);
            },
            _ => {},
        }
    }
    assert(translate_row(schema, base, r1, cols, row) =~= translate_row(
        schema,
        base,
        r2,
        cols,
        row,
    ));
}

/// Translates one row of the source.
fn translate(
    schema: &DatabaseSchema,
    base: &Vec<u64>,
    remaps: &Vec<Vec<usize>>,
    cols: &Vec<ColumnKind>,
    row: &Vec<Cell>,
    Ghost(src): Ghost<TablesModel>,
) -> (out: Vec<Cell>)
    requires
        schema.wf(),
        base@.len() == schema.spec_ids().len(),
        src.counters.len() == schema.spec_ids().len(),
        forall|k: int|
            0 <= k < base@.len() ==> schema.num_constants(k) <= #[trigger] base@[k] && schema.num_constants(k)
                <= src.counters[k] && base@[k] + src.counters[k] - schema.num_constants(k)
                <= schema.max_of(k),
        forall|c: int|
            0 <= c < cols@.len() ==> match #[trigger] cols@[c] {
                ColumnKind::Incremental { kind, .. } => kind < schema.spec_ids().len(),
                ColumnKind::Interned(j) => j < remaps@.len() && j < src.interning.len()
                    && remaps@[j as int]@.len() == src.interning[j as int].len(),
                _ => true,
            },
        row_conforms(row_model(*row), cols@, src.counters, src.interning),
    ensures
        row_model(out) == translate_row(
            *schema,
            base@,
            remaps_model(remaps@),
            cols@,
            row_model(*row),
        ),
{
    let ghost rm = remaps_model(remaps@);
    let mut out: Vec<Cell> = Vec::new();
    let mut c: usize = 0;
    while c < row.len()
        invariant
            schema.wf(),
            c <= row@.len(),
            row@.len() == cols@.len(),
            out@.len() == c,
            base@.len() == schema.spec_ids().len(),
            src.counters.len() == schema.spec_ids().len(),
            forall|k: int|
                0 <= k < base@.len() ==> schema.num_constants(k) <= #[trigger] base@[k]
                    && schema.num_constants(k) <= src.counters[k] && base@[k] + src.counters[k]
                    - schema.num_constants(k) <= schema.max_of(k),
            forall|cc: int|
                0 <= cc < cols@.len() ==> match #[trigger] cols@[cc] {
                    ColumnKind::Incremental { kind, .. } => kind < schema.spec_ids().len(),
                    ColumnKind::Interned(j) => j < remaps@.len() && j < src.interning.len()
                        && remaps@[j as int]@.len() == src.interning[j as int].len(),
                    _ => true,
                },
            row_conforms(row_model(*row), cols@, src.counters, src.interning),
            rm == remaps_model(remaps@),
            forall|cc: int|
                0 <= cc < c ==> (#[trigger] out@[cc])@ == translate_cell(
                    *schema,
                    base@,
                    rm,
                    cols@[cc],
                    row@[cc]@,
                ),
        decreases row@.len() - c,
    {
        assert(cell_conforms(row_model(*row)[c as int], cols@[c as int], src.counters, src.interning));
        assert(row_model(*row)[c as int] == row@[c as int]@);
        let cell = match cols[c] {
            ColumnKind::Incremental { kind, .. } => match &row[c] {
                Cell::Int(v) => {
                    let nc = schema.id_kind(kind).constants.len() as u64;
                    assert(nc == schema.num_constants(kind as int));
                    if *v < nc {
                        Cell::Int(*v)
                    } else {
                        assert(*v < src.counters[kind as int]);
                        assert(base@[kind as int] + src.counters[kind as int] - nc <= schema.max_of(
                            kind as int,
                        ));
                        assert(schema.max_of(kind as int) <= u64::MAX) by {
                            assert(crate::schema::width_max(schema.spec_ids()[kind as int].width)
                                <= u64::MAX);
                        }
                        Cell::Int(*v - nc + base[kind])
                    }
                },
                Cell::Text(s) => Cell::Text(s.clone()),
            },
            ColumnKind::Interned(j) => match &row[c] {
                Cell::Int(v) => {
                    assert(*v < src.interning[j as int].len());
                    assert(*v < remaps@[j as int]@.len());
                    assert(*v < remaps[j as int].len());
                    let vi = *v as usize;
                    assert(vi as int == *v as int);
                    let key = remaps[j][vi];
                    assert(rm[j as int] == remaps@[j as int]@);
                    assert(key == rm[j as int][*v as int]);
                    Cell::Int(key as u64)
                },
                Cell::Text(s) => Cell::Text(s.clone()),
            },
            _ => row[c].duplicate(),
        };
        out.push(cell);
        c = c + 1;
    }
    assert(row_model(out) =~= translate_row(*schema, base@, rm, cols@, row_model(*row)));
    out
}

impl Tables {
    /// Folds `other`, a store built independently under the same schema,
    /// into this one.
    ///
    /// Interning tables are re-interned in the schema's dependency order,
    /// each value's key columns translated through the remaps built
    /// before it; then every fact is appended with incremental identifiers
    /// shifted past this store's issued range (reserved constants stay)
    /// and keys remapped; each counter grows by the number of identifiers
    /// that `other` issued. Returns the remaps, or fails, leaving this
    /// store unchanged, when a counter would pass its largest value.
    pub fn merge(&mut self, schema: &DatabaseSchema, other: Tables) -> (r: Result<
        Vec<Vec<usize>>,
        OverflowError,
    >)
        requires
            old(self).wf(*schema),
            other.wf(*schema),
        ensures
            match r {
                Ok(remaps) => {
                    &&& final(self).wf(*schema)
                    &&& forall|k: int|
                        0 <= k < schema.spec_ids().len() ==> !kind_overflows(
                            *schema,
                            old(self)@.counters,
                            other@.counters,
                            k,
                        )
                    &&& merged(*schema, old(self)@, other@, remaps_model(remaps@), final(self)@)
                },
                Err(e) => {
                    &&& final(self)@ == old(self)@
                    &&& e.kind < schema.spec_ids().len()
                    &&& kind_overflows(*schema, old(self)@.counters, other@.counters, e.kind as int)
                },
            },
    {
        let nk = schema.num_kinds();
        let mut k: usize = 0;
        while k < nk
            invariant
                self.wf(*schema),
                other.wf(*schema),
                self@ == old(self)@,
                nk == schema.spec_ids().len(),
                k <= nk,
                forall|kk: int|
                    0 <= kk < k ==> !kind_overflows(*schema, self@.counters, other@.counters, kk),
            decreases nk - k,
        {
            let nc = schema.id_kind(k).constants.len() as u64;
            let max = schema.id_kind(k).width.max_value();
            if other.counter(k) - nc > max - self.counter(k) {
                return Err(OverflowError { kind: k });
            }
            k = k + 1;
        }
        let ghost a = self@;
        let ghost b = other@;
        let mut base: Vec<u64> = Vec::new();
        let mut k: usize = 0;
        while k < nk
            invariant
                self.wf(*schema),
                self@ == a,
                nk == schema.spec_ids().len(),
                k <= nk,
                base@ == a.counters.take(k as int),
            decreases nk - k,
        {
            base.push(self.counter(k));
            assert(base@ =~= a.counters.take(k + 1));
            k = k + 1;
        }
        assert(base@ =~= a.counters);
        let mut k: usize = 0;
        while k < nk
            invariant
                self.wf(*schema),
                other.wf(*schema),
                b == other@,
                a.counters.len() == nk,
                nk == schema.spec_ids().len(),
                k <= nk,
                self@.relations == a.relations,
                self@.interning == a.interning,
                forall|kk: int|
                    0 <= kk < nk ==> !kind_overflows(*schema, a.counters, b.counters, kk),
                forall|kk: int|
                    0 <= kk < k ==> #[trigger] self@.counters[kk] == (a.counters[kk] + b.counters[kk]
                        - schema.num_constants(kk)) as u64,
                forall|kk: int| k <= kk < nk ==> #[trigger] self@.counters[kk] == a.counters[kk],
            decreases nk - k,
        {
            let nc = schema.id_kind(k).constants.len() as u64;
            let ghost before = self@.counters;
            proof {
                assert(!kind_overflows(*schema, a.counters, b.counters, k as int));
                assert(schema.num_constants(k as int) <= b.counters[k as int]);
            }
            self.advance_counter(schema, k, other.counter(k) - nc);
            proof {
                assert(self@.counters == before.update(
                    k as int,
                    (a.counters[k as int] + b.counters[k as int] - schema.num_constants(k as int)) as u64,
                ));
            }
            k = k + 1;
        }
        assert(self@.counters =~= Seq::new(
            a.counters.len(),
            |k: int| (a.counters[k] + b.counters[k] - schema.num_constants(k)) as u64,
        ));
        let remaps = self.merge_interning(schema, &other, &base, Ghost(a));
        let ghost mid = self@;
        self.merge_relations(schema, &other, &base, &remaps, Ghost(a));
        proof {
            let rm = remaps_model(remaps@);
            assert forall|t: int| 0 <= t < a.interning.len() implies #[trigger] table_merged(
                *schema,
                a,
                b,
                rm,
                self@,
                t,
            ) by {
                assert(table_merged(*schema, a, b, rm, mid, t));
                assert(self@.interning[t] == mid.interning[t]);
            }
        }
        Ok(remaps)
    }
}

/// A table that `order[q]` depends on is not `order[p]` for `q <= p`.
proof fn lemma_order_frame(schema: DatabaseSchema, q: int, p: int)
    requires
        schema.wf(),
        0 <= q <= p < schema.spec_order().len(),
    ensures
        forall|c: int|
            0 <= c < schema.table_columns(schema.spec_order()[q] as int).len() ==> #[trigger] schema.table_columns(
                schema.spec_order()[q] as int,
            )[c] != ColumnKind::Interned(schema.spec_order()[p]),
{
    let order = schema.spec_order();
    let t = order[q] as int;
    assert forall|c: int| 0 <= c < schema.table_columns(t).len() implies #[trigger] schema.table_columns(
        t,
    )[c] != ColumnKind::Interned(order[p]) by {
        if schema.table_columns(t)[c] == ColumnKind::Interned(order[p]) {
            assert(depends_on(schema.spec_tables(), t, order[p]));
            assert(order.subrange(0, q).contains(order[p]));
            let qq = choose|qq: int| 0 <= qq < q && order.subrange(0, q)[qq] == order[p];
            assert(order[qq] == order[p]);
        }
    }
}

impl Tables {
    fn merge_table(
        &mut self,
        schema: &DatabaseSchema,
        other: &Tables,
        base: &Vec<u64>,
        remaps: &Vec<Vec<usize>>,
        t: usize,
        Ghost(a): Ghost<TablesModel>,
        Ghost(p): Ghost<int>,
    ) -> (keys: Vec<usize>)
        requires
            old(self).wf(*schema),
            other.wf(*schema),
            model_wf(*schema, a),
            base@ == a.counters,
            forall|k: int|
                0 <= k < a.counters.len() ==> !kind_overflows(*schema, a.counters, other@.counters, k),
            0 <= p < schema.spec_order().len(),
            t == schema.spec_order()[p],
            remaps@.len() == schema.spec_tables().len(),
            forall|q: int|
                0 <= q < p ==> #[trigger] table_merged(
                    *schema,
                    a,
                    other@,
                    remaps_model(remaps@),
                    old(self)@,
                    schema.spec_order()[q] as int,
                ),
            old(self)@.interning[t as int] == a.interning[t as int],
        ensures
            final(self).wf(*schema),
            final(self)@.relations == old(self)@.relations,
            final(self)@.counters == old(self)@.counters,
            forall|tt: int|
                0 <= tt < schema.spec_tables().len() && tt != t ==> #[trigger] final(self)@.interning[tt]
                    == old(self)@.interning[tt],
            ({
                let tv = translated_values(
                    *schema,
                    a.counters,
                    remaps_model(remaps@),
                    t as int,
                    other@.interning[t as int],
                );
                &&& keys@.len() == tv.len()
                &&& final(self)@.interning[t as int] == intern_all(a.interning[t as int], tv)
                &&& forall|i: int|
                    0 <= i < tv.len() ==> #[trigger] keys@[i] == intern_key(
                        intern_all(a.interning[t as int], tv.take(i)),
                        tv[i],
                    )
                &&& forall|i: int|
                    0 <= i < tv.len() ==> #[trigger] keys@[i] < final(self)@.interning[t as int].len()
                        && final(self)@.interning[t as int][keys@[i] as int] == tv[i]
            }),
    {
        let ghost b = other@;
        let ghost rm = remaps_model(remaps@);
        let ghost tv = translated_values(*schema, a.counters, rm, t as int, b.interning[t as int]);
        let ghost start = self@;
        let table = other.interning_table(t);
        let cols = &schema.table(t).columns;
        let n = table.len();
        proof {
            lemma_table_columns_bounded(*schema, t as int);
            assert(intern_all(a.interning[t as int], tv.take(0)) == a.interning[t as int]) by {
                assert(tv.take(0) =~= Seq::<RowModel>::empty());
            }
            // Every table that `t` refers to is merged already.
            assert forall|c: int| 0 <= c < cols@.len() implies match #[trigger] cols@[c] {
                ColumnKind::Interned(j) => exists|q: int| 0 <= q < p && schema.spec_order()[q] == j,
                _ => true,
            } by {
                match cols@[c] {
                    ColumnKind::Interned(j) => {
                        assert(depends_on(schema.spec_tables(), t as int, j));
                        let order = schema.spec_order();
                        assert(order.subrange(0, p).contains(j));
                        let q = choose|q: int| 0 <= q < p && order.subrange(0, p)[q] == j;
                        assert(order[q] == j);
                    },
                    _ => {},
                }
            }
        }
        proof {
            lemma_translate_bounds(*schema, a, b);
        }
        let mut keys: Vec<usize> = Vec::new();
        let mut i: usize = 0;
        while i < n
            invariant
                self.wf(*schema),
                other.wf(*schema),
                b == other@,
                model_wf(*schema, a),
                base@ == a.counters,
                forall|k: int|
                    0 <= k < a.counters.len() ==> !kind_overflows(*schema, a.counters, b.counters, k),
                0 <= p < schema.spec_order().len(),
                t == schema.spec_order()[p],
                t < schema.spec_tables().len(),
                remaps@.len() == schema.spec_tables().len(),
                rm == remaps_model(remaps@),
                tv == translated_values(*schema, a.counters, rm, t as int, b.interning[t as int]),
                table@ == b.interning[t as int],
                n == tv.len(),
                *cols == schema.spec_tables()[t as int].columns,
                forall|c: int|
                    0 <= c < cols@.len() ==> match #[trigger] cols@[c] {
                        ColumnKind::Interned(j) => j < schema.spec_tables().len() && exists|q: int|
                            0 <= q < p && schema.spec_order()[q] == j,
                        ColumnKind::Incremental { .. } => false,
                        _ => true,
                    },
                forall|q: int|
                    0 <= q < p ==> #[trigger] table_merged(
                        *schema,
                        a,
                        b,
                        rm,
                        start,
                        schema.spec_order()[q] as int,
                    ),
                self@.relations == start.relations,
                self@.counters == start.counters,
                forall|tt: int|
                    0 <= tt < schema.spec_tables().len() && tt != t ==> #[trigger] self@.interning[tt]
                        == start.interning[tt],
                forall|k: int|
                    0 <= k < base@.len() ==> schema.num_constants(k) <= #[trigger] base@[k]
                        && schema.num_constants(k) <= b.counters[k] && base@[k] + b.counters[k]
                        - schema.num_constants(k) <= schema.max_of(k),
                base@.len() == schema.spec_ids().len(),
                b.counters.len() == schema.spec_ids().len(),
                i <= n,
                keys@.len() == i,
                self@.interning[t as int] == intern_all(a.interning[t as int], tv.take(i as int)),
                forall|ii: int|
                    0 <= ii < i ==> #[trigger] keys@[ii] == intern_key(
                        intern_all(a.interning[t as int], tv.take(ii)),
                        tv[ii],
                    ),
                forall|ii: int|
                    0 <= ii < i ==> #[trigger] keys@[ii] < self@.interning[t as int].len()
                        && self@.interning[t as int][keys@[ii] as int] == tv[ii],
            decreases n - i,
        {
            let row = table.get(i);
            proof {
                assert(row_conforms(b.interning[t as int][i as int], schema.table_columns(t as int), b.counters, b.interning));
                assert forall|c: int| 0 <= c < cols@.len() implies match #[trigger] cols@[c] {
                    ColumnKind::Incremental { kind, .. } => kind < schema.spec_ids().len(),
                    ColumnKind::Interned(j) => j < remaps@.len() && j < b.interning.len()
                        && remaps@[j as int]@.len() == b.interning[j as int].len(),
                    _ => true,
                } by {
                    match cols@[c] {
                        ColumnKind::Interned(j) => {
                            let q = choose|q: int| 0 <= q < p && schema.spec_order()[q] == j;
                            assert(table_merged(*schema, a, b, rm, start, schema.spec_order()[q] as int));
                            assert(rm[j as int] == remaps@[j as int]@);
                        },
                        _ => {},
                    }
                }
            }
            let tr = translate(schema, base, remaps, cols, row, Ghost(b));
            proof {
                assert(row_model(tr) == tv[i as int]);
                assert forall|c: int| 0 <= c < tv[i as int].len() implies cell_conforms(
                    #[trigger] tv[i as int][c],
                    schema.table_columns(t as int)[c],
                    self@.counters,
                    self@.interning,
                ) by {
                    let orig = b.interning[t as int][i as int];
                    assert(cell_conforms(orig[c], cols@[c], b.counters, b.interning));
                    match cols@[c] {
                        ColumnKind::Interned(j) => {
                            let q = choose|q: int| 0 <= q < p && schema.spec_order()[q] == j;
                            assert(table_merged(*schema, a, b, rm, start, schema.spec_order()[q] as int));
                            let tvj = translated_values(*schema, a.counters, rm, j as int, b.interning[j as int]);
                            match orig[c] {
                                CellModel::Int(v) => {
                                    assert(rm[j as int][v as int] < start.interning[j as int].len());
                                    assert(j != t) by {
                                        assert(schema.spec_order().no_duplicates());
                                    }
                                },
                                CellModel::Text(_) => {},
                            }
                        },
                        _ => {},
                    }
                }
            }
            let ghost prev = self@.interning[t as int];
            let key = self.intern(schema, t, tr);
            keys.push(key);
            proof {
                lemma_intern_all_step(a.interning[t as int], tv, i as int);
                assert forall|ii: int| 0 <= ii < i + 1 implies #[trigger] keys@[ii] < self@.interning[t as int].len()
                    && self@.interning[t as int][keys@[ii] as int] == tv[ii] by {
                    if ii < i {
                        assert(keys@[ii] < prev.len());
                        assert(self@.interning[t as int][keys@[ii] as int] == prev[keys@[ii] as int]);
                    }
                }
            }
            i = i + 1;
        }
        assert(tv.take(n as int) =~= tv);
        keys
    }

    fn merge_relations(
        &mut self,
        schema: &DatabaseSchema,
        other: &Tables,
        base: &Vec<u64>,
        remaps: &Vec<Vec<usize>>,
        Ghost(a): Ghost<TablesModel>,
    )
        requires
            old(self).wf(*schema),
            other.wf(*schema),
            model_wf(*schema, a),
            base@ == a.counters,
            forall|k: int|
                0 <= k < a.counters.len() ==> !kind_overflows(*schema, a.counters, other@.counters, k),
            old(self)@.relations == a.relations,
            old(self)@.counters == Seq::new(
                a.counters.len(),
                |k: int| (a.counters[k] + other@.counters[k] - schema.num_constants(k)) as u64,
            ),
            remaps@.len() == schema.spec_tables().len(),
            forall|t: int|
                0 <= t < schema.spec_tables().len() ==> #[trigger] table_merged(
                    *schema,
                    a,
                    other@,
                    remaps_model(remaps@),
                    old(self)@,
                    t,
                ),
        ensures
            final(self).wf(*schema),
            final(self)@.interning == old(self)@.interning,
            final(self)@.counters == old(self)@.counters,
            forall|r: int|
                0 <= r < a.relations.len() ==> #[trigger] final(self)@.relations[r] == a.relations[r]
                    + translated_facts(*schema, a.counters, remaps_model(remaps@), r, other@.relations[r]),
    {
        let ghost b = other@;
        let ghost rm = remaps_model(remaps@);
        let ghost start = self@;
        proof {
            lemma_translate_bounds(*schema, a, b);
        }
        let nr = schema.num_relations();
        let mut r: usize = 0;
        while r < nr
            invariant
                self.wf(*schema),
                other.wf(*schema),
                b == other@,
                model_wf(*schema, a),
                base@ == a.counters,
                forall|k: int|
                    0 <= k < a.counters.len() ==> !kind_overflows(*schema, a.counters, b.counters, k),
                nr == schema.spec_relations().len(),
                r <= nr,
                remaps@.len() == schema.spec_tables().len(),
                rm == remaps_model(remaps@),
                forall|t: int|
                    0 <= t < schema.spec_tables().len() ==> #[trigger] table_merged(
                        *schema,
                        a,
                        b,
                        rm,
                        start,
                        t,
                    ),
                self@.interning == start.interning,
                self@.counters == start.counters,
                start.counters == Seq::new(
                    a.counters.len(),
                    |k: int| (a.counters[k] + b.counters[k] - schema.num_constants(k)) as u64,
                ),
                forall|rr: int|
                    0 <= rr < r ==> #[trigger] self@.relations[rr] == a.relations[rr]
                        + translated_facts(*schema, a.counters, rm, rr, b.relations[rr]),
                forall|rr: int| r <= rr < nr ==> #[trigger] self@.relations[rr] == a.relations[rr],
                forall|k: int|
                    0 <= k < base@.len() ==> schema.num_constants(k) <= #[trigger] base@[k]
                        && schema.num_constants(k) <= b.counters[k] && base@[k] + b.counters[k]
                        - schema.num_constants(k) <= schema.max_of(k),
                base@.len() == schema.spec_ids().len(),
                b.counters.len() == schema.spec_ids().len(),
            decreases nr - r,
        {
            let rel = other.relation(r);
            let cols = &schema.relation(r).columns;
            let n = rel.len();
            let ghost tf = translated_facts(*schema, a.counters, rm, r as int, b.relations[r as int]);
            proof {
                lemma_relation_columns_bounded(*schema, r as int);
                assert(a.relations[r as int] + tf.take(0) =~= a.relations[r as int]);
            }
            let mut i: usize = 0;
            while i < n
                invariant
                    self.wf(*schema),
                    other.wf(*schema),
                    b == other@,
                    model_wf(*schema, a),
                    base@ == a.counters,
                    forall|k: int|
                        0 <= k < a.counters.len() ==> !kind_overflows(*schema, a.counters, b.counters, k),
                    nr == schema.spec_relations().len(),
                    r < nr,
                    remaps@.len() == schema.spec_tables().len(),
                    rm == remaps_model(remaps@),
                    forall|t: int|
                        0 <= t < schema.spec_tables().len() ==> #[trigger] table_merged(
                            *schema,
                            a,
                            b,
                            rm,
                            start,
                            t,
                        ),
                    self@.interning == start.interning,
                    self@.counters == start.counters,
                    start.counters == Seq::new(
                        a.counters.len(),
                        |k: int| (a.counters[k] + b.counters[k] - schema.num_constants(k)) as u64,
                    ),
                    rel@ == b.relations[r as int],
                    *cols == schema.spec_relations()[r as int].columns,
                    forall|c: int|
                        0 <= c < cols@.len() ==> match #[trigger] cols@[c] {
                            ColumnKind::Incremental { kind, .. } => kind < schema.spec_ids().len(),
                            ColumnKind::Interned(j) => j < schema.spec_tables().len(),
                            _ => true,
                        },
                    tf == translated_facts(*schema, a.counters, rm, r as int, b.relations[r as int]),
                    n == tf.len(),
                    forall|k: int|
                        0 <= k < base@.len() ==> schema.num_constants(k) <= #[trigger] base@[k]
                            && schema.num_constants(k) <= b.counters[k] && base@[k] + b.counters[k]
                            - schema.num_constants(k) <= schema.max_of(k),
                    base@.len() == schema.spec_ids().len(),
                    b.counters.len() == schema.spec_ids().len(),
                    i <= n,
                    forall|rr: int|
                        0 <= rr < r ==> #[trigger] self@.relations[rr] == a.relations[rr]
                            + translated_facts(*schema, a.counters, rm, rr, b.relations[rr]),
                    forall|rr: int| r < rr < nr ==> #[trigger] self@.relations[rr] == a.relations[rr],
                    self@.relations[r as int] == a.relations[r as int] + tf.take(i as int),
                decreases n - i,
            {
                let row = rel.get(i);
                proof {
                    assert(row_conforms(b.relations[r as int][i as int], schema.relation_columns(r as int), b.counters, b.interning));
                    assert forall|c: int| 0 <= c < cols@.len() implies match #[trigger] cols@[c] {
                        ColumnKind::Incremental { kind, .. } => kind < schema.spec_ids().len(),
                        ColumnKind::Interned(j) => j < remaps@.len() && j < b.interning.len()
                            && remaps@[j as int]@.len() == b.interning[j as int].len(),
                        _ => true,
                    } by {
                        match cols@[c] {
                            ColumnKind::Interned(j) => {
                                assert(table_merged(*schema, a, b, rm, start, j as int));
                                assert(rm[j as int] == remaps@[j as int]@);
                            },
                            _ => {},
                        }
                    }
                }
                let tr = translate(schema, base, remaps, cols, row, Ghost(b));
                proof {
                    assert(row_model(tr) == tf[i as int]);
                    assert forall|c: int| 0 <= c < tf[i as int].len() implies cell_conforms(
                        #[trigger] tf[i as int][c],
                        schema.relation_columns(r as int)[c],
                        self@.counters,
                        self@.interning,
                    ) by {
                        let orig = b.relations[r as int][i as int];
                        assert(cell_conforms(orig[c], cols@[c], b.counters, b.interning));
                        match cols@[c] {
                            ColumnKind::Interned(j) => {
                                assert(table_merged(*schema, a, b, rm, start, j as int));
                            },
                            ColumnKind::Incremental { kind, .. } => {
                                let k = kind as int;
                                assert(self@.counters[k] == (a.counters[k] + b.counters[k]
                                    - schema.num_constants(k)) as u64);
                                assert(schema.num_constants(k) <= a.counters[k]);
                                assert(a.counters[k] + b.counters[k] - schema.num_constants(k)
                                    <= schema.max_of(k));
                                assert(schema.max_of(k) <= u64::MAX) by {
                                    assert(crate::schema::width_max(schema.spec_ids()[k].width)
                                        <= u64::MAX);
                                }
                                match orig[c] {
                                    CellModel::Int(v) => {
                                        assert(v < b.counters[k]);
                                        assert(tf[i as int][c] == CellModel::Int(
                                            shifted(*schema, a.counters, k, v),
                                        ));
                                    },
                                    CellModel::Text(_) => {},
                                }
                            },
                            _ => {},
                        }
                    }
                }
                self.insert(schema, r, tr);
                proof {
                    assert(a.relations[r as int] + tf.take(i + 1) =~= (a.relations[r as int] + tf.take(i as int)).push(tf[i as int]));
                }
                i = i + 1;
            }
            proof {
                assert(tf.take(n as int) =~= tf);
            }
            r = r + 1;
        }
    }

    fn merge_interning(
        &mut self,
        schema: &DatabaseSchema,
        other: &Tables,
        base: &Vec<u64>,
        Ghost(a): Ghost<TablesModel>,
    ) -> (remaps: Vec<Vec<usize>>)
        requires
            old(self).wf(*schema),
            other.wf(*schema),
            model_wf(*schema, a),
            base@ == a.counters,
            old(self)@.interning == a.interning,
            forall|k: int|
                0 <= k < a.counters.len() ==> !kind_overflows(*schema, a.counters, other@.counters, k),
        ensures
            final(self).wf(*schema),
            final(self)@.relations == old(self)@.relations,
            final(self)@.counters == old(self)@.counters,
            remaps@.len() == a.interning.len(),
            forall|t: int|
                0 <= t < a.interning.len() ==> #[trigger] table_merged(
                    *schema,
                    a,
                    other@,
                    remaps_model(remaps@),
                    final(self)@,
                    t,
                ),
    {
        let ghost b = other@;
        let nt = schema.num_tables();
        let mut remaps: Vec<Vec<usize>> = Vec::new();
        let mut t: usize = 0;
        while t < nt
            invariant
                nt == schema.spec_tables().len(),
                t <= nt,
                remaps@.len() == t,
                forall|i: int| 0 <= i < t ==> (#[trigger] remaps@[i])@.len() == 0,
            decreases nt - t,
        {
            remaps.push(Vec::new());
            t = t + 1;
        }
        let order = schema.table_order();
        let ghost relations0 = self@.relations;
        let ghost counters0 = self@.counters;
        let mut p: usize = 0;
        while p < order.len()
            invariant
                self.wf(*schema),
                other.wf(*schema),
                b == other@,
                model_wf(*schema, a),
                base@ == a.counters,
                forall|k: int|
                    0 <= k < a.counters.len() ==> !kind_overflows(*schema, a.counters, b.counters, k),
                order@ == schema.spec_order(),
                nt == schema.spec_tables().len(),
                p <= order@.len(),
                remaps@.len() == nt,
                self@.relations == relations0,
                self@.counters == counters0,
                forall|q: int|
                    0 <= q < p ==> #[trigger] table_merged(
                        *schema,
                        a,
                        b,
                        remaps_model(remaps@),
                        self@,
                        order@[q] as int,
                    ),
                forall|t: int|
                    0 <= t < nt && !order@.take(p as int).contains(t as usize) ==> #[trigger] self@.interning[t]
                        == a.interning[t] && remaps@[t]@.len() == 0,
            decreases order@.len() - p,
        {
            let t = order[p];
            proof {
                assert(!order@.take(p as int).contains(t)) by {
                    if order@.take(p as int).contains(t) {
                        let qq = choose|qq: int| 0 <= qq < p && order@.take(p as int)[qq] == t;
                        assert(order@[qq] == order@[p as int]);
                    }
                }
            }
            let ghost pre = self@;
            let keys = self.merge_table(schema, other, base, &remaps, t, Ghost(a), Ghost(p as int));
            let ghost r_before = remaps_model(remaps@);
            remaps.set(t, keys);
            proof {
                let r_after = remaps_model(remaps@);
                assert(r_after =~= r_before.update(t as int, keys@));
                assert forall|q: int| 0 <= q < p + 1 implies #[trigger] table_merged(
                    *schema,
                    a,
                    b,
                    r_after,
                    self@,
                    order@[q] as int,
                ) by {
                    let tq = order@[q] as int;
                    lemma_order_frame(*schema, q, p as int);
                    let tv1 = translated_values(*schema, a.counters, r_before, tq, b.interning[tq]);
                    let tv2 = translated_values(*schema, a.counters, r_after, tq, b.interning[tq]);
                    assert forall|i: int| 0 <= i < tv1.len() implies tv1[i] == tv2[i] by {
                        let cols = schema.table_columns(tq);
                        assert(row_conforms(b.interning[tq][i], cols, b.counters, b.interning));
                        assert forall|c: int| 0 <= c < cols.len() implies match #[trigger] cols[c] {
                            ColumnKind::Interned(j) => r_before[j as int] == r_after[j as int],
                            _ => true,
                        } by {
                            match cols[c] {
                                ColumnKind::Interned(j) => {
                                    assert(j != t);
                                },
                                _ => {},
                            }
                        }
                        lemma_translate_row_frame(*schema, a.counters, r_before, r_after, cols, b.interning[tq][i]);
                    }
                    assert(tv1 =~= tv2);
                    if q < p {
                        assert(order@[q] != t) by {
                            assert(order@.no_duplicates());
                        }
                        assert(r_after[tq] == r_before[tq]);
                        assert(table_merged(*schema, a, b, r_before, pre, tq));
                        assert(self@.interning[tq] == pre.interning[tq]);
                    }
                }
                assert forall|tt: int|
                    0 <= tt < nt && !order@.take(p + 1).contains(tt as usize) implies #[trigger] self@.interning[tt]
                    == a.interning[tt] && remaps@[tt]@.len() == 0 by {
                    assert(order@.take(p + 1)[p as int] == t);
                    if tt != t {
                        assert(self@.interning[tt] == pre.interning[tt]);
                        assert(!order@.take(p as int).contains(tt as usize)) by {
                            if order@.take(p as int).contains(tt as usize) {
                                let qq = choose|qq: int| 0 <= qq < p && order@.take(p as int)[qq] == tt as usize;
                                assert(order@.take(p + 1)[qq] == tt as usize);
                            }
                        }
                    }
                }
            }
            p = p + 1;
        }
        proof {
            assert forall|t: int| 0 <= t < a.interning.len() implies #[trigger] table_merged(
                *schema,
                a,
                b,
                remaps_model(remaps@),
                self@,
                t,
            ) by {
                assert(order@.contains(t as usize));
                let q = choose|q: int| 0 <= q < order@.len() && order@[q] == t as usize;
                assert(table_merged(*schema, a, b, remaps_model(remaps@), self@, order@[q] as int));
            }
        }
        remaps
    }
}

} // verus!
