//! The store: all interning tables, relations and counters of one schema.
use crate::cell::{duplicate_row, row_model, Cell, CellModel, RowModel};
use crate::interning::{intern_key, interned, InterningTable};
use crate::relation::Relation;
use crate::schema::{ColumnKind, DatabaseSchema};
use vstd::prelude::*;

verus! {

/// The model of a store.
pub struct TablesModel {
    /// The facts of each relation, in insertion order.
    pub relations: Seq<Seq<RowModel>>,
    /// The next fresh value of each incremental kind.
    pub counters: Seq<u64>,
    /// The values of each interning table, in key order.
    pub interning: Seq<Seq<RowModel>>,
}

/// An incremental counter would pass the largest value of its kind.
#[derive(Clone, Copy, Debug, PartialEq, Eq, Structural)]
pub struct OverflowError {
    pub kind: usize,
}

/// A cell fits a column: an identifier that the store issued, or a key
/// that it holds.
pub open spec fn cell_conforms(
    c: CellModel,
    kind: ColumnKind,
    counters: Seq<u64>,
    interning: Seq<Seq<RowModel>>,
) -> bool {
    match kind {
        ColumnKind::Plain => true,
        ColumnKind::CustomId => true,
        ColumnKind::Incremental { kind: k, .. } => match c {
            CellModel::Int(v) => v < counters[k as int],
            CellModel::Text(_) => false,
        },
        ColumnKind::Interned(j) => match c {
            CellModel::Int(v) => v < interning[j as int].len(),
            CellModel::Text(_) => false,
        },
    }
}

/// Each cell of a row fits its column.
pub open spec fn row_conforms(
    row: RowModel,
    cols: Seq<ColumnKind>,
    counters: Seq<u64>,
    interning: Seq<Seq<RowModel>>,
) -> bool {
    &&& row.len() == cols.len()
    &&& forall|c: int|
        0 <= c < row.len() ==> cell_conforms(#[trigger] row[c], cols[c], counters, interning)
}

/// A store model fits a schema: one table, relation and counter per
/// declaration, counters between the reserved range and the largest
/// value, distinct interned values, and every row fitting its columns.
pub open spec fn model_wf(schema: DatabaseSchema, m: TablesModel) -> bool {
    &&& schema.wf()
    &&& m.relations.len() == schema.spec_relations().len()
    &&& m.interning.len() == schema.spec_tables().len()
    &&& m.counters.len() == schema.spec_ids().len()
    &&& forall|k: int|
        0 <= k < m.counters.len() ==> schema.num_constants(k) <= #[trigger] m.counters[k]
            <= schema.max_of(k)
    &&& forall|t: int| 0 <= t < m.interning.len() ==> (#[trigger] m.interning[t]).no_duplicates()
    &&& forall|t: int, i: int|
        0 <= t < m.interning.len() && 0 <= i < m.interning[t].len() ==> row_conforms(
            #[trigger] m.interning[t][i],
            schema.table_columns(t),
            m.counters,
            m.interning,
        )
    &&& forall|r: int, i: int|
        0 <= r < m.relations.len() && 0 <= i < m.relations[r].len() ==> row_conforms(
            #[trigger] m.relations[r][i],
            schema.relation_columns(r),
            m.counters,
            m.interning,
        )
}

/// The model of a store with nothing recorded yet.
pub open spec fn empty_model(schema: DatabaseSchema) -> TablesModel {
    TablesModel {
        relations: Seq::new(schema.spec_relations().len(), |r: int| Seq::<RowModel>::empty()),
        counters: Seq::new(schema.spec_ids().len(), |k: int| schema.num_constants(k) as u64),
        interning: Seq::new(schema.spec_tables().len(), |i: int| Seq::<RowModel>::empty()),
    }
}

/// The number of `auto` columns of kind `k` among the first `c` columns.
pub open spec fn autos_before(cols: Seq<ColumnKind>, k: usize, c: int) -> nat
    decreases c,
{
    if c <= 0 {
        0
    } else {
        autos_before(cols, k, c - 1) + match cols[c - 1] {
            ColumnKind::Incremental { kind, auto } => if auto && kind == k {
                1nat
            } else {
                0nat
            },
            _ => 0nat,
        }
    }
}

/// The fact that registering `args` records: each `auto` column takes the
/// next identifier of its kind, in column order; the other columns take
/// their argument.
pub open spec fn registered_fact(cols: Seq<ColumnKind>, args: RowModel, counters: Seq<u64>) -> RowModel {
    Seq::new(
        cols.len(),
        |c: int|
            match cols[c] {
                ColumnKind::Incremental { kind, auto } => if auto {
                    CellModel::Int((counters[kind as int] + autos_before(cols, kind, c)) as u64)
                } else {
                    args[c]
                },
                _ => args[c],
            },
    )
}

/// `b` has grown from `a`: the same shape, counters no smaller, and each
/// interning table extends the old one.
pub open spec fn grown(a: TablesModel, b: TablesModel) -> bool {
    &&& b.counters.len() == a.counters.len()
    &&& b.interning.len() == a.interning.len()
    &&& forall|k: int| 0 <= k < a.counters.len() ==> a.counters[k] <= #[trigger] b.counters[k]
    &&& forall|t: int|
        0 <= t < a.interning.len() ==> (#[trigger] b.interning[t]).len() >= a.interning[t].len()
            && b.interning[t].subrange(0, a.interning[t].len() as int) == a.interning[t]
}

/// A row that fits a store still fits it after the store has grown.
pub proof fn lemma_conforms_grown(row: RowModel, cols: Seq<ColumnKind>, a: TablesModel, b: TablesModel)
    requires
        grown(a, b),
        row_conforms(row, cols, a.counters, a.interning),
        forall|c: int|
            0 <= c < cols.len() ==> match #[trigger] cols[c] {
                ColumnKind::Incremental { kind, .. } => kind < a.counters.len(),
                ColumnKind::Interned(j) => j < a.interning.len(),
                _ => true,
            },
    ensures
        row_conforms(row, cols, b.counters, b.interning),
{
    assert forall|c: int| 0 <= c < row.len() implies cell_conforms(
        #[trigger] row[c],
        cols[c],
        b.counters,
        b.interning,
    ) by {
        assert(cell_conforms(row[c], cols[c], a.counters, a.interning));
        match cols[c] {
            ColumnKind::Incremental { kind, .. } => {
                assert(a.counters[kind as int] <= b.counters[kind as int]);
            },
            ColumnKind::Interned(j) => {
                assert(b.interning[j as int].len() >= a.interning[j as int].len());
            },
            _ => {},
        }
    }
}

/// The store of one compilation unit, or the merged corpus.
pub struct Tables {
    relations: Vec<Relation>,
    counters: Vec<u64>,
    interning_tables: Vec<InterningTable>,
}

impl View for Tables {
    type V = TablesModel;

    closed spec fn view(&self) -> TablesModel {
        TablesModel {
            relations: Seq::new(self.relations@.len(), |i: int| self.relations@[i]@),
            counters: self.counters@,
            interning: Seq::new(self.interning_tables@.len(), |i: int| self.interning_tables@[i]@),
        }
    }
}

impl Tables {
    /// Every interning table keeps its index consistent.
    pub closed spec fn indexes_wf(&self) -> bool {
        forall|t: int| 0 <= t < self.interning_tables@.len() ==> (#[trigger] self.interning_tables@[t]).wf()
    }

    /// The store's invariant with respect to `schema`.
    pub open spec fn wf(&self, schema: DatabaseSchema) -> bool {
        &&& self.indexes_wf()
        &&& model_wf(schema, self@)
    }

    /// A store with empty tables and relations, and every counter at the
    /// number of reserved constants of its kind.
    pub fn new(schema: &DatabaseSchema) -> (t: Tables)
        requires
            schema.wf(),
        ensures
            t.wf(*schema),
            t@ == empty_model(*schema),
    {
        let mut relations: Vec<Relation> = Vec::new();
        let mut r: usize = 0;
        while r < schema.num_relations()
            invariant
                r <= schema.spec_relations().len(),
                relations@.len() == r,
                forall|i: int| 0 <= i < r ==> (#[trigger] relations@[i])@ == Seq::<RowModel>::empty(),
            decreases schema.spec_relations().len() - r,
        {
            relations.push(Relation::new());
            r = r + 1;
        }
        let mut interning_tables: Vec<InterningTable> = Vec::new();
        let mut t: usize = 0;
        while t < schema.num_tables()
            invariant
                t <= schema.spec_tables().len(),
                interning_tables@.len() == t,
                forall|i: int|
                    0 <= i < t ==> (#[trigger] interning_tables@[i])@ == Seq::<RowModel>::empty()
                        && interning_tables@[i].wf(),
            decreases schema.spec_tables().len() - t,
        {
            interning_tables.push(InterningTable::new());
            t = t + 1;
        }
        let mut counters: Vec<u64> = Vec::new();
        let mut k: usize = 0;
        while k < schema.num_kinds()
            invariant
                schema.wf(),
                k <= schema.spec_ids().len(),
                counters@.len() == k,
                forall|i: int| 0 <= i < k ==> #[trigger] counters@[i] == schema.num_constants(i),
            decreases schema.spec_ids().len() - k,
        {
            let n = schema.id_kind(k).constants.len();
            proof {
                assert(crate::schema::kind_valid(schema.spec_ids()[k as int]));
            }
            counters.push(n as u64);
            k = k + 1;
        }
        let tables = Tables { relations, counters, interning_tables };
        assert(tables@.relations =~= Seq::new(
            schema.spec_relations().len(),
            |r: int| Seq::<RowModel>::empty(),
        ));
        assert(tables@.interning =~= Seq::new(
            schema.spec_tables().len(),
            |i: int| Seq::<RowModel>::empty(),
        ));
        assert(tables@.counters =~= Seq::new(
            schema.spec_ids().len(),
            |k: int| schema.num_constants(k) as u64,
        ));
        proof {
            assert forall|k: int| 0 <= k < tables@.counters.len() implies schema.num_constants(k)
                <= #[trigger] tables@.counters[k] <= schema.max_of(k) by {
                assert(crate::schema::kind_valid(schema.spec_ids()[k]));
            }
            assert forall|t: int| 0 <= t < tables@.interning.len() implies (
            #[trigger] tables@.interning[t]).no_duplicates() by {
                assert(tables@.interning[t] =~= Seq::<RowModel>::empty());
            }
        }
        tables
    }

    /// Issues the next identifier of `kind`, or fails when the counter is
    /// at the largest value of the kind.
    pub fn fresh(&mut self, schema: &DatabaseSchema, kind: usize) -> (r: Result<u64, OverflowError>)
        requires
            old(self).wf(*schema),
            kind < schema.spec_ids().len(),
        ensures
            final(self).wf(*schema),
            final(self)@.relations == old(self)@.relations,
            final(self)@.interning == old(self)@.interning,
            match r {
                Ok(id) => {
                    &&& old(self)@.counters[kind as int] < schema.max_of(kind as int)
                    &&& id == old(self)@.counters[kind as int]
                    &&& final(self)@.counters == old(self)@.counters.update(kind as int, (id + 1) as u64)
                },
                Err(e) => {
                    &&& old(self)@.counters[kind as int] == schema.max_of(kind as int)
                    &&& e.kind == kind
                    &&& final(self)@.counters == old(self)@.counters
                },
            },
    {
        let max = schema.id_kind(kind).width.max_value();
        let id = self.counters[kind];
        if id >= max {
            return Err(OverflowError { kind });
        }
        let ghost before = self@;
        self.counters.set(kind, id + 1);
        proof {
            assert(self@.counters == before.counters.update(kind as int, (id + 1) as u64));
            assert(self@.interning == before.interning);
            assert forall|t: int| 0 <= t < before.interning.len() implies (
            #[trigger] self@.interning[t]).len() >= before.interning[t].len()
                && self@.interning[t].subrange(0, before.interning[t].len() as int)
                == before.interning[t] by {
                assert(self@.interning[t].subrange(0, before.interning[t].len() as int)
                    =~= before.interning[t]);
            }
            assert(grown(before, self@));
            assert forall|t: int, i: int|
                0 <= t < self@.interning.len() && 0 <= i < self@.interning[t].len()
                    implies row_conforms(
                #[trigger] self@.interning[t][i],
                schema.table_columns(t),
                self@.counters,
                self@.interning,
            ) by {
                assert(self@.interning[t] == before.interning[t]);
                assert(self@.interning[t].subrange(0, before.interning[t].len() as int) =~= before.interning[t]);
                lemma_table_columns_bounded(*schema, t);
                lemma_conforms_grown(before.interning[t][i], schema.table_columns(t), before, self@);
            }
            assert forall|r: int, i: int|
                0 <= r < self@.relations.len() && 0 <= i < self@.relations[r].len()
                    implies row_conforms(
                #[trigger] self@.relations[r][i],
                schema.relation_columns(r),
                self@.counters,
                self@.interning,
            ) by {
                lemma_relation_columns_bounded(*schema, r);
                lemma_conforms_grown(before.relations[r][i], schema.relation_columns(r), before, self@);
            }
        }
        Ok(id)
    }

    #[verifier::rlimit(60)]
    /// Records a fact in relation `relation`: `auto` columns take fresh
    /// identifiers (their arguments are ignored), the other columns take
    /// their arguments. Returns the recorded fact, or fails, leaving the
    /// store unchanged, when a counter would pass its largest value.
    pub fn register(&mut self, schema: &DatabaseSchema, relation: usize, args: Vec<Cell>) -> (r:
        Result<Vec<Cell>, OverflowError>)
        requires
            old(self).wf(*schema),
            relation < schema.spec_relations().len(),
            args@.len() == schema.relation_columns(relation as int).len(),
            forall|c: int|
                0 <= c < args@.len() && !(schema.relation_columns(relation as int)[c] matches ColumnKind::Incremental { auto: true, .. })
                    ==> cell_conforms(
                    #[trigger] args@[c]@,
                    schema.relation_columns(relation as int)[c],
                    old(self)@.counters,
                    old(self)@.interning,
                ),
        ensures
            final(self).wf(*schema),
            match r {
                Ok(fact) => {
                    let cols = schema.relation_columns(relation as int);
                    &&& row_model(fact) == registered_fact(cols, row_model(args), old(self)@.counters)
                    &&& final(self)@.interning == old(self)@.interning
                    &&& final(self)@.counters == Seq::new(
                        old(self)@.counters.len(),
                        |k: int| (old(self)@.counters[k] + autos_before(cols, k as usize, cols.len() as int)) as u64,
                    )
                    &&& final(self)@.relations == old(self)@.relations.update(
                        relation as int,
                        old(self)@.relations[relation as int].push(row_model(fact)),
                    )
                },
                Err(e) => {
                    let cols = schema.relation_columns(relation as int);
                    &&& final(self)@ == old(self)@
                    &&& e.kind < schema.spec_ids().len()
                    &&& exists|c: int|
                        0 <= c < cols.len() && #[trigger] cols[c] == (ColumnKind::Incremental { kind: e.kind, auto: true })
                            && old(self)@.counters[e.kind as int] + autos_before(cols, e.kind, c)
                            >= schema.max_of(e.kind as int)
                },
            },
    {
        let ghost a = self@;
        let cols = &schema.relation(relation).columns;
        proof {
            lemma_relation_columns_bounded(*schema, relation as int);
        }
        // Check every counter first, so that a failure changes nothing.
        let mut sim: Vec<u64> = Vec::new();
        let nk = schema.num_kinds();
        let mut k: usize = 0;
        while k < nk
            invariant
                self@ == a,
                nk == a.counters.len(),
                k <= nk,
                sim@ == a.counters.take(k as int),
            decreases nk - k,
        {
            sim.push(self.counter(k));
            assert(sim@ =~= a.counters.take(k + 1));
            k = k + 1;
        }
        assert(sim@ =~= a.counters);
        let mut c: usize = 0;
        while c < cols.len()
            invariant
                self@ == a,
                self.wf(*schema),
                *cols == schema.spec_relations()[relation as int].columns,
                forall|cc: int|
                    0 <= cc < cols@.len() ==> match #[trigger] cols@[cc] {
                        ColumnKind::Incremental { kind, .. } => kind < schema.spec_ids().len(),
                        ColumnKind::Interned(j) => j < schema.spec_tables().len(),
                        _ => true,
                    },
                c <= cols@.len(),
                sim@.len() == a.counters.len(),
                forall|kk: usize|
                    kk < sim@.len() ==> #[trigger] sim@[kk as int] == a.counters[kk as int] + autos_before(cols@, kk, c as int),
                forall|cc: int|
                    0 <= cc < c ==> match #[trigger] cols@[cc] {
                        ColumnKind::Incremental { kind, auto } => auto ==> a.counters[kind as int]
                            + autos_before(cols@, kind, cc) < schema.max_of(kind as int),
                        _ => true,
                    },
            decreases cols@.len() - c,
        {
            match cols[c] {
                ColumnKind::Incremental { kind, auto } => {
                    if auto {
                        let max = schema.id_kind(kind).width.max_value();
                        if sim[kind] >= max {
                            proof {
                                assert(cols@[c as int] == (ColumnKind::Incremental { kind, auto: true }));
                                assert(max == schema.max_of(kind as int));
                                assert(sim@[kind as int] == a.counters[kind as int] + autos_before(cols@, kind, c as int));
                                assert(cols@ == schema.relation_columns(relation as int));
                            }
                            return Err(OverflowError { kind });
                        }
                        let ghost before = sim@;
                        sim.set(kind, sim[kind] + 1);
                        proof {
                            assert forall|kk: usize| kk < sim@.len() implies #[trigger] sim@[kk as int] == a.counters[kk as int]
                                + autos_before(cols@, kk, c + 1) by {
                                assert(before[kk as int] == a.counters[kk as int] + autos_before(cols@, kk, c as int));
                            }
                        }
                    } else {
                        proof {
                            assert forall|kk: usize| kk < sim@.len() implies #[trigger] sim@[kk as int] == a.counters[kk as int]
                                + autos_before(cols@, kk, c + 1) by {}
                        }
                    }
                },
                _ => {
                    proof {
                        assert forall|kk: usize| kk < sim@.len() implies #[trigger] sim@[kk as int] == a.counters[kk as int]
                            + autos_before(cols@, kk, c + 1) by {}
                    }
                },
            }
            c = c + 1;
        }
        // Now fill the fact.
        let ghost expected = registered_fact(cols@, row_model(args), a.counters);
        let mut fact: Vec<Cell> = Vec::new();
        let mut c: usize = 0;
        while c < cols.len()
            invariant
                self.wf(*schema),
                *cols == schema.spec_relations()[relation as int].columns,
                forall|cc: int|
                    0 <= cc < cols@.len() ==> match #[trigger] cols@[cc] {
                        ColumnKind::Incremental { kind, .. } => kind < schema.spec_ids().len(),
                        ColumnKind::Interned(j) => j < schema.spec_tables().len(),
                        _ => true,
                    },
                forall|cc: int|
                    0 <= cc < cols@.len() ==> match #[trigger] cols@[cc] {
                        ColumnKind::Incremental { kind, auto } => auto ==> a.counters[kind as int]
                            + autos_before(cols@, kind, cc) < schema.max_of(kind as int),
                        _ => true,
                    },
                args@.len() == cols@.len(),
                expected == registered_fact(cols@, row_model(args), a.counters),
                c <= cols@.len(),
                fact@.len() == c,
                forall|cc: int| 0 <= cc < c ==> (#[trigger] fact@[cc])@ == expected[cc],
                self@.relations == a.relations,
                self@.interning == a.interning,
                self@.counters.len() == a.counters.len(),
                forall|kk: usize|
                    kk < a.counters.len() ==> #[trigger] self@.counters[kk as int] == a.counters[kk as int] + autos_before(cols@, kk, c as int),
            decreases cols@.len() - c,
        {
            match cols[c] {
                ColumnKind::Incremental { kind, auto } => {
                    if auto {
                        let ghost before = self@.counters;
                        proof {
                            assert(cols@[c as int] == (ColumnKind::Incremental { kind, auto: true }));
                        }
                        match self.fresh(schema, kind) {
                            Ok(id) => {
                                fact.push(Cell::Int(id));
                                proof {
                                    assert forall|kk: usize| kk < a.counters.len() implies #[trigger] self@.counters[kk as int]
                                        == a.counters[kk as int] + autos_before(cols@, kk, c + 1) by {
                                        assert(before[kk as int] == a.counters[kk as int] + autos_before(cols@, kk, c as int));
                                    }
                                }
                            },
                            Err(_) => {
                                proof {
                                    assert(a.counters[kind as int] + autos_before(cols@, kind, c as int) < schema.max_of(kind as int));
                                }
                                return Err(OverflowError { kind });
                            },
                        }
                    } else {
                        fact.push(args[c].duplicate());
                        proof {
                            assert forall|kk: usize| kk < a.counters.len() implies #[trigger] self@.counters[kk as int]
                                == a.counters[kk as int] + autos_before(cols@, kk, c + 1) by {}
                        }
                    }
                },
                _ => {
                    fact.push(args[c].duplicate());
                    proof {
                        assert forall|kk: usize| kk < a.counters.len() implies #[trigger] self@.counters[kk as int]
                            == a.counters[kk as int] + autos_before(cols@, kk, c + 1) by {}
                    }
                },
            }
            c = c + 1;
        }
        assert(row_model(fact) =~= expected);
        proof {
            let m = self@;
            assert(grown(a, m)) by {
                assert forall|t: int| 0 <= t < a.interning.len() implies (#[trigger] m.interning[t]).len() >= a.interning[t].len()
                    && m.interning[t].subrange(0, a.interning[t].len() as int) == a.interning[t] by {
                    assert(m.interning[t].subrange(0, a.interning[t].len() as int) =~= a.interning[t]);
                }
            }
            assert forall|cc: int| 0 <= cc < expected.len() implies cell_conforms(
                #[trigger] expected[cc],
                cols@[cc],
                m.counters,
                m.interning,
            ) by {
                match cols@[cc] {
                    ColumnKind::Incremental { kind, auto } => {
                        if auto {
                            lemma_autos_before_grows(cols@, kind, cc + 1, cols@.len() as int);
                            assert(autos_before(cols@, kind, cc + 1) == autos_before(cols@, kind, cc) + 1);
                            assert(a.counters[kind as int] + autos_before(cols@, kind, cc) < schema.max_of(kind as int));
                        } else {
                            assert(cell_conforms(args@[cc]@, cols@[cc], a.counters, a.interning));
                            lemma_autos_before_grows(cols@, kind, 0, cols@.len() as int);
                        }
                    },
                    _ => {
                        assert(cell_conforms(args@[cc]@, cols@[cc], a.counters, a.interning));
                    },
                }
            }
        }
        let recorded = duplicate_row(&fact);
        self.insert(schema, relation, recorded);
        proof {
            assert forall|k: int| 0 <= k < a.counters.len() implies self@.counters[k] == (a.counters[k]
                + autos_before(cols@, k as usize, cols@.len() as int)) as u64 by {
                let ku = k as usize;
                assert(self@.counters[ku as int] == a.counters[ku as int] + autos_before(cols@, ku, cols@.len() as int));
            }
            assert(self@.counters =~= Seq::new(
                a.counters.len(),
                |k: int| (a.counters[k] + autos_before(cols@, k as usize, cols@.len() as int)) as u64,
            ));
        }
        Ok(fact)
    }

    /// The value of reserved constant `index` of `kind`; it does not depend
    /// on the store's contents.
    pub fn get_constant(&self, schema: &DatabaseSchema, kind: usize, index: usize) -> (r: u64)
        requires
            kind < schema.spec_ids().len(),
            index < schema.num_constants(kind as int),
        ensures
            r == schema.spec_ids()[kind as int].constants@[index as int].value,
    {
        schema.id_kind(kind).constants[index].value
    }

    /// Interns `value` into interning table `table` and returns its key.
    pub fn intern(&mut self, schema: &DatabaseSchema, table: usize, value: Vec<Cell>) -> (k: usize)
        requires
            old(self).wf(*schema),
            table < schema.spec_tables().len(),
            row_conforms(
                row_model(value),
                schema.table_columns(table as int),
                old(self)@.counters,
                old(self)@.interning,
            ),
        ensures
            final(self).wf(*schema),
            final(self)@.relations == old(self)@.relations,
            final(self)@.counters == old(self)@.counters,
            final(self)@.interning == old(self)@.interning.update(
                table as int,
                interned(old(self)@.interning[table as int], row_model(value)),
            ),
            k == intern_key(old(self)@.interning[table as int], row_model(value)),
            k < final(self)@.interning[table as int].len(),
            final(self)@.interning[table as int][k as int] == row_model(value),
    {
        let ghost before = self@;
        let ghost v = row_model(value);
        let ghost old_tables = self.interning_tables@;
        proof {
            assert(old_tables[table as int].wf());
        }
        let k = self.interning_tables[table].intern(value);
        proof {
            assert forall|i: int| 0 <= i < self.interning_tables@.len() implies (
            #[trigger] self.interning_tables@[i]).wf() by {
                if i != table {
                    assert(self.interning_tables@[i] == old_tables[i]);
                }
            }
            assert(self@.interning =~= before.interning.update(
                table as int,
                interned(before.interning[table as int], v),
            ));
            assert(self@.relations =~= before.relations);
            let tt = before.interning[table as int];
            assert(interned(tt, v).subrange(0, tt.len() as int) =~= tt);
            assert forall|t: int| 0 <= t < before.interning.len() implies (
            #[trigger] self@.interning[t]).len() >= before.interning[t].len()
                && self@.interning[t].subrange(0, before.interning[t].len() as int)
                == before.interning[t] by {
                assert(self@.interning[t].subrange(0, before.interning[t].len() as int)
                    =~= before.interning[t]);
            }
            assert(grown(before, self@));
            self.lemma_after_grow(*schema, before);
            assert(self@.interning[table as int] == interned(tt, v));
            if !tt.contains(v) {
                assert(row_conforms(v, schema.table_columns(table as int), before.counters, before.interning));
                lemma_table_columns_bounded(*schema, table as int);
                lemma_conforms_grown(v, schema.table_columns(table as int), before, self@);
            }
            assert(self@.interning[table as int].no_duplicates());
        }
        k
    }

    /// Appends `fact` to relation `relation`.
    pub fn insert(&mut self, schema: &DatabaseSchema, relation: usize, fact: Vec<Cell>)
        requires
            old(self).wf(*schema),
            relation < schema.spec_relations().len(),
            row_conforms(
                row_model(fact),
                schema.relation_columns(relation as int),
                old(self)@.counters,
                old(self)@.interning,
            ),
        ensures
            final(self).wf(*schema),
            final(self)@.counters == old(self)@.counters,
            final(self)@.interning == old(self)@.interning,
            final(self)@.relations == old(self)@.relations.update(
                relation as int,
                old(self)@.relations[relation as int].push(row_model(fact)),
            ),
    {
        let ghost before = self@;
        let ghost f = row_model(fact);
        self.relations[relation].insert(fact);
        proof {
            assert(self@.relations =~= before.relations.update(
                relation as int,
                before.relations[relation as int].push(f),
            ));
            assert(self@.interning =~= before.interning);
            assert forall|r: int, i: int|
                0 <= r < self@.relations.len() && 0 <= i < self@.relations[r].len()
                    implies row_conforms(
                #[trigger] self@.relations[r][i],
                schema.relation_columns(r),
                self@.counters,
                self@.interning,
            ) by {
                if r == relation && i == before.relations[r].len() {
                    assert(self@.relations[r][i] == f);
                } else {
                    assert(self@.relations[r][i] == before.relations[r][i]);
                }
            }
        }
    }

    /// Adds `by` to the counter of `kind`.
    pub(crate) fn advance_counter(&mut self, schema: &DatabaseSchema, kind: usize, by: u64)
        requires
            old(self).wf(*schema),
            kind < schema.spec_ids().len(),
            old(self)@.counters[kind as int] + by <= schema.max_of(kind as int),
        ensures
            final(self).wf(*schema),
            final(self)@.relations == old(self)@.relations,
            final(self)@.interning == old(self)@.interning,
            final(self)@.counters == old(self)@.counters.update(
                kind as int,
                (old(self)@.counters[kind as int] + by) as u64,
            ),
    {
        let ghost before = self@;
        let c = self.counters[kind];
        self.counters.set(kind, c + by);
        proof {
            assert(self@.counters == before.counters.update(kind as int, (c + by) as u64));
            assert(self@.interning == before.interning);
            assert forall|t: int| 0 <= t < before.interning.len() implies (
            #[trigger] self@.interning[t]).len() >= before.interning[t].len()
                && self@.interning[t].subrange(0, before.interning[t].len() as int)
                == before.interning[t] by {
                assert(self@.interning[t].subrange(0, before.interning[t].len() as int)
                    =~= before.interning[t]);
            }
            assert(grown(before, self@));
            self.lemma_after_grow(*schema, before);
        }
    }

    /// Rows already in the store still fit after the store has grown.
    proof fn lemma_after_grow(&self, schema: DatabaseSchema, before: TablesModel)
        requires
            model_wf(schema, before),
            grown(before, self@),
            self@.relations == before.relations,
            self@.counters.len() == schema.spec_ids().len(),
            forall|k: int|
                0 <= k < self@.counters.len() ==> schema.num_constants(k) <= #[trigger] self@.counters[k]
                    <= schema.max_of(k),
        ensures
            forall|r: int, i: int|
                0 <= r < self@.relations.len() && 0 <= i < self@.relations[r].len() ==> row_conforms(
                    #[trigger] self@.relations[r][i],
                    schema.relation_columns(r),
                    self@.counters,
                    self@.interning,
                ),
            forall|t: int, i: int|
                0 <= t < before.interning.len() && 0 <= i < before.interning[t].len() ==> row_conforms(
                    #[trigger] before.interning[t][i],
                    schema.table_columns(t),
                    self@.counters,
                    self@.interning,
                ),
    {
        assert forall|r: int, i: int|
            0 <= r < self@.relations.len() && 0 <= i < self@.relations[r].len() implies row_conforms(
            #[trigger] self@.relations[r][i],
            schema.relation_columns(r),
            self@.counters,
            self@.interning,
        ) by {
            lemma_relation_columns_bounded(schema, r);
            lemma_conforms_grown(before.relations[r][i], schema.relation_columns(r), before, self@);
        }
        assert forall|t: int, i: int|
            0 <= t < before.interning.len() && 0 <= i < before.interning[t].len() implies row_conforms(
            #[trigger] before.interning[t][i],
            schema.table_columns(t),
            self@.counters,
            self@.interning,
        ) by {
            lemma_table_columns_bounded(schema, t);
            lemma_conforms_grown(before.interning[t][i], schema.table_columns(t), before, self@);
        }
    }

    /// The counters, one per incremental kind.
    pub fn counters(&self) -> (r: &Vec<u64>)
        ensures
            r@ == self@.counters,
    {
        &self.counters
    }

    /// Whether `row` fits columns `cols` in this store.
    pub fn fits(&self, cols: &Vec<ColumnKind>, row: &Vec<Cell>) -> (r: bool)
        requires
            self.indexes_wf(),
            forall|c: int|
                0 <= c < cols@.len() ==> match #[trigger] cols@[c] {
                    ColumnKind::Incremental { kind, .. } => kind < self@.counters.len(),
                    ColumnKind::Interned(j) => j < self@.interning.len(),
                    _ => true,
                },
        ensures
            r == row_conforms(row_model(*row), cols@, self@.counters, self@.interning),
    {
        if row.len() != cols.len() {
            return false;
        }
        let mut c: usize = 0;
        while c < row.len()
            invariant
                self.indexes_wf(),
                row@.len() == cols@.len(),
                c <= row@.len(),
                forall|cc: int|
                    0 <= cc < cols@.len() ==> match #[trigger] cols@[cc] {
                        ColumnKind::Incremental { kind, .. } => kind < self@.counters.len(),
                        ColumnKind::Interned(j) => j < self@.interning.len(),
                        _ => true,
                    },
                forall|cc: int|
                    0 <= cc < c ==> cell_conforms(
                        #[trigger] row_model(*row)[cc],
                        cols@[cc],
                        self@.counters,
                        self@.interning,
                    ),
            decreases row@.len() - c,
        {
            let ok = match cols[c] {
                ColumnKind::Incremental { kind, .. } => match &row[c] {
                    Cell::Int(v) => *v < self.counters[kind],
                    Cell::Text(_) => false,
                },
                ColumnKind::Interned(j) => match &row[c] {
                    Cell::Int(v) => (*v as u128) < (self.interning_table(j).len() as u128),
                    Cell::Text(_) => false,
                },
                _ => true,
            };
            assert(row_model(*row)[c as int] == row@[c as int]@);
            if !ok {
                return false;
            }
            c = c + 1;
        }
        true
    }

    /// The number of facts in relation `relation`.
    pub fn relation_len(&self, relation: usize) -> (n: usize)
        requires
            relation < self@.relations.len(),
        ensures
            n == self@.relations[relation as int].len(),
    {
        self.relations[relation].len()
    }

    /// Relation `relation`.
    pub fn relation(&self, relation: usize) -> (r: &Relation)
        requires
            relation < self@.relations.len(),
        ensures
            r@ == self@.relations[relation as int],
    {
        &self.relations[relation]
    }

    /// Interning table `table`.
    pub fn interning_table(&self, table: usize) -> (r: &InterningTable)
        requires
            self.indexes_wf(),
            table < self@.interning.len(),
        ensures
            r@ == self@.interning[table as int],
            r.wf(),
    {
        &self.interning_tables[table]
    }

    /// The counter of `kind`: the next identifier that `fresh` issues.
    pub fn counter(&self, kind: usize) -> (c: u64)
        requires
            kind < self@.counters.len(),
        ensures
            c == self@.counters[kind as int],
    {
        self.counters[kind]
    }
}

/// Counting `auto` columns over a longer prefix counts no fewer.
pub proof fn lemma_autos_before_grows(cols: Seq<ColumnKind>, k: usize, c1: int, c2: int)
    requires
        0 <= c1 <= c2,
    ensures
        autos_before(cols, k, c1) <= autos_before(cols, k, c2),
    decreases c2 - c1,
{
    if c1 < c2 {
        lemma_autos_before_grows(cols, k, c1, c2 - 1);
    }
}

/// The columns of a valid interning table name declared tables.
pub proof fn lemma_table_columns_bounded(schema: DatabaseSchema, t: int)
    requires
        schema.wf(),
        0 <= t < schema.spec_tables().len(),
    ensures
        forall|c: int|
            0 <= c < schema.table_columns(t).len() ==> match #[trigger] schema.table_columns(t)[c] {
                ColumnKind::Incremental { kind, .. } => false,
                ColumnKind::Interned(j) => j < schema.spec_tables().len(),
                _ => true,
            },
{
    assert forall|c: int| 0 <= c < schema.table_columns(t).len() implies match #[trigger] schema.table_columns(t)[c] {
        ColumnKind::Incremental { kind, .. } => false,
        ColumnKind::Interned(j) => j < schema.spec_tables().len(),
        _ => true,
    } by {
        assert(crate::schema::table_column_valid(schema.spec_tables()[t].columns@[c], schema.spec_tables().len()));
    }
}

/// The columns of a valid relation name declared kinds and tables.
pub proof fn lemma_relation_columns_bounded(schema: DatabaseSchema, r: int)
    requires
        schema.wf(),
        0 <= r < schema.spec_relations().len(),
    ensures
        forall|c: int|
            0 <= c < schema.relation_columns(r).len() ==> match #[trigger] schema.relation_columns(r)[c] {
                ColumnKind::Incremental { kind, .. } => kind < schema.spec_ids().len(),
                ColumnKind::Interned(j) => j < schema.spec_tables().len(),
                _ => true,
            },
{
    assert forall|c: int| 0 <= c < schema.relation_columns(r).len() implies match #[trigger] schema.relation_columns(r)[c] {
        ColumnKind::Incremental { kind, .. } => kind < schema.spec_ids().len(),
        ColumnKind::Interned(j) => j < schema.spec_tables().len(),
        _ => true,
    } by {
        assert(crate::schema::relation_column_valid(
            schema.spec_relations()[r].columns@[c],
            schema.spec_ids().len(),
            schema.spec_tables().len(),
        ));
    }
}

} // verus!
