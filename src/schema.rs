//! The schema: identifier kinds, interning tables and relations, as data.
use vstd::prelude::*;

verus! {

/// The backing integer type of an incremental identifier kind.
#[derive(Clone, Copy, Debug, PartialEq, Eq, Structural)]
pub enum IdWidth {
    U8,
    U16,
    U32,
    U64,
}

/// The largest value that the backing integer type can hold.
pub open spec fn width_max(w: IdWidth) -> nat {
    match w {
        IdWidth::U8 => 0xff,
        IdWidth::U16 => 0xffff,
        IdWidth::U32 => 0xffff_ffff,
        IdWidth::U64 => 0xffff_ffff_ffff_ffff,
    }
}

impl IdWidth {
    /// The largest value that the backing integer type can hold.
    pub fn max_value(&self) -> (r: u64)
        ensures
            r == width_max(*self),
    {
        match self {
            IdWidth::U8 => 0xff,
            IdWidth::U16 => 0xffff,
            IdWidth::U32 => 0xffff_ffff,
            IdWidth::U64 => 0xffff_ffff_ffff_ffff,
        }
    }

    /// `value + offset`, or `None` when the sum does not fit this width.
    pub fn shift(&self, value: u64, offset: u64) -> (r: Option<u64>)
        ensures
            r == if value + offset <= width_max(*self) {
                Some((value + offset) as u64)
            } else {
                None::<u64>
            },
    {
        let max = self.max_value();
        if value > max || offset > max - value {
            None
        } else {
            Some(value + offset)
        }
    }
}

/// A reserved value of an incremental identifier kind.
#[derive(Clone, Debug)]
pub struct Constant {
    pub name: String,
    pub value: u64,
}

/// An identifier kind whose values a counter local to one store generates.
#[derive(Clone, Debug)]
pub struct IncrementalId {
    pub name: String,
    pub width: IdWidth,
    /// The reserved values; together they must occupy `0..constants.len()`.
    pub constants: Vec<Constant>,
}

/// What a column of a relation or of an interned tuple holds.
#[derive(Clone, Copy, Debug, PartialEq, Eq, Structural)]
pub enum ColumnKind {
    /// A plain or enum value, carried through a merge unchanged.
    Plain,
    /// An identifier that is unique across all stores, never renumbered.
    CustomId,
    /// An identifier of the given incremental kind; an `auto` column is
    /// filled from the kind's counter when a fact is registered.
    Incremental { kind: usize, auto: bool },
    /// A key of the given interning table.
    Interned(usize),
}

/// An interning table: its values are tuples of the given columns.
#[derive(Clone, Debug)]
pub struct InterningTableDecl {
    pub name: String,
    pub columns: Vec<ColumnKind>,
}

/// A relation: its facts are tuples of the given columns.
#[derive(Clone, Debug)]
pub struct RelationDecl {
    pub name: String,
    pub columns: Vec<ColumnKind>,
}

/// Why a set of declarations is not a schema.
#[derive(Clone, Debug, PartialEq, Eq)]
pub enum SchemaError {
    /// The constants of this kind do not occupy `0..n` exactly, or do not
    /// fit its width.
    InvalidConstants { kind: usize },
    /// This column of an interning table names an unknown table, or is an
    /// incremental identifier.
    InvalidTableColumn { table: usize, column: usize },
    /// This column of a relation names an unknown kind or table.
    InvalidRelationColumn { relation: usize, column: usize },
    /// These interning tables depend on each other in a cycle.
    Cycle { tables: Vec<usize> },
}

/// The constants of a kind fit its width and occupy `0..n` exactly.
pub open spec fn kind_valid(id: IncrementalId) -> bool {
    let c = id.constants@;
    &&& c.len() <= width_max(id.width)
    &&& forall|i: int| 0 <= i < c.len() ==> (#[trigger] c[i]).value < c.len()
    &&& forall|i: int, j: int| 0 <= i < j < c.len() ==> c[i].value != c[j].value
}

/// A column of an interning table is plain, a custom identifier, or a key
/// of a declared table.
pub open spec fn table_column_valid(c: ColumnKind, num_tables: nat) -> bool {
    match c {
        ColumnKind::Plain => true,
        ColumnKind::CustomId => true,
        ColumnKind::Incremental { .. } => false,
        ColumnKind::Interned(j) => j < num_tables,
    }
}

/// A column of a relation names a declared kind or table.
pub open spec fn relation_column_valid(c: ColumnKind, num_kinds: nat, num_tables: nat) -> bool {
    match c {
        ColumnKind::Plain => true,
        ColumnKind::CustomId => true,
        ColumnKind::Incremental { kind, .. } => kind < num_kinds,
        ColumnKind::Interned(j) => j < num_tables,
    }
}

/// Every declaration is valid on its own (acyclicity aside).
pub open spec fn decls_valid(
    ids: Seq<IncrementalId>,
    tables: Seq<InterningTableDecl>,
    relations: Seq<RelationDecl>,
) -> bool {
    &&& forall|k: int| 0 <= k < ids.len() ==> kind_valid(#[trigger] ids[k])
    &&& forall|t: int, c: int|
        0 <= t < tables.len() && 0 <= c < tables[t].columns@.len() ==> table_column_valid(
            #[trigger] tables[t].columns@[c],
            tables.len(),
        )
    &&& forall|r: int, c: int|
        0 <= r < relations.len() && 0 <= c < relations[r].columns@.len()
            ==> relation_column_valid(#[trigger] relations[r].columns@[c], ids.len(), tables.len())
}

/// Table `t` has a column that is a key of table `j`.
pub open spec fn depends_on(tables: Seq<InterningTableDecl>, t: int, j: usize) -> bool {
    exists|c: int|
        0 <= c < tables[t].columns@.len() && #[trigger] tables[t].columns@[c]
            == ColumnKind::Interned(j)
}

/// `order` lists every table once, each after the tables that it depends on.
pub open spec fn topological(tables: Seq<InterningTableDecl>, order: Seq<usize>) -> bool {
    &&& order.no_duplicates()
    &&& forall|t: usize| t < tables.len() ==> #[trigger] order.contains(t)
    &&& forall|p: int| 0 <= p < order.len() ==> (#[trigger] order[p]) < tables.len()
    &&& forall|p: int, j: usize|
        0 <= p < order.len() && #[trigger] depends_on(tables, order[p] as int, j)
            ==> order.subrange(0, p).contains(j)
}

/// `s` is a nonempty set of tables each of which depends on one in `s`.
pub open spec fn cyclic_witness(tables: Seq<InterningTableDecl>, s: Seq<usize>) -> bool {
    &&& s.len() > 0
    &&& forall|p: int| 0 <= p < s.len() ==> (#[trigger] s[p]) < tables.len()
    &&& forall|p: int| 0 <= p < s.len() ==> depends_within(tables, #[trigger] s[p], s)
}

/// Table `t` depends on a table listed in `s`.
pub open spec fn depends_within(tables: Seq<InterningTableDecl>, t: usize, s: Seq<usize>) -> bool {
    exists|j: usize| #[trigger] depends_on(tables, t as int, j) && s.contains(j)
}

/// A validated schema, with an order of the interning tables in which
/// each comes after the tables that its values refer to.
pub struct DatabaseSchema {
    ids: Vec<IncrementalId>,
    tables: Vec<InterningTableDecl>,
    relations: Vec<RelationDecl>,
    order: Vec<usize>,
}

impl DatabaseSchema {
    pub closed spec fn spec_ids(&self) -> Seq<IncrementalId> {
        self.ids@
    }

    pub closed spec fn spec_tables(&self) -> Seq<InterningTableDecl> {
        self.tables@
    }

    pub closed spec fn spec_relations(&self) -> Seq<RelationDecl> {
        self.relations@
    }

    pub closed spec fn spec_order(&self) -> Seq<usize> {
        self.order@
    }

    /// The number of reserved constants of kind `k`.
    pub open spec fn num_constants(&self, k: int) -> nat {
        self.spec_ids()[k].constants@.len()
    }

    /// The largest value of kind `k`.
    pub open spec fn max_of(&self, k: int) -> nat {
        width_max(self.spec_ids()[k].width)
    }

    /// The columns of interning table `t`.
    pub open spec fn table_columns(&self, t: int) -> Seq<ColumnKind> {
        self.spec_tables()[t].columns@
    }

    /// The columns of relation `r`.
    pub open spec fn relation_columns(&self, r: int) -> Seq<ColumnKind> {
        self.spec_relations()[r].columns@
    }

    /// The declaration counts fit in `usize`.
    pub proof fn lemma_len_bounds(&self)
        ensures
            self.spec_ids().len() <= usize::MAX,
            self.spec_tables().len() <= usize::MAX,
            self.spec_relations().len() <= usize::MAX,
    {
        assert(self.ids@.len() == self.ids.len());
        assert(self.tables@.len() == self.tables.len());
        assert(self.relations@.len() == self.relations.len());
    }

    /// The schema's invariant.
    pub open spec fn wf(&self) -> bool {
        &&& decls_valid(self.spec_ids(), self.spec_tables(), self.spec_relations())
        &&& topological(self.spec_tables(), self.spec_order())
    }

    /// Validates the declarations and orders the interning tables.
    pub fn new(
        ids: Vec<IncrementalId>,
        tables: Vec<InterningTableDecl>,
        relations: Vec<RelationDecl>,
    ) -> (r: Result<DatabaseSchema, SchemaError>)
        ensures
            match r {
                Ok(s) => {
                    &&& s.wf()
                    &&& s.spec_ids() == ids@
                    &&& s.spec_tables() == tables@
                    &&& s.spec_relations() == relations@
                },
                Err(SchemaError::InvalidConstants { kind }) => {
                    &&& kind < ids@.len()
                    &&& !kind_valid(ids@[kind as int])
                },
                Err(SchemaError::InvalidTableColumn { table, column }) => {
                    &&& table < tables@.len()
                    &&& column < tables@[table as int].columns@.len()
                    &&& !table_column_valid(
                        tables@[table as int].columns@[column as int],
                        tables@.len(),
                    )
                },
                Err(SchemaError::InvalidRelationColumn { relation, column }) => {
                    &&& relation < relations@.len()
                    &&& column < relations@[relation as int].columns@.len()
                    &&& !relation_column_valid(
                        relations@[relation as int].columns@[column as int],
                        ids@.len(),
                        tables@.len(),
                    )
                },
                Err(SchemaError::Cycle { tables: stuck }) => {
                    &&& decls_valid(ids@, tables@, relations@)
                    &&& cyclic_witness(tables@, stuck@)
                },
            },
    {
        let mut k: usize = 0;
        while k < ids.len()
            invariant
                k <= ids@.len(),
                forall|i: int| 0 <= i < k ==> kind_valid(#[trigger] ids@[i]),
            decreases ids@.len() - k,
        {
            if !check_constants(&ids[k]) {
                return Err(SchemaError::InvalidConstants { kind: k });
            }
            k = k + 1;
        }
        let n = tables.len();
        let mut t: usize = 0;
        while t < n
            invariant
                n == tables@.len(),
                t <= n,
                forall|tt: int, c: int|
                    0 <= tt < t && 0 <= c < tables@[tt].columns@.len() ==> table_column_valid(
                        #[trigger] tables@[tt].columns@[c],
                        n as nat,
                    ),
            decreases n - t,
        {
            let cols = &tables[t].columns;
            let mut c: usize = 0;
            while c < cols.len()
                invariant
                    n == tables@.len(),
                    t < n,
                    *cols == tables@[t as int].columns,
                    c <= cols@.len(),
                    forall|tt: int, cc: int|
                        0 <= tt < t && 0 <= cc < tables@[tt].columns@.len() ==> table_column_valid(
                            #[trigger] tables@[tt].columns@[cc],
                            n as nat,
                        ),
                    forall|cc: int| 0 <= cc < c ==> table_column_valid(#[trigger] cols@[cc], n as nat),
                decreases cols@.len() - c,
            {
                let ok = match cols[c] {
                    ColumnKind::Interned(j) => j < n,
                    ColumnKind::Incremental { .. } => false,
                    _ => true,
                };
                if !ok {
                    return Err(SchemaError::InvalidTableColumn { table: t, column: c });
                }
                c = c + 1;
            }
            t = t + 1;
        }
        let mut r: usize = 0;
        while r < relations.len()
            invariant
                n == tables@.len(),
                r <= relations@.len(),
                forall|rr: int, c: int|
                    0 <= rr < r && 0 <= c < relations@[rr].columns@.len() ==> relation_column_valid(
                        #[trigger] relations@[rr].columns@[c],
                        ids@.len(),
                        n as nat,
                    ),
            decreases relations@.len() - r,
        {
            let cols = &relations[r].columns;
            let mut c: usize = 0;
            while c < cols.len()
                invariant
                    n == tables@.len(),
                    r < relations@.len(),
                    *cols == relations@[r as int].columns,
                    c <= cols@.len(),
                    forall|rr: int, cc: int|
                        0 <= rr < r && 0 <= cc < relations@[rr].columns@.len()
                            ==> relation_column_valid(
                            #[trigger] relations@[rr].columns@[cc],
                            ids@.len(),
                            n as nat,
                        ),
                    forall|cc: int|
                        0 <= cc < c ==> relation_column_valid(
                            #[trigger] cols@[cc],
                            ids@.len(),
                            n as nat,
                        ),
                decreases cols@.len() - c,
            {
                let ok = match cols[c] {
                    ColumnKind::Interned(j) => j < n,
                    ColumnKind::Incremental { kind, .. } => kind < ids.len(),
                    _ => true,
                };
                if !ok {
                    return Err(SchemaError::InvalidRelationColumn { relation: r, column: c });
                }
                c = c + 1;
            }
            r = r + 1;
        }
        match order_tables(&tables) {
            Ok(order) => Ok(DatabaseSchema { ids, tables, relations, order }),
            Err(stuck) => Err(SchemaError::Cycle { tables: stuck }),
        }
    }

    /// The number of incremental identifier kinds.
    pub fn num_kinds(&self) -> (n: usize)
        ensures
            n == self.spec_ids().len(),
    {
        self.ids.len()
    }

    /// The number of interning tables.
    pub fn num_tables(&self) -> (n: usize)
        ensures
            n == self.spec_tables().len(),
    {
        self.tables.len()
    }

    /// The number of relations.
    pub fn num_relations(&self) -> (n: usize)
        ensures
            n == self.spec_relations().len(),
    {
        self.relations.len()
    }

    /// The declaration of incremental kind `k`.
    pub fn id_kind(&self, k: usize) -> (r: &IncrementalId)
        requires
            k < self.spec_ids().len(),
        ensures
            *r == self.spec_ids()[k as int],
    {
        &self.ids[k]
    }

    /// The value of the reserved constant of kind `k` named `name`, if the
    /// kind declares one; the first such constant when names repeat.
    pub fn constant(&self, k: usize, name: &String) -> (r: Option<u64>)
        requires
            k < self.spec_ids().len(),
        ensures
            match r {
                Some(v) => exists|i: int|
                    0 <= i < self.spec_ids()[k as int].constants@.len()
                        && (#[trigger] self.spec_ids()[k as int].constants@[i]).name@ == name@
                        && self.spec_ids()[k as int].constants@[i].value == v,
                None => forall|i: int|
                    0 <= i < self.spec_ids()[k as int].constants@.len()
                        ==> (#[trigger] self.spec_ids()[k as int].constants@[i]).name@ != name@,
            },
    {
        let constants = &self.ids[k].constants;
        let mut i: usize = 0;
        while i < constants.len()
            invariant
                *constants == self.spec_ids()[k as int].constants,
                i <= constants@.len(),
                forall|j: int| 0 <= j < i ==> (#[trigger] constants@[j]).name@ != name@,
            decreases constants@.len() - i,
        {
            if constants[i].name == *name {
                return Some(constants[i].value);
            }
            i = i + 1;
        }
        None
    }

    /// The declaration of interning table `t`.
    pub fn table(&self, t: usize) -> (r: &InterningTableDecl)
        requires
            t < self.spec_tables().len(),
        ensures
            *r == self.spec_tables()[t as int],
    {
        &self.tables[t]
    }

    /// The declaration of relation `r`.
    pub fn relation(&self, r: usize) -> (d: &RelationDecl)
        requires
            r < self.spec_relations().len(),
        ensures
            *d == self.spec_relations()[r as int],
    {
        &self.relations[r]
    }

    /// The interning tables, each after the tables its values refer to.
    pub fn table_order(&self) -> (r: &Vec<usize>)
        ensures
            r@ == self.spec_order(),
    {
        &self.order
    }
}

/// Whether the constants of a kind fit its width and occupy `0..n` exactly.
fn check_constants(id: &IncrementalId) -> (r: bool)
    ensures
        r == kind_valid(*id),
{
    let c = &id.constants;
    let n = c.len();
    if n as u64 > id.width.max_value() {
        return false;
    }
    let mut i: usize = 0;
    while i < n
        invariant
            n == c@.len(),
            *c == id.constants,
            c@.len() <= width_max(id.width),
            i <= n,
            forall|a: int| 0 <= a < i ==> (#[trigger] c@[a]).value < n,
            forall|a: int, b: int| 0 <= a < b < n && a < i ==> c@[a].value != c@[b].value,
        decreases n - i,
    {
        if c[i].value >= n as u64 {
            assert(!kind_valid(*id)) by {
                assert(id.constants@[i as int].value >= id.constants@.len());
            }
            return false;
        }
        let mut j: usize = i + 1;
        while j < n
            invariant
                n == c@.len(),
                *c == id.constants,
                i < j <= n,
                forall|b: int| i < b < j ==> c@[i as int].value != (#[trigger] c@[b]).value,
            decreases n - j,
        {
            if c[i].value == c[j].value {
                assert(c@[i as int].value == c@[j as int].value);
                assert(!kind_valid(*id)) by {
                    let cc = id.constants@;
                    assert(cc[i as int].value == cc[j as int].value);
                }
                return false;
            }
            j = j + 1;
        }
        i = i + 1;
    }
    true
}

/// The number of `false` entries.
spec fn count_unplaced(s: Seq<bool>) -> nat
    decreases s.len(),
{
    if s.len() == 0 {
        0
    } else {
        count_unplaced(s.drop_last()) + if s.last() {
            0nat
        } else {
            1nat
        }
    }
}

proof fn lemma_count_unplaced_update(s: Seq<bool>, i: int)
    requires
        0 <= i < s.len(),
        !s[i],
    ensures
        count_unplaced(s.update(i, true)) + 1 == count_unplaced(s),
    decreases s.len(),
{
    let u = s.update(i, true);
    if i < s.len() - 1 {
        assert(u.drop_last() =~= s.drop_last().update(i, true));
        lemma_count_unplaced_update(s.drop_last(), i);
    } else {
        assert(u.drop_last() =~= s.drop_last());
    }
}

/// Whether every table that table `t` depends on is placed.
fn deps_placed(tables: &Vec<InterningTableDecl>, placed: &Vec<bool>, t: usize) -> (r: bool)
    requires
        t < tables@.len(),
        placed@.len() == tables@.len(),
    ensures
        r == (forall|j: usize| #[trigger]
            depends_on(tables@, t as int, j) ==> j < placed@.len() && placed@[j as int]),
{
    let cols = &tables[t].columns;
    let mut c: usize = 0;
    while c < cols.len()
        invariant
            *cols == tables@[t as int].columns,
            placed@.len() == tables@.len(),
            c <= cols@.len(),
            forall|cc: int|
                0 <= cc < c ==> match #[trigger] cols@[cc] {
                    ColumnKind::Interned(j) => j < placed@.len() && placed@[j as int],
                    _ => true,
                },
        decreases cols@.len() - c,
    {
        match cols[c] {
            ColumnKind::Interned(j) => {
                if j >= placed.len() || !placed[j] {
                    assert(cols@[c as int] == ColumnKind::Interned(j));
                    assert(depends_on(tables@, t as int, j));
                    return false;
                }
            },
            _ => {},
        }
        c = c + 1;
    }
    proof {
        assert forall|j: usize| #[trigger] depends_on(tables@, t as int, j) implies j
            < placed@.len() && placed@[j as int] by {
            let cc = choose|cc: int|
                0 <= cc < cols@.len() && #[trigger] cols@[cc] == ColumnKind::Interned(j);
            assert(cols@[cc] == ColumnKind::Interned(j));
        }
    }
    true
}

/// Orders the tables so that each comes after the tables it depends on,
/// or returns a set of tables that depend on each other in a cycle.
fn order_tables(tables: &Vec<InterningTableDecl>) -> (r: Result<Vec<usize>, Vec<usize>>)
    requires
        forall|t: int, c: int|
            0 <= t < tables@.len() && 0 <= c < tables@[t].columns@.len() ==> table_column_valid(
                #[trigger] tables@[t].columns@[c],
                tables@.len(),
            ),
    ensures
        match r {
            Ok(order) => topological(tables@, order@),
            Err(stuck) => cyclic_witness(tables@, stuck@),
        },
{
    let n = tables.len();
    let mut placed: Vec<bool> = Vec::new();
    let mut i: usize = 0;
    while i < n
        invariant
            i <= n,
            placed@.len() == i,
            forall|j: int| 0 <= j < i ==> !placed@[j],
        decreases n - i,
    {
        placed.push(false);
        i = i + 1;
    }
    let mut order: Vec<usize> = Vec::new();
    loop
        invariant
            n == tables@.len(),
            forall|t: int, c: int|
                0 <= t < tables@.len() && 0 <= c < tables@[t].columns@.len() ==> table_column_valid(
                    #[trigger] tables@[t].columns@[c],
                    tables@.len(),
                ),
            placed@.len() == n,
            order@.no_duplicates(),
            forall|j: usize| j < n ==> (placed@[j as int] <==> #[trigger] order@.contains(j)),
            forall|p: int| 0 <= p < order@.len() ==> (#[trigger] order@[p]) < n,
            forall|p: int, j: usize|
                0 <= p < order@.len() && #[trigger] depends_on(tables@, order@[p] as int, j)
                    ==> order@.subrange(0, p).contains(j),
        decreases count_unplaced(placed@),
    {
        let mut progress = false;
        let ghost start = placed@;
        let mut t: usize = 0;
        while t < n
            invariant
                n == tables@.len(),
                forall|t: int, c: int|
                    0 <= t < tables@.len() && 0 <= c < tables@[t].columns@.len()
                        ==> table_column_valid(#[trigger] tables@[t].columns@[c], tables@.len()),
                placed@.len() == n,
                t <= n,
                order@.no_duplicates(),
                forall|j: usize| j < n ==> (placed@[j as int] <==> #[trigger] order@.contains(j)),
                forall|p: int| 0 <= p < order@.len() ==> (#[trigger] order@[p]) < n,
                forall|p: int, j: usize|
                    0 <= p < order@.len() && #[trigger] depends_on(tables@, order@[p] as int, j)
                        ==> order@.subrange(0, p).contains(j),
                progress ==> count_unplaced(placed@) < count_unplaced(start),
                !progress ==> placed@ == start,
                !progress ==> forall|u: int|
                    0 <= u < t && !placed@[u] ==> exists|j: usize| #[trigger]
                        depends_on(tables@, u, j) && !(j < n && placed@[j as int]),
            decreases n - t,
        {
            if !placed[t] && deps_placed(tables, &placed, t) {
                let ghost before = placed@;
                let ghost old_order = order@;
                proof {
                    lemma_count_unplaced_update(placed@, t as int);
                }
                placed.set(t, true);
                order.push(t);
                progress = true;
                proof {
                    assert(!old_order.contains(t));
                    assert forall|a: int, b: int|
                        0 <= a < order@.len() && 0 <= b < order@.len() && a != b implies order@[a]
                        != order@[b] by {
                        if a < old_order.len() && b < old_order.len() {
                            assert(old_order[a] != old_order[b]);
                        } else if a < old_order.len() {
                            assert(old_order.contains(old_order[a]));
                        } else {
                            assert(old_order.contains(old_order[b]));
                        }
                    }
                    assert(order@.subrange(0, old_order.len() as int) =~= old_order);
                    assert forall|j: usize| j < n implies (placed@[j as int] <==> #[trigger] order@.contains(
                        j,
                    )) by {
                        if j != t {
                            assert(before[j as int] == placed@[j as int]);
                            if order@.contains(j) {
                                let p = choose|p: int|
                                    0 <= p < order@.len() && order@[p] == j;
                                assert(old_order[p] == j);
                            }
                            if old_order.contains(j) {
                                let p = choose|p: int|
                                    0 <= p < old_order.len() && old_order[p] == j;
                                assert(order@[p] == j);
                            }
                        } else {
                            assert(order@[old_order.len() as int] == t);
                        }
                    }
                    assert forall|p: int, j: usize|
                        0 <= p < order@.len() && #[trigger] depends_on(
                            tables@,
                            order@[p] as int,
                            j,
                        ) implies order@.subrange(0, p).contains(j) by {
                        if p < old_order.len() {
                            assert(order@.subrange(0, p) =~= old_order.subrange(0, p));
                        } else {
                            assert(order@.subrange(0, p) =~= old_order);
                            assert(before[j as int]);
                            assert(old_order.contains(j));
                        }
                    }
                }
            }
            t = t + 1;
        }
        if !progress {
            let mut stuck: Vec<usize> = Vec::new();
            let mut u: usize = 0;
            while u < n
                invariant
                    n == tables@.len(),
                    placed@.len() == n,
                    u <= n,
                    forall|p: int| 0 <= p < stuck@.len() ==> (#[trigger] stuck@[p]) < n,
                    forall|p: int| 0 <= p < stuck@.len() ==> !placed@[stuck@[p] as int],
                    forall|v: int| 0 <= v < u && !placed@[v] ==> stuck@.contains(v as usize),
                decreases n - u,
            {
                if !placed[u] {
                    let ghost old_stuck = stuck@;
                    stuck.push(u);
                    proof {
                        assert forall|v: int| 0 <= v < u + 1 && !placed@[v] implies stuck@.contains(
                            v as usize,
                        ) by {
                            if v < u {
                                let p = choose|p: int|
                                    0 <= p < old_stuck.len() && old_stuck[p] == v as usize;
                                assert(stuck@[p] == v as usize);
                            } else {
                                assert(stuck@[old_stuck.len() as int] == u);
                            }
                        }
                    }
                }
                u = u + 1;
            }
            if stuck.len() == 0 {
                proof {
                    assert forall|t: usize| t < n implies #[trigger] order@.contains(t) by {
                        if !placed@[t as int] {
                            assert(stuck@.contains(t));
                        }
                    }
                }
                return Ok(order);
            }
            proof {
                assert forall|p: int| 0 <= p < stuck@.len() implies depends_within(
                    tables@,
                    #[trigger] stuck@[p],
                    stuck@,
                ) by {
                    let v = stuck@[p] as int;
                    let j = choose|j: usize| #[trigger]
                        depends_on(tables@, v, j) && !(j < n && placed@[j as int]);
                    let c = choose|c: int|
                        0 <= c < tables@[v].columns@.len() && #[trigger] tables@[v].columns@[c]
                            == ColumnKind::Interned(j);
                    assert(table_column_valid(tables@[v].columns@[c], n as nat));
                    assert(stuck@.contains(j));
                    assert(depends_on(tables@, stuck@[p] as int, j) && stuck@.contains(j));
                }
                assert(stuck@.len() > 0);
                assert(forall|p: int| 0 <= p < stuck@.len() ==> (#[trigger] stuck@[p]) < tables@.len());
            }
            return Err(stuck);
        }
    }
}

/// A cycle witness rules out every topological order.
pub proof fn lemma_cycle_excludes_order(
    tables: Seq<InterningTableDecl>,
    stuck: Seq<usize>,
    order: Seq<usize>,
)
    requires
        cyclic_witness(tables, stuck),
    ensures
        !topological(tables, order),
{
    if topological(tables, order) {
        // The member of the witness that comes first in the order depends
        // on a member that comes even earlier.
        assert(stuck[0] < tables.len());
        assert(order.contains(stuck[0]));
        let p0 = choose|p0: int| 0 <= p0 < order.len() && order[p0] == stuck[0];
        assert(stuck.contains(order[p0]));
        let first = earliest_position(stuck, order, order.len() as int);
        let p = choose|p: int| 0 <= p < stuck.len() && stuck[p] == order[first];
        assert(depends_within(tables, stuck[p], stuck));
        let j = choose|j: usize| #[trigger] depends_on(tables, stuck[p] as int, j) && stuck.contains(
            j,
        );
        assert(order.subrange(0, first).contains(j));
        let q = choose|q: int| 0 <= q < first && order.subrange(0, first)[q] == j;
        assert(order[q] == j);
        assert(!stuck.contains(order[q]));
    }
}

/// The first position below `bound` in `order` that holds a member of
/// `stuck`, given that one exists.
proof fn earliest_position(stuck: Seq<usize>, order: Seq<usize>, bound: int) -> (first: int)
    requires
        stuck.len() > 0,
        0 <= bound <= order.len(),
        exists|p: int| 0 <= p < bound && stuck.contains(#[trigger] order[p]),
    ensures
        0 <= first < bound,
        stuck.contains(order[first]),
        forall|q: int| 0 <= q < first ==> !stuck.contains(#[trigger] order[q]),
    decreases bound,
{
    if exists|p: int| 0 <= p < bound - 1 && stuck.contains(#[trigger] order[p]) {
        earliest_position(stuck, order, bound - 1)
    } else {
        bound - 1
    }
}

} // verus!
