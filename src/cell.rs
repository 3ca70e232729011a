//! Column values, rows of columns, and the content hash that the interning
//! index uses.
use vstd::prelude::*;
use vstd::utf8::encode_utf8;

verus! {

/// One column value of a fact or of an interned tuple.
///
/// Identifiers, enum discriminants and plain integers are `Int`; interned
/// strings and other textual values are `Text`.
#[derive(Debug, Clone)]
pub enum Cell {
    Int(u64),
    Text(String),
}

/// The mathematical model of a [`Cell`].
pub enum CellModel {
    Int(u64),
    Text(Seq<char>),
}

/// The model of a row: the models of its cells, in order.
pub type RowModel = Seq<CellModel>;

impl View for Cell {
    type V = CellModel;

    open spec fn view(&self) -> CellModel {
        match self {
            Cell::Int(n) => CellModel::Int(*n),
            Cell::Text(s) => CellModel::Text(s@),
        }
    }
}

impl PartialEq for Cell {
    fn eq(&self, other: &Cell) -> (r: bool)
        ensures
            r == (self@ == other@),
    {
        match self {
            Cell::Int(a) => match other {
                Cell::Int(b) => *a == *b,
                Cell::Text(_) => false,
            },
            Cell::Text(a) => match other {
                Cell::Int(_) => false,
                Cell::Text(b) => a.eq(b),
            },
        }
    }
}

impl vstd::std_specs::cmp::PartialEqSpecImpl for Cell {
    open spec fn obeys_eq_spec() -> bool {
        true
    }

    open spec fn eq_spec(&self, other: &Cell) -> bool {
        self@ == other@
    }
}

impl Cell {
    /// A copy of this cell with the same model.
    pub fn duplicate(&self) -> (r: Cell)
        ensures
            r@ == self@,
    {
        match self {
            Cell::Int(n) => Cell::Int(*n),
            Cell::Text(s) => Cell::Text(s.clone()),
        }
    }
}

/// The model of a row of cells.
pub open spec fn row_model(r: Vec<Cell>) -> RowModel {
    r@.map_values(|c: Cell| c@)
}

/// The models of a sequence of rows.
pub open spec fn rows_model(rows: Seq<Vec<Cell>>) -> Seq<RowModel> {
    rows.map_values(|r: Vec<Cell>| row_model(r))
}

/// A copy of a row with the same model.
pub fn duplicate_row(r: &Vec<Cell>) -> (out: Vec<Cell>)
    ensures
        row_model(out) == row_model(*r),
{
    let mut out: Vec<Cell> = Vec::new();
    let mut i: usize = 0;
    while i < r.len()
        invariant
            i <= r.len(),
            out@.len() == i,
            forall|j: int| 0 <= j < i ==> out@[j]@ == r@[j]@,
        decreases r.len() - i,
    {
        out.push(r[i].duplicate());
        i = i + 1;
    }
    assert(row_model(out) =~= row_model(*r));
    out
}

/// Whether two rows have the same model.
pub fn rows_equal(a: &Vec<Cell>, b: &Vec<Cell>) -> (r: bool)
    ensures
        r == (row_model(*a) == row_model(*b)),
{
    if a.len() != b.len() {
        assert(row_model(*a).len() != row_model(*b).len());
        return false;
    }
    let mut i: usize = 0;
    while i < a.len()
        invariant
            i <= a.len(),
            a.len() == b.len(),
            forall|j: int| 0 <= j < i ==> a@[j]@ == b@[j]@,
        decreases a.len() - i,
    {
        if !(a[i] == b[i]) {
            assert(row_model(*a)[i as int] != row_model(*b)[i as int]);
            return false;
        }
        i = i + 1;
    }
    assert(row_model(*a) =~= row_model(*b));
    true
}

/// The modulus of the content hash.
pub const HASH_MODULUS: u64 = 1_000_000_007;

/// Polynomial hash of a byte sequence.
pub open spec fn hash_bytes(b: Seq<u8>) -> int
    decreases b.len(),
{
    if b.len() == 0 {
        0
    } else {
        (hash_bytes(b.drop_last()) * 31 + b.last() as int) % (HASH_MODULUS as int)
    }
}

/// Hash of one cell; a text cell is hashed by its UTF-8 encoding.
pub open spec fn hash_cell(c: CellModel) -> int {
    match c {
        CellModel::Int(n) => n as int % (HASH_MODULUS as int),
        CellModel::Text(s) => hash_bytes(encode_utf8(s)),
    }
}

/// Polynomial hash of a row, over the hashes of its cells.
pub open spec fn hash_row(r: RowModel) -> int
    decreases r.len(),
{
    if r.len() == 0 {
        0
    } else {
        (hash_row(r.drop_last()) * 31 + hash_cell(r.last())) % (HASH_MODULUS as int)
    }
}

proof fn lemma_hash_bytes_range(b: Seq<u8>)
    ensures
        0 <= hash_bytes(b) < HASH_MODULUS,
    decreases b.len(),
{
    if b.len() > 0 {
        lemma_hash_bytes_range(b.drop_last());
    }
}

fn text_hash(s: &String) -> (h: u64)
    ensures
        h == hash_bytes(encode_utf8(s@)),
{
    let b = s.as_str().as_bytes();
    let mut h: u64 = 0;
    let mut i: usize = 0;
    while i < b.len()
        invariant
            i <= b@.len(),
            b@ == encode_utf8(s@),
            h == hash_bytes(b@.subrange(0, i as int)),
            h < HASH_MODULUS,
        decreases b@.len() - i,
    {
        assert(b@.subrange(0, i as int + 1).drop_last() =~= b@.subrange(0, i as int));
        h = (h * 31 + b[i] as u64) % HASH_MODULUS;
        i = i + 1;
    }
    assert(b@.subrange(0, b@.len() as int) =~= b@);
    h
}

fn cell_hash(c: &Cell) -> (h: u64)
    ensures
        h == hash_cell(c@),
        h < HASH_MODULUS,
{
    match c {
        Cell::Int(n) => *n % HASH_MODULUS,
        Cell::Text(s) => {
            let h = text_hash(s);
            proof {
                lemma_hash_bytes_range(encode_utf8(s@));
            }
            h
        },
    }
}

/// The content hash of a row: equal models give equal hashes.
pub fn row_hash(r: &Vec<Cell>) -> (h: u64)
    ensures
        h == hash_row(row_model(*r)),
        h < HASH_MODULUS,
{
    let mut h: u64 = 0;
    let mut i: usize = 0;
    while i < r.len()
        invariant
            i <= r.len(),
            h == hash_row(row_model(*r).subrange(0, i as int)),
            h < HASH_MODULUS,
        decreases r.len() - i,
    {
        let ch = cell_hash(&r[i]);
        assert(row_model(*r).subrange(0, i as int + 1).drop_last() =~= row_model(*r).subrange(
            0,
            i as int,
        ));
        h = (h * 31 + ch) % HASH_MODULUS;
        i = i + 1;
    }
    assert(row_model(*r).subrange(0, r.len() as int) =~= row_model(*r));
    h
}

} // verus!
