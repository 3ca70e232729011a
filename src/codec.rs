//! The compact binary encoding of stores: integers as eight little-endian
//! bytes, sequences with their length in front.
use crate::cell::{duplicate_row, row_model, rows_model, Cell, CellModel, RowModel};
use crate::schema::{ColumnKind, DatabaseSchema};
use crate::tables::{
    cell_conforms, empty_model, lemma_relation_columns_bounded, lemma_table_columns_bounded,
    model_wf, row_conforms, Tables, TablesModel,
};
use vstd::prelude::*;
use vstd::utf8::{decode_utf8, encode_utf8, valid_utf8};

verus! {

broadcast use vstd::utf8::encode_utf8_decode_utf8, vstd::utf8::encode_utf8_valid_utf8;

/// Eight little-endian bytes.
pub open spec fn enc_u64(v: u64) -> Seq<u8> {
    seq![
        (v & 0xff) as u8,
        ((v >> 8) & 0xff) as u8,
        ((v >> 16) & 0xff) as u8,
        ((v >> 24) & 0xff) as u8,
        ((v >> 32) & 0xff) as u8,
        ((v >> 40) & 0xff) as u8,
        ((v >> 48) & 0xff) as u8,
        ((v >> 56) & 0xff) as u8,
    ]
}

/// A tag byte, then an integer, or a length and UTF-8 bytes.
pub open spec fn enc_cell(c: CellModel) -> Seq<u8> {
    match c {
        CellModel::Int(v) => seq![0u8] + enc_u64(v),
        CellModel::Text(s) => seq![1u8] + enc_u64(encode_utf8(s).len() as u64) + encode_utf8(s),
    }
}

pub open spec fn cell_encoder() -> spec_fn(CellModel) -> Seq<u8> {
    |c: CellModel| enc_cell(c)
}

pub open spec fn row_encoder() -> spec_fn(RowModel) -> Seq<u8> {
    |r: RowModel| enc_row(r)
}

pub open spec fn u64_encoder() -> spec_fn(u64) -> Seq<u8> {
    |v: u64| enc_u64(v)
}

pub open spec fn enc_cells(r: RowModel) -> Seq<u8> {
    r.map_values(cell_encoder()).flatten()
}

/// The number of cells, then the cells.
pub open spec fn enc_row(r: RowModel) -> Seq<u8> {
    enc_u64(r.len() as u64) + enc_cells(r)
}

pub open spec fn enc_row_list(rs: Seq<RowModel>) -> Seq<u8> {
    rs.map_values(row_encoder()).flatten()
}

/// The number of rows, then the rows: a relation or an interning table.
pub open spec fn enc_rows(rs: Seq<RowModel>) -> Seq<u8> {
    enc_u64(rs.len() as u64) + enc_row_list(rs)
}

pub open spec fn enc_u64_list(cs: Seq<u64>) -> Seq<u8> {
    cs.map_values(u64_encoder()).flatten()
}

/// The number of counters, then the counters.
pub open spec fn enc_counters(cs: Seq<u64>) -> Seq<u8> {
    enc_u64(cs.len() as u64) + enc_u64_list(cs)
}

/// Every length in a cell fits the eight-byte length field.
pub open spec fn cell_fits(c: CellModel) -> bool {
    match c {
        CellModel::Int(_) => true,
        CellModel::Text(s) => encode_utf8(s).len() <= u64::MAX,
    }
}

pub open spec fn row_fits(r: RowModel) -> bool {
    &&& r.len() <= u64::MAX
    &&& forall|i: int| 0 <= i < r.len() ==> cell_fits(#[trigger] r[i])
}

pub open spec fn rows_fit(rs: Seq<RowModel>) -> bool {
    &&& rs.len() <= u64::MAX
    &&& forall|i: int| 0 <= i < rs.len() ==> row_fits(#[trigger] rs[i])
}

/// `b` holds `e` at `pos`.
pub open spec fn holds_at(b: Seq<u8>, pos: int, e: Seq<u8>) -> bool {
    &&& 0 <= pos
    &&& pos + e.len() <= b.len()
    &&& b.subrange(pos, pos + e.len()) == e
}

proof fn lemma_holds_split(b: Seq<u8>, pos: int, x: Seq<u8>, y: Seq<u8>)
    requires
        holds_at(b, pos, x + y),
    ensures
        holds_at(b, pos, x),
        holds_at(b, pos + x.len(), y),
{
    let whole = b.subrange(pos, pos + (x + y).len());
    assert(whole == x + y);
    assert forall|i: int| 0 <= i < x.len() implies b.subrange(pos, pos + x.len())[i] == x[i] by {
        assert(whole[i] == (x + y)[i]);
    }
    assert(b.subrange(pos, pos + x.len()) =~= x);
    assert forall|i: int| 0 <= i < y.len() implies b.subrange(
        pos + x.len(),
        pos + x.len() + y.len(),
    )[i] == y[i] by {
        assert(whole[x.len() + i] == (x + y)[x.len() + i]);
    }
    assert(b.subrange(pos + x.len(), pos + x.len() + y.len()) =~= y);
}

proof fn lemma_holds_concat(b: Seq<u8>, pos: int, x: Seq<u8>, y: Seq<u8>)
    requires
        holds_at(b, pos, x),
        holds_at(b, pos + x.len(), y),
    ensures
        holds_at(b, pos, x + y),
{
    assert forall|i: int| 0 <= i < (x + y).len() implies b.subrange(pos, pos + (x + y).len())[i] == (x
        + y)[i] by {
        if i < x.len() {
            assert(b.subrange(pos, pos + x.len())[i] == x[i]);
        } else {
            assert(b.subrange(pos + x.len(), pos + x.len() + y.len())[i - x.len()] == y[i - x.len()]);
        }
    }
    assert(b.subrange(pos, pos + (x + y).len()) =~= x + y);
}

proof fn lemma_flatten_head<A>(s: Seq<Seq<A>>, i: int)
    requires
        0 <= i < s.len(),
    ensures
        s.skip(i).flatten() == s[i] + s.skip(i + 1).flatten(),
{
    assert(s.skip(i).drop_first() =~= s.skip(i + 1));
}

proof fn lemma_flatten_split<A>(s: Seq<Seq<A>>, i: int)
    requires
        0 <= i <= s.len(),
    ensures
        s.flatten() == s.take(i).flatten() + s.skip(i).flatten(),
    decreases i,
{
    if i == 0 {
        assert(s.take(0) =~= Seq::<Seq<A>>::empty());
        assert(s.skip(0) =~= s);
        assert(s.take(0).flatten() + s.skip(0).flatten() =~= s.flatten());
    } else {
        lemma_flatten_split(s, i - 1);
        lemma_flatten_head(s, i - 1);
        assert(s.take(i) =~= s.take(i - 1).push(s[i - 1]));
        s.take(i - 1).lemma_flatten_push(s[i - 1]);
        assert(s.take(i - 1).flatten() + (s[i - 1] + s.skip(i).flatten()) =~= (s.take(i - 1).flatten()
            + s[i - 1]) + s.skip(i).flatten());
    }
}

proof fn lemma_u64_bytes(v: u64)
    ensures
        (v & 0xff) <= 0xff,
        ((v >> 8) & 0xff) <= 0xff,
        ((v >> 16) & 0xff) <= 0xff,
        ((v >> 24) & 0xff) <= 0xff,
        ((v >> 32) & 0xff) <= 0xff,
        ((v >> 40) & 0xff) <= 0xff,
        ((v >> 48) & 0xff) <= 0xff,
        ((v >> 56) & 0xff) <= 0xff,
        (v & 0xff) | (((v >> 8) & 0xff) << 8) | (((v >> 16) & 0xff) << 16) | (((v >> 24) & 0xff)
            << 24) | (((v >> 32) & 0xff) << 32) | (((v >> 40) & 0xff) << 40) | (((v >> 48) & 0xff)
            << 48) | (((v >> 56) & 0xff) << 56) == v,
{
    assert((v & 0xff) <= 0xff && ((v >> 8) & 0xff) <= 0xff && ((v >> 16) & 0xff) <= 0xff && ((v
        >> 24) & 0xff) <= 0xff && ((v >> 32) & 0xff) <= 0xff && ((v >> 40) & 0xff) <= 0xff && ((v
        >> 48) & 0xff) <= 0xff && ((v >> 56) & 0xff) <= 0xff) by (bit_vector);
    assert((v & 0xff) | (((v >> 8) & 0xff) << 8) | (((v >> 16) & 0xff) << 16) | (((v >> 24)
        & 0xff) << 24) | (((v >> 32) & 0xff) << 32) | (((v >> 40) & 0xff) << 40) | (((v >> 48)
        & 0xff) << 48) | (((v >> 56) & 0xff) << 56) == v) by (bit_vector);
}

proof fn lemma_bytes_u64(b0: u8, b1: u8, b2: u8, b3: u8, b4: u8, b5: u8, b6: u8, b7: u8)
    ensures
        ({
            let x = (b0 as u64) | ((b1 as u64) << 8) | ((b2 as u64) << 16) | ((b3 as u64) << 24)
                | ((b4 as u64) << 32) | ((b5 as u64) << 40) | ((b6 as u64) << 48) | ((b7 as u64)
                << 56);
            enc_u64(x) == seq![b0, b1, b2, b3, b4, b5, b6, b7]
        }),
{
    let x = (b0 as u64) | ((b1 as u64) << 8) | ((b2 as u64) << 16) | ((b3 as u64) << 24) | ((b4
        as u64) << 32) | ((b5 as u64) << 40) | ((b6 as u64) << 48) | ((b7 as u64) << 56);
    assert((x & 0xff) as u8 == b0 && ((x >> 8) & 0xff) as u8 == b1 && ((x >> 16) & 0xff) as u8
        == b2 && ((x >> 24) & 0xff) as u8 == b3 && ((x >> 32) & 0xff) as u8 == b4 && ((x >> 40)
        & 0xff) as u8 == b5 && ((x >> 48) & 0xff) as u8 == b6 && ((x >> 56) & 0xff) as u8 == b7)
        by (bit_vector)
        requires
            x == (b0 as u64) | ((b1 as u64) << 8) | ((b2 as u64) << 16) | ((b3 as u64) << 24) | ((b4
                as u64) << 32) | ((b5 as u64) << 40) | ((b6 as u64) << 48) | ((b7 as u64) << 56),
    ;
    assert(enc_u64(x) =~= seq![b0, b1, b2, b3, b4, b5, b6, b7]);
}

/// Appends the eight bytes of `v`.
pub fn push_u64(out: &mut Vec<u8>, v: u64)
    ensures
        final(out)@ == old(out)@ + enc_u64(v),
{
    out.push((v & 0xff) as u8);
    out.push(((v >> 8) & 0xff) as u8);
    out.push(((v >> 16) & 0xff) as u8);
    out.push(((v >> 24) & 0xff) as u8);
    out.push(((v >> 32) & 0xff) as u8);
    out.push(((v >> 40) & 0xff) as u8);
    out.push(((v >> 48) & 0xff) as u8);
    out.push(((v >> 56) & 0xff) as u8);
    assert(out@ =~= old(out)@ + enc_u64(v));
}

fn push_cell(out: &mut Vec<u8>, c: &Cell)
    ensures
        final(out)@ == old(out)@ + enc_cell(c@),
        cell_fits(c@),
{
    match c {
        Cell::Int(v) => {
            out.push(0u8);
            push_u64(out, *v);
            assert(out@ =~= old(out)@ + enc_cell(c@));
        },
        Cell::Text(s) => {
            let bytes = s.as_str().as_bytes();
            out.push(1u8);
            push_u64(out, bytes.len() as u64);
            let ghost mid = out@;
            let mut i: usize = 0;
            while i < bytes.len()
                invariant
                    i <= bytes@.len(),
                    bytes@ == encode_utf8(s@),
                    out@ == mid + bytes@.take(i as int),
                decreases bytes@.len() - i,
            {
                out.push(bytes[i]);
                assert(bytes@.take(i + 1) =~= bytes@.take(i as int).push(bytes@[i as int]));
                i = i + 1;
            }
            assert(bytes@.take(bytes@.len() as int) =~= bytes@);
            assert(out@ =~= old(out)@ + enc_cell(c@));
        },
    }
}

/// Appends the encoding of a row.
pub fn push_row(out: &mut Vec<u8>, r: &Vec<Cell>)
    ensures
        final(out)@ == old(out)@ + enc_row(row_model(*r)),
        row_fits(row_model(*r)),
{
    let ghost m = row_model(*r);
    push_u64(out, r.len() as u64);
    let ghost start = out@;
    let mut i: usize = 0;
    while i < r.len()
        invariant
            i <= r@.len(),
            m == row_model(*r),
            out@ == start + enc_cells(m.take(i as int)),
            forall|j: int| 0 <= j < i ==> cell_fits(#[trigger] m[j]),
        decreases r@.len() - i,
    {
        let ghost before = out@;
        push_cell(out, &r[i]);
        proof {
            let f = cell_encoder();
            assert(m.take(i + 1).map_values(f) =~= m.take(i as int).map_values(f).push(
                enc_cell(m[i as int]),
            ));
            m.take(i as int).map_values(f).lemma_flatten_push(enc_cell(m[i as int]));
            assert(out@ =~= start + enc_cells(m.take(i + 1)));
        }
        i = i + 1;
    }
    assert(m.take(r@.len() as int) =~= m);
}

/// Appends the encoding of a sequence of rows, given one by one.
pub fn push_rows(out: &mut Vec<u8>, rows: &Vec<Vec<Cell>>)
    ensures
        final(out)@ == old(out)@ + enc_rows(crate::cell::rows_model(rows@)),
        rows_fit(crate::cell::rows_model(rows@)),
{
    let ghost m = crate::cell::rows_model(rows@);
    push_u64(out, rows.len() as u64);
    let ghost start = out@;
    let mut i: usize = 0;
    while i < rows.len()
        invariant
            i <= rows@.len(),
            m == crate::cell::rows_model(rows@),
            out@ == start + enc_row_list(m.take(i as int)),
            forall|j: int| 0 <= j < i ==> row_fits(#[trigger] m[j]),
        decreases rows@.len() - i,
    {
        push_row(out, &rows[i]);
        proof {
            let f = row_encoder();
            assert(m.take(i + 1).map_values(f) =~= m.take(i as int).map_values(f).push(
                enc_row(m[i as int]),
            ));
            m.take(i as int).map_values(f).lemma_flatten_push(enc_row(m[i as int]));
            assert(out@ =~= start + enc_row_list(m.take(i + 1)));
        }
        i = i + 1;
    }
    assert(m.take(rows@.len() as int) =~= m);
}

/// Appends the encoding of a sequence of counters.
pub fn push_counters(out: &mut Vec<u8>, cs: &Vec<u64>)
    ensures
        final(out)@ == old(out)@ + enc_counters(cs@),
{
    push_u64(out, cs.len() as u64);
    let ghost start = out@;
    let mut i: usize = 0;
    while i < cs.len()
        invariant
            i <= cs@.len(),
            out@ == start + enc_u64_list(cs@.take(i as int)),
        decreases cs@.len() - i,
    {
        push_u64(out, cs[i]);
        proof {
            let f = u64_encoder();
            assert(cs@.take(i + 1).map_values(f) =~= cs@.take(i as int).map_values(f).push(
                enc_u64(cs@[i as int]),
            ));
            cs@.take(i as int).map_values(f).lemma_flatten_push(enc_u64(cs@[i as int]));
            assert(out@ =~= start + enc_u64_list(cs@.take(i + 1)));
        }
        i = i + 1;
    }
    assert(cs@.take(cs@.len() as int) =~= cs@);
}

/// Relies on `String::from_utf8`: valid UTF-8 gives the string it encodes,
/// anything else an error.
#[verifier::external_body]
fn string_from_utf8(bytes: Vec<u8>) -> (r: Option<String>)
    ensures
        match r {
            Some(s) => valid_utf8(bytes@) && s@ == decode_utf8(bytes@),
            None => !valid_utf8(bytes@),
        },
{
    String::from_utf8(bytes).ok()
}

/// Reads eight little-endian bytes at `pos`.
pub fn parse_u64(b: &Vec<u8>, pos: usize) -> (r: Option<u64>)
    ensures
        forall|v: u64| #[trigger] holds_at(b@, pos as int, enc_u64(v)) ==> r == Some(v),
        r is Some ==> pos + 8 <= b@.len(),
        match r {
            Some(x) => holds_at(b@, pos as int, enc_u64(x)),
            None => true,
        },
{
    if b.len() < 8 || pos > b.len() - 8 {
        return None;
    }
    let x = (b[pos] as u64) | ((b[pos + 1] as u64) << 8) | ((b[pos + 2] as u64) << 16) | ((b[pos
        + 3] as u64) << 24) | ((b[pos + 4] as u64) << 32) | ((b[pos + 5] as u64) << 40) | ((b[pos
        + 6] as u64) << 48) | ((b[pos + 7] as u64) << 56);
    proof {
        assert forall|v: u64| #[trigger] holds_at(b@, pos as int, enc_u64(v)) implies x == v by {
            lemma_u64_bytes(v);
            let e = enc_u64(v);
            assert(b@[pos as int] == e[0]);
            assert(b@[pos + 1] == e[1]);
            assert(b@[pos + 2] == e[2]);
            assert(b@[pos + 3] == e[3]);
            assert(b@[pos + 4] == e[4]);
            assert(b@[pos + 5] == e[5]);
            assert(b@[pos + 6] == e[6]);
            assert(b@[pos + 7] == e[7]);
        }
        lemma_bytes_u64(b@[pos as int], b@[pos + 1], b@[pos + 2], b@[pos + 3], b@[pos + 4], b@[pos + 5], b@[pos + 6], b@[pos + 7]);
        assert(b@.subrange(pos as int, pos + 8) =~= seq![b@[pos as int], b@[pos + 1], b@[pos + 2], b@[pos + 3], b@[pos + 4], b@[pos + 5], b@[pos + 6], b@[pos + 7]]);
    }
    Some(x)
}

/// Reads a cell at `pos`; returns it with the position after it.
fn parse_cell(b: &Vec<u8>, pos: usize) -> (r: Option<(Cell, usize)>)
    ensures
        forall|c: CellModel|
            cell_fits(c) && #[trigger] holds_at(b@, pos as int, enc_cell(c)) ==> match r {
                Some((x, p)) => x@ == c && p == pos + enc_cell(c).len(),
                None => false,
            },
        match r {
            Some((x, p)) => pos < p <= b@.len() && cell_fits(x@) && holds_at(b@, pos as int, enc_cell(x@))
                && p == pos + enc_cell(x@).len(),
            None => true,
        },
{
    if pos >= b.len() {
        return None;
    }
    let tag = b[pos];
    if tag == 0 {
        match parse_u64(b, pos + 1) {
            Some(v) => {
                proof {
                    assert forall|c: CellModel|
                        cell_fits(c) && #[trigger] holds_at(b@, pos as int, enc_cell(c)) implies c
                        == CellModel::Int(v) && pos + 9 == pos + enc_cell(c).len() by {
                        assert(b@[pos as int] == enc_cell(c)[0]);
                        match c {
                            CellModel::Int(w) => {
                                lemma_holds_split(b@, pos as int, seq![0u8], enc_u64(w));
                            },
                            CellModel::Text(_) => {},
                        }
                    }
                    assert(b@.subrange(pos as int, pos + 1) =~= seq![0u8]);
                    lemma_holds_concat(b@, pos as int, seq![0u8], enc_u64(v));
                }
                Some((Cell::Int(v), pos + 9))
            },
            None => {
                proof {
                    assert forall|c: CellModel|
                        cell_fits(c) && #[trigger] holds_at(b@, pos as int, enc_cell(c)) implies false by {
                        assert(b@[pos as int] == enc_cell(c)[0]);
                        match c {
                            CellModel::Int(w) => {
                                lemma_holds_split(b@, pos as int, seq![0u8], enc_u64(w));
                            },
                            CellModel::Text(_) => {},
                        }
                    }
                }
                None
            },
        }
    } else if tag == 1 {
        let n = match parse_u64(b, pos + 1) {
            Some(n) => n,
            None => {
                proof {
                    assert forall|c: CellModel|
                        cell_fits(c) && #[trigger] holds_at(b@, pos as int, enc_cell(c)) implies false by {
                        assert(b@[pos as int] == enc_cell(c)[0]);
                        match c {
                            CellModel::Text(s) => {
                                let e = encode_utf8(s);
                                assert(enc_cell(c) =~= seq![1u8] + (enc_u64(e.len() as u64) + e));
                                lemma_holds_split(b@, pos as int, seq![1u8], enc_u64(e.len() as u64) + e);
                                lemma_holds_split(b@, pos + 1, enc_u64(e.len() as u64), e);
                            },
                            CellModel::Int(_) => {},
                        }
                    }
                }
                return None;
            },
        };
        let start = pos + 9;
        if n > (b.len() - start) as u64 {
            proof {
                assert forall|c: CellModel|
                    cell_fits(c) && #[trigger] holds_at(b@, pos as int, enc_cell(c)) implies false by {
                    assert(b@[pos as int] == enc_cell(c)[0]);
                    match c {
                        CellModel::Text(s) => {
                            let e = encode_utf8(s);
                            assert(enc_cell(c) =~= seq![1u8] + (enc_u64(e.len() as u64) + e));
                            lemma_holds_split(b@, pos as int, seq![1u8], enc_u64(e.len() as u64) + e);
                            lemma_holds_split(b@, pos + 1, enc_u64(e.len() as u64), e);
                        },
                        CellModel::Int(_) => {},
                    }
                }
            }
            return None;
        }
        let end = start + n as usize;
        let mut bytes: Vec<u8> = Vec::new();
        let mut i: usize = start;
        while i < end
            invariant
                start <= i <= end,
                end <= b@.len(),
                bytes@ == b@.subrange(start as int, i as int),
            decreases end - i,
        {
            bytes.push(b[i]);
            assert(b@.subrange(start as int, i + 1) =~= b@.subrange(start as int, i as int).push(
                b@[i as int],
            ));
            i = i + 1;
        }
        let ghost raw = bytes@;
        match string_from_utf8(bytes) {
            Some(s) => {
                proof {
                    assert forall|c: CellModel|
                        cell_fits(c) && #[trigger] holds_at(b@, pos as int, enc_cell(c)) implies c
                        == CellModel::Text(s@) && end == pos + enc_cell(c).len() by {
                        assert(b@[pos as int] == enc_cell(c)[0]);
                        match c {
                            CellModel::Text(t) => {
                                let e = encode_utf8(t);
                                assert(enc_cell(c) =~= seq![1u8] + (enc_u64(e.len() as u64) + e));
                                lemma_holds_split(b@, pos as int, seq![1u8], enc_u64(e.len() as u64) + e);
                                lemma_holds_split(b@, pos + 1, enc_u64(e.len() as u64), e);
                                assert(n == e.len());
                                assert(raw =~= e);
                            },
                            CellModel::Int(_) => {},
                        }
                    }
                    vstd::utf8::decode_utf8_encode_utf8(raw);
                    assert(encode_utf8(s@) == raw);
                    assert(b@.subrange(pos as int, pos + 1) =~= seq![1u8]);
                    assert(holds_at(b@, start as int, raw)) by {
                        assert(b@.subrange(start as int, end as int) == raw);
                    }
                    assert(raw.len() == n);
                    lemma_holds_concat(b@, pos as int, seq![1u8], enc_u64(n));
                    lemma_holds_concat(b@, pos as int, seq![1u8] + enc_u64(n), raw);
                    assert(enc_cell(CellModel::Text(s@)) == seq![1u8] + enc_u64(n) + raw);
                }
                Some((Cell::Text(s), end))
            },
            None => {
                proof {
                    assert forall|c: CellModel|
                        cell_fits(c) && #[trigger] holds_at(b@, pos as int, enc_cell(c)) implies false by {
                        assert(b@[pos as int] == enc_cell(c)[0]);
                        match c {
                            CellModel::Text(t) => {
                                let e = encode_utf8(t);
                                assert(enc_cell(c) =~= seq![1u8] + (enc_u64(e.len() as u64) + e));
                                lemma_holds_split(b@, pos as int, seq![1u8], enc_u64(e.len() as u64) + e);
                                lemma_holds_split(b@, pos + 1, enc_u64(e.len() as u64), e);
                                assert(raw =~= e);
                            },
                            CellModel::Int(_) => {},
                        }
                    }
                }
                None
            },
        }
    } else {
        proof {
            assert forall|c: CellModel|
                cell_fits(c) && #[trigger] holds_at(b@, pos as int, enc_cell(c)) implies false by {
                assert(b@[pos as int] == enc_cell(c)[0]);
            }
        }
        None
    }
}

proof fn lemma_encode_push<A>(s: Seq<A>, f: spec_fn(A) -> Seq<u8>, x: A)
    ensures
        s.push(x).map_values(f).flatten() == s.map_values(f).flatten() + f(x),
{
    assert(s.push(x).map_values(f) =~= s.map_values(f).push(f(x)));
    s.map_values(f).lemma_flatten_push(f(x));
}

proof fn lemma_holds_empty(b: Seq<u8>, pos: int)
    requires
        0 <= pos <= b.len(),
    ensures
        holds_at(b, pos, Seq::<u8>::empty()),
{
    assert(b.subrange(pos, pos) =~= Seq::<u8>::empty());
}

/// One step through a list encoded as the concatenation of its elements.
proof fn lemma_list_step<A>(b: Seq<u8>, base: int, s: Seq<A>, f: spec_fn(A) -> Seq<u8>, i: int)
    requires
        holds_at(b, base, s.map_values(f).flatten()),
        0 <= i < s.len(),
    ensures
        holds_at(b, base + s.take(i).map_values(f).flatten().len(), f(s[i])),
        s.take(i + 1).map_values(f).flatten() == s.take(i).map_values(f).flatten() + f(s[i]),
{
    let m = s.map_values(f);
    lemma_flatten_split(m, i);
    assert(m.take(i) =~= s.take(i).map_values(f));
    lemma_flatten_head(m, i);
    lemma_holds_split(b, base, m.take(i).flatten(), m.skip(i).flatten());
    lemma_holds_split(
        b,
        base + m.take(i).flatten().len(),
        f(s[i]),
        m.skip(i + 1).flatten(),
    );
    assert(s.take(i + 1).map_values(f) =~= s.take(i).map_values(f).push(f(s[i])));
    s.take(i).map_values(f).lemma_flatten_push(f(s[i]));
}

/// Reads a row at `pos`; returns it with the position after it.
fn parse_row(b: &Vec<u8>, pos: usize) -> (r: Option<(Vec<Cell>, usize)>)
    ensures
        forall|rm: RowModel|
            row_fits(rm) && #[trigger] holds_at(b@, pos as int, enc_row(rm)) ==> match r {
                Some((x, p)) => row_model(x) == rm && p == pos + enc_row(rm).len(),
                None => false,
            },
        match r {
            Some((x, p)) => pos < p <= b@.len() && row_fits(row_model(x)) && holds_at(
                b@,
                pos as int,
                enc_row(row_model(x)),
            ) && p == pos + enc_row(row_model(x)).len(),
            None => true,
        },
{
    let ghost f = cell_encoder();
    let n = match parse_u64(b, pos) {
        Some(n) => n,
        None => {
            proof {
                assert forall|rm: RowModel|
                    row_fits(rm) && #[trigger] holds_at(b@, pos as int, enc_row(rm)) implies false by {
                    lemma_holds_split(b@, pos as int, enc_u64(rm.len() as u64), enc_cells(rm));
                }
            }
            return None;
        },
    };
    proof {
        assert(b@.len() == b.len());
        assert forall|rm: RowModel|
            row_fits(rm) && #[trigger] holds_at(b@, pos as int, enc_row(rm)) implies n == rm.len()
            && holds_at(b@, pos + 8, rm.map_values(f).flatten()) && rm.take(0).map_values(f).flatten().len() == 0 by {
            lemma_holds_split(b@, pos as int, enc_u64(rm.len() as u64), enc_cells(rm));
            assert(rm.take(0).map_values(f) =~= Seq::<Seq<u8>>::empty());
        }
    }
    let mut cells: Vec<Cell> = Vec::new();
    assert(row_model(cells) =~= Seq::<CellModel>::empty());
    proof {
        assert(Seq::<CellModel>::empty().map_values(f) =~= Seq::<Seq<u8>>::empty());
        lemma_holds_empty(b@, pos + 8);
    }
    let mut p: usize = pos + 8;
    let mut i: u64 = 0;
    while i < n
        invariant
            pos + 8 <= p <= b@.len(),
            cells@.len() == i,
            i <= n,
            f == cell_encoder(),
            holds_at(b@, pos as int, enc_u64(n)),
            holds_at(b@, pos + 8, enc_cells(row_model(cells))),
            p == pos + 8 + enc_cells(row_model(cells)).len(),
            forall|j: int| 0 <= j < i ==> cell_fits(#[trigger] row_model(cells)[j]),
            forall|rm: RowModel|
                row_fits(rm) && #[trigger] holds_at(b@, pos as int, enc_row(rm)) ==> {
                    &&& n == rm.len()
                    &&& holds_at(b@, pos + 8, rm.map_values(f).flatten())
                    &&& row_model(cells) == rm.take(i as int)
                    &&& p == pos + 8 + rm.take(i as int).map_values(f).flatten().len()
                },
        decreases n - i,
    {
        proof {
            assert forall|rm: RowModel|
                row_fits(rm) && #[trigger] holds_at(b@, pos as int, enc_row(rm)) implies holds_at(
                b@,
                p as int,
                enc_cell(rm[i as int]),
            ) && cell_fits(rm[i as int]) by {
                lemma_list_step(b@, pos + 8, rm, f, i as int);
            }
        }
        match parse_cell(b, p) {
            Some((c, p2)) => {
                let ghost before = row_model(cells);
                cells.push(c);
                proof {
                    assert(row_model(cells) =~= before.push(c@));
                    lemma_encode_push(before, f, c@);
                    lemma_holds_concat(b@, pos + 8, enc_cells(before), enc_cell(c@));
                    assert forall|rm: RowModel|
                        row_fits(rm) && #[trigger] holds_at(b@, pos as int, enc_row(rm)) implies {
                        &&& row_model(cells) == rm.take(i + 1)
                        &&& p2 == pos + 8 + rm.take(i + 1).map_values(f).flatten().len()
                    } by {
                        lemma_list_step(b@, pos + 8, rm, f, i as int);
                        assert(holds_at(b@, p as int, enc_cell(rm[i as int])));
                        assert(row_model(cells) =~= rm.take(i + 1));
                    }
                }
                p = p2;
            },
            None => {
                proof {
                    assert forall|rm: RowModel|
                        row_fits(rm) && #[trigger] holds_at(b@, pos as int, enc_row(rm)) implies false by {
                        assert(holds_at(b@, p as int, enc_cell(rm[i as int])));
                    }
                }
                return None;
            },
        }
        i = i + 1;
    }
    proof {
        assert forall|rm: RowModel|
            row_fits(rm) && #[trigger] holds_at(b@, pos as int, enc_row(rm)) implies row_model(cells)
            == rm && p == pos + enc_row(rm).len() by {
            assert(rm.take(rm.len() as int) =~= rm);
            assert(rm.take(n as int).map_values(f).flatten() == enc_cells(rm));
        }
        assert(row_model(cells).len() == n);
        lemma_holds_concat(b@, pos as int, enc_u64(n), enc_cells(row_model(cells)));
    }
    Some((cells, p))
}

/// Reads a sequence of rows at `pos`; returns it with the position after it.
#[verifier::rlimit(50)]
fn parse_rows(b: &Vec<u8>, pos: usize) -> (r: Option<(Vec<Vec<Cell>>, usize)>)
    ensures
        forall|rs: Seq<RowModel>|
            rows_fit(rs) && #[trigger] holds_at(b@, pos as int, enc_rows(rs)) ==> match r {
                Some((x, p)) => crate::cell::rows_model(x@) == rs && p == pos + enc_rows(rs).len(),
                None => false,
            },
        match r {
            Some((x, p)) => pos < p <= b@.len() && rows_fit(rows_model(x@)) && holds_at(
                b@,
                pos as int,
                enc_rows(rows_model(x@)),
            ) && p == pos + enc_rows(rows_model(x@)).len(),
            None => true,
        },
{
    let ghost f = row_encoder();
    let n = match parse_u64(b, pos) {
        Some(n) => n,
        None => {
            proof {
                assert forall|rs: Seq<RowModel>|
                    rows_fit(rs) && #[trigger] holds_at(b@, pos as int, enc_rows(rs)) implies false by {
                    lemma_holds_split(b@, pos as int, enc_u64(rs.len() as u64), enc_row_list(rs));
                }
            }
            return None;
        },
    };
    proof {
        assert(b@.len() == b.len());
        assert forall|rs: Seq<RowModel>|
            rows_fit(rs) && #[trigger] holds_at(b@, pos as int, enc_rows(rs)) implies n == rs.len()
            && holds_at(b@, pos + 8, rs.map_values(f).flatten()) && rs.take(0).map_values(f).flatten().len() == 0 by {
            lemma_holds_split(b@, pos as int, enc_u64(rs.len() as u64), enc_row_list(rs));
            assert(rs.take(0).map_values(f) =~= Seq::<Seq<u8>>::empty());
        }
    }
    let mut rows: Vec<Vec<Cell>> = Vec::new();
    assert(crate::cell::rows_model(rows@) =~= Seq::<RowModel>::empty());
    proof {
        assert(Seq::<RowModel>::empty().map_values(f) =~= Seq::<Seq<u8>>::empty());
        lemma_holds_empty(b@, pos + 8);
    }
    let mut p: usize = pos + 8;
    let mut i: u64 = 0;
    while i < n
        invariant
            pos + 8 <= p <= b@.len(),
            rows@.len() == i,
            i <= n,
            f == row_encoder(),
            holds_at(b@, pos as int, enc_u64(n)),
            holds_at(b@, pos + 8, enc_row_list(rows_model(rows@))),
            p == pos + 8 + enc_row_list(rows_model(rows@)).len(),
            forall|j: int| 0 <= j < i ==> row_fits(#[trigger] rows_model(rows@)[j]),
            forall|rs: Seq<RowModel>|
                rows_fit(rs) && #[trigger] holds_at(b@, pos as int, enc_rows(rs)) ==> {
                    &&& n == rs.len()
                    &&& holds_at(b@, pos + 8, rs.map_values(f).flatten())
                    &&& crate::cell::rows_model(rows@) == rs.take(i as int)
                    &&& p == pos + 8 + rs.take(i as int).map_values(f).flatten().len()
                },
        decreases n - i,
    {
        proof {
            assert forall|rs: Seq<RowModel>|
                rows_fit(rs) && #[trigger] holds_at(b@, pos as int, enc_rows(rs)) implies holds_at(
                b@,
                p as int,
                enc_row(rs[i as int]),
            ) && row_fits(rs[i as int]) by {
                lemma_list_step(b@, pos + 8, rs, f, i as int);
            }
        }
        match parse_row(b, p) {
            Some((row, p2)) => {
                let ghost before = rows_model(rows@);
                let ghost rm = row_model(row);
                rows.push(row);
                proof {
                    assert(rows_model(rows@) =~= before.push(rm));
                    lemma_encode_push(before, f, rm);
                    lemma_holds_concat(b@, pos + 8, enc_row_list(before), enc_row(rm));
                    assert forall|rs: Seq<RowModel>|
                        rows_fit(rs) && #[trigger] holds_at(b@, pos as int, enc_rows(rs)) implies {
                        &&& crate::cell::rows_model(rows@) == rs.take(i + 1)
                        &&& p2 == pos + 8 + rs.take(i + 1).map_values(f).flatten().len()
                    } by {
                        lemma_list_step(b@, pos + 8, rs, f, i as int);
                        assert(holds_at(b@, p as int, enc_row(rs[i as int])));
                        assert(crate::cell::rows_model(rows@) =~= rs.take(i + 1));
                    }
                }
                p = p2;
            },
            None => {
                proof {
                    assert forall|rs: Seq<RowModel>|
                        rows_fit(rs) && #[trigger] holds_at(b@, pos as int, enc_rows(rs)) implies false by {
                        assert(holds_at(b@, p as int, enc_row(rs[i as int])));
                    }
                }
                return None;
            },
        }
        i = i + 1;
    }
    proof {
        assert forall|rs: Seq<RowModel>|
            rows_fit(rs) && #[trigger] holds_at(b@, pos as int, enc_rows(rs)) implies crate::cell::rows_model(
            rows@,
        ) == rs && p == pos + enc_rows(rs).len() by {
            assert(rs.take(rs.len() as int) =~= rs);
            assert(rs.take(n as int).map_values(f).flatten() == enc_row_list(rs));
        }
        assert(rows_model(rows@).len() == n);
        lemma_holds_concat(b@, pos as int, enc_u64(n), enc_row_list(rows_model(rows@)));
    }
    Some((rows, p))
}

/// Reads a sequence of counters at `pos`; returns it with the position
/// after it.
fn parse_counters(b: &Vec<u8>, pos: usize) -> (r: Option<(Vec<u64>, usize)>)
    ensures
        forall|cs: Seq<u64>|
            cs.len() <= u64::MAX && #[trigger] holds_at(b@, pos as int, enc_counters(cs)) ==> match r {
                Some((x, p)) => x@ == cs && p == pos + enc_counters(cs).len(),
                None => false,
            },
        match r {
            Some((x, p)) => pos < p <= b@.len() && x@.len() <= u64::MAX && holds_at(
                b@,
                pos as int,
                enc_counters(x@),
            ) && p == pos + enc_counters(x@).len(),
            None => true,
        },
{
    let ghost f = u64_encoder();
    let n = match parse_u64(b, pos) {
        Some(n) => n,
        None => {
            proof {
                assert forall|cs: Seq<u64>|
                    cs.len() <= u64::MAX && #[trigger] holds_at(b@, pos as int, enc_counters(cs)) implies false by {
                    lemma_holds_split(b@, pos as int, enc_u64(cs.len() as u64), enc_u64_list(cs));
                }
            }
            return None;
        },
    };
    proof {
        assert(b@.len() == b.len());
        assert forall|cs: Seq<u64>|
            cs.len() <= u64::MAX && #[trigger] holds_at(b@, pos as int, enc_counters(cs)) implies n == cs.len()
            && holds_at(b@, pos + 8, cs.map_values(f).flatten()) && cs.take(0).map_values(f).flatten().len() == 0 by {
            lemma_holds_split(b@, pos as int, enc_u64(cs.len() as u64), enc_u64_list(cs));
            assert(cs.take(0).map_values(f) =~= Seq::<Seq<u8>>::empty());
        }
    }
    let mut out: Vec<u64> = Vec::new();
    assert(out@ =~= Seq::<u64>::empty().take(0));
    proof {
        assert(Seq::<u64>::empty().map_values(f) =~= Seq::<Seq<u8>>::empty());
        lemma_holds_empty(b@, pos + 8);
    }
    let mut p: usize = pos + 8;
    let mut i: u64 = 0;
    while i < n
        invariant
            pos + 8 <= p <= b@.len(),
            out@.len() == i,
            i <= n,
            f == u64_encoder(),
            holds_at(b@, pos as int, enc_u64(n)),
            holds_at(b@, pos + 8, enc_u64_list(out@)),
            p == pos + 8 + enc_u64_list(out@).len(),
            forall|cs: Seq<u64>|
                cs.len() <= u64::MAX && #[trigger] holds_at(b@, pos as int, enc_counters(cs)) ==> {
                    &&& n == cs.len()
                    &&& holds_at(b@, pos + 8, cs.map_values(f).flatten())
                    &&& out@ == cs.take(i as int)
                    &&& p == pos + 8 + cs.take(i as int).map_values(f).flatten().len()
                },
        decreases n - i,
    {
        proof {
            assert forall|cs: Seq<u64>|
                cs.len() <= u64::MAX && #[trigger] holds_at(b@, pos as int, enc_counters(cs)) implies holds_at(
                b@,
                p as int,
                enc_u64(cs[i as int]),
            ) by {
                lemma_list_step(b@, pos + 8, cs, f, i as int);
            }
        }
        match parse_u64(b, p) {
            Some(v) => {
                assert(b@.len() == b.len());
                let ghost before = out@;
                out.push(v);
                proof {
                    lemma_encode_push(before, f, v);
                    lemma_holds_concat(b@, pos + 8, enc_u64_list(before), enc_u64(v));
                    assert forall|cs: Seq<u64>|
                        cs.len() <= u64::MAX && #[trigger] holds_at(b@, pos as int, enc_counters(cs)) implies {
                        &&& out@ == cs.take(i + 1)
                        &&& p + 8 == pos + 8 + cs.take(i + 1).map_values(f).flatten().len()
                    } by {
                        lemma_list_step(b@, pos + 8, cs, f, i as int);
                        assert(holds_at(b@, p as int, enc_u64(cs[i as int])));
                        assert(out@ =~= cs.take(i + 1));
                    }
                }
                p = p + 8;
            },
            None => {
                proof {
                    assert forall|cs: Seq<u64>|
                        cs.len() <= u64::MAX && #[trigger] holds_at(b@, pos as int, enc_counters(cs)) implies false by {
                        assert(holds_at(b@, p as int, enc_u64(cs[i as int])));
                    }
                }
                return None;
            },
        }
        i = i + 1;
    }
    proof {
        assert forall|cs: Seq<u64>|
            cs.len() <= u64::MAX && #[trigger] holds_at(b@, pos as int, enc_counters(cs)) implies out@ == cs
            && p == pos + enc_counters(cs).len() by {
            assert(cs.take(cs.len() as int) =~= cs);
            assert(cs.take(n as int).map_values(f).flatten() == enc_u64_list(cs));
        }
        lemma_holds_concat(b@, pos as int, enc_u64(n), enc_u64_list(out@));
    }
    Some((out, p))
}

/// Why bytes or parts do not form a store of a schema.
#[derive(Clone, Copy, Debug, PartialEq, Eq, Structural)]
pub enum LoadError {
    /// The bytes are not an encoding of counters, tables and relations.
    Malformed,
    /// The number of counters, tables or relations differs from the schema.
    Shape,
    /// A counter lies below the reserved constants or above the largest
    /// value of its kind.
    InvalidCounter { kind: usize },
    /// A value of an interning table does not fit its columns.
    InvalidValue { table: usize, key: usize },
    /// A value of an interning table equals one with a smaller key.
    DuplicateValue { table: usize, key: usize },
    /// A fact does not fit the columns of its relation.
    InvalidFact { relation: usize, index: usize },
}

/// The store model that counters, tables and relations given as plain
/// values describe.
pub open spec fn parts_model(
    counters: Seq<u64>,
    interning: Seq<Vec<Vec<Cell>>>,
    relations: Seq<Vec<Vec<Cell>>>,
) -> TablesModel {
    TablesModel { relations: tables_model(relations), counters, interning: tables_model(interning) }
}

/// The models of a sequence of row sequences.
pub open spec fn tables_model(v: Seq<Vec<Vec<Cell>>>) -> Seq<Seq<RowModel>> {
    Seq::new(v.len(), |t: int| rows_model(v[t]@))
}

/// Whether a row fits columns depends only on the counters and on the
/// tables that the columns name.
proof fn lemma_conforms_frame(
    row: RowModel,
    cols: Seq<ColumnKind>,
    a: TablesModel,
    b: TablesModel,
)
    requires
        a.counters == b.counters,
        forall|c: int|
            0 <= c < cols.len() ==> match #[trigger] cols[c] {
                ColumnKind::Interned(j) => a.interning[j as int] == b.interning[j as int],
                _ => true,
            },
    ensures
        row_conforms(row, cols, a.counters, a.interning) == row_conforms(
            row,
            cols,
            b.counters,
            b.interning,
        ),
{
    assert forall|c: int| 0 <= c < row.len() && c < cols.len() implies cell_conforms(
        row[c],
        cols[c],
        a.counters,
        a.interning,
    ) == cell_conforms(row[c], cols[c], b.counters, b.interning) by {
        match cols[c] {
            ColumnKind::Interned(j) => {
                assert(a.interning[j as int] == b.interning[j as int]);
            },
            _ => {},
        }
    }
    if row_conforms(row, cols, a.counters, a.interning) {
        assert forall|c: int| 0 <= c < row.len() implies cell_conforms(
            #[trigger] row[c],
            cols[c],
            b.counters,
            b.interning,
        ) by {}
    }
    if row_conforms(row, cols, b.counters, b.interning) {
        assert forall|c: int| 0 <= c < row.len() implies cell_conforms(
            #[trigger] row[c],
            cols[c],
            a.counters,
            a.interning,
        ) by {}
    }
}

impl Tables {
    /// A store from its counters, interning tables (by table index) and
    /// relations; fails exactly when they do not form a valid store of
    /// `schema`.
    pub fn from_parts(
        schema: &DatabaseSchema,
        counters: Vec<u64>,
        interning: Vec<Vec<Vec<Cell>>>,
        relations: Vec<Vec<Vec<Cell>>>,
    ) -> (r: Result<Tables, LoadError>)
        requires
            schema.wf(),
        ensures
            match r {
                Ok(t) => t.wf(*schema) && t@ == parts_model(counters@, interning@, relations@),
                Err(_) => !model_wf(*schema, parts_model(counters@, interning@, relations@)),
            },
    {
        let ghost m = parts_model(counters@, interning@, relations@);
        let nk = schema.num_kinds();
        if counters.len() != nk || interning.len() != schema.num_tables() || relations.len()
            != schema.num_relations() {
            return Err(LoadError::Shape);
        }
        let mut k: usize = 0;
        while k < nk
            invariant
                schema.wf(),
                m == parts_model(counters@, interning@, relations@),
                nk == schema.spec_ids().len(),
                counters@.len() == nk,
                k <= nk,
                forall|kk: int|
                    0 <= kk < k ==> schema.num_constants(kk) <= #[trigger] counters@[kk]
                        <= schema.max_of(kk),
            decreases nk - k,
        {
            let nc = schema.id_kind(k).constants.len() as u64;
            let max = schema.id_kind(k).width.max_value();
            assert(nc == schema.num_constants(k as int));
            assert(max == schema.max_of(k as int));
            if counters[k] < nc || counters[k] > max {
                assert(!(schema.num_constants(k as int) <= m.counters[k as int] <= schema.max_of(
                    k as int,
                )));
                return Err(LoadError::InvalidCounter { kind: k });
            }
            k = k + 1;
        }
        let mut t = Tables::new(schema);
        let mut k: usize = 0;
        while k < nk
            invariant
                schema.wf(),
                t.wf(*schema),
                nk == schema.spec_ids().len(),
                counters@.len() == nk,
                k <= nk,
                forall|kk: int|
                    0 <= kk < nk ==> schema.num_constants(kk) <= #[trigger] counters@[kk]
                        <= schema.max_of(kk),
                t@.relations == empty_model(*schema).relations,
                t@.interning == empty_model(*schema).interning,
                forall|kk: int| 0 <= kk < k ==> #[trigger] t@.counters[kk] == counters@[kk],
                forall|kk: int|
                    k <= kk < nk ==> #[trigger] t@.counters[kk] == schema.num_constants(kk),
            decreases nk - k,
        {
            let nc = schema.id_kind(k).constants.len() as u64;
            t.advance_counter(schema, k, counters[k] - nc);
            k = k + 1;
        }
        assert(t@.counters =~= counters@);
        let order = schema.table_order();
        let nt = schema.num_tables();
        let mut p: usize = 0;
        while p < order.len()
            invariant
                schema.wf(),
                t.wf(*schema),
                m == parts_model(counters@, interning@, relations@),
                order@ == schema.spec_order(),
                nt == schema.spec_tables().len(),
                interning@.len() == nt,
                p <= order@.len(),
                t@.counters == m.counters,
                t@.relations == empty_model(*schema).relations,
                forall|q: int|
                    0 <= q < p ==> #[trigger] t@.interning[order@[q] as int] == m.interning[order@[q] as int],
                forall|tu: usize|
                    tu < nt && !order@.take(p as int).contains(tu) ==> #[trigger] t@.interning[tu as int]
                        == Seq::<RowModel>::empty(),
            decreases order@.len() - p,
        {
            let j = order[p];
            let rows = &interning[j];
            let cols = &schema.table(j).columns;
            proof {
                lemma_table_columns_bounded(*schema, j as int);
                assert(!order@.take(p as int).contains(j)) by {
                    if order@.take(p as int).contains(j) {
                        let qq = choose|qq: int| 0 <= qq < p && order@.take(p as int)[qq] == j;
                        assert(order@[qq] == order@[p as int]);
                    }
                }
                assert(t@.interning[j as int] == Seq::<RowModel>::empty());
                assert(m.interning[j as int].take(0) =~= Seq::<RowModel>::empty());
                assert forall|c: int| 0 <= c < cols@.len() implies match #[trigger] cols@[c] {
                    ColumnKind::Incremental { .. } => false,
                    ColumnKind::Interned(d) => d < nt && order@.take(p as int).contains(d),
                    _ => true,
                } by {
                    match cols@[c] {
                        ColumnKind::Interned(d) => {
                            assert(crate::schema::depends_on(schema.spec_tables(), j as int, d));
                            assert(order@.subrange(0, p as int).contains(d));
                        },
                        _ => {},
                    }
                }
            }
            let mut i: usize = 0;
            while i < rows.len()
                invariant
                    schema.wf(),
                    t.wf(*schema),
                    m == parts_model(counters@, interning@, relations@),
                    order@ == schema.spec_order(),
                    nt == schema.spec_tables().len(),
                    interning@.len() == nt,
                    p < order@.len(),
                    j == order@[p as int],
                    *rows == interning@[j as int],
                    *cols == schema.spec_tables()[j as int].columns,
                    forall|c: int|
                        0 <= c < cols@.len() ==> match #[trigger] cols@[c] {
                            ColumnKind::Incremental { .. } => false,
                            ColumnKind::Interned(d) => d < nt && order@.take(p as int).contains(d),
                            _ => true,
                        },
                    t@.counters == m.counters,
                    t@.relations == empty_model(*schema).relations,
                    forall|q: int|
                        0 <= q < p ==> #[trigger] t@.interning[order@[q] as int]
                            == m.interning[order@[q] as int],
                    forall|tu: usize|
                        tu < nt && tu != j && !order@.take(p as int).contains(tu) ==> #[trigger] t@.interning[tu as int]
                            == Seq::<RowModel>::empty(),
                    i <= rows@.len(),
                    t@.interning[j as int] == m.interning[j as int].take(i as int),
                decreases rows@.len() - i,
            {
                let ghost v = m.interning[j as int][i as int];
                assert(v == row_model(rows@[i as int]));
                if !t.fits(cols, &rows[i]) {
                    proof {
                        assert forall|c: int| 0 <= c < cols@.len() implies match #[trigger] cols@[c] {
                            ColumnKind::Interned(d) => t@.interning[d as int] == m.interning[d as int],
                            _ => true,
                        } by {
                            match cols@[c] {
                                ColumnKind::Interned(d) => {
                                    let qq = choose|qq: int| 0 <= qq < p && order@.take(p as int)[qq] == d;
                                    assert(order@[qq] == d);
                                },
                                _ => {},
                            }
                        }
                        lemma_conforms_frame(v, cols@, t@, m);
                    }
                    return Err(LoadError::InvalidValue { table: j, key: i });
                }
                match t.interning_table(j).lookup(&rows[i]) {
                    Some(_) => {
                        proof {
                            let pre = m.interning[j as int].take(i as int);
                            let k2 = choose|k2: int| 0 <= k2 < pre.len() && pre[k2] == v;
                            assert(m.interning[j as int][k2] == m.interning[j as int][i as int]);
                        }
                        return Err(LoadError::DuplicateValue { table: j, key: i });
                    },
                    None => {},
                }
                let ghost before = t@;
                t.intern(schema, j, duplicate_row(&rows[i]));
                proof {
                    assert(m.interning[j as int].take(i + 1) =~= m.interning[j as int].take(
                        i as int,
                    ).push(v));
                    assert forall|q: int| 0 <= q < p implies #[trigger] t@.interning[order@[q] as int]
                        == m.interning[order@[q] as int] by {
                        assert(order@[q] != j) by {
                            assert(order@.no_duplicates());
                        }
                        assert(before.interning[order@[q] as int] == m.interning[order@[q] as int]);
                    }
                    assert forall|tu: usize|
                        tu < nt && tu != j && !order@.take(p as int).contains(tu) implies #[trigger] t@.interning[tu as int]
                            == Seq::<RowModel>::empty() by {
                        assert(before.interning[tu as int] == Seq::<RowModel>::empty());
                    }
                }
                i = i + 1;
            }
            proof {
                assert(m.interning[j as int].take(rows@.len() as int) =~= m.interning[j as int]);
                assert forall|tu: usize|
                    tu < nt && !order@.take(p + 1).contains(tu) implies #[trigger] t@.interning[tu as int]
                        == Seq::<RowModel>::empty() by {
                    assert(order@.take(p + 1)[p as int] == j);
                    assert(tu != j);
                    if order@.take(p as int).contains(tu) {
                        let qq = choose|qq: int| 0 <= qq < p && order@.take(p as int)[qq] == tu;
                        assert(order@.take(p + 1)[qq] == tu);
                    }
                }
                assert forall|q: int| 0 <= q < p + 1 implies #[trigger] t@.interning[order@[q] as int]
                    == m.interning[order@[q] as int] by {}
            }
            p = p + 1;
        }
        proof {
            assert forall|tt: int| 0 <= tt < nt implies t@.interning[tt] == m.interning[tt] by {
                schema.lemma_len_bounds();
                let tu = tt as usize;
                assert(order@.contains(tu));
                let q = choose|q: int| 0 <= q < order@.len() && order@[q] == tu;
                assert(order@[q] as int == tt);
            }
            assert(t@.interning =~= m.interning);
        }
        let nr = schema.num_relations();
        let mut r: usize = 0;
        while r < nr
            invariant
                schema.wf(),
                t.wf(*schema),
                m == parts_model(counters@, interning@, relations@),
                nr == schema.spec_relations().len(),
                relations@.len() == nr,
                r <= nr,
                t@.counters == m.counters,
                t@.interning == m.interning,
                forall|rr: int| 0 <= rr < r ==> #[trigger] t@.relations[rr] == m.relations[rr],
                forall|rr: int| r <= rr < nr ==> #[trigger] t@.relations[rr] == Seq::<RowModel>::empty(),
            decreases nr - r,
        {
            let facts = &relations[r];
            let cols = &schema.relation(r).columns;
            proof {
                lemma_relation_columns_bounded(*schema, r as int);
                assert(t@.relations[r as int] == m.relations[r as int].take(0));
            }
            let mut i: usize = 0;
            while i < facts.len()
                invariant
                    schema.wf(),
                    t.wf(*schema),
                    m == parts_model(counters@, interning@, relations@),
                    nr == schema.spec_relations().len(),
                    relations@.len() == nr,
                    r < nr,
                    *facts == relations@[r as int],
                    *cols == schema.spec_relations()[r as int].columns,
                    forall|c: int|
                        0 <= c < cols@.len() ==> match #[trigger] cols@[c] {
                            ColumnKind::Incremental { kind, .. } => kind < schema.spec_ids().len(),
                            ColumnKind::Interned(d) => d < schema.spec_tables().len(),
                            _ => true,
                        },
                    t@.counters == m.counters,
                    t@.interning == m.interning,
                    forall|rr: int| 0 <= rr < r ==> #[trigger] t@.relations[rr] == m.relations[rr],
                    forall|rr: int| r < rr < nr ==> #[trigger] t@.relations[rr] == Seq::<RowModel>::empty(),
                    i <= facts@.len(),
                    t@.relations[r as int] == m.relations[r as int].take(i as int),
                decreases facts@.len() - i,
            {
                let ghost f = m.relations[r as int][i as int];
                assert(f == row_model(facts@[i as int]));
                if !t.fits(cols, &facts[i]) {
                    return Err(LoadError::InvalidFact { relation: r, index: i });
                }
                t.insert(schema, r, duplicate_row(&facts[i]));
                proof {
                    assert(m.relations[r as int].take(i + 1) =~= m.relations[r as int].take(
                        i as int,
                    ).push(f));
                }
                i = i + 1;
            }
            proof {
                assert(m.relations[r as int].take(facts@.len() as int) =~= m.relations[r as int]);
            }
            r = r + 1;
        }
        assert(t@.relations =~= m.relations);
        Ok(t)
    }
}

pub open spec fn table_encoder(interning: Seq<Seq<RowModel>>) -> spec_fn(usize) -> Seq<u8> {
    |t: usize| enc_rows(interning[t as int])
}

pub open spec fn rows_encoder() -> spec_fn(Seq<RowModel>) -> Seq<u8> {
    |rs: Seq<RowModel>| enc_rows(rs)
}

/// The single-file encoding of a store: its counters, its interning
/// tables in the schema's order, then its relations.
pub open spec fn enc_store(order: Seq<usize>, m: TablesModel) -> Seq<u8> {
    enc_counters(m.counters) + order.map_values(table_encoder(m.interning)).flatten()
        + m.relations.map_values(rows_encoder()).flatten()
}

/// Every length in a store fits an eight-byte length field.
pub open spec fn store_fits(m: TablesModel) -> bool {
    &&& m.counters.len() <= u64::MAX
    &&& forall|t: int| 0 <= t < m.interning.len() ==> rows_fit(#[trigger] m.interning[t])
    &&& forall|r: int| 0 <= r < m.relations.len() ==> rows_fit(#[trigger] m.relations[r])
}

/// The multi-file layout: the counters, each interning table and each
/// relation encoded on its own.
pub struct MultiFile {
    pub counters: Vec<u8>,
    pub interning: Vec<Vec<u8>>,
    pub relations: Vec<Vec<u8>>,
}

/// `files` holds the multi-file encoding of `m`.
pub open spec fn multifile_of(files: MultiFile, m: TablesModel) -> bool {
    &&& files.counters@ == enc_counters(m.counters)
    &&& files.interning@.len() == m.interning.len()
    &&& forall|t: int|
        0 <= t < m.interning.len() ==> (#[trigger] files.interning@[t])@ == enc_rows(m.interning[t])
    &&& files.relations@.len() == m.relations.len()
    &&& forall|r: int|
        0 <= r < m.relations.len() ==> (#[trigger] files.relations@[r])@ == enc_rows(m.relations[r])
}

/// Reads one relation or interning table of the multi-file layout on its
/// own: the rows that `b` encodes, or `None` when `b` encodes none.
pub fn load_rows(b: &Vec<u8>) -> (r: Option<Vec<Vec<Cell>>>)
    ensures
        forall|rs: Seq<RowModel>|
            rows_fit(rs) && b@ == #[trigger] enc_rows(rs) ==> match r {
                Some(x) => rows_model(x@) == rs,
                None => false,
            },
        match r {
            Some(x) => rows_fit(rows_model(x@)) && b@ == enc_rows(rows_model(x@)),
            None => true,
        },
{
    parse_whole_rows(b)
}

/// Reads exactly one sequence of rows from `b`.
fn parse_whole_rows(b: &Vec<u8>) -> (r: Option<Vec<Vec<Cell>>>)
    ensures
        forall|rs: Seq<RowModel>|
            rows_fit(rs) && b@ == #[trigger] enc_rows(rs) ==> match r {
                Some(x) => rows_model(x@) == rs,
                None => false,
            },
        match r {
            Some(x) => rows_fit(rows_model(x@)) && b@ == enc_rows(rows_model(x@)),
            None => true,
        },
{
    match parse_rows(b, 0) {
        Some((rows, end)) => {
            if end == b.len() {
                proof {
                    assert forall|rs: Seq<RowModel>| rows_fit(rs) && b@ == #[trigger] enc_rows(rs) implies rows_model(rows@) == rs by {
                        assert(b@.subrange(0, b@.len() as int) =~= b@);
                        assert(holds_at(b@, 0, enc_rows(rs)));
                    }
                    assert(b@.subrange(0, b@.len() as int) =~= b@);
                }
                Some(rows)
            } else {
                proof {
                    assert forall|rs: Seq<RowModel>| rows_fit(rs) && b@ == #[trigger] enc_rows(rs) implies false by {
                        assert(b@.subrange(0, b@.len() as int) =~= b@);
                        assert(holds_at(b@, 0, enc_rows(rs)));
                    }
                }
                None
            }
        },
        None => {
            proof {
                assert forall|rs: Seq<RowModel>| rows_fit(rs) && b@ == #[trigger] enc_rows(rs) implies false by {
                    assert(b@.subrange(0, b@.len() as int) =~= b@);
                    assert(holds_at(b@, 0, enc_rows(rs)));
                }
            }
            None
        },
    }
}

impl Tables {
    /// The single-file encoding of this store.
    pub fn save_bincode(&self, schema: &DatabaseSchema) -> (r: Vec<u8>)
        requires
            self.wf(*schema),
        ensures
            r@ == enc_store(schema.spec_order(), self@),
            store_fits(self@),
    {
        let ghost m = self@;
        let mut out: Vec<u8> = Vec::new();
        let cs = self.counters();
        assert(cs@.len() == cs.len());
        push_counters(&mut out, cs);
        let ghost after_counters = out@;
        let order = schema.table_order();
        let ghost te = table_encoder(m.interning);
        let mut p: usize = 0;
        while p < order.len()
            invariant
                self.wf(*schema),
                m == self@,
                order@ == schema.spec_order(),
                te == table_encoder(m.interning),
                p <= order@.len(),
                out@ == after_counters + order@.take(p as int).map_values(te).flatten(),
                after_counters == enc_counters(m.counters),
                forall|q: int| 0 <= q < p ==> rows_fit(m.interning[#[trigger] order@[q] as int]),
            decreases order@.len() - p,
        {
            let t = order[p];
            proof {
                assert(order@[p as int] < schema.spec_tables().len());
            }
            let vals = self.interning_table(t).values();
            assert(rows_model(vals@) =~= m.interning[t as int]);
            push_rows(&mut out, &vals);
            proof {
                assert(order@.take(p + 1).map_values(te) =~= order@.take(p as int).map_values(te).push(
                    te(t),
                ));
                order@.take(p as int).map_values(te).lemma_flatten_push(te(t));
                assert(out@ =~= after_counters + order@.take(p + 1).map_values(te).flatten());
            }
            p = p + 1;
        }
        assert(order@.take(order@.len() as int) =~= order@);
        let ghost after_tables = out@;
        let ghost re = rows_encoder();
        let nr = schema.num_relations();
        let mut r: usize = 0;
        while r < nr
            invariant
                self.wf(*schema),
                m == self@,
                nr == m.relations.len(),
                re == rows_encoder(),
                r <= nr,
                out@ == after_tables + m.relations.take(r as int).map_values(re).flatten(),
                forall|rr: int| 0 <= rr < r ==> rows_fit(#[trigger] m.relations[rr]),
            decreases nr - r,
        {
            let facts = self.relation(r).iter();
            assert(rows_model(facts@) =~= m.relations[r as int]);
            push_rows(&mut out, &facts);
            proof {
                assert(m.relations.take(r + 1).map_values(re) =~= m.relations.take(r as int).map_values(
                    re,
                ).push(re(m.relations[r as int])));
                m.relations.take(r as int).map_values(re).lemma_flatten_push(re(m.relations[r as int]));
                assert(out@ =~= after_tables + m.relations.take(r + 1).map_values(re).flatten());
            }
            r = r + 1;
        }
        assert(m.relations.take(nr as int) =~= m.relations);
        proof {
            assert forall|t: int| 0 <= t < m.interning.len() implies rows_fit(#[trigger] m.interning[t]) by {
                schema.lemma_len_bounds();
                let tu = t as usize;
                assert(order@.contains(tu));
                let q = choose|q: int| 0 <= q < order@.len() && order@[q] == tu;
                assert(rows_fit(m.interning[order@[q] as int]));
            }
        }
        out
    }
}

/// The single-file encoding of `m` sits in `bytes`, split into counters,
/// interning tables and relations.
proof fn lemma_store_parts(bytes: Seq<u8>, order: Seq<usize>, m: TablesModel)
    requires
        enc_store(order, m) == bytes,
    ensures
        holds_at(bytes, 0, enc_counters(m.counters)),
        holds_at(
            bytes,
            enc_counters(m.counters).len() as int,
            order.map_values(table_encoder(m.interning)).flatten(),
        ),
        holds_at(
            bytes,
            (enc_counters(m.counters).len() + order.map_values(table_encoder(m.interning)).flatten().len()) as int,
            m.relations.map_values(rows_encoder()).flatten(),
        ),
        bytes.len() == enc_counters(m.counters).len() + order.map_values(
            table_encoder(m.interning),
        ).flatten().len() + m.relations.map_values(rows_encoder()).flatten().len(),
{
    let a = enc_counters(m.counters);
    let b = order.map_values(table_encoder(m.interning)).flatten();
    let c = m.relations.map_values(rows_encoder()).flatten();
    assert(bytes.subrange(0, bytes.len() as int) =~= bytes);
    assert(holds_at(bytes, 0, (a + b) + c));
    lemma_holds_split(bytes, 0, a + b, c);
    lemma_holds_split(bytes, 0, a, b);
}

impl Tables {
    /// Loads a store from its single-file encoding. Bytes that `save_bincode`
    /// wrote for a store load as that same store.
    pub fn load(schema: &DatabaseSchema, bytes: &Vec<u8>) -> (r: Result<Tables, LoadError>)
        requires
            schema.wf(),
        ensures
            match r {
                Ok(t) => t.wf(*schema) && store_fits(t@) && enc_store(schema.spec_order(), t@) == bytes@,
                Err(_) => true,
            },
            forall|m: TablesModel|
                model_wf(*schema, m) && store_fits(m) && #[trigger] enc_store(schema.spec_order(), m)
                    == bytes@ ==> match r {
                    Ok(t) => t@ == m,
                    Err(_) => false,
                },
    {
        let ghost order_s = schema.spec_order();
        let (counters, p0) = match parse_counters(bytes, 0) {
            Some(x) => x,
            None => {
                proof {
                    assert forall|m: TablesModel|
                        model_wf(*schema, m) && store_fits(m) && #[trigger] enc_store(order_s, m)
                            == bytes@ implies false by {
                        lemma_store_parts(bytes@, order_s, m);
                    }
                }
                return Err(LoadError::Malformed);
            },
        };
        let nt = schema.num_tables();
        let mut interning: Vec<Vec<Vec<Cell>>> = Vec::new();
        let mut t: usize = 0;
        while t < nt
            invariant
                t <= nt,
                interning@.len() == t,
            decreases nt - t,
        {
            interning.push(Vec::new());
            t = t + 1;
        }
        let order = schema.table_order();
        proof {
            assert(order_s.take(0).map_values(table_encoder(tables_model(interning@))) =~= Seq::<Seq<u8>>::empty());
            assert(enc_counters(counters@) + Seq::<u8>::empty() =~= enc_counters(counters@));
            assert forall|m: TablesModel|
                model_wf(*schema, m) && store_fits(m) && #[trigger] enc_store(order_s, m) == bytes@
                    implies counters@ == m.counters && p0 == enc_counters(m.counters).len()
                    + order_s.take(0).map_values(table_encoder(m.interning)).flatten().len() by {
                lemma_store_parts(bytes@, order_s, m);
                assert(order_s.take(0).map_values(table_encoder(m.interning)) =~= Seq::<Seq<u8>>::empty());
            }
        }
        let mut p: usize = p0;
        let mut q: usize = 0;
        while q < order.len()
            invariant
                schema.wf(),
                order@ == schema.spec_order(),
                order_s == order@,
                nt == schema.spec_tables().len(),
                interning@.len() == nt,
                q <= order@.len(),
                p <= bytes@.len(),
                counters@.len() <= u64::MAX,
                holds_at(
                    bytes@,
                    0,
                    enc_counters(counters@) + order_s.take(q as int).map_values(
                        table_encoder(tables_model(interning@)),
                    ).flatten(),
                ),
                p == (enc_counters(counters@) + order_s.take(q as int).map_values(
                    table_encoder(tables_model(interning@)),
                ).flatten()).len(),
                forall|qq: int| 0 <= qq < q ==> rows_fit(tables_model(interning@)[#[trigger] order_s[qq] as int]),
                forall|m: TablesModel|
                    model_wf(*schema, m) && store_fits(m) && #[trigger] enc_store(order_s, m) == bytes@
                        ==> {
                        &&& counters@ == m.counters
                        &&& p == enc_counters(m.counters).len() + order_s.take(q as int).map_values(
                            table_encoder(m.interning),
                        ).flatten().len()
                        &&& forall|qq: int|
                            0 <= qq < q ==> rows_model(interning@[#[trigger] order_s[qq] as int]@)
                                == m.interning[order_s[qq] as int]
                    },
            decreases order@.len() - q,
        {
            let ghost tq = order@[q as int];
            proof {
                assert forall|m: TablesModel|
                    model_wf(*schema, m) && store_fits(m) && #[trigger] enc_store(order_s, m) == bytes@
                        implies holds_at(bytes@, p as int, enc_rows(m.interning[tq as int])) && rows_fit(
                        m.interning[tq as int],
                    ) by {
                    lemma_store_parts(bytes@, order_s, m);
                    lemma_list_step(
                        bytes@,
                        enc_counters(m.counters).len() as int,
                        order_s,
                        table_encoder(m.interning),
                        q as int,
                    );
                }
            }
            match parse_rows(bytes, p) {
                Some((rows, p2)) => {
                    let ghost before = interning@;
                    let ghost im0 = tables_model(before);
                    interning.set(order[q], rows);
                    proof {
                        let im1 = tables_model(interning@);
                        assert(im1 =~= im0.update(tq as int, rows_model(rows@)));
                        assert(order_s.take(q as int).map_values(table_encoder(im1)) =~= order_s.take(
                            q as int,
                        ).map_values(table_encoder(im0))) by {
                            assert forall|qq: int| 0 <= qq < q implies order_s[qq] != tq by {
                                assert(order_s.no_duplicates());
                            }
                        }
                        lemma_encode_push(order_s.take(q as int), table_encoder(im1), tq);
                        assert(order_s.take(q + 1) =~= order_s.take(q as int).push(tq));
                        let prefix = enc_counters(counters@) + order_s.take(q as int).map_values(
                            table_encoder(im0),
                        ).flatten();
                        lemma_holds_concat(bytes@, 0, prefix, enc_rows(rows_model(rows@)));
                        assert(prefix + enc_rows(rows_model(rows@)) =~= enc_counters(counters@)
                            + order_s.take(q + 1).map_values(table_encoder(im1)).flatten());
                        assert forall|qq: int| 0 <= qq < q + 1 implies rows_fit(
                            im1[#[trigger] order_s[qq] as int],
                        ) by {
                            if qq < q {
                                assert(order_s[qq] != tq) by {
                                    assert(order_s.no_duplicates());
                                }
                                assert(im1[order_s[qq] as int] == im0[order_s[qq] as int]);
                            }
                        }
                        assert forall|m: TablesModel|
                            model_wf(*schema, m) && store_fits(m) && #[trigger] enc_store(order_s, m)
                                == bytes@ implies {
                            &&& p2 == enc_counters(m.counters).len() + order_s.take(q + 1).map_values(
                                table_encoder(m.interning),
                            ).flatten().len()
                            &&& forall|qq: int|
                                0 <= qq < q + 1 ==> rows_model(interning@[#[trigger] order_s[qq] as int]@)
                                    == m.interning[order_s[qq] as int]
                        } by {
                            lemma_store_parts(bytes@, order_s, m);
                            lemma_list_step(
                                bytes@,
                                enc_counters(m.counters).len() as int,
                                order_s,
                                table_encoder(m.interning),
                                q as int,
                            );
                            assert(holds_at(bytes@, p as int, enc_rows(m.interning[tq as int])));
                            assert forall|qq: int| 0 <= qq < q + 1 implies rows_model(
                                interning@[#[trigger] order_s[qq] as int]@,
                            ) == m.interning[order_s[qq] as int] by {
                                if qq < q {
                                    assert(order_s[qq] != tq) by {
                                        assert(order_s.no_duplicates());
                                    }
                                    assert(interning@[order_s[qq] as int] == before[order_s[qq] as int]);
                                }
                            }
                        }
                    }
                    p = p2;
                },
                None => {
                    return Err(LoadError::Malformed);
                },
            }
            q = q + 1;
        }
        let nr = schema.num_relations();
        proof {
            assert(order_s.take(order_s.len() as int) =~= order_s);
            assert(tables_model(Seq::<Vec<Vec<Cell>>>::empty()).map_values(rows_encoder()) =~= Seq::<Seq<u8>>::empty());
            let a0 = enc_counters(counters@) + order_s.map_values(table_encoder(tables_model(interning@))).flatten();
            assert(a0 + Seq::<u8>::empty() =~= a0);
            assert forall|m: TablesModel|
                model_wf(*schema, m) && store_fits(m) && #[trigger] enc_store(order_s, m) == bytes@
                    implies p == enc_counters(m.counters).len() + order_s.map_values(
                    table_encoder(m.interning),
                ).flatten().len() + m.relations.take(0).map_values(rows_encoder()).flatten().len() by {
                assert(order_s.take(order_s.len() as int) =~= order_s);
                assert(m.relations.take(0).map_values(rows_encoder()) =~= Seq::<Seq<u8>>::empty());
            }
        }
        let mut relations: Vec<Vec<Vec<Cell>>> = Vec::new();
        let mut r: usize = 0;
        while r < nr
            invariant
                schema.wf(),
                order_s == schema.spec_order(),
                nt == schema.spec_tables().len(),
                nr == schema.spec_relations().len(),
                interning@.len() == nt,
                relations@.len() == r,
                r <= nr,
                p <= bytes@.len(),
                counters@.len() <= u64::MAX,
                holds_at(
                    bytes@,
                    0,
                    enc_counters(counters@) + order_s.map_values(
                        table_encoder(tables_model(interning@)),
                    ).flatten() + tables_model(relations@).map_values(rows_encoder()).flatten(),
                ),
                p == (enc_counters(counters@) + order_s.map_values(
                    table_encoder(tables_model(interning@)),
                ).flatten() + tables_model(relations@).map_values(rows_encoder()).flatten()).len(),
                forall|qq: int| 0 <= qq < order_s.len() ==> rows_fit(tables_model(interning@)[#[trigger] order_s[qq] as int]),
                forall|rr: int| 0 <= rr < r ==> rows_fit(#[trigger] tables_model(relations@)[rr]),
                forall|m: TablesModel|
                    model_wf(*schema, m) && store_fits(m) && #[trigger] enc_store(order_s, m) == bytes@
                        ==> {
                        &&& counters@ == m.counters
                        &&& p == enc_counters(m.counters).len() + order_s.map_values(
                            table_encoder(m.interning),
                        ).flatten().len() + m.relations.take(r as int).map_values(
                            rows_encoder(),
                        ).flatten().len()
                        &&& forall|qq: int|
                            0 <= qq < order_s.len() ==> rows_model(interning@[#[trigger] order_s[qq] as int]@)
                                == m.interning[order_s[qq] as int]
                        &&& forall|rr: int|
                            0 <= rr < r ==> rows_model((#[trigger] relations@[rr])@) == m.relations[rr]
                    },
            decreases nr - r,
        {
            proof {
                assert forall|m: TablesModel|
                    model_wf(*schema, m) && store_fits(m) && #[trigger] enc_store(order_s, m) == bytes@
                        implies holds_at(
                        bytes@,
                        p as int,
                        enc_rows(m.relations[r as int]),
                    ) && rows_fit(m.relations[r as int]) by {
                    lemma_store_parts(bytes@, order_s, m);
                    lemma_list_step(
                        bytes@,
                        (enc_counters(m.counters).len() + order_s.map_values(
                            table_encoder(m.interning),
                        ).flatten().len()) as int,
                        m.relations,
                        rows_encoder(),
                        r as int,
                    );
                }
            }
            match parse_rows(bytes, p) {
                Some((rows, p2)) => {
                    let ghost rm0 = tables_model(relations@);
                    let ghost new_rows = rows_model(rows@);
                    relations.push(rows);
                    proof {
                        let rm1 = tables_model(relations@);
                        assert(rm1 =~= rm0.push(new_rows));
                        lemma_encode_push(rm0, rows_encoder(), new_rows);
                        let prefix = enc_counters(counters@) + order_s.map_values(
                            table_encoder(tables_model(interning@)),
                        ).flatten() + rm0.map_values(rows_encoder()).flatten();
                        lemma_holds_concat(bytes@, 0, prefix, enc_rows(new_rows));
                        assert(prefix + enc_rows(new_rows) =~= enc_counters(counters@) + order_s.map_values(
                            table_encoder(tables_model(interning@)),
                        ).flatten() + rm1.map_values(rows_encoder()).flatten());
                        assert forall|m: TablesModel|
                            model_wf(*schema, m) && store_fits(m) && #[trigger] enc_store(order_s, m)
                                == bytes@ implies p2 == enc_counters(m.counters).len() + order_s.map_values(
                            table_encoder(m.interning),
                        ).flatten().len() + m.relations.take(r + 1).map_values(
                            rows_encoder(),
                        ).flatten().len() by {
                            lemma_store_parts(bytes@, order_s, m);
                            lemma_list_step(
                                bytes@,
                                (enc_counters(m.counters).len() + order_s.map_values(
                                    table_encoder(m.interning),
                                ).flatten().len()) as int,
                                m.relations,
                                rows_encoder(),
                                r as int,
                            );
                            assert(holds_at(bytes@, p as int, enc_rows(m.relations[r as int])));
                        }
                    }
                    p = p2;
                },
                None => {
                    return Err(LoadError::Malformed);
                },
            }
            r = r + 1;
        }
        if p != bytes.len() {
            proof {
                assert forall|m: TablesModel|
                    model_wf(*schema, m) && store_fits(m) && #[trigger] enc_store(order_s, m) == bytes@
                        implies false by {
                    lemma_store_parts(bytes@, order_s, m);
                    assert(m.relations.take(nr as int) =~= m.relations);
                }
            }
            return Err(LoadError::Malformed);
        }
        let ghost parts = parts_model(counters@, interning@, relations@);
        proof {
            assert(bytes@.subrange(0, bytes@.len() as int) =~= bytes@);
            assert(enc_store(order_s, parts) == bytes@);
            assert forall|tt: int| 0 <= tt < parts.interning.len() implies rows_fit(#[trigger] parts.interning[tt]) by {
                schema.lemma_len_bounds();
                let tu = tt as usize;
                assert(order_s.contains(tu));
                let qq = choose|qq: int| 0 <= qq < order_s.len() && order_s[qq] == tu;
                assert(rows_fit(tables_model(interning@)[order_s[qq] as int]));
            }
            assert(store_fits(parts));
            assert forall|m: TablesModel|
                model_wf(*schema, m) && store_fits(m) && #[trigger] enc_store(order_s, m) == bytes@
                    implies parts == m by {
                assert forall|tt: int| 0 <= tt < nt implies parts.interning[tt] == m.interning[tt] by {
                    schema.lemma_len_bounds();
                    let tu = tt as usize;
                    assert(order_s.contains(tu));
                    let qq = choose|qq: int| 0 <= qq < order_s.len() && order_s[qq] == tu;
                    assert(rows_model(interning@[order_s[qq] as int]@) == m.interning[order_s[qq] as int]);
                }
                assert(parts.interning =~= m.interning);
                assert(parts.relations =~= m.relations);
            }
        }
        Tables::from_parts(schema, counters, interning, relations)
    }

    /// The multi-file encoding of this store.
    pub fn store_multifile(&self, schema: &DatabaseSchema) -> (r: MultiFile)
        requires
            self.wf(*schema),
        ensures
            multifile_of(r, self@),
            store_fits(self@),
    {
        let ghost m = self@;
        let mut counters: Vec<u8> = Vec::new();
        let cs = self.counters();
        assert(cs@.len() == cs.len());
        push_counters(&mut counters, cs);
        let nt = schema.num_tables();
        let mut interning: Vec<Vec<u8>> = Vec::new();
        let mut t: usize = 0;
        while t < nt
            invariant
                self.wf(*schema),
                m == self@,
                nt == m.interning.len(),
                t <= nt,
                interning@.len() == t,
                forall|tt: int| 0 <= tt < t ==> (#[trigger] interning@[tt])@ == enc_rows(m.interning[tt]),
                forall|tt: int| 0 <= tt < t ==> rows_fit(#[trigger] m.interning[tt]),
            decreases nt - t,
        {
            let vals = self.interning_table(t).values();
            assert(rows_model(vals@) =~= m.interning[t as int]);
            let mut out: Vec<u8> = Vec::new();
            push_rows(&mut out, &vals);
            assert(out@ =~= enc_rows(m.interning[t as int]));
            interning.push(out);
            t = t + 1;
        }
        let nr = schema.num_relations();
        let mut relations: Vec<Vec<u8>> = Vec::new();
        let mut r: usize = 0;
        while r < nr
            invariant
                self.wf(*schema),
                m == self@,
                nr == m.relations.len(),
                r <= nr,
                relations@.len() == r,
                forall|rr: int| 0 <= rr < r ==> (#[trigger] relations@[rr])@ == enc_rows(m.relations[rr]),
                forall|rr: int| 0 <= rr < r ==> rows_fit(#[trigger] m.relations[rr]),
            decreases nr - r,
        {
            let facts = self.relation(r).iter();
            assert(rows_model(facts@) =~= m.relations[r as int]);
            let mut out: Vec<u8> = Vec::new();
            push_rows(&mut out, &facts);
            assert(out@ =~= enc_rows(m.relations[r as int]));
            relations.push(out);
            r = r + 1;
        }
        assert(counters@ =~= enc_counters(m.counters));
        MultiFile { counters, interning, relations }
    }

    /// Loads a store from its multi-file encoding. Files that
    /// `store_multifile` wrote for a store load as that same store.
    pub fn load_multifile(schema: &DatabaseSchema, files: &MultiFile) -> (r: Result<Tables, LoadError>)
        requires
            schema.wf(),
        ensures
            match r {
                Ok(t) => t.wf(*schema) && store_fits(t@) && multifile_of(*files, t@),
                Err(_) => true,
            },
            forall|m: TablesModel|
                model_wf(*schema, m) && store_fits(m) && #[trigger] multifile_of(*files, m) ==> match r {
                    Ok(t) => t@ == m,
                    Err(_) => false,
                },
    {
        let counters = match parse_counters(&files.counters, 0) {
            Some((c, end)) => {
                if end != files.counters.len() {
                    proof {
                        assert forall|m: TablesModel|
                            model_wf(*schema, m) && store_fits(m) && #[trigger] multifile_of(*files, m)
                                implies false by {
                            assert(files.counters@.subrange(0, files.counters@.len() as int) =~= files.counters@);
                            assert(holds_at(files.counters@, 0, enc_counters(m.counters)));
                        }
                    }
                    return Err(LoadError::Malformed);
                }
                proof {
                    assert(files.counters@.subrange(0, files.counters@.len() as int) =~= files.counters@);
                    assert forall|m: TablesModel|
                        model_wf(*schema, m) && store_fits(m) && #[trigger] multifile_of(*files, m)
                            implies c@ == m.counters by {
                        assert(files.counters@.subrange(0, files.counters@.len() as int) =~= files.counters@);
                        assert(holds_at(files.counters@, 0, enc_counters(m.counters)));
                    }
                }
                c
            },
            None => {
                proof {
                    assert forall|m: TablesModel|
                        model_wf(*schema, m) && store_fits(m) && #[trigger] multifile_of(*files, m)
                            implies false by {
                        assert(files.counters@.subrange(0, files.counters@.len() as int) =~= files.counters@);
                        assert(holds_at(files.counters@, 0, enc_counters(m.counters)));
                    }
                }
                return Err(LoadError::Malformed);
            },
        };
        assert(files.counters@ == enc_counters(counters@) && counters@.len() <= u64::MAX);
        let mut interning: Vec<Vec<Vec<Cell>>> = Vec::new();
        let mut t: usize = 0;
        while t < files.interning.len()
            invariant
                t <= files.interning@.len(),
                interning@.len() == t,
                files.counters@ == enc_counters(counters@),
                counters@.len() <= u64::MAX,
                forall|tt: int|
                    0 <= tt < t ==> rows_fit(#[trigger] tables_model(interning@)[tt])
                        && files.interning@[tt]@ == enc_rows(tables_model(interning@)[tt]),
                forall|m: TablesModel|
                    model_wf(*schema, m) && store_fits(m) && #[trigger] multifile_of(*files, m) ==> {
                        &&& counters@ == m.counters
                        &&& forall|tt: int| 0 <= tt < t ==> rows_model((#[trigger] interning@[tt])@) == m.interning[tt]
                    },
            decreases files.interning@.len() - t,
        {
            match parse_whole_rows(&files.interning[t]) {
                Some(rows) => {
                    let ghost before = interning@;
                    interning.push(rows);
                    proof {
                        assert forall|tt: int| 0 <= tt < t + 1 implies rows_fit(#[trigger] tables_model(interning@)[tt])
                            && files.interning@[tt]@ == enc_rows(tables_model(interning@)[tt]) by {
                            assert(tables_model(interning@)[tt] == rows_model(interning@[tt]@));
                            if tt < t {
                                assert(interning@[tt] == before[tt]);
                                assert(tables_model(before)[tt] == rows_model(before[tt]@));
                            }
                        }
                    }
                },
                None => {
                    return Err(LoadError::Malformed);
                },
            }
            t = t + 1;
        }
        let mut relations: Vec<Vec<Vec<Cell>>> = Vec::new();
        let mut r: usize = 0;
        while r < files.relations.len()
            invariant
                r <= files.relations@.len(),
                relations@.len() == r,
                interning@.len() == files.interning@.len(),
                files.counters@ == enc_counters(counters@),
                counters@.len() <= u64::MAX,
                forall|tt: int|
                    0 <= tt < interning@.len() ==> rows_fit(#[trigger] tables_model(interning@)[tt])
                        && files.interning@[tt]@ == enc_rows(tables_model(interning@)[tt]),
                forall|rr: int|
                    0 <= rr < r ==> rows_fit(#[trigger] tables_model(relations@)[rr])
                        && files.relations@[rr]@ == enc_rows(tables_model(relations@)[rr]),
                forall|m: TablesModel|
                    model_wf(*schema, m) && store_fits(m) && #[trigger] multifile_of(*files, m) ==> {
                        &&& counters@ == m.counters
                        &&& forall|tt: int|
                            0 <= tt < interning@.len() ==> rows_model((#[trigger] interning@[tt])@) == m.interning[tt]
                        &&& forall|rr: int| 0 <= rr < r ==> rows_model((#[trigger] relations@[rr])@) == m.relations[rr]
                    },
            decreases files.relations@.len() - r,
        {
            match parse_whole_rows(&files.relations[r]) {
                Some(rows) => {
                    let ghost before = relations@;
                    relations.push(rows);
                    proof {
                        assert forall|rr: int| 0 <= rr < r + 1 implies rows_fit(#[trigger] tables_model(relations@)[rr])
                            && files.relations@[rr]@ == enc_rows(tables_model(relations@)[rr]) by {
                            assert(tables_model(relations@)[rr] == rows_model(relations@[rr]@));
                            if rr < r {
                                assert(relations@[rr] == before[rr]);
                                assert(tables_model(before)[rr] == rows_model(before[rr]@));
                            }
                        }
                    }
                },
                None => {
                    return Err(LoadError::Malformed);
                },
            }
            r = r + 1;
        }
        proof {
            assert forall|m: TablesModel|
                model_wf(*schema, m) && store_fits(m) && #[trigger] multifile_of(*files, m)
                    implies parts_model(counters@, interning@, relations@) == m by {
                let parts = parts_model(counters@, interning@, relations@);
                assert(parts.interning =~= m.interning);
                assert(parts.relations =~= m.relations);
            }
            let parts = parts_model(counters@, interning@, relations@);
            assert(store_fits(parts));
            assert(multifile_of(*files, parts));
        }
        Tables::from_parts(schema, counters, interning, relations)
    }
}

} // verus!
