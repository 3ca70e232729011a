//! Relations: append-only, order-preserving sequences of fact tuples.
use crate::cell::{duplicate_row, row_model, Cell, RowModel};
use vstd::prelude::*;

verus! {

/// A relation: the facts in the order in which they were inserted.
pub struct Relation {
    facts: Vec<Vec<Cell>>,
}

impl View for Relation {
    type V = Seq<RowModel>;

    closed spec fn view(&self) -> Seq<RowModel> {
        Seq::new(self.facts@.len(), |i: int| row_model(self.facts@[i]))
    }
}

impl Relation {
    /// An empty relation.
    pub fn new() -> (r: Relation)
        ensures
            r@ == Seq::<RowModel>::empty(),
    {
        let r = Relation { facts: Vec::new() };
        assert(r@ =~= Seq::<RowModel>::empty());
        r
    }

    /// Appends a fact; equal facts are kept as often as they are inserted.
    pub fn insert(&mut self, fact: Vec<Cell>)
        ensures
            final(self)@ == old(self)@.push(row_model(fact)),
    {
        self.facts.push(fact);
        assert(self@ =~= old(self)@.push(row_model(fact)));
    }

    /// The number of facts.
    pub fn len(&self) -> (n: usize)
        ensures
            n == self@.len(),
    {
        self.facts.len()
    }

    /// The fact at position `i`.
    pub fn get(&self, i: usize) -> (r: &Vec<Cell>)
        requires
            i < self@.len(),
        ensures
            row_model(*r) == self@[i as int],
    {
        &self.facts[i]
    }

    /// The facts in insertion order.
    pub fn iter(&self) -> (r: Vec<Vec<Cell>>)
        ensures
            r@.len() == self@.len(),
            forall|i: int| 0 <= i < self@.len() ==> row_model(#[trigger] r@[i]) == self@[i],
    {
        let mut r: Vec<Vec<Cell>> = Vec::new();
        let mut i: usize = 0;
        while i < self.facts.len()
            invariant
                i <= self.facts@.len(),
                r@.len() == i,
                forall|j: int| 0 <= j < i ==> row_model(#[trigger] r@[j]) == self@[j],
            decreases self.facts@.len() - i,
        {
            r.push(duplicate_row(&self.facts[i]));
            i = i + 1;
        }
        r
    }
}

/// The relation that results from inserting `facts` one after another.
pub open spec fn inserted_all(start: Seq<RowModel>, facts: Seq<RowModel>) -> Seq<RowModel>
    decreases facts.len(),
{
    if facts.len() == 0 {
        start
    } else {
        inserted_all(start, facts.drop_last()).push(facts.last())
    }
}

/// Inserting a sequence of facts into a relation appends exactly those
/// facts, in the order of insertion.
pub proof fn lemma_insert_preserves_order(start: Seq<RowModel>, facts: Seq<RowModel>)
    ensures
        inserted_all(start, facts) == start + facts,
    decreases facts.len(),
{
    if facts.len() > 0 {
        lemma_insert_preserves_order(start, facts.drop_last());
        assert(start + facts =~= (start + facts.drop_last()).push(facts.last()));
    } else {
        assert(start + facts =~= start);
    }
}

} // verus!
