//! Interning tables: a one-to-one, insertion-ordered map from dense keys to
//! values, with a reverse index from content hash to keys.
use crate::cell::{duplicate_row, hash_row, row_hash, row_model, rows_equal, Cell, RowModel};
use std::collections::HashMap;
use vstd::prelude::*;

verus! {

broadcast use vstd::std_specs::hash::group_hash_axioms;

/// The table that results from interning `v` into the table `s`.
pub open spec fn interned(s: Seq<RowModel>, v: RowModel) -> Seq<RowModel> {
    if s.contains(v) {
        s
    } else {
        s.push(v)
    }
}

/// The key that interning `v` into the table `s` returns.
pub open spec fn intern_key(s: Seq<RowModel>, v: RowModel) -> int {
    if s.contains(v) {
        s.index_of(v)
    } else {
        s.len() as int
    }
}

/// A store of distinct values, each under the key that is its position.
pub struct InterningTable {
    values: Vec<Vec<Cell>>,
    index: HashMap<u64, Vec<usize>>,
}

impl View for InterningTable {
    type V = Seq<RowModel>;

    closed spec fn view(&self) -> Seq<RowModel> {
        Seq::new(self.values@.len(), |i: int| row_model(self.values@[i]))
    }
}

impl InterningTable {
    /// The internal invariant: values are distinct, and the index lists
    /// each key under the hash of its value and holds no other key.
    pub closed spec fn wf(&self) -> bool {
        &&& self@.no_duplicates()
        &&& forall|k: usize|
            #![trigger self.values@[k as int]]
            k < self.values@.len() ==> {
                let h = hash_row(row_model(self.values@[k as int])) as u64;
                &&& self.index@.contains_key(h)
                &&& self.index@[h]@.contains(k)
            }
        &&& forall|h: u64, j: int|
            #![trigger self.index@[h]@[j]]
            self.index@.contains_key(h) && 0 <= j < self.index@[h]@.len()
                ==> self.index@[h]@[j] < self.values@.len()
    }

    /// An empty table.
    pub fn new() -> (t: InterningTable)
        ensures
            t.wf(),
            t@ == Seq::<RowModel>::empty(),
    {
        let t = InterningTable { values: Vec::new(), index: HashMap::new() };
        assert(t@ =~= Seq::<RowModel>::empty());
        t
    }

    /// The number of interned values.
    pub fn len(&self) -> (n: usize)
        ensures
            n == self@.len(),
    {
        self.values.len()
    }

    /// The value stored under `key`.
    pub fn get(&self, key: usize) -> (r: &Vec<Cell>)
        requires
            key < self@.len(),
        ensures
            row_model(*r) == self@[key as int],
    {
        &self.values[key]
    }

    /// The key under which `v` is stored, if it is stored.
    pub fn lookup(&self, v: &Vec<Cell>) -> (r: Option<usize>)
        requires
            self.wf(),
        ensures
            match r {
                Some(k) => self@.contains(row_model(*v)) && k == self@.index_of(row_model(*v)),
                None => !self@.contains(row_model(*v)),
            },
    {
        let h = row_hash(v);
        match self.index.get(&h) {
            None => {
                proof {
                    if self@.contains(row_model(*v)) {
                        let k = choose|k: int| 0 <= k < self@.len() && self@[k] == row_model(*v);
                        assert(k < self.values.len());
                        let ku = k as usize;
                        assert(self.values@[ku as int] == self.values@[k]);
                    }
                }
                None
            },
            Some(bucket) => self.search_bucket(bucket, v, h),
        }
    }

    fn search_bucket(&self, bucket: &Vec<usize>, v: &Vec<Cell>, h: u64) -> (r: Option<usize>)
        requires
            self.wf(),
            self.index@.contains_key(h),
            *bucket == self.index@[h],
            h == hash_row(row_model(*v)),
        ensures
            match r {
                Some(k) => self@.contains(row_model(*v)) && k == self@.index_of(row_model(*v)),
                None => !self@.contains(row_model(*v)),
            },
    {
        let mut j: usize = 0;
        while j < bucket.len()
            invariant
                self.wf(),
                self.index@.contains_key(h),
                *bucket == self.index@[h],
                j <= bucket@.len(),
                forall|i: int| 0 <= i < j ==> self@[bucket@[i] as int] != row_model(*v),
            decreases bucket@.len() - j,
        {
            let k = bucket[j];
            assert(self.index@[h]@[j as int] == k);
            if rows_equal(&self.values[k], v) {
                proof {
                    self.lemma_index_of(k as int);
                }
                return Some(k);
            }
            j = j + 1;
        }
        proof {
            if self@.contains(row_model(*v)) {
                let k = choose|k: int| 0 <= k < self@.len() && self@[k] == row_model(*v);
                assert(k < self.values.len());
                let ku = k as usize;
                assert(self.values@[ku as int] == self.values@[k]);
                let i = choose|i: int| 0 <= i < bucket@.len() && bucket@[i] == ku;
                assert(self@[bucket@[i] as int] != row_model(*v));
            }
        }
        None
    }

    proof fn lemma_index_of(&self, k: int)
        requires
            self.wf(),
            0 <= k < self@.len(),
        ensures
            self@.contains(self@[k]),
            self@.index_of(self@[k]) == k,
    {
        let v = self@[k];
        assert(self@[k] == v);
        let i = self@.index_of(v);
        assert(0 <= i < self@.len() && self@[i] == v);
    }

    /// Interns `v`: returns the key of an equal stored value, or stores `v`
    /// under the next dense key and returns that key.
    pub fn intern(&mut self, v: Vec<Cell>) -> (k: usize)
        requires
            old(self).wf(),
        ensures
            final(self).wf(),
            final(self)@ == interned(old(self)@, row_model(v)),
            k == intern_key(old(self)@, row_model(v)),
            k < final(self)@.len(),
            final(self)@[k as int] == row_model(v),
    {
        match self.lookup(&v) {
            Some(k) => {
                proof {
                    let i = self@.index_of(row_model(v));
                    assert(0 <= i < self@.len() && self@[i] == row_model(v));
                }
                k
            },
            None => {
                let h = row_hash(&v);
                let k = self.values.len();
                let ghost old_values = self.values@;
                let ghost old_index = self.index@;
                let ghost old_view = self@;
                let mut bucket = match self.index.remove(&h) {
                    Some(b) => b,
                    None => Vec::new(),
                };
                bucket.push(k);
                self.index.insert(h, bucket);
                self.values.push(v);
                proof {
                    assert(self@ =~= old_view.push(row_model(v)));
                    assert(self.values@[k as int] == v);
                    assert forall|i: int, j: int|
                        0 <= i < self@.len() && 0 <= j < self@.len() && i != j implies self@[i]
                        != self@[j] by {
                        if i < old_view.len() && j < old_view.len() {
                            assert(old_view[i] != old_view[j]);
                        } else if i < old_view.len() {
                            assert(old_view.contains(old_view[i]));
                        } else {
                            assert(old_view.contains(old_view[j]));
                        }
                    }
                    assert forall|kk: usize|
                        #![trigger self.values@[kk as int]]
                        kk < self.values@.len() implies {
                        let hh = hash_row(row_model(self.values@[kk as int])) as u64;
                        &&& self.index@.contains_key(hh)
                        &&& self.index@[hh]@.contains(kk)
                    } by {
                        let hh = hash_row(row_model(self.values@[kk as int])) as u64;
                        if kk < old_values.len() {
                            assert(self.values@[kk as int] == old_values[kk as int]);
                            assert(old_index.contains_key(hh));
                            let jj = choose|jj: int|
                                0 <= jj < old_index[hh]@.len() && old_index[hh]@[jj] == kk;
                            assert(self.index@[hh]@[jj] == kk);
                        } else {
                            assert(self.index@[h]@.last() == k);
                        }
                    }
                    assert forall|hh: u64, j: int|
                        #![trigger self.index@[hh]@[j]]
                        self.index@.contains_key(hh) && 0 <= j < self.index@[hh]@.len()
                            implies self.index@[hh]@[j] < self.values@.len() by {
                        if hh != h {
                            assert(old_index[hh]@[j] < old_values.len());
                        } else if j < self.index@[hh]@.len() - 1 {
                            assert(old_index.contains_key(h));
                            assert(old_index[h]@[j] < old_values.len());
                        }
                    }
                }
                k
            },
        }
    }

    /// The stored values in key order.
    pub fn values(&self) -> (r: Vec<Vec<Cell>>)
        ensures
            r@.len() == self@.len(),
            forall|i: int| 0 <= i < self@.len() ==> row_model(#[trigger] r@[i]) == self@[i],
    {
        let mut r: Vec<Vec<Cell>> = Vec::new();
        let mut i: usize = 0;
        while i < self.values.len()
            invariant
                i <= self.values@.len(),
                r@.len() == i,
                forall|j: int| 0 <= j < i ==> row_model(#[trigger] r@[j]) == self@[j],
            decreases self.values@.len() - i,
        {
            r.push(duplicate_row(&self.values[i]));
            i = i + 1;
        }
        r
    }
}

} // verus!
