//! Scans of one column of the values.

use vstd::prelude::*;
use crate::btree::contents::lists;
use crate::btree::range::{entry_models, ranged};
use crate::error::{DbError, Result};
use crate::ser::{KeyFormat, Model, PairFormat, Serializer};
use crate::store::{opt_model, served, Store};
use super::BTreeMap;

verus! {

/// A value format whose values are rows of cells.
pub trait Columns: Serializer {
    type Cell: View;

    /// The number of cells of a row.
    spec fn width_of_row(&self) -> nat;

    /// A cell of a row.
    spec fn cell(&self, row: Model<Self>, column: int) -> <Self::Cell as View>::V;

    fn column_count(&self) -> (r: usize)
        ensures
            r == self.width_of_row(),
    ;

    fn cell_of(&self, row: &Self::Item, column: usize) -> (r: Self::Cell)
        requires
            column < self.width_of_row(),
        ensures
            r@ == self.cell(row@, column as int),
    ;
}

impl<A: Serializer> Columns for PairFormat<A, A> {
    type Cell = A::Item;

    open spec fn width_of_row(&self) -> nat {
        2
    }

    open spec fn cell(&self, row: (Model<A>, Model<A>), column: int) -> Model<A> {
        if column == 0 {
            row.0
        } else {
            row.1
        }
    }

    fn column_count(&self) -> usize {
        2
    }

    fn cell_of(&self, row: &(A::Item, A::Item), column: usize) -> A::Item {
        assert(row@ == (row.0@, row.1@));
        if column == 0 {
            self.first.dup(&row.0)
        } else {
            self.second.dup(&row.1)
        }
    }
}

/// Each key with one cell of its row.
pub open spec fn column_map<K, VF: Columns>(vf: &VF, m: Map<K, Model<VF>>, column: int) -> Map<
    K,
    <VF::Cell as View>::V,
> {
    Map::new(|k: K| m.contains_key(k), |k: K| vf.cell(m[k], column))
}

impl<KF: KeyFormat, VF: Columns> BTreeMap<KF, VF> {
    /// The keys of a range in order, each with one cell of its row. Values in records of
    /// their own cannot be scanned by column.
    pub fn for_each_value_column<S: Store>(
        &self,
        store: &S,
        from: Option<KF::Item>,
        from_inc: bool,
        to: Option<KF::Item>,
        to_inc: bool,
        column: usize,
    ) -> (r: Result<Vec<(KF::Item, VF::Cell)>>)
        requires
            self.inline() ==> column < self.vf().width_of_row(),
        ensures
            !self.inline() ==> (r matches Err(e) && e is Unsupported),
            self.inline() ==> self.refuses(store.state(), r),
            self.inline() && self.wf(store.state().records)
                ==> served(store.state(), r) && (r matches Ok(v) ==> lists(
                &self.kf(),
                entry_models(v@),
                column_map(
                    &self.vf(),
                    ranged(
                        &self.kf(),
                        self.contents(store.state().records),
                        opt_model(from),
                        from_inc,
                        opt_model(to),
                        to_inc,
                    ),
                    column as int,
                ),
            )),
    {
        if !self.value_inline() {
            return Err(DbError::Unsupported("column scan is unavailable for external values"));
        }
        let ghost part = ranged(
            &self.kf(),
            self.contents(store.state().records),
            opt_model(from),
            from_inc,
            opt_model(to),
            to_inc,
        );
        let ghost good = self.wf(store.state().records);
        let rows = match self.entries_in(store, from, from_inc, to, to_inc) {
            Ok(v) => v,
            Err(e) => {
                return Err(e);
            },
        };
        let ghost e = entry_models(rows@);
        let mut out: Vec<(KF::Item, VF::Cell)> = Vec::new();
        let mut i: usize = 0;
        while i < rows.len()
            invariant
                i <= rows@.len(),
                column < self.vf().width_of_row(),
                out@.len() == i,
                forall|j: int|
                    0 <= j < i ==> (#[trigger] out@[j]).0@ == rows@[j].0@ && out@[j].1@
                        == self.vf().cell(rows@[j].1@, column as int),
            decreases rows@.len() - i,
        {
            let k = self.key_serializer().dup(&rows[i].0);
            let c = self.value_serializer().cell_of(&rows[i].1, column);
            out.push((k, c));
            i = i + 1;
        }
        proof {
            if good {
                let o = entry_models(out@);
                let m = column_map(&self.vf(), part, column as int);
                assert forall|j: int| 0 <= j < o.len() implies #[trigger] o[j] == (
                    e[j].0,
                    self.vf().cell(e[j].1, column as int),
                ) by {}
                assert forall|x: int, y: int| #![trigger o[x], o[y]] 0 <= x < y < o.len()
                    implies self.kf().lt(
                    o[x].0,
                    o[y].0,
                ) by {
                    assert(self.kf().lt(e[x].0, e[y].0));
                }
                assert forall|x: int| #![trigger o[x]] 0 <= x < o.len()
                    implies m.contains_key(o[x].0)
                    && m[o[x].0] == o[x].1 by {
                    assert(part.contains_key(e[x].0));
                }
                assert forall|k: Model<KF>| #[trigger] m.contains_key(k) implies exists|x: int|
                    0 <= x < o.len() && (#[trigger] o[x]).0 == k by {
                    assert(part.contains_key(k));
                    let x = choose|x: int| 0 <= x < e.len() && (#[trigger] e[x]).0 == k;
                    assert(o[x].0 == k);
                }
            }
        }
        Ok(out)
    }
}

} // verus!
