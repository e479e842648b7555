//! Layout decisions of the sidebar panels.
use vstd::prelude::*;

verus! {

/// The rows of the "available molecules" panel for the molecules whose availability is
/// given by `available`: one row to begin with, each row taking up to two available
/// molecules (by position) in order, a new row starting when the current one is full.
pub open spec fn spec_resource_rows(available: Seq<bool>) -> Seq<Seq<usize>>
    decreases available.len(),
{
    if available.len() == 0 {
        seq![Seq::empty()]
    } else {
        let prev = spec_resource_rows(available.drop_last());
        let k = (available.len() - 1) as usize;
        if !available.last() {
            prev
        } else if prev.last().len() == 2 {
            prev.push(seq![k])
        } else {
            prev.update(prev.len() - 1, prev.last().push(k))
        }
    }
}

/// The views of a list of rows.
pub open spec fn row_views(rows: Seq<Vec<usize>>) -> Seq<Seq<usize>> {
    rows.map_values(|r: Vec<usize>| r@)
}

/// There is always at least one row, and the last row holds at most two molecules.
pub proof fn lemma_resource_rows_shape(available: Seq<bool>)
    ensures
        spec_resource_rows(available).len() >= 1,
        spec_resource_rows(available).last().len() <= 2,
    decreases available.len(),
{
    if available.len() > 0 {
        lemma_resource_rows_shape(available.drop_last());
    }
}

/// Lays out the available molecules (positions where `available` holds) in rows of two.
pub fn resource_rows(available: &Vec<bool>) -> (res: Vec<Vec<usize>>)
    ensures
        row_views(res@) == spec_resource_rows(available@),
{
    let mut rows: Vec<Vec<usize>> = Vec::new();
    rows.push(Vec::new());
    let mut children_in_row: usize = 0;
    assert(available@.take(0) =~= Seq::<bool>::empty());
    assert(row_views(rows@) =~= spec_resource_rows(available@.take(0)));
    let mut i: usize = 0;
    while i < available.len()
        invariant
            i <= available@.len(),
            row_views(rows@) == spec_resource_rows(available@.take(i as int)),
            rows@.len() >= 1,
            children_in_row == rows@.last()@.len(),
            children_in_row <= 2,
        decreases available@.len() - i,
    {
        let ghost prev = row_views(rows@);
        proof {
            assert(available@.take(i + 1).drop_last() =~= available@.take(i as int));
            lemma_resource_rows_shape(available@.take(i + 1));
        }
        if available[i] {
            if children_in_row == 2 {
                let mut row: Vec<usize> = Vec::new();
                row.push(i);
                rows.push(row);
                children_in_row = 0;
                assert(row_views(rows@) =~= prev.push(seq![i]));
            } else {
                let last = rows.len() - 1;
                rows[last].push(i);
                assert(row_views(rows@) =~= prev.update(prev.len() - 1, prev.last().push(i)));
            }
            children_in_row += 1;
        }
        i += 1;
    }
    assert(available@.take(i as int) =~= available@);
    rows
}

/// The positions at which `available` holds, in increasing order.
pub open spec fn available_positions(available: Seq<bool>) -> Seq<usize>
    decreases available.len(),
{
    if available.len() == 0 {
        Seq::empty()
    } else if available.last() {
        available_positions(available.drop_last()).push((available.len() - 1) as usize)
    } else {
        available_positions(available.drop_last())
    }
}

/// The rows read one after the other.
pub open spec fn rows_concat(rows: Seq<Seq<usize>>) -> Seq<usize>
    decreases rows.len(),
{
    if rows.len() == 0 {
        Seq::empty()
    } else {
        rows_concat(rows.drop_last()) + rows.last()
    }
}

/// The rows list every available molecule exactly once, in order, and every row but the
/// last is full (two molecules).
pub proof fn law_resource_rows_cover(available: Seq<bool>)
    ensures
        rows_concat(spec_resource_rows(available)) == available_positions(available),
        forall|r: int|
            0 <= r < spec_resource_rows(available).len() - 1 ==> (#[trigger] spec_resource_rows(available)[r]).len()
                == 2,
    decreases available.len(),
{
    lemma_resource_rows_shape(available);
    if available.len() == 0 {
        let rows = spec_resource_rows(available);
        assert(rows.drop_last() =~= Seq::<Seq<usize>>::empty());
        assert(rows_concat(rows.drop_last()) =~= Seq::<usize>::empty());
        assert(rows.last() =~= Seq::<usize>::empty());
        assert(rows_concat(rows) =~= Seq::<usize>::empty());
    } else {
        let a = available.drop_last();
        law_resource_rows_cover(a);
        lemma_resource_rows_shape(a);
        let prev = spec_resource_rows(a);
        let k = (available.len() - 1) as usize;
        let rows = spec_resource_rows(available);
        if available.last() {
            if prev.last().len() == 2 {
                assert(rows == prev.push(seq![k]));
                assert(rows.drop_last() =~= prev);
                assert(rows_concat(rows) =~= rows_concat(prev) + seq![k]);
                assert forall|r: int| 0 <= r < rows.len() - 1 implies (#[trigger] rows[r]).len() == 2 by {
                    assert(rows[r] == prev[r]);
                }
            } else {
                let last = prev.last().push(k);
                assert(rows == prev.update(prev.len() - 1, last));
                assert(rows.drop_last() =~= prev.drop_last());
                assert(rows.last() == last);
                assert(rows_concat(prev) == rows_concat(prev.drop_last()) + prev.last());
                assert(rows_concat(rows) =~= rows_concat(prev) + seq![k]);
                assert forall|r: int| 0 <= r < rows.len() - 1 implies (#[trigger] rows[r]).len() == 2 by {
                    assert(rows[r] == prev[r]);
                }
            }
        }
    }
}

} // verus!
