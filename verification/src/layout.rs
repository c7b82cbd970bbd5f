//! Row slots of the editor-owned default port rows.
//!
//! In `Columns`, inputs and outputs each count their own rows, so opposite
//! directions share rows. In `Stacked`, every input row precedes every output
//! row. The host turns slots into world-space offsets.

use crate::graph_core::PortDirection;
use crate::style::AnchorLayout;
use vstd::prelude::*;

verus! {

/// How many of the first `n` ports face direction `d`.
pub open spec fn count_dir(ds: Seq<PortDirection>, d: PortDirection, n: int) -> nat
    decreases n,
{
    if n <= 0 {
        0
    } else {
        count_dir(ds, d, n - 1) + if ds[n - 1] == d { 1nat } else { 0nat }
    }
}

/// The row slot of port `i`.
pub open spec fn row_of(layout: AnchorLayout, ds: Seq<PortDirection>, i: int) -> nat {
    match ds[i] {
        PortDirection::Input => count_dir(ds, PortDirection::Input, i),
        PortDirection::Output => match layout {
            AnchorLayout::Columns => count_dir(ds, PortDirection::Output, i),
            AnchorLayout::Stacked => count_dir(ds, PortDirection::Input, ds.len() as int)
                + count_dir(ds, PortDirection::Output, i),
        },
    }
}

/// The number of rows the ports section needs.
pub open spec fn row_count(layout: AnchorLayout, ds: Seq<PortDirection>) -> nat {
    let inputs = count_dir(ds, PortDirection::Input, ds.len() as int);
    let outputs = count_dir(ds, PortDirection::Output, ds.len() as int);
    match layout {
        AnchorLayout::Columns => if inputs >= outputs {
            inputs
        } else {
            outputs
        },
        AnchorLayout::Stacked => inputs + outputs,
    }
}

/// Row slots in the order of `directions`, and the number of rows.
pub struct PortRows {
    pub rows: Vec<usize>,
    pub row_count: usize,
}

proof fn lemma_count_monotone(ds: Seq<PortDirection>, d: PortDirection, i: int, j: int)
    requires
        0 <= i <= j <= ds.len(),
    ensures
        count_dir(ds, d, i) <= count_dir(ds, d, j),
        i < j && ds[i] == d ==> count_dir(ds, d, i) < count_dir(ds, d, j),
    decreases j - i,
{
    if i < j {
        lemma_count_monotone(ds, d, i, j - 1);
    }
}

proof fn lemma_count_total(ds: Seq<PortDirection>, n: int)
    requires
        0 <= n <= ds.len(),
    ensures
        count_dir(ds, PortDirection::Input, n) + count_dir(ds, PortDirection::Output, n) == n,
    decreases n,
{
    if n > 0 {
        lemma_count_total(ds, n - 1);
    }
}

/// Every slot lies below the row count, and two ports share a slot only in
/// `Columns` and only when they face opposite ways.
pub proof fn lemma_rows_fit_and_separate(layout: AnchorLayout, ds: Seq<PortDirection>)
    ensures
        forall|i: int| 0 <= i < ds.len() ==> #[trigger] row_of(layout, ds, i) < row_count(layout, ds),
        forall|i: int, j: int|
            0 <= i < j < ds.len() && (ds[i] == ds[j] || layout == AnchorLayout::Stacked)
                ==> #[trigger] row_of(layout, ds, i) != #[trigger] row_of(layout, ds, j),
{
    let n = ds.len() as int;
    assert forall|i: int| 0 <= i < ds.len() implies #[trigger] row_of(layout, ds, i) < row_count(
        layout,
        ds,
    ) by {
        lemma_count_monotone(ds, ds[i], i, n);
    }
    assert forall|i: int, j: int|
        0 <= i < j < ds.len() && (ds[i] == ds[j] || layout == AnchorLayout::Stacked) implies #[trigger] row_of(
        layout,
        ds,
        i,
    ) != #[trigger] row_of(layout, ds, j) by {
        lemma_count_monotone(ds, ds[i], i, j);
        lemma_count_monotone(ds, ds[j], j, n);
        lemma_count_monotone(ds, ds[i], i, n);
    }
}

/// Assign each port its row slot; see [`row_of`] and [`row_count`].
pub fn port_rows(layout: AnchorLayout, directions: &Vec<PortDirection>) -> (r: PortRows)
    ensures
        r.rows@.len() == directions@.len(),
        forall|i: int| 0 <= i < directions@.len() ==> #[trigger] r.rows@[i] == row_of(
            layout,
            directions@,
            i,
        ),
        r.row_count == row_count(layout, directions@),
{
    let ghost ds = directions@;
    let n = directions.len();
    let mut inputs: usize = 0;
    let mut i: usize = 0;
    while i < n
        invariant
            n == ds.len(),
            ds == directions@,
            i <= n,
            inputs == count_dir(ds, PortDirection::Input, i as int),
            inputs <= i,
        decreases n - i,
    {
        if directions[i] == PortDirection::Input {
            inputs = inputs + 1;
        }
        i = i + 1;
    }
    proof {
        lemma_count_total(ds, n as int);
    }
    let outputs = n - inputs;
    let mut rows: Vec<usize> = Vec::new();
    let mut next_input: usize = 0;
    let mut next_output: usize = 0;
    let mut k: usize = 0;
    while k < n
        invariant
            n == ds.len(),
            ds == directions@,
            k <= n,
            inputs == count_dir(ds, PortDirection::Input, n as int),
            next_input == count_dir(ds, PortDirection::Input, k as int),
            next_output == count_dir(ds, PortDirection::Output, k as int),
            next_input + next_output == k,
            inputs + outputs == n,
            rows@.len() == k,
            forall|j: int| 0 <= j < k ==> #[trigger] rows@[j] == row_of(layout, ds, j),
        decreases n - k,
    {
        proof {
            lemma_count_total(ds, k as int);
            lemma_count_monotone(ds, PortDirection::Input, k as int, n as int);
            lemma_count_monotone(ds, PortDirection::Output, k as int, n as int);
            lemma_count_total(ds, n as int);
        }
        let row = match directions[k] {
            PortDirection::Input => {
                let r = next_input;
                next_input = next_input + 1;
                r
            },
            PortDirection::Output => {
                let r = match layout {
                    AnchorLayout::Columns => next_output,
                    AnchorLayout::Stacked => inputs + next_output,
                };
                next_output = next_output + 1;
                r
            },
        };
        rows.push(row);
        k = k + 1;
    }
    let row_count = match layout {
        AnchorLayout::Columns => if inputs >= outputs {
            inputs
        } else {
            outputs
        },
        AnchorLayout::Stacked => inputs + outputs,
    };
    PortRows { rows, row_count }
}

} // verus!
