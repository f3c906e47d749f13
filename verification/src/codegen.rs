//! The decisions of code generation that do not need LLVM: how the initial
//! tape is laid out, and the order of the targets of a multiply-move.
use crate::bfir::{change_entries, Cell};
use std::collections::HashMap;
use vstd::prelude::*;

verus! {

broadcast use vstd::std_specs::vec::group_vec_axioms;

/// The runs of equal values in the first `n` cells: each value with the
/// number of times it repeats.
pub open spec fn runs_prefix(cells: Seq<Cell>, n: int) -> Seq<(Cell, int)>
    decreases n,
{
    if n <= 0 || n > cells.len() {
        Seq::empty()
    } else {
        let runs = runs_prefix(cells, n - 1);
        if runs.len() > 0 && runs.last().0 == cells[n - 1] {
            runs.update(runs.len() - 1, (cells[n - 1], runs.last().1 + 1))
        } else {
            runs.push((cells[n - 1], 1))
        }
    }
}

pub open spec fn runs(cells: Seq<Cell>) -> Seq<(Cell, int)> {
    runs_prefix(cells, cells.len() as int)
}

/// The cells that a list of runs stands for.
pub open spec fn expand_runs(runs: Seq<(Cell, int)>) -> Seq<Cell>
    decreases runs.len(),
{
    if runs.len() == 0 {
        Seq::empty()
    } else {
        expand_runs(runs.drop_last()) + Seq::new(runs.last().1 as nat, |i: int| runs.last().0)
    }
}

pub open spec fn runs_view(r: Seq<(Cell, usize)>) -> Seq<(Cell, int)> {
    Seq::new(r.len(), |i: int| (r[i].0, r[i].1 as int))
}

/// Compress a tape into runs of equal values: `[0, 0, 5]` becomes
/// `[(0, 2), (5, 1)]`.
pub fn run_length_encode(cells: &[Cell]) -> (r: Vec<(Cell, usize)>)
    ensures
        runs_view(r@) == runs(cells@),
{
    let mut result: Vec<(Cell, usize)> = Vec::new();
    let mut i: usize = 0;
    assert(runs_view(result@) =~= Seq::<(Cell, int)>::empty());
    while i < cells.len()
        invariant
            i <= cells@.len(),
            runs_view(result@) == runs_prefix(cells@, i as int),
            forall|j: int| 0 <= j < result@.len() ==> (#[trigger] result@[j]).1 <= i,
        decreases cells@.len() - i,
    {
        let val = cells[i];
        let ghost before = result@;
        let n = result.len();
        if n > 0 && result[n - 1].0 == val {
            let count = result[n - 1].1;
            result.set(n - 1, (val, count + 1));
            assert(runs_view(result@) =~= runs_view(before).update(n - 1, (val, count + 1)));
        } else {
            result.push((val, 1));
            assert(runs_view(result@) =~= runs_view(before).push((val, 1)));
        }
        i += 1;
    }
    result
}

proof fn lemma_runs_prefix_expand(cells: Seq<Cell>, n: int)
    requires
        0 <= n <= cells.len(),
    ensures
        expand_runs(runs_prefix(cells, n)) == cells.take(n),
        forall|j: int| 0 <= j < runs_prefix(cells, n).len() ==> (#[trigger] runs_prefix(cells, n)[j]).1 > 0,
        forall|j: int| 0 <= j < runs_prefix(cells, n).len() - 1 ==> (#[trigger] runs_prefix(cells, n)[j]).0 != runs_prefix(cells, n)[j + 1].0,
        n > 0 ==> runs_prefix(cells, n).len() > 0 && runs_prefix(cells, n).last().0 == cells[n - 1],
    decreases n,
{
    if n > 0 {
        lemma_runs_prefix_expand(cells, n - 1);
        let runs = runs_prefix(cells, n - 1);
        let v = cells[n - 1];
        if runs.len() > 0 && runs.last().0 == v {
            let last = runs.last();
            let updated = runs.update(runs.len() - 1, (v, last.1 + 1));
            assert(updated.drop_last() =~= runs.drop_last());
            assert(Seq::new((last.1 + 1) as nat, |i: int| v) =~= Seq::new(last.1 as nat, |i: int| v).push(v));
            assert(cells.take(n) =~= cells.take(n - 1).push(v));
            assert(expand_runs(runs) == expand_runs(runs.drop_last()) + Seq::new(last.1 as nat, |i: int| last.0));
            assert(expand_runs(updated) =~= expand_runs(runs).push(v));
        } else {
            let pushed = runs.push((v, 1));
            assert(pushed.drop_last() =~= runs);
            assert(Seq::new(1nat, |i: int| v) =~= seq![v]);
            assert(cells.take(n) =~= cells.take(n - 1).push(v));
            assert(expand_runs(pushed) =~= expand_runs(runs).push(v));
        }
    } else {
        assert(cells.take(0) =~= Seq::<Cell>::empty());
    }
}

/// Expanding the runs gives the cells back; every run is non-empty, and
/// neighbouring runs hold different values.
pub proof fn lemma_run_length_encoding_round_trip(cells: Seq<Cell>)
    ensures
        expand_runs(runs(cells)) == cells,
        forall|j: int| 0 <= j < runs(cells).len() ==> (#[trigger] runs(cells)[j]).1 > 0,
        forall|j: int| 0 <= j < runs(cells).len() - 1 ==> (#[trigger] runs(cells)[j]).0 != runs(cells)[j + 1].0,
{
    lemma_runs_prefix_expand(cells, cells.len() as int);
    assert(cells.take(cells.len() as int) =~= cells);
}

pub open spec fn strictly_sorted(s: Seq<(isize, Cell)>) -> bool {
    forall|t: int, u: int| 0 <= t < u < s.len() ==> s[t].0 < s[u].0
}

/// Insert `x` where its key belongs in a list strictly sorted by key.
fn insert_entry(sorted: Vec<(isize, Cell)>, x: (isize, Cell)) -> (r: Vec<(isize, Cell)>)
    requires
        strictly_sorted(sorted@),
        forall|u: int| 0 <= u < sorted@.len() ==> (#[trigger] sorted@[u]).0 != x.0,
    ensures
        strictly_sorted(r@),
        forall|u: int| 0 <= u < sorted@.len() ==> exists|v: int| 0 <= v < r@.len() && r@[v] == #[trigger] sorted@[u],
        exists|v: int| 0 <= v < r@.len() && r@[v] == x,
        forall|v: int| 0 <= v < r@.len() ==> #[trigger] r@[v] == x || exists|u: int| 0 <= u < sorted@.len() && r@[v] == sorted@[u],
{
    let mut sorted = sorted;
    let mut j: usize = sorted.len();
    while j > 0 && sorted[j - 1].0 > x.0
        invariant
            j <= sorted@.len(),
            forall|u: int| j <= u < sorted@.len() ==> (#[trigger] sorted@[u]).0 > x.0,
        decreases j,
    {
        j -= 1;
    }
    let ghost before = sorted@;
    sorted.insert(j, x);
    assert(sorted@ == before.insert(j as int, x));
    assert forall|t: int, u: int| 0 <= t < u < sorted@.len() implies sorted@[t].0 < sorted@[u].0 by {
        if u < j {
            assert(sorted@[t] == before[t] && sorted@[u] == before[u]);
        } else if u == j {
            assert(sorted@[t] == before[t]);
            if t < j - 1 {
                assert(before[t].0 < before[j - 1].0);
            }
        } else if t == j {
            assert(sorted@[u] == before[u - 1]);
        } else if t < j {
            assert(sorted@[t] == before[t] && sorted@[u] == before[u - 1]);
        } else {
            assert(sorted@[t] == before[t - 1] && sorted@[u] == before[u - 1]);
        }
    }
    assert forall|u: int| 0 <= u < before.len() implies exists|v: int| 0 <= v < sorted@.len() && sorted@[v] == #[trigger] before[u] by {
        if u < j {
            assert(sorted@[u] == before[u]);
        } else {
            assert(sorted@[u + 1] == before[u]);
        }
    }
    assert(sorted@[j as int] == x);
    assert forall|v: int| 0 <= v < sorted@.len() implies #[trigger] sorted@[v] == x || exists|u: int| 0 <= u < before.len() && sorted@[v] == before[u] by {
        if v < j {
            assert(sorted@[v] == before[v]);
        } else if v > j {
            assert(sorted@[v] == before[v - 1]);
        }
    }
    sorted
}

/// The entries of a multiply table, ordered by their offset.
pub fn sorted_changes(changes: &HashMap<isize, Cell>) -> (r: Vec<(isize, Cell)>)
    ensures
        forall|i: int| #![trigger r@[i]] 0 <= i < r@.len() ==> changes@.contains_key(r@[i].0) && changes@[r@[i].0] == r@[i].1,
        forall|k: isize| #[trigger] changes@.contains_key(k) ==> exists|i: int| 0 <= i < r@.len() && r@[i].0 == k,
        strictly_sorted(r@),
{
    let entries = change_entries(changes);
    let mut sorted: Vec<(isize, Cell)> = Vec::new();
    let mut i: usize = 0;
    while i < entries.len()
        invariant
            i <= entries@.len(),
            forall|t: int, u: int| 0 <= t < entries@.len() && 0 <= u < entries@.len() && t != u ==> entries@[t].0 != entries@[u].0,
            strictly_sorted(sorted@),
            forall|u: int| 0 <= u < sorted@.len() ==> exists|t: int| 0 <= t < i && #[trigger] sorted@[u] == entries@[t],
            forall|t: int| 0 <= t < i ==> exists|u: int| 0 <= u < sorted@.len() && sorted@[u] == #[trigger] entries@[t],
        decreases entries@.len() - i,
    {
        let entry = entries[i];
        assert forall|u: int| 0 <= u < sorted@.len() implies (#[trigger] sorted@[u]).0 != entry.0 by {
            let t = choose|t: int| 0 <= t < i && sorted@[u] == entries@[t];
        }
        let ghost before = sorted@;
        sorted = insert_entry(sorted, entry);
        assert forall|u: int| 0 <= u < sorted@.len() implies exists|t: int| 0 <= t < i + 1 && #[trigger] sorted@[u] == entries@[t] by {
            if sorted@[u] != entry {
                let w = choose|w: int| 0 <= w < before.len() && sorted@[u] == before[w];
                let t = choose|t: int| 0 <= t < i && before[w] == entries@[t];
            }
        }
        assert forall|t: int| 0 <= t < i + 1 implies exists|u: int| 0 <= u < sorted@.len() && sorted@[u] == #[trigger] entries@[t] by {
            if t < i {
                let w = choose|w: int| 0 <= w < before.len() && before[w] == entries@[t];
                assert(exists|v: int| 0 <= v < sorted@.len() && sorted@[v] == before[w]);
            }
        }
        i += 1;
    }
    assert forall|u: int| #![trigger sorted@[u]] 0 <= u < sorted@.len() implies changes@.contains_key(sorted@[u].0) && changes@[sorted@[u].0] == sorted@[u].1 by {
        let t = choose|t: int| 0 <= t < entries@.len() && sorted@[u] == entries@[t];
    }
    assert forall|k: isize| #[trigger] changes@.contains_key(k) implies exists|u: int| 0 <= u < sorted@.len() && sorted@[u].0 == k by {
        let t = choose|t: int| 0 <= t < entries@.len() && entries@[t].0 == k;
        let u = choose|u: int| 0 <= u < sorted@.len() && sorted@[u] == entries@[t];
    }
    sorted
}

} // verus!
