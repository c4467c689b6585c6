//! Counting the values held by occupancy cells.
//!
//! Cells hold `1` (occupied), `0` (free) or `-1` (unknown).
use vstd::prelude::*;

verus! {

/// The value of an occupied cell.
pub const OCCUPIED: i8 = 1;

/// The value of a free cell.
pub const FREE: i8 = 0;

/// The value of a cell of which nothing is known.
pub const UNKNOWN: i8 = -1;

/// A cell value is one of occupied, free and unknown.
pub open spec fn is_cell_value(c: i8) -> bool {
    c == OCCUPIED || c == FREE || c == UNKNOWN
}

/// Every cell of `s` holds one of the three cell values.
pub open spec fn all_cell_values(s: Seq<i8>) -> bool {
    forall|i: int| 0 <= i < s.len() ==> is_cell_value(#[trigger] s[i])
}

/// The number of entries of `s` that equal `v`.
pub open spec fn count_value(s: Seq<i8>, v: i8) -> nat
    decreases s.len(),
{
    if s.len() == 0 {
        0
    } else {
        count_value(s.drop_last(), v) + if s.last() == v {
            1nat
        } else {
            0nat
        }
    }
}

/// Counting, spelled out: the empty sequence counts nothing, and appending an entry adds one
/// exactly when the entry equals the value counted.
pub proof fn lemma_count_spelled_out(s: Seq<i8>, c: i8, v: i8)
    ensures
        count_value(Seq::<i8>::empty(), v) == 0,
        count_value(s.push(c), v) == count_value(s, v) + if c == v {
            1nat
        } else {
            0nat
        },
{
    assert(s.push(c).drop_last() =~= s);
}

/// A count never exceeds the length of the sequence.
pub proof fn lemma_count_le_len(s: Seq<i8>, v: i8)
    ensures
        count_value(s, v) <= s.len(),
    decreases s.len(),
{
    if s.len() > 0 {
        lemma_count_le_len(s.drop_last(), v);
    }
}

/// Counting a one-longer prefix adds the entry at its end.
pub proof fn lemma_count_take_step(s: Seq<i8>, n: int, v: i8)
    requires
        0 <= n < s.len(),
    ensures
        count_value(s.take(n + 1), v) == count_value(s.take(n), v) + if s[n] == v {
            1nat
        } else {
            0nat
        },
{
    assert(s.take(n + 1).drop_last() =~= s.take(n));
}

/// Writing one entry changes the count by what left and what came in.
pub proof fn lemma_count_update(s: Seq<i8>, i: int, x: i8, v: i8)
    requires
        0 <= i < s.len(),
    ensures
        count_value(s.update(i, x), v) + (if s[i] == v {
            1int
        } else {
            0int
        }) == count_value(s, v) + (if x == v {
            1int
        } else {
            0int
        }),
    decreases s.len(),
{
    let t = s.update(i, x);
    if i == s.len() - 1 {
        assert(t.drop_last() =~= s.drop_last());
    } else {
        assert(t.drop_last() =~= s.drop_last().update(i, x));
        lemma_count_update(s.drop_last(), i, x, v);
    }
}

/// A sequence of `n` copies of `v` counts `n` entries equal to `v` and none of another value.
pub proof fn lemma_count_constant(n: nat, v: i8, w: i8)
    ensures
        count_value(Seq::new(n, |i: int| v), w) == if v == w {
            n
        } else {
            0
        },
    decreases n,
{
    if n > 0 {
        let s = Seq::new(n, |i: int| v);
        assert(s.drop_last() =~= Seq::new((n - 1) as nat, |i: int| v));
        lemma_count_constant((n - 1) as nat, v, w);
    }
}

/// Where every entry is a cell value, the occupied, free and unknown counts add up to the length.
pub proof fn lemma_counts_partition(s: Seq<i8>)
    requires
        all_cell_values(s),
    ensures
        count_value(s, OCCUPIED) + count_value(s, FREE) + count_value(s, UNKNOWN) == s.len(),
    decreases s.len(),
{
    if s.len() > 0 {
        assert(is_cell_value(s[s.len() - 1]));
        assert(all_cell_values(s.drop_last())) by {
            assert forall|i: int| 0 <= i < s.drop_last().len() implies is_cell_value(
                #[trigger] s.drop_last()[i],
            ) by {
                assert(s.drop_last()[i] == s[i]);
            }
        }
        lemma_counts_partition(s.drop_last());
    }
}

/// Counts the cells of `cells` that hold `v`.
pub fn count_cells(cells: &[i8], v: i8) -> (n: usize)
    ensures
        n == count_value(cells@, v),
{
    let mut n: usize = 0;
    let mut i: usize = 0;
    while i < cells.len()
        invariant
            i <= cells@.len(),
            n == count_value(cells@.take(i as int), v),
        decreases cells@.len() - i,
    {
        proof {
            lemma_count_take_step(cells@, i as int, v);
            lemma_count_le_len(cells@.take(i as int + 1), v);
        }
        if cells[i] == v {
            n = n + 1;
        }
        i = i + 1;
    }
    assert(cells@.take(i as int) =~= cells@);
    n
}

} // verus!
