//! The snake: a chain of steps folded into rows, every other row from right to
//! left, so that a step stands next to the one before it. Sizes and pixels are
//! the caller's.

use vstd::prelude::*;

verus! {

/// A list of positions that is in order by their keys; of two equal keys the
/// earlier position comes first.
pub open spec fn in_order(keys: Seq<usize>, list: Seq<usize>) -> bool {
    forall|i: int, j: int|
        0 <= i < j < list.len() ==> before(keys, #[trigger] list[i], #[trigger] list[j])
}

/// Position `a` comes before position `b`.
pub open spec fn before(keys: Seq<usize>, a: usize, b: usize) -> bool {
    keys[a as int] < keys[b as int] || (keys[a as int] == keys[b as int] && a < b)
}

/// Each of the first `n` positions is in a list, once.
pub open spec fn lists_all(list: Seq<usize>, n: int) -> bool {
    &&& list.len() == n
    &&& list.no_duplicates()
    &&& forall|i: int| 0 <= i < list.len() ==> (#[trigger] list[i]) < n
}

/// The positions of the keys, in the order of the keys.
pub fn order_by_key(keys: &Vec<usize>) -> (r: Vec<usize>)
    ensures
        lists_all(r@, keys@.len() as int),
        in_order(keys@, r@),
{
    let mut r: Vec<usize> = Vec::new();
    let mut n: usize = 0;
    while n < keys.len()
        invariant
            n <= keys.len(),
            lists_all(r@, n as int),
            in_order(keys@, r@),
        decreases keys.len() - n,
    {
        let mut at: usize = r.len();
        while at > 0 && keys[r[at - 1]] > keys[n]
            invariant
                n < keys.len(),
                lists_all(r@, n as int),
                at <= r.len(),
                forall|i: int| at <= i < r.len() ==> keys@[(#[trigger] r@[i]) as int] > keys@[n as int],
            decreases at,
        {
            at -= 1;
        }
        let ghost old_list = r@;
        r.insert(at, n);
        proof {
            lemma_inserted(keys@, old_list, at as int, n);
        }
        n += 1;
    }
    r
}

proof fn lemma_inserted(keys: Seq<usize>, list: Seq<usize>, at: int, n: usize)
    requires
        n < keys.len(),
        lists_all(list, n as int),
        in_order(keys, list),
        0 <= at <= list.len(),
        forall|i: int| at <= i < list.len() ==> keys[(#[trigger] list[i]) as int] > keys[n as int],
        at > 0 ==> keys[list[at - 1] as int] <= keys[n as int],
    ensures
        lists_all(list.insert(at, n), n + 1),
        in_order(keys, list.insert(at, n)),
{
    let l = list.insert(at, n);
    assert forall|i: int| 0 <= i < l.len() implies (#[trigger] l[i]) < n + 1 by {
        if i < at {
            assert(l[i] == list[i]);
        } else if i > at {
            assert(l[i] == list[i - 1]);
        }
    }
    assert forall|i: int, j: int| 0 <= i < j < l.len() implies before(
        keys,
        #[trigger] l[i],
        #[trigger] l[j],
    ) by {
        if j < at {
            assert(before(keys, list[i], list[j]));
        } else if j == at {
            if i < at - 1 {
                assert(before(keys, list[i], list[at - 1]));
            }
            assert(list[i] < n);
        } else if i < at {
            assert(before(keys, list[i], list[j - 1]));
        } else if i == at {
            assert(keys[list[j - 1] as int] > keys[n as int]);
        } else {
            assert(before(keys, list[i - 1], list[j - 1]));
        }
    }
    assert forall|i: int, j: int| 0 <= i < l.len() && 0 <= j < l.len() && i != j implies l[i]
        != l[j] by {
        if i < j {
            assert(before(keys, l[i], l[j]));
        } else {
            assert(before(keys, l[j], l[i]));
        }
    }
}

/// The row and the column of a step in a snake.
pub open spec fn cell_of(k: int, cols: int) -> (int, int) {
    (
        k / cols,
        if (k / cols) % 2 == 0 {
            k % cols
        } else {
            cols - 1 - k % cols
        },
    )
}

/// The row and the column of a step in a snake.
pub fn snake_cell(k: usize, cols: usize) -> (r: (usize, usize))
    requires
        cols > 0,
    ensures
        (r.0 as int, r.1 as int) == cell_of(k as int, cols as int),
        r.1 < cols,
{
    let row: usize = k / cols;
    let within: usize = k % cols;
    if row % 2 == 0 {
        (row, within)
    } else {
        (row, cols - 1 - within)
    }
}

/// How many rows a snake takes.
pub fn snake_rows(n: usize, cols: usize) -> (r: usize)
    requires
        cols > 0,
    ensures
        n == 0 ==> r == 0,
        n > 0 ==> r == cell_of(n - 1, cols as int).0 + 1,
{
    if n == 0 {
        0
    } else {
        let last: usize = (n - 1) / cols;
        assert(last <= n - 1) by (nonlinear_arith)
            requires
                last == (n - 1) / cols as int,
                cols > 0,
                n > 0,
        ;
        last + 1
    }
}

/// Where the next step of a snake stands.
#[derive(Debug, Clone, Copy, PartialEq, Eq, Structural)]
pub enum Link {
    Right,
    Left,
    Down,
}

/// Where the step after `k` stands.
pub fn snake_link(k: usize, cols: usize) -> (r: Link)
    requires
        cols > 0,
        k < usize::MAX,
    ensures
        ({
            let a = cell_of(k as int, cols as int);
            let b = cell_of(k + 1, cols as int);
            match r {
                Link::Right => b == (a.0, a.1 + 1),
                Link::Left => b == (a.0, a.1 - 1),
                Link::Down => b == (a.0 + 1, a.1),
            }
        }),
{
    proof {
        lemma_next_position(k as int, cols as int);
    }
    if k % cols == cols - 1 {
        Link::Down
    } else if (k / cols) % 2 == 0 {
        Link::Right
    } else {
        Link::Left
    }
}

proof fn lemma_next_position(k: int, cols: int)
    requires
        0 <= k,
        0 < cols,
    ensures
        k % cols == cols - 1 ==> (k + 1) / cols == k / cols + 1 && (k + 1) % cols == 0,
        k % cols != cols - 1 ==> (k + 1) / cols == k / cols && (k + 1) % cols == k % cols + 1,
        0 <= k % cols < cols,
        0 <= k / cols,
{
    let q = k / cols;
    let r = k % cols;
    assert(k == cols * q + r && 0 <= r < cols && 0 <= q) by (nonlinear_arith)
        requires
            q == k / cols,
            r == k % cols,
            0 <= k,
            0 < cols,
    ;
    if r == cols - 1 {
        assert((k + 1) / cols == q + 1 && (k + 1) % cols == 0) by (nonlinear_arith)
            requires
                k == cols * q + (cols - 1),
                0 < cols,
        ;
    } else {
        assert((k + 1) / cols == q && (k + 1) % cols == r + 1) by (nonlinear_arith)
            requires
                k + 1 == cols * q + (r + 1),
                0 <= r + 1 < cols,
                0 < cols,
        ;
    }
}

/// A step stands next to the one before it: in the next column of the same row,
/// or in the same column of the next row.
pub proof fn law_neighbours_stay_neighbours(k: int, cols: int)
    requires
        0 <= k,
        0 < cols,
    ensures
        ({
            let a = cell_of(k, cols);
            let b = cell_of(k + 1, cols);
            (a.0 == b.0 && (a.1 + 1 == b.1 || b.1 + 1 == a.1)) || (a.0 + 1 == b.0 && a.1 == b.1)
        }),
{
    lemma_next_position(k, cols);
}

/// No two steps stand in one cell, and every cell is within the columns.
pub proof fn law_cells_are_distinct(k: int, j: int, cols: int)
    requires
        0 <= k,
        0 <= j,
        0 < cols,
    ensures
        cell_of(k, cols) == cell_of(j, cols) ==> k == j,
        0 <= cell_of(k, cols).1 < cols,
{
    lemma_next_position(k, cols);
    lemma_next_position(j, cols);
    if cell_of(k, cols) == cell_of(j, cols) {
        assert(k == j) by (nonlinear_arith)
            requires
                k / cols == j / cols,
                k % cols == j % cols,
                0 < cols,
        ;
    }
}

/// A snake begins at the top left and fills one row after the other with as many
/// steps as there are columns: the first row, and every other one after it, from the
/// left, and the rows between from the right.
pub proof fn law_rows_are_filled_in_turn(row: int, i: int, cols: int)
    requires
        0 <= row,
        0 <= i < cols,
    ensures
        cell_of(cols * row + i, cols) == (
            row,
            if row % 2 == 0 {
                i
            } else {
                cols - 1 - i
            },
        ),
{
    let k = cols * row + i;
    assert(k / cols == row && k % cols == i) by (nonlinear_arith)
        requires
            k == cols * row + i,
            0 <= i < cols,
            0 <= row,
    ;
}

} // verus!
