//! Label utilities: one-hot encoding, the place of a column's largest entry,
//! and shuffling rows.

use crate::matrix::{lemma_cell_in_range, swapped, Grid, Matrix};
use crate::scalar::{at_most, eq, label_of, le, same_number, to_index, ONE, ZERO};
use rand::Rng;
use vstd::prelude::*;

verus! {

/// `rand::rngs::ThreadRng`: a handle to the random number generator of the
/// running thread. Nothing is known of what it holds.
#[verifier::external_type_specification]
#[verifier::external_body]
pub struct ExThreadRng(rand::rngs::ThreadRng);

/// `rand::thread_rng`: the random number generator of the running thread.
#[verifier::external_body]
fn thread_generator() -> rand::rngs::ThreadRng {
    rand::thread_rng()
}

/// `Rng::gen_range` on `0..bound`: some index below `bound`. Which one is
/// chance. `rand` panics on an empty range.
#[verifier::external_body]
fn random_below(rng: &mut rand::rngs::ThreadRng, bound: usize) -> (r: usize)
    requires
        bound > 0,
    ensures
        r < bound,
{
    rng.gen_range(0..bound)
}

/// The largest of a run of numbers, found from left to right: the number in
/// hand stays while it is at least the next one and gives way otherwise, so
/// that what is not a number never stays against a successor and always
/// replaces a predecessor. An empty run gives zero.
pub open spec fn largest(s: Seq<u32>) -> u32
    decreases s.len(),
{
    if s.len() == 0 {
        ZERO
    } else if s.len() == 1 {
        s[0]
    } else {
        let held: u32 = largest(s.drop_last());
        if at_most(s.last(), held) {
            held
        } else {
            s.last()
        }
    }
}

/// The first place in `s` that holds the number `v`, if there is one.
pub open spec fn first_equal(s: Seq<u32>, v: u32) -> Option<int>
    decreases s.len(),
{
    if s.len() == 0 {
        None
    } else {
        match first_equal(s.drop_last(), v) {
            Some(i) => Some(i),
            None => if same_number(s.last(), v) {
                Some(s.len() - 1)
            } else {
                None
            },
        }
    }
}

/// The first place that holds the largest number of `s`. There is none when
/// `s` is empty or its largest is not a number.
pub open spec fn arg_max(s: Seq<u32>) -> Option<int> {
    first_equal(s, largest(s))
}

/// `first_equal` names the least place that holds the number, and `None`
/// only if no place does.
pub proof fn lemma_first_equal(s: Seq<u32>, v: u32)
    ensures
        match first_equal(s, v) {
            Some(i) => 0 <= i < s.len() && same_number(s[i], v) && forall|k: int|
                0 <= k < i ==> !same_number(#[trigger] s[k], v),
            None => forall|k: int| 0 <= k < s.len() ==> !same_number(#[trigger] s[k], v),
        },
    decreases s.len(),
{
    if s.len() > 0 {
        lemma_first_equal(s.drop_last(), v);
        match first_equal(s.drop_last(), v) {
            Some(i) => {
                assert(s.drop_last()[i] == s[i]);
                assert forall|k: int| 0 <= k < i implies !same_number(#[trigger] s[k], v) by {
                    assert(s.drop_last()[k] == s[k]);
                }
            },
            None => {
                assert forall|k: int| 0 <= k < s.len() - 1 implies !same_number(
                    #[trigger] s[k],
                    v,
                ) by {
                    assert(s.drop_last()[k] == s[k]);
                }
            },
        }
    }
}

/// The class labels that a matrix holds: its entries if it is one column,
/// and its first row otherwise.
pub open spec fn labels(g: Grid) -> Seq<u32> {
    if g.cols == 1 {
        g.cells
    } else {
        g.row(0)
    }
}

/// The number of classes: one more than the label of the largest entry.
pub open spec fn classes(g: Grid) -> nat {
    label_of(largest(g.cells)) + 1
}

/// Whether the labels of a matrix can be encoded: the first row exists if
/// the labels are read from it, the classes can be counted and the cells of
/// the code too, and every label is one of the classes.
pub open spec fn encodable(g: Grid) -> bool {
    &&& g.cols != 1 && g.cols > 0 ==> g.rows > 0
    &&& classes(g) <= usize::MAX
    &&& classes(g) * labels(g).len() <= usize::MAX
    &&& forall|j: int| 0 <= j < labels(g).len() ==> label_of(#[trigger] labels(g)[j]) < classes(g)
}

/// The entry of a one-hot column in row `i`, for a sample of class `label`.
pub open spec fn hot(i: int, label: nat) -> u32 {
    if i == label {
        ONE
    } else {
        ZERO
    }
}

/// Whether `h` is the one-hot code of the labels in `g`: one row per class,
/// one column per sample, and in each column a one in the row of the
/// sample's class and zeros elsewhere.
pub open spec fn encodes(h: Grid, g: Grid) -> bool {
    &&& h.wf()
    &&& h.rows == classes(g)
    &&& h.cols == labels(g).len()
    &&& forall|i: int, j: int|
        0 <= i < h.rows && 0 <= j < h.cols ==> #[trigger] h.at(i, j) == hot(
            i,
            label_of(labels(g)[j]),
        )
}

/// Whether `p` lists the numbers below `n`, each once.
pub open spec fn is_permutation(p: Seq<int>, n: nat) -> bool {
    &&& p.len() == n
    &&& forall|i: int| 0 <= i < n ==> 0 <= #[trigger] p[i] < n
    &&& forall|i: int, j: int| 0 <= i < n && 0 <= j < n && i != j ==> p[i] != p[j]
}

/// Whether the rows of `after` are the rows of `before` in the order `p`.
pub open spec fn rows_moved(before: Grid, after: Grid, p: Seq<int>) -> bool {
    &&& after.shape() == before.shape()
    &&& is_permutation(p, before.rows)
    &&& forall|i: int, j: int|
        0 <= i < before.rows && 0 <= j < before.cols ==> #[trigger] after.at(i, j) == before.at(
            p[i],
            j,
        )
}

/// Finds the largest of `data[start..end]`.
pub fn largest_in(data: &[u32], start: usize, end: usize) -> (v: u32)
    requires
        start <= end <= data@.len(),
    ensures
        v == largest(data@.subrange(start as int, end as int)),
{
    if start == end {
        return ZERO;
    }
    let ghost all: Seq<u32> = data@.subrange(start as int, end as int);
    let mut held: u32 = data[start];
    let mut i: usize = start + 1;
    assert(all.take(1).len() == 1 && all.take(1)[0] == data[start as int]);
    while i < end
        invariant
            start < i <= end <= data@.len(),
            all == data@.subrange(start as int, end as int),
            held == largest(all.take(i - start)),
        decreases end - i,
    {
        let next: u32 = data[i];
        proof {
            let now: Seq<u32> = all.take(i - start + 1);
            assert(now.drop_last() =~= all.take(i - start));
            assert(now.last() == next);
        }
        if !le(next, held) {
            held = next;
        }
        i = i + 1;
    }
    assert(all.take(end - start) =~= all);
    held
}

/// Finds the first place in `data[start..end]` that holds the number `v`,
/// counted from `start`.
pub fn position_in(data: &[u32], start: usize, end: usize, v: u32) -> (r: Option<usize>)
    requires
        start <= end <= data@.len(),
    ensures
        match r {
            Some(i) => first_equal(data@.subrange(start as int, end as int), v) == Some(i as int),
            None => first_equal(data@.subrange(start as int, end as int), v) is None,
        },
{
    let ghost all: Seq<u32> = data@.subrange(start as int, end as int);
    let mut i: usize = start;
    assert(all.take(0) =~= Seq::<u32>::empty());
    while i < end
        invariant
            start <= i <= end <= data@.len(),
            all == data@.subrange(start as int, end as int),
            first_equal(all.take(i - start), v) is None,
        decreases end - i,
    {
        proof {
            let now: Seq<u32> = all.take(i - start + 1);
            assert(now.drop_last() =~= all.take(i - start));
            assert(now.last() == data[i as int]);
        }
        if eq(data[i], v) {
            proof {
                lemma_first_equal_extends(all, i - start + 1, v);
            }
            return Some(i - start);
        }
        i = i + 1;
    }
    assert(all.take(end - start) =~= all);
    None
}

/// Once a place is found in a prefix, it is the place in the whole.
proof fn lemma_first_equal_extends(s: Seq<u32>, k: int, v: u32)
    requires
        0 <= k <= s.len(),
        first_equal(s.take(k), v) is Some,
    ensures
        first_equal(s, v) == first_equal(s.take(k), v),
    decreases s.len() - k,
{
    if k < s.len() {
        assert(s.take(k + 1).drop_last() =~= s.take(k));
        lemma_first_equal_extends(s, k + 1, v);
    } else {
        assert(s.take(k) =~= s);
    }
}

/// Finds the place of the largest number in `data[start..end]`, counted from
/// `start`: the first place that holds it. There is none in an empty run, and
/// none where the largest is not a number.
pub fn arg_max_in(data: &[u32], start: usize, end: usize) -> (r: Option<usize>)
    requires
        start <= end <= data@.len(),
    ensures
        match r {
            Some(i) => arg_max(data@.subrange(start as int, end as int)) == Some(i as int),
            None => arg_max(data@.subrange(start as int, end as int)) is None,
        },
{
    let top: u32 = largest_in(data, start, end);
    position_in(data, start, end, top)
}

/// Encodes class labels one-hot: one row per class, one column per sample,
/// and in each column the number one in the row of the sample's class and
/// zeros elsewhere. The labels are the entries of `m` if it is one column and
/// its first row otherwise; a label is the whole part of its number. `None`
/// comes back exactly when the labels cannot be encoded (see `encodable`).
pub fn one_hot(m: &Matrix) -> (r: Option<Matrix>)
    ensures
        r is Some <==> encodable(m@),
        r matches Some(h) ==> encodes(h@, m@),
{
    let (rows, cols) = m.shape();
    let data: Vec<u32> = m.to_vec();
    let top: usize = to_index(largest_in(data.as_slice(), 0, data.len()));
    assert(data@.subrange(0, data@.len() as int) =~= m@.cells);
    if top == usize::MAX {
        return None;
    }
    let count: usize = top + 1;
    if cols != 1 && cols > 0 && rows == 0 {
        return None;
    }
    let n: usize = if cols == 1 {
        rows
    } else {
        cols
    };
    proof {
        if cols == 1 {
            assert(rows * 1 == rows) by (nonlinear_arith);
        }
    }
    assert(labels(m@).len() == n);
    match count.checked_mul(n) {
        Some(_) => {},
        None => {
            return None;
        },
    }
    let mut out: Vec<u32> = Vec::new();
    let mut j: usize = 0;
    while j < n
        invariant
            j <= n,
            count == classes(m@),
            count * n <= usize::MAX,
            n == labels(m@).len(),
            data@ == m@.cells,
            m@.wf(),
            rows == m@.rows,
            cols == m@.cols,
            rows * cols <= usize::MAX,
            cols != 1 && cols > 0 ==> rows > 0,
            n == if cols == 1 {
                rows
            } else {
                cols
            },
            out@.len() == j * count,
            forall|c: int| 0 <= c < j ==> label_of(#[trigger] labels(m@)[c]) < count,
            forall|i: int, c: int|
                0 <= i < count && 0 <= c < j ==> #[trigger] (Grid {
                    rows: count as nat,
                    cols: n as nat,
                    cells: out@,
                }).at(i, c) == hot(i, label_of(labels(m@)[c])),
        decreases n - j,
    {
        let cell: u32 = if cols == 1 {
            proof {
                assert(rows * 1 == rows) by (nonlinear_arith);
            }
            data[j]
        } else {
            proof {
                lemma_cell_in_range(rows as int, cols as int, 0, j as int);
            }
            data[j * rows]
        };
        assert(cell == labels(m@)[j as int]);
        let label: usize = to_index(cell);
        if label >= count {
            return None;
        }
        let ghost before: Seq<u32> = out@;
        let mut i: usize = 0;
        while i < count
            invariant
                i <= count,
                j < n,
                label < count,
                count * n <= usize::MAX,
                before.len() == j * count,
                out@.len() == j * count + i,
                forall|k: int| 0 <= k < before.len() ==> out@[k] == before[k],
                forall|r: int| 0 <= r < i ==> out@[j * count + r] == hot(r, label as nat),
            decreases count - i,
        {
            out.push(
                if i == label {
                    ONE
                } else {
                    ZERO
                },
            );
            i = i + 1;
        }
        proof {
            assert((j + 1) * count == j * count + count) by (nonlinear_arith);
            assert forall|r: int, c: int| 0 <= r < count && 0 <= c < j + 1 implies #[trigger] (Grid {
                rows: count as nat,
                cols: n as nat,
                cells: out@,
            }).at(r, c) == hot(r, label_of(labels(m@)[c])) by {
                if c < j {
                    lemma_cell_in_range(count as int, j as int, r, c);
                    assert(c * count + r < before.len()) by (nonlinear_arith)
                        requires
                            c * count + r < count * j,
                            before.len() == j * count,
                    ;
                    assert((Grid { rows: count as nat, cols: n as nat, cells: before }).at(r, c)
                        == hot(r, label_of(labels(m@)[c])));
                }
            }
        }
        j = j + 1;
    }
    proof {
        assert(n * count == count * n) by (nonlinear_arith);
    }
    let h: Option<Matrix> = Matrix::from_column_slice(count, n, out.as_slice());
    proof {
        let g: Grid = h->0@;
        assert forall|i: int, c: int| 0 <= i < g.rows && 0 <= c < g.cols implies #[trigger] g.at(
            i,
            c,
        ) == hot(i, label_of(labels(m@)[c])) by {
            assert(g == (Grid { rows: count as nat, cols: n as nat, cells: out@ }));
        }
    }
    h
}

/// Puts the rows of `m` in a random order, by exchanging each row, from the
/// last one up, with a row drawn from those not below it. Whatever is drawn,
/// the rows afterwards are the rows before in some order, each once.
pub fn shuffle_rows(m: &mut Matrix)
    ensures
        exists|p: Seq<int>| rows_moved(old(m)@, final(m)@, p),
        final(m)@.wf(),
{
    let (rows, cols) = m.shape();
    let mut rng: rand::rngs::ThreadRng = thread_generator();
    let ghost mut p: Seq<int> = Seq::new(rows as nat, |i: int| i);
    if rows < 2 {
        assert(rows_moved(old(m)@, m@, p));
        return ;
    }
    let mut i: usize = rows - 1;
    while i >= 1
        invariant
            i < rows,
            rows == old(m)@.rows,
            m@.wf(),
            rows_moved(old(m)@, m@, p),
        decreases i,
    {
        let r: usize = random_below(&mut rng, i + 1);
        let ghost before: Grid = m@;
        let ghost q: Seq<int> = p;
        let done: bool = m.swap_rows(i, r);
        assert(done);
        proof {
            p = Seq::new(rows as nat, |x: int| q[swapped(x, i as int, r as int)]);
            assert forall|x: int, j: int|
                0 <= x < rows && 0 <= j < old(m)@.cols implies #[trigger] m@.at(x, j) == old(
                m,
            )@.at(p[x], j) by {
                assert(m@.at(x, j) == before.at(swapped(x, i as int, r as int), j));
            }
        }
        i = i - 1;
    }
    assert(rows_moved(old(m)@, m@, p));
}

/// A column that holds a one in row `label` and zeros elsewhere has its
/// largest entry at `label`.
proof fn lemma_hot_column(s: Seq<u32>, label: int, k: int)
    requires
        0 <= label < s.len(),
        1 <= k <= s.len(),
        forall|i: int| 0 <= i < s.len() ==> s[i] == hot(i, label as nat),
    ensures
        largest(s.take(k)) == (if label < k {
            ONE
        } else {
            ZERO
        }),
        first_equal(s.take(k), ONE) == (if label < k {
            Some(label)
        } else {
            None
        }),
    decreases k,
{
    let now: Seq<u32> = s.take(k);
    if k == 1 {
        assert(now.drop_last() =~= Seq::<u32>::empty());
        assert(first_equal(Seq::<u32>::empty(), ONE) is None);
        assert(now[0] == s[0]);
        assert(now.last() == s[0]);
    } else {
        lemma_hot_column(s, label, k - 1);
        assert(now.drop_last() =~= s.take(k - 1));
        assert(now.last() == s[k - 1]);
    }
}

/// Encoding labels one-hot and then taking the place of the largest entry of
/// each column gives the labels back: in the code of an encodable matrix,
/// the largest entry of column `j` stands in the row of the `j`-th label.
pub proof fn lemma_one_hot_round_trip(h: Grid, g: Grid, j: int)
    requires
        encodable(g),
        encodes(h, g),
        0 <= j < labels(g).len(),
    ensures
        arg_max(h.column(j)) == Some(label_of(labels(g)[j]) as int),
{
    let column: Seq<u32> = h.column(j);
    let label: int = label_of(labels(g)[j]) as int;
    lemma_cell_in_range(h.rows as int, h.cols as int, 0, j);
    assert(column.len() == h.rows) by {
        assert((j + 1) * h.rows - j * h.rows == h.rows) by (nonlinear_arith);
    }
    assert forall|i: int| 0 <= i < column.len() implies column[i] == hot(i, label as nat) by {
        lemma_cell_in_range(h.rows as int, h.cols as int, i, j);
        assert(column[i] == h.at(i, j));
    }
    lemma_hot_column(column, label, column.len() as int);
    assert(column.take(column.len() as int) =~= column);
}

} // verus!
