//! A compressed-sparse-row table: a "list of lists" stored as one contiguous
//! value array plus a row-start array.  Row `i` occupies the span from
//! `rows[i]` to `rows[i + 1]` (or to the end of the array for the last row).

use vstd::prelude::*;

verus! {

/// The total length of the first `k` inner vectors.
pub open spec fn sum_lens<T>(s: Seq<Vec<T>>, k: int) -> int
    decreases k,
{
    if k <= 0 {
        0
    } else {
        sum_lens(s, k - 1) + s[k - 1]@.len()
    }
}

/// Prefix sums of lengths grow with the prefix.
pub proof fn lemma_sum_lens_monotone<T>(s: Seq<Vec<T>>, k1: int, k2: int)
    requires
        0 <= k1 <= k2,
    ensures
        sum_lens(s, k1) <= sum_lens(s, k2),
    decreases k2 - k1,
{
    if k1 < k2 {
        lemma_sum_lens_monotone(s, k1, k2 - 1);
    }
}

/// Stores values of type `T` row by row; rows are addressed in constant time
/// through the row-start array, whose entries are 16-bit indices.
pub struct FlatTable<T> {
    pub table: Vec<T>,
    /// Points to the start of each subarray representing a row.
    pub rows: Vec<u16>,
}

impl<T> FlatTable<T> {
    /// Row starts fit the value array and do not go backwards.
    pub open spec fn wf(&self) -> bool {
        &&& self.table@.len() <= u16::MAX
        &&& forall|i: int| 0 <= i < self.rows@.len() ==> #[trigger] self.rows@[i] <= self.table@.len()
        &&& forall|i: int, j: int|
            0 <= i <= j < self.rows@.len() ==> #[trigger] self.rows@[i] <= #[trigger] self.rows@[j]
    }

    /// Where row `i` begins in the value array.
    pub open spec fn spec_row_start(&self, i: int) -> int {
        self.rows@[i] as int
    }

    /// Where row `i` ends in the value array.
    pub open spec fn spec_row_end(&self, i: int) -> int {
        if i + 1 < self.rows@.len() {
            self.rows@[i + 1] as int
        } else {
            self.table@.len() as int
        }
    }

    /// The values of row `i`.
    pub open spec fn spec_row(&self, i: int) -> Seq<T> {
        self.table@.subrange(self.spec_row_start(i), self.spec_row_end(i))
    }

    pub fn new(table: Vec<T>, rows: Vec<u16>) -> (r: Self)
        ensures
            r.table == table,
            r.rows == rows,
    {
        Self { table, rows }
    }

    /// Pack a list of rows into one contiguous table, recording where each
    /// row starts.
    pub fn from_vec_vec(table2d: Vec<Vec<T>>) -> (r: Self)
        requires
            sum_lens(table2d@, table2d@.len() as int) <= u16::MAX,
        ensures
            r.wf(),
            r.rows@.len() == table2d@.len(),
            forall|i: int| 0 <= i < table2d@.len() ==> r.spec_row(i) == table2d@[i]@,
            forall|i: int| 0 <= i < table2d@.len() ==> r.spec_row_start(i) == sum_lens(table2d@, i),
            r.table@.len() == sum_lens(table2d@, table2d@.len() as int),
    {
        let ghost orig = table2d@;
        let mut table2d = table2d;
        let mut table: Vec<T> = Vec::new();
        let mut rows: Vec<u16> = Vec::new();
        let mut k: usize = 0;
        let total: usize = table2d.len();
        while k < total
            invariant
                total == orig.len(),
                k <= total,
                table2d@ == orig.subrange(k as int, orig.len() as int),
                rows@.len() == k,
                table@.len() == sum_lens(orig, k as int),
                sum_lens(orig, orig.len() as int) <= u16::MAX,
                forall|i: int| 0 <= i < k ==> #[trigger] rows@[i] == sum_lens(orig, i),
                forall|i: int|
                    0 <= i < k ==> table@.subrange(
                        sum_lens(orig, i),
                        sum_lens(orig, i + 1),
                    ) == orig[i]@,
            decreases total - k,
        {
            proof {
                lemma_sum_lens_monotone(orig, k as int, orig.len() as int);
                lemma_sum_lens_monotone(orig, k as int + 1, orig.len() as int);
            }
            rows.push(table.len() as u16);
            let mut row: Vec<T> = table2d.remove(0);
            let ghost before = table@;
            table.append(&mut row);
            k = k + 1;
            proof {
                assert(table2d@ =~= orig.subrange(k as int, orig.len() as int));
                assert(table@.subrange(sum_lens(orig, k as int - 1), sum_lens(orig, k as int))
                    =~= orig[k as int - 1]@);
                assert forall|i: int| 0 <= i < k - 1 implies table@.subrange(
                    sum_lens(orig, i),
                    sum_lens(orig, i + 1),
                ) == orig[i]@ by {
                    lemma_sum_lens_monotone(orig, i + 1, k as int - 1);
                    lemma_sum_lens_monotone(orig, 0, i);
                    assert(table@.subrange(sum_lens(orig, i), sum_lens(orig, i + 1))
                        =~= before.subrange(sum_lens(orig, i), sum_lens(orig, i + 1)));
                }
            }
        }
        let r = Self { table, rows };
        proof {
            assert forall|i: int, j: int| 0 <= i <= j < r.rows@.len() implies #[trigger] r.rows@[i]
                <= #[trigger] r.rows@[j] by {
                lemma_sum_lens_monotone(orig, i, j);
            }
            assert forall|i: int| 0 <= i < r.rows@.len() implies #[trigger] r.rows@[i]
                <= r.table@.len() by {
                lemma_sum_lens_monotone(orig, i, orig.len() as int);
            }
            assert forall|i: int| 0 <= i < orig.len() implies r.spec_row(i) == orig[i]@ by {
                assert(r.spec_row_start(i) == sum_lens(orig, i));
                assert(r.spec_row_end(i) == sum_lens(orig, i + 1));
                assert(r.spec_row(i) == r.table@.subrange(sum_lens(orig, i), sum_lens(orig, i + 1)));
            }
        }
        r
    }

    /// The number of stored values.
    pub fn size(&self) -> (r: u16)
        requires
            self.table@.len() <= u16::MAX,
        ensures
            r == self.table@.len(),
    {
        self.table.len() as u16
    }

    /// The value at flat index `id`.
    pub fn get_by_id(&self, id: u16) -> (r: &T)
        requires
            id < self.table@.len(),
        ensures
            *r == self.table@[id as int],
    {
        &self.table[id as usize]
    }

    /// The values of row `i`.
    pub fn row(&self, i: usize) -> (r: &[T])
        requires
            self.wf(),
            i < self.rows@.len(),
        ensures
            r@ == self.spec_row(i as int),
    {
        let start: usize = self.rows[i] as usize;
        let end: usize = if i < self.rows.len() - 1 {
            self.rows[i + 1] as usize
        } else {
            self.table.len()
        };
        vstd::slice::slice_subrange(self.table.as_slice(), start, end)
    }
}

} // verus!
