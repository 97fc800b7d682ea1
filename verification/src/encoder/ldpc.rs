use vstd::prelude::*;
use crate::bits::{u8_bit, bit_at, unpack_bytes, pack_bits, bits_value, lemma_u8_value, lemma_u8_bits_eq, lemma_zero_shifts, lemma_u8_set_bit, lemma_bits_value_byte};
use crate::config::EccLevel;
use vstd::set_lib::lemma_len_subset;

verus! {

// ---------------------------------------------------------------------------
// The sparse part A of the parity check matrix
// ---------------------------------------------------------------------------

/// Number of rows each column of A is placed in: `ceil(max(rw·m, 1) / k)`,
/// kept within 1..=m.
pub open spec fn col_weight_spec(m: int, k: int, rw: int) -> int {
    let a = if rw * m >= 1 { rw * m } else { 1 };
    let cw = (a + k - 1) / k;
    let cw1 = if cw >= 1 { cw } else { 1 };
    if cw1 <= m { cw1 } else { m }
}

/// First row visited by column `c`.
pub open spec fn start_row(m: int, c: int) -> int {
    (c * 7 + 3) % m
}

/// Stride between the rows visited by column `c`.
pub open spec fn row_step(m: int, c: int) -> int {
    if m > 1 { (c * 11 + 5) % (m - 1) + 1 } else { 1 }
}

/// Row visited by column `c` at step `t`: the rows are walked cyclically
/// from the start row by the column's stride.
pub open spec fn visit(m: int, c: int, t: nat) -> int
    decreases t,
{
    if t == 0 {
        start_row(m, c)
    } else {
        (visit(m, c, (t - 1) as nat) + row_step(m, c)) % m
    }
}

/// Rows visited by column `c` in its first `t` steps.
pub open spec fn hits(m: int, c: int, t: nat) -> Set<int>
    decreases t,
{
    if t == 0 {
        Set::empty()
    } else {
        hits(m, c, (t - 1) as nat).insert(visit(m, c, (t - 1) as nat))
    }
}

/// The step at which column `c` stops walking: once it has `cw` distinct
/// rows, or after `2m` steps.
pub open spec fn stop_from(m: int, cw: int, c: int, t: nat) -> nat
    decreases 2 * m - t,
{
    if t >= 2 * m || hits(m, c, t).len() >= cw {
        t
    } else {
        stop_from(m, cw, c, t + 1)
    }
}

/// Entry (r, c) of A (m rows, k columns, target row weight rw) is set: row
/// `r` is among the rows column `c` visits before it stops.
pub open spec fn a_entry(m: int, k: int, rw: int, r: int, c: int) -> bool {
    hits(m, c, stop_from(m, col_weight_spec(m, k, rw), c, 0)).contains(r)
}

/// The set columns of row `r` of A among columns 0..n, ascending.
pub open spec fn a_row_prefix(m: int, k: int, rw: int, r: int, n: int) -> Seq<u32>
    decreases n,
{
    if n <= 0 {
        Seq::empty()
    } else {
        a_row_prefix(m, k, rw, r, n - 1) + if a_entry(m, k, rw, r, n - 1) { seq![(n - 1) as u32] } else { Seq::empty() }
    }
}

/// The set columns of row `r` of A, ascending.
pub open spec fn a_row(m: int, k: int, rw: int, r: int) -> Seq<u32> {
    a_row_prefix(m, k, rw, r, k)
}

proof fn lemma_hits_finite(m: int, c: int, t: nat)
    ensures
        hits(m, c, t).finite(),
        hits(m, c, t).len() <= t,
    decreases t,
{
    if t > 0 {
        lemma_hits_finite(m, c, (t - 1) as nat);
    }
}

proof fn lemma_a_row_prefix_below(m: int, k: int, rw: int, r: int, n: int)
    requires
        0 <= n <= u32::MAX + 1,
    ensures
        forall|i: int| 0 <= i < a_row_prefix(m, k, rw, r, n).len() ==> a_row_prefix(m, k, rw, r, n)[i] < n,
        a_row_prefix(m, k, rw, r, n).len() <= n,
    decreases n,
{
    if n > 0 {
        lemma_a_row_prefix_below(m, k, rw, r, n - 1);
    }
}

proof fn lemma_stop_from_step(m: int, cw: int, c: int, t: nat)
    requires
        t < 2 * m,
        hits(m, c, t).len() < cw,
    ensures
        stop_from(m, cw, c, t) == stop_from(m, cw, c, t + 1),
{
}

/// Whether `row` holds `col`.
fn row_has(row: &Vec<u32>, col: u32) -> (r: bool)
    ensures
        r == row@.contains(col),
{
    let mut i: usize = 0;
    while i < row.len()
        invariant
            i <= row@.len(),
            forall|j: int| 0 <= j < i ==> row@[j] != col,
        decreases row.len() - i,
    {
        if row[i] == col {
            return true;
        }
        i += 1;
    }
    false
}

/// Generate the rows of the A sub-matrix (m × k) deterministically from (m, k, row weight).
fn generate_a(m: usize, k: usize, row_weight: usize) -> (rows: Vec<Vec<u32>>)
    requires
        k <= u32::MAX,
        2 * m <= u32::MAX,
        row_weight * m + k <= usize::MAX,
        k * 11 + 5 <= usize::MAX,
    ensures
        rows.len() == m,
        forall|r: int| #![trigger rows@[r]] 0 <= r < m ==> rows@[r]@ == a_row(m as int, k as int, row_weight as int, r),
{
    let mut rows: Vec<Vec<u32>> = Vec::new();
    let mut i: usize = 0;
    while i < m
        invariant
            i <= m,
            rows.len() == i,
            forall|r: int| #![trigger rows@[r]] 0 <= r < i ==> rows@[r]@ == Seq::<u32>::empty(),
        decreases m - i,
    {
        rows.push(Vec::new());
        i += 1;
    }
    if m == 0 || k == 0 {
        proof {
            assert forall|r: int| #![trigger rows@[r]] 0 <= r < m implies rows@[r]@ == a_row(m as int, k as int, row_weight as int, r) by {
                assert(a_row(m as int, k as int, row_weight as int, r) =~= Seq::<u32>::empty());
            }
        }
        return rows;
    }
    let a = if row_weight * m >= 1 { row_weight * m } else { 1 };
    let cw0 = (a + k - 1) / k;
    let cw1 = if cw0 >= 1 { cw0 } else { 1 };
    let col_weight = if cw1 <= m { cw1 } else { m };
    let ghost cw = col_weight_spec(m as int, k as int, row_weight as int);
    assert(col_weight == cw);
    let mut col: u32 = 0;
    while (col as usize) < k
        invariant
            0 < m,
            0 < k <= u32::MAX,
            2 * m <= u32::MAX,
            k * 11 + 5 <= usize::MAX,
            col as int <= k,
            col_weight == cw,
            cw == col_weight_spec(m as int, k as int, row_weight as int),
            rows.len() == m,
            forall|r: int| #![trigger rows@[r]] 0 <= r < m ==>
                rows@[r]@ == a_row_prefix(m as int, k as int, row_weight as int, r, col as int),
        decreases k - col,
    {
        let ghost c = col as int;
        let mut hits_n: usize = 0;
        let mut row: u32 = ((col as usize * 7 + 3) % m) as u32;
        let step: u32 = if m > 1 { ((col as usize * 11 + 5) % (m - 1) + 1) as u32 } else { 1 };
        let mut guard: usize = 0;
        proof {
            lemma_hits_finite(m as int, c, 0);
            assert forall|r: int| #![trigger rows@[r]] 0 <= r < m implies rows@[r]@ == a_row_prefix(m as int, k as int, row_weight as int, r, c)
                + if hits(m as int, c, 0).contains(r) { seq![col] } else { Seq::<u32>::empty() } by {
                assert(rows@[r]@ =~= rows@[r]@ + Seq::<u32>::empty());
            }
        }
        while hits_n < col_weight && guard < m * 2
            invariant
                0 < m,
                2 * m <= u32::MAX,
                col as int == c,
                0 <= c < k,
                col_weight == cw,
                cw == col_weight_spec(m as int, k as int, row_weight as int),
                guard <= 2 * m,
                hits(m as int, c, guard as nat).finite(),
                hits_n == hits(m as int, c, guard as nat).len(),
                row == visit(m as int, c, guard as nat),
                step == row_step(m as int, c),
                stop_from(m as int, cw, c, 0) == stop_from(m as int, cw, c, guard as nat),
                rows.len() == m,
                forall|r: int| #![trigger rows@[r]] 0 <= r < m ==>
                    rows@[r]@ == a_row_prefix(m as int, k as int, row_weight as int, r, c)
                        + if hits(m as int, c, guard as nat).contains(r) { seq![col] } else { Seq::<u32>::empty() },
            decreases 2 * m - guard,
        {
            let ghost h = hits(m as int, c, guard as nat);
            proof {
                lemma_stop_from_step(m as int, cw, c, guard as nat);
                lemma_a_row_prefix_below(m as int, k as int, row_weight as int, row as int, c);
                let p = a_row_prefix(m as int, k as int, row_weight as int, row as int, c);
                if h.contains(row as int) {
                    assert((p + seq![col])[p.len() as int] == col);
                } else {
                    assert(!(p + Seq::<u32>::empty()).contains(col)) by {
                        assert(p + Seq::<u32>::empty() =~= p);
                    }
                }
            }
            let present = row_has(&rows[row as usize], col);
            if !present {
                rows[row as usize].push(col);
                hits_n += 1;
            }
            proof {
                let h2 = hits(m as int, c, (guard + 1) as nat);
                assert(h2 == h.insert(row as int));
                assert forall|r: int| #![trigger rows@[r]] 0 <= r < m implies rows@[r]@ == a_row_prefix(m as int, k as int, row_weight as int, r, c)
                    + if h2.contains(r) { seq![col] } else { Seq::<u32>::empty() } by {
                    if r == row as int && !present {
                        assert(a_row_prefix(m as int, k as int, row_weight as int, r, c) + Seq::<u32>::empty()
                            =~= a_row_prefix(m as int, k as int, row_weight as int, r, c));
                    }
                }
            }
            row = (row + step) % (m as u32);
            guard += 1;
        }
        proof {
            let t = guard as nat;
            assert(stop_from(m as int, cw, c, t) == t);
            assert forall|r: int| #![trigger rows@[r]] 0 <= r < m implies rows@[r]@ == a_row_prefix(m as int, k as int, row_weight as int, r, c + 1) by {
                assert(a_entry(m as int, k as int, row_weight as int, r, c) == hits(m as int, c, t).contains(r));
            }
        }
        col += 1;
    }
    rows
}


proof fn lemma_a_row_prefix_increasing(m: int, k: int, rw: int, r: int, n: int)
    requires
        0 <= n <= u32::MAX + 1,
    ensures
        forall|i: int, j: int| 0 <= i < j < a_row_prefix(m, k, rw, r, n).len() ==>
            a_row_prefix(m, k, rw, r, n)[i] < a_row_prefix(m, k, rw, r, n)[j],
    decreases n,
{
    if n > 0 {
        lemma_a_row_prefix_increasing(m, k, rw, r, n - 1);
        lemma_a_row_prefix_below(m, k, rw, r, n - 1);
    }
}

// ---------------------------------------------------------------------------
// Concatenated lists
// ---------------------------------------------------------------------------

/// The lists `f(0)`, ..., `f(j - 1)` concatenated.
pub open spec fn flat(f: spec_fn(int) -> Seq<u32>, j: int) -> Seq<u32>
    decreases j,
{
    if j <= 0 {
        Seq::empty()
    } else {
        flat(f, j - 1) + f(j - 1)
    }
}

proof fn lemma_flat_mono(f: spec_fn(int) -> Seq<u32>, i: int, j: int)
    requires
        0 <= i <= j,
    ensures
        flat(f, i).len() <= flat(f, j).len(),
        flat(f, j).subrange(0, flat(f, i).len() as int) == flat(f, i),
    decreases j - i,
{
    if i < j {
        lemma_flat_mono(f, i, j - 1);
        assert(flat(f, j).subrange(0, flat(f, i).len() as int) =~= flat(f, j - 1).subrange(0, flat(f, i).len() as int));
    }
}

/// List `i` is the stretch of the concatenation between the lengths of the
/// first `i` and the first `i + 1` lists.
proof fn lemma_flat_slice(f: spec_fn(int) -> Seq<u32>, i: int, j: int)
    requires
        0 <= i < j,
    ensures
        flat(f, i + 1).len() <= flat(f, j).len(),
        flat(f, j).subrange(flat(f, i).len() as int, flat(f, i + 1).len() as int) == f(i),
{
    lemma_flat_mono(f, i + 1, j);
    let a = flat(f, j);
    let b = flat(f, i + 1);
    assert(a.subrange(flat(f, i).len() as int, b.len() as int) =~= b.subrange(flat(f, i).len() as int, b.len() as int));
    assert(b.subrange(flat(f, i).len() as int, b.len() as int) =~= f(i));
}

// ---------------------------------------------------------------------------
// Sparse binary matrix (compressed rows and columns)
// ---------------------------------------------------------------------------

/// Row `r` of the parity check matrix H = [A | I_m]: the set columns of A,
/// then column `k + r` of the identity.
pub open spec fn h_row(m: int, k: int, rw: int, r: int) -> Seq<u32> {
    a_row(m, k, rw, r).push((k + r) as u32)
}

/// The rows `r' < j` of H whose row list holds column `c`, ascending.
pub open spec fn h_col_prefix(m: int, k: int, rw: int, c: int, j: int) -> Seq<u32>
    decreases j,
{
    if j <= 0 {
        Seq::empty()
    } else {
        h_col_prefix(m, k, rw, c, j - 1) + if h_row(m, k, rw, j - 1).contains(c as u32) { seq![(j - 1) as u32] } else { Seq::empty() }
    }
}

/// Column `c` of H: the rows holding it, ascending.
pub open spec fn h_col(m: int, k: int, rw: int, c: int) -> Seq<u32> {
    h_col_prefix(m, k, rw, c, m)
}

/// Number of set entries of H.
pub open spec fn h_nnz(m: int, k: int, rw: int) -> nat {
    flat(|r: int| h_row(m, k, rw, r), m).len()
}

/// The offsets `ptr` delimit `n` consecutive lists in `idx`.
pub open spec fn csr_wf(ptr: Seq<u32>, idx: Seq<u32>, n: int) -> bool {
    &&& ptr.len() == n + 1
    &&& ptr[0] == 0
    &&& ptr[n] == idx.len()
    &&& forall|i: int, j: int| 0 <= i <= j <= n ==> ptr[i] <= ptr[j]
}

/// Sparse binary matrix, stored both by rows and by columns.
pub struct SparseMat {
    /// Number of rows (check nodes).
    pub rows: usize,
    /// Number of columns (variable nodes).
    pub cols: usize,
    row_ptr: Vec<u32>,
    col_idx: Vec<u32>,
    col_ptr: Vec<u32>,
    row_idx: Vec<u32>,
}

impl SparseMat {
    /// Number of rows.
    pub closed spec fn spec_rows(self) -> nat {
        self.rows as nat
    }

    /// Number of columns.
    pub closed spec fn spec_cols(self) -> nat {
        self.cols as nat
    }

    /// Number of rows (check nodes).
    pub fn num_rows(&self) -> (r: usize)
        ensures
            r == self.spec_rows(),
    {
        self.rows
    }

    /// Number of columns (variable nodes).
    pub fn num_cols(&self) -> (c: usize)
        ensures
            c == self.spec_cols(),
    {
        self.cols
    }

    /// Both the row and the column index are well formed.
    pub closed spec fn wf(self) -> bool {
        csr_wf(self.row_ptr@, self.col_idx@, self.rows as int) && csr_wf(self.col_ptr@, self.row_idx@, self.cols as int)
    }

    /// Column indices of the set entries of row `r`.
    pub closed spec fn row_seq(self, r: int) -> Seq<u32> {
        self.col_idx@.subrange(self.row_ptr@[r] as int, self.row_ptr@[r + 1] as int)
    }

    /// Row indices of the set entries of column `c`.
    pub closed spec fn col_seq(self, c: int) -> Seq<u32> {
        self.row_idx@.subrange(self.col_ptr@[c] as int, self.col_ptr@[c + 1] as int)
    }

    /// Build the full parity check matrix H = [A | I_m] for `k` data bits
    /// and `m` parity bits.
    pub fn build(k: usize, m: usize, row_weight: usize) -> (h: Self)
        requires
            k + m <= u32::MAX,
            2 * m <= u32::MAX,
            row_weight * m + k <= usize::MAX,
            k * 11 + 5 <= usize::MAX,
            h_nnz(m as int, k as int, row_weight as int) <= u32::MAX,
        ensures
            h.wf(),
            h.spec_rows() == m,
            h.spec_cols() == k + m,
            forall|r: int| #![trigger h.row_seq(r)] 0 <= r < m ==> h.row_seq(r) == h_row(m as int, k as int, row_weight as int, r),
            forall|c: int| #![trigger h.col_seq(c)] 0 <= c < k + m ==> h.col_seq(c) == h_col(m as int, k as int, row_weight as int, c),
    {
        let n = k + m;
        let a_rows = generate_a(m, k, row_weight);
        let ghost rw = row_weight as int;
        let ghost rowf = |r: int| h_row(m as int, k as int, rw, r);
        proof {
            lemma_flat_congruent(rowf, |r: int| h_row(m as int, k as int, rw, r), m as int);
        }

        // Row-major index of H.
        let mut row_ptr: Vec<u32> = Vec::new();
        let mut col_idx_vec: Vec<u32> = Vec::new();
        row_ptr.push(0u32);
        let mut i: usize = 0;
        while i < m
            invariant
                i <= m,
                k + m <= u32::MAX,
                a_rows.len() == m,
                forall|r: int| #![trigger a_rows@[r]] 0 <= r < m ==> a_rows@[r]@ == a_row(m as int, k as int, rw, r),
                flat(rowf, m as int).len() <= u32::MAX,
                forall|q: int| #![trigger rowf(q)] rowf(q) == h_row(m as int, k as int, rw, q),
                col_idx_vec@ == flat(rowf, i as int),
                row_ptr.len() == i + 1,
                forall|j: int| #![trigger row_ptr@[j]] 0 <= j <= i ==> row_ptr@[j] == flat(rowf, j).len(),
            decreases m - i,
        {
            let row = &a_rows[i];
            let ghost start = col_idx_vec@;
            let mut t: usize = 0;
            while t < row.len()
                invariant
                    t <= row@.len(),
                    col_idx_vec@ == start + row@.take(t as int),
                decreases row.len() - t,
            {
                col_idx_vec.push(row[t]);
                proof {
                    assert(row@.take(t + 1) =~= row@.take(t as int).push(row@[t as int]));
                }
                t += 1;
            }
            col_idx_vec.push((k + i) as u32);
            proof {
                assert(row@.take(row@.len() as int) =~= row@);
                assert(col_idx_vec@ =~= flat(rowf, i + 1));
                lemma_flat_mono(rowf, i + 1, m as int);
            }
            row_ptr.push(col_idx_vec.len() as u32);
            i += 1;
        }

        // Column-major index of H (the transpose).
        let mut col_rows: Vec<Vec<u32>> = Vec::new();
        let mut c0: usize = 0;
        while c0 < n
            invariant
                c0 <= n,
                col_rows.len() == c0,
                forall|c: int| #![trigger col_rows@[c]] 0 <= c < c0 ==> col_rows@[c]@ == Seq::<u32>::empty(),
            decreases n - c0,
        {
            col_rows.push(Vec::new());
            c0 += 1;
        }
        let ghost mut pushed: nat = 0;
        let mut r: usize = 0;
        while r < m
            invariant
                r <= m,
                n == k + m,
                k + m <= u32::MAX,
                a_rows.len() == m,
                forall|q: int| #![trigger a_rows@[q]] 0 <= q < m ==> a_rows@[q]@ == a_row(m as int, k as int, rw, q),
                col_rows.len() == n,
                forall|c: int| #![trigger col_rows@[c]] 0 <= c < n ==> col_rows@[c]@ == h_col_prefix(m as int, k as int, rw, c, r as int),
            decreases m - r,
        {
            let row = &a_rows[r];
            proof {
                lemma_a_row_prefix_below(m as int, k as int, rw, r as int, k as int);
                lemma_a_row_prefix_increasing(m as int, k as int, rw, r as int, k as int);
            }
            let mut t: usize = 0;
            while t < row.len()
                invariant
                    t <= row@.len(),
                    row@ == a_row(m as int, k as int, rw, r as int),
                    forall|q: int| 0 <= q < row@.len() ==> row@[q] < k,
                    forall|p: int, q: int| 0 <= p < q < row@.len() ==> row@[p] < row@[q],
                    r < m,
                    n == k + m,
                    k + m <= u32::MAX,
                    col_rows.len() == n,
                    forall|c: int| #![trigger col_rows@[c]] 0 <= c < n ==> col_rows@[c]@ == h_col_prefix(m as int, k as int, rw, c, r as int)
                        + if row@.take(t as int).contains(c as u32) { seq![r as u32] } else { Seq::empty() },
                decreases row.len() - t,
            {
                let c = row[t];
                let ghost old_cols = col_rows@;
                col_rows[c as usize].push(r as u32);
                proof {
                    assert forall|cc: int| #![trigger col_rows@[cc]] 0 <= cc < n implies col_rows@[cc]@ == h_col_prefix(m as int, k as int, rw, cc, r as int)
                        + if row@.take(t + 1).contains(cc as u32) { seq![r as u32] } else { Seq::empty() } by {
                        assert(row@.take(t + 1) =~= row@.take(t as int).push(c));
                        if cc == c as int {
                            assert(!row@.take(t as int).contains(c)) by {
                                if row@.take(t as int).contains(c) {
                                    let q = choose|q: int| 0 <= q < t && row@.take(t as int)[q] == c;
                                    assert(row@[q] < row@[t as int]);
                                }
                            }
                            assert(h_col_prefix(m as int, k as int, rw, cc, r as int) + Seq::<u32>::empty()
                                =~= h_col_prefix(m as int, k as int, rw, cc, r as int));
                            assert(row@.take(t + 1)[t as int] == c);
                            assert(old_cols[cc]@ == h_col_prefix(m as int, k as int, rw, cc, r as int) + Seq::<u32>::empty());
                            assert(col_rows@[cc]@ == old_cols[cc]@.push(r as u32));
                            assert(col_rows@[cc]@ =~= h_col_prefix(m as int, k as int, rw, cc, r as int) + seq![r as u32]);
                        } else {
                            assert(col_rows@[cc] == old_cols[cc]);
                            assert(row@.take(t + 1).contains(cc as u32) == row@.take(t as int).contains(cc as u32)) by {
                                if row@.take(t + 1).contains(cc as u32) {
                                    let q = choose|q: int| 0 <= q < t + 1 && #[trigger] row@.take(t + 1)[q] == cc as u32;
                                    if q == t {
                                        assert(cc as u32 == c);
                                        assert(cc < n);
                                    }
                                }
                            }
                        }
                    }
                }
                t += 1;
            }
            col_rows[k + r].push(r as u32);
            proof {
                assert(row@.take(row@.len() as int) =~= row@);
                assert forall|c: int| #![trigger col_rows@[c]] 0 <= c < n implies col_rows@[c]@ == h_col_prefix(m as int, k as int, rw, c, r + 1) by {
                    let hr = h_row(m as int, k as int, rw, r as int);
                    assert(hr.contains(c as u32) == (row@.contains(c as u32) || c == k + r)) by {
                        if hr.contains(c as u32) {
                            let q = choose|q: int| 0 <= q < hr.len() && hr[q] == c as u32;
                            if q < row@.len() {
                                assert(row@[q] == c as u32);
                            }
                        }
                        if row@.contains(c as u32) {
                            let q = choose|q: int| 0 <= q < row@.len() && row@[q] == c as u32;
                            assert(hr[q] == c as u32);
                        }
                        if c == k + r {
                            assert(hr[row@.len() as int] == c as u32);
                        }
                    }
                    if c == k + r {
                        assert(!row@.contains(c as u32)) by {
                            if row@.contains(c as u32) {
                                let q = choose|q: int| 0 <= q < row@.len() && row@[q] == c as u32;
                            }
                        }
                        assert(h_col_prefix(m as int, k as int, rw, c, r as int) + Seq::<u32>::empty()
                            =~= h_col_prefix(m as int, k as int, rw, c, r as int));
                    } else if !row@.contains(c as u32) {
                        assert(h_col_prefix(m as int, k as int, rw, c, r as int) + Seq::<u32>::empty()
                            =~= h_col_prefix(m as int, k as int, rw, c, r as int));
                    } else {
                        assert(c < k) by {
                            let q = choose|q: int| 0 <= q < row@.len() && row@[q] == c as u32;
                        }
                    }
                }
            }
            r += 1;
        }

        let mut col_ptr: Vec<u32> = Vec::new();
        let mut row_idx_vec: Vec<u32> = Vec::new();
        col_ptr.push(0u32);
        let ghost colf = |c: int| h_col(m as int, k as int, rw, c);
        proof {
            lemma_col_total(m as int, k as int, rw, colf, rowf);
        }
        let mut j: usize = 0;
        while j < n
            invariant
                j <= n,
                n == k + m,
                col_rows.len() == n,
                forall|c: int| #![trigger col_rows@[c]] 0 <= c < n ==> col_rows@[c]@ == h_col(m as int, k as int, rw, c),
                flat(colf, n as int).len() <= u32::MAX,
                forall|q: int| #![trigger colf(q)] colf(q) == h_col(m as int, k as int, rw, q),
                row_idx_vec@ == flat(colf, j as int),
                col_ptr.len() == j + 1,
                forall|q: int| #![trigger col_ptr@[q]] 0 <= q <= j ==> col_ptr@[q] == flat(colf, q).len(),
            decreases n - j,
        {
            let list = &col_rows[j];
            let ghost start = row_idx_vec@;
            let mut t: usize = 0;
            while t < list.len()
                invariant
                    t <= list@.len(),
                    row_idx_vec@ == start + list@.take(t as int),
                decreases list.len() - t,
            {
                row_idx_vec.push(list[t]);
                proof {
                    assert(list@.take(t + 1) =~= list@.take(t as int).push(list@[t as int]));
                }
                t += 1;
            }
            proof {
                assert(list@.take(list@.len() as int) =~= list@);
                assert(row_idx_vec@ =~= flat(colf, j + 1));
                lemma_flat_mono(colf, j + 1, n as int);
            }
            col_ptr.push(row_idx_vec.len() as u32);
            j += 1;
        }

        let h = SparseMat { rows: m, cols: n, row_ptr, col_idx: col_idx_vec, col_ptr, row_idx: row_idx_vec };
        proof {
            assert forall|a: int, b: int| 0 <= a <= b <= m implies h.row_ptr@[a] <= h.row_ptr@[b] by {
                lemma_flat_mono(rowf, a, b);
            }
            assert forall|a: int, b: int| 0 <= a <= b <= n implies h.col_ptr@[a] <= h.col_ptr@[b] by {
                lemma_flat_mono(colf, a, b);
            }
            assert forall|q: int| #![trigger h.row_seq(q)] 0 <= q < m implies h.row_seq(q) == h_row(m as int, k as int, rw, q) by {
                lemma_flat_slice(rowf, q, m as int);
            }
            assert forall|c: int| #![trigger h.col_seq(c)] 0 <= c < n implies h.col_seq(c) == h_col(m as int, k as int, rw, c) by {
                lemma_flat_slice(colf, c, n as int);
            }
        }
        h
    }
}

/// Lists that agree give the same concatenation.
proof fn lemma_flat_congruent(f: spec_fn(int) -> Seq<u32>, g: spec_fn(int) -> Seq<u32>, j: int)
    requires
        forall|i: int| #![trigger f(i)] 0 <= i < j ==> f(i) == g(i),
    ensures
        flat(f, j) == flat(g, j),
    decreases j,
{
    if j > 0 {
        lemma_flat_congruent(f, g, j - 1);
    }
}

/// Number of `c < n` that `s` holds.
spec fn count_in(s: Seq<u32>, n: int) -> nat
    decreases n,
{
    if n <= 0 {
        0
    } else {
        count_in(s, n - 1) + if s.contains((n - 1) as u32) { 1nat } else { 0nat }
    }
}

proof fn lemma_count_push(s: Seq<u32>, x: u32, n: int)
    requires
        n <= u32::MAX + 1,
    ensures
        count_in(s.push(x), n) == count_in(s, n) + if x < n && !s.contains(x) { 1nat } else { 0nat },
    decreases n,
{
    if n > 0 {
        lemma_count_push(s, x, n - 1);
        let y = (n - 1) as u32;
        assert(s.push(x).contains(y) == (s.contains(y) || x == y)) by {
            if s.push(x).contains(y) {
                let q = choose|q: int| 0 <= q < s.push(x).len() && s.push(x)[q] == y;
                if q < s.len() {
                    assert(s[q] == y);
                }
            }
            if s.contains(y) {
                let q = choose|q: int| 0 <= q < s.len() && s[q] == y;
                assert(s.push(x)[q] == y);
            }
            if x == y {
                assert(s.push(x)[s.len() as int] == y);
            }
        }
    }
}

proof fn lemma_count_distinct(s: Seq<u32>, n: int)
    requires
        0 <= n <= u32::MAX + 1,
        forall|i: int| 0 <= i < s.len() ==> s[i] < n,
        forall|i: int, j: int| 0 <= i < j < s.len() ==> s[i] != s[j],
    ensures
        count_in(s, n) == s.len(),
    decreases s.len(),
{
    if s.len() == 0 {
        assert forall|c: int| 0 <= c <= n implies count_in(s, c) == 0 by {
            lemma_count_empty(s, c);
        }
    } else {
        let p = s.drop_last();
        let x = s.last();
        lemma_count_distinct(p, n);
        assert(p.push(x) =~= s);
        lemma_count_push(p, x, n);
        assert(!p.contains(x)) by {
            if p.contains(x) {
                let q = choose|q: int| 0 <= q < p.len() && p[q] == x;
                assert(s[q] == s[s.len() - 1]);
            }
        }
    }
}

proof fn lemma_count_empty(s: Seq<u32>, c: int)
    requires
        s.len() == 0,
    ensures
        count_in(s, c) == 0,
    decreases c,
{
    if c > 0 {
        lemma_count_empty(s, c - 1);
    }
}

proof fn lemma_h_row_distinct(m: int, k: int, rw: int, r: int)
    requires
        0 <= r < m,
        0 <= k,
        k + m <= u32::MAX,
    ensures
        forall|i: int| 0 <= i < h_row(m, k, rw, r).len() ==> h_row(m, k, rw, r)[i] < k + m,
        forall|i: int, j: int| 0 <= i < j < h_row(m, k, rw, r).len() ==> h_row(m, k, rw, r)[i] != h_row(m, k, rw, r)[j],
{
    lemma_a_row_prefix_below(m, k, rw, r, k);
    lemma_a_row_prefix_increasing(m, k, rw, r, k);
}

proof fn lemma_flat_cols_step(m: int, k: int, rw: int, j: int, n: int)
    requires
        0 <= j,
        0 <= n <= u32::MAX + 1,
    ensures
        flat(|c: int| h_col_prefix(m, k, rw, c, j + 1), n).len()
            == flat(|c: int| h_col_prefix(m, k, rw, c, j), n).len() + count_in(h_row(m, k, rw, j), n),
    decreases n,
{
    if n > 0 {
        lemma_flat_cols_step(m, k, rw, j, n - 1);
    }
}

proof fn lemma_flat_cols_zero(m: int, k: int, rw: int, n: int)
    ensures
        flat(|c: int| h_col_prefix(m, k, rw, c, 0), n).len() == 0,
    decreases n,
{
    if n > 0 {
        lemma_flat_cols_zero(m, k, rw, n - 1);
    }
}

proof fn lemma_flat_cols_rows(m: int, k: int, rw: int, j: int)
    requires
        0 <= j <= m,
        0 <= k,
        k + m <= u32::MAX,
    ensures
        flat(|c: int| h_col_prefix(m, k, rw, c, j), k + m).len() == flat(|r: int| h_row(m, k, rw, r), j).len(),
    decreases j,
{
    if j == 0 {
        lemma_flat_cols_zero(m, k, rw, k + m);
    } else {
        lemma_flat_cols_rows(m, k, rw, j - 1);
        lemma_flat_cols_step(m, k, rw, j - 1, k + m);
        lemma_h_row_distinct(m, k, rw, j - 1);
        lemma_count_distinct(h_row(m, k, rw, j - 1), k + m);
    }
}

/// Number of `r < n` that `s` holds.
spec fn count_set(s: Set<int>, n: int) -> nat
    decreases n,
{
    if n <= 0 {
        0
    } else {
        count_set(s, n - 1) + if s.contains(n - 1) { 1nat } else { 0nat }
    }
}

proof fn lemma_count_set_le(s: Set<int>, n: int)
    requires
        s.finite(),
    ensures
        count_set(s, n) <= s.len(),
    decreases n,
{
    if n > 0 {
        let t = s.remove(n - 1);
        lemma_count_set_le(t, n - 1);
        lemma_count_set_same(s, t, n - 1);
    }
}

proof fn lemma_count_set_same(s: Set<int>, t: Set<int>, n: int)
    requires
        forall|r: int| r < n ==> (s.contains(r) == t.contains(r)),
    ensures
        count_set(s, n) == count_set(t, n),
    decreases n,
{
    if n > 0 {
        lemma_count_set_same(s, t, n - 1);
    }
}

proof fn lemma_hits_grow(m: int, c: int, t: nat)
    ensures
        hits(m, c, t + 1).len() <= hits(m, c, t).len() + 1,
{
    lemma_hits_finite(m, c, t);
}

proof fn lemma_stop_bound(m: int, cw: int, c: int, t: nat)
    requires
        t <= stop_from(m, cw, c, t),
        hits(m, c, t).len() <= cw,
    ensures
        hits(m, c, stop_from(m, cw, c, t)).len() <= cw,
    decreases 2 * m - t,
{
    if !(t >= 2 * m || hits(m, c, t).len() >= cw) {
        lemma_hits_grow(m, c, t);
        lemma_stop_ge(m, cw, c, t + 1);
        lemma_stop_bound(m, cw, c, t + 1);
    }
}

proof fn lemma_stop_ge(m: int, cw: int, c: int, t: nat)
    ensures
        t <= stop_from(m, cw, c, t),
    decreases 2 * m - t,
{
    if !(t >= 2 * m || hits(m, c, t).len() >= cw) {
        lemma_stop_ge(m, cw, c, t + 1);
    }
}

proof fn lemma_a_row_prefix_contains(m: int, k: int, rw: int, r: int, n: int, c: int)
    requires
        0 <= n <= u32::MAX + 1,
        0 <= c <= u32::MAX,
    ensures
        a_row_prefix(m, k, rw, r, n).contains(c as u32) == (c < n && a_entry(m, k, rw, r, c)),
    decreases n,
{
    if n > 0 {
        lemma_a_row_prefix_contains(m, k, rw, r, n - 1, c);
        let p = a_row_prefix(m, k, rw, r, n - 1);
        let e = if a_entry(m, k, rw, r, n - 1) { seq![(n - 1) as u32] } else { Seq::<u32>::empty() };
        let q = p + e;
        if q.contains(c as u32) {
            let i = choose|i: int| 0 <= i < q.len() && q[i] == c as u32;
            if i < p.len() {
                assert(p[i] == c as u32);
            }
        }
        if p.contains(c as u32) {
            let i = choose|i: int| 0 <= i < p.len() && p[i] == c as u32;
            assert(q[i] == c as u32);
        }
        if c == n - 1 && a_entry(m, k, rw, r, n - 1) {
            assert(q[p.len() as int] == c as u32);
        }
    }
}

/// The rows of column `c < k` of H are the rows column `c` of A visited.
proof fn lemma_h_col_prefix_len(m: int, k: int, rw: int, c: int, j: int)
    requires
        0 <= c < k,
        0 <= j <= m,
        0 <= k <= u32::MAX,
        k + m <= u32::MAX,
    ensures
        h_col_prefix(m, k, rw, c, j).len() == count_set(hits(m, c, stop_from(m, col_weight_spec(m, k, rw), c, 0)), j),
    decreases j,
{
    if j > 0 {
        lemma_h_col_prefix_len(m, k, rw, c, j - 1);
        let hr = h_row(m, k, rw, j - 1);
        let ar = a_row(m, k, rw, j - 1);
        lemma_a_row_prefix_contains(m, k, rw, j - 1, k, c);
        assert(hr.contains(c as u32) == ar.contains(c as u32)) by {
            if hr.contains(c as u32) {
                let i = choose|i: int| 0 <= i < hr.len() && hr[i] == c as u32;
                if i < ar.len() {
                    assert(ar[i] == c as u32);
                } else {
                    assert(hr[i] == (k + j - 1) as u32);
                    assert(k + j - 1 <= u32::MAX);
                    assert(c < k + j - 1);
                }
            }
            if ar.contains(c as u32) {
                let i = choose|i: int| 0 <= i < ar.len() && ar[i] == c as u32;
                assert(hr[i] == c as u32);
            }
        }
    }
}

/// Column `k + r` of H holds row `r` only.
proof fn lemma_h_col_identity_len(m: int, k: int, rw: int, c: int, j: int)
    requires
        k <= c < k + m,
        0 <= j <= m,
        0 <= k,
        k + m <= u32::MAX,
    ensures
        h_col_prefix(m, k, rw, c, j).len() == if j > c - k { 1nat } else { 0nat },
    decreases j,
{
    if j > 0 {
        lemma_h_col_identity_len(m, k, rw, c, j - 1);
        let hr = h_row(m, k, rw, j - 1);
        let ar = a_row(m, k, rw, j - 1);
        lemma_a_row_prefix_below(m, k, rw, j - 1, k);
        assert(hr.contains(c as u32) == (c == k + j - 1)) by {
            if hr.contains(c as u32) {
                let i = choose|i: int| 0 <= i < hr.len() && hr[i] == c as u32;
                if i < ar.len() {
                    assert(ar[i] < k);
                }
            }
            if c == k + j - 1 {
                assert(hr[ar.len() as int] == c as u32);
            }
        }
    }
}

proof fn lemma_flat_cols_bound(m: int, k: int, rw: int, n: int)
    requires
        0 <= n <= k + m,
        0 <= k,
        0 <= m,
        k + m <= u32::MAX,
    ensures
        flat(|c: int| h_col(m, k, rw, c), n).len()
            <= (if n <= k { n } else { k }) * col_weight_spec(m, k, rw) + (if n <= k { 0 } else { n - k }),
    decreases n,
{
    if n > 0 {
        lemma_flat_cols_bound(m, k, rw, n - 1);
        let c = n - 1;
        let cw = col_weight_spec(m, k, rw);
        if c < k {
            lemma_h_col_prefix_len(m, k, rw, c, m);
            let hs = hits(m, c, stop_from(m, cw, c, 0));
            lemma_hits_finite(m, c, stop_from(m, cw, c, 0));
            lemma_count_set_le(hs, m);
            lemma_stop_ge(m, cw, c, 0);
            assert(hits(m, c, 0).len() == 0) by {
                assert(hits(m, c, 0) =~= Set::<int>::empty());
            }
            assert(cw >= 0);
            lemma_stop_bound(m, cw, c, 0);
            assert((n - 1) * cw + cw == n * cw) by (nonlinear_arith);
        } else {
            lemma_h_col_identity_len(m, k, rw, c, m);
        }
    }
}

/// H has at most `k · cw + m` entries, where `cw` is the column weight of A.
pub proof fn lemma_h_nnz_bound(m: int, k: int, rw: int)
    requires
        0 <= k,
        0 <= m,
        k + m <= u32::MAX,
    ensures
        h_nnz(m, k, rw) <= k * col_weight_spec(m, k, rw) + m,
{
    lemma_flat_cols_bound(m, k, rw, k + m);
    lemma_col_total(m, k, rw, |c: int| h_col(m, k, rw, c), |r: int| h_row(m, k, rw, r));
}

/// With the codec's row weight, H has at most `6m + 2k + m` entries.
pub proof fn lemma_h_nnz_small(m: int, k: int)
    requires
        0 <= k,
        0 <= m,
        k + m <= u32::MAX,
    ensures
        h_nnz(m, k, ROW_WEIGHT as int) <= 7 * m + 2 * k,
{
    lemma_h_nnz_bound(m, k, ROW_WEIGHT as int);
    let cw = col_weight_spec(m, k, 6);
    if k > 0 {
        let a = if 6 * m >= 1 { 6 * m } else { 1 };
        assert(k * ((a + k - 1) / k) <= a + k - 1) by (nonlinear_arith)
            requires k > 0, a >= 1;
        if (a + k - 1) / k >= 1 {
            assert(k * cw <= k * ((a + k - 1) / k)) by (nonlinear_arith)
                requires k > 0, cw <= (a + k - 1) / k;
        } else {
            assert(cw <= 1);
            assert(k * cw <= k) by (nonlinear_arith)
                requires k > 0, cw <= 1;
        }
    }
}

/// The columns of H hold, together, as many entries as its rows.
proof fn lemma_col_total(m: int, k: int, rw: int, f: spec_fn(int) -> Seq<u32>, g: spec_fn(int) -> Seq<u32>)
    requires
        0 <= m,
        0 <= k,
        k + m <= u32::MAX,
        forall|c: int| #![trigger f(c)] f(c) == h_col(m, k, rw, c),
        forall|r: int| #![trigger g(r)] g(r) == h_row(m, k, rw, r),
    ensures
        flat(f, k + m).len() == flat(g, m).len(),
        flat(g, m).len() == h_nnz(m, k, rw),
{
    lemma_flat_cols_rows(m, k, rw, m);
    lemma_flat_congruent(f, |c: int| h_col_prefix(m, k, rw, c, m), k + m);
    lemma_flat_congruent(g, |r: int| h_row(m, k, rw, r), m);
}


impl SparseMat {
    /// Column indices of the set entries of row `r`.
    pub fn row_cols(&self, r: usize) -> (cols: &[u32])
        requires
            self.wf(),
            r < self.spec_rows(),
        ensures
            cols@ == self.row_seq(r as int),
    {
        let s = self.row_ptr[r] as usize;
        let e = self.row_ptr[r + 1] as usize;
        &self.col_idx.as_slice()[s..e]
    }

    /// Row indices of the set entries of column `c`.
    pub fn col_rows(&self, c: usize) -> (rows: &[u32])
        requires
            self.wf(),
            c < self.spec_cols(),
        ensures
            rows@ == self.col_seq(c as int),
    {
        let s = self.col_ptr[c] as usize;
        let e = self.col_ptr[c + 1] as usize;
        &self.row_idx.as_slice()[s..e]
    }
}

// ---------------------------------------------------------------------------
// LDPC codec
// ---------------------------------------------------------------------------

/// Row weight for the sparse A matrix (check-node degree).
pub const ROW_WEIGHT: usize = 6;
/// Max belief propagation iterations.
pub const MAX_ITER: usize = 30;

/// Codeword length in bits for `k` data bits at the code rate of `ecc`:
/// `ceil(k · den / num)`.
pub open spec fn codeword_len(k: int, ecc: EccLevel) -> int {
    (k * ecc.spec_rate().1 + ecc.spec_rate().0 - 1) / (ecc.spec_rate().0 as int)
}

/// Data bits of a codeword of `n` bits at the code rate of `ecc`:
/// `floor(n · num / den)`.
pub open spec fn data_len_of(n: int, ecc: EccLevel) -> int {
    n * ecc.spec_rate().0 / (ecc.spec_rate().1 as int)
}

/// The decoder side recovers the data length from the codeword length: a
/// codec made from the length of a codeword for `k` data bits has `k` data
/// bits, so the same check matrix, and can be made wherever the encoder's
/// check matrix could.
pub proof fn lemma_codeword_len_inverse(k: int, ecc: EccLevel)
    requires
        k >= 0,
    ensures
        data_len_of(codeword_len(k, ecc), ecc) == k,
        h_fits(k, codeword_len(k, ecc) - k) ==> h_fits(
            data_len_of(codeword_len(k, ecc), ecc),
            codeword_len(k, ecc) - data_len_of(codeword_len(k, ecc), ecc),
        ),
{
    let (num, den) = ecc.spec_rate();
    let n = codeword_len(k, ecc);
    match ecc {
        EccLevel::Low => {
            assert(n * 3 / 4 == k) by (nonlinear_arith)
                requires n == (k * 4 + 3 - 1) / 3, k >= 0;
        },
        EccLevel::Medium => {
            assert(n * 1 / 2 == k) by (nonlinear_arith)
                requires n == (k * 2 + 1 - 1) / 1, k >= 0;
        },
        EccLevel::High => {
            assert(n * 1 / 3 == k) by (nonlinear_arith)
                requires n == (k * 3 + 1 - 1) / 1, k >= 0;
        },
        EccLevel::Ultra => {
            assert(n * 1 / 4 == k) by (nonlinear_arith)
                requires n == (k * 4 + 1 - 1) / 1, k >= 0;
        },
    }
}

/// The parity check matrix for `k` data bits and `m` parity bits can be
/// built and indexed with 32-bit entries.
pub open spec fn h_fits(k: int, m: int) -> bool {
    &&& 0 <= k
    &&& 0 <= m
    &&& k + m <= u32::MAX
    &&& 2 * m <= u32::MAX
    &&& ROW_WEIGHT * m + k <= usize::MAX
    &&& k * 11 + 5 <= usize::MAX
    &&& 7 * m + 2 * k <= u32::MAX
}

/// Quasi-cyclic LDPC encoder: systematic codewords `[data | parity]` with
/// parity check matrix H = [A | I_m].
pub struct LdpcCodec {
    /// Number of data bits.
    k: usize,
    /// Number of encoded bits (k + parity).
    n: usize,
    h: SparseMat,
}

impl LdpcCodec {
    /// Number of data bits.
    pub closed spec fn spec_k(self) -> nat {
        self.k as nat
    }

    /// Number of encoded bits.
    pub closed spec fn spec_n(self) -> nat {
        self.n as nat
    }

    /// Number of data bits; never more than the encoded bits, which fit 32 bits.
    pub fn data_bits(&self) -> (k: usize)
        ensures
            k == self.spec_k(),
            self.spec_k() <= self.spec_n() <= u32::MAX,
    {
        proof {
            use_type_invariant(self);
        }
        self.k
    }

    /// Number of encoded bits; at least the data bits, and within 32 bits.
    pub fn code_bits(&self) -> (n: usize)
        ensures
            n == self.spec_n(),
            self.spec_k() <= self.spec_n() <= u32::MAX,
    {
        proof {
            use_type_invariant(self);
        }
        self.n
    }

    /// The check matrix is H = [A | I_m] for these lengths.
    pub closed spec fn wf(self) -> bool {
        &&& self.k <= self.n
        &&& self.n + 7 <= usize::MAX
        &&& self.n <= u32::MAX
        &&& self.h.wf()
        &&& self.h.spec_rows() == self.n - self.k
        &&& self.h.spec_cols() == self.n
        &&& forall|r: int| #![trigger self.h.row_seq(r)] 0 <= r < self.n - self.k ==>
                self.h.row_seq(r) == h_row(self.n - self.k, self.k as int, ROW_WEIGHT as int, r)
    }

    /// Every codec keeps its check matrix well formed.
    #[verifier::type_invariant]
    spec fn codec_inv(self) -> bool {
        self.wf()
    }

    /// The parity check matrix.
    pub closed spec fn spec_h(self) -> SparseMat {
        self.h
    }

    /// Create codec for encoding `data_bits` bits at the given ECC level.
    pub fn new(data_bits: usize, ecc: EccLevel) -> (c: Self)
        requires
            data_bits * 4 + 2 <= usize::MAX,
            codeword_len(data_bits as int, ecc) + 7 <= usize::MAX,
            h_fits(data_bits as int, codeword_len(data_bits as int, ecc) - data_bits),
        ensures
            c.wf(),
            c.spec_k() == data_bits,
            c.spec_n() == codeword_len(data_bits as int, ecc),
    {
        let (num, den) = ecc.rate();
        proof {
            assert(data_bits * den <= data_bits * 4) by (nonlinear_arith)
                requires den <= 4;
            assert((data_bits * den + num - 1) / (num as int) >= data_bits) by (nonlinear_arith)
                requires 1 <= num <= 3, den >= 2, 3 * den >= 4 * num;
        }
        let n = (data_bits * den + num - 1) / num;
        let m = n - data_bits;
        proof {
            lemma_h_nnz_small(m as int, data_bits as int);
        }
        let h = SparseMat::build(data_bits, m, ROW_WEIGHT);
        LdpcCodec { k: data_bits, n, h }
    }

    /// Create codec from known codeword length `n_bits` and ECC level (decoder side).
    pub fn new_from_n(n_bits: usize, ecc: EccLevel) -> (c: Self)
        requires
            n_bits * 3 <= usize::MAX,
            n_bits + 7 <= usize::MAX,
            h_fits(data_len_of(n_bits as int, ecc), n_bits - data_len_of(n_bits as int, ecc)),
        ensures
            c.wf(),
            c.spec_k() == data_len_of(n_bits as int, ecc),
            c.spec_n() == n_bits,
    {
        let (num, den) = ecc.rate();
        proof {
            assert(n_bits * num <= n_bits * 3) by (nonlinear_arith)
                requires num <= 3;
            assert((n_bits * num) / (den as int) <= n_bits) by (nonlinear_arith)
                requires 1 <= num < den;
        }
        let k = n_bits * num / den;
        let m = n_bits - k;
        proof {
            lemma_h_nnz_small(m as int, k as int);
        }
        let h = SparseMat::build(k, m, ROW_WEIGHT);
        LdpcCodec { k, n: n_bits, h }
    }

    /// Hard-decision syndrome check: whether the bits of `hard` (least
    /// significant bit of each byte first) satisfy every parity check of H.
    pub fn syndrome_ok(&self, hard: &[u8]) -> (ok: bool)
        requires
            self.spec_n() <= 8 * hard@.len(),
        ensures
            ok == checks_hold(unpack_bytes(hard@), self.spec_k() as int, self.spec_n() - self.spec_k()),
    {
        proof {
            use_type_invariant(self);
        }
        let m = self.n - self.k;
        let ghost bits = unpack_bytes(hard@);
        let ghost k = self.k as int;
        let mut r: usize = 0;
        while r < m
            invariant
                self.wf(),
                m == self.n - self.k,
                k == self.k,
                bits == unpack_bytes(hard@),
                self.n <= 8 * hard@.len(),
                r <= m,
                forall|q: int| 0 <= q < r ==> !#[trigger] xor_cols(bits, h_row(m as int, k, ROW_WEIGHT as int, q), k + m),
            decreases m - r,
        {
            let cols = self.h.row_cols(r);
            let ghost row = h_row(m as int, k, ROW_WEIGHT as int, r as int);
            proof {
                assert(cols@ == row);
                lemma_h_row_below(m as int, k, r as int);
            }
            let mut s = false;
            let mut i: usize = 0;
            while i < cols.len()
                invariant
                    cols@ == row,
                    forall|j: int| 0 <= j < row.len() ==> (#[trigger] row[j] as int) < k + m,
                    k + m == self.n,
                    self.n <= 8 * hard@.len(),
                    bits == unpack_bytes(hard@),
                    i <= cols@.len(),
                    s == xor_cols(bits, row.take(i as int), k + m),
                decreases cols.len() - i,
            {
                let c = cols[i] as usize;
                let b = get_bit(hard, c);
                proof {
                    assert(row.take(i + 1).drop_last() =~= row.take(i as int));
                    assert(row.take(i + 1).last() == row[i as int]);
                }
                s = s != (b == 1);
                i += 1;
            }
            proof {
                assert(row.take(row.len() as int) =~= row);
            }
            if s {
                return false;
            }
            r += 1;
        }
        true
    }

    /// The parity check matrix H.
    pub fn check_matrix(&self) -> (h: &SparseMat)
        ensures
            h == self.spec_h(),
    {
        &self.h
    }

    /// Encode `data` (the `k` data bits, least significant bit of each byte
    /// first) into the codeword bytes `[data | parity]`.
    pub fn encode(&self, data: &[u8]) -> (cw: Vec<u8>)
        requires
            data@.len() == (self.spec_k() + 7) / 8,
        ensures
            cw@ == codeword_spec(data@, self.spec_k() as int, self.spec_n() - self.spec_k()),
    {
        proof {
            use_type_invariant(self);
        }
        let m = self.n - self.k;
        let ghost bits = unpack_bytes(data@);
        let ghost par = parity_spec(data@, self.k as int, m as int);
        let mut parity = vec![0u8; (m + 7) / 8];
        proof {
            assert forall|x: int| 0 <= x < 8 * parity@.len() implies !#[trigger] unpack_bytes(parity@)[x] by {
                assert(parity@[x / 8] == 0u8);
                let j = (x % 8) as u8;
                lemma_zero_shifts();
                assert(!((0u8 >> j) & 1 == 1));
            }
        }
        let mut row: usize = 0;
        while row < m
            invariant
                self.wf(),
                m == self.n - self.k,
                data@.len() == (self.spec_k() + 7) / 8,
                bits == unpack_bytes(data@),
                par == parity_spec(data@, self.k as int, m as int),
                row <= m,
                parity@.len() == (m + 7) / 8,
                forall|x: int| 0 <= x < 8 * parity@.len() ==>
                    #[trigger] unpack_bytes(parity@)[x] == (x < row && par[x]),
            decreases m - row,
        {
            let cols = self.h.row_cols(row);
            let mut bit: u8 = 0;
            let mut i: usize = 0;
            while i < cols.len()
                invariant
                    self.wf(),
                    data@.len() == (self.spec_k() + 7) / 8,
                    bits == unpack_bytes(data@),
                    i <= cols@.len(),
                    bit == 0 || bit == 1,
                    (bit == 1) == xor_cols(bits, cols@.take(i as int), self.k as int),
                decreases cols.len() - i,
            {
                let col = cols[i];
                let ghost before = bit;
                if (col as usize) < self.k {
                    proof {
                        assert((col as int) / 8 < data@.len());
                    }
                    let b = get_bit(data, col as usize);
                    bit = bit ^ b;
                    proof {
                        assert((before ^ b == 1) == ((before == 1) != (b == 1))) by (bit_vector)
                            requires before == 0 || before == 1, b == 0 || b == 1;
                        assert((before ^ b == 0) || (before ^ b == 1)) by (bit_vector)
                            requires before == 0 || before == 1, b == 0 || b == 1;
                    }
                }
                proof {
                    assert(cols@.take(i + 1).drop_last() =~= cols@.take(i as int));
                    assert(cols@.take(i + 1).last() == col);
                    assert(bit_at(bits, col as int) == (8 * data@.len() > col && bits[col as int]));
                }
                i += 1;
            }
            proof {
                assert(cols@.take(cols@.len() as int) =~= cols@);
                assert(cols@ == h_row(m as int, self.k as int, ROW_WEIGHT as int, row as int));
            }
            let ghost old_par = parity@;
            proof {
                assert((bit & 1 == 1) == (bit == 1)) by (bit_vector)
                    requires bit == 0 || bit == 1;
                assert(par[row as int] == xor_cols(bits, cols@, self.k as int));
                assert(row / 8 < parity@.len());
            }
            set_bit(parity.as_mut_slice(), row, bit);
            proof {
                assert forall|x: int| 0 <= x < 8 * parity@.len() implies
                    #[trigger] unpack_bytes(parity@)[x] == (x < row + 1 && par[x]) by {
                    assert(unpack_bytes(old_par)[x] == (x < row && par[x]));
                }
            }
            row += 1;
        }
        proof {
            lemma_pack_unique(parity@, par);
        }
        let mut codeword: Vec<u8> = Vec::new();
        let mut i: usize = 0;
        while i < data.len()
            invariant
                i <= data@.len(),
                codeword@ == data@.take(i as int),
            decreases data.len() - i,
        {
            codeword.push(data[i]);
            proof {
                assert(data@.take(i + 1) =~= data@.take(i as int).push(data@[i as int]));
            }
            i += 1;
        }
        let mut j: usize = 0;
        while j < parity.len()
            invariant
                j <= parity@.len(),
                codeword@ == data@ + parity@.take(j as int),
            decreases parity.len() - j,
        {
            codeword.push(parity[j]);
            proof {
                assert(parity@.take(j + 1) =~= parity@.take(j as int).push(parity@[j as int]));
            }
            j += 1;
        }
        proof {
            assert(data@.take(data@.len() as int) =~= data@);
            assert(parity@.take(parity@.len() as int) =~= parity@);
        }
        codeword
    }
}

/// Parity of the bits of `bits` at the columns of `cols` below `lim`.
pub open spec fn xor_cols(bits: Seq<bool>, cols: Seq<u32>, lim: int) -> bool
    decreases cols.len(),
{
    if cols.len() == 0 {
        false
    } else {
        xor_cols(bits, cols.drop_last(), lim) != ((cols.last() as int) < lim && bit_at(bits, cols.last() as int))
    }
}

/// The parity bits for `data`: bit `r` is the parity of the data bits at the
/// set columns of row `r` of A.
pub open spec fn parity_spec(data: Seq<u8>, k: int, m: int) -> Seq<bool> {
    Seq::new(m as nat, |r: int| xor_cols(unpack_bytes(data), h_row(m, k, ROW_WEIGHT as int, r), k))
}

/// The systematic codeword for `data`: the data bytes, then the parity bits
/// packed into bytes.
pub open spec fn codeword_spec(data: Seq<u8>, k: int, m: int) -> Seq<u8> {
    data + pack_bits(parity_spec(data, k, m))
}

/// Every check of H (for `k` data and `m` parity bits) holds on `bits`: the
/// parity of the bits at the set columns of each row is even.
pub open spec fn checks_hold(bits: Seq<bool>, k: int, m: int) -> bool {
    forall|r: int| 0 <= r < m ==> !#[trigger] xor_cols(bits, h_row(m, k, ROW_WEIGHT as int, r), k + m)
}

/// The columns of row `r` of H lie below `k + m`.
proof fn lemma_h_row_below(m: int, k: int, r: int)
    requires
        0 <= r < m,
        0 <= k,
        k + m <= u32::MAX,
    ensures
        forall|j: int| 0 <= j < h_row(m, k, ROW_WEIGHT as int, r).len() ==> (#[trigger] h_row(m, k, ROW_WEIGHT as int, r)[j] as int) < k + m,
{
    lemma_a_row_prefix_below(m, k, ROW_WEIGHT as int, r, k);
    let a = a_row(m, k, ROW_WEIGHT as int, r);
    assert forall|j: int| 0 <= j < h_row(m, k, ROW_WEIGHT as int, r).len() implies (#[trigger] h_row(m, k, ROW_WEIGHT as int, r)[j] as int) < k + m by {
        if j < a.len() {
            assert(h_row(m, k, ROW_WEIGHT as int, r)[j] == a[j]);
        }
    }
}

/// Bit `pos` of a byte buffer (least significant bit of each byte first), as 0 or 1.
pub fn get_bit(buf: &[u8], pos: usize) -> (b: u8)
    requires
        pos / 8 < buf@.len(),
    ensures
        b == if unpack_bytes(buf@)[pos as int] { 1u8 } else { 0u8 },
{
    let byte = buf[pos / 8];
    let sh = (pos % 8) as u8;
    let b = (byte >> sh) & 1;
    proof {
        assert(b == 0 || b == 1) by (bit_vector)
            requires b == (byte >> sh) & 1;
    }
    b
}

/// Set bit `pos` of a byte buffer to the low bit of `val`.
pub fn set_bit(buf: &mut [u8], pos: usize, val: u8)
    requires
        pos / 8 < old(buf)@.len(),
    ensures
        final(buf)@.len() == old(buf)@.len(),
        unpack_bytes(final(buf)@) == unpack_bytes(old(buf)@).update(pos as int, val & 1 == 1),
{
    let i = pos / 8;
    let sh = (pos % 8) as u8;
    let byte = buf[i];
    let mask: u8 = 1u8 << sh;
    let nb = (byte & !mask) | ((val & 1) << sh);
    buf[i] = nb;
    proof {
        assert forall|j: int| 0 <= j < 8 implies u8_bit(nb, j) == if j == sh { val & 1 == 1 } else { u8_bit(byte, j) } by {
            let jj = j as u8;
            assert(((((byte & !(1u8 << sh)) | ((val & 1) << sh)) >> jj) & 1 == 1) == if jj == sh { val & 1 == 1 } else {
                (byte >> jj) & 1 == 1
            }) by (bit_vector)
                requires sh < 8, jj < 8;
        }
        assert(unpack_bytes(buf@) =~= unpack_bytes(old(buf)@).update(pos as int, val & 1 == 1)) by {
            assert forall|x: int| 0 <= x < unpack_bytes(buf@).len() implies unpack_bytes(buf@)[x]
                == unpack_bytes(old(buf)@).update(pos as int, val & 1 == 1)[x] by {
                if x / 8 == i as int {
                    assert(x == pos <==> x % 8 == sh);
                }
            }
        }
    }
}

/// Pack bits given one per byte (nonzero = 1) into bytes, least significant
/// bit first; `k` bits are taken.
pub fn bits_to_bytes(bits: &[u8], k: usize) -> (out: Vec<u8>)
    requires
        k <= bits@.len(),
        k + 7 <= usize::MAX,
    ensures
        out@ == pack_bits(Seq::new(k as nat, |i: int| bits@[i] != 0)),
{
    let ghost s = Seq::new(k as nat, |i: int| bits@[i] != 0);
    let mut out = vec![0u8; (k + 7) / 8];
    proof {
        assert forall|x: int| 0 <= x < 8 * out@.len() implies !#[trigger] unpack_bytes(out@)[x] by {
            assert(out@[x / 8] == 0u8);
            let j = (x % 8) as u8;
            lemma_zero_shifts();
            assert(!((0u8 >> j) & 1 == 1));
        }
    }
    let mut i: usize = 0;
    while i < k
        invariant
            k <= bits@.len(),
            s == Seq::new(k as nat, |i: int| bits@[i] != 0),
            i <= k,
            out@.len() == (k + 7) / 8,
            forall|x: int| 0 <= x < 8 * out@.len() ==> #[trigger] unpack_bytes(out@)[x] == (x < i && s[x]),
        decreases k - i,
    {
        if bits[i] != 0 {
            let ghost before = out@;
            let idx = i / 8;
            let sh = (i % 8) as u8;
            let byte = out[idx];
            let nb = byte | (1u8 << sh);
            out.set(idx, nb);
            proof {
                assert forall|x: int| 0 <= x < 8 * out@.len() implies #[trigger] unpack_bytes(out@)[x] == (x < i + 1 && s[x]) by {
                    if x / 8 == idx as int {
                        let jj = (x % 8) as u8;
                        lemma_u8_set_bit();
                        assert((((byte | (1u8 << sh)) >> jj) & 1 == 1) == (jj == sh || (byte >> jj) & 1 == 1));
                        assert(x == i <==> x % 8 == sh);
                        assert(unpack_bytes(before)[x] == (x < i && s[x]));
                    } else {
                        assert(unpack_bytes(before)[x] == (x < i && s[x]));
                    }
                }
            }
        }
        i += 1;
    }
    proof {
        lemma_pack_unique(out@, s);
    }
    out
}

/// Bytes whose bits are those of `s` (then zero) are the packing of `s`.
pub proof fn lemma_pack_unique(p: Seq<u8>, s: Seq<bool>)
    requires
        p.len() == (s.len() + 7) / 8,
        forall|x: int| 0 <= x < 8 * p.len() ==> #[trigger] unpack_bytes(p)[x] == (x < s.len() && s[x]),
    ensures
        p == pack_bits(s),
{
    assert forall|i: int| 0 <= i < p.len() implies p[i] == pack_bits(s)[i] by {
        assert forall|j: int| 0 <= j < 8 implies u8_bit(p[i], j) == (j < 8 && bit_at(s, 8 * i + j)) by {
            assert(unpack_bytes(p)[8 * i + j] == (8 * i + j < s.len() && s[8 * i + j]));
            assert((8 * i + j) / 8 == i && (8 * i + j) % 8 == j);
        }
        lemma_u8_value(p[i], s, 8 * i, 8);
    }
    assert(p =~= pack_bits(s));
}

/// Unpacking a packing gives the bits back, then zero padding.
pub proof fn lemma_unpack_pack(s: Seq<bool>)
    ensures
        unpack_bytes(pack_bits(s)).len() == 8 * ((s.len() + 7) / 8),
        forall|x: int| 0 <= x < unpack_bytes(pack_bits(s)).len() ==>
            #[trigger] unpack_bytes(pack_bits(s))[x] == bit_at(s, x),
{
    let p = pack_bits(s);
    assert forall|x: int| 0 <= x < unpack_bytes(p).len() implies #[trigger] unpack_bytes(p)[x] == bit_at(s, x) by {
        let i = x / 8;
        let j = x % 8;
        let b = p[i];
        let c = lemma_byte_from_bits(s, 8 * i);
        lemma_u8_bits_eq(b, c);
        assert(8 * i + j == x);
    }
}

/// The byte whose bits are the eight bits of `s` from `start` on has their value.
proof fn lemma_byte_from_bits(s: Seq<bool>, start: int) -> (c: u8)
    ensures
        c as nat == bits_value(s, start, 8),
        forall|j: int| 0 <= j < 8 ==> u8_bit(c, j) == bit_at(s, start + j),
{
    lemma_bits_value_byte(s, start, 8);
    bits_value(s, start, 8) as u8
}

/// Every check of H holds on the codeword for whole data bytes: the parity of
/// the codeword bits at the set columns of each row of H is even.
pub proof fn lemma_codeword_satisfies_checks(data: Seq<u8>, m: int, r: int)
    requires
        0 <= r < m,
        8 * data.len() + m <= u32::MAX,
    ensures
        !xor_cols(
            unpack_bytes(codeword_spec(data, (8 * data.len()) as int, m)),
            h_row(m, (8 * data.len()) as int, ROW_WEIGHT as int, r),
            (8 * data.len()) as int + m,
        ),
{
    let k = (8 * data.len()) as int;
    let par = parity_spec(data, k, m);
    let pb = pack_bits(par);
    let cw = codeword_spec(data, k, m);
    let bits = unpack_bytes(cw);
    let dbits = unpack_bytes(data);
    let row = a_row(m, k, ROW_WEIGHT as int, r);
    lemma_unpack_concat(data, pb);
    lemma_unpack_pack(par);
    lemma_a_row_prefix_below(m, k, ROW_WEIGHT as int, r, k);
    lemma_xor_cols_agree(bits, dbits, row, k + m, k);
    assert(h_row(m, k, ROW_WEIGHT as int, r).drop_last() =~= row);
    assert(bit_at(bits, k + r) == par[r]) by {
        assert(unpack_bytes(pb)[r] == bit_at(par, r));
        assert(8 * ((par.len() + 7) / 8) >= m);
    }
}

/// A clean codeword passes the syndrome check, and its first `8 · len`
/// bits are the data bytes: hard-decision decoding gives the data back.
pub proof fn lemma_clean_codeword_decodes(data: Seq<u8>, m: int)
    requires
        0 <= m,
        8 * data.len() + m <= u32::MAX,
    ensures
        checks_hold(unpack_bytes(codeword_spec(data, (8 * data.len()) as int, m)), (8 * data.len()) as int, m),
        codeword_spec(data, (8 * data.len()) as int, m).take(data.len() as int) == data,
{
    let k = (8 * data.len()) as int;
    assert forall|r: int| 0 <= r < m implies !#[trigger] xor_cols(unpack_bytes(codeword_spec(data, k, m)), h_row(m, k, ROW_WEIGHT as int, r), k + m) by {
        lemma_codeword_satisfies_checks(data, m, r);
    }
    assert(codeword_spec(data, k, m).take(data.len() as int) =~= data);
}

/// A parity reads only the bits below its limit.
proof fn lemma_xor_cols_same(b1: Seq<bool>, b2: Seq<bool>, cols: Seq<u32>, lim: int)
    requires
        forall|x: int| 0 <= x < lim ==> #[trigger] bit_at(b1, x) == bit_at(b2, x),
    ensures
        xor_cols(b1, cols, lim) == xor_cols(b2, cols, lim),
    decreases cols.len(),
{
    if cols.len() > 0 {
        lemma_xor_cols_same(b1, b2, cols.drop_last(), lim);
        if (cols.last() as int) < lim {
            assert(bit_at(b1, cols.last() as int) == bit_at(b2, cols.last() as int));
        }
    }
}

/// Whether the checks hold depends only on the first `k + m` bits.
pub proof fn lemma_checks_agree(b1: Seq<bool>, b2: Seq<bool>, k: int, m: int)
    requires
        forall|x: int| 0 <= x < k + m ==> #[trigger] bit_at(b1, x) == bit_at(b2, x),
    ensures
        checks_hold(b1, k, m) == checks_hold(b2, k, m),
{
    if checks_hold(b1, k, m) {
        assert forall|r: int| 0 <= r < m implies !#[trigger] xor_cols(b2, h_row(m, k, ROW_WEIGHT as int, r), k + m) by {
            lemma_xor_cols_same(b1, b2, h_row(m, k, ROW_WEIGHT as int, r), k + m);
            assert(!xor_cols(b1, h_row(m, k, ROW_WEIGHT as int, r), k + m));
        }
    }
    if checks_hold(b2, k, m) {
        assert forall|r: int| 0 <= r < m implies !#[trigger] xor_cols(b1, h_row(m, k, ROW_WEIGHT as int, r), k + m) by {
            lemma_xor_cols_same(b1, b2, h_row(m, k, ROW_WEIGHT as int, r), k + m);
            assert(!xor_cols(b2, h_row(m, k, ROW_WEIGHT as int, r), k + m));
        }
    }
}

/// Flipping bit `x` flips the parity of a list of distinct columns exactly
/// when the list holds `x` (below the limit).
proof fn lemma_xor_cols_flip(b: Seq<bool>, cols: Seq<u32>, lim: int, x: int)
    requires
        0 <= x < b.len(),
        x <= u32::MAX,
        forall|i: int, j: int| 0 <= i < j < cols.len() ==> cols[i] != cols[j],
    ensures
        xor_cols(b.update(x, !b[x]), cols, lim) == (xor_cols(b, cols, lim) != (x < lim && cols.contains(x as u32))),
    decreases cols.len(),
{
    if cols.len() > 0 {
        let d = cols.drop_last();
        lemma_xor_cols_flip(b, d, lim, x);
        let last = cols.last() as int;
        if last == x {
            assert(!d.contains(x as u32)) by {
                if d.contains(x as u32) {
                    let i = choose|i: int| 0 <= i < d.len() && d[i] == x as u32;
                    assert(cols[i] == cols[cols.len() - 1]);
                }
            }
            assert(cols.contains(x as u32)) by {
                assert(cols[cols.len() - 1] == x as u32);
            }
        } else {
            assert(cols.contains(x as u32) == d.contains(x as u32)) by {
                if cols.contains(x as u32) {
                    let i = choose|i: int| 0 <= i < cols.len() && cols[i] == x as u32;
                    assert(i < cols.len() - 1);
                    assert(d[i] == x as u32);
                }
                if d.contains(x as u32) {
                    let i = choose|i: int| 0 <= i < d.len() && d[i] == x as u32;
                    assert(cols[i] == x as u32);
                }
            }
        }
    }
}

proof fn lemma_hits_mono(m: int, c: int, t: nat, u: nat)
    requires
        t <= u,
    ensures
        hits(m, c, t).subset_of(hits(m, c, u)),
    decreases u - t,
{
    if t < u {
        lemma_hits_mono(m, c, t, (u - 1) as nat);
    }
}

/// Every column of H lies in some row: data column `c` in the row where its
/// walk starts, parity column `k + r` in row `r`.
proof fn lemma_column_in_some_row(m: int, k: int, x: int) -> (r: int)
    requires
        m >= 1,
        0 <= k,
        k + m <= u32::MAX,
        0 <= x < k + m,
    ensures
        0 <= r < m,
        h_row(m, k, ROW_WEIGHT as int, r).contains(x as u32),
{
    let rw = ROW_WEIGHT as int;
    if x >= k {
        let r = x - k;
        let row = h_row(m, k, rw, r);
        assert(row[row.len() - 1] == x as u32);
        r
    } else {
        let cw = col_weight_spec(m, k, rw);
        assert(cw >= 1);
        assert(hits(m, x, 0).len() == 0);
        lemma_stop_ge(m, cw, x, 1);
        assert(stop_from(m, cw, x, 0) == stop_from(m, cw, x, 1));
        let r = start_row(m, x);
        assert(hits(m, x, 1).contains(r));
        lemma_hits_mono(m, x, 1, stop_from(m, cw, x, 0));
        assert(a_entry(m, k, rw, r, x));
        lemma_a_row_prefix_contains(m, k, rw, r, k, x);
        let a = a_row(m, k, rw, r);
        let i = choose|i: int| 0 <= i < a.len() && a[i] == x as u32;
        assert(h_row(m, k, rw, r)[i] == x as u32);
        assert(0 <= r < m) by {
            vstd::arithmetic::div_mod::lemma_mod_bound(x * 7 + 3, m);
        }
        r
    }
}

/// A single flipped bit is always caught: if a word passes every check of H,
/// the word with any one of its codeword bits flipped fails one.
pub proof fn lemma_single_error_detected(bits: Seq<bool>, k: int, m: int, x: int)
    requires
        checks_hold(bits, k, m),
        m >= 1,
        0 <= k,
        k + m <= u32::MAX,
        0 <= x < k + m <= bits.len(),
    ensures
        !checks_hold(bits.update(x, !bits[x]), k, m),
{
    let r = lemma_column_in_some_row(m, k, x);
    let row = h_row(m, k, ROW_WEIGHT as int, r);
    lemma_h_row_distinct(m, k, ROW_WEIGHT as int, r);
    lemma_xor_cols_flip(bits, row, k + m, x);
    assert(!xor_cols(bits, row, k + m));
    assert(xor_cols(bits.update(x, !bits[x]), row, k + m));
}

proof fn lemma_unpack_concat(a: Seq<u8>, b: Seq<u8>)
    ensures
        unpack_bytes(a + b) == unpack_bytes(a) + unpack_bytes(b),
{
    assert forall|x: int| 0 <= x < unpack_bytes(a + b).len() implies unpack_bytes(a + b)[x] == (unpack_bytes(a) + unpack_bytes(b))[x] by {
        if x >= 8 * a.len() {
            assert((x - 8 * a.len()) / 8 == x / 8 - a.len());
            assert((x - 8 * a.len()) % 8 == x % 8);
        }
    }
    assert(unpack_bytes(a + b) =~= unpack_bytes(a) + unpack_bytes(b));
}

/// Over columns below `k`, a parity limited to `lim >= k` reads the codeword
/// bits, which there are the data bits.
proof fn lemma_xor_cols_agree(cw_bits: Seq<bool>, data_bits: Seq<bool>, cols: Seq<u32>, lim: int, k: int)
    requires
        k <= lim,
        forall|i: int| 0 <= i < cols.len() ==> cols[i] < k,
        k <= data_bits.len(),
        forall|x: int| 0 <= x < k ==> bit_at(cw_bits, x) == bit_at(data_bits, x),
    ensures
        xor_cols(cw_bits, cols, lim) == xor_cols(data_bits, cols, k),
    decreases cols.len(),
{
    if cols.len() > 0 {
        lemma_xor_cols_agree(cw_bits, data_bits, cols.drop_last(), lim, k);
    }
}


/// The bytewise exclusive or of two byte sequences of equal length.
pub open spec fn xor_bytes(a: Seq<u8>, b: Seq<u8>) -> Seq<u8> {
    Seq::new(a.len(), |i: int| a[i] ^ b[i])
}

/// A bit of the exclusive or of two bytes is the exclusive or of their bits.
proof fn lemma_u8_bit_xor(x: u8, y: u8, j: int)
    requires
        0 <= j < 8,
    ensures
        u8_bit(x ^ y, j) == (u8_bit(x, j) != u8_bit(y, j)),
{
    let jj = j as u8;
    assert((((x ^ y) >> jj) & 1 == 1) == (((x >> jj) & 1 == 1) != ((y >> jj) & 1 == 1))) by (bit_vector)
        requires jj < 8;
}

/// The bits of a bytewise exclusive or.
proof fn lemma_unpack_xor(a: Seq<u8>, b: Seq<u8>)
    requires
        a.len() == b.len(),
    ensures
        unpack_bytes(xor_bytes(a, b)).len() == unpack_bytes(a).len(),
        forall|x: int| 0 <= x < unpack_bytes(a).len() ==>
            #[trigger] unpack_bytes(xor_bytes(a, b))[x] == (unpack_bytes(a)[x] != unpack_bytes(b)[x]),
{
    assert forall|x: int| 0 <= x < unpack_bytes(a).len() implies
        #[trigger] unpack_bytes(xor_bytes(a, b))[x] == (unpack_bytes(a)[x] != unpack_bytes(b)[x]) by {
        lemma_u8_bit_xor(a[x / 8], b[x / 8], x % 8);
    }
}

/// The parity of the exclusive or of two bit sequences at a set of columns
/// is the exclusive or of their parities.
proof fn lemma_xor_cols_linear(s: Seq<bool>, t: Seq<bool>, u: Seq<bool>, cols: Seq<u32>, lim: int)
    requires
        u.len() == s.len(),
        t.len() == s.len(),
        forall|x: int| 0 <= x < s.len() ==> #[trigger] u[x] == (s[x] != t[x]),
    ensures
        xor_cols(u, cols, lim) == (xor_cols(s, cols, lim) != xor_cols(t, cols, lim)),
    decreases cols.len(),
{
    if cols.len() > 0 {
        lemma_xor_cols_linear(s, t, u, cols.drop_last(), lim);
        let c = cols.last() as int;
        if 0 <= c < s.len() {
            assert(u[c] == (s[c] != t[c]));
        }
    }
}

/// The codeword of a bytewise exclusive or.
proof fn lemma_codeword_xor(a: Seq<u8>, b: Seq<u8>, k: int, m: int)
    requires
        a.len() == b.len(),
        m >= 0,
    ensures
        codeword_spec(xor_bytes(a, b), k, m) == xor_bytes(codeword_spec(a, k, m), codeword_spec(b, k, m)),
{
    let x = xor_bytes(a, b);
    let (sa, sb, sx) = (unpack_bytes(a), unpack_bytes(b), unpack_bytes(x));
    lemma_unpack_xor(a, b);
    let (pa, pb, px) = (parity_spec(a, k, m), parity_spec(b, k, m), parity_spec(x, k, m));
    assert forall|r: int| 0 <= r < m implies #[trigger] px[r] == (pa[r] != pb[r]) by {
        lemma_xor_cols_linear(sa, sb, sx, h_row(m, k, ROW_WEIGHT as int, r), k);
    }
    // The packed parity bits combine bytewise.
    let q = xor_bytes(pack_bits(pa), pack_bits(pb));
    lemma_unpack_pack(pa);
    lemma_unpack_pack(pb);
    lemma_unpack_xor(pack_bits(pa), pack_bits(pb));
    assert forall|y: int| 0 <= y < 8 * q.len() implies #[trigger] unpack_bytes(q)[y] == (y < px.len() && px[y]) by {
        assert(unpack_bytes(pack_bits(pa))[y] == bit_at(pa, y));
        assert(unpack_bytes(pack_bits(pb))[y] == bit_at(pb, y));
    }
    lemma_pack_unique(q, px);
    let ca = codeword_spec(a, k, m);
    let cb = codeword_spec(b, k, m);
    assert(codeword_spec(x, k, m) =~= xor_bytes(ca, cb)) by {
        assert forall|i: int| 0 <= i < ca.len() implies #[trigger] xor_bytes(ca, cb)[i] == codeword_spec(x, k, m)[i] by {
            if i >= a.len() {
                assert(q[i - a.len()] == pack_bits(pa)[i - a.len()] ^ pack_bits(pb)[i - a.len()]);
            }
        }
    }
}

/// Encoding is linear over GF(2): the codeword of the bytewise exclusive or
/// of two payloads is the exclusive or of their codewords, and the payload
/// of zero bytes encodes to zero bytes.
pub proof fn lemma_encode_linear(a: Seq<u8>, b: Seq<u8>, k: int, m: int)
    requires
        a.len() == b.len(),
        m >= 0,
    ensures
        codeword_spec(xor_bytes(a, b), k, m) == xor_bytes(codeword_spec(a, k, m), codeword_spec(b, k, m)),
        codeword_spec(Seq::new(a.len(), |i: int| 0u8), k, m) == Seq::new(codeword_spec(a, k, m).len(), |i: int| 0u8),
{
    lemma_codeword_xor(a, b, k, m);
    // A payload is its own opposite, so the zero payload encodes to zero.
    let z = Seq::new(a.len(), |i: int| 0u8);
    assert(xor_bytes(z, z) =~= z) by {
        assert forall|i: int| 0 <= i < z.len() implies xor_bytes(z, z)[i] == z[i] by {
            assert(0u8 ^ 0u8 == 0u8) by (bit_vector);
        }
    }
    lemma_codeword_xor(z, z, k, m);
    let cz = codeword_spec(z, k, m);
    assert(cz =~= Seq::new(codeword_spec(a, k, m).len(), |i: int| 0u8)) by {
        assert forall|i: int| 0 <= i < cz.len() implies #[trigger] cz[i] == 0u8 by {
            let v = cz[i];
            assert(xor_bytes(cz, cz)[i] == v ^ v);
            assert(v ^ v == 0u8) by (bit_vector);
        }
    }
}

/// What the column list of `c` holds among the first `j` rows: the rows
/// whose row list holds `c`, ascending, each below `j`.
proof fn lemma_h_col_prefix(m: int, k: int, rw: int, c: int, j: int)
    requires
        0 <= j <= m,
        m <= u32::MAX,
    ensures
        forall|x: int| 0 <= x < h_col_prefix(m, k, rw, c, j).len() ==> (#[trigger] h_col_prefix(m, k, rw, c, j)[x] as int) < j,
        forall|x: int, y: int| 0 <= x < y < h_col_prefix(m, k, rw, c, j).len() ==>
            h_col_prefix(m, k, rw, c, j)[x] < h_col_prefix(m, k, rw, c, j)[y],
        forall|r: int| 0 <= r < j ==> (#[trigger] h_col_prefix(m, k, rw, c, j).contains(r as u32) <==> h_row(m, k, rw, r).contains(c as u32)),
    decreases j,
{
    if j > 0 {
        lemma_h_col_prefix(m, k, rw, c, j - 1);
        let prev = h_col_prefix(m, k, rw, c, j - 1);
        let cur = h_col_prefix(m, k, rw, c, j);
        assert forall|r: int| 0 <= r < j implies (#[trigger] cur.contains(r as u32) <==> h_row(m, k, rw, r).contains(c as u32)) by {
            if cur.contains(r as u32) {
                let x = choose|x: int| 0 <= x < cur.len() && cur[x] == r as u32;
                if x < prev.len() {
                    assert(prev[x] == cur[x]);
                    assert(prev.contains(r as u32));
                }
            }
            if r < j - 1 && prev.contains(r as u32) {
                let x = choose|x: int| 0 <= x < prev.len() && prev[x] == r as u32;
                assert(cur[x] == prev[x]);
            }
            if r == j - 1 && h_row(m, k, rw, r).contains(c as u32) {
                assert(cur[cur.len() - 1] == r as u32);
            }
            if r == j - 1 && prev.contains(r as u32) {
                let x = choose|x: int| 0 <= x < prev.len() && prev[x] == r as u32;
                assert((prev[x] as int) < j - 1);
            }
        }
    }
}

/// The column list of column `k + i` of the identity part holds row `i` alone.
proof fn lemma_h_col_identity(m: int, k: int, rw: int, i: int, j: int)
    requires
        0 <= i < m,
        0 <= j <= m,
        0 <= k,
        k + m <= u32::MAX,
    ensures
        h_col_prefix(m, k, rw, k + i, j) == (if i < j { seq![i as u32] } else { Seq::empty() }),
    decreases j,
{
    if j > 0 {
        lemma_h_col_identity(m, k, rw, i, j - 1);
        let r = j - 1;
        let row = h_row(m, k, rw, r);
        lemma_a_row_prefix_below(m, k, rw, r, k);
        assert(row.contains((k + i) as u32) <==> r == i) by {
            if row.contains((k + i) as u32) {
                let x = choose|x: int| 0 <= x < row.len() && row[x] == (k + i) as u32;
                if x < row.len() - 1 {
                    assert(row[x] == a_row(m, k, rw, r)[x]);
                }
            }
            if r == i {
                assert(row[row.len() - 1] == (k + i) as u32);
            }
        }
    }
}

/// The shape of the parity check matrix H = [A | I_m]: each row lists its
/// columns in increasing order, those of A below `k` and last the column
/// `k + r` of the identity; a column lists exactly the rows that list it,
/// in increasing order; and column `k + i` holds row `i` alone.
pub proof fn lemma_check_matrix_shape(m: int, k: int, rw: int)
    requires
        0 <= k,
        0 <= m,
        k + m <= u32::MAX,
    ensures
        forall|r: int| 0 <= r < m ==> (#[trigger] h_row(m, k, rw, r)).last() == (k + r) as u32,
        forall|r: int, x: int| 0 <= r < m && 0 <= x < h_row(m, k, rw, r).len() - 1 ==> (#[trigger] h_row(m, k, rw, r)[x] as int) < k,
        forall|r: int, x: int, y: int| 0 <= r < m && 0 <= x < y < h_row(m, k, rw, r).len() ==>
            #[trigger] h_row(m, k, rw, r)[x] < #[trigger] h_row(m, k, rw, r)[y],
        forall|r: int, c: int| 0 <= r < m && 0 <= c < k + m ==>
            (#[trigger] h_row(m, k, rw, r).contains(c as u32) <==> #[trigger] h_col(m, k, rw, c).contains(r as u32)),
        forall|c: int, x: int, y: int| 0 <= c < k + m && 0 <= x < y < h_col(m, k, rw, c).len() ==>
            #[trigger] h_col(m, k, rw, c)[x] < #[trigger] h_col(m, k, rw, c)[y],
        forall|i: int| 0 <= i < m ==> #[trigger] h_col(m, k, rw, k + i) == seq![i as u32],
{
    assert forall|r: int, x: int| 0 <= r < m && 0 <= x < h_row(m, k, rw, r).len() - 1 implies (#[trigger] h_row(m, k, rw, r)[x] as int) < k by {
        lemma_a_row_prefix_below(m, k, rw, r, k);
        assert(h_row(m, k, rw, r)[x] == a_row(m, k, rw, r)[x]);
    }
    assert forall|r: int, x: int, y: int| 0 <= r < m && 0 <= x < y < h_row(m, k, rw, r).len() implies
        #[trigger] h_row(m, k, rw, r)[x] < #[trigger] h_row(m, k, rw, r)[y] by {
        lemma_a_row_prefix_below(m, k, rw, r, k);
        lemma_a_row_prefix_increasing(m, k, rw, r, k);
        let a = a_row(m, k, rw, r);
        assert(h_row(m, k, rw, r)[x] == a[x]);
        if y < a.len() {
            assert(h_row(m, k, rw, r)[y] == a[y]);
        }
    }
    assert forall|r: int, c: int| 0 <= r < m && 0 <= c < k + m implies
        (#[trigger] h_row(m, k, rw, r).contains(c as u32) <==> #[trigger] h_col(m, k, rw, c).contains(r as u32)) by {
        lemma_h_col_prefix(m, k, rw, c, m);
    }
    assert forall|c: int, x: int, y: int| 0 <= c < k + m && 0 <= x < y < h_col(m, k, rw, c).len() implies
        #[trigger] h_col(m, k, rw, c)[x] < #[trigger] h_col(m, k, rw, c)[y] by {
        lemma_h_col_prefix(m, k, rw, c, m);
    }
    assert forall|i: int| 0 <= i < m implies #[trigger] h_col(m, k, rw, k + i) == seq![i as u32] by {
        lemma_h_col_identity(m, k, rw, i, m);
    }
}

/// Column `c` walks the rows from `(7c + 3) mod m` with the stride
/// `(11c + 5) mod (m - 1) + 1`: its row at step `t` is
/// `(7c + 3 + t · stride) mod m`.
pub proof fn lemma_column_walk(m: int, c: int, t: nat)
    requires
        m >= 2,
        c >= 0,
    ensures
        visit(m, c, t) == (7 * c + 3 + t * ((11 * c + 5) % (m - 1) + 1)) % m,
    decreases t,
{
    let s = (11 * c + 5) % (m - 1) + 1;
    assert(row_step(m, c) == s);
    if t == 0 {
        assert(t * s == 0) by (nonlinear_arith)
            requires t == 0;
        assert(start_row(m, c) == (7 * c + 3) % m);
    } else {
        lemma_column_walk(m, c, (t - 1) as nat);
        let a = 7 * c + 3 + (t - 1) * s;
        assert(visit(m, c, (t - 1) as nat) == a % m);
        assert(a + s == 7 * c + 3 + t * s) by (nonlinear_arith)
            requires a == 7 * c + 3 + (t - 1) * s;
        assert((a % m + s) % m == (a + s) % m) by {
            vstd::arithmetic::div_mod::lemma_add_mod_noop(a, s, m);
            vstd::arithmetic::div_mod::lemma_mod_twice(a, m);
            vstd::arithmetic::div_mod::lemma_add_mod_noop(a % m, s, m);
            vstd::arithmetic::div_mod::lemma_mod_twice(s, m);
        }
        assert(visit(m, c, t) == (visit(m, c, (t - 1) as nat) + row_step(m, c)) % m);
    }
}

/// Every row a column visits is a row of the matrix.
proof fn lemma_hits_in_range(m: int, c: int, t: nat)
    requires
        m >= 1,
    ensures
        forall|x: int| #[trigger] hits(m, c, t).contains(x) ==> 0 <= x < m,
    decreases t,
{
    if t > 0 {
        lemma_hits_in_range(m, c, (t - 1) as nat);
        let v = visit(m, c, (t - 1) as nat);
        if t - 1 == 0 {
            vstd::arithmetic::div_mod::lemma_mod_bound(c * 7 + 3, m);
        } else {
            vstd::arithmetic::div_mod::lemma_mod_bound(visit(m, c, (t - 2) as nat) + row_step(m, c), m);
        }
        assert(0 <= v < m);
        assert(hits(m, c, t) == hits(m, c, (t - 1) as nat).insert(v));
        assert forall|x: int| #[trigger] hits(m, c, t).contains(x) implies 0 <= x < m by {
            if x != v {
                assert(hits(m, c, (t - 1) as nat).contains(x));
            }
        }
    }
}

/// A finite set of numbers below `n` has `count_set(s, n)` elements.
proof fn lemma_count_set_all(s: Set<int>, n: int)
    requires
        s.finite(),
        n >= 0,
        forall|x: int| #[trigger] s.contains(x) ==> 0 <= x < n,
    ensures
        count_set(s, n) == s.len(),
    decreases n,
{
    if n == 0 {
        assert(s =~= Set::empty());
    } else {
        let t = s.remove(n - 1);
        lemma_count_set_all(t, n - 1);
        lemma_count_set_same(s, t, n - 1);
        if s.contains(n - 1) {
            assert(s =~= t.insert(n - 1));
        } else {
            assert(s =~= t);
        }
    }
}

/// A walk that stops once it has `cw` distinct rows, or after `2m` steps,
/// ends with `min(cw, distinct rows of the full walk)` rows.
proof fn lemma_stop_len(m: int, cw: int, c: int, t: nat)
    requires
        t <= 2 * m,
        hits(m, c, t).len() <= cw,
    ensures
        hits(m, c, stop_from(m, cw, c, t)).len()
            == (if cw <= hits(m, c, (2 * m) as nat).len() { cw } else { hits(m, c, (2 * m) as nat).len() as int }),
    decreases 2 * m - t,
{
    lemma_hits_finite(m, c, (2 * m) as nat);
    lemma_hits_mono(m, c, t, (2 * m) as nat);
    lemma_len_subset(hits(m, c, t), hits(m, c, (2 * m) as nat));
    if !(t >= 2 * m || hits(m, c, t).len() >= cw) {
        lemma_hits_grow(m, c, t);
        lemma_stop_len(m, cw, c, t + 1);
    }
}

/// Each data column of the parity check matrix is set in as many rows as
/// the target weight asks, `ceil(max(rw · m, 1) / k)` kept within 1..=m,
/// or in all the distinct rows its walk reaches within 2m steps if fewer.
pub proof fn lemma_data_column_weight(m: int, k: int, rw: int, c: int)
    requires
        m >= 1,
        0 <= c < k,
        k + m <= u32::MAX,
    ensures ({
        let a = if rw * m >= 1 { rw * m } else { 1 };
        let w = (a + k - 1) / k;
        let w1 = if w >= 1 { w } else { 1 };
        let weight = if w1 <= m { w1 } else { m };
        let reach = hits(m, c, (2 * m) as nat).len() as int;
        h_col(m, k, rw, c).len() == if weight <= reach { weight } else { reach }
    }),
{
    let cw = col_weight_spec(m, k, rw);
    lemma_h_col_prefix_len(m, k, rw, c, m);
    let st = stop_from(m, cw, c, 0);
    lemma_hits_finite(m, c, st);
    lemma_hits_in_range(m, c, st);
    lemma_count_set_all(hits(m, c, st), m);
    assert(hits(m, c, 0) =~= Set::<int>::empty());
    lemma_stop_len(m, cw, c, 0);
}

/// In the check matrix of a codec (row weight 6), data column `c` is set in
/// `ceil(6m / k)` rows kept within 1..=m, or in all the distinct rows its
/// walk reaches within 2m steps if fewer.
pub proof fn lemma_codec_column_weight(m: int, k: int, c: int)
    requires
        m >= 1,
        0 <= c < k,
        k + m <= u32::MAX,
    ensures ({
        let w = (6 * m + k - 1) / k;
        let w1 = if w >= 1 { w } else { 1 };
        let weight = if w1 <= m { w1 } else { m };
        let reach = hits(m, c, (2 * m) as nat).len() as int;
        h_col(m, k, ROW_WEIGHT as int, c).len() == if weight <= reach { weight } else { reach }
    }),
{
    lemma_data_column_weight(m, k, ROW_WEIGHT as int, c);
}
} // verus!
