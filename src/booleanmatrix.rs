//! Boolean matrices with bit-packed storage and boolean-semiring algebra.
//!
//! Cells are addressed with 1-based coordinates: row `i` in `1..=n` and
//! column `j` in `1..=m`. Cell `(i, j)` is bit `(i - 1) * m + (j - 1)` of the
//! packed storage, which lives in word `k / 64` at offset `k % 64`.
#![allow(non_snake_case)]

use vstd::prelude::*;

verus! {

/// Number of bits held by one storage word.
pub const WORD_BITS: usize = 64;

/// Failures reported by matrix operations.
#[derive(Debug, Clone, Copy, PartialEq, Eq, Structural)]
pub enum MatrixError {
    /// The shapes of the operands do not fit the operation.
    DimensionMismatch,
    /// A coordinate lies outside `[1, n] x [1, m]`.
    IndexOutOfRange,
}

/// An `n` by `m` boolean matrix, packed into 64-bit words.
pub struct Matrix {
    pub n: usize,
    pub m: usize,
    bits: Vec<u64>,
}

/// Whether bit `o` of word `w` is set.
pub open spec fn word_bit(w: u64, o: u64) -> bool {
    w & (1u64 << o) != 0
}

/// Bit `k` of a sequence of words.
pub open spec fn flat_bit(bits: Seq<u64>, k: int) -> bool {
    word_bit(bits[k / 64], (k % 64) as u64)
}

/// The least number of words that hold `size` bits.
pub open spec fn words_for(size: int) -> int {
    size / 64 + if size % 64 > 0 { 1int } else { 0int }
}

/// The flat index of 1-based cell `(i, j)` in a matrix with `m` columns.
pub open spec fn flat_index(m: int, i: int, j: int) -> int {
    (i - 1) * m + (j - 1)
}

/// Whether `(i, j)` is a 1-based coordinate of an `n` by `m` matrix.
pub open spec fn in_range(n: int, m: int, i: int, j: int) -> bool {
    1 <= i <= n && 1 <= j <= m
}

proof fn lemma_word_update(w: u64, o: u64, p: u64)
    requires
        o < 64,
        p < 64,
    ensures
        word_bit(w | (1u64 << o), p) == (p == o || word_bit(w, p)),
        word_bit(w & !(1u64 << o), p) == (p != o && word_bit(w, p)),
{
    assert(((w | (1u64 << o)) & (1u64 << p) != 0) == (p == o || (w & (1u64 << p)) != 0))
        by (bit_vector)
        requires
            o < 64,
            p < 64,
    ;
    assert(((w & !(1u64 << o)) & (1u64 << p) != 0) == (p != o && (w & (1u64 << p)) != 0))
        by (bit_vector)
        requires
            o < 64,
            p < 64,
    ;
}

proof fn lemma_zero_word(p: u64)
    requires
        p < 64,
    ensures
        !word_bit(0u64, p),
{
    assert((0u64 & (1u64 << p)) == 0) by (bit_vector);
}

/// Distinct cells have distinct flat indices, and every flat index of a
/// cell lies below `n * m`.
proof fn lemma_flat_index(n: int, m: int, i: int, j: int, a: int, b: int)
    requires
        in_range(n, m, i, j),
        in_range(n, m, a, b),
    ensures
        0 <= flat_index(m, i, j) < n * m,
        flat_index(m, i, j) == flat_index(m, a, b) ==> i == a && j == b,
{
    assert(0 <= (i - 1) * m) by (nonlinear_arith)
        requires
            1 <= i,
            1 <= m,
    ;
    assert((i - 1) * m + (j - 1) < n * m) by (nonlinear_arith)
        requires
            1 <= i <= n,
            1 <= j <= m,
    ;
    if flat_index(m, i, j) == flat_index(m, a, b) {
        assert(i == a && j == b) by (nonlinear_arith)
            requires
                (i - 1) * m + (j - 1) == (a - 1) * m + (b - 1),
                1 <= j <= m,
                1 <= b <= m,
        ;
    }
}

impl Matrix {
    /// Number of rows.
    pub closed spec fn nrows(&self) -> int {
        self.n as int
    }

    /// Number of columns.
    pub closed spec fn ncols(&self) -> int {
        self.m as int
    }

    /// The storage holds exactly the words needed for `n * m` bits.
    pub closed spec fn wf(&self) -> bool {
        &&& self.n * self.m <= usize::MAX
        &&& self.bits@.len() == words_for(self.n * self.m)
    }

    /// The value of 1-based cell `(i, j)`.
    pub closed spec fn cell(&self, i: int, j: int) -> bool {
        flat_bit(self.bits@, flat_index(self.m as int, i, j))
    }

    /// Whether `(i, j)` addresses a cell of this matrix.
    pub open spec fn valid(&self, i: int, j: int) -> bool {
        in_range(self.nrows(), self.ncols(), i, j)
    }

    /// The shape of a well-formed matrix fits the machine.
    pub proof fn lemma_dims(&self)
        requires
            self.wf(),
        ensures
            self.nrows() * self.ncols() <= usize::MAX,
            0 <= self.nrows() <= usize::MAX,
            0 <= self.ncols() <= usize::MAX,
    {
    }

    /// Storage position of a valid cell.
    proof fn lemma_position(&self, i: int, j: int)
        requires
            self.wf(),
            self.valid(i, j),
        ensures
            0 <= flat_index(self.m as int, i, j) / 64 < self.bits@.len(),
    {
        lemma_flat_index(self.n as int, self.m as int, i, j, i, j);
    }

    /// Reads a valid cell.
    fn get_cell(&self, i: usize, j: usize) -> (r: bool)
        requires
            self.wf(),
            self.valid(i as int, j as int),
        ensures
            r == self.cell(i as int, j as int),
    {
        proof {
            self.lemma_position(i as int, j as int);
            lemma_flat_index(self.n as int, self.m as int, i as int, j as int, i as int, j as int);
        }
        let index: usize = (i - 1) * self.m + (j - 1);
        let slot: usize = index / WORD_BITS;
        let bitnumber: u64 = (index % WORD_BITS) as u64;
        let word: u64 = self.bits[slot];
        word & (1u64 << bitnumber) != 0
    }

    /// Writes a valid cell, leaving every other cell as it was.
    fn set_cell(&mut self, i: usize, j: usize, val: bool)
        requires
            old(self).wf(),
            old(self).valid(i as int, j as int),
        ensures
            final(self).wf(),
            final(self).nrows() == old(self).nrows(),
            final(self).ncols() == old(self).ncols(),
            final(self).cell(i as int, j as int) == val,
            forall|a: int, b: int|
                #![trigger final(self).cell(a, b)]
                final(self).valid(a, b) && !(a == i && b == j) ==> final(self).cell(a, b)
                    == old(self).cell(a, b),
    {
        proof {
            self.lemma_position(i as int, j as int);
            lemma_flat_index(self.n as int, self.m as int, i as int, j as int, i as int, j as int);
        }
        let index: usize = (i - 1) * self.m + (j - 1);
        let slot: usize = index / WORD_BITS;
        let bitnumber: u64 = (index % WORD_BITS) as u64;
        let old_word: u64 = self.bits[slot];
        let new_word: u64 = if val {
            old_word | (1u64 << bitnumber)
        } else {
            old_word & !(1u64 << bitnumber)
        };
        self.bits.set(slot, new_word);
        proof {
            let k = index as int;
            assert forall|a: int, b: int|
                #![trigger self.cell(a, b)]
                self.valid(a, b) implies self.cell(a, b) == if a == i && b == j {
                    val
                } else {
                    old(self).cell(a, b)
                } by {
                lemma_flat_index(self.n as int, self.m as int, i as int, j as int, a, b);
                let q = flat_index(self.m as int, a, b);
                old(self).lemma_position(a, b);
                assert(self.bits@ == old(self).bits@.update(slot as int, new_word));
                if q / 64 == k / 64 {
                    lemma_word_update(old_word, bitnumber, (q % 64) as u64);
                    if q % 64 == k % 64 {
                        assert(q == 64 * (q / 64) + q % 64);
                        assert(k == 64 * (k / 64) + k % 64);
                    }
                } else {
                    assert(self.bits@[q / 64] == old(self).bits@[q / 64]);
                }
            }
        }
    }
}

/// `c` is the elementwise OR of `a` and `b`.
pub open spec fn is_sum(a: &Matrix, b: &Matrix, c: &Matrix) -> bool {
    &&& c.wf()
    &&& c.nrows() == a.nrows()
    &&& c.ncols() == a.ncols()
    &&& forall|i: int, j: int|
        #![trigger c.cell(i, j)]
        c.valid(i, j) ==> c.cell(i, j) == (a.cell(i, j) || b.cell(i, j))
}

/// Cell `(i, j)` of the boolean-semiring product of `a` and `b`.
pub open spec fn product_cell(a: &Matrix, b: &Matrix, i: int, j: int) -> bool {
    exists|k: int| 1 <= k <= a.ncols() && #[trigger] a.cell(i, k) && b.cell(k, j)
}

/// `c` is the boolean-semiring product of `a` and `b`.
pub open spec fn is_product(a: &Matrix, b: &Matrix, c: &Matrix) -> bool {
    &&& c.wf()
    &&& c.nrows() == a.nrows()
    &&& c.ncols() == b.ncols()
    &&& forall|i: int, j: int|
        #![trigger c.cell(i, j)]
        c.valid(i, j) ==> c.cell(i, j) == product_cell(a, b, i, j)
}

/// `c` is the transpose of `a`.
pub open spec fn is_transpose(a: &Matrix, c: &Matrix) -> bool {
    &&& c.wf()
    &&& c.nrows() == a.ncols()
    &&& c.ncols() == a.nrows()
    &&& forall|i: int, j: int|
        #![trigger c.cell(i, j)]
        c.valid(i, j) ==> c.cell(i, j) == a.cell(j, i)
}

impl Matrix {
    /// Number of rows.
    pub fn rows(&self) -> (r: usize)
        ensures
            r == self.nrows(),
    {
        self.n
    }

    /// Number of columns.
    pub fn cols(&self) -> (r: usize)
        ensures
            r == self.ncols(),
    {
        self.m
    }

    /// The value at 1-based `(i, j)`, or `IndexOutOfRange` when the
    /// coordinate lies outside the matrix.
    pub fn get(&self, i: usize, j: usize) -> (r: Result<bool, MatrixError>)
        requires
            self.wf(),
        ensures
            self.valid(i as int, j as int) ==> r == Ok::<bool, MatrixError>(
                self.cell(i as int, j as int),
            ),
            !self.valid(i as int, j as int) ==> r == Err::<bool, MatrixError>(
                MatrixError::IndexOutOfRange,
            ),
    {
        if i == 0 || j == 0 || i > self.n || j > self.m {
            return Err(MatrixError::IndexOutOfRange);
        }
        Ok(self.get_cell(i, j))
    }

    /// Overwrites the value at 1-based `(i, j)`; every other cell keeps its
    /// value. Fails with `IndexOutOfRange`, changing nothing, when the
    /// coordinate lies outside the matrix.
    pub fn set(&mut self, i: usize, j: usize, val: bool) -> (r: Result<(), MatrixError>)
        requires
            old(self).wf(),
        ensures
            final(self).wf(),
            final(self).nrows() == old(self).nrows(),
            final(self).ncols() == old(self).ncols(),
            old(self).valid(i as int, j as int) ==> {
                &&& r == Ok::<(), MatrixError>(())
                &&& final(self).cell(i as int, j as int) == val
                &&& forall|a: int, b: int|
                    #![trigger final(self).cell(a, b)]
                    final(self).valid(a, b) && !(a == i && b == j) ==> final(self).cell(a, b)
                        == old(self).cell(a, b)
            },
            !old(self).valid(i as int, j as int) ==> {
                &&& r == Err::<(), MatrixError>(MatrixError::IndexOutOfRange)
                &&& *final(self) == *old(self)
            },
    {
        if i == 0 || j == 0 || i > self.n || j > self.m {
            return Err(MatrixError::IndexOutOfRange);
        }
        self.set_cell(i, j, val);
        Ok(())
    }

    /// The boolean-semiring product `self * B`, of shape `n x B.m`; fails
    /// with `DimensionMismatch` when `self.m != B.n`.
    pub fn multiply(&self, B: Matrix) -> (r: Result<Matrix, MatrixError>)
        requires
            self.wf(),
            B.wf(),
            self.nrows() * B.ncols() <= usize::MAX,
        ensures
            r is Ok <==> self.ncols() == B.nrows(),
            r is Err ==> r == Err::<Matrix, MatrixError>(MatrixError::DimensionMismatch),
            r is Ok ==> is_product(self, &B, &r->Ok_0),
    {
        if self.m != B.n {
            return Err(MatrixError::DimensionMismatch);
        }
        let mut C = NewMatrix(self.n, B.m);
        let mut i: usize = 0;
        while i < self.n
            invariant
                self.wf(),
                B.wf(),
                self.ncols() == B.nrows(),
                C.wf(),
                C.nrows() == self.nrows(),
                C.ncols() == B.ncols(),
                i <= self.nrows(),
                forall|a: int, b: int|
                    #![trigger C.cell(a, b)]
                    C.valid(a, b) && a <= i ==> C.cell(a, b) == product_cell(self, &B, a, b),
            decreases self.nrows() - i,
        {
            let mut j: usize = 0;
            while j < B.m
                invariant
                    self.wf(),
                    B.wf(),
                    self.ncols() == B.nrows(),
                    C.wf(),
                    C.nrows() == self.nrows(),
                    C.ncols() == B.ncols(),
                    i < self.nrows(),
                    j <= B.ncols(),
                    forall|a: int, b: int|
                        #![trigger C.cell(a, b)]
                        C.valid(a, b) && (a <= i || (a == i + 1 && b <= j)) ==> C.cell(a, b)
                            == product_cell(self, &B, a, b),
                decreases B.ncols() - j,
            {
                let mut sum = false;
                let mut k: usize = 0;
                while k < self.m
                    invariant
                        self.wf(),
                        B.wf(),
                        self.ncols() == B.nrows(),
                        i < self.nrows(),
                        j < B.ncols(),
                        k <= self.ncols(),
                        sum == exists|t: int|
                            1 <= t <= k && #[trigger] self.cell(i + 1, t) && B.cell(t, j + 1),
                    decreases self.ncols() - k,
                {
                    let left = self.get_cell(i + 1, k + 1);
                    let right = B.get_cell(k + 1, j + 1);
                    sum = sum || (left && right);
                    k = k + 1;
                }
                C.set_cell(i + 1, j + 1, sum);
                j = j + 1;
            }
            i = i + 1;
        }
        Ok(C)
    }

    /// The elementwise OR `self + B`; fails with `DimensionMismatch` unless
    /// both matrices have the same shape.
    pub fn addition(&self, B: Matrix) -> (r: Result<Matrix, MatrixError>)
        requires
            self.wf(),
            B.wf(),
        ensures
            r is Ok <==> (self.nrows() == B.nrows() && self.ncols() == B.ncols()),
            r is Err ==> r == Err::<Matrix, MatrixError>(MatrixError::DimensionMismatch),
            r is Ok ==> is_sum(self, &B, &r->Ok_0),
    {
        if self.n != B.n || self.m != B.m {
            return Err(MatrixError::DimensionMismatch);
        }
        let mut C = NewMatrix(B.n, B.m);
        let mut i: usize = 0;
        while i < B.n
            invariant
                self.wf(),
                B.wf(),
                self.nrows() == B.nrows(),
                self.ncols() == B.ncols(),
                C.wf(),
                C.nrows() == B.nrows(),
                C.ncols() == B.ncols(),
                i <= B.nrows(),
                forall|a: int, b: int|
                    #![trigger C.cell(a, b)]
                    C.valid(a, b) && a <= i ==> C.cell(a, b) == (self.cell(a, b) || B.cell(a, b)),
            decreases B.nrows() - i,
        {
            let mut j: usize = 0;
            while j < B.m
                invariant
                    self.wf(),
                    B.wf(),
                    self.nrows() == B.nrows(),
                    self.ncols() == B.ncols(),
                    C.wf(),
                    C.nrows() == B.nrows(),
                    C.ncols() == B.ncols(),
                    i < B.nrows(),
                    j <= B.ncols(),
                    forall|a: int, b: int|
                        #![trigger C.cell(a, b)]
                        C.valid(a, b) && (a <= i || (a == i + 1 && b <= j)) ==> C.cell(a, b)
                            == (self.cell(a, b) || B.cell(a, b)),
                decreases B.ncols() - j,
            {
                let v = self.get_cell(i + 1, j + 1) || B.get_cell(i + 1, j + 1);
                C.set_cell(i + 1, j + 1, v);
                j = j + 1;
            }
            i = i + 1;
        }
        Ok(C)
    }

    /// The matrix as text, one row per entry: `'1'` for a set cell and `'0'`
    /// for a clear one.
    pub fn dump(&self) -> (r: Vec<Vec<char>>)
        requires
            self.wf(),
        ensures
            r@.len() == self.nrows(),
            forall|i: int|
                0 <= i < self.nrows() ==> {
                    &&& (#[trigger] r@[i])@.len() == self.ncols()
                    &&& forall|j: int|
                        0 <= j < self.ncols() ==> r@[i]@[j] == if self.cell(i + 1, j + 1) {
                            '1'
                        } else {
                            '0'
                        }
                },
    {
        let mut rows: Vec<Vec<char>> = Vec::new();
        let mut i: usize = 0;
        while i < self.n
            invariant
                self.wf(),
                i <= self.nrows(),
                rows@.len() == i,
                forall|a: int|
                    0 <= a < i ==> {
                        &&& (#[trigger] rows@[a])@.len() == self.ncols()
                        &&& forall|b: int|
                            0 <= b < self.ncols() ==> rows@[a]@[b] == if self.cell(a + 1, b + 1) {
                                '1'
                            } else {
                                '0'
                            }
                    },
            decreases self.nrows() - i,
        {
            let mut row: Vec<char> = Vec::new();
            let mut j: usize = 0;
            while j < self.m
                invariant
                    self.wf(),
                    i < self.nrows(),
                    j <= self.ncols(),
                    row@.len() == j,
                    forall|b: int|
                        0 <= b < j ==> row@[b] == if self.cell(i + 1, b + 1) {
                            '1'
                        } else {
                            '0'
                        },
                decreases self.ncols() - j,
            {
                let c = if self.get_cell(i + 1, j + 1) {
                    '1'
                } else {
                    '0'
                };
                row.push(c);
                j = j + 1;
            }
            rows.push(row);
            i = i + 1;
        }
        rows
    }

    /// The `m x n` matrix whose cell `(j, i)` is cell `(i, j)` of `self`.
    pub fn transpose(&self) -> (r: Matrix)
        requires
            self.wf(),
        ensures
            is_transpose(self, &r),
    {
        proof {
            assert(self.ncols() * self.nrows() == self.nrows() * self.ncols()) by (nonlinear_arith);
            self.lemma_dims();
        }
        let mut C = NewMatrix(self.m, self.n);
        let mut i: usize = 0;
        while i < self.n
            invariant
                self.wf(),
                C.wf(),
                C.nrows() == self.ncols(),
                C.ncols() == self.nrows(),
                i <= self.nrows(),
                forall|a: int, b: int|
                    #![trigger C.cell(a, b)]
                    C.valid(a, b) && b <= i ==> C.cell(a, b) == self.cell(b, a),
            decreases self.nrows() - i,
        {
            let mut j: usize = 0;
            while j < self.m
                invariant
                    self.wf(),
                    C.wf(),
                    C.nrows() == self.ncols(),
                    C.ncols() == self.nrows(),
                    i < self.nrows(),
                    j <= self.ncols(),
                    forall|a: int, b: int|
                        #![trigger C.cell(a, b)]
                        C.valid(a, b) && (b <= i || (b == i + 1 && a <= j)) ==> C.cell(a, b)
                            == self.cell(b, a),
                decreases self.ncols() - j,
            {
                let v = self.get_cell(i + 1, j + 1);
                C.set_cell(j + 1, i + 1, v);
                j = j + 1;
            }
            i = i + 1;
        }
        C
    }
}

/// Addition is commutative: `a + b` and `b + a` have the same shape and
/// agree on every cell, each being the OR of the two operands' cells.
pub proof fn lemma_addition_commutes(a: &Matrix, b: &Matrix, ab: &Matrix, ba: &Matrix)
    requires
        is_sum(a, b, ab),
        is_sum(b, a, ba),
        a.nrows() == b.nrows(),
        a.ncols() == b.ncols(),
    ensures
        ab.nrows() == ba.nrows(),
        ab.ncols() == ba.ncols(),
        forall|i: int, j: int|
            #![trigger ab.cell(i, j)]
            ab.valid(i, j) ==> ab.cell(i, j) == ba.cell(i, j) && ab.cell(i, j) == (a.cell(i, j)
                || b.cell(i, j)),
{
    assert forall|i: int, j: int| #![trigger ab.cell(i, j)] ab.valid(i, j) implies ab.cell(i, j)
        == ba.cell(i, j) by {
        assert(ba.valid(i, j));
        assert(ba.cell(i, j) == (b.cell(i, j) || a.cell(i, j)));
    }
}

/// Transposing twice gives back the original shape and every cell.
pub proof fn lemma_transpose_involutive(a: &Matrix, t: &Matrix, tt: &Matrix)
    requires
        a.wf(),
        is_transpose(a, t),
        is_transpose(t, tt),
    ensures
        tt.nrows() == a.nrows(),
        tt.ncols() == a.ncols(),
        forall|i: int, j: int| #![trigger tt.cell(i, j)] a.valid(i, j) ==> tt.cell(i, j) == a.cell(i, j),
{
    assert forall|i: int, j: int| #![trigger tt.cell(i, j)] a.valid(i, j) implies tt.cell(i, j)
        == a.cell(i, j) by {
        assert(tt.valid(i, j));
        assert(t.valid(j, i));
    }
}

impl Matrix {
    /// Whether the stored shape and storage length are consistent.
    pub fn is_well_formed(&self) -> (r: bool)
        ensures
            r == self.wf(),
    {
        match self.n.checked_mul(self.m) {
            Some(size) => self.bits.len() == getvectorsize(size),
            None => false,
        }
    }
}

/// `A * B` is `A.multiply(B)`. Operands whose shape and storage disagree,
/// or whose product would not fit in memory, give `DimensionMismatch`.
impl std::ops::Mul for Matrix {
    type Output = Result<Matrix, MatrixError>;

    fn mul(self, B: Matrix) -> Result<Matrix, MatrixError> {
        if !self.is_well_formed() || !B.is_well_formed() {
            return Err(MatrixError::DimensionMismatch);
        }
        match self.n.checked_mul(B.m) {
            Some(_) => self.multiply(B),
            None => Err(MatrixError::DimensionMismatch),
        }
    }
}

/// The operator makes no claim beyond that of `multiply`, which states the
/// product exactly.
impl vstd::std_specs::ops::MulSpecImpl for Matrix {
    open spec fn obeys_mul_spec() -> bool {
        false
    }

    open spec fn mul_req(self, rhs: Matrix) -> bool {
        true
    }

    open spec fn mul_spec(self, rhs: Matrix) -> Result<Matrix, MatrixError> {
        Err(MatrixError::DimensionMismatch)
    }
}

/// `A + B` is `A.addition(B)`. Operands whose shape and storage disagree
/// give `DimensionMismatch`.
impl std::ops::Add for Matrix {
    type Output = Result<Matrix, MatrixError>;

    fn add(self, B: Matrix) -> Result<Matrix, MatrixError> {
        if !self.is_well_formed() || !B.is_well_formed() {
            return Err(MatrixError::DimensionMismatch);
        }
        self.addition(B)
    }
}

/// The operator makes no claim beyond that of `addition`, which states the
/// sum exactly.
impl vstd::std_specs::ops::AddSpecImpl for Matrix {
    open spec fn obeys_add_spec() -> bool {
        false
    }

    open spec fn add_req(self, rhs: Matrix) -> bool {
        true
    }

    open spec fn add_spec(self, rhs: Matrix) -> Result<Matrix, MatrixError> {
        Err(MatrixError::DimensionMismatch)
    }
}

/// Number of words needed to hold `size` bits.
fn getvectorsize(size: usize) -> (r: usize)
    ensures
        r == words_for(size as int),
{
    let bitsize: usize = WORD_BITS;
    let slots: usize = (size / bitsize) + if size % bitsize > 0 {
        1usize
    } else {
        0usize
    };
    slots
}

/// A zero-filled matrix with `n` rows and `m` columns.
pub fn NewMatrix(n: usize, m: usize) -> (r: Matrix)
    requires
        n * m <= usize::MAX,
    ensures
        r.wf(),
        r.nrows() == n,
        r.ncols() == m,
        forall|i: int, j: int| #![trigger r.cell(i, j)] r.valid(i, j) ==> !r.cell(i, j),
{
    let size = getvectorsize(n * m);
    let mut avector: Vec<u64> = Vec::new();
    avector.resize(size, 0u64);
    let A = Matrix { n, m, bits: avector };
    proof {
        assert forall|i: int, j: int| #![trigger A.cell(i, j)] A.valid(i, j) implies !A.cell(i, j) by {
            A.lemma_position(i, j);
            let q = flat_index(m as int, i, j);
            lemma_flat_index(n as int, m as int, i, j, i, j);
            lemma_zero_word((q % 64) as u64);
        }
    }
    A
}

} // verus!
