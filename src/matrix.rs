use vstd::prelude::*;
use crate::element::{add_mod, mul_mod, sub_mod, Element};

verus! {

/// Each row is a sequence of `cols` entries; there are `rows` of them.
pub open spec fn is_grid(m: Seq<Seq<Element>>, rows: nat, cols: nat) -> bool {
    &&& m.len() == rows
    &&& forall|i: int| 0 <= i < rows ==> #[trigger] m[i].len() == cols
}

/// The two grids have the same number of rows, and rows of equal index have
/// equal length.
pub open spec fn same_shape(a: Seq<Seq<Element>>, b: Seq<Seq<Element>>) -> bool {
    &&& a.len() == b.len()
    &&& forall|i: int| 0 <= i < a.len() ==> #[trigger] a[i].len() == b[i].len()
}

/// Every entry is a proper element of `Z/qZ`.
pub open spec fn entries_mod(m: Seq<Seq<Element>>, q: u64) -> bool {
    forall|i: int, j: int|
        0 <= i < m.len() && 0 <= j < m[i].len() ==> (#[trigger] m[i][j]).wf() && m[i][j].q == q
}

/// Every element of `v` is a proper element of `Z/qZ`.
pub open spec fn all_mod(v: Seq<Element>, q: u64) -> bool {
    forall|j: int| 0 <= j < v.len() ==> (#[trigger] v[j]).wf() && v[j].q == q
}

/// The entrywise sum of two grids of one shape.
pub open spec fn grid_add(a: Seq<Seq<Element>>, b: Seq<Seq<Element>>) -> Seq<Seq<Element>> {
    Seq::new(a.len(), |i: int| Seq::new(a[i].len(), |j: int| add_mod(a[i][j], b[i][j])))
}

/// The entrywise difference of two grids of one shape.
pub open spec fn grid_sub(a: Seq<Seq<Element>>, b: Seq<Seq<Element>>) -> Seq<Seq<Element>> {
    Seq::new(a.len(), |i: int| Seq::new(a[i].len(), |j: int| sub_mod(a[i][j], b[i][j])))
}

/// Every entry multiplied by the scalar `s`.
pub open spec fn grid_scale(a: Seq<Seq<Element>>, s: Element) -> Seq<Seq<Element>> {
    Seq::new(a.len(), |i: int| Seq::new(a[i].len(), |j: int| mul_mod(a[i][j], s)))
}

/// `sum_{j < k} a[j] * b[j]` over the integers.
pub open spec fn dot_prefix(a: Seq<Element>, b: Seq<Element>, k: nat) -> int
    decreases k,
{
    if k == 0 {
        0
    } else {
        dot_prefix(a, b, (k - 1) as nat) + a[k - 1].uint * b[k - 1].uint
    }
}

/// The dot product of `a` and `b` over the integers.
pub open spec fn dot(a: Seq<Element>, b: Seq<Element>) -> int {
    dot_prefix(a, b, a.len())
}

/// A rectangular grid of ring elements, stored row by row.
#[derive(Debug, Clone, PartialEq)]
pub struct Matrix {
    pub rows: Vec<Vec<Element>>,
}

impl View for Matrix {
    type V = Seq<Seq<Element>>;

    open spec fn view(&self) -> Seq<Seq<Element>> {
        self.rows@.map_values(|r: Vec<Element>| r@)
    }
}

fn copy_row(row: &Vec<Element>) -> (r: Vec<Element>)
    ensures
        r@ == row@,
{
    let mut r: Vec<Element> = Vec::new();
    let mut j: usize = 0;
    while j < row.len()
        invariant
            j <= row.len(),
            r@ == row@.subrange(0, j as int),
        decreases row.len() - j,
    {
        r.push(row[j]);
        j = j + 1;
        assert(r@ =~= row@.subrange(0, j as int));
    }
    assert(row@.subrange(0, row.len() as int) =~= row@);
    r
}

impl Matrix {
    /// The matrix whose rows are `rows`.
    pub fn from(rows: &Vec<Vec<Element>>) -> (r: Matrix)
        ensures
            r@ == rows@.map_values(|v: Vec<Element>| v@),
    {
        let mut out: Vec<Vec<Element>> = Vec::new();
        let mut i: usize = 0;
        while i < rows.len()
            invariant
                i <= rows.len(),
                out@.len() == i,
                forall|k: int| 0 <= k < i ==> (#[trigger] out@[k])@ == rows@[k]@,
            decreases rows.len() - i,
        {
            out.push(copy_row(&rows[i]));
            i = i + 1;
        }
        let r = Matrix { rows: out };
        assert(r@ =~= rows@.map_values(|v: Vec<Element>| v@));
        r
    }

    /// The 1 x 1 matrix that holds `e`.
    pub fn from_single(e: &Element) -> (r: Matrix)
        ensures
            r@ == seq![seq![*e]],
    {
        let mut row: Vec<Element> = Vec::new();
        row.push(*e);
        let mut rows: Vec<Vec<Element>> = Vec::new();
        rows.push(row);
        let r = Matrix { rows };
        assert(r@[0] =~= seq![*e]);
        assert(r@ =~= seq![seq![*e]]);
        r
    }

    /// The `rows` x `cols` matrix of zeros of `Z/qZ`.
    pub fn zeros(q: u64, rows: usize, cols: usize) -> (r: Matrix)
        ensures
            is_grid(r@, rows as nat, cols as nat),
            forall|i: int, j: int| 0 <= i < rows && 0 <= j < cols ==> #[trigger] r@[i][j] == Element::zero_spec(q),
    {
        let mut out: Vec<Vec<Element>> = Vec::new();
        let mut i: usize = 0;
        while i < rows
            invariant
                i <= rows,
                out@.len() == i,
                forall|k: int| 0 <= k < i ==> (#[trigger] out@[k])@ == Seq::new(cols as nat, |j: int| Element::zero_spec(q)),
            decreases rows - i,
        {
            let mut row: Vec<Element> = Vec::new();
            let mut j: usize = 0;
            while j < cols
                invariant
                    j <= cols,
                    row@ == Seq::new(j as nat, |c: int| Element::zero_spec(q)),
                decreases cols - j,
            {
                row.push(Element::zero(q));
                j = j + 1;
                assert(row@ =~= Seq::new(j as nat, |c: int| Element::zero_spec(q)));
            }
            out.push(row);
            i = i + 1;
        }
        Matrix { rows: out }
    }

    pub fn num_rows(&self) -> (r: usize)
        ensures
            r == self@.len(),
    {
        self.rows.len()
    }

    /// The length of the first row; zero when there are no rows.
    pub fn num_cols(&self) -> (r: usize)
        ensures
            self@.len() == 0 ==> r == 0,
            self@.len() > 0 ==> r == self@[0].len(),
    {
        if self.rows.len() == 0 {
            0
        } else {
            self.rows[0].len()
        }
    }

    pub fn get(&self, i: usize, j: usize) -> (r: Element)
        requires
            i < self@.len(),
            j < self@[i as int].len(),
        ensures
            r == self@[i as int][j as int],
    {
        self.rows[i][j]
    }

    /// A copy with the same entries.
    pub fn duplicate(&self) -> (r: Matrix)
        ensures
            r@ == self@,
    {
        let r = Matrix::from(&self.rows);
        assert(r@ =~= self@);
        r
    }

    /// The entrywise sum `self + other`.
    pub fn add(&self, other: &Matrix, q: u64) -> (r: Matrix)
        requires
            same_shape(self@, other@),
            entries_mod(self@, q),
            entries_mod(other@, q),
        ensures
            r@ == grid_add(self@, other@),
            entries_mod(r@, q),
    {
        let mut out: Vec<Vec<Element>> = Vec::new();
        let mut i: usize = 0;
        while i < self.rows.len()
            invariant
                i <= self@.len(),
                out@.len() == i,
                same_shape(self@, other@),
                entries_mod(self@, q),
                entries_mod(other@, q),
                forall|k: int| 0 <= k < i ==> (#[trigger] out@[k])@ == grid_add(self@, other@)[k],
            decreases self@.len() - i,
        {
            let a = &self.rows[i];
            let b = &other.rows[i];
            assert(a@ == self@[i as int]);
            assert(b@ == other@[i as int]);
            let mut row: Vec<Element> = Vec::new();
            let mut j: usize = 0;
            while j < a.len()
                invariant
                    j <= a@.len(),
                    a@.len() == b@.len(),
                    a@ == self@[i as int],
                    b@ == other@[i as int],
                    0 <= i < self@.len(),
                    same_shape(self@, other@),
                    entries_mod(self@, q),
                    entries_mod(other@, q),
                    row@ == grid_add(self@, other@)[i as int].subrange(0, j as int),
                decreases a@.len() - j,
            {
                assert(self@[i as int][j as int].wf() && other@[i as int][j as int].wf());
                row.push(a[j] + b[j]);
                j = j + 1;
                assert(row@ =~= grid_add(self@, other@)[i as int].subrange(0, j as int));
            }
            assert(row@ =~= grid_add(self@, other@)[i as int]);
            out.push(row);
            i = i + 1;
        }
        let r = Matrix { rows: out };
        assert(r@ =~= grid_add(self@, other@));
        r
    }

    /// The entrywise difference `self - other`, each entry wrapping in `[0, q)`.
    pub fn sub(&self, other: &Matrix, q: u64) -> (r: Matrix)
        requires
            same_shape(self@, other@),
            entries_mod(self@, q),
            entries_mod(other@, q),
        ensures
            r@ == grid_sub(self@, other@),
            entries_mod(r@, q),
    {
        let mut out: Vec<Vec<Element>> = Vec::new();
        let mut i: usize = 0;
        while i < self.rows.len()
            invariant
                i <= self@.len(),
                out@.len() == i,
                same_shape(self@, other@),
                entries_mod(self@, q),
                entries_mod(other@, q),
                forall|k: int| 0 <= k < i ==> (#[trigger] out@[k])@ == grid_sub(self@, other@)[k],
            decreases self@.len() - i,
        {
            let a = &self.rows[i];
            let b = &other.rows[i];
            assert(a@ == self@[i as int]);
            assert(b@ == other@[i as int]);
            let mut row: Vec<Element> = Vec::new();
            let mut j: usize = 0;
            while j < a.len()
                invariant
                    j <= a@.len(),
                    a@.len() == b@.len(),
                    a@ == self@[i as int],
                    b@ == other@[i as int],
                    0 <= i < self@.len(),
                    same_shape(self@, other@),
                    entries_mod(self@, q),
                    entries_mod(other@, q),
                    row@ == grid_sub(self@, other@)[i as int].subrange(0, j as int),
                decreases a@.len() - j,
            {
                assert(self@[i as int][j as int].wf() && other@[i as int][j as int].wf());
                row.push(a[j] - b[j]);
                j = j + 1;
                assert(row@ =~= grid_sub(self@, other@)[i as int].subrange(0, j as int));
            }
            assert(row@ =~= grid_sub(self@, other@)[i as int]);
            out.push(row);
            i = i + 1;
        }
        let r = Matrix { rows: out };
        assert(r@ =~= grid_sub(self@, other@));
        r
    }

    /// Every entry multiplied by the scalar `s`.
    pub fn scale(&self, s: Element) -> (r: Matrix)
        requires
            entries_mod(self@, s.q),
            s.wf(),
        ensures
            r@ == grid_scale(self@, s),
            entries_mod(r@, s.q),
    {
        let mut out: Vec<Vec<Element>> = Vec::new();
        let mut i: usize = 0;
        while i < self.rows.len()
            invariant
                i <= self@.len(),
                out@.len() == i,
                s.wf(),
                entries_mod(self@, s.q),
                forall|k: int| 0 <= k < i ==> (#[trigger] out@[k])@ == grid_scale(self@, s)[k],
            decreases self@.len() - i,
        {
            let a = &self.rows[i];
            assert(a@ == self@[i as int]);
            let mut row: Vec<Element> = Vec::new();
            let mut j: usize = 0;
            while j < a.len()
                invariant
                    j <= a@.len(),
                    a@ == self@[i as int],
                    0 <= i < self@.len(),
                    s.wf(),
                    entries_mod(self@, s.q),
                    row@ == grid_scale(self@, s)[i as int].subrange(0, j as int),
                decreases a@.len() - j,
            {
                assert(self@[i as int][j as int].wf());
                row.push(a[j] * s);
                j = j + 1;
                assert(row@ =~= grid_scale(self@, s)[i as int].subrange(0, j as int));
            }
            assert(row@ =~= grid_scale(self@, s)[i as int]);
            out.push(row);
            i = i + 1;
        }
        let r = Matrix { rows: out };
        assert(r@ =~= grid_scale(self@, s));
        r
    }

    /// Adds `other` into `self`, entry by entry.
    pub fn add_assign(&mut self, other: &Matrix, q: u64)
        requires
            same_shape(old(self)@, other@),
            entries_mod(old(self)@, q),
            entries_mod(other@, q),
        ensures
            final(self)@ == grid_add(old(self)@, other@),
            entries_mod(final(self)@, q),
    {
        *self = self.add(other, q);
    }

    /// The column `self * v`: entry `i` is the dot product of row `i` and `v`,
    /// reduced modulo `q`.
    pub fn mul_vec(&self, v: &Vec<Element>, q: u64) -> (r: Vec<Element>)
        requires
            0 < q < u64::MAX,
            entries_mod(self@, q),
            all_mod(v@, q),
            forall|i: int| 0 <= i < self@.len() ==> (#[trigger] self@[i]).len() == v@.len(),
        ensures
            r@.len() == self@.len(),
            forall|i: int| 0 <= i < self@.len() ==> (#[trigger] r@[i]) == (Element {
                q,
                uint: (dot(self@[i], v@) % (q as int)) as u64,
            }),
            all_mod(r@, q),
    {
        let mut out: Vec<Element> = Vec::new();
        let mut i: usize = 0;
        while i < self.rows.len()
            invariant
                i <= self@.len(),
                out@.len() == i,
                0 < q < u64::MAX,
                entries_mod(self@, q),
                all_mod(v@, q),
                forall|k: int| 0 <= k < self@.len() ==> (#[trigger] self@[k]).len() == v@.len(),
                forall|k: int| 0 <= k < i ==> (#[trigger] out@[k]) == (Element {
                    q,
                    uint: (dot(self@[k], v@) % (q as int)) as u64,
                }),
                all_mod(out@, q),
            decreases self@.len() - i,
        {
            let row = &self.rows[i];
            assert(row@ == self@[i as int]);
            let mut acc = Element::zero(q);
            let mut j: usize = 0;
            while j < row.len()
                invariant
                    j <= row@.len(),
                    row@ == self@[i as int],
                    row@.len() == v@.len(),
                    0 <= i < self@.len(),
                    0 < q < u64::MAX,
                    entries_mod(self@, q),
                    all_mod(v@, q),
                    acc.wf(),
                    acc.q == q,
                    acc.uint == dot_prefix(row@, v@, j as nat) % (q as int),
                decreases row@.len() - j,
            {
                assert(self@[i as int][j as int].wf() && v@[j as int].wf());
                let prod = row[j] * v[j];
                proof {
                    vstd::arithmetic::div_mod::lemma_add_mod_noop(
                        dot_prefix(row@, v@, j as nat),
                        row@[j as int].uint * v@[j as int].uint,
                        q as int,
                    );
                }
                acc = acc + prod;
                j = j + 1;
            }
            out.push(acc);
            i = i + 1;
        }
        out
    }
}

} // verus!
