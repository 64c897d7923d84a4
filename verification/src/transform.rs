//! Exact homogeneous transforms.
//!
//! A [`Transform`] is a 4x4 matrix in row-major order whose entries are
//! integers in fixed units.  An entry is *finite* when its magnitude is at
//! most [`ENTRY_LIMIT`]; composition is exact integer matrix
//! multiplication and reports [`crate::Error::NonFiniteTransform`] when a
//! derived entry leaves the finite range, in place of a floating-point
//! overflow to infinity.
use vstd::prelude::*;

verus! {

/// Largest magnitude a finite transform entry may have.  Products of two
/// finite matrices are then computed without 128-bit overflow.
pub const ENTRY_LIMIT: i64 = 0x4000_0000_0000_0000;

/// A 4x4 homogeneous matrix, row-major, with exact integer entries.
#[derive(Debug, Clone)]
pub struct Transform {
    pub entries: Vec<i64>,
}

/// The derived world-space transform of an entity has the same
/// representation as the local transform it is composed from.
pub type GlobalTransform = Transform;

/// The row-major product entry at (`row`, `col`) of two 16-entry matrices.
pub open spec fn prod_entry(a: Seq<int>, b: Seq<int>, row: int, col: int) -> int {
    a[4 * row + 0] * b[0 + col] + a[4 * row + 1] * b[4 + col] + a[4 * row + 2] * b[8 + col]
        + a[4 * row + 3] * b[12 + col]
}

/// The full row-major product of two 16-entry matrices.
pub open spec fn mat_prod(a: Seq<int>, b: Seq<int>) -> Seq<int> {
    Seq::new(16, |k: int| prod_entry(a, b, k / 4, k % 4))
}

/// True when every entry of the mathematical product is finite.
pub open spec fn prod_in_range(a: Seq<int>, b: Seq<int>) -> bool {
    forall|k: int| 0 <= k < 16 ==> -ENTRY_LIMIT <= #[trigger] mat_prod(a, b)[k] <= ENTRY_LIMIT
}

/// True when every entry of a 16-entry integer matrix is finite.
pub open spec fn in_finite_range(s: Seq<int>) -> bool {
    forall|k: int| 0 <= k < 16 ==> -ENTRY_LIMIT <= #[trigger] s[k] <= ENTRY_LIMIT
}

/// The entries of the 4x4 identity.
pub open spec fn identity_entries() -> Seq<int> {
    Seq::new(16, |k: int| if k / 4 == k % 4 { 1int } else { 0int })
}

/// The entries of a pure translation by (`x`, `y`, `z`).
pub open spec fn translation_entries(x: i64, y: i64, z: i64) -> Seq<int> {
    identity_entries().update(3, x as int).update(7, y as int).update(11, z as int)
}

proof fn lemma_product_bound(a: i64, b: i64)
    requires
        -ENTRY_LIMIT <= a <= ENTRY_LIMIT,
        -ENTRY_LIMIT <= b <= ENTRY_LIMIT,
    ensures
        -(0x4000_0000_0000_0000i128 * 0x4000_0000_0000_0000i128) <= a * b
            <= 0x4000_0000_0000_0000i128 * 0x4000_0000_0000_0000i128,
{
    assert(-(0x4000_0000_0000_0000 * 0x4000_0000_0000_0000) <= (a as int) * (b as int)
        <= 0x4000_0000_0000_0000 * 0x4000_0000_0000_0000) by (nonlinear_arith)
        requires
            -0x4000_0000_0000_0000 <= a as int <= 0x4000_0000_0000_0000,
            -0x4000_0000_0000_0000 <= b as int <= 0x4000_0000_0000_0000;
}

impl Transform {
    /// Sixteen entries, row-major.
    pub open spec fn wf(&self) -> bool {
        self.entries@.len() == 16
    }

    /// The matrix as a sequence of mathematical integers.
    pub open spec fn view_entries(&self) -> Seq<int> {
        self.entries@.map_values(|v: i64| v as int)
    }

    /// Every entry within the finite range.
    pub open spec fn is_finite_spec(&self) -> bool {
        forall|k: int| 0 <= k < self.entries@.len()
            ==> -ENTRY_LIMIT <= #[trigger] self.entries@[k] <= ENTRY_LIMIT
    }

    /// Builds a transform from raw row-major entries; reports
    /// `NonFiniteTransform` when the shape is wrong or an entry is outside
    /// the finite range, leaving nothing constructed.
    pub fn from_entries(entries: Vec<i64>) -> (r: Result<Transform, crate::Error>)
        ensures
            match r {
                Ok(t) => {
                    &&& t.wf()
                    &&& t.is_finite_spec()
                    &&& t.entries@ == entries@
                },
                Err(e) => {
                    &&& e == crate::Error::NonFiniteTransform
                    &&& !(entries@.len() == 16 && forall|k: int| 0 <= k < entries@.len()
                        ==> -ENTRY_LIMIT <= #[trigger] entries@[k] <= ENTRY_LIMIT)
                },
            },
            r is Ok <==> (entries@.len() == 16 && forall|k: int| 0 <= k < entries@.len()
                ==> -ENTRY_LIMIT <= #[trigger] entries@[k] <= ENTRY_LIMIT),
    {
        if entries.len() != 16 {
            return Err(crate::Error::NonFiniteTransform);
        }
        let mut k: usize = 0;
        while k < entries.len()
            invariant
                entries@.len() == 16,
                k <= 16,
                forall|j: int| 0 <= j < k ==> -ENTRY_LIMIT <= #[trigger] entries@[j] <= ENTRY_LIMIT,
            decreases 16 - k,
        {
            let v = entries[k];
            if v > ENTRY_LIMIT || v < -ENTRY_LIMIT {
                return Err(crate::Error::NonFiniteTransform);
            }
            k = k + 1;
        }
        Ok(Transform { entries })
    }

    /// The identity transform.
    pub fn identity() -> (r: Transform)
        ensures
            r.wf(),
            r.is_finite_spec(),
            r.view_entries() == identity_entries(),
    {
        let entries: Vec<i64> = vec![
            1, 0, 0, 0,
            0, 1, 0, 0,
            0, 0, 1, 0,
            0, 0, 0, 1,
        ];
        let t = Transform { entries };
        proof {
            assert(t.view_entries() =~= identity_entries());
        }
        t
    }

    /// A pure translation by (`x`, `y`, `z`).
    pub fn translation(x: i64, y: i64, z: i64) -> (r: Transform)
        requires
            -ENTRY_LIMIT <= x <= ENTRY_LIMIT,
            -ENTRY_LIMIT <= y <= ENTRY_LIMIT,
            -ENTRY_LIMIT <= z <= ENTRY_LIMIT,
        ensures
            r.wf(),
            r.is_finite_spec(),
            r.view_entries() == translation_entries(x, y, z),
    {
        let entries: Vec<i64> = vec![
            1, 0, 0, x,
            0, 1, 0, y,
            0, 0, 1, z,
            0, 0, 0, 1,
        ];
        let t = Transform { entries };
        proof {
            assert(t.view_entries() =~= translation_entries(x, y, z));
        }
        t
    }

    /// An entry-for-entry copy.
    pub fn duplicate(&self) -> (r: Transform)
        ensures
            r.entries@ == self.entries@,
    {
        let mut out: Vec<i64> = Vec::new();
        let mut k: usize = 0;
        while k < self.entries.len()
            invariant
                k <= self.entries@.len(),
                out@ == self.entries@.subrange(0, k as int),
            decreases self.entries@.len() - k,
        {
            out.push(self.entries[k]);
            proof {
                assert(self.entries@.subrange(0, k as int).push(self.entries@[k as int])
                    =~= self.entries@.subrange(0, k + 1));
            }
            k = k + 1;
        }
        proof {
            assert(self.entries@.subrange(0, self.entries@.len() as int) =~= self.entries@);
        }
        Transform { entries: out }
    }

    /// True when every entry is within the finite range.
    pub fn is_finite(&self) -> (r: bool)
        ensures
            r == self.is_finite_spec(),
    {
        let mut k: usize = 0;
        while k < self.entries.len()
            invariant
                k <= self.entries@.len(),
                forall|j: int| 0 <= j < k ==> -ENTRY_LIMIT <= #[trigger] self.entries@[j] <= ENTRY_LIMIT,
            decreases self.entries@.len() - k,
        {
            let v = self.entries[k];
            if v > ENTRY_LIMIT || v < -ENTRY_LIMIT {
                return false;
            }
            k = k + 1;
        }
        true
    }

    /// Entry at (`row`, `col`).
    pub fn entry(&self, row: usize, col: usize) -> (r: i64)
        requires
            self.wf(),
            row < 4,
            col < 4,
        ensures
            r == self.entries@[4 * row + col],
    {
        self.entries[4 * row + col]
    }

    /// The exact matrix product `self * other`, the composition applying
    /// `other` first.  Reports `NonFiniteTransform` exactly when some
    /// entry of the product is outside the finite range.
    pub fn multiply(&self, other: &Transform) -> (r: Result<Transform, crate::Error>)
        requires
            self.wf(),
            other.wf(),
            self.is_finite_spec(),
            other.is_finite_spec(),
        ensures
            match r {
                Ok(t) => {
                    &&& t.wf()
                    &&& t.is_finite_spec()
                    &&& t.view_entries() == mat_prod(self.view_entries(), other.view_entries())
                },
                Err(e) => e == crate::Error::NonFiniteTransform,
            },
            r is Ok <==> prod_in_range(self.view_entries(), other.view_entries()),
    {
        let mut out: Vec<i64> = Vec::new();
        let mut k: usize = 0;
        while k < 16
            invariant
                self.wf(),
                other.wf(),
                self.is_finite_spec(),
                other.is_finite_spec(),
                k <= 16,
                out@.len() == k,
                forall|j: int| 0 <= j < k
                    ==> #[trigger] out@[j] == mat_prod(self.view_entries(), other.view_entries())[j],
                forall|j: int| 0 <= j < k ==> -ENTRY_LIMIT <= #[trigger] out@[j] <= ENTRY_LIMIT,
            decreases 16 - k,
        {
            let row = k / 4;
            let col = k % 4;
            let a = &self.entries;
            let b = &other.entries;
            proof {
                lemma_product_bound(a@[4 * row as int + 0], b@[0 + col as int]);
                lemma_product_bound(a@[4 * row as int + 1], b@[4 + col as int]);
                lemma_product_bound(a@[4 * row as int + 2], b@[8 + col as int]);
                lemma_product_bound(a@[4 * row as int + 3], b@[12 + col as int]);
            }
            let acc: i128 = (a[4 * row + 0] as i128) * (b[0 + col] as i128)
                + (a[4 * row + 1] as i128) * (b[4 + col] as i128)
                + (a[4 * row + 2] as i128) * (b[8 + col] as i128)
                + (a[4 * row + 3] as i128) * (b[12 + col] as i128);
            proof {
                assert(self.view_entries()[4 * row as int + 0] == a@[4 * row as int + 0] as int);
                assert(self.view_entries()[4 * row as int + 1] == a@[4 * row as int + 1] as int);
                assert(self.view_entries()[4 * row as int + 2] == a@[4 * row as int + 2] as int);
                assert(self.view_entries()[4 * row as int + 3] == a@[4 * row as int + 3] as int);
                assert(other.view_entries()[0 + col as int] == b@[0 + col as int] as int);
                assert(other.view_entries()[4 + col as int] == b@[4 + col as int] as int);
                assert(other.view_entries()[8 + col as int] == b@[8 + col as int] as int);
                assert(other.view_entries()[12 + col as int] == b@[12 + col as int] as int);
            }
            if acc > ENTRY_LIMIT as i128 || acc < -(ENTRY_LIMIT as i128) {
                proof {
                    assert(mat_prod(self.view_entries(), other.view_entries())[k as int]
                        == prod_entry(self.view_entries(), other.view_entries(), k as int / 4, k as int % 4));
                    assert(!prod_in_range(self.view_entries(), other.view_entries()));
                }
                return Err(crate::Error::NonFiniteTransform);
            }
            proof {
                assert(mat_prod(self.view_entries(), other.view_entries())[k as int]
                    == prod_entry(self.view_entries(), other.view_entries(), k as int / 4, k as int % 4));
            }
            out.push(acc as i64);
            k = k + 1;
        }
        let t = Transform { entries: out };
        proof {
            assert(t.view_entries() =~= mat_prod(self.view_entries(), other.view_entries()));
            assert forall|j: int| 0 <= j < 16 implies -ENTRY_LIMIT
                <= #[trigger] mat_prod(self.view_entries(), other.view_entries())[j] <= ENTRY_LIMIT by {
                assert(mat_prod(self.view_entries(), other.view_entries())[j] == t.entries@[j]);
            }
        }
        Ok(t)
    }
}

} // verus!
