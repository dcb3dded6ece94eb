//! The fixed transform matrices used for color space conversion, each paired
//! with its precomputed exact inverse.  Rather than inverting numerically at
//! call time — which lets error creep in even on operations that should
//! change nothing, such as converting to an illuminant and back — every
//! matrix is stored with its adjugate and determinant, computed once and
//! proved to satisfy the inverse identity, so inversion is exact by
//! construction.  A matrix that fails to invert is a corrupted constant, a
//! configuration defect surfaced at construction, never a per-call error.

use vstd::prelude::*;

verus! {

/// The largest magnitude a matrix entry may carry, which keeps every
/// cofactor product within its carrier type.
pub const MAT_ENTRY_MAX: i64 = 100_000_000;

/// A 3-by-3 integer matrix; the entries of row `i` are `e<i>0..e<i>2`.  Real
/// entries are represented at a per-matrix decimal scale.
#[derive(Clone, Copy, Debug, PartialEq, Eq, Structural)]
pub struct Mat3 {
    pub e00: i64,
    pub e01: i64,
    pub e02: i64,
    pub e10: i64,
    pub e11: i64,
    pub e12: i64,
    pub e20: i64,
    pub e21: i64,
    pub e22: i64,
}

impl Mat3 {
    /// All entries within the cofactor-safe range.
    pub open spec fn bounded(self) -> bool {
        -MAT_ENTRY_MAX <= self.e00 <= MAT_ENTRY_MAX && -MAT_ENTRY_MAX <= self.e01 <= MAT_ENTRY_MAX
            && -MAT_ENTRY_MAX <= self.e02 <= MAT_ENTRY_MAX && -MAT_ENTRY_MAX <= self.e10
            <= MAT_ENTRY_MAX && -MAT_ENTRY_MAX <= self.e11 <= MAT_ENTRY_MAX && -MAT_ENTRY_MAX
            <= self.e12 <= MAT_ENTRY_MAX && -MAT_ENTRY_MAX <= self.e20 <= MAT_ENTRY_MAX
            && -MAT_ENTRY_MAX <= self.e21 <= MAT_ENTRY_MAX && -MAT_ENTRY_MAX <= self.e22
            <= MAT_ENTRY_MAX
    }
}

/// A transform matrix together with its exact algebraic inverse: the
/// adjugate over the determinant.  Well-formedness carries the inverse
/// identity itself, so every consumer knows the pair inverts exactly.
#[derive(Clone, Copy, Debug, PartialEq, Eq, Structural)]
pub struct MatrixPair {
    /// The forward matrix.
    pub m: Mat3,
    /// Its adjugate: the inverse times the determinant, exactly.
    pub adj: Mat3,
    /// Its determinant, at the cubed entry scale; positive by
    /// normalization.
    pub det: i128,
    /// The decimal scale of the forward entries: an entry `e` stands for
    /// the real number `e / scale`.
    pub scale: i64,
}

impl MatrixPair {
    /// The pair is exact: the matrix times its adjugate, and the adjugate
    /// times the matrix, are the determinant times the identity, and the
    /// determinant is not zero.
    pub open spec fn wf(self) -> bool {
        let m = self.m;
        let a = self.adj;
        let d = self.det as int;
        &&& self.det > 0
        &&& self.scale >= 1
        &&& m.bounded()
        &&& m.e00 * a.e00 + m.e01 * a.e10 + m.e02 * a.e20 == d
        &&& m.e00 * a.e01 + m.e01 * a.e11 + m.e02 * a.e21 == 0
        &&& m.e00 * a.e02 + m.e01 * a.e12 + m.e02 * a.e22 == 0
        &&& m.e10 * a.e00 + m.e11 * a.e10 + m.e12 * a.e20 == 0
        &&& m.e10 * a.e01 + m.e11 * a.e11 + m.e12 * a.e21 == d
        &&& m.e10 * a.e02 + m.e11 * a.e12 + m.e12 * a.e22 == 0
        &&& m.e20 * a.e00 + m.e21 * a.e10 + m.e22 * a.e20 == 0
        &&& m.e20 * a.e01 + m.e21 * a.e11 + m.e22 * a.e21 == 0
        &&& m.e20 * a.e02 + m.e21 * a.e12 + m.e22 * a.e22 == d
        &&& a.e00 * m.e00 + a.e01 * m.e10 + a.e02 * m.e20 == d
        &&& a.e10 * m.e01 + a.e11 * m.e11 + a.e12 * m.e21 == d
        &&& a.e20 * m.e02 + a.e21 * m.e12 + a.e22 * m.e22 == d
    }
}

/// The determinant of a bounded matrix, by cofactor expansion along the
/// first row.
pub open spec fn spec_det(m: Mat3) -> int {
    m.e00 * (m.e11 * m.e22 - m.e12 * m.e21) + m.e01 * (m.e12 * m.e20 - m.e10 * m.e22) + m.e02 * (
    m.e10 * m.e21 - m.e11 * m.e20)
}

/// The adjugate of a bounded matrix: the transpose of its cofactors, which
/// is its exact inverse times its determinant.
pub open spec fn spec_adjugate(m: Mat3) -> Mat3 {
    Mat3 {
        e00: (m.e11 * m.e22 - m.e12 * m.e21) as i64,
        e01: (m.e02 * m.e21 - m.e01 * m.e22) as i64,
        e02: (m.e01 * m.e12 - m.e02 * m.e11) as i64,
        e10: (m.e12 * m.e20 - m.e10 * m.e22) as i64,
        e11: (m.e00 * m.e22 - m.e02 * m.e20) as i64,
        e12: (m.e02 * m.e10 - m.e00 * m.e12) as i64,
        e20: (m.e10 * m.e21 - m.e11 * m.e20) as i64,
        e21: (m.e01 * m.e20 - m.e00 * m.e21) as i64,
        e22: (m.e00 * m.e11 - m.e01 * m.e10) as i64,
    }
}

/// The adjugate with every entry negated, for a matrix whose determinant
/// came out negative.
pub open spec fn spec_neg_mat(a: Mat3) -> Mat3 {
    Mat3 {
        e00: (-a.e00) as i64,
        e01: (-a.e01) as i64,
        e02: (-a.e02) as i64,
        e10: (-a.e10) as i64,
        e11: (-a.e11) as i64,
        e12: (-a.e12) as i64,
        e20: (-a.e20) as i64,
        e21: (-a.e21) as i64,
        e22: (-a.e22) as i64,
    }
}

/// Builds the inverse pair of a matrix — the adjugate and the determinant,
/// sign-normalized so the determinant is positive — or reports that the
/// matrix is singular.  Success is decided by the determinant alone.
pub fn invert(m: Mat3, scale: i64) -> (r: Option<MatrixPair>)
    requires
        m.bounded(),
        scale >= 1,
    ensures
        r is Some <==> spec_det(m) != 0,
        r matches Some(p) ==> p.m == m && p.scale == scale && p.det > 0,
        spec_det(m) > 0 ==> (r matches Some(p) && p.adj == spec_adjugate(m) && p.det == spec_det(
            m,
        )),
        spec_det(m) < 0 ==> (r matches Some(p) && p.adj == spec_neg_mat(spec_adjugate(m)) && p.det
            == -spec_det(m)),
{
    proof {
        assert(-10_000_000_000_000_000 <= m.e11 * m.e22 <= 10_000_000_000_000_000
            && -10_000_000_000_000_000 <= m.e12 * m.e21 <= 10_000_000_000_000_000
            && -10_000_000_000_000_000 <= m.e02 * m.e21 <= 10_000_000_000_000_000
            && -10_000_000_000_000_000 <= m.e01 * m.e22 <= 10_000_000_000_000_000
            && -10_000_000_000_000_000 <= m.e01 * m.e12 <= 10_000_000_000_000_000
            && -10_000_000_000_000_000 <= m.e02 * m.e11 <= 10_000_000_000_000_000
            && -10_000_000_000_000_000 <= m.e12 * m.e20 <= 10_000_000_000_000_000
            && -10_000_000_000_000_000 <= m.e10 * m.e22 <= 10_000_000_000_000_000
            && -10_000_000_000_000_000 <= m.e00 * m.e22 <= 10_000_000_000_000_000
            && -10_000_000_000_000_000 <= m.e02 * m.e20 <= 10_000_000_000_000_000
            && -10_000_000_000_000_000 <= m.e02 * m.e10 <= 10_000_000_000_000_000
            && -10_000_000_000_000_000 <= m.e00 * m.e12 <= 10_000_000_000_000_000
            && -10_000_000_000_000_000 <= m.e10 * m.e21 <= 10_000_000_000_000_000
            && -10_000_000_000_000_000 <= m.e11 * m.e20 <= 10_000_000_000_000_000
            && -10_000_000_000_000_000 <= m.e01 * m.e20 <= 10_000_000_000_000_000
            && -10_000_000_000_000_000 <= m.e00 * m.e21 <= 10_000_000_000_000_000
            && -10_000_000_000_000_000 <= m.e00 * m.e11 <= 10_000_000_000_000_000
            && -10_000_000_000_000_000 <= m.e01 * m.e10 <= 10_000_000_000_000_000)
            by (nonlinear_arith)
            requires
                m.bounded(),
        ;
    }
    let a00: i64 = m.e11 * m.e22 - m.e12 * m.e21;
    let a01: i64 = m.e02 * m.e21 - m.e01 * m.e22;
    let a02: i64 = m.e01 * m.e12 - m.e02 * m.e11;
    let a10: i64 = m.e12 * m.e20 - m.e10 * m.e22;
    let a11: i64 = m.e00 * m.e22 - m.e02 * m.e20;
    let a12: i64 = m.e02 * m.e10 - m.e00 * m.e12;
    let a20: i64 = m.e10 * m.e21 - m.e11 * m.e20;
    let a21: i64 = m.e01 * m.e20 - m.e00 * m.e21;
    let a22: i64 = m.e00 * m.e11 - m.e01 * m.e10;
    proof {
        assert(-2_000_000_000_000_000_000_000_000 <= m.e00 * a00 <= 2_000_000_000_000_000_000_000_000
            && -2_000_000_000_000_000_000_000_000 <= m.e01 * a10
                <= 2_000_000_000_000_000_000_000_000
            && -2_000_000_000_000_000_000_000_000 <= m.e02 * a20
                <= 2_000_000_000_000_000_000_000_000) by (nonlinear_arith)
            requires
                m.bounded(),
                -20_000_000_000_000_000 <= a00 <= 20_000_000_000_000_000,
                -20_000_000_000_000_000 <= a10 <= 20_000_000_000_000_000,
                -20_000_000_000_000_000 <= a20 <= 20_000_000_000_000_000,
        ;
    }
    let det: i128 = (m.e00 as i128) * (a00 as i128) + (m.e01 as i128) * (a10 as i128) + (
    m.e02 as i128) * (a20 as i128);
    assert(det == spec_det(m));
    if det == 0 {
        return None;
    }
    if det > 0 {
        Some(
            MatrixPair {
                m,
                adj: Mat3 {
                    e00: a00,
                    e01: a01,
                    e02: a02,
                    e10: a10,
                    e11: a11,
                    e12: a12,
                    e20: a20,
                    e21: a21,
                    e22: a22,
                },
                det,
                scale,
            },
        )
    } else {
        Some(
            MatrixPair {
                m,
                adj: Mat3 {
                    e00: -a00,
                    e01: -a01,
                    e02: -a02,
                    e10: -a10,
                    e11: -a11,
                    e12: -a12,
                    e20: -a20,
                    e21: -a21,
                    e22: -a22,
                },
                det: -det,
                scale,
            },
        )
    }
}

/// The transform from hub tristimulus values to linear Adobe RGB, at scale
/// 10^5, with its exact inverse.
pub fn adobe_rgb_transform() -> (p: MatrixPair)
    ensures
        p.wf(),
        p.scale == 100_000,
        p.m == (Mat3 {
            e00: 204159i64,
            e01: -56501i64,
            e02: -34473i64,
            e10: -96924i64,
            e11: 187957i64,
            e12: 4156i64,
            e20: 1344i64,
            e21: -11836i64,
            e22: 101517i64,
        }),
{
    let m = Mat3 {
        e00: 204159,
        e01: -56501,
        e02: -34473,
        e10: -96924,
        e11: 187957,
        e12: 4156,
        e20: 1344,
        e21: -11836,
        e22: 101517,
    };
    match invert(m, 100_000) {
        Some(p) => {
            proof {
                assert(p.wf());
            }
            p
        },
        None => {
            proof {
                assert(spec_det(m) != 0);
            }
            unreached()
        },
    }
}

/// The Bradford chromatic-adaptation transform, at scale 10^4, with its
/// exact inverse: the one matrix applied in the hub space when a value moves
/// between illuminant white points.
pub fn bradford_transform() -> (p: MatrixPair)
    ensures
        p.wf(),
        p.scale == 10_000,
        p.m == (Mat3 {
            e00: 8951i64,
            e01: 2664i64,
            e02: -1614i64,
            e10: -7502i64,
            e11: 17135i64,
            e12: 367i64,
            e20: 389i64,
            e21: -685i64,
            e22: 10296i64,
        }),
{
    let m = Mat3 {
        e00: 8951,
        e01: 2664,
        e02: -1614,
        e10: -7502,
        e11: 17135,
        e12: 367,
        e20: 389,
        e21: -685,
        e22: 10296,
    };
    match invert(m, 10_000) {
        Some(p) => {
            proof {
                assert(p.wf());
            }
            p
        },
        None => {
            proof {
                assert(spec_det(m) != 0);
            }
            unreached()
        },
    }
}

/// The transform from linear ROMM RGB to hub tristimulus values, at scale
/// 10^7, with its exact inverse.
pub fn romm_rgb_transform() -> (p: MatrixPair)
    ensures
        p.wf(),
        p.scale == 10_000_000,
        p.m == (Mat3 {
            e00: 7976749i64,
            e01: 1351917i64,
            e02: 313534i64,
            e10: 2880402i64,
            e11: 7118741i64,
            e12: 857i64,
            e20: 0i64,
            e21: 0i64,
            e22: 8252100i64,
        }),
{
    let m = Mat3 {
        e00: 7976749,
        e01: 1351917,
        e02: 313534,
        e10: 2880402,
        e11: 7118741,
        e12: 857,
        e20: 0,
        e21: 0,
        e22: 8252100,
    };
    match invert(m, 10_000_000) {
        Some(p) => {
            proof {
                assert(p.wf());
            }
            p
        },
        None => {
            proof {
                assert(spec_det(m) != 0);
            }
            unreached()
        },
    }
}

/// The transform from hub tristimulus values to linear standard RGB, at
/// scale 10^4, with its exact inverse: the same matrix the hub conversions
/// carry as compile-time constants.
pub fn standard_rgb_transform() -> (p: MatrixPair)
    ensures
        p.wf(),
        p.scale == 10_000,
        p.m == (Mat3 {
            e00: 32406i64,
            e01: -15372i64,
            e02: -4986i64,
            e10: -9689i64,
            e11: 18758i64,
            e12: 415i64,
            e20: 557i64,
            e21: -2040i64,
            e22: 10570i64,
        }),
{
    let m = Mat3 {
        e00: 32406,
        e01: -15372,
        e02: -4986,
        e10: -9689,
        e11: 18758,
        e12: 415,
        e20: 557,
        e21: -2040,
        e22: 10570,
    };
    match invert(m, 10_000) {
        Some(p) => {
            proof {
                assert(p.wf());
            }
            p
        },
        None => {
            proof {
                assert(spec_det(m) != 0);
            }
            unreached()
        },
    }
}

} // verus!
