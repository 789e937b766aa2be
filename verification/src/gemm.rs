//! A product of matrices on the GPU: whether the shapes fit, what the shader is told, and
//! how many groups of it run.
use crate::error;
use crate::error::{ErrorKind, StoreError};
use crate::text;
use crate::text::push_decimal;
use vstd::prelude::*;

verus! {

/// The cells of a group of the shader, along each side.
pub const GROUP: u32 = 8;

/// What the shader is told, and how it is run.
#[derive(Debug)]
pub struct GemmPlan {
    /// The sides, and whether the second matrix is stored transposed.
    pub params: [u32; 8],
    /// The groups along the rows.
    pub groups_x: u32,
    /// The groups along the columns.
    pub groups_y: u32,
    /// The bytes of the product.
    pub bytes: u64,
}

/// The error of matrices whose lengths do not match their shapes.
pub open spec fn shape_error(a_len: nat, b_len: nat, m: nat, k: nat, n: nat) -> error::ErrorView {
    error::invalid_input(
        "gemm shape mismatch: |A| = "@ + text::decimal(a_len) + " vs m*k = "@ + text::decimal(m * k)
            + ", |B| = "@ + text::decimal(b_len) + " vs k*n = "@ + text::decimal(k * n),
    )
}

/// The groups that cover a side.
pub open spec fn groups(side: nat) -> nat {
    (side + GROUP - 1) as nat / (GROUP as nat)
}

/// Plans the product of an `m` by `k` matrix of `a_len` numbers and a `k` by `n` matrix of
/// `b_len`. A product without cells needs no run.
pub fn plan_gemm(a_len: usize, b_len: usize, m: usize, k: usize, n: usize, tb: bool) -> (r: Result<
    Option<GemmPlan>,
    StoreError,
>)
    requires
        m <= u32::MAX,
        k <= u32::MAX,
        n <= u32::MAX,
        4 * (m * n) <= u64::MAX,
    ensures
        match r {
            Ok(None) => m == 0 || n == 0,
            Ok(Some(p)) => {
                &&& m > 0 && n > 0 && a_len == m * k && b_len == k * n
                &&& p.params@[0] == m && p.params@[1] == k && p.params@[2] == n
                &&& p.params@[3] == 0
                &&& p.params@[4] == (if tb {
                    1u32
                } else {
                    0
                })
                &&& p.params@[5] == 0 && p.params@[6] == 0 && p.params@[7] == 0
                &&& p.groups_x == groups(m as nat)
                &&& p.groups_y == groups(n as nat)
                &&& p.bytes == 4 * (m * n)
            },
            Err(e) => {
                &&& m > 0 && n > 0
                &&& (a_len != m * k || b_len != k * n)
                &&& e@ == shape_error(a_len as nat, b_len as nat, m as nat, k as nat, n as nat)
            },
        },
{
    if m == 0 || n == 0 {
        return Ok(None);
    }
    proof {
        assert(m * k <= 0xffff_ffff * 0xffff_ffff) by (nonlinear_arith)
            requires
                m <= 0xffff_ffff,
                k <= 0xffff_ffff,
        ;
        assert(k * n <= 0xffff_ffff * 0xffff_ffff) by (nonlinear_arith)
            requires
                n <= 0xffff_ffff,
                k <= 0xffff_ffff,
        ;
        assert(m * n <= 0xffff_ffff * 0xffff_ffff) by (nonlinear_arith)
            requires
                m <= 0xffff_ffff,
                n <= 0xffff_ffff,
        ;
    }
    let mk: u128 = (m as u128) * (k as u128);
    let kn: u128 = (k as u128) * (n as u128);
    if a_len as u128 != mk || b_len as u128 != kn {
        let mut s = "gemm shape mismatch: |A| = ".to_owned();
        push_decimal(&mut s, a_len as u128);
        s.append(" vs m*k = ");
        push_decimal(&mut s, mk);
        s.append(", |B| = ");
        push_decimal(&mut s, b_len as u128);
        s.append(" vs k*n = ");
        push_decimal(&mut s, kn);
        return Err(StoreError::new(ErrorKind::InvalidInput, s));
    }
    let mn: u128 = (m as u128) * (n as u128);
    let bytes: u64 = (mn * 4) as u64;
    let transposed: u32 = if tb {
        1
    } else {
        0
    };
    let groups_x: u32 = ((m as u64 + 7) / 8) as u32;
    let groups_y: u32 = ((n as u64 + 7) / 8) as u32;
    Ok(
        Some(
            GemmPlan {
                params: [m as u32, k as u32, n as u32, 0, transposed, 0, 0, 0],
                groups_x,
                groups_y,
                bytes,
            },
        ),
    )
}

/// The groups cover every cell of a side, and no group lies past it.
pub proof fn law_groups_cover(side: nat, i: nat)
    requires
        i < side,
    ensures
        i / (GROUP as nat) < groups(side),
        GROUP * (groups(side) - 1) < side,
{
}

/// The place of a cell in a matrix of `n` columns.
pub open spec fn cell(i: nat, j: nat, n: nat) -> nat {
    i * n + j
}

/// What the shader reads lies within the matrices, stored transposed or not, and each cell
/// of the product has a place of its own in it.
pub proof fn law_cells_stay_inside(m: nat, k: nat, n: nat, i: nat, j: nat, q: nat)
    requires
        i < m,
        j < n,
        q < k,
    ensures
        cell(i, q, k) < m * k,
        cell(q, j, n) < k * n,
        cell(j, q, k) < n * k,
        cell(i, j, n) < m * n,
        forall|a: nat, b: nat|
            b < n && #[trigger] cell(a, b, n) == cell(i, j, n) ==> a == i && b == j,
{
    assert(i * k + q < m * k) by (nonlinear_arith)
        requires
            i + 1 <= m,
            q < k,
    ;
    assert(q * n + j < k * n) by (nonlinear_arith)
        requires
            q + 1 <= k,
            j < n,
    ;
    assert(j * k + q < n * k) by (nonlinear_arith)
        requires
            j + 1 <= n,
            q < k,
    ;
    assert(i * n + j < m * n) by (nonlinear_arith)
        requires
            i + 1 <= m,
            j < n,
    ;
    assert forall|a: nat, b: nat|
        b < n && #[trigger] cell(a, b, n) == cell(i, j, n) implies a == i && b == j by {
        assert(a == i) by (nonlinear_arith)
            requires
                a * n + b == i * n + j,
                b < n,
                j < n,
        ;
    }
}

} // verus!
