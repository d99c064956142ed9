//! Scalar semantics of the operators and the fusion equivalences.
//!
//! Each fusion pass replaces a subgraph of generic operators with one fused
//! operator. The laws here state, over exact integer arithmetic, that the
//! fused operator computes the same function as the subgraph it replaced:
//! fused subtraction against `add(a, mul(b, -1))`, fused equality against
//! `sub(1, add(lt(a, b), lt(b, a)))` including exact ties, and fused gather
//! against the one-hot multiply-reduce it replaces.

use vstd::prelude::*;

verus! {

/// Elementwise addition.
pub open spec fn sem_add(a: int, b: int) -> int {
    a + b
}

/// Elementwise multiplication.
pub open spec fn sem_mul(a: int, b: int) -> int {
    a * b
}

/// Elementwise subtraction, as the fused operator computes it.
pub open spec fn sem_sub(a: int, b: int) -> int {
    a - b
}

/// Elementwise strict comparison: 1 when `a < b`, else 0.
pub open spec fn sem_lt(a: int, b: int) -> int {
    if a < b {
        1
    } else {
        0
    }
}

/// Elementwise equality: 1 when `a == b`, else 0, as the fused operator
/// computes it.
pub open spec fn sem_eq(a: int, b: int) -> int {
    if a == b {
        1
    } else {
        0
    }
}

/// Fused subtraction equals the unfused idiom: for every pair of operands,
/// `sub(a, b)` equals `add(a, mul(b, -1))`.
pub proof fn lemma_sub_fusion(a: int, b: int)
    ensures
        sem_sub(a, b) == sem_add(a, sem_mul(b, -1)),
{
}

/// Fused equality equals the unfused idiom, ties included: for every pair
/// of operands, `eq(a, b)` equals `sub(1, add(lt(a, b), lt(b, a)))`.
pub proof fn lemma_eq_fusion(a: int, b: int)
    ensures
        sem_eq(a, b) == sem_sub(1, sem_add(sem_lt(a, b), sem_lt(b, a))),
{
}

/// The one-hot multiply-reduce over the first `n` rows of a row-major
/// `[rows, d]` table: the sum over `i < n` of `eq(i, idx) * table[i*d + col]`.
pub open spec fn onehot_sum(table: Seq<i64>, d: nat, col: int, idx: int, n: nat) -> int
    decreases n,
{
    if n == 0 {
        0
    } else {
        onehot_sum(table, d, col, idx, (n - 1) as nat) + sem_mul(
            sem_eq(n - 1, idx),
            table[(n - 1) * d + col] as int,
        )
    }
}

/// Rows the one-hot never selects contribute nothing.
pub proof fn lemma_onehot_sum_zero(table: Seq<i64>, d: nat, col: int, idx: int, n: nat)
    requires
        idx < 0 || idx >= n,
    ensures
        onehot_sum(table, d, col, idx, n) == 0,
    decreases n,
{
    if n > 0 {
        lemma_onehot_sum_zero(table, d, col, idx, (n - 1) as nat);
    }
}

/// Fused gather equals the unfused idiom: for a table of logical shape
/// `[rows, d]` and any index in `[0, rows)`, the one-hot multiply-reduce
/// selects exactly the table entry at that row and column.
pub proof fn lemma_gather_fusion(table: Seq<i64>, rows: nat, d: nat, idx: int, col: int)
    requires
        0 <= idx < rows,
        0 <= col < d,
        table.len() >= rows * d,
    ensures
        onehot_sum(table, d, col, idx, rows) == table[idx * d + col] as int,
    decreases rows,
{
    assert(rows >= 1);
    if idx == rows - 1 {
        lemma_onehot_sum_zero(table, d, col, idx, (rows - 1) as nat);
    } else {
        assert((rows - 1) * d <= rows * d) by (nonlinear_arith)
            requires
                rows >= 1,
                d >= 0,
        ;
        lemma_gather_fusion(table, (rows - 1) as nat, d, idx, col);
    }
}

/// Run the fused subtraction on two values.
pub fn fused_sub(a: i64, b: i64) -> (r: i64)
    requires
        -0x2000_0000_0000_0000 <= a <= 0x2000_0000_0000_0000,
        -0x2000_0000_0000_0000 <= b <= 0x2000_0000_0000_0000,
    ensures
        r == sem_sub(a as int, b as int),
{
    a - b
}

/// Run the unfused subtraction idiom, `add(a, mul(b, -1))`, on two values.
/// It returns exactly what the fused subtraction returns.
pub fn unfused_sub(a: i64, b: i64) -> (r: i64)
    requires
        -0x2000_0000_0000_0000 <= a <= 0x2000_0000_0000_0000,
        -0x2000_0000_0000_0000 <= b <= 0x2000_0000_0000_0000,
    ensures
        r == sem_sub(a as int, b as int),
{
    proof {
        lemma_sub_fusion(a as int, b as int);
    }
    a + b * -1
}

/// Run the fused equality on two values: 1 on equal operands, else 0.
pub fn fused_eq(a: i64, b: i64) -> (r: i64)
    ensures
        r == sem_eq(a as int, b as int),
{
    if a == b {
        1
    } else {
        0
    }
}

/// Run the unfused equality idiom, `sub(1, add(lt(a, b), lt(b, a)))`, on
/// two values. It returns exactly what the fused equality returns, ties
/// included.
pub fn unfused_eq(a: i64, b: i64) -> (r: i64)
    ensures
        r == sem_eq(a as int, b as int),
{
    proof {
        lemma_eq_fusion(a as int, b as int);
    }
    let lt_ab: i64 = if a < b {
        1
    } else {
        0
    };
    let lt_ba: i64 = if b < a {
        1
    } else {
        0
    };
    1 - (lt_ab + lt_ba)
}

/// Run the fused gather on a row-major `[rows, d]` table: read the table
/// entry at row `idx`, column `col`.
pub fn fused_gather(table: &Vec<i64>, rows: usize, d: usize, idx: usize, col: usize) -> (r: i64)
    requires
        0 < d,
        idx < rows,
        col < d,
        rows * d <= table@.len(),
    ensures
        r == table@[idx as int * d as int + col as int],
{
    let total = table.len();
    proof {
        assert(idx * d + col < rows * d) by (nonlinear_arith)
            requires
                idx < rows,
                col < d,
                0 < d,
        ;
        assert(idx * d + col < total);
    }
    table[idx * d + col]
}

/// Run the unfused gather idiom on a row-major `[rows, d]` table: the
/// one-hot multiply-reduce over all rows. It returns exactly the table
/// entry the fused gather reads.
pub fn unfused_gather(table: &Vec<i64>, rows: usize, d: usize, idx: usize, col: usize) -> (r: i64)
    requires
        0 < d,
        idx < rows,
        col < d,
        rows * d <= table@.len(),
    ensures
        r == table@[idx as int * d as int + col as int],
{
    let mut acc: i64 = 0;
    let mut i: usize = 0;
    while i < rows
        invariant
            i <= rows,
            0 < d,
            idx < rows,
            col < d,
            rows * d <= table@.len(),
            acc as int == onehot_sum(table@, d as nat, col as int, idx as int, i as nat),
            acc as int == (if idx < i {
                table@[idx as int * d as int + col as int] as int
            } else {
                0
            }),
        decreases rows - i,
    {
        let total = table.len();
        proof {
            assert(i * d + col < rows * d) by (nonlinear_arith)
                requires
                    i < rows,
                    col < d,
                    0 < d,
            ;
            assert(i * d + col < total);
        }
        let eq_term: i64 = if i == idx {
            1
        } else {
            0
        };
        let val = table[i * d + col];
        proof {
            assert(eq_term as int == sem_eq(i as int, idx as int));
            assert(onehot_sum(table@, d as nat, col as int, idx as int, (i + 1) as nat)
                == onehot_sum(table@, d as nat, col as int, idx as int, i as nat) + sem_mul(
                sem_eq(i as int, idx as int),
                table@[i as int * d as int + col as int] as int,
            ));
        }
        acc = acc + eq_term * val;
        i = i + 1;
    }
    proof {
        lemma_gather_fusion(table@, rows as nat, d as nat, idx as int, col as int);
    }
    acc
}

} // verus!
