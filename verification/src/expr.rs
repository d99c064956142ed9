//! Symbolic index and validity expressions.
//!
//! The shape engine turns a view descriptor into two expressions over a flat
//! output position: one giving the storage offset to read, one deciding
//! whether the position falls inside the logical tensor (padding and slicing
//! make some positions invalid). The expressions form an abstract tree, so a
//! backend can render them into its own kernel source dialect; this crate
//! never turns them into text.

use vstd::prelude::*;

verus! {

/// An integer expression over a flat output position (`Idx`) and dynamic
/// dimension symbols (`Sym`). Comparison operators yield 0 or 1.
#[derive(Debug)]
pub enum Expr {
    /// An integer literal.
    Num(i64),
    /// The flat output position a kernel thread computes.
    Idx,
    /// A dynamic dimension symbol, bound at launch time.
    Sym(char),
    Plus(Box<Expr>, Box<Expr>),
    Minus(Box<Expr>, Box<Expr>),
    Times(Box<Expr>, Box<Expr>),
    /// Integer division, truncating; evaluates to 0 when the divisor is 0.
    Quot(Box<Expr>, Box<Expr>),
    /// Remainder of `Quot`; evaluates to 0 when the divisor is 0.
    Rem(Box<Expr>, Box<Expr>),
    /// 1 when the left operand is strictly below the right one, else 0.
    Lt(Box<Expr>, Box<Expr>),
    /// 1 when the left operand is at least the right one, else 0.
    Gte(Box<Expr>, Box<Expr>),
    /// 1 when both operands are nonzero, else 0.
    And(Box<Expr>, Box<Expr>),
    /// The smaller of the two operands.
    Min(Box<Expr>, Box<Expr>),
}

impl Clone for Expr {
    fn clone(&self) -> (r: Expr)
        ensures
            r == *self,
        decreases *self,
    {
        match self {
            Expr::Num(n) => Expr::Num(*n),
            Expr::Idx => Expr::Idx,
            Expr::Sym(c) => Expr::Sym(*c),
            Expr::Plus(a, b) => Expr::Plus(Box::new((**a).clone()), Box::new((**b).clone())),
            Expr::Minus(a, b) => Expr::Minus(Box::new((**a).clone()), Box::new((**b).clone())),
            Expr::Times(a, b) => Expr::Times(Box::new((**a).clone()), Box::new((**b).clone())),
            Expr::Quot(a, b) => Expr::Quot(Box::new((**a).clone()), Box::new((**b).clone())),
            Expr::Rem(a, b) => Expr::Rem(Box::new((**a).clone()), Box::new((**b).clone())),
            Expr::Lt(a, b) => Expr::Lt(Box::new((**a).clone()), Box::new((**b).clone())),
            Expr::Gte(a, b) => Expr::Gte(Box::new((**a).clone()), Box::new((**b).clone())),
            Expr::And(a, b) => Expr::And(Box::new((**a).clone()), Box::new((**b).clone())),
            Expr::Min(a, b) => Expr::Min(Box::new((**a).clone()), Box::new((**b).clone())),
        }
    }
}

/// Value of an expression at flat position `idx` under symbol values `env`.
/// A symbol absent from `env` counts as 0; a division or remainder by 0
/// counts as 0.
pub open spec fn eval(e: Expr, idx: int, env: Map<char, int>) -> int
    decreases e,
{
    match e {
        Expr::Num(n) => n as int,
        Expr::Idx => idx,
        Expr::Sym(c) => if env.dom().contains(c) {
            env[c]
        } else {
            0
        },
        Expr::Plus(a, b) => eval(*a, idx, env) + eval(*b, idx, env),
        Expr::Minus(a, b) => eval(*a, idx, env) - eval(*b, idx, env),
        Expr::Times(a, b) => eval(*a, idx, env) * eval(*b, idx, env),
        Expr::Quot(a, b) => if eval(*b, idx, env) != 0 {
            eval(*a, idx, env) / eval(*b, idx, env)
        } else {
            0
        },
        Expr::Rem(a, b) => if eval(*b, idx, env) != 0 {
            eval(*a, idx, env) % eval(*b, idx, env)
        } else {
            0
        },
        Expr::Lt(a, b) => if eval(*a, idx, env) < eval(*b, idx, env) {
            1
        } else {
            0
        },
        Expr::Gte(a, b) => if eval(*a, idx, env) >= eval(*b, idx, env) {
            1
        } else {
            0
        },
        Expr::And(a, b) => if eval(*a, idx, env) != 0 && eval(*b, idx, env) != 0 {
            1
        } else {
            0
        },
        Expr::Min(a, b) => if eval(*a, idx, env) <= eval(*b, idx, env) {
            eval(*a, idx, env)
        } else {
            eval(*b, idx, env)
        },
    }
}

/// Whether every subexpression's value at `idx` under `env` stays inside
/// the signed machine word, every bound symbol's value does too, and
/// divisions see nonnegative operands. Under this condition the evaluator
/// below computes `eval` exactly.
pub open spec fn eval_fits(e: Expr, idx: int, env: Map<char, int>) -> bool
    decreases e,
{
    match e {
        Expr::Num(_) => true,
        Expr::Idx => true,
        Expr::Sym(c) => !env.dom().contains(c) || (0 <= env[c] <= i64::MAX),
        Expr::Plus(a, b) => eval_fits(*a, idx, env) && eval_fits(*b, idx, env) && i64::MIN <= eval(
            *a,
            idx,
            env,
        ) + eval(*b, idx, env) <= i64::MAX,
        Expr::Minus(a, b) => eval_fits(*a, idx, env) && eval_fits(*b, idx, env) && i64::MIN <= eval(
            *a,
            idx,
            env,
        ) - eval(*b, idx, env) <= i64::MAX,
        Expr::Times(a, b) => eval_fits(*a, idx, env) && eval_fits(*b, idx, env) && i64::MIN <= eval(
            *a,
            idx,
            env,
        ) * eval(*b, idx, env) <= i64::MAX,
        Expr::Quot(a, b) => eval_fits(*a, idx, env) && eval_fits(*b, idx, env) && eval(*a, idx, env)
            >= 0 && eval(*b, idx, env) >= 0,
        Expr::Rem(a, b) => eval_fits(*a, idx, env) && eval_fits(*b, idx, env) && eval(*a, idx, env)
            >= 0 && eval(*b, idx, env) >= 0,
        Expr::Lt(a, b) => eval_fits(*a, idx, env) && eval_fits(*b, idx, env),
        Expr::Gte(a, b) => eval_fits(*a, idx, env) && eval_fits(*b, idx, env),
        Expr::And(a, b) => eval_fits(*a, idx, env) && eval_fits(*b, idx, env),
        Expr::Min(a, b) => eval_fits(*a, idx, env) && eval_fits(*b, idx, env),
    }
}

/// Evaluate an expression at flat position `idx` with symbol values taken
/// from the table, exactly as `eval` defines it: what a kernel thread
/// computes when it addresses its operands.
pub fn eval_expr(e: &Expr, idx: i64, table: &crate::symbols::SymbolTable) -> (r: i64)
    requires
        eval_fits(*e, idx as int, crate::symbols::env_of(table@)),
    ensures
        r == eval(*e, idx as int, crate::symbols::env_of(table@)),
    decreases *e,
{
    match e {
        Expr::Num(n) => *n,
        Expr::Idx => idx,
        Expr::Sym(c) => match table.get(*c) {
            Some(v) => v as i64,
            None => 0,
        },
        Expr::Plus(a, b) => eval_expr(a, idx, table) + eval_expr(b, idx, table),
        Expr::Minus(a, b) => eval_expr(a, idx, table) - eval_expr(b, idx, table),
        Expr::Times(a, b) => eval_expr(a, idx, table) * eval_expr(b, idx, table),
        Expr::Quot(a, b) => {
            let va = eval_expr(a, idx, table);
            let vb = eval_expr(b, idx, table);
            if vb != 0 {
                ((va as u64) / (vb as u64)) as i64
            } else {
                0
            }
        },
        Expr::Rem(a, b) => {
            let va = eval_expr(a, idx, table);
            let vb = eval_expr(b, idx, table);
            if vb != 0 {
                ((va as u64) % (vb as u64)) as i64
            } else {
                0
            }
        },
        Expr::Lt(a, b) => {
            if eval_expr(a, idx, table) < eval_expr(b, idx, table) {
                1
            } else {
                0
            }
        },
        Expr::Gte(a, b) => {
            if eval_expr(a, idx, table) >= eval_expr(b, idx, table) {
                1
            } else {
                0
            }
        },
        Expr::And(a, b) => {
            let va = eval_expr(a, idx, table);
            let vb = eval_expr(b, idx, table);
            if va != 0 && vb != 0 {
                1
            } else {
                0
            }
        },
        Expr::Min(a, b) => {
            let va = eval_expr(a, idx, table);
            let vb = eval_expr(b, idx, table);
            if va <= vb {
                va
            } else {
                vb
            }
        },
    }
}

} // verus!
