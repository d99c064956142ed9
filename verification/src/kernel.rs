//! Pure decision logic of the device operator runtime.
//!
//! A fused operator owns one compiled kernel: generated source (kept here
//! as abstract index/validity expressions and an element type tag), plus
//! the ordered dynamic symbols it consumes. At invocation time the runtime
//! sizes a zero-initialized output buffer by the output view's element
//! count, binds parameters in the fixed order output, inputs, element
//! count, then one integer per dynamic symbol, and computes a launch
//! geometry covering at least one execution unit per output element. All
//! of that is decided here; a device driver only executes the decisions.

use vstd::prelude::*;

use crate::expr::Expr;
use crate::indexing::{
    collect_shape_syms, dim_val, distinct_seq, dyn_symbols, index_valid_expressions,
    logical_size, storage_index, valid_index,
};
use crate::shape::{Dim, ShapeTracker, ShapeView};
use crate::symbols::{env_of, RuntimeError, SymbolTable};

verus! {

/// Element type a kernel is compiled for. A tag only: the arithmetic
/// itself happens on the device.
#[derive(Clone, Copy, PartialEq, Eq, Structural, Debug)]
pub enum ElementType {
    F32,
    F16,
}

/// A compiled two-input elementwise kernel bundle: the index and validity
/// expressions of both operand views, the element type, and the dynamic
/// symbols the kernel consumes, in binding order. Built once at
/// graph-compile time, never mutated afterward.
#[derive(Debug)]
pub struct BinaryKernel {
    pub a_index: Expr,
    pub a_valid: Expr,
    pub b_index: Expr,
    pub b_valid: Expr,
    pub elem: ElementType,
    pub dyn_symbols: Vec<char>,
}

/// Build the kernel bundle of a fused two-input elementwise operator from
/// the matched operand views: each view's index and validity expressions
/// (identity and always-true for a fusable view, the exact addressing
/// model otherwise), and the deduplicated dynamic symbols of both views in
/// order of first occurrence.
pub fn binary_kernel(a: &ShapeTracker, b: &ShapeTracker, elem: ElementType) -> (r: BinaryKernel)
    requires
        a@.wf(),
        b@.wf(),
    ensures
        r.elem == elem,
        a@.fusable() ==> r.a_index == Expr::Idx && r.a_valid == Expr::Num(1),
        !a@.fusable() ==> forall|i: int, env: Map<char, int>|
            #![trigger crate::expr::eval(r.a_index, i, env)]
            crate::expr::eval(r.a_index, i, env) == storage_index(a@, i, env),
        !a@.fusable() ==> forall|i: int, env: Map<char, int>|
            #![trigger crate::expr::eval(r.a_valid, i, env)]
            (crate::expr::eval(r.a_valid, i, env) != 0) == valid_index(a@, i, env),
        b@.fusable() ==> r.b_index == Expr::Idx && r.b_valid == Expr::Num(1),
        !b@.fusable() ==> forall|i: int, env: Map<char, int>|
            #![trigger crate::expr::eval(r.b_index, i, env)]
            crate::expr::eval(r.b_index, i, env) == storage_index(b@, i, env),
        !b@.fusable() ==> forall|i: int, env: Map<char, int>|
            #![trigger crate::expr::eval(r.b_valid, i, env)]
            (crate::expr::eval(r.b_valid, i, env) != 0) == valid_index(b@, i, env),
        r.dyn_symbols@ == collect_shape_syms(Seq::empty(), seq![a@, b@]),
        distinct_seq(r.dyn_symbols@),
        forall|c: char|
            #![trigger r.dyn_symbols@.contains(c)]
            r.dyn_symbols@.contains(c) <==> (exists|i: int|
                0 <= i < a@.dims.len() && a@.dims[i] == Dim::Sym(c)) || (exists|i: int|
                0 <= i < b@.dims.len() && b@.dims[i] == Dim::Sym(c)),
{
    let (a_index, a_valid) = index_valid_expressions(a);
    let (b_index, b_valid) = index_valid_expressions(b);
    let mut shapes: Vec<ShapeTracker> = Vec::new();
    shapes.push(a.clone());
    shapes.push(b.clone());
    proof {
        assert(shapes@.map_values(|s: ShapeTracker| s@) =~= seq![a@, b@]);
    }
    let syms = dyn_symbols(&shapes);
    proof {
        assert forall|c: char| #![trigger syms@.contains(c)] syms@.contains(c) <==> (exists|i: int|
            0 <= i < a@.dims.len() && a@.dims[i] == Dim::Sym(c)) || (exists|i: int|
            0 <= i < b@.dims.len() && b@.dims[i] == Dim::Sym(c)) by {
            if syms@.contains(c) {
                let (sx, ix) = choose|sx: int, ix: int|
                    0 <= sx < shapes@.len() && 0 <= ix < shapes@[sx]@.dims.len()
                        && shapes@[sx]@.dims[ix] == Dim::Sym(c);
                if sx == 0 {
                    assert(a@.dims[ix] == Dim::Sym(c));
                } else {
                    assert(b@.dims[ix] == Dim::Sym(c));
                }
            }
            if exists|i: int| 0 <= i < a@.dims.len() && a@.dims[i] == Dim::Sym(c) {
                let i = choose|i: int| 0 <= i < a@.dims.len() && a@.dims[i] == Dim::Sym(c);
                assert(shapes@[0]@.dims[i] == Dim::Sym(c));
            }
            if exists|i: int| 0 <= i < b@.dims.len() && b@.dims[i] == Dim::Sym(c) {
                let i = choose|i: int| 0 <= i < b@.dims.len() && b@.dims[i] == Dim::Sym(c);
                assert(shapes@[1]@.dims[i] == Dim::Sym(c));
            }
        }
    }
    BinaryKernel { a_index, a_valid, b_index, b_valid, elem, dyn_symbols: syms }
}

/// A compiled gather kernel bundle: the concrete embedding width the
/// source was specialized for, and the element type.
#[derive(Clone, Copy, PartialEq, Eq, Structural, Debug)]
pub struct GatherKernel {
    pub elem: ElementType,
    pub embed_dim: u64,
}

/// One-dimensional launch geometry covering `n` elements: fixed blocks of
/// 1024 execution units, and enough of them to cover every element.
pub fn launch_1d(n: u32) -> (r: ((u32, u32, u32), (u32, u32, u32)))
    ensures
        r.1 == (1024u32, 1u32, 1u32),
        r.0.1 == 1u32 && r.0.2 == 1u32,
        r.0.0 as int * 1024 >= n as int,
    {
    let blocks = (n / 1024) + (if n % 1024 != 0 {
        1u32
    } else {
        0u32
    });
    ((blocks, 1, 1), (1024, 1, 1))
}

/// Two-dimensional launch geometry for a gather over `rows` index values
/// and an embedding width of `width`: 16-by-16 blocks, enough to cover
/// every (row, column) pair.
pub fn launch_2d(rows: u32, width: u32) -> (r: ((u32, u32, u32), (u32, u32, u32)))
    ensures
        r.1 == (16u32, 16u32, 1u32),
        r.0.2 == 1u32,
        r.0.0 as int * 16 >= rows as int,
        r.0.1 as int * 16 >= width as int,
{
    let gx = (rows / 16) + (if rows % 16 != 0 {
        1u32
    } else {
        0u32
    });
    let gy = (width / 16) + (if width % 16 != 0 {
        1u32
    } else {
        0u32
    });
    ((gx, gy, 1), (16, 16, 1))
}

/// One kernel launch parameter.
#[derive(Clone, Copy, PartialEq, Eq, Structural, Debug)]
pub enum KernelParam {
    /// The output buffer.
    Output,
    /// The input buffer at this position.
    Input(usize),
    /// The output element count.
    ElementCount,
    /// The current value of this dynamic symbol.
    DynSymbol(char),
}

/// The launch parameter at position `k`: output first, then the inputs in
/// order, then the element count, then one entry per dynamic symbol.
pub open spec fn param_at(n_inputs: int, syms: Seq<char>, k: int) -> KernelParam {
    if k == 0 {
        KernelParam::Output
    } else if k <= n_inputs {
        KernelParam::Input((k - 1) as usize)
    } else if k == n_inputs + 1 {
        KernelParam::ElementCount
    } else {
        KernelParam::DynSymbol(syms[k - 2 - n_inputs])
    }
}

/// The fixed parameter order of a kernel launch: output, the inputs in
/// order, the element count, then one integer per dynamic symbol, in the
/// kernel's binding order.
pub fn launch_params(n_inputs: usize, syms: &Vec<char>) -> (r: Vec<KernelParam>)
    requires
        n_inputs < usize::MAX - 2 - syms@.len(),
    ensures
        r@.len() == 2 + n_inputs + syms@.len(),
        forall|k: int|
            0 <= k < r@.len() ==> (#[trigger] r@[k]) == param_at(n_inputs as int, syms@, k),
{
    let ns = syms.len();
    let total = n_inputs + 2 + ns;
    let mut params: Vec<KernelParam> = Vec::new();
    let mut i: usize = 0;
    while i < total
        invariant
            i <= total,
            ns == syms@.len(),
            total == n_inputs + 2 + ns,
            params@.len() == i,
            forall|k: int|
                0 <= k < i ==> (#[trigger] params@[k]) == param_at(n_inputs as int, syms@, k),
        decreases total - i,
    {
        if i == 0 {
            params.push(KernelParam::Output);
        } else if i <= n_inputs {
            params.push(KernelParam::Input(i - 1));
        } else if i == n_inputs + 1 {
            params.push(KernelParam::ElementCount);
        } else {
            params.push(KernelParam::DynSymbol(syms[i - 2 - n_inputs]));
        }
        proof {
            assert(params@[i as int] == param_at(n_inputs as int, syms@, i as int));
        }
        i = i + 1;
    }
    params
}

/// Size of logical dimension `j`, floored at zero: a slice beyond the
/// padded extent leaves nothing.
pub open spec fn clamped_size(v: ShapeView, j: int, env: Map<char, int>) -> int {
    if logical_size(v, j, env) >= 0 {
        logical_size(v, j, env)
    } else {
        0
    }
}

/// Number of elements covered by logical dimensions `j` and beyond.
pub open spec fn element_count_from(v: ShapeView, j: int, env: Map<char, int>) -> int
    decreases v.rank() as int - j,
{
    if j < 0 || j >= v.rank() {
        1
    } else {
        clamped_size(v, j, env) * element_count_from(v, j + 1, env)
    }
}

/// Total element count of a view: what the output buffer must hold.
pub open spec fn element_count(v: ShapeView, env: Map<char, int>) -> int {
    element_count_from(v, 0, env)
}

/// The element count never goes negative.
pub proof fn lemma_element_count_nonneg(v: ShapeView, j: int, env: Map<char, int>)
    ensures
        element_count_from(v, j, env) >= 0,
    decreases v.rank() as int - j,
{
    if 0 <= j < v.rank() {
        lemma_element_count_nonneg(v, j + 1, env);
        assert(clamped_size(v, j, env) * element_count_from(v, j + 1, env) >= 0)
            by (nonlinear_arith)
            requires
                clamped_size(v, j, env) >= 0,
                element_count_from(v, j + 1, env) >= 0,
        ;
    }
}

/// With every earlier dimension nonempty, the total count dominates the
/// count from `j` on.
pub proof fn lemma_element_count_mono(v: ShapeView, j: int, env: Map<char, int>)
    requires
        0 <= j <= v.rank(),
        forall|t: int| 0 <= t < j ==> clamped_size(v, t, env) >= 1,
    ensures
        element_count_from(v, 0, env) >= element_count_from(v, j, env),
    decreases j,
{
    if j > 0 {
        lemma_element_count_nonneg(v, j, env);
        assert(element_count_from(v, j - 1, env) >= element_count_from(v, j, env))
            by (nonlinear_arith)
            requires
                clamped_size(v, j - 1, env) >= 1,
                element_count_from(v, j, env) >= 0,
                element_count_from(v, j - 1, env) == clamped_size(v, j - 1, env)
                    * element_count_from(v, j, env),
        ;
        assert(forall|t: int| 0 <= t < j - 1 ==> clamped_size(v, t, env) >= 1);
        lemma_element_count_mono(v, j - 1, env);
    }
}

/// Resolve one logical dimension's clamped size against the table.
fn resolved_size(st: &ShapeTracker, j: usize, table: &SymbolTable) -> (r: Result<
    u128,
    RuntimeError,
>)
    requires
        st@.wf(),
        j < st@.rank(),
    ensures
        match r {
            Ok(v) => v as int == clamped_size(st@, j as int, env_of(table@)) && v
                < 0x8000_0000_0000_0000_0000u128,
            Err(e) => e matches RuntimeError::MissingSymbol(c) && st@.dims[st@.indexes[
                j as int
            ] as int] == Dim::Sym(c) && !table@.dom().contains(c),
        },
{
    let sd = st.indexes[j];
    let (pl, pr) = st.padding[sd];
    let (ms, me) = st.mask[sd];
    let dv: u128 = match st.dims[sd] {
        Dim::Known(n) => n as u128,
        Dim::Sym(c) => {
            match table.get(c) {
                Some(v) => v as u128,
                None => {
                    return Err(RuntimeError::MissingSymbol(c));
                },
            }
        },
    };
    proof {
        assert(dv as int == dim_val(st@.dims[sd as int], env_of(table@)));
    }
    let padded: u128 = pl as u128 + dv + pr as u128;
    let clipped: u128 = if me == crate::shape::NO_SLICE_END {
        padded
    } else if (me as u128) <= padded {
        me as u128
    } else {
        padded
    };
    if clipped >= ms as u128 {
        Ok(clipped - ms as u128)
    } else {
        Ok(0)
    }
}

/// The element count of the output view under the current symbol values:
/// how many elements the fresh zero-initialized output buffer must hold.
/// Succeeds exactly when every dynamic dimension the view mentions is
/// bound and the count fits the buffer-size word; an unbound symbol is the
/// fatal binding error, a count beyond the word the fatal size error.
pub fn output_elements(st: &ShapeTracker, table: &SymbolTable) -> (r: Result<u64, RuntimeError>)
    requires
        st@.wf(),
    ensures
        match r {
            Ok(v) => v as int == element_count(st@, env_of(table@)) && element_count(
                st@,
                env_of(table@),
            ) <= u64::MAX,
            Err(e) => match e {
                RuntimeError::MissingSymbol(c) => exists|i: int|
                    0 <= i < st@.dims.len() && (#[trigger] st@.dims[i]) == Dim::Sym(c)
                        && !table@.dom().contains(c),
                RuntimeError::SizeOverflow => element_count(st@, env_of(table@)) > u64::MAX,
            },
        },
{
    let n = st.dims.len();
    // resolve every dimension first: a missing symbol is fatal before any
    // sizing decision
    let mut sizes: Vec<u128> = Vec::new();
    let mut j: usize = 0;
    while j < n
        invariant
            j <= n,
            n == st@.rank(),
            st@.wf(),
            sizes@.len() == j,
            forall|t: int|
                0 <= t < j ==> (#[trigger] sizes@[t]) as int == clamped_size(
                    st@,
                    t,
                    env_of(table@),
                ) && sizes@[t] < 0x8000_0000_0000_0000_0000u128,
        decreases n - j,
    {
        match resolved_size(st, j, table) {
            Ok(v) => {
                sizes.push(v);
            },
            Err(e) => {
                proof {
                    let sd = st@.indexes[j as int] as int;
                    assert(0 <= sd < st@.dims.len());
                }
                return Err(e);
            },
        }
        j = j + 1;
    }
    // an empty dimension empties the whole tensor
    let mut j2: usize = 0;
    let mut any_zero = false;
    while j2 < n
        invariant
            j2 <= n,
            n == st@.rank(),
            st@.wf(),
            sizes@.len() == n,
            forall|t: int|
                0 <= t < n ==> (#[trigger] sizes@[t]) as int == clamped_size(
                    st@,
                    t,
                    env_of(table@),
                ) && sizes@[t] < 0x8000_0000_0000_0000_0000u128,
            any_zero == exists|t: int| 0 <= t < j2 && (#[trigger] sizes@[t]) == 0,
        decreases n - j2,
    {
        if sizes[j2] == 0 {
            proof {
                assert((#[trigger] sizes@[j2 as int]) == 0);
            }
            any_zero = true;
        }
        j2 = j2 + 1;
    }
    if any_zero {
        proof {
            let t = choose|t: int| 0 <= t < n && (#[trigger] sizes@[t]) == 0;
            lemma_zero_annihilates(st@, t, env_of(table@));
        }
        return Ok(0);
    }
    // all dimensions nonempty: fold the product from the last dimension,
    // stopping as soon as it leaves the buffer-size word
    let mut acc: u128 = 1;
    let mut j3: usize = n;
    while j3 > 0
        invariant
            j3 <= n,
            n == st@.rank(),
            st@.wf(),
            sizes@.len() == n,
            forall|t: int|
                0 <= t < n ==> (#[trigger] sizes@[t]) as int == clamped_size(
                    st@,
                    t,
                    env_of(table@),
                ) && sizes@[t] != 0,
            acc as int == element_count_from(st@, j3 as int, env_of(table@)),
            1 <= acc <= u64::MAX,
        decreases j3,
    {
        j3 = j3 - 1;
        let s = sizes[j3];
        proof {
            assert(sizes@[j3 as int] as int == clamped_size(st@, j3 as int, env_of(table@)));
            assert(s >= 1);
            assert forall|t: int| 0 <= t < st@.rank() implies clamped_size(
                st@,
                t,
                env_of(table@),
            ) >= 1 by {
                assert(sizes@[t] as int == clamped_size(st@, t, env_of(table@)));
                assert(sizes@[t] != 0);
            }
        }
        if s > u64::MAX as u128 {
            proof {
                assert(acc as int * s as int > u64::MAX) by (nonlinear_arith)
                    requires
                        acc >= 1,
                        s > u64::MAX,
                ;
                lemma_overflow_final(st@, j3 as int, env_of(table@), acc as int, s as int);
            }
            return Err(RuntimeError::SizeOverflow);
        }
        proof {
            assert(acc as int * s as int <= 0xffff_ffff_ffff_ffffu64 * 0xffff_ffff_ffff_ffffu64)
                by (nonlinear_arith)
                requires
                    1 <= acc <= u64::MAX,
                    1 <= s <= u64::MAX,
            ;
        }
        let next = acc * s;
        if next > u64::MAX as u128 {
            proof {
                lemma_overflow_final(st@, j3 as int, env_of(table@), acc as int, s as int);
            }
            return Err(RuntimeError::SizeOverflow);
        }
        proof {
            assert(element_count_from(st@, j3 as int, env_of(table@)) == clamped_size(
                st@,
                j3 as int,
                env_of(table@),
            ) * element_count_from(st@, j3 as int + 1, env_of(table@)));
            assert(s as int * acc as int == acc as int * s as int) by (nonlinear_arith);
            assert(next >= 1) by (nonlinear_arith)
                requires
                    acc >= 1,
                    s >= 1,
                    next == acc * s,
            ;
        }
        acc = next;
    }
    Ok(acc as u64)
}

/// A zero-size dimension makes the element count zero.
proof fn lemma_zero_annihilates(v: ShapeView, t: int, env: Map<char, int>)
    requires
        0 <= t < v.rank(),
        clamped_size(v, t, env) == 0,
    ensures
        element_count(v, env) == 0,
{
    lemma_zero_from(v, 0, t, env);
}

proof fn lemma_zero_from(v: ShapeView, j: int, t: int, env: Map<char, int>)
    requires
        0 <= j <= t < v.rank(),
        clamped_size(v, t, env) == 0,
    ensures
        element_count_from(v, j, env) == 0,
    decreases t - j,
{
    if j == t {
        assert(element_count_from(v, j, env) == 0 * element_count_from(v, j + 1, env));
    } else {
        lemma_zero_from(v, j + 1, t, env);
        assert(element_count_from(v, j, env) == clamped_size(v, j, env) * 0);
        assert(clamped_size(v, j, env) * 0 == 0) by (nonlinear_arith);
    }
}

/// When the partial product from dimension `j` already leaves the word and
/// every dimension is nonempty, the total count leaves it too.
proof fn lemma_overflow_final(v: ShapeView, j: int, env: Map<char, int>, acc: int, s: int)
    requires
        0 <= j < v.rank(),
        forall|t: int| 0 <= t < v.rank() ==> clamped_size(v, t, env) >= 1,
        acc == element_count_from(v, j + 1, env),
        s == clamped_size(v, j, env),
        acc * s > u64::MAX,
    ensures
        element_count(v, env) > u64::MAX,
{
    assert(element_count_from(v, j, env) == s * acc);
    assert(s * acc == acc * s) by (nonlinear_arith);
    lemma_element_count_mono(v, j, env);
}

} // verus!
