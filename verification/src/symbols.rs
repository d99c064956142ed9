//! The dynamic symbol table.
//!
//! A dynamic dimension (for example a growing sequence length) is a named
//! symbol whose integer value is bound at execution time. One table is
//! shared by every operator instance of a graph; the driving loop updates
//! it between executions, and kernels read it at launch time. A symbol a
//! kernel needs that has no current value is a fatal binding error.

use vstd::prelude::*;

use rustc_hash::FxHashMap;

verus! {

/// The build-hasher of `rustc_hash`'s `FxHashMap`: a fast, deterministic,
/// unseeded hasher. Only the type is declared here; the table's contracts
/// rest on the standard `HashMap` it parameterizes.
#[verifier::external_type_specification]
#[verifier::external_body]
pub struct ExFxBuildHasher(rustc_hash::FxBuildHasher);

/// A fatal error of the operator runtime's decision logic.
#[derive(Clone, Copy, PartialEq, Eq, Structural, Debug)]
pub enum RuntimeError {
    /// A kernel needs this symbol, but the table holds no value for it.
    MissingSymbol(char),
    /// The output element count does not fit the buffer-size word.
    SizeOverflow,
}

/// Integer environment of a symbol-to-value mapping.
pub open spec fn env_of(m: Map<char, usize>) -> Map<char, int> {
    Map::new(|c: char| m.dom().contains(c), |c: char| m[c] as int)
}

/// A mapping from each dynamic dimension symbol to its current value.
#[derive(Debug)]
pub struct SymbolTable {
    map: FxHashMap<char, usize>,
}

impl View for SymbolTable {
    type V = Map<char, usize>;

    closed spec fn view(&self) -> Map<char, usize> {
        self.map@
    }
}

/// Relies on `HashMap::default` (through `rustc_hash`'s `FxHashMap`
/// alias): a fresh map holds no entry.
#[verifier::external_body]
fn fx_new() -> (m: FxHashMap<char, usize>)
    ensures
        forall|c: char| !(#[trigger] m@.dom().contains(c)),
{
    FxHashMap::default()
}

/// Relies on `HashMap::insert`: binds `sym` to `val`, replacing any
/// earlier binding of `sym` and leaving other bindings alone.
#[verifier::external_body]
fn fx_insert(m: &mut FxHashMap<char, usize>, sym: char, val: usize)
    ensures
        final(m)@ == old(m)@.insert(sym, val),
{
    m.insert(sym, val);
}

/// Relies on `HashMap::get`: returns the current binding of `sym`, or
/// `None` when the map holds none.
#[verifier::external_body]
fn fx_get(m: &FxHashMap<char, usize>, sym: char) -> (r: Option<usize>)
    ensures
        r is Some <==> m@.dom().contains(sym),
        r is Some ==> r.unwrap() == m@[sym],
{
    m.get(&sym).copied()
}

impl SymbolTable {
    /// An empty table: no symbol has a value yet.
    pub fn new() -> (r: SymbolTable)
        ensures
            r@ == Map::<char, usize>::empty(),
    {
        let map = fx_new();
        proof {
            assert(map@ =~= Map::<char, usize>::empty());
        }
        SymbolTable { map }
    }

    /// Bind `sym` to `val`, replacing any earlier binding. Only the driving
    /// loop calls this, between executions.
    pub fn set(&mut self, sym: char, val: usize)
        ensures
            final(self)@ == old(self)@.insert(sym, val),
    {
        fx_insert(&mut self.map, sym, val);
    }

    /// The current value of `sym`, or `None` when it has none.
    pub fn get(&self, sym: char) -> (r: Option<usize>)
        ensures
            r is Some <==> self@.dom().contains(sym),
            r is Some ==> r.unwrap() == self@[sym],
    {
        fx_get(&self.map, sym)
    }

    /// The values of the given symbols, in order, as bound at call time.
    /// Fails with the first symbol that has no value: a kernel must never
    /// launch with an unbound dynamic dimension.
    pub fn resolve(&self, syms: &Vec<char>) -> (r: Result<Vec<usize>, RuntimeError>)
        ensures
            match r {
                Ok(vals) => vals@.len() == syms@.len() && forall|k: int|
                    0 <= k < syms@.len() ==> self@.dom().contains(#[trigger] syms@[k])
                        && vals@[k] == self@[syms@[k]],
                Err(e) => e matches RuntimeError::MissingSymbol(c) && exists|k: int|
                    0 <= k < syms@.len() && (#[trigger] syms@[k]) == c && !self@.dom().contains(c),
            },
            (forall|k: int| 0 <= k < syms@.len() ==> self@.dom().contains(#[trigger] syms@[k]))
                <==> r is Ok,
    {
        let n = syms.len();
        let mut vals: Vec<usize> = Vec::new();
        let mut k: usize = 0;
        while k < n
            invariant
                k <= n,
                n == syms@.len(),
                vals@.len() == k,
                forall|j: int|
                    0 <= j < k ==> self@.dom().contains(#[trigger] syms@[j]) && vals@[j]
                        == self@[syms@[j]],
            decreases n - k,
        {
            let sym = syms[k];
            match self.get(sym) {
                Some(v) => {
                    vals.push(v);
                },
                None => {
                    proof {
                        assert((#[trigger] syms@[k as int]) == sym && !self@.dom().contains(sym));
                    }
                    return Err(RuntimeError::MissingSymbol(sym));
                },
            }
            k = k + 1;
        }
        Ok(vals)
    }
}

} // verus!
