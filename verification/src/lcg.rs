//! A tiny deterministic linear congruential generator (glibc constants), so
//! every run of a program that draws from it is reproducible.

use vstd::prelude::*;

verus! {

/// One step of the generator: `state * 1103515245 + 12345` modulo 2^32.
pub open spec fn lcg_step(state: u32) -> u32 {
    ((state as int * 1_103_515_245 + 12_345) % 0x1_0000_0000) as u32
}

/// The generator's state after `k` steps from `state`.
pub open spec fn lcg_iterate(state: u32, k: nat) -> u32
    decreases k,
{
    if k == 0 {
        state
    } else {
        lcg_iterate(lcg_step(state), (k - 1) as nat)
    }
}

/// One step taken backwards: `(state - 12345) * 0xeeb9eb65` modulo 2^32,
/// where `0xeeb9eb65` is the inverse of the multiplier modulo 2^32.
pub open spec fn lcg_unstep(state: u32) -> u32 {
    (((state as int - 12_345) * 0xeeb9_eb65) % 0x1_0000_0000) as u32
}

/// A step taken backwards undoes a step.
pub proof fn lemma_lcg_unstep(state: u32)
    ensures
        lcg_unstep(lcg_step(state)) == state,
{
    let x: int = state as int * 1_103_515_245 + 12_345;
    let d: int = x / 0x1_0000_0000;
    let r: int = x % 0x1_0000_0000;
    vstd::arithmetic::div_mod::lemma_fundamental_div_mod(x, 0x1_0000_0000);
    let q: int = state as int * 1_029_054_899 - d * 0xeeb9_eb65;
    assert((r - 12_345) * 0xeeb9_eb65 == 0x1_0000_0000 * q + state) by (nonlinear_arith)
        requires
            x == 0x1_0000_0000 * d + r,
            x == state as int * 1_103_515_245 + 12_345,
            q == state as int * 1_029_054_899 - d * 0xeeb9_eb65,
    ;
    vstd::arithmetic::div_mod::lemma_mod_multiples_vanish(q, state as int, 0x1_0000_0000);
    vstd::arithmetic::div_mod::lemma_small_mod(state as nat, 0x1_0000_0000);
}

/// No two states step to the same state.
pub proof fn lemma_lcg_step_injective(a: u32, b: u32)
    requires
        lcg_step(a) == lcg_step(b),
    ensures
        a == b,
{
    lemma_lcg_unstep(a);
    lemma_lcg_unstep(b);
}

/// The state after `k + 1` steps is one step past the state after `k`.
pub proof fn lemma_lcg_iterate_step(state: u32, k: nat)
    ensures
        lcg_iterate(state, k + 1) == lcg_step(lcg_iterate(state, k)),
    decreases k,
{
    reveal_with_fuel(lcg_iterate, 2);
    if k > 0 {
        lemma_lcg_iterate_step(lcg_step(state), (k - 1) as nat);
    }
}

/// Taking `a + b` steps is taking `a` steps, then `b` more.
pub proof fn lemma_lcg_iterate_add(state: u32, a: nat, b: nat)
    ensures
        lcg_iterate(state, a + b) == lcg_iterate(lcg_iterate(state, a), b),
    decreases a,
{
    if a > 0 {
        lemma_lcg_iterate_add(lcg_step(state), (a - 1) as nat, b);
        assert((a + b - 1) as nat == (a - 1) as nat + b);
    }
}

/// If the states after `i` and `j` steps agree, `j - i` steps lead from
/// `state` back to itself.
proof fn lemma_lcg_cancel(state: u32, i: nat, j: nat)
    requires
        i <= j,
        lcg_iterate(state, i) == lcg_iterate(state, j),
    ensures
        lcg_iterate(state, (j - i) as nat) == state,
    decreases i,
{
    if i > 0 {
        lemma_lcg_cancel(lcg_step(state), (i - 1) as nat, (j - 1) as nat);
        lemma_lcg_iterate_step(state, (j - i) as nat);
        assert(lcg_iterate(state, (j - i) as nat + 1) == lcg_iterate(
            lcg_step(state),
            (j - i) as nat,
        ));
        lemma_lcg_step_injective(state, lcg_iterate(state, (j - i) as nat));
    }
}

/// The state after `2k` steps, as an integer.
spec fn even_state(state: u32, k: int) -> int {
    lcg_iterate(state, (2 * k) as nat) as int
}

/// Some number `p` of double steps between 1 and 2^32 leads from `state`
/// back to itself: among the 2^32 + 1 states reached after `0, 2, 4, ...`
/// steps, two agree.
pub proof fn lemma_double_step_period(state: u32) -> (p: nat)
    ensures
        1 <= p <= 0x1_0000_0000,
        lcg_iterate(state, 2 * p) == state,
{
    if exists|i: int, j: int|
        0 <= i < j <= 0x1_0000_0000 && #[trigger] even_state(state, i) == #[trigger] even_state(
            state,
            j,
        ) {
        let (i, j) = choose|i: int, j: int|
            0 <= i < j <= 0x1_0000_0000 && #[trigger] even_state(state, i) == #[trigger] even_state(
                state,
                j,
            );
        lemma_lcg_cancel(state, (2 * i) as nat, (2 * j) as nat);
        assert((2 * j) as nat - (2 * i) as nat == 2 * (j - i));
        (j - i) as nat
    } else {
        let dom = vstd::set_lib::set_int_range(0, 0x1_0000_0001);
        let f = |k: int| even_state(state, k);
        assert(vstd::relations::injective_on(f, dom)) by {
            assert forall|x1: int, x2: int|
                dom.contains(x1) && dom.contains(x2) && #[trigger] f(x1) == #[trigger] f(x2) implies x1
                == x2 by {
                if x1 < x2 {
                    assert(even_state(state, x1) == even_state(state, x2));
                } else if x2 < x1 {
                    assert(even_state(state, x2) == even_state(state, x1));
                }
            }
        }
        vstd::set_lib::lemma_int_range(0, 0x1_0000_0001);
        vstd::set_lib::lemma_map_size(dom, dom.map(f), f);
        let states = vstd::set_lib::set_int_range(0, 0x1_0000_0000);
        assert(dom.map(f).subset_of(states)) by {
            assert forall|y: int| dom.map(f).contains(y) implies states.contains(y) by {
                let x = choose|x: int| dom.contains(x) && f(x) == y;
                assert(0 <= even_state(state, x) < 0x1_0000_0000);
            }
        }
        vstd::set_lib::lemma_int_range(0, 0x1_0000_0000);
        vstd::set_lib::lemma_len_subset(dom.map(f), states);
        assert(false);
        1
    }
}

/// Once `p` steps lead from `state` back to itself, `n * p + r` steps end
/// where `r` steps do.
pub proof fn lemma_lcg_periodic(state: u32, p: nat, n: nat, r: nat)
    requires
        lcg_iterate(state, p) == state,
    ensures
        lcg_iterate(state, n * p + r) == lcg_iterate(state, r),
    decreases n,
{
    if n > 0 {
        let rest: nat = ((n - 1) as nat * p + r) as nat;
        assert(n * p + r == p + rest) by (nonlinear_arith)
            requires
                n > 0,
                rest == (n - 1) as nat * p + r,
        ;
        lemma_lcg_iterate_add(state, p, rest);
        lemma_lcg_periodic(state, p, (n - 1) as nat, r);
    } else {
        assert(n * p == 0) by (nonlinear_arith)
            requires
                n == 0,
        ;
    }
}

/// A linear congruential generator; the field is its current state.
pub struct Lcg(pub u32);

impl Lcg {
    /// Advance the generator one step and return the new state.
    pub fn next(&mut self) -> (r: u32)
        ensures
            final(self).0 == lcg_step(old(self).0),
            r == final(self).0,
    {
        let x = self.0;
        let m = x.wrapping_mul(1_103_515_245);
        let r = m.wrapping_add(12_345);
        proof {
            let p = x as int * 1_103_515_245;
            assert(m as int == p % 0x1_0000_0000);
            vstd::arithmetic::div_mod::lemma_add_mod_noop(p, 12_345, 0x1_0000_0000);
            vstd::arithmetic::div_mod::lemma_small_mod(12_345, 0x1_0000_0000);
        }
        self.0 = r;
        r
    }
}

} // verus!
