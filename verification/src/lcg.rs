//! The 64-bit linear congruential generator that drives corpus generation
//! and the pseudo-random embeddings.
use vstd::arithmetic::div_mod::lemma_add_mod_noop;
use vstd::prelude::*;

verus! {

/// Multiplier of the generator (Knuth's MMIX constant).
pub const LCG_MULTIPLIER: u64 = 6364136223846793005;

/// Increment of the generator.
pub const LCG_INCREMENT: u64 = 1442695040888963407;

/// 2^64, the modulus of all state arithmetic.
pub open spec fn word_modulus() -> nat {
    0x1_0000_0000_0000_0000nat
}

/// One step of the generator: `(a * state + c) mod 2^64`.
pub open spec fn lcg_step(state: u64) -> u64 {
    ((state as nat * LCG_MULTIPLIER as nat + LCG_INCREMENT as nat) % word_modulus()) as u64
}

/// The state reached from `state` after `n` steps.
pub open spec fn lcg_iterate(state: u64, n: nat) -> u64
    decreases n,
{
    if n == 0 {
        state
    } else {
        lcg_step(lcg_iterate(state, (n - 1) as nat))
    }
}

/// Advances the generator by one step.
pub fn lcg_next(state: u64) -> (next: u64)
    ensures
        next == lcg_step(state),
{
    let product = state.wrapping_mul(LCG_MULTIPLIER);
    let next = product.wrapping_add(LCG_INCREMENT);
    proof {
        let p = state as nat * LCG_MULTIPLIER as nat;
        let m = word_modulus();
        assert(product as nat == p % m);
        lemma_add_mod_noop(p as int, LCG_INCREMENT as int, m as int);
        assert((LCG_INCREMENT as int) % (m as int) == LCG_INCREMENT as int);
        assert(((p % m) as int + LCG_INCREMENT as int) % (m as int) == (p + LCG_INCREMENT as nat)
            % m);
    }
    next
}

/// Running `a` steps and then `b` steps is the same as running `a + b` steps.
pub proof fn lemma_iterate_compose(state: u64, a: nat, b: nat)
    ensures
        lcg_iterate(lcg_iterate(state, a), b) == lcg_iterate(state, a + b),
    decreases b,
{
    if b > 0 {
        lemma_iterate_compose(state, a, (b - 1) as nat);
        assert((a + b - 1) as nat == a + (b - 1) as nat);
    }
}

/// The state an embedding stream starts from: `(seed + 1) * a mod 2^64`.
pub open spec fn embedding_seed(seed: u64) -> u64 {
    (((seed as nat + 1) * LCG_MULTIPLIER as nat) % word_modulus()) as u64
}

/// The starting state is one multiplier ahead of the seed's own next state
/// without the increment: `embedding_seed(s) == lcg_step(s) + a - c (mod 2^64)`,
/// since `(s + 1) * a = s * a + c + (a - c)`.
pub proof fn lemma_embedding_seed_from_step(seed: u64)
    ensures
        embedding_seed(seed) as int == (lcg_step(seed) as int + LCG_MULTIPLIER as int
            - LCG_INCREMENT as int) % (word_modulus() as int),
        embedding_seed(seed) as nat == ((seed as nat + 1) * LCG_MULTIPLIER as nat) % word_modulus(),
{
    let m = word_modulus() as int;
    let p = seed as int * LCG_MULTIPLIER as int + LCG_INCREMENT as int;
    assert((seed as int + 1) * LCG_MULTIPLIER as int == p + (LCG_MULTIPLIER as int
        - LCG_INCREMENT as int)) by (nonlinear_arith)
        requires
            p == seed as int * LCG_MULTIPLIER as int + LCG_INCREMENT as int,
    ;
    lemma_add_mod_noop(p, LCG_MULTIPLIER as int - LCG_INCREMENT as int, m);
    lemma_add_mod_noop(p % m, LCG_MULTIPLIER as int - LCG_INCREMENT as int, m);
    vstd::arithmetic::div_mod::lemma_mod_twice(p, m);
    assert(lcg_step(seed) as int == p % m);
    assert((LCG_MULTIPLIER as int - LCG_INCREMENT as int) % m == LCG_MULTIPLIER as int
        - LCG_INCREMENT as int);
}

/// The last seed wraps around: its stream starts from state 0.
pub proof fn lemma_embedding_seed_wraps()
    ensures
        embedding_seed(u64::MAX) == 0,
{
}

/// The first `dim` generator states after the embedding seed of `seed`:
/// entry `i` is the state after `i + 1` steps. Each entry becomes one
/// coordinate of a pseudo-random embedding.
pub fn embedding_states(seed: u64, dim: usize) -> (states: Vec<u64>)
    ensures
        states@.len() == dim,
        forall|i: int|
            0 <= i < dim ==> #[trigger] states@[i] == lcg_iterate(
                embedding_seed(seed),
                (i + 1) as nat,
            ),
        dim > 0 ==> states@[0] as nat == (((((seed as nat + 1) * LCG_MULTIPLIER as nat)
            % word_modulus()) * LCG_MULTIPLIER as nat + LCG_INCREMENT as nat) % word_modulus()),
        forall|i: int| 0 <= i < dim - 1 ==> #[trigger] states@[i + 1] == lcg_step(states@[i]),
{
    let start = seed.wrapping_add(1).wrapping_mul(LCG_MULTIPLIER);
    assert(start == embedding_seed(seed)) by {
        let w = (seed as nat + 1) % word_modulus();
        assert(w == if seed as nat + 1 > u64::MAX {
            (seed as nat + 1 - word_modulus()) as nat
        } else {
            (seed as nat + 1)
        });
        vstd::arithmetic::div_mod::lemma_mul_mod_noop_left(
            (seed as nat + 1) as int,
            LCG_MULTIPLIER as int,
            word_modulus() as int,
        );
    }
    let mut states: Vec<u64> = Vec::with_capacity(dim);
    let mut state = start;
    let mut i: usize = 0;
    while i < dim
        invariant
            i <= dim,
            states@.len() == i,
            state == lcg_iterate(start, i as nat),
            forall|j: int| 0 <= j < i ==> #[trigger] states@[j] == lcg_iterate(start, (j + 1) as nat),
        decreases dim - i,
    {
        state = lcg_next(state);
        states.push(state);
        i = i + 1;
    }
    proof {
        if dim > 0 {
            assert(states@[0] == lcg_iterate(start, 1));
            assert(lcg_iterate(start, 1) == lcg_step(lcg_iterate(start, 0)));
            assert(start as nat == ((seed as nat + 1) * LCG_MULTIPLIER as nat) % word_modulus());
        }
    }
    states
}

} // verus!
