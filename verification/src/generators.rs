//! Two linear-congruential generators and the judge that compares their draws.
//!
//! A generator multiplies its state by a fixed factor modulo a fixed modulus and
//! emits only states divisible by its accept divisor. The judge draws from two
//! generators in lockstep and counts the pairs that agree in their low sixteen bits.

use crate::error::ConfigError;
use vstd::prelude::*;
use vstd::relations::injective_on;
use vstd::set_lib::set_int_range;

verus! {

/// `2^16`: two values agree when they are equal modulo this.
pub const JUDGE_MODULUS: u64 = 65536;

/// The mathematical state of a generator.
pub struct GeneratorModel {
    pub modulus: nat,
    pub factor: nat,
    pub state: nat,
    pub accept: nat,
}

impl GeneratorModel {
    /// The modulus and the accept divisor are positive and the state is reduced.
    pub open spec fn valid(self) -> bool {
        &&& self.modulus > 0
        &&& self.accept > 0
        &&& self.state < self.modulus
    }

    /// One raw step: multiply by the factor and reduce.
    pub open spec fn advance(self) -> Self {
        GeneratorModel { state: (self.state * self.factor) % self.modulus, ..self }
    }

    /// `k` raw steps.
    pub open spec fn advance_by(self, k: nat) -> Self
        decreases k,
    {
        if k == 0 {
            self
        } else {
            self.advance_by((k - 1) as nat).advance()
        }
    }

    /// Whether the current state passes the accept filter.
    pub open spec fn accepts(self) -> bool {
        self.state % self.accept == 0
    }

    /// The first accepted state after this one is reached by exactly `k` raw steps.
    pub open spec fn emits_after(self, k: nat) -> bool {
        &&& k >= 1
        &&& self.advance_by(k).accepts()
        &&& forall|j: nat| 1 <= j < k ==> !(#[trigger] self.advance_by(j)).accepts()
    }

    /// Whether some later state passes the accept filter.
    pub open spec fn emits(self) -> bool {
        exists|k: nat| self.emits_after(k)
    }

    /// The number of raw steps up to the next emitted value.
    pub open spec fn steps_to_emit(self) -> nat {
        choose|k: nat| self.emits_after(k)
    }

    /// The generator after its next emitted value, if it ever emits one.
    pub open spec fn draw(self) -> Option<Self> {
        if self.emits() {
            Some(self.advance_by(self.steps_to_emit()))
        } else {
            None
        }
    }

    /// The generator after `n` emitted values, if it emits that many.
    pub open spec fn after_draws(self, n: nat) -> Option<Self>
        decreases n,
    {
        if n == 0 {
            Some(self)
        } else {
            match self.after_draws((n - 1) as nat) {
                Some(before) => before.draw(),
                None => None,
            }
        }
    }
}

/// Whether `a` and `b` are equal in their lowest sixteen bits.
pub open spec fn agree(a: nat, b: nat) -> bool {
    a % 65536 == b % 65536
}

/// Whether the `n`-th values emitted by `a` and by `b` (counting from 1) agree.
pub open spec fn pair_agrees(a: GeneratorModel, b: GeneratorModel, n: nat) -> bool {
    match (a.after_draws(n), b.after_draws(n)) {
        (Some(x), Some(y)) => agree(x.state, y.state),
        _ => false,
    }
}

/// How many of the first `n` emitted pairs agree.
pub open spec fn agreements(a: GeneratorModel, b: GeneratorModel, n: nat) -> nat
    decreases n,
{
    if n == 0 {
        0
    } else {
        agreements(a, b, (n - 1) as nat) + if pair_agrees(a, b, n) {
            1nat
        } else {
            0nat
        }
    }
}

/// Raw steps never change the parameters and keep the state reduced.
pub proof fn lemma_advance_by_valid(m: GeneratorModel, k: nat)
    requires
        m.valid(),
    ensures
        m.advance_by(k).valid(),
        m.advance_by(k).modulus == m.modulus,
        m.advance_by(k).factor == m.factor,
        m.advance_by(k).accept == m.accept,
    decreases k,
{
    if k > 0 {
        lemma_advance_by_valid(m, (k - 1) as nat);
    }
}

/// Raw steps compose: `j` steps followed by `k` steps are `j + k` steps.
pub proof fn lemma_advance_by_add(m: GeneratorModel, j: nat, k: nat)
    ensures
        m.advance_by(j).advance_by(k) == m.advance_by(j + k),
    decreases k,
{
    if k > 0 {
        lemma_advance_by_add(m, j, (k - 1) as nat);
    }
}

/// At most one step count leads to the first accepted state.
pub proof fn lemma_emits_after_unique(m: GeneratorModel, j: nat, k: nat)
    requires
        m.emits_after(j),
        m.emits_after(k),
    ensures
        j == k,
{
    if j < k {
        assert(!m.advance_by(j).accepts());
    } else if k < j {
        assert(!m.advance_by(k).accepts());
    }
}

/// Among the first `modulus + 1` raw steps two lead to the same state.
proof fn lemma_states_collide(m: GeneratorModel) -> (pair: (nat, nat))
    requires
        m.valid(),
    ensures
        1 <= pair.0 < pair.1 <= m.modulus + 1,
        m.advance_by(pair.0) == m.advance_by(pair.1),
{
    let f = |k: int| m.advance_by(k as nat).state as int;
    let steps = set_int_range(1, m.modulus as int + 2);
    let states = steps.map(f);
    vstd::set_lib::lemma_int_range(1, m.modulus as int + 2);
    vstd::set_lib::lemma_int_range(0, m.modulus as int);
    assert forall|s: int| states.contains(s) implies set_int_range(0, m.modulus as int).contains(
        s,
    ) by {
        let k = choose|k: int| steps.contains(k) && f(k) == s;
        lemma_advance_by_valid(m, k as nat);
    }
    vstd::set_lib::lemma_len_subset(states, set_int_range(0, m.modulus as int));
    if injective_on(f, steps) {
        vstd::set_lib::lemma_map_size(steps, states, f);
        assert(false);
    }
    let (x1, x2) = choose|x1: int, x2: int|
        steps.contains(x1) && steps.contains(x2) && #[trigger] f(x1) == #[trigger] f(x2) && x1
            != x2;
    lemma_advance_by_valid(m, x1 as nat);
    lemma_advance_by_valid(m, x2 as nat);
    if x1 < x2 {
        (x1 as nat, x2 as nat)
    } else {
        (x2 as nat, x1 as nat)
    }
}

/// Once two step counts lead to the same state, no later state is new: if none of
/// the states up to the second one is accepted, none ever is.
proof fn lemma_cycle_never_accepts(m: GeneratorModel, i: nat, j: nat, k: nat)
    requires
        1 <= i < j,
        m.advance_by(i) == m.advance_by(j),
        forall|n: nat| 1 <= n < j ==> !(#[trigger] m.advance_by(n)).accepts(),
        k >= 1,
    ensures
        !m.advance_by(k).accepts(),
    decreases k,
{
    if k >= j {
        let back = (k - (j - i)) as nat;
        lemma_advance_by_add(m, j, (k - j) as nat);
        lemma_advance_by_add(m, i, (k - j) as nat);
        assert(j + (k - j) as nat == k);
        assert(i + (k - j) as nat == back);
        lemma_cycle_never_accepts(m, i, j, back);
    }
}

/// A generator that emits nothing within `modulus` raw steps never emits anything:
/// its states repeat before then.
pub proof fn lemma_silent_within_modulus(m: GeneratorModel)
    requires
        m.valid(),
        forall|n: nat| 1 <= n <= m.modulus ==> !(#[trigger] m.advance_by(n)).accepts(),
    ensures
        !m.emits(),
{
    let (i, j) = lemma_states_collide(m);
    assert forall|k: nat| !m.emits_after(k) by {
        if k >= 1 {
            lemma_cycle_never_accepts(m, i, j, k);
        }
    }
}

/// An emitted value passes the accept filter and is reduced; the parameters stay.
pub proof fn lemma_draw_accepted(m: GeneratorModel)
    requires
        m.valid(),
        m.emits(),
    ensures
        m.draw() matches Some(next) && next.accepts() && next.valid() && next.modulus == m.modulus
            && next.factor == m.factor && next.accept == m.accept,
{
    lemma_advance_by_valid(m, m.steps_to_emit());
}

/// With the accept divisor 1 every raw step is emitted.
pub proof fn lemma_unfiltered_emits_each_step(m: GeneratorModel)
    requires
        m.valid(),
        m.accept == 1,
    ensures
        m.draw() == Some(m.advance()),
{
    reveal_with_fuel(GeneratorModel::advance_by, 2);
    assert(m.advance_by(1) == m.advance());
    assert(m.emits_after(1));
    lemma_emits_after_unique(m, 1, m.steps_to_emit());
}

/// Whether `a` and `b` agree in their lowest sixteen bits.
pub fn compare_low_bits(a: u64, b: u64) -> (same: bool)
    ensures
        same == agree(a as nat, b as nat),
{
    a % JUDGE_MODULUS == b % JUDGE_MODULUS
}

/// `(a * b) mod m`, computed without overflow for every pair of operands.
fn mul_mod(a: u64, b: u64, m: u64) -> (r: u64)
    requires
        m > 0,
    ensures
        r == (a as nat * b as nat) % (m as nat),
{
    match a.checked_mul(b) {
        Some(product) => product % m,
        None => {
            assert(a as u128 * b as u128 <= 0xffff_ffff_ffff_ffff * 0xffff_ffff_ffff_ffff)
                by (nonlinear_arith)
                requires
                    a <= 0xffff_ffff_ffff_ffff,
                    b <= 0xffff_ffff_ffff_ffff,
            ;
            let wide: u128 = (a as u128 * b as u128) % (m as u128);
            wide as u64
        },
    }
}

/// A multiplicative congruential generator with an accept filter.
pub struct Generator {
    modulus: u64,
    factor: u64,
    state: u64,
    accept: u64,
}

impl View for Generator {
    type V = GeneratorModel;

    closed spec fn view(&self) -> GeneratorModel {
        GeneratorModel {
            modulus: self.modulus as nat,
            factor: self.factor as nat,
            state: self.state as nat,
            accept: self.accept as nat,
        }
    }
}

impl Generator {
    #[verifier::type_invariant]
    spec fn well_formed(&self) -> bool {
        self@.valid()
    }

    /// A generator that emits every state, starting after `seed`.
    ///
    /// The modulus zero is rejected.
    pub fn new(modulus: u64, factor: u64, seed: u64) -> (made: Result<Generator, ConfigError>)
        ensures
            match made {
                Ok(g) => modulus > 0 && g@ == (GeneratorModel {
                    modulus: modulus as nat,
                    factor: factor as nat,
                    state: (seed % modulus) as nat,
                    accept: 1,
                }),
                Err(e) => modulus == 0 && e == ConfigError::ZeroModulus,
            },
    {
        Generator::with_accept(modulus, factor, seed, 1)
    }

    /// A generator that emits only the states divisible by `accept`, starting after `seed`.
    ///
    /// The modulus zero is rejected, and for a positive modulus the accept divisor zero.
    pub fn with_accept(modulus: u64, factor: u64, seed: u64, accept: u64) -> (made: Result<
        Generator,
        ConfigError,
    >)
        ensures
            match made {
                Ok(g) => modulus > 0 && accept > 0 && g@ == (GeneratorModel {
                    modulus: modulus as nat,
                    factor: factor as nat,
                    state: (seed % modulus) as nat,
                    accept: accept as nat,
                }),
                Err(ConfigError::ZeroModulus) => modulus == 0,
                Err(ConfigError::ZeroAcceptDivisor) => modulus > 0 && accept == 0,
                Err(ConfigError::ZeroRange) => false,
            },
    {
        if modulus == 0 {
            Err(ConfigError::ZeroModulus)
        } else if accept == 0 {
            Err(ConfigError::ZeroAcceptDivisor)
        } else {
            Ok(Generator { modulus, factor, state: seed % modulus, accept })
        }
    }

    /// Advances to the next state that passes the accept filter and returns it.
    ///
    /// `None` means that no later state passes the filter; the generator has then
    /// taken `modulus` raw steps.
    pub fn next_value(&mut self) -> (drawn: Option<u64>)
        ensures
            old(self)@.valid(),
            final(self)@.valid(),
            drawn is Some <==> old(self)@.emits(),
            drawn matches Some(value) ==> {
                &&& old(self)@.draw() == Some(final(self)@)
                &&& value == final(self)@.state
                &&& value % (old(self)@.accept as u64) == 0
                &&& value < old(self)@.modulus
            },
            drawn is None ==> final(self)@ == old(self)@.advance_by(old(self)@.modulus),
    {
        proof {
            use_type_invariant(&*self);
        }
        let ghost start = self@;
        let mut taken: u64 = 0;
        while taken < self.modulus
            invariant
                start == old(self)@,
                start.valid(),
                taken <= self.modulus,
                self@ == start.advance_by(taken as nat),
                self@.valid(),
                self@.modulus == start.modulus,
                self@.accept == start.accept,
                forall|n: nat| 1 <= n <= taken ==> !(#[trigger] start.advance_by(n)).accepts(),
            decreases self.modulus - taken,
        {
            proof {
                lemma_advance_by_valid(start, taken as nat);
                lemma_advance_by_valid(start, (taken + 1) as nat);
            }
            self.state = mul_mod(self.state, self.factor, self.modulus);
            taken = taken + 1;
            if self.state % self.accept == 0 {
                proof {
                    assert(start.emits_after(taken as nat));
                    lemma_emits_after_unique(start, taken as nat, start.steps_to_emit());
                }
                return Some(self.state);
            }
        }
        proof {
            lemma_silent_within_modulus(start);
        }
        None
    }
}

/// If a generator cannot emit `n` values it cannot emit more than `n` either.
pub proof fn lemma_after_draws_stops(m: GeneratorModel, n: nat, later: nat)
    requires
        m.after_draws(n) is None,
        n <= later,
    ensures
        m.after_draws(later) is None,
    decreases later,
{
    if n < later {
        lemma_after_draws_stops(m, n, (later - 1) as nat);
    }
}

/// Draws `pair_count` values from each generator, one per generator per pair, and
/// counts the pairs that agree in their lowest sixteen bits.
///
/// `None` means that one of the generators has fewer than `pair_count` values to emit.
pub fn run_judge(gen_a: Generator, gen_b: Generator, pair_count: usize) -> (count: Option<u64>)
    ensures
        count is Some <==> gen_a@.after_draws(pair_count as nat) is Some && gen_b@.after_draws(
            pair_count as nat,
        ) is Some,
        count matches Some(c) ==> c == agreements(gen_a@, gen_b@, pair_count as nat),
{
    let mut a = gen_a;
    let mut b = gen_b;
    let mut matched: u64 = 0;
    let mut drawn: usize = 0;
    while drawn < pair_count
        invariant
            drawn <= pair_count,
            matched <= drawn,
            gen_a@.after_draws(drawn as nat) == Some(a@),
            gen_b@.after_draws(drawn as nat) == Some(b@),
            matched == agreements(gen_a@, gen_b@, drawn as nat),
        decreases pair_count - drawn,
    {
        let from_a = a.next_value();
        let value_a = match from_a {
            Some(value) => value,
            None => {
                proof {
                    lemma_after_draws_stops(gen_a@, (drawn + 1) as nat, pair_count as nat);
                }
                return None;
            },
        };
        let from_b = b.next_value();
        let value_b = match from_b {
            Some(value) => value,
            None => {
                proof {
                    lemma_after_draws_stops(gen_b@, (drawn + 1) as nat, pair_count as nat);
                }
                return None;
            },
        };
        drawn = drawn + 1;
        if compare_low_bits(value_a, value_b) {
            matched = matched + 1;
        }
    }
    Some(matched)
}

} // verus!
