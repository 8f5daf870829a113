use crate::numerics::{
    BigInteger, lemma_add_zero_words, lemma_single_word, lemma_sum_magnitude, magnitude, sum_words,
};
use vstd::prelude::*;
use crate::iterator_extensions::Terms;
use vstd::std_specs::iter::IteratorSpecImpl;

verus! {

/// The Fibonacci numbers: 0, 1, 1, 2, 3, 5, ...
pub open spec fn fib(n: nat) -> nat
    decreases n,
{
    if n == 0 {
        0
    } else if n == 1 {
        1
    } else {
        fib((n - 1) as nat) + fib((n - 2) as nat)
    }
}

/// The words of the `n`-th Fibonacci number as this library's addition builds them:
/// `[0]`, `[1]`, then each the sum of the two before it.
pub open spec fn fib_words(n: nat) -> Seq<u32>
    decreases n,
{
    if n == 0 {
        seq![0u32]
    } else if n == 1 {
        seq![1u32]
    } else {
        sum_words(fib_words((n - 2) as nat), fib_words((n - 1) as nat))
    }
}

/// The words of each term are non-empty and denote the Fibonacci number.
pub proof fn lemma_fib_words(n: nat)
    ensures
        fib_words(n).len() > 0,
        magnitude(fib_words(n)) == fib(n),
    decreases n,
{
    if n == 0 {
        lemma_single_word(0);
    } else if n == 1 {
        lemma_single_word(1);
    } else {
        lemma_fib_words((n - 2) as nat);
        lemma_fib_words((n - 1) as nat);
        lemma_sum_magnitude(fib_words((n - 2) as nat), fib_words((n - 1) as nat));
    }
}

/// An endless source of the Fibonacci numbers as big integers.
pub struct Fib {
    is_zero: bool,
    z: (BigInteger, BigInteger),
    produced: Ghost<nat>,
}

impl Fib {
    /// How many terms have been handed out: the next one is term `produced()`.
    pub closed spec fn produced(&self) -> nat {
        self.produced@
    }

    /// The last two terms, with `[1]` standing before term 0.
    #[verifier::type_invariant]
    closed spec fn inv(&self) -> bool {
        let p = self.produced@;
        &&& self.z.0.wf()
        &&& self.z.1.wf()
        &&& self.is_zero == (p == 0)
        &&& self.z.0.words() == if p <= 1 { seq![1u32] } else { fib_words((p - 2) as nat) }
        &&& self.z.1.words() == if p == 0 { seq![0u32] } else { fib_words((p - 1) as nat) }
    }

    pub fn new() -> (r: Fib)
        ensures
            r.produced() == 0,
            r.handed_out() == 0,
    {
        let one = BigInteger::one();
        let zero = BigInteger::zero();
        Fib { is_zero: true, z: (one, zero), produced: Ghost(0) }
    }
}

impl Iterator for Fib {
    type Item = BigInteger;

    /// The next Fibonacci number; the sequence never ends.
    fn next(&mut self) -> (r: Option<BigInteger>)
        ensures
            final(self).produced() == old(self).produced() + 1,
            r matches Some(v) && v.wf() && v.sign_value() == 1 && v.words() == fib_words(
                old(self).produced(),
            ) && magnitude(v.words()) == fib(old(self).produced()),
    {
        proof {
            use_type_invariant(&*self);
        }
        if self.is_zero {
            let zero = BigInteger::zero();
            proof {
                lemma_fib_words(0);
            }
            let last = self.z.1.clone();
            let before = self.z.0.clone();
            *self = Fib { is_zero: false, z: (before, last), produced: Ghost(1) };
            Some(zero)
        } else {
            let ghost p = self.produced@;
            let sum = self.z.0.add(&self.z.1);
            let prev = self.z.1.clone();
            proof {
                lemma_fib_words(p);
                if p == 1 {
                    lemma_add_zero_words(seq![1u32]);
                }
            }
            let out = sum.clone();
            *self = Fib { is_zero: false, z: (prev, sum), produced: Ghost(p + 1) };
            Some(out)
        }
    }
}

impl Terms for Fib {
    closed spec fn handed_out(&self) -> nat {
        self.produced@
    }

    /// Term `j` is the big integer with the words `fib_words(j)` and a positive sign.
    open spec fn is_term(j: nat, v: BigInteger) -> bool {
        &&& v.wf()
        &&& v.sign_value() == 1
        &&& v.words() == fib_words(j)
    }

    open spec fn endless() -> bool {
        true
    }

    fn next_term(&mut self) -> (r: Option<BigInteger>) {
        self.next()
    }
}

impl IteratorSpecImpl for Fib {
    open spec fn obeys_prophetic_iter_laws(&self) -> bool {
        false
    }

    closed spec fn remaining(&self) -> Seq<BigInteger> {
        Seq::empty()
    }

    closed spec fn will_return_none(&self) -> bool {
        false
    }

    closed spec fn decrease(&self) -> Option<nat> {
        None
    }

    open spec fn initial_value_relation(&self, init: &Self) -> bool {
        true
    }

    open spec fn peek(&self, index: int) -> Option<BigInteger> {
        None
    }
}

} // verus!
