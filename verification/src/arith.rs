//! Powers of two, as the accumulator's peak sizes.

use vstd::prelude::*;

verus! {

/// Two to the power `e`.
pub open spec fn p2(e: nat) -> nat
    decreases e,
{
    if e == 0 {
        1
    } else {
        2 * p2((e - 1) as nat)
    }
}

/// Powers of two are positive.
pub broadcast proof fn p2_pos(e: nat)
    ensures
        #[trigger] p2(e) >= 1,
    decreases e,
{
    if e > 0 {
        p2_pos((e - 1) as nat);
    }
}

/// Powers of two grow strictly with the exponent.
pub proof fn lemma_p2_increases(e1: nat, e2: nat)
    requires
        e1 < e2,
    ensures
        p2(e1) < p2(e2),
    decreases e2,
{
    broadcast use p2_pos;

    if e1 + 1 < e2 {
        lemma_p2_increases(e1, (e2 - 1) as nat);
    }
}

/// The least exponent whose power of two exceeds `n`.
pub open spec fn exp_above(n: nat) -> nat
    decreases n,
{
    if n == 0 {
        0
    } else {
        exp_above((n / 2) as nat) + 1
    }
}

/// `p2(exp_above(n))` does exceed `n`.
pub proof fn lemma_exp_above(n: nat)
    ensures
        p2(exp_above(n)) > n,
    decreases n,
{
    if n > 0 {
        lemma_exp_above((n / 2) as nat);
    }
}

/// For positive `n` the previous power of two does not exceed `n`.
pub proof fn lemma_exp_above_tight(n: nat)
    requires
        n > 0,
    ensures
        exp_above(n) > 0,
        p2((exp_above(n) - 1) as nat) <= n,
    decreases n,
{
    if n / 2 > 0 {
        lemma_exp_above_tight((n / 2) as nat);
        let m = (n / 2) as nat;
        assert(exp_above(n) == exp_above(m) + 1);
        assert(p2(exp_above(m)) == 2 * p2((exp_above(m) - 1) as nat));
        assert(p2((exp_above(n) - 1) as nat) == p2(exp_above(m)));
        assert(p2(exp_above(m)) <= 2 * m);
        assert(2 * m <= n);
    } else {
        assert(n == 1);
        assert(exp_above(1nat) == exp_above(0nat) + 1);
        assert(p2(0nat) == 1);
    }
}

/// `exp_above(n)` is the only exponent that brackets `n` this way.
pub proof fn lemma_exp_above_unique(n: nat, e: nat)
    requires
        p2(e) > n,
        e == 0 || p2((e - 1) as nat) <= n,
    ensures
        e == exp_above(n),
{
    broadcast use p2_pos;

    lemma_exp_above(n);
    if e < exp_above(n) {
        let ea = exp_above(n);
        lemma_exp_above_tight(n);
        if e < (ea - 1) as nat {
            lemma_p2_increases(e, (ea - 1) as nat);
        }
        assert(p2(e) <= p2((ea - 1) as nat));
        assert(false);
    } else if e > exp_above(n) {
        if exp_above(n) < (e - 1) as nat {
            lemma_p2_increases(exp_above(n), (e - 1) as nat);
        }
        if n > 0 {
            lemma_exp_above_tight(n);
            assert(p2((e - 1) as nat) <= n);
            assert(p2(exp_above(n)) <= p2((e - 1) as nat));
            assert(false);
        } else {
            assert(exp_above(n) == 0);
            assert(p2((e - 1) as nat) >= 1);
            assert(false);
        }
    }
}

} // verus!
