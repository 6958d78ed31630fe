use vstd::prelude::*;

verus! {

// ---------------------------------------------------------------------
// Synchronisation sequences and sizes.

/// The 11-chip Barker sequence.
pub open spec fn barker_seq() -> Seq<i8> {
    seq![1i8, 1i8, 1i8, -1i8, -1i8, 1i8, -1i8, 1i8, 1i8, -1i8, 1i8]
}

/// Sum of `s[i] * s[i + lag]` over the first `n` positions.
pub open spec fn lagged_sum(s: Seq<i8>, lag: nat, n: nat) -> int
    decreases n,
{
    if n == 0 {
        0
    } else {
        lagged_sum(s, lag, (n - 1) as nat) + s[n - 1] as int * s[n - 1 + lag] as int
    }
}

/// Aperiodic autocorrelation of a chip sequence at a lag.
pub open spec fn autocorrelation(s: Seq<i8>, lag: nat) -> int {
    if s.len() <= lag {
        0
    } else {
        lagged_sum(s, lag, (s.len() - lag) as nat)
    }
}

/// The Barker code (11 chips of +1 / -1) used for synchronization.
pub fn barker_code() -> (res: Vec<i8>)
    ensures
        res@ == barker_seq(),
{
    let res: Vec<i8> = vec![1, 1, 1, -1, -1, 1, -1, 1, 1, -1, 1];
    assert(res@ =~= barker_seq());
    res
}

/// The sync code's autocorrelation peaks at 11 at lag zero; at every other lag its
/// magnitude is at most 5.
pub proof fn lemma_barker_sidelobes(lag: nat)
    ensures
        lag == 0 ==> autocorrelation(barker_seq(), lag) == 11,
        lag > 0 ==> -5 <= autocorrelation(barker_seq(), lag) <= 5,
{
    let b = barker_seq();
    assert(b[0] == 1 && b[1] == 1 && b[2] == 1 && b[3] == -1 && b[4] == -1 && b[5] == 1);
    assert(b[6] == -1 && b[7] == 1 && b[8] == 1 && b[9] == -1 && b[10] == 1);
    assert forall|i: int, j: int| 0 <= i < 11 && 0 <= j < 11 implies #[trigger] ((b[i] as int) * (b[j] as int))
        == if b[i] == b[j] { 1int } else { -1int } by {
        let x = b[i] as int;
        let y = b[j] as int;
        assert(x == 1 || x == -1);
        assert(y == 1 || y == -1);
        assert(x * y == if x == y { 1int } else { -1int }) by (nonlinear_arith)
            requires
                x == 1 || x == -1,
                y == 1 || y == -1,
        ;
    }
    if lag >= 11 {
    } else if lag == 0 {
        assert(lagged_sum(b, 0, 0) == 0);
        assert(lagged_sum(b, 0, 1) == 1);
        assert(lagged_sum(b, 0, 2) == 2);
        assert(lagged_sum(b, 0, 3) == 3);
        assert(lagged_sum(b, 0, 4) == 4);
        assert(lagged_sum(b, 0, 5) == 5);
        assert(lagged_sum(b, 0, 6) == 6);
        assert(lagged_sum(b, 0, 7) == 7);
        assert(lagged_sum(b, 0, 8) == 8);
        assert(lagged_sum(b, 0, 9) == 9);
        assert(lagged_sum(b, 0, 10) == 10);
        assert(lagged_sum(b, 0, 11) == 11);
    } else if lag == 1 {
        assert(lagged_sum(b, 1, 0) == 0);
        assert(lagged_sum(b, 1, 1) == 1);
        assert(lagged_sum(b, 1, 2) == 2);
        assert(lagged_sum(b, 1, 3) == 1);
        assert(lagged_sum(b, 1, 4) == 2);
        assert(lagged_sum(b, 1, 5) == 1);
        assert(lagged_sum(b, 1, 6) == 0);
        assert(lagged_sum(b, 1, 7) == -1);
        assert(lagged_sum(b, 1, 8) == 0);
        assert(lagged_sum(b, 1, 9) == -1);
        assert(lagged_sum(b, 1, 10) == -2);
    } else if lag == 2 {
        assert(lagged_sum(b, 2, 0) == 0);
        assert(lagged_sum(b, 2, 1) == 1);
        assert(lagged_sum(b, 2, 2) == 0);
        assert(lagged_sum(b, 2, 3) == -1);
        assert(lagged_sum(b, 2, 4) == -2);
        assert(lagged_sum(b, 2, 5) == -1);
        assert(lagged_sum(b, 2, 6) == 0);
        assert(lagged_sum(b, 2, 7) == -1);
        assert(lagged_sum(b, 2, 8) == -2);
        assert(lagged_sum(b, 2, 9) == -1);
    } else if lag == 3 {
        assert(lagged_sum(b, 3, 0) == 0);
        assert(lagged_sum(b, 3, 1) == -1);
        assert(lagged_sum(b, 3, 2) == -2);
        assert(lagged_sum(b, 3, 3) == -1);
        assert(lagged_sum(b, 3, 4) == 0);
        assert(lagged_sum(b, 3, 5) == -1);
        assert(lagged_sum(b, 3, 6) == 0);
        assert(lagged_sum(b, 3, 7) == 1);
        assert(lagged_sum(b, 3, 8) == 2);
    } else if lag == 4 {
        assert(lagged_sum(b, 4, 0) == 0);
        assert(lagged_sum(b, 4, 1) == -1);
        assert(lagged_sum(b, 4, 2) == 0);
        assert(lagged_sum(b, 4, 3) == -1);
        assert(lagged_sum(b, 4, 4) == -2);
        assert(lagged_sum(b, 4, 5) == -3);
        assert(lagged_sum(b, 4, 6) == -4);
        assert(lagged_sum(b, 4, 7) == -5);
    } else if lag == 5 {
        assert(lagged_sum(b, 5, 0) == 0);
        assert(lagged_sum(b, 5, 1) == 1);
        assert(lagged_sum(b, 5, 2) == 0);
        assert(lagged_sum(b, 5, 3) == 1);
        assert(lagged_sum(b, 5, 4) == 0);
        assert(lagged_sum(b, 5, 5) == 1);
        assert(lagged_sum(b, 5, 6) == 2);
    } else if lag == 6 {
        assert(lagged_sum(b, 6, 0) == 0);
        assert(lagged_sum(b, 6, 1) == -1);
        assert(lagged_sum(b, 6, 2) == 0);
        assert(lagged_sum(b, 6, 3) == 1);
        assert(lagged_sum(b, 6, 4) == 2);
        assert(lagged_sum(b, 6, 5) == 1);
    } else if lag == 7 {
        assert(lagged_sum(b, 7, 0) == 0);
        assert(lagged_sum(b, 7, 1) == 1);
        assert(lagged_sum(b, 7, 2) == 2);
        assert(lagged_sum(b, 7, 3) == 1);
        assert(lagged_sum(b, 7, 4) == 0);
    } else if lag == 8 {
        assert(lagged_sum(b, 8, 0) == 0);
        assert(lagged_sum(b, 8, 1) == 1);
        assert(lagged_sum(b, 8, 2) == 0);
        assert(lagged_sum(b, 8, 3) == 1);
    } else if lag == 9 {
        assert(lagged_sum(b, 9, 0) == 0);
        assert(lagged_sum(b, 9, 1) == -1);
        assert(lagged_sum(b, 9, 2) == 0);
    } else if lag == 10 {
        assert(lagged_sum(b, 10, 0) == 0);
        assert(lagged_sum(b, 10, 1) == 1);
    }
}

/// Whether a number is a power of two.
pub open spec fn is_pow2(p: nat) -> bool
    decreases p,
{
    if p == 1 {
        true
    } else if p < 2 || p % 2 == 1 {
        false
    } else {
        is_pow2(p / 2)
    }
}

/// The smallest power of two that is at least `n` (1 for 0).
pub(crate) fn next_power_of_two(n: usize) -> (res: usize)
    requires
        n <= usize::MAX / 2 + 1,
    ensures
        is_pow2(res as nat),
        res >= n,
        res == 1 || res / 2 < n,
{
    if n == 0 {
        return 1;
    }
    let mut power: usize = 1;
    while power < n
        invariant
            1 <= power,
            is_pow2(power as nat),
            power == 1 || power / 2 < n,
            n <= usize::MAX / 2 + 1,
        decreases usize::MAX - power,
    {
        power = power * 2;
        assert((power / 2) * 2 == power);
    }
    power
}

} // verus!
