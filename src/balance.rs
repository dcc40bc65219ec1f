use vstd::prelude::*;

verus! {

pub open spec fn two_pow(h: nat) -> nat
    decreases h,
{
    if h == 0 {
        1
    } else {
        2 * two_pow((h - 1) as nat)
    }
}

/// The balance parameter alpha is fixed at 1/sqrt(2). A depth `h` is within
/// the alpha-height of a tree of `n` nodes, `floor(log_{1/alpha}(n))`, exactly
/// when `(sqrt 2)^h <= n`, that is when `2^h <= n * n`.
pub open spec fn within_alpha_height(h: nat, n: nat) -> bool {
    two_pow(h) <= n * n
}

pub proof fn lemma_two_pow_positive(h: nat)
    ensures
        two_pow(h) >= 1,
    decreases h,
{
    if h > 0 {
        lemma_two_pow_positive((h - 1) as nat);
    }
}

pub proof fn lemma_two_pow_monotone(a: nat, b: nat)
    requires
        a <= b,
    ensures
        two_pow(a) <= two_pow(b),
    decreases b,
{
    if a < b {
        lemma_two_pow_monotone(a, (b - 1) as nat);
        lemma_two_pow_positive((b - 1) as nat);
    }
}

/// The alpha-height grows with the size and shrinks with the depth.
pub proof fn lemma_within_monotone(h1: nat, n1: nat, h2: nat, n2: nat)
    requires
        within_alpha_height(h2, n1),
        h1 <= h2,
        n1 <= n2,
    ensures
        within_alpha_height(h1, n2),
{
    lemma_two_pow_monotone(h1, h2);
    assert(n1 * n1 <= n2 * n2) by (nonlinear_arith)
        requires
            n1 <= n2,
    ;
}

/// A depth whose power of two fits in the size is within the alpha-height.
pub proof fn lemma_log2_within(h: nat, n: nat)
    requires
        two_pow(h) <= n,
    ensures
        within_alpha_height(h, n),
{
    lemma_two_pow_positive(h);
    assert(n <= n * n) by (nonlinear_arith)
        requires
            n >= 1,
    ;
}

/// A level that fails the check lies more than `log2` of its size above the
/// new branch, so a minimum-height rebuild of it lowers that branch.
pub proof fn lemma_failing_level_exceeds_log2(k: nat, s: nat)
    requires
        !within_alpha_height(k, s),
    ensures
        two_pow(k) > s,
{
    if two_pow(k) <= s {
        lemma_log2_within(k, s);
    }
}

/// Decides `within_alpha_height(h, n)`.
pub fn alpha_height_allows(h: usize, n: usize) -> (r: bool)
    ensures
        r == within_alpha_height(h as nat, n as nat),
{
    let n128: u128 = n as u128;
    assert(n128 * n128 <= u128::MAX) by (nonlinear_arith)
        requires
            n128 <= u64::MAX,
    ;
    let nn: u128 = n128 * n128;
    assert(nn == (n as nat) * (n as nat));
    if nn == 0 {
        proof {
            lemma_two_pow_positive(h as nat);
        }
        return false;
    }
    let mut p: u128 = 1;
    let mut i: usize = 0;
    while i < h
        invariant
            i <= h,
            p as nat == two_pow(i as nat),
            p <= nn,
            nn == (n as nat) * (n as nat),
        decreases h - i,
    {
        if p > nn / 2 {
            proof {
                lemma_two_pow_monotone((i + 1) as nat, h as nat);
            }
            return false;
        }
        p = p * 2;
        i = i + 1;
    }
    true
}

} // verus!
