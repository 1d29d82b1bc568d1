use vstd::prelude::*;

verus! {

/// Contains all accepted correlation probabilities for [chi_squared], in
/// thousandths: 995 stands for a correlation probability of 0.995.
pub const CORRELATION_PROBS: [u32; 11] = [995, 975, 200, 100, 50, 25, 20, 10, 5, 2, 1];

/// The value of chi^2 with 2 degrees of freedom (x- and y-axis), in
/// ten-thousandths, for a correlation probability given in thousandths;
/// `None` for a probability that has no entry in the table.
pub open spec fn chi_squared_table(correlation_prob: u32) -> Option<u32> {
    if correlation_prob == 995 {
        Some(100)
    } else if correlation_prob == 975 {
        Some(506)
    } else if correlation_prob == 200 {
        Some(32190)
    } else if correlation_prob == 100 {
        Some(46050)
    } else if correlation_prob == 50 {
        Some(59910)
    } else if correlation_prob == 25 {
        Some(73780)
    } else if correlation_prob == 20 {
        Some(78240)
    } else if correlation_prob == 10 {
        Some(92100)
    } else if correlation_prob == 5 {
        Some(105970)
    } else if correlation_prob == 2 {
        Some(124290)
    } else if correlation_prob == 1 {
        Some(138160)
    } else {
        None
    }
}

/// Whether [chi_squared] accepts this correlation probability (in thousandths).
pub open spec fn is_accepted_prob(correlation_prob: u32) -> bool {
    chi_squared_table(correlation_prob) is Some
}

/// Returns the value of chi^2 with 2 degrees of freedom (x- and y-axis).
///
/// The correlation probability is given in thousandths and the result is
/// in ten-thousandths: `chi_squared(5)` is 105970, that is chi^2 = 10.597
/// for a correlation probability of 0.005.
///
/// # Accepted correlation probabilities
///
/// They can also be looked up in [CORRELATION_PROBS]
///
/// - 0.995
/// - 0.975
/// - 0.2
/// - 0.1
/// - 0.05
/// - 0.025
/// - 0.02
/// - 0.01
/// - 0.005
/// - 0.002
/// - 0.001
pub fn chi_squared(correlation_prob: u32) -> (chi2: u32)
    requires
        is_accepted_prob(correlation_prob),
    ensures
        chi_squared_table(correlation_prob) == Some(chi2),
{
    match correlation_prob {
        995 => 100,
        975 => 506,
        200 => 32190,
        100 => 46050,
        50 => 59910,
        25 => 73780,
        20 => 78240,
        10 => 92100,
        5 => 105970,
        2 => 124290,
        _ => 138160,
    }
}

/// Exactly the probabilities listed in [CORRELATION_PROBS] are accepted by
/// [chi_squared].
pub proof fn lemma_correlation_probs_accepted(correlation_prob: u32)
    ensures
        is_accepted_prob(correlation_prob) <==> CORRELATION_PROBS@.contains(correlation_prob),
{
    let probs = CORRELATION_PROBS@;
    assert(probs =~= seq![995u32, 975, 200, 100, 50, 25, 20, 10, 5, 2, 1]);
    if is_accepted_prob(correlation_prob) {
        if correlation_prob == 995 { assert(probs[0] == correlation_prob); }
        else if correlation_prob == 975 { assert(probs[1] == correlation_prob); }
        else if correlation_prob == 200 { assert(probs[2] == correlation_prob); }
        else if correlation_prob == 100 { assert(probs[3] == correlation_prob); }
        else if correlation_prob == 50 { assert(probs[4] == correlation_prob); }
        else if correlation_prob == 25 { assert(probs[5] == correlation_prob); }
        else if correlation_prob == 20 { assert(probs[6] == correlation_prob); }
        else if correlation_prob == 10 { assert(probs[7] == correlation_prob); }
        else if correlation_prob == 5 { assert(probs[8] == correlation_prob); }
        else if correlation_prob == 2 { assert(probs[9] == correlation_prob); }
        else { assert(probs[10] == correlation_prob); }
    }
}

/// The expectation gate widens as the correlation probability falls: of two
/// accepted probabilities, the smaller one has the larger chi^2 value.
pub proof fn lemma_chi_squared_decreasing(p: u32, q: u32)
    requires
        is_accepted_prob(p),
        is_accepted_prob(q),
        p < q,
    ensures
        chi_squared_table(p)->0 > chi_squared_table(q)->0,
{
}

} // verus!
