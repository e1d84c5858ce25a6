//! The events of an admission year as bits of one status byte.

use vstd::prelude::*;

verus! {

/// The student applied to the college.
pub const APPLY: u8 = 1;

/// The private college made a first offer.
pub const ENROLL_1ST: u8 = 2;

/// The student paid the deposit and holds the offer.
pub const RESERVE: u8 = 4;

/// The student accepted the first offer of a private college.
pub const ADMISSION_1ST: u8 = 8;

/// The public college made an offer.
pub const ENROLL_2ND: u8 = 16;

/// The student took up an offer it had held.
pub const ADMISSION_2ND: u8 = 32;

/// The private college made an offer from its waitlist.
pub const ENROLL_3RD: u8 = 64;

/// The student accepted an offer from the waitlist.
pub const ADMISSION_3RD: u8 = 128;

/// Applied, no offer.
pub const R_FAILED: u8 = 1;

/// First offer, turned down without a deposit.
pub const R_DECLINE1: u8 = 3;

/// First offer, deposit paid, not taken up.
pub const R_DECLINE1_PAID: u8 = 7;

/// Offer from the waitlist, turned down.
pub const R_DECLINE2: u8 = 65;

/// First offer held against a deposit: the same byte as [`R_DECLINE1_PAID`],
/// read before the year has ended.
pub const R_RESERVED: u8 = 7;

/// Offer from the waitlist, not yet answered: the same byte as [`R_DECLINE2`],
/// read before the year has ended.
pub const R_ENROLL_3RD: u8 = 65;

/// Admitted on the first offer of a private college.
pub const R_ADMISSION_1ST: u8 = 11;

/// Admitted to a public college.
pub const R_ADMISSION_2ND: u8 = 17;

/// Admitted on an offer that was held.
pub const R_ADMISSION_RSV: u8 = 39;

/// Admitted from the waitlist.
pub const R_ADMISSION_3RD: u8 = 193;

/// The status that holds the events of both `a` and `b`.
pub open spec fn spec_union(a: u8, b: u8) -> u8 {
    a | b
}

/// Puts the events of two status bytes together.
#[verifier::when_used_as_spec(spec_union)]
pub fn union(a: u8, b: u8) -> (r: u8)
    ensures
        r == spec_union(a, b),
{
    a | b
}

/// The status says that the student is enrolled at the college, by whichever
/// of the four ways.
pub open spec fn spec_is_admitted(status: u8) -> bool {
    status == R_ADMISSION_1ST || status == R_ADMISSION_2ND || status == R_ADMISSION_RSV || status
        == R_ADMISSION_3RD
}

/// Tells whether a status is one of the four that mean enrolment.
#[verifier::when_used_as_spec(spec_is_admitted)]
pub fn is_admitted(status: u8) -> (r: bool)
    ensures
        r == spec_is_admitted(status),
{
    status == R_ADMISSION_1ST || status == R_ADMISSION_2ND || status == R_ADMISSION_RSV || status
        == R_ADMISSION_3RD
}

/// Putting events together is the same in either order.
pub proof fn lemma_union_commutes(a: u8, b: u8)
    ensures
        spec_union(a, b) == spec_union(b, a),
{
    assert(a | b == b | a) by (bit_vector);
}

/// Putting three sets of events together is the same however they are grouped.
pub proof fn lemma_union_associates(a: u8, b: u8, c: u8)
    ensures
        spec_union(spec_union(a, b), c) == spec_union(a, spec_union(b, c)),
{
    assert((a | b) | c == a | (b | c)) by (bit_vector);
}

/// Events that are put in twice count once.
pub proof fn lemma_union_idempotent(a: u8, b: u8)
    ensures
        spec_union(spec_union(a, b), b) == spec_union(a, b),
        spec_union(a, a) == a,
        spec_union(a, 0) == a,
        spec_union(0, a) == a,
        spec_union(a, b) == 0 <==> a == 0 && b == 0,
{
    assert((a | b) | b == a | b) by (bit_vector);
    assert(a | a == a) by (bit_vector);
    assert(a | 0 == a) by (bit_vector);
    assert(0 | a == a) by (bit_vector);
    assert((a | b == 0) <==> (a == 0 && b == 0)) by (bit_vector);
}

} // verus!
