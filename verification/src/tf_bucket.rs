//! Term-frequency quantization into four-bit buckets.
use vstd::prelude::*;

verus! {

/// Number of bits in a stored term-frequency bucket.
pub const BUCKET_BITS: u8 = 4;
/// Number of representable term-frequency buckets.
pub const BUCKET_COUNT: usize = 16;
/// Largest valid bucket value.
pub const BUCKET_MAX: u8 = 15;

/// The representative count of bucket `b`, which is also the first
/// positive count that falls into it.
pub open spec fn rep(b: int) -> u32 {
    if b <= 0 { 1 }
    else if b == 1 { 2 }
    else if b == 2 { 3 }
    else if b == 3 { 5 }
    else if b == 4 { 10 }
    else if b == 5 { 20 }
    else if b == 6 { 41 }
    else if b == 7 { 85 }
    else if b == 8 { 177 }
    else if b == 9 { 371 }
    else if b == 10 { 777 }
    else if b == 11 { 1_626 }
    else if b == 12 { 3_405 }
    else if b == 13 { 7_132 }
    else if b == 14 { 14_938 }
    else { 31_288 }
}

/// `b` is the bucket of raw count `count`: the last bucket whose
/// representative does not exceed the count (counts below one count as one).
pub open spec fn is_bucket_of(count: u32, b: int) -> bool {
    let c = if count < 1 { 1 } else { count };
    &&& 0 <= b <= 15
    &&& rep(b) <= c
    &&& (b == 15 || c < rep(b + 1))
}

/// The representatives increase strictly from bucket to bucket.
pub proof fn lemma_rep_strictly_increasing(a: int, b: int)
    requires
        0 <= a < b <= 15,
    ensures
        rep(a) < rep(b),
{
}

/// The bucket of a count is unique.
pub proof fn lemma_bucket_unique(count: u32, a: int, b: int)
    requires
        is_bucket_of(count, a),
        is_bucket_of(count, b),
    ensures
        a == b,
{
    if a < b {
        lemma_rep_strictly_increasing(a + 1, b);
        if a + 1 < b {
        }
    } else if b < a {
        lemma_rep_strictly_increasing(b + 1, a);
    }
}

/// A validated four-bit term-frequency bucket.
#[derive(Clone, Copy, Debug, Eq, Ord, PartialEq, PartialOrd, Structural)]
pub struct TfBucket(pub(crate) u8);

impl TfBucket {
    /// The bucket's raw value.
    pub closed spec fn spec_value(self) -> u8 {
        self.0
    }

    #[verifier::type_invariant]
    spec fn fits_four_bits(self) -> bool {
        self.0 <= 15
    }

    /// Quantizes a raw count using the bucket boundaries.
    pub fn from_count(count: u32) -> (r: Self)
        ensures
            is_bucket_of(count, r.spec_value() as int),
    {
        let positive_count = if count < 1 { 1 } else { count };
        let mut b: u8 = 0;
        while b < BUCKET_MAX && representative(b + 1) <= positive_count
            invariant
                b <= 15,
                rep(b as int) <= positive_count,
                positive_count == (if count < 1 { 1 } else { count }),
            decreases 15 - b,
        {
            b += 1;
        }
        TfBucket(b)
    }

    /// Validates a bucket decoded from an external representation.
    pub fn new(value: u8) -> (r: Option<Self>)
        ensures
            value <= BUCKET_MAX ==> (r matches Some(b) && b.spec_value() == value),
            value > BUCKET_MAX ==> r is None,
    {
        if value <= BUCKET_MAX {
            Some(TfBucket(value))
        } else {
            None
        }
    }

    /// The bucket's raw value.
    pub fn value(self) -> (r: u8)
        ensures
            r == self.spec_value(),
            r <= BUCKET_MAX,
    {
        proof { use_type_invariant(&self); }
        self.0
    }

    /// The count used by scoring for every raw count in this bucket.
    pub fn representative_count(self) -> (r: u32)
        ensures
            r == rep(self.spec_value() as int),
    {
        proof { use_type_invariant(&self); }
        representative(self.0)
    }
}

fn representative(b: u8) -> (r: u32)
    requires
        b <= 15,
    ensures
        r == rep(b as int),
{
    match b {
        0 => 1,
        1 => 2,
        2 => 3,
        3 => 5,
        4 => 10,
        5 => 20,
        6 => 41,
        7 => 85,
        8 => 177,
        9 => 371,
        10 => 777,
        11 => 1_626,
        12 => 3_405,
        13 => 7_132,
        14 => 14_938,
        _ => 31_288,
    }
}

/// The bucket value of a raw count.
pub fn quantize_tf_count(count: u32) -> (r: u8)
    ensures
        is_bucket_of(count, r as int),
{
    TfBucket::from_count(count).value()
}

/// The representative count of a stored bucket value.
pub fn representative_tf_count(bucket: u8) -> (r: u32)
    requires
        bucket <= BUCKET_MAX,
    ensures
        r == rep(bucket as int),
{
    let b = TfBucket(bucket);
    b.representative_count()
}

/// Quantization is monotonic: a larger count never lands in a smaller bucket.
pub proof fn lemma_quantization_monotonic(c1: u32, c2: u32, b1: int, b2: int)
    requires
        c1 <= c2,
        is_bucket_of(c1, b1),
        is_bucket_of(c2, b2),
    ensures
        b1 <= b2,
{
    if b2 < b1 {
        lemma_rep_strictly_increasing(b2 + 1, b1);
        if b2 + 1 < b1 {
        }
    }
}

/// Each representative count falls into its own bucket, so a count's
/// representative never exceeds the count and quantizing it is stable.
pub proof fn lemma_representative_round_trip(b: int)
    requires
        0 <= b <= 15,
    ensures
        is_bucket_of(rep(b), b),
{
}

} // verus!
