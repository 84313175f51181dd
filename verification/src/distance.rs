//! How two vectors are compared.
use vstd::prelude::*;

verus! {

/// The distance between two vectors.
#[derive(Clone, Copy, Debug, PartialEq, Eq, Structural)]
pub enum DistanceType {
    /// Squared Euclidean distance.
    L2,
    /// One less the cosine of the angle.
    Cosine,
    /// One less the dot product.
    Dot,
    /// The number of differing bits.
    Hamming,
}

impl DistanceType {
    /// The lower-case name.
    pub open spec fn label(self) -> Seq<char> {
        match self {
            DistanceType::L2 => "l2"@,
            DistanceType::Cosine => "cosine"@,
            DistanceType::Dot => "dot"@,
            DistanceType::Hamming => "hamming"@,
        }
    }

    /// The lower-case name.
    pub fn name(self) -> (s: &'static str)
        ensures
            s@ == self.label(),
    {
        match self {
            DistanceType::L2 => "l2",
            DistanceType::Cosine => "cosine",
            DistanceType::Dot => "dot",
            DistanceType::Hamming => "hamming",
        }
    }
}

/// The name of each distance.
pub proof fn lemma_each_has_its_name(distance_type: DistanceType, s: &'static str)
    requires
        call_ensures(DistanceType::name, (distance_type,), s),
    ensures
        distance_type is L2 ==> s@ == seq!['l', '2'],
        distance_type is Cosine ==> s@ == seq!['c', 'o', 's', 'i', 'n', 'e'],
        distance_type is Dot ==> s@ == seq!['d', 'o', 't'],
        distance_type is Hamming ==> s@ == seq!['h', 'a', 'm', 'm', 'i', 'n', 'g'],
{
    reveal_strlit("l2");
    reveal_strlit("cosine");
    reveal_strlit("dot");
    reveal_strlit("hamming");
}

} // verus!
