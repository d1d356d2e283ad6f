//! The closed taxonomy of road classes, the lookup from a raw `highway` tag
//! value into it, and the per-class share of real-world ways that carry an
//! explicit speed tag.

use vstd::prelude::*;

verus! {

/// A recognized road class. A raw tag value outside this table yields no
/// classification rather than an error.
#[derive(Clone, Copy, PartialEq, Eq, Structural, Debug)]
pub enum Highway {
    /// A restricted-access major divided highway.
    Motorway,
    /// The most important roads that are not motorways.
    Trunk,
    /// The next most important roads, often linking larger towns.
    Primary,
    /// The next most important roads, often linking towns.
    Secondary,
    /// The next most important roads, often linking smaller settlements.
    Tertiary,
    /// The least important through roads; a historical label, not an unknown.
    Unclassified,
    /// Roads that give access to housing.
    Residential,
    /// Slip roads leading to or from a motorway.
    MotorwayLink,
    /// Slip roads leading to or from a trunk road.
    TrunkLink,
    /// Slip roads leading to or from a primary road.
    PrimaryLink,
    /// Slip roads leading to or from a secondary road.
    SecondaryLink,
    /// Slip roads leading to or from a tertiary road.
    TertiaryLink,
    /// Residential streets where pedestrians have legal priority.
    LivingStreet,
    /// A road of unknown type, awaiting survey.
    Road,
}

/// The fixed table from a raw `highway` tag value to its road class.
pub open spec fn classify_spec(s: Seq<char>) -> Option<Highway> {
    if s == "motorway"@ {
        Some(Highway::Motorway)
    } else if s == "trunk"@ {
        Some(Highway::Trunk)
    } else if s == "primary"@ {
        Some(Highway::Primary)
    } else if s == "secondary"@ {
        Some(Highway::Secondary)
    } else if s == "tertiary"@ {
        Some(Highway::Tertiary)
    } else if s == "unclassified"@ {
        Some(Highway::Unclassified)
    } else if s == "residential"@ {
        Some(Highway::Residential)
    } else if s == "motorway_link"@ {
        Some(Highway::MotorwayLink)
    } else if s == "trunk_link"@ {
        Some(Highway::TrunkLink)
    } else if s == "primary_link"@ {
        Some(Highway::PrimaryLink)
    } else if s == "secondary_link"@ {
        Some(Highway::SecondaryLink)
    } else if s == "tertiary_link"@ {
        Some(Highway::TertiaryLink)
    } else if s == "living_street"@ {
        Some(Highway::LivingStreet)
    } else if s == "road"@ {
        Some(Highway::Road)
    } else {
        None
    }
}

/// Compares two string slices by contents.
pub fn str_eq(a: &str, b: &str) -> (r: bool)
    ensures
        r == (a@ == b@),
{
    let sa = a.to_owned();
    let sb = b.to_owned();
    sa.eq(&sb)
}

impl Highway {
    /// Looks a raw `highway` tag value up in the fixed table of road classes.
    /// Unrecognized values, the empty string included, yield no classification.
    pub fn classify(s: &str) -> (r: Option<Highway>)
        ensures
            r == classify_spec(s@),
    {
        if str_eq(s, "motorway") {
            Some(Highway::Motorway)
        } else if str_eq(s, "trunk") {
            Some(Highway::Trunk)
        } else if str_eq(s, "primary") {
            Some(Highway::Primary)
        } else if str_eq(s, "secondary") {
            Some(Highway::Secondary)
        } else if str_eq(s, "tertiary") {
            Some(Highway::Tertiary)
        } else if str_eq(s, "unclassified") {
            Some(Highway::Unclassified)
        } else if str_eq(s, "residential") {
            Some(Highway::Residential)
        } else if str_eq(s, "motorway_link") {
            Some(Highway::MotorwayLink)
        } else if str_eq(s, "trunk_link") {
            Some(Highway::TrunkLink)
        } else if str_eq(s, "primary_link") {
            Some(Highway::PrimaryLink)
        } else if str_eq(s, "secondary_link") {
            Some(Highway::SecondaryLink)
        } else if str_eq(s, "tertiary_link") {
            Some(Highway::TertiaryLink)
        } else if str_eq(s, "living_street") {
            Some(Highway::LivingStreet)
        } else if str_eq(s, "road") {
            Some(Highway::Road)
        } else {
            None
        }
    }

    /// The fixed prior for this class: the share of real-world ways of the
    /// class that carry an explicit speed tag, in per-mille.
    pub open spec fn spec_prior_permille(self) -> u16 {
        match self {
            Highway::Motorway => 987,
            Highway::Trunk => 825,
            Highway::Primary => 778,
            Highway::Secondary => 782,
            Highway::Tertiary => 460,
            Highway::Unclassified => 90,
            Highway::Residential => 40,
            Highway::MotorwayLink => 987,
            Highway::TrunkLink => 825,
            Highway::PrimaryLink => 778,
            Highway::SecondaryLink => 782,
            Highway::TertiaryLink => 460,
            Highway::LivingStreet => 70,
            Highway::Road => 0,
        }
    }

    /// Read-only reference data, never a substitute for an explicit speed
    /// value: the share of ways of this class that carry an explicit speed
    /// tag, in per-mille. Link classes carry their parent class's share.
    pub fn speed_tag_prior_permille(self) -> (p: u16)
        ensures
            p == self.spec_prior_permille(),
            p <= 1000,
    {
        match self {
            Highway::Motorway => 987,
            Highway::Trunk => 825,
            Highway::Primary => 778,
            Highway::Secondary => 782,
            Highway::Tertiary => 460,
            Highway::Unclassified => 90,
            Highway::Residential => 40,
            Highway::MotorwayLink => 987,
            Highway::TrunkLink => 825,
            Highway::PrimaryLink => 778,
            Highway::SecondaryLink => 782,
            Highway::TertiaryLink => 460,
            Highway::LivingStreet => 70,
            Highway::Road => 0,
        }
    }
}

/// A tag whose key the index understands, together with its typed reading.
#[derive(Clone, Copy, PartialEq, Eq, Structural, Debug)]
pub enum WayTag {
    /// A recognized `highway` tag.
    Highway(Highway),
}

/// The typed reading of a raw tag pair: a `highway` key with a recognized
/// value, and nothing else.
pub open spec fn way_tag_spec(key: Seq<char>, value: Seq<char>) -> Option<WayTag> {
    if key == "highway"@ {
        match classify_spec(value) {
            Some(h) => Some(WayTag::Highway(h)),
            None => None,
        }
    } else {
        None
    }
}

impl WayTag {
    /// Reads one raw tag pair; tags with other keys, and `highway` tags with
    /// unrecognized values, yield nothing.
    pub fn parse(key: &str, value: &str) -> (r: Option<WayTag>)
        ensures
            r == way_tag_spec(key@, value@),
    {
        if str_eq(key, "highway") {
            match Highway::classify(value) {
                Some(h) => Some(WayTag::Highway(h)),
                None => None,
            }
        } else {
            None
        }
    }
}

} // verus!
