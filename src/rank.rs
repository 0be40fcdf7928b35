use vstd::prelude::*;
use vstd::string::*;

use crate::text::chars_of;

verus! {

/// A taxonomic level. The fixed levels run from the broadest (`NoRank`)
/// to the narrowest (`SubSpecies`); any other rank name is kept verbatim in
/// `UnusedRanks`, which is narrower than every fixed level.
#[derive(Debug, Clone)]
pub enum TaxonomyRank {
    NoRank,
    Kingdom,
    Class,
    Order,
    Clade,
    Family,
    Genus,
    Species,
    SubSpecies,
    UnusedRanks(String),
}

/// Position of a rank in the order of specificity: fixed levels get 0 to 8,
/// every unused rank gets 9.
pub open spec fn level_of(r: TaxonomyRank) -> nat {
    match r {
        TaxonomyRank::NoRank => 0,
        TaxonomyRank::Kingdom => 1,
        TaxonomyRank::Class => 2,
        TaxonomyRank::Order => 3,
        TaxonomyRank::Clade => 4,
        TaxonomyRank::Family => 5,
        TaxonomyRank::Genus => 6,
        TaxonomyRank::Species => 7,
        TaxonomyRank::SubSpecies => 8,
        TaxonomyRank::UnusedRanks(_) => 9,
    }
}

/// `a` is strictly broader than `b`.
pub open spec fn rank_lt(a: TaxonomyRank, b: TaxonomyRank) -> bool {
    level_of(a) < level_of(b)
}

/// Ranks at or above the clade threshold get a descendant closure.
pub open spec fn qualifies(r: TaxonomyRank) -> bool {
    level_of(r) <= 4
}

/// Equality of ranks: the same fixed level, or two unused ranks of the same name.
pub open spec fn rank_eq(a: TaxonomyRank, b: TaxonomyRank) -> bool {
    match (a, b) {
        (TaxonomyRank::UnusedRanks(x), TaxonomyRank::UnusedRanks(y)) => x@ == y@,
        _ => level_of(a) == level_of(b),
    }
}

/// The textual form of a rank.
pub open spec fn text_of(r: TaxonomyRank) -> Seq<char> {
    match r {
        TaxonomyRank::NoRank => "norank"@,
        TaxonomyRank::Kingdom => "kingdom"@,
        TaxonomyRank::Class => "class"@,
        TaxonomyRank::Order => "order"@,
        TaxonomyRank::Clade => "clade"@,
        TaxonomyRank::Family => "family"@,
        TaxonomyRank::Genus => "genus"@,
        TaxonomyRank::Species => "species"@,
        TaxonomyRank::SubSpecies => "subspecies"@,
        TaxonomyRank::UnusedRanks(s) => s@,
    }
}

/// The fixed level that a rank name denotes, if any. The dump writes the
/// broadest level as "no rank"; "norank" is accepted as well.
pub open spec fn fixed_level_of_text(s: Seq<char>) -> Option<nat> {
    if s == "norank"@ || s == "no rank"@ {
        Some(0)
    } else if s == "kingdom"@ {
        Some(1)
    } else if s == "class"@ {
        Some(2)
    } else if s == "order"@ {
        Some(3)
    } else if s == "clade"@ {
        Some(4)
    } else if s == "family"@ {
        Some(5)
    } else if s == "genus"@ {
        Some(6)
    } else if s == "species"@ {
        Some(7)
    } else if s == "subspecies"@ {
        Some(8)
    } else {
        None
    }
}

/// `r` is what the rank name `s` parses to.
pub open spec fn parses_to(s: Seq<char>, r: TaxonomyRank) -> bool {
    match fixed_level_of_text(s) {
        Some(k) => !(r is UnusedRanks) && level_of(r) == k,
        None => r is UnusedRanks && r->UnusedRanks_0@ == s,
    }
}

/// Character-wise equality of two strings.
pub fn text_eq(a: &str, b: &str) -> (r: bool)
    ensures
        r == (a@ == b@),
{
    let ac = chars_of(a);
    let bc = chars_of(b);
    let n = ac.len();
    let m = bc.len();
    if n != m {
        return false;
    }
    let mut i: usize = 0;
    while i < n
        invariant
            n == a@.len(),
            m == b@.len(),
            n == m,
            ac@ == a@,
            bc@ == b@,
            i <= n,
            forall|k: int| 0 <= k < i ==> a@[k] == b@[k],
        decreases n - i,
    {
        if ac[i] != bc[i] {
            return false;
        }
        i = i + 1;
    }
    proof {
        assert(a@ =~= b@);
    }
    true
}

impl PartialEq for TaxonomyRank {
    fn eq(&self, other: &TaxonomyRank) -> (r: bool) {
        match (self, other) {
            (TaxonomyRank::UnusedRanks(x), TaxonomyRank::UnusedRanks(y)) => text_eq(x.as_str(), y.as_str()),
            _ => self.level() == other.level(),
        }
    }
}

impl vstd::std_specs::cmp::PartialEqSpecImpl for TaxonomyRank {
    open spec fn obeys_eq_spec() -> bool {
        true
    }

    open spec fn eq_spec(&self, other: &TaxonomyRank) -> bool {
        rank_eq(*self, *other)
    }
}

/// Comparison of ranks by specificity. Two unused ranks compare equal when
/// their names are equal, and are otherwise left unordered.
pub open spec fn rank_cmp(a: TaxonomyRank, b: TaxonomyRank) -> Option<core::cmp::Ordering> {
    if level_of(a) < level_of(b) {
        Some(core::cmp::Ordering::Less)
    } else if level_of(a) > level_of(b) {
        Some(core::cmp::Ordering::Greater)
    } else if rank_eq(a, b) {
        Some(core::cmp::Ordering::Equal)
    } else {
        None
    }
}

impl PartialOrd for TaxonomyRank {
    fn partial_cmp(&self, other: &TaxonomyRank) -> (r: Option<core::cmp::Ordering>) {
        let a = self.level();
        let b = other.level();
        if a < b {
            Some(core::cmp::Ordering::Less)
        } else if a > b {
            Some(core::cmp::Ordering::Greater)
        } else if self.eq(other) {
            Some(core::cmp::Ordering::Equal)
        } else {
            None
        }
    }
}

impl vstd::std_specs::cmp::PartialOrdSpecImpl for TaxonomyRank {
    open spec fn obeys_partial_cmp_spec() -> bool {
        true
    }

    open spec fn partial_cmp_spec(&self, other: &TaxonomyRank) -> Option<core::cmp::Ordering> {
        rank_cmp(*self, *other)
    }
}

impl TaxonomyRank {
    /// Position in the order of specificity (see `level_of`).
    pub fn level(&self) -> (r: u8)
        ensures
            r as nat == level_of(*self),
    {
        match self {
            TaxonomyRank::NoRank => 0,
            TaxonomyRank::Kingdom => 1,
            TaxonomyRank::Class => 2,
            TaxonomyRank::Order => 3,
            TaxonomyRank::Clade => 4,
            TaxonomyRank::Family => 5,
            TaxonomyRank::Genus => 6,
            TaxonomyRank::Species => 7,
            TaxonomyRank::SubSpecies => 8,
            TaxonomyRank::UnusedRanks(_) => 9,
        }
    }

    /// Whether this rank is strictly broader than `other`.
    pub fn is_broader_than(&self, other: &TaxonomyRank) -> (r: bool)
        ensures
            r == rank_lt(*self, *other),
    {
        self.level() < other.level()
    }

    /// Whether this rank is at or above the clade threshold.
    pub fn qualifies_for_closure(&self) -> (r: bool)
        ensures
            r == qualifies(*self),
    {
        self.level() <= 4
    }

    /// The textual form: the lowercase level name, or the wrapped name.
    pub fn to_string(&self) -> (r: String)
        ensures
            r@ == text_of(*self),
    {
        match self {
            TaxonomyRank::NoRank => String::from_str("norank"),
            TaxonomyRank::Kingdom => String::from_str("kingdom"),
            TaxonomyRank::Class => String::from_str("class"),
            TaxonomyRank::Order => String::from_str("order"),
            TaxonomyRank::Clade => String::from_str("clade"),
            TaxonomyRank::Family => String::from_str("family"),
            TaxonomyRank::Genus => String::from_str("genus"),
            TaxonomyRank::Species => String::from_str("species"),
            TaxonomyRank::SubSpecies => String::from_str("subspecies"),
            TaxonomyRank::UnusedRanks(s) => s.clone(),
        }
    }

    /// Parses a rank name by exact match against the fixed levels; any other
    /// name becomes `UnusedRanks` holding it.
    pub fn from_text(value: &str) -> (r: TaxonomyRank)
        ensures
            parses_to(value@, r),
    {
        if text_eq(value, "norank") || text_eq(value, "no rank") {
            TaxonomyRank::NoRank
        } else if text_eq(value, "kingdom") {
            TaxonomyRank::Kingdom
        } else if text_eq(value, "class") {
            TaxonomyRank::Class
        } else if text_eq(value, "order") {
            TaxonomyRank::Order
        } else if text_eq(value, "clade") {
            TaxonomyRank::Clade
        } else if text_eq(value, "family") {
            TaxonomyRank::Family
        } else if text_eq(value, "genus") {
            TaxonomyRank::Genus
        } else if text_eq(value, "species") {
            TaxonomyRank::Species
        } else if text_eq(value, "subspecies") {
            TaxonomyRank::SubSpecies
        } else {
            TaxonomyRank::UnusedRanks(value.to_owned())
        }
    }
}

/// The order of specificity: every unused rank is narrower than `SubSpecies`,
/// which is narrower than `Species`, and so on down to `NoRank`.
pub proof fn lemma_rank_order(name: String)
    ensures
        rank_lt(TaxonomyRank::SubSpecies, TaxonomyRank::UnusedRanks(name)),
        rank_lt(TaxonomyRank::Species, TaxonomyRank::SubSpecies),
        rank_lt(TaxonomyRank::Genus, TaxonomyRank::Species),
        rank_lt(TaxonomyRank::Family, TaxonomyRank::Genus),
        rank_lt(TaxonomyRank::Clade, TaxonomyRank::Family),
        rank_lt(TaxonomyRank::Order, TaxonomyRank::Clade),
        rank_lt(TaxonomyRank::Class, TaxonomyRank::Order),
        rank_lt(TaxonomyRank::Kingdom, TaxonomyRank::Class),
        rank_lt(TaxonomyRank::NoRank, TaxonomyRank::Kingdom),
        forall|r: TaxonomyRank| !(r is UnusedRanks) ==> rank_lt(r, TaxonomyRank::UnusedRanks(name)),
        forall|a: TaxonomyRank, b: TaxonomyRank|
            #[trigger] rank_cmp(a, b) == Some(core::cmp::Ordering::Less) <==> rank_lt(a, b),
        forall|a: TaxonomyRank, b: TaxonomyRank|
            #[trigger] rank_cmp(a, b) == Some(core::cmp::Ordering::Greater) <==> rank_lt(b, a),
{
}

/// Writing a rank out and parsing the text back gives an equal rank; text
/// that names no fixed level parses to an unused rank holding that text.
pub proof fn lemma_rank_round_trip(r: TaxonomyRank, s: Seq<char>, back: TaxonomyRank)
    requires
        parses_to(text_of(r), back),
        !(r is UnusedRanks) || fixed_level_of_text(text_of(r)) is None,
    ensures
        rank_eq(r, back),
        fixed_level_of_text(s) is None ==> forall|u: TaxonomyRank| #[trigger] parses_to(s, u) ==> (u is UnusedRanks && u->UnusedRanks_0@ == s),
{
    reveal_strlit("norank");
    reveal_strlit("no rank");
    reveal_strlit("kingdom");
    reveal_strlit("class");
    reveal_strlit("order");
    reveal_strlit("clade");
    reveal_strlit("family");
    reveal_strlit("genus");
    reveal_strlit("species");
    reveal_strlit("subspecies");
    assert("kingdom"@[0] == 'k' && "no rank"@[0] == 'n' && "species"@[0] == 's');
    assert("class"@[0] == 'c' && "order"@[0] == 'o' && "genus"@[0] == 'g');
    assert("class"@[3] == 's' && "clade"@[3] == 'd');
    assert("family"@[0] == 'f' && "norank"@[0] == 'n');
    assert("subspecies"@.len() == 10 && "subspecies"@[0] == 's');
    match r {
        TaxonomyRank::NoRank => assert(fixed_level_of_text(text_of(r)) == Some(0nat)),
        TaxonomyRank::Kingdom => assert(fixed_level_of_text(text_of(r)) == Some(1nat)),
        TaxonomyRank::Class => assert(fixed_level_of_text(text_of(r)) == Some(2nat)),
        TaxonomyRank::Order => assert(fixed_level_of_text(text_of(r)) == Some(3nat)),
        TaxonomyRank::Clade => assert(fixed_level_of_text(text_of(r)) == Some(4nat)),
        TaxonomyRank::Family => assert(fixed_level_of_text(text_of(r)) == Some(5nat)),
        TaxonomyRank::Genus => assert(fixed_level_of_text(text_of(r)) == Some(6nat)),
        TaxonomyRank::Species => assert(fixed_level_of_text(text_of(r)) == Some(7nat)),
        TaxonomyRank::SubSpecies => assert(fixed_level_of_text(text_of(r)) == Some(8nat)),
        TaxonomyRank::UnusedRanks(_) => {},
    }
}

} // verus!
