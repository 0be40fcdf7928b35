use vstd::prelude::*;

use crate::rank::{rank_eq, TaxonomyRank};

verus! {

/// A descendant of a record: its id and its rank.
#[derive(Debug, Clone)]
pub struct TaxonomyRelation {
    pub id: u32,
    pub rank: TaxonomyRank,
}

/// One node of the taxonomy, named by its scientific name.
#[derive(Debug, Clone)]
pub struct TaxonomyRecord {
    pub id: u32,
    pub parent_id: u32,
    pub rank: TaxonomyRank,
    pub scientific_name: String,
    pub children: Vec<TaxonomyRelation>,
}

impl TaxonomyRank {
    /// A copy of this rank, equal to it.
    pub fn duplicate(&self) -> (r: TaxonomyRank)
        ensures
            rank_eq(r, *self),
            crate::rank::level_of(r) == crate::rank::level_of(*self),
            crate::rank::text_of(r) == crate::rank::text_of(*self),
    {
        match self {
            TaxonomyRank::NoRank => TaxonomyRank::NoRank,
            TaxonomyRank::Kingdom => TaxonomyRank::Kingdom,
            TaxonomyRank::Class => TaxonomyRank::Class,
            TaxonomyRank::Order => TaxonomyRank::Order,
            TaxonomyRank::Clade => TaxonomyRank::Clade,
            TaxonomyRank::Family => TaxonomyRank::Family,
            TaxonomyRank::Genus => TaxonomyRank::Genus,
            TaxonomyRank::Species => TaxonomyRank::Species,
            TaxonomyRank::SubSpecies => TaxonomyRank::SubSpecies,
            TaxonomyRank::UnusedRanks(s) => TaxonomyRank::UnusedRanks(s.clone()),
        }
    }
}

impl TaxonomyRecord {
    /// A record with no name yet and no descendants.
    pub fn init(id: u32, parent_id: u32, rank: TaxonomyRank) -> (r: TaxonomyRecord)
        ensures
            r.id == id,
            r.parent_id == parent_id,
            r.rank == rank,
            r.scientific_name@.len() == 0,
            r.children@.len() == 0,
    {
        TaxonomyRecord {
            id,
            parent_id,
            rank,
            scientific_name: String::new(),
            children: Vec::new(),
        }
    }

    /// A record with every field given.
    pub fn new(
        id: u32,
        parent_id: u32,
        rank: TaxonomyRank,
        scientific_name: String,
        children: Vec<TaxonomyRelation>,
    ) -> (r: TaxonomyRecord)
        ensures
            r.id == id,
            r.parent_id == parent_id,
            r.rank == rank,
            r.scientific_name == scientific_name,
            r.children == children,
    {
        TaxonomyRecord { id, parent_id, rank, scientific_name, children }
    }
}

} // verus!
