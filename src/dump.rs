use vstd::prelude::*;
use std::collections::HashMap;

use crate::closure::{closure_ok, compute_closures, index_ok, lemma_closure_ok_same_nodes, same_node};
use crate::rank::{parses_to, text_eq, TaxonomyRank};
use crate::record::TaxonomyRecord;
use crate::text::{decimal_u32, parse_u32, split_fields, split_line, trim_text, trimmed};

verus! {

broadcast use vstd::std_specs::hash::group_hash_axioms;

/// What a nodes line holds: id, parent id and rank name, the first three
/// fields trimmed. `None` when it has fewer fields or a number is malformed.
pub open spec fn node_row(line: Seq<char>) -> Option<(u32, u32, Seq<char>)> {
    let f = split_fields(line);
    if f.len() >= 3 && decimal_u32(trimmed(f[0])) is Some && decimal_u32(trimmed(f[1])) is Some {
        Some((decimal_u32(trimmed(f[0]))->Some_0, decimal_u32(trimmed(f[1]))->Some_0, trimmed(f[2])))
    } else {
        None
    }
}

/// What a names line holds: the id, whether the name class is
/// "scientific name", and the name, from the first, fourth and second fields.
pub open spec fn name_row(line: Seq<char>) -> Option<(u32, bool, Seq<char>)> {
    let f = split_fields(line);
    if f.len() >= 4 && decimal_u32(trimmed(f[0])) is Some {
        Some((decimal_u32(trimmed(f[0]))->Some_0, trimmed(f[3]) == "scientific name"@, trimmed(f[1])))
    } else {
        None
    }
}

/// Parses one line of the nodes file.
pub fn parse_node_line(line: &str) -> (r: Option<(u32, u32, TaxonomyRank)>)
    ensures
        match node_row(line@) {
            None => r is None,
            Some(row) => r is Some && r->Some_0.0 == row.0 && r->Some_0.1 == row.1 && parses_to(row.2, r->Some_0.2),
        },
{
    let fields = split_line(line);
    if fields.len() < 3 {
        return None;
    }
    let id_text = trim_text(fields[0].as_str());
    let parent_text = trim_text(fields[1].as_str());
    let id = parse_u32(id_text.as_str());
    let parent_id = parse_u32(parent_text.as_str());
    match (id, parent_id) {
        (Some(id), Some(parent_id)) => {
            let rank_text = trim_text(fields[2].as_str());
            let rank = TaxonomyRank::from_text(rank_text.as_str());
            Some((id, parent_id, rank))
        },
        _ => None,
    }
}

/// Parses one line of the names file: its id, and its name where the line's
/// name class is "scientific name".
pub fn parse_name_line(line: &str) -> (r: Option<(u32, Option<String>)>)
    ensures
        match name_row(line@) {
            None => r is None,
            Some(row) => r is Some && r->Some_0.0 == row.0 && (r->Some_0.1 is Some <==> row.1) && (row.1
                ==> r->Some_0.1->Some_0@ == row.2),
        },
{
    let fields = split_line(line);
    if fields.len() < 4 {
        return None;
    }
    let id_text = trim_text(fields[0].as_str());
    match parse_u32(id_text.as_str()) {
        None => None,
        Some(id) => {
            let class = trim_text(fields[3].as_str());
            if text_eq(class.as_str(), "scientific name") {
                Some((id, Some(trim_text(fields[1].as_str()))))
            } else {
                Some((id, None))
            }
        },
    }
}

/// The text of each line.
pub open spec fn lines_of(v: Seq<String>) -> Seq<Seq<char>> {
    v.map_values(|s: String| s@)
}

/// The records that the first `k` nodes lines give, in order of first
/// appearance: a repeated id keeps its first line.
pub open spec fn node_table(lines: Seq<Seq<char>>, k: int) -> Seq<(u32, u32, Seq<char>)>
    decreases k,
{
    if k <= 0 {
        Seq::empty()
    } else {
        let t = node_table(lines, k - 1);
        match node_row(lines[k - 1]) {
            None => t,
            Some(row) => if in_table(t, row.0) {
                t
            } else {
                t.push(row)
            },
        }
    }
}

pub open spec fn in_table(t: Seq<(u32, u32, Seq<char>)>, id: u32) -> bool {
    exists|j: int| 0 <= j < t.len() && (#[trigger] t[j]).0 == id
}

/// The scientific name that the first `k` names lines give `id`: that of
/// the last such line, or empty.
pub open spec fn sci_name(lines: Seq<Seq<char>>, k: int, id: u32) -> Seq<char>
    decreases k,
{
    if k <= 0 {
        Seq::empty()
    } else {
        match name_row(lines[k - 1]) {
            Some(row) => if row.0 == id && row.1 {
                row.2
            } else {
                sci_name(lines, k - 1, id)
            },
            None => sci_name(lines, k - 1, id),
        }
    }
}

/// A names line that stops the load: malformed, or a scientific name for an
/// id that no nodes line gave.
pub open spec fn name_line_fails(t: Seq<(u32, u32, Seq<char>)>, line: Seq<char>) -> bool {
    match name_row(line) {
        None => true,
        Some(row) => row.1 && !in_table(t, row.0),
    }
}

/// Why a dump could not be loaded.
#[derive(Debug, Clone, Copy, PartialEq, Eq)]
pub enum LoadError {
    /// This nodes line (counted from 0) is malformed.
    BadNodeLine(usize),
    /// This names line (counted from 0) is malformed.
    BadNameLine(usize),
    /// The names file gives a scientific name to an id that the nodes file lacks.
    UnknownTaxid(u32),
}

/// The loaded taxonomy: the records in order of first appearance in the
/// nodes file, and the position of each id.
pub struct Taxonomy {
    pub records: Vec<TaxonomyRecord>,
    pub index: HashMap<u32, usize>,
}

/// `tax` holds what the dump describes: one record per node-table row, with
/// its last scientific name and its descendant closure.
pub open spec fn loaded_ok(nodes: Seq<Seq<char>>, names: Seq<Seq<char>>, tax: Taxonomy) -> bool {
    let t = node_table(nodes, nodes.len() as int);
    &&& tax.records@.len() == t.len()
    &&& index_ok(tax.records@, tax.index@)
    &&& forall|a: int|
        0 <= a < t.len() ==> {
            let rec = #[trigger] tax.records@[a];
            &&& rec.id == t[a].0
            &&& rec.parent_id == t[a].1
            &&& parses_to(t[a].2, rec.rank)
            &&& rec.scientific_name@ == sci_name(names, names.len() as int, rec.id)
            &&& closure_ok(tax.records@, a, rec.children@)
        }
}

pub open spec fn nodes_all_ok(nodes: Seq<Seq<char>>) -> bool {
    forall|k: int| 0 <= k < nodes.len() ==> (#[trigger] node_row(nodes[k])) is Some
}

/// Loads the dump from the lines of its nodes file and of its names file:
/// builds the records, merges the scientific names, and computes every
/// qualifying record's descendants. The first bad line, in the nodes file
/// and then in the names file, decides the error.
pub fn _load_taxonomy_from_dump(nodes: &Vec<String>, names: &Vec<String>) -> (r: Result<Taxonomy, LoadError>)
    ensures
        ({
            let nl = lines_of(nodes@);
            let ml = lines_of(names@);
            let t = node_table(nl, nl.len() as int);
            match r {
                Ok(tax) => nodes_all_ok(nl) && (forall|k: int| 0 <= k < ml.len() ==> !name_line_fails(t, #[trigger] ml[k]))
                    && loaded_ok(nl, ml, tax),
                Err(LoadError::BadNodeLine(k)) => k < nl.len() && node_row(nl[k as int]) is None && forall|j: int|
                    0 <= j < k ==> (#[trigger] node_row(nl[j])) is Some,
                Err(LoadError::BadNameLine(k)) => nodes_all_ok(nl) && k < ml.len() && name_row(ml[k as int]) is None
                    && forall|j: int| 0 <= j < k ==> !name_line_fails(t, #[trigger] ml[j]),
                Err(LoadError::UnknownTaxid(id)) => nodes_all_ok(nl) && exists|k: int|
                    0 <= k < ml.len() && #[trigger] name_row(ml[k]) is Some && name_row(ml[k])->Some_0.0 == id
                        && name_row(ml[k])->Some_0.1 && !in_table(t, id) && forall|j: int|
                        0 <= j < k ==> !name_line_fails(t, #[trigger] ml[j]),
            }
        }),
{
    let ghost nl = lines_of(nodes@);
    let ghost ml = lines_of(names@);
    let mut recs: Vec<TaxonomyRecord> = Vec::new();
    let mut index: HashMap<u32, usize> = HashMap::new();
    let mut k: usize = 0;
    while k < nodes.len()
        invariant
            nl == lines_of(nodes@),
            k <= nodes@.len(),
            recs@.len() == node_table(nl, k as int).len(),
            index_ok(recs@, index@),
            forall|j: int| 0 <= j < k ==> (#[trigger] node_row(nl[j])) is Some,
            forall|a: int|
                0 <= a < recs@.len() ==> {
                    let t = node_table(nl, k as int);
                    &&& (#[trigger] recs@[a]).id == t[a].0
                    &&& recs@[a].parent_id == t[a].1
                    &&& parses_to(t[a].2, recs@[a].rank)
                    &&& recs@[a].scientific_name@.len() == 0
                    &&& recs@[a].children@.len() == 0
                },
        decreases nodes@.len() - k,
    {
        let ghost t0 = node_table(nl, k as int);
        proof {
            assert(nl[k as int] == nodes@[k as int]@);
        }
        match parse_node_line(nodes[k].as_str()) {
            None => {
                return Err(LoadError::BadNodeLine(k));
            },
            Some((id, parent_id, rank)) => {
                proof {
                    assert(in_table(t0, id) <==> index@.contains_key(id)) by {
                        if index@.contains_key(id) {
                            let j = index@[id] as int;
                            assert(t0[j].0 == id);
                        }
                        if in_table(t0, id) {
                            let j = choose|j: int| 0 <= j < t0.len() && (#[trigger] t0[j]).0 == id;
                            assert(recs@[j].id == id);
                        }
                    }
                }
                if !index.contains_key(&id) {
                    let pos = recs.len();
                    let ghost r0 = recs@;
                    let ghost i0 = index@;
                    index.insert(id, pos);
                    recs.push(TaxonomyRecord::init(id, parent_id, rank));
                    proof {
                        let t1 = node_table(nl, k + 1);
                        assert(t1 == t0.push((id, parent_id, node_row(nl[k as int])->Some_0.2)));
                        assert forall|i: int| 0 <= i < recs@.len() implies #[trigger] index@.contains_key(recs@[i].id)
                            && index@[recs@[i].id] == i by {
                            if i < pos {
                                assert(recs@[i] == r0[i]);
                                assert(i0.contains_key(r0[i].id));
                            }
                        }
                    }
                }
            },
        }
        k = k + 1;
    }
    proof {
        assert(nodes@.len() == nl.len());
    }
    let ghost base = recs@;
    let mut k: usize = 0;
    while k < names.len()
        invariant
            ml == lines_of(names@),
            nl == lines_of(nodes@),
            nodes_all_ok(nl),
            k <= names@.len(),
            recs@.len() == base.len(),
            base.len() == node_table(nl, nl.len() as int).len(),
            index_ok(recs@, index@),
            forall|j: int| 0 <= j < k ==> !name_line_fails(node_table(nl, nl.len() as int), #[trigger] ml[j]),
            forall|a: int|
                0 <= a < recs@.len() ==> {
                    &&& (#[trigger] recs@[a]).id == base[a].id
                    &&& recs@[a].parent_id == base[a].parent_id
                    &&& recs@[a].rank == base[a].rank
                    &&& recs@[a].children == base[a].children
                    &&& recs@[a].scientific_name@ == sci_name(ml, k as int, recs@[a].id)
                },
            forall|a: int|
                0 <= a < base.len() ==> {
                    let t = node_table(nl, nl.len() as int);
                    &&& (#[trigger] base[a]).id == t[a].0
                    &&& base[a].parent_id == t[a].1
                    &&& parses_to(t[a].2, base[a].rank)
                    &&& base[a].children@.len() == 0
                },
        decreases names@.len() - k,
    {
        let ghost t = node_table(nl, nl.len() as int);
        proof {
            assert(ml[k as int] == names@[k as int]@);
            assert forall|id: u32| in_table(t, id) <==> index@.contains_key(id) by {
                if index@.contains_key(id) {
                    let j = index@[id] as int;
                    assert(base[j].id == id);
                    assert(t[j].0 == id);
                }
                if in_table(t, id) {
                    let j = choose|j: int| 0 <= j < t.len() && (#[trigger] t[j]).0 == id;
                    assert(base[j].id == id);
                    assert(recs@[j].id == id);
                }
            }
        }
        match parse_name_line(names[k].as_str()) {
            None => {
                return Err(LoadError::BadNameLine(k));
            },
            Some((_id, None)) => {},
            Some((id, Some(name))) => {
                match index.get(&id) {
                    None => {
                        return Err(LoadError::UnknownTaxid(id));
                    },
                    Some(pos) => {
                        let pos = *pos;
                        let mut rec = TaxonomyRecord::init(0, 0, TaxonomyRank::NoRank);
                        recs.set_and_swap(pos, &mut rec);
                        rec.scientific_name = name;
                        recs.set(pos, rec);
                        proof {
                            assert forall|a: int| 0 <= a < recs@.len() && a != pos implies (#[trigger] recs@[a]).id != id by {
                                assert(index@[recs@[a].id] == a);
                            }
                        }
                    },
                }
            },
        }
        k = k + 1;
    }
    let ghost named = recs@;
    compute_closures(&mut recs, &index);
    proof {
        assert forall|i: int| 0 <= i < recs@.len() implies #[trigger] index@.contains_key(recs@[i].id)
            && index@[recs@[i].id] == i by {
            assert(same_node(recs@[i], named[i]));
        }
        assert forall|a: int| 0 <= a < recs@.len() implies closure_ok(recs@, a, (#[trigger] recs@[a]).children@) by {
            lemma_closure_ok_same_nodes(named, recs@, a, recs@[a].children@);
        }
        assert(names@.len() == ml.len());
    }
    Ok(Taxonomy { records: recs, index })
}

} // verus!
