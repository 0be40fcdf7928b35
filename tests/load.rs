use taxonomy::closure::compute_closures;
use taxonomy::dump::{parse_name_line, parse_node_line};
use taxonomy::{_load_taxonomy_from_dump, LoadError, Taxonomy, TaxonomyRank, TaxonomyRecord};

fn lines(v: &[&str]) -> Vec<String> {
    v.iter().map(|s| s.to_string()).collect()
}

fn record<'a>(tax: &'a Taxonomy, id: u32) -> &'a TaxonomyRecord {
    &tax.records[*tax.index.get(&id).unwrap()]
}

fn child_ids(rec: &TaxonomyRecord) -> Vec<u32> {
    let mut ids: Vec<u32> = rec.children.iter().map(|c| c.id).collect();
    ids.sort();
    ids
}

fn small_dump() -> Taxonomy {
    let nodes = lines(&["1|1|no rank", "2|1|kingdom", "3|2|species"]);
    let names = lines(&[
        "1|root||scientific name",
        "2|Plantae||scientific name",
        "3|Zea mays||scientific name",
    ]);
    match _load_taxonomy_from_dump(&nodes, &names) {
        Ok(t) => t,
        Err(e) => panic!("load failed: {:?}", e),
    }
}

#[test]
fn three_node_scenario() {
    let tax = small_dump();
    assert_eq!(tax.records.len(), 3);
    assert_eq!(child_ids(record(&tax, 2)), vec![3]);
    assert!(record(&tax, 3).children.is_empty());
    assert_eq!(child_ids(record(&tax, 1)), vec![2, 3]);
    assert_eq!(record(&tax, 3).scientific_name, "Zea mays");
    assert_eq!(record(&tax, 1).rank, TaxonomyRank::NoRank);
    assert_eq!(record(&tax, 3).rank, TaxonomyRank::Species);
}

#[test]
fn descendant_ranks_are_those_of_the_descendants() {
    let tax = small_dump();
    for c in &record(&tax, 1).children {
        assert_eq!(c.rank, record(&tax, c.id).rank);
    }
}

#[test]
fn unknown_id_in_names_fails() {
    let nodes = lines(&["1|1|no rank", "2|1|kingdom"]);
    let names = lines(&["1|root||scientific name", "99|Ghost||scientific name"]);
    let r = _load_taxonomy_from_dump(&nodes, &names);
    assert!(matches!(r, Err(LoadError::UnknownTaxid(99))));
}

#[test]
fn unknown_id_without_scientific_name_is_ignored() {
    let nodes = lines(&["1|1|no rank"]);
    let names = lines(&["99|Ghost||synonym", "1|root||scientific name"]);
    let tax = _load_taxonomy_from_dump(&nodes, &names).ok().unwrap();
    assert_eq!(record(&tax, 1).scientific_name, "root");
}

#[test]
fn malformed_node_line_fails() {
    let nodes = lines(&["1|1|no rank", "x|1|kingdom"]);
    let r = _load_taxonomy_from_dump(&nodes, &lines(&[]));
    assert!(matches!(r, Err(LoadError::BadNodeLine(1))));
    let short = lines(&["1|1"]);
    assert!(matches!(_load_taxonomy_from_dump(&short, &lines(&[])), Err(LoadError::BadNodeLine(0))));
}

#[test]
fn malformed_name_line_fails() {
    let nodes = lines(&["1|1|no rank"]);
    let names = lines(&["1|root||scientific name", "1|root"]);
    let r = _load_taxonomy_from_dump(&nodes, &names);
    assert!(matches!(r, Err(LoadError::BadNameLine(1))));
}

#[test]
fn first_node_line_wins() {
    let nodes = lines(&["1|1|no rank", "2|1|genus", "2|1|kingdom"]);
    let tax = _load_taxonomy_from_dump(&nodes, &lines(&[])).ok().unwrap();
    assert_eq!(tax.records.len(), 2);
    assert_eq!(record(&tax, 2).rank, TaxonomyRank::Genus);
}

#[test]
fn last_scientific_name_wins() {
    let nodes = lines(&["1|1|no rank"]);
    let names = lines(&[
        "1|first||scientific name",
        "1|other||synonym",
        "1|second||scientific name",
    ]);
    let tax = _load_taxonomy_from_dump(&nodes, &names).ok().unwrap();
    assert_eq!(record(&tax, 1).scientific_name, "second");
}

#[test]
fn ncbi_layout_with_tabs() {
    let nodes = lines(&[
        "1\t|\t1\t|\tno rank\t|\t\t|",
        "2\t|\t1\t|\tclade\t|\t\t|",
        "5\t|\t2\t|\tfamily\t|\t\t|",
        "6\t|\t5\t|\tgenus\t|\t\t|",
    ]);
    let names = lines(&["6\t|\tZea\t|\t\t|\tscientific name\t|"]);
    let tax = _load_taxonomy_from_dump(&nodes, &names).ok().unwrap();
    assert_eq!(child_ids(record(&tax, 1)), vec![2, 5, 6]);
    assert_eq!(child_ids(record(&tax, 2)), vec![5, 6]);
    assert!(record(&tax, 5).children.is_empty());
    assert_eq!(record(&tax, 6).scientific_name, "Zea");
}

#[test]
fn unused_rank_gets_no_closure() {
    let nodes = lines(&["1|1|no rank", "2|1|strain", "3|2|species"]);
    let tax = _load_taxonomy_from_dump(&nodes, &lines(&[])).ok().unwrap();
    assert!(record(&tax, 2).children.is_empty());
    assert_eq!(record(&tax, 2).rank, TaxonomyRank::UnusedRanks("strain".to_string()));
    assert_eq!(child_ids(record(&tax, 1)), vec![2, 3]);
}

#[test]
fn closure_pass_twice_gives_same_lists() {
    let nodes = lines(&["1|1|no rank", "2|1|kingdom", "3|2|class", "4|3|species", "5|1|order"]);
    let mut tax = _load_taxonomy_from_dump(&nodes, &lines(&[])).ok().unwrap();
    let before: Vec<Vec<u32>> = tax.records.iter().map(child_ids).collect();
    compute_closures(&mut tax.records, &tax.index);
    let after: Vec<Vec<u32>> = tax.records.iter().map(child_ids).collect();
    assert_eq!(before, after);
    assert_eq!(before[0], vec![2, 3, 4, 5]);
}

#[test]
fn node_and_name_lines() {
    let (id, parent, rank) = parse_node_line(" 7 | 3 | genus | x").unwrap();
    assert_eq!((id, parent), (7, 3));
    assert_eq!(rank, TaxonomyRank::Genus);
    assert!(parse_node_line("7|-3|genus").is_none());
    let (id, name) = parse_name_line("9|Homo sapiens|x|scientific name|").unwrap();
    assert_eq!(id, 9);
    assert_eq!(name.unwrap(), "Homo sapiens");
    let (_, name) = parse_name_line("9|human||genbank common name|").unwrap();
    assert!(name.is_none());
}

#[test]
fn parent_cycle_terminates_without_self_descendant() {
    let nodes = lines(&["1|2|clade", "2|1|clade", "3|2|species"]);
    let tax = _load_taxonomy_from_dump(&nodes, &lines(&[])).ok().unwrap();
    assert_eq!(child_ids(record(&tax, 1)), vec![2, 3]);
    assert_eq!(child_ids(record(&tax, 2)), vec![1, 3]);
}

#[test]
fn unicode_names_are_kept() {
    let nodes = lines(&["1|1|no rank"]);
    let names = lines(&["1|  Ærø café  ||scientific name|"]);
    let tax = _load_taxonomy_from_dump(&nodes, &names).ok().unwrap();
    assert_eq!(record(&tax, 1).scientific_name, "Ærø café");
}
