use taxonomy::batch::{batch_size, chunk_bounds, record_rows, relation_rows, SQLITE_LIMIT};
use taxonomy::cache::cache_update_required;
use taxonomy::lock::{LockObject, SequenceType, Source};
use taxonomy::text::{parse_u32, split_line, trim_text};
use taxonomy::{TaxonomyRank, TaxonomyRecord, TaxonomyRelation};

fn fixed() -> Vec<TaxonomyRank> {
    vec![
        TaxonomyRank::NoRank,
        TaxonomyRank::Kingdom,
        TaxonomyRank::Class,
        TaxonomyRank::Order,
        TaxonomyRank::Clade,
        TaxonomyRank::Family,
        TaxonomyRank::Genus,
        TaxonomyRank::Species,
        TaxonomyRank::SubSpecies,
    ]
}

#[test]
fn rank_order() {
    let mut all = fixed();
    all.push(TaxonomyRank::UnusedRanks("foo".to_string()));
    for w in all.windows(2) {
        assert!(w[0].is_broader_than(&w[1]));
        assert!(!w[1].is_broader_than(&w[0]));
    }
    let x = TaxonomyRank::UnusedRanks("x".to_string());
    for r in fixed() {
        assert!(r.is_broader_than(&x));
    }
    assert!(TaxonomyRank::UnusedRanks("foo".to_string()) > TaxonomyRank::SubSpecies);
    assert!(TaxonomyRank::NoRank < TaxonomyRank::Kingdom);
    assert!(TaxonomyRank::Family > TaxonomyRank::Clade);
    assert!(TaxonomyRank::Clade <= TaxonomyRank::Clade);
    assert!(TaxonomyRank::Clade.qualifies_for_closure());
    assert!(TaxonomyRank::NoRank.qualifies_for_closure());
    assert!(!TaxonomyRank::Family.qualifies_for_closure());
    assert!(!x.qualifies_for_closure());
}

#[test]
fn rank_text_round_trip() {
    for r in fixed() {
        let back = TaxonomyRank::from_text(&r.to_string());
        assert_eq!(back, r);
    }
    assert_eq!(TaxonomyRank::Kingdom.to_string(), "kingdom");
    assert_eq!(TaxonomyRank::NoRank.to_string(), "norank");
    assert_eq!(TaxonomyRank::from_text("no rank"), TaxonomyRank::NoRank);
    let u = TaxonomyRank::from_text("superkingdom");
    assert_eq!(u, TaxonomyRank::UnusedRanks("superkingdom".to_string()));
    assert_eq!(u.to_string(), "superkingdom");
    assert_ne!(TaxonomyRank::from_text("Kingdom"), TaxonomyRank::Kingdom);
}

#[test]
fn batch_sizing() {
    let size = batch_size(SQLITE_LIMIT, 3);
    assert_eq!(size, 10922);
    assert!(size * 3 <= SQLITE_LIMIT);
    let chunks = chunk_bounds(25000, size);
    assert_eq!(chunks, vec![(0, 10922), (10922, 21844), (21844, 25000)]);
    for (s, e) in &chunks {
        assert!((e - s) * 3 <= (SQLITE_LIMIT / 3) * 3);
    }
    assert_eq!(chunk_bounds(10, 3), vec![(0, 3), (3, 6), (6, 9), (9, 10)]);
    assert_eq!(chunk_bounds(6, 3), vec![(0, 3), (3, 6)]);
    assert!(chunk_bounds(0, 3).is_empty());
}

fn rec(id: u32, parent_id: u32, rank: TaxonomyRank, children: Vec<TaxonomyRelation>) -> TaxonomyRecord {
    TaxonomyRecord::new(id, parent_id, rank, format!("n{}", id), children)
}

#[test]
fn relation_rows_use_the_parent_id() {
    let recs = vec![
        rec(
            2,
            1,
            TaxonomyRank::Kingdom,
            vec![
                TaxonomyRelation { id: 3, rank: TaxonomyRank::Species },
                TaxonomyRelation { id: 4, rank: TaxonomyRank::UnusedRanks("strain".to_string()) },
            ],
        ),
        rec(3, 2, TaxonomyRank::Species, vec![]),
    ];
    let rows = relation_rows(&recs);
    assert_eq!(
        rows,
        vec![(1, 3, "species".to_string()), (1, 4, "strain".to_string())]
    );
    let rows = record_rows(&recs);
    assert_eq!(
        rows,
        vec![
            (2, "n2".to_string(), "kingdom".to_string()),
            (3, "n3".to_string(), "species".to_string())
        ]
    );
}

#[test]
fn record_init_is_empty() {
    let r = TaxonomyRecord::init(5, 1, TaxonomyRank::Genus);
    assert_eq!(r.id, 5);
    assert_eq!(r.parent_id, 1);
    assert!(r.scientific_name.is_empty());
    assert!(r.children.is_empty());
}

#[test]
fn text_helpers() {
    assert_eq!(split_line("a|b||c"), vec!["a", "b", "", "c"]);
    assert_eq!(split_line(""), vec![""]);
    assert_eq!(trim_text(" \t x y \t"), "x y");
    assert_eq!(trim_text("   "), "");
    assert_eq!(parse_u32("42"), Some(42));
    assert_eq!(parse_u32("4294967295"), Some(u32::MAX));
    assert_eq!(parse_u32("4294967296"), None);
    assert_eq!(parse_u32(""), None);
    assert_eq!(parse_u32("1a"), None);
}

#[test]
fn cache_staleness() {
    assert!(cache_update_required(Some(100), 100));
    assert!(!cache_update_required(Some(99), 100));
    assert!(!cache_update_required(None, 0));
}

#[test]
fn lock_paths() {
    let root = vec!["data".to_string()];
    let o = LockObject::OneKp {
        source: Source::OneKp,
        taxonomy_id: 1,
        name: "rice".to_string(),
        onekp_id: "ABCD".to_string(),
    };
    assert_eq!(o.to_path(root.clone(), SequenceType::Protein), vec!["data", "protein", "rice", "onekp", "ABCD"]);
    let u = LockObject::URL {
        source: Source::URL,
        taxonomy_id: 1,
        name: "maize".to_string(),
        url: "http://example.org/x".to_string(),
        gzip: true,
        version: None,
    };
    assert_eq!(u.to_path(root.clone(), SequenceType::Cds), vec!["data", "cds", "maize", "url"]);
    let p = LockObject::Phytozome {
        source: Source::Phytozome,
        taxonomy_id: 1,
        name: "poplar".to_string(),
        phytozome_version: "v13".to_string(),
    };
    assert_eq!(p.to_path(root, SequenceType::Cds), vec!["data", "cds", "poplar", "phytozome", "v13"]);
    u.to_url();
}
