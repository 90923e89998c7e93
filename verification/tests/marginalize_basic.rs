use pangraph::consistency::{check_consistency, reconstruct_strain};
use pangraph::marginal::marginalize_run;
use pangraph::model::{AlnRecord, Block, Graph, MarginalizeError, Path, PathEntry, Strand};

fn strain_block(id: u64, node: u64, name: &str, seq: &[u8]) -> Block {
    Block {
        id,
        consensus: seq.to_vec(),
        records: vec![AlnRecord {
            node,
            strain: name.to_string(),
            strand: Strand::Forward,
            seq: seq.to_vec(),
        }],
    }
}

fn two_strain_graph() -> Graph {
    let b1 = Block {
        id: 1,
        consensus: b"ACG".to_vec(),
        records: vec![
            AlnRecord { node: 10, strain: "A".to_string(), strand: Strand::Forward, seq: b"ACG".to_vec() },
            AlnRecord { node: 20, strain: "B".to_string(), strand: Strand::Forward, seq: b"ACT".to_vec() },
        ],
    };
    let b2 = Block {
        id: 2,
        consensus: b"TT".to_vec(),
        records: vec![AlnRecord { node: 11, strain: "A".to_string(), strand: Strand::Forward, seq: b"TT".to_vec() }],
    };
    let pa = Path {
        name: "A".to_string(),
        circular: false,
        entries: vec![
            PathEntry { node: 10, block: 1, strand: Strand::Forward },
            PathEntry { node: 11, block: 2, strand: Strand::Forward },
        ],
    };
    let pb = Path {
        name: "B".to_string(),
        circular: false,
        entries: vec![PathEntry { node: 20, block: 1, strand: Strand::Forward }],
    };
    Graph::new(vec![b1, b2], vec![pa, pb]).unwrap()
}

#[test]
fn reconstructs_each_strain() {
    let g = two_strain_graph();
    assert_eq!(reconstruct_strain(&g, &"A".to_string()).unwrap(), b"ACGTT".to_vec());
    assert_eq!(reconstruct_strain(&g, &"B".to_string()).unwrap(), b"ACT".to_vec());
}

#[test]
fn marginalize_keeps_requested_strain_sequences() {
    let g = two_strain_graph();
    let g2 = marginalize_run(g, &vec!["B".to_string()]).unwrap();
    assert_eq!(g2.paths.len(), 1);
    assert_eq!(g2.paths[0].name, "B");
    assert_eq!(reconstruct_strain(&g2, &"B".to_string()).unwrap(), b"ACT".to_vec());
    assert_eq!(g2.blocks.len(), 1);
}

#[test]
fn unknown_strain_is_rejected() {
    let g = two_strain_graph();
    let r = marginalize_run(g, &vec!["C".to_string()]);
    assert!(matches!(r, Err(MarginalizeError::InvalidStrainSet)));
}

#[test]
fn empty_strain_set_is_rejected() {
    let g = two_strain_graph();
    let r = marginalize_run(g, &vec![]);
    assert!(matches!(r, Err(MarginalizeError::InvalidStrainSet)));
}

#[test]
fn checker_accepts_true_references_and_reports_divergence() {
    let g = two_strain_graph();
    let refs = vec![
        ("A".to_string(), b"ACGTT".to_vec()),
        ("B".to_string(), b"ACT".to_vec()),
    ];
    assert!(check_consistency(&g, &refs).is_ok());
    let bad = vec![
        ("A".to_string(), b"ACGTA".to_vec()),
        ("B".to_string(), b"ACT".to_vec()),
    ];
    let m = check_consistency(&g, &bad).unwrap_err();
    assert_eq!(m.strain, "A");
    assert_eq!(m.position, 4);
}

#[test]
fn reverse_strand_reconstruction() {
    let b = Block {
        id: 7,
        consensus: b"AACG".to_vec(),
        records: vec![AlnRecord { node: 1, strain: "S".to_string(), strand: Strand::Reverse, seq: b"AACG".to_vec() }],
    };
    let p = Path {
        name: "S".to_string(),
        circular: true,
        entries: vec![PathEntry { node: 1, block: 7, strand: Strand::Reverse }],
    };
    let g = Graph::new(vec![b], vec![p]).unwrap();
    assert_eq!(reconstruct_strain(&g, &"S".to_string()).unwrap(), b"CGTT".to_vec());
}

#[test]
fn duplicate_block_id_is_malformed() {
    let b1 = strain_block(1, 10, "A", b"AC");
    let b2 = strain_block(1, 11, "A", b"GT");
    let p = Path {
        name: "A".to_string(),
        circular: false,
        entries: vec![
            PathEntry { node: 10, block: 1, strand: Strand::Forward },
            PathEntry { node: 11, block: 1, strand: Strand::Forward },
        ],
    };
    let r = Graph::new(vec![b1, b2], vec![p]);
    assert!(matches!(
        r,
        Err(MarginalizeError::MalformedGraph(pangraph::model::MalformedKind::DuplicateBlockId))
    ));
}

fn entry(node: u64, block: u64, strand: Strand) -> PathEntry {
    PathEntry { node, block, strand }
}

fn record(node: u64, name: &str, strand: Strand, seq: &[u8]) -> AlnRecord {
    AlnRecord { node, strain: name.to_string(), strand, seq: seq.to_vec() }
}

#[test]
fn single_strain_collapses_to_one_spanning_block() {
    let b1 = Block { id: 1, consensus: b"AC".to_vec(), records: vec![record(10, "S", Strand::Forward, b"AC")] };
    let b2 = Block { id: 2, consensus: b"GT".to_vec(), records: vec![record(11, "S", Strand::Forward, b"GT")] };
    let p = Path {
        name: "S".to_string(),
        circular: false,
        entries: vec![entry(10, 1, Strand::Forward), entry(11, 2, Strand::Forward)],
    };
    let g = Graph::new(vec![b1, b2], vec![p]).unwrap();
    let g2 = marginalize_run(g, &vec!["S".to_string()]).unwrap();
    assert_eq!(g2.blocks.len(), 1);
    assert_eq!(g2.paths.len(), 1);
    assert_eq!(g2.paths[0].entries.len(), 1);
    assert!(!g2.paths[0].circular);
    assert_eq!(g2.blocks[0].id, 1);
    assert_eq!(g2.blocks[0].consensus, b"ACGT".to_vec());
    assert_eq!(reconstruct_strain(&g2, &"S".to_string()).unwrap(), b"ACGT".to_vec());
}

#[test]
fn circular_single_strain_collapses_with_flag_kept() {
    let b1 = Block { id: 1, consensus: b"AAC".to_vec(), records: vec![record(1, "S", Strand::Forward, b"AAC")] };
    let b2 = Block { id: 2, consensus: b"GT".to_vec(), records: vec![record(2, "S", Strand::Forward, b"GT")] };
    let p = Path {
        name: "S".to_string(),
        circular: true,
        entries: vec![entry(1, 1, Strand::Forward), entry(2, 2, Strand::Forward)],
    };
    let g = Graph::new(vec![b1, b2], vec![p]).unwrap();
    let g2 = marginalize_run(g, &vec!["S".to_string()]).unwrap();
    assert_eq!(g2.blocks.len(), 1);
    assert_eq!(g2.paths[0].entries.len(), 1);
    assert!(g2.paths[0].circular);
    assert_eq!(reconstruct_strain(&g2, &"S".to_string()).unwrap(), b"AACGT".to_vec());
}

#[test]
fn shared_run_merges_only_without_the_distinguishing_strain() {
    let b1 = Block {
        id: 1,
        consensus: b"AA".to_vec(),
        records: vec![
            record(1, "A", Strand::Forward, b"AA"),
            record(4, "B", Strand::Forward, b"AA"),
        ],
    };
    let b2 = Block {
        id: 2,
        consensus: b"CC".to_vec(),
        records: vec![
            record(2, "A", Strand::Forward, b"CC"),
            record(5, "B", Strand::Forward, b"CG"),
            record(7, "C", Strand::Forward, b"CC"),
        ],
    };
    let b3 = Block {
        id: 3,
        consensus: b"TT".to_vec(),
        records: vec![
            record(3, "A", Strand::Forward, b"TT"),
            record(6, "B", Strand::Forward, b"TT"),
        ],
    };
    let pa = Path {
        name: "A".to_string(),
        circular: false,
        entries: vec![
            entry(1, 1, Strand::Forward),
            entry(2, 2, Strand::Forward),
            entry(3, 3, Strand::Forward),
        ],
    };
    let pb = Path {
        name: "B".to_string(),
        circular: false,
        entries: vec![
            entry(4, 1, Strand::Forward),
            entry(5, 2, Strand::Forward),
            entry(6, 3, Strand::Forward),
        ],
    };
    let pc = Path {
        name: "C".to_string(),
        circular: false,
        entries: vec![entry(7, 2, Strand::Forward)],
    };
    let g = Graph::new(vec![b1, b2, b3], vec![pa, pb, pc]).unwrap();

    let g_ab = Graph::new(
        g.blocks.iter().map(clone_block).collect(),
        g.paths.iter().map(clone_path).collect(),
    )
    .unwrap();
    let m_ab = marginalize_run(g_ab, &vec!["A".to_string(), "B".to_string()]).unwrap();
    assert_eq!(m_ab.blocks.len(), 1);
    assert_eq!(m_ab.paths.len(), 2);
    assert_eq!(m_ab.paths[0].entries.len(), 1);
    assert_eq!(m_ab.paths[1].entries.len(), 1);
    assert_eq!(reconstruct_strain(&m_ab, &"A".to_string()).unwrap(), b"AACCTT".to_vec());
    assert_eq!(reconstruct_strain(&m_ab, &"B".to_string()).unwrap(), b"AACGTT".to_vec());

    let m_abc = marginalize_run(
        g,
        &vec!["A".to_string(), "B".to_string(), "C".to_string()],
    )
    .unwrap();
    assert_eq!(m_abc.blocks.len(), 3);
    assert_eq!(reconstruct_strain(&m_abc, &"A".to_string()).unwrap(), b"AACCTT".to_vec());
    assert_eq!(reconstruct_strain(&m_abc, &"C".to_string()).unwrap(), b"CC".to_vec());
}

#[test]
fn reverse_strand_pair_merges_with_canonical_consensus() {
    let b1 = Block { id: 5, consensus: b"AC".to_vec(), records: vec![record(1, "S", Strand::Reverse, b"AC")] };
    let b2 = Block { id: 9, consensus: b"GG".to_vec(), records: vec![record(2, "S", Strand::Reverse, b"GG")] };
    let p = Path {
        name: "S".to_string(),
        circular: false,
        entries: vec![entry(1, 5, Strand::Reverse), entry(2, 9, Strand::Reverse)],
    };
    let g = Graph::new(vec![b1, b2], vec![p]).unwrap();
    assert_eq!(reconstruct_strain(&g, &"S".to_string()).unwrap(), b"GTCC".to_vec());
    let g2 = marginalize_run(g, &vec!["S".to_string()]).unwrap();
    assert_eq!(g2.blocks.len(), 1);
    assert_eq!(g2.blocks[0].id, 5);
    assert_eq!(g2.blocks[0].consensus, b"GGAC".to_vec());
    assert_eq!(g2.paths[0].entries[0].strand, Strand::Reverse);
    assert_eq!(reconstruct_strain(&g2, &"S".to_string()).unwrap(), b"GTCC".to_vec());
}

#[test]
fn marginalizing_twice_gives_the_same_graph() {
    let b1 = Block { id: 1, consensus: b"AC".to_vec(), records: vec![record(10, "S", Strand::Forward, b"AC")] };
    let b2 = Block { id: 2, consensus: b"GT".to_vec(), records: vec![record(11, "S", Strand::Forward, b"GT")] };
    let p = Path {
        name: "S".to_string(),
        circular: false,
        entries: vec![entry(10, 1, Strand::Forward), entry(11, 2, Strand::Forward)],
    };
    let g = Graph::new(vec![b1, b2], vec![p]).unwrap();
    let g1 = marginalize_run(g, &vec!["S".to_string()]).unwrap();
    let copy = Graph::new(
        g1.blocks.iter().map(clone_block).collect(),
        g1.paths.iter().map(clone_path).collect(),
    )
    .unwrap();
    let g2 = marginalize_run(copy, &vec!["S".to_string()]).unwrap();
    assert_eq!(g2.blocks.len(), g1.blocks.len());
    assert_eq!(g2.blocks[0].id, g1.blocks[0].id);
    assert_eq!(g2.blocks[0].consensus, g1.blocks[0].consensus);
    assert_eq!(g2.paths[0].entries, g1.paths[0].entries);
    assert_eq!(
        reconstruct_strain(&g2, &"S".to_string()).unwrap(),
        reconstruct_strain(&g1, &"S".to_string()).unwrap()
    );
}

fn clone_block(b: &Block) -> Block {
    Block {
        id: b.id,
        consensus: b.consensus.clone(),
        records: b
            .records
            .iter()
            .map(|r| AlnRecord {
                node: r.node,
                strain: r.strain.clone(),
                strand: r.strand,
                seq: r.seq.clone(),
            })
            .collect(),
    }
}

fn clone_path(p: &Path) -> Path {
    Path { name: p.name.clone(), circular: p.circular, entries: p.entries.clone() }
}
