//! The graph data model: blocks, per-strain alignment records, paths, and
//! the well-formedness invariant, together with the specification of what a
//! path reconstructs.
//!
//! Every occurrence of a block on a path carries a node identifier that is
//! unique across the whole graph; the block stores one alignment record per
//! node that traverses it. A record's sequence is the exact forward-strand
//! subsequence of its strain at that occurrence, so reconstruction is the
//! concatenation of record sequences, reverse-complemented where the path
//! traverses the block in reverse.

use vstd::prelude::*;

use crate::seqs::revcomp;

verus! {

/// Orientation in which a path traverses a block.
#[derive(Clone, Copy, PartialEq, Eq, Structural, Debug)]
pub enum Strand {
    Forward,
    Reverse,
}

/// One step of a path: the node identifier of this occurrence, the block it
/// traverses, and the strand.
#[derive(Clone, Copy, PartialEq, Eq, Structural, Debug)]
pub struct PathEntry {
    pub node: u64,
    pub block: u64,
    pub strand: Strand,
}

/// Per-strain alignment record of a block: the exact forward-strand
/// subsequence this occurrence of the strain contributes, keyed by the node
/// identifier of the occurrence.
pub struct AlnRecord {
    pub node: u64,
    pub strain: String,
    pub strand: Strand,
    pub seq: Vec<u8>,
}

/// An aligned segment: a graph node with a consensus sequence and one
/// alignment record per occurrence of a strain that traverses it.
pub struct Block {
    pub id: u64,
    pub consensus: Vec<u8>,
    pub records: Vec<AlnRecord>,
}

/// One strain's traversal of the graph; circular genomes are flagged, with
/// the entry list linearized from a fixed origin.
pub struct Path {
    pub name: String,
    pub circular: bool,
    pub entries: Vec<PathEntry>,
}

/// A pangenome alignment graph: blocks keyed by identifier, paths keyed by
/// strain name.
pub struct Graph {
    pub blocks: Vec<Block>,
    pub paths: Vec<Path>,
}

/// The first structural invariant a malformed graph breaks.
#[derive(Clone, Copy, PartialEq, Eq, Structural, Debug)]
pub enum MalformedKind {
    DuplicateBlockId,
    DuplicatePathName,
    DuplicateNode,
    DuplicateRecordNode,
    DanglingReference,
    RecordMismatch,
    OrphanRecord,
}

/// Errors of graph validation and marginalization. `MergeConflict` names
/// an internal invariant violation while coalescing blocks; the verified
/// functions of this crate never return it, and their contracts say so —
/// it stands in the taxonomy for callers that match on the full error set.
#[derive(Clone, Copy, PartialEq, Eq, Structural, Debug)]
pub enum MarginalizeError {
    MalformedGraph(MalformedKind),
    InvalidStrainSet,
    MergeConflict,
}

/// A failed consistency check: the strain whose reconstruction diverges from
/// the reference, and the first divergent coordinate.
pub struct ReconstructionMismatch {
    pub strain: String,
    pub position: usize,
}

pub open spec fn has_block(blocks: Seq<Block>, id: u64) -> bool {
    exists|i: int| 0 <= i < blocks.len() && blocks[i].id == id
}

pub open spec fn block_index(blocks: Seq<Block>, id: u64) -> int {
    choose|i: int| 0 <= i < blocks.len() && blocks[i].id == id
}

/// The block of a given identifier (meaningful when ids are unique).
pub open spec fn block_of(blocks: Seq<Block>, id: u64) -> Block {
    blocks[block_index(blocks, id)]
}

pub open spec fn has_rec(b: Block, node: u64) -> bool {
    exists|j: int| 0 <= j < b.records@.len() && b.records@[j].node == node
}

pub open spec fn rec_index(b: Block, node: u64) -> int {
    choose|j: int| 0 <= j < b.records@.len() && b.records@[j].node == node
}

/// The alignment record of a given node within a block.
pub open spec fn rec_of(b: Block, node: u64) -> AlnRecord {
    b.records@[rec_index(b, node)]
}

/// A sequence as contributed in the given strand.
pub open spec fn oriented(s: Seq<u8>, strand: Strand) -> Seq<u8> {
    if strand == Strand::Forward {
        s
    } else {
        revcomp(s)
    }
}

/// What one path entry contributes to its strain's genome.
pub open spec fn entry_contrib(blocks: Seq<Block>, e: PathEntry) -> Seq<u8> {
    oriented(rec_of(block_of(blocks, e.block), e.node).seq@, e.strand)
}

/// The genome sequence reconstructed by a list of path entries.
pub open spec fn recon_entries(blocks: Seq<Block>, s: Seq<PathEntry>) -> Seq<u8>
    decreases s.len(),
{
    if s.len() == 0 {
        Seq::empty()
    } else {
        entry_contrib(blocks, s[0]) + recon_entries(blocks, s.subrange(1, s.len() as int))
    }
}

/// The genome sequence reconstructed by a path.
pub open spec fn recon_path(g: Graph, p: Path) -> Seq<u8> {
    recon_entries(g.blocks@, p.entries@)
}

pub open spec fn has_path(g: Graph, name: Seq<char>) -> bool {
    exists|k: int| 0 <= k < g.paths@.len() && g.paths@[k].name@ == name
}

pub open spec fn path_index(g: Graph, name: Seq<char>) -> int {
    choose|k: int| 0 <= k < g.paths@.len() && g.paths@[k].name@ == name
}

/// The genome sequence of a strain, reconstructed from its path.
pub open spec fn strain_recon(g: Graph, name: Seq<char>) -> Seq<u8> {
    recon_entries(g.blocks@, g.paths@[path_index(g, name)].entries@)
}

pub open spec fn blocks_unique(blocks: Seq<Block>) -> bool {
    forall|i: int, j: int| #![trigger blocks[i], blocks[j]]
        0 <= i < j < blocks.len() ==> blocks[i].id != blocks[j].id
}

pub open spec fn paths_unique(paths: Seq<Path>) -> bool {
    forall|i: int, j: int| #![trigger paths[i], paths[j]]
        0 <= i < j < paths.len() ==> paths[i].name@ != paths[j].name@
}

pub open spec fn node_in(s: Seq<PathEntry>, n: u64) -> bool {
    exists|i: int| 0 <= i < s.len() && s[i].node == n
}

pub open spec fn entry_nodes_distinct(s: Seq<PathEntry>) -> bool {
    forall|i: int, j: int| #![trigger s[i], s[j]] 0 <= i < j < s.len() ==> s[i].node != s[j].node
}

/// No node of path `a` recurs in any later path.
pub open spec fn path_disjoint_after(paths: Seq<Path>, a: int) -> bool {
    forall|y: int, nd: u64| #![trigger node_in(paths[y].entries@, nd)]
        a < y < paths.len() && node_in(paths[a].entries@, nd) ==> !node_in(paths[y].entries@, nd)
}

pub open spec fn paths_nodes_disjoint(paths: Seq<Path>) -> bool {
    forall|a: int| 0 <= a < paths.len() ==> #[trigger] path_disjoint_after(paths, a)
}

/// Node identifiers are unique across the whole graph.
pub open spec fn nodes_unique(paths: Seq<Path>) -> bool {
    &&& forall|pi: int| 0 <= pi < paths.len() ==> entry_nodes_distinct(#[trigger] paths[pi].entries@)
    &&& paths_nodes_disjoint(paths)
}

pub open spec fn rec_nodes_distinct(b: Block) -> bool {
    forall|i: int, j: int| #![trigger b.records@[i], b.records@[j]]
        0 <= i < j < b.records@.len() ==> b.records@[i].node != b.records@[j].node
}

pub open spec fn blocks_rec_nodes_distinct(blocks: Seq<Block>) -> bool {
    forall|bi: int| 0 <= bi < blocks.len() ==> rec_nodes_distinct(#[trigger] blocks[bi])
}

/// The entry's block exists and holds a record for the entry's node.
pub open spec fn entry_located(blocks: Seq<Block>, e: PathEntry) -> bool {
    has_block(blocks, e.block) && has_rec(block_of(blocks, e.block), e.node)
}

/// The record of the entry agrees with the path on strain and strand.
pub open spec fn entry_matched(blocks: Seq<Block>, e: PathEntry, strain: Seq<char>) -> bool {
    rec_of(block_of(blocks, e.block), e.node).strain@ == strain && rec_of(
        block_of(blocks, e.block),
        e.node,
    ).strand == e.strand
}

pub open spec fn entries_located(g: Graph) -> bool {
    forall|pi: int, i: int|
        0 <= pi < g.paths@.len() && 0 <= i < g.paths@[pi].entries@.len() ==> entry_located(
            g.blocks@,
            #[trigger] g.paths@[pi].entries@[i],
        )
}

pub open spec fn entries_matched(g: Graph) -> bool {
    forall|pi: int, i: int|
        0 <= pi < g.paths@.len() && 0 <= i < g.paths@[pi].entries@.len() ==> entry_matched(
            g.blocks@,
            #[trigger] g.paths@[pi].entries@[i],
            g.paths@[pi].name@,
        )
}

/// Some path occurrence carries the given node on the given block.
pub open spec fn occurrence_of(g: Graph, node: u64, blk: u64) -> bool {
    exists|pi: int, i: int|
        0 <= pi < g.paths@.len() && 0 <= i < g.paths@[pi].entries@.len()
            && (#[trigger] g.paths@[pi].entries@[i]).node == node && g.paths@[pi].entries@[i].block
            == blk
}

/// Every alignment record belongs to some path occurrence: no orphans.
pub open spec fn records_covered(g: Graph) -> bool {
    forall|bi: int, rj: int|
        0 <= bi < g.blocks@.len() && 0 <= rj < g.blocks@[bi].records@.len() ==> occurrence_of(
            g,
            (#[trigger] g.blocks@[bi].records@[rj]).node,
            g.blocks@[bi].id,
        )
}

/// The structural invariant of a graph: unique keys everywhere, and a
/// two-way correspondence between path occurrences and alignment records.
pub open spec fn wf(g: Graph) -> bool {
    &&& blocks_unique(g.blocks@)
    &&& paths_unique(g.paths@)
    &&& nodes_unique(g.paths@)
    &&& blocks_rec_nodes_distinct(g.blocks@)
    &&& entries_located(g)
    &&& entries_matched(g)
    &&& records_covered(g)
}

/// Membership of a strain name in a requested strain set.
pub open spec fn name_in(ss: Seq<String>, name: Seq<char>) -> bool {
    exists|k: int| 0 <= k < ss.len() && ss[k]@ == name
}

/// The requested strain set is non-empty and names only strains of the
/// graph.
pub open spec fn valid_strains(g: Graph, ss: Seq<String>) -> bool {
    ss.len() > 0 && forall|k: int| 0 <= k < ss.len() ==> has_path(g, (#[trigger] ss[k])@)
}

/// Every block is traversed by at least one path: none is dead weight.
pub open spec fn blocks_live(blocks: Seq<Block>) -> bool {
    forall|bi: int| 0 <= bi < blocks.len() ==> (#[trigger] blocks[bi]).records@.len() > 0
}

pub open spec fn recs_eqv(a: Seq<AlnRecord>, b: Seq<AlnRecord>) -> bool {
    a.len() == b.len() && forall|j: int|
        0 <= j < a.len() ==> (#[trigger] a[j]).node == (#[trigger] b[j]).node && a[j].strain@
            == b[j].strain@ && a[j].strand == b[j].strand && a[j].seq@ == b[j].seq@
}

/// The two block lists agree in identifiers, consensus and records.
pub open spec fn blocks_eqv(a: Seq<Block>, b: Seq<Block>) -> bool {
    a.len() == b.len() && forall|i: int|
        0 <= i < a.len() ==> (#[trigger] a[i]).id == (#[trigger] b[i]).id && a[i].consensus@
            == b[i].consensus@ && recs_eqv(a[i].records@, b[i].records@)
}

pub proof fn lemma_block_index_of(blocks: Seq<Block>, i: int)
    requires
        blocks_unique(blocks),
        0 <= i < blocks.len(),
    ensures
        block_index(blocks, blocks[i].id) == i,
        block_of(blocks, blocks[i].id) == blocks[i],
        has_block(blocks, blocks[i].id),
{
    assert(has_block(blocks, blocks[i].id));
    let j = block_index(blocks, blocks[i].id);
    assert(0 <= j < blocks.len() && blocks[j].id == blocks[i].id);
    if i != j {
        assert(blocks[i].id != blocks[j].id);
    }
}

pub proof fn lemma_rec_index_of(b: Block, j: int)
    requires
        rec_nodes_distinct(b),
        0 <= j < b.records@.len(),
    ensures
        rec_index(b, b.records@[j].node) == j,
        rec_of(b, b.records@[j].node) == b.records@[j],
        has_rec(b, b.records@[j].node),
{
    assert(has_rec(b, b.records@[j].node));
    let k = rec_index(b, b.records@[j].node);
    assert(0 <= k < b.records@.len() && b.records@[k].node == b.records@[j].node);
    if j != k {
        assert(b.records@[j].node != b.records@[k].node);
    }
}

pub proof fn lemma_path_index_of(g: Graph, k: int)
    requires
        paths_unique(g.paths@),
        0 <= k < g.paths@.len(),
    ensures
        path_index(g, g.paths@[k].name@) == k,
        has_path(g, g.paths@[k].name@),
{
    assert(has_path(g, g.paths@[k].name@));
    let m = path_index(g, g.paths@[k].name@);
    assert(0 <= m < g.paths@.len() && g.paths@[m].name@ == g.paths@[k].name@);
    if k != m {
        assert(g.paths@[k].name@ != g.paths@[m].name@);
    }
}

/// A node occurs at only one place in the whole graph.
pub proof fn lemma_node_position_unique(paths: Seq<Path>, pi: int, i: int, pj: int, j: int)
    requires
        nodes_unique(paths),
        0 <= pi < paths.len(),
        0 <= i < paths[pi].entries@.len(),
        0 <= pj < paths.len(),
        0 <= j < paths[pj].entries@.len(),
        paths[pi].entries@[i].node == paths[pj].entries@[j].node,
    ensures
        pi == pj && i == j,
{
    if pi != pj {
        let nd = paths[pi].entries@[i].node;
        assert(node_in(paths[pi].entries@, nd));
        assert(node_in(paths[pj].entries@, nd));
        if pi < pj {
            assert(path_disjoint_after(paths, pi));
            assert(!node_in(paths[pj].entries@, nd));
        } else {
            assert(path_disjoint_after(paths, pj));
            assert(!node_in(paths[pi].entries@, nd));
        }
    } else {
        assert(entry_nodes_distinct(paths[pi].entries@));
        if i != j {
            assert(paths[pi].entries@[i].node != paths[pj].entries@[j].node);
        }
    }
}

/// Reconstruction distributes over concatenation of entry lists.
pub proof fn lemma_recon_concat(blocks: Seq<Block>, s1: Seq<PathEntry>, s2: Seq<PathEntry>)
    ensures
        recon_entries(blocks, s1 + s2) == recon_entries(blocks, s1) + recon_entries(blocks, s2),
    decreases s1.len(),
{
    if s1.len() == 0 {
        assert(s1 + s2 =~= s2);
        assert(recon_entries(blocks, s1) + recon_entries(blocks, s2) =~= recon_entries(
            blocks,
            s2,
        ));
    } else {
        assert((s1 + s2).subrange(1, (s1 + s2).len() as int) =~= s1.subrange(
            1,
            s1.len() as int,
        ) + s2);
        assert((s1 + s2)[0] == s1[0]);
        lemma_recon_concat(blocks, s1.subrange(1, s1.len() as int), s2);
        assert(recon_entries(blocks, s1 + s2) =~= recon_entries(blocks, s1) + recon_entries(
            blocks,
            s2,
        ));
    }
}

/// A single entry reconstructs exactly its contribution.
pub proof fn lemma_recon_one(blocks: Seq<Block>, e: PathEntry)
    ensures
        recon_entries(blocks, seq![e]) == entry_contrib(blocks, e),
{
    assert(seq![e][0] == e);
    assert(seq![e].subrange(1, 1) =~= Seq::<PathEntry>::empty());
    assert(recon_entries(blocks, Seq::<PathEntry>::empty()) =~= Seq::<u8>::empty());
    assert(recon_entries(blocks, seq![e]) =~= entry_contrib(blocks, e) + recon_entries(
        blocks,
        seq![e].subrange(1, 1),
    ));
    assert(entry_contrib(blocks, e) + Seq::<u8>::empty() =~= entry_contrib(blocks, e));
}

/// Reconstruction depends on the blocks only through each entry's
/// contribution.
pub proof fn lemma_recon_congruence(b1: Seq<Block>, b2: Seq<Block>, s: Seq<PathEntry>)
    requires
        forall|i: int| 0 <= i < s.len() ==> entry_contrib(b1, #[trigger] s[i]) == entry_contrib(
            b2,
            s[i],
        ),
    ensures
        recon_entries(b1, s) == recon_entries(b2, s),
    decreases s.len(),
{
    if s.len() > 0 {
        let t = s.subrange(1, s.len() as int);
        assert(forall|i: int| 0 <= i < t.len() ==> #[trigger] t[i] == s[i + 1]);
        lemma_recon_congruence(b1, b2, t);
    }
}

} // verus!
