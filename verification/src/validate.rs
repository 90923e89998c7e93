//! Validation of a graph against the structural invariant, and the checked
//! constructor. A malformed input is reported with the first invariant it
//! breaks; no partially valid graph is handed out.

use vstd::prelude::*;

use crate::model::{
    blocks_rec_nodes_distinct, blocks_unique, entries_located, entries_matched, entry_located,
    entry_matched, entry_nodes_distinct, has_block, has_path, has_rec, lemma_block_index_of,
    lemma_rec_index_of, node_in, nodes_unique, occurrence_of, path_disjoint_after, paths_unique,
    rec_nodes_distinct, records_covered, wf, Block, Graph, MalformedKind, MarginalizeError, Path,
};

verus! {

/// The outcome of validation: the first broken invariant, in a fixed order
/// of checks, or success.
pub open spec fn validate_spec(g: Graph) -> Result<(), MarginalizeError> {
    if !blocks_unique(g.blocks@) {
        Err(MarginalizeError::MalformedGraph(MalformedKind::DuplicateBlockId))
    } else if !paths_unique(g.paths@) {
        Err(MarginalizeError::MalformedGraph(MalformedKind::DuplicatePathName))
    } else if !nodes_unique(g.paths@) {
        Err(MarginalizeError::MalformedGraph(MalformedKind::DuplicateNode))
    } else if !blocks_rec_nodes_distinct(g.blocks@) {
        Err(MarginalizeError::MalformedGraph(MalformedKind::DuplicateRecordNode))
    } else if !entries_located(g) {
        Err(MarginalizeError::MalformedGraph(MalformedKind::DanglingReference))
    } else if !entries_matched(g) {
        Err(MarginalizeError::MalformedGraph(MalformedKind::RecordMismatch))
    } else if !records_covered(g) {
        Err(MarginalizeError::MalformedGraph(MalformedKind::OrphanRecord))
    } else {
        Ok(())
    }
}

/// Index of the block with the given identifier, scanning in order.
pub fn find_block_idx(g: &Graph, id: u64) -> (r: Option<usize>)
    ensures
        match r {
            Some(i) => i < g.blocks@.len() && g.blocks@[i as int].id == id,
            None => !has_block(g.blocks@, id),
        },
{
    let mut i: usize = 0;
    while i < g.blocks.len()
        invariant
            i <= g.blocks@.len(),
            forall|a: int| 0 <= a < i ==> (#[trigger] g.blocks@[a]).id != id,
        decreases g.blocks@.len() - i,
    {
        if g.blocks[i].id == id {
            return Some(i);
        }
        i += 1;
    }
    None
}

/// Index of the record with the given node within a block.
pub fn find_rec_idx(b: &Block, node: u64) -> (r: Option<usize>)
    ensures
        match r {
            Some(j) => j < b.records@.len() && b.records@[j as int].node == node,
            None => !has_rec(*b, node),
        },
{
    let mut j: usize = 0;
    while j < b.records.len()
        invariant
            j <= b.records@.len(),
            forall|a: int| 0 <= a < j ==> (#[trigger] b.records@[a]).node != node,
        decreases b.records@.len() - j,
    {
        if b.records[j].node == node {
            return Some(j);
        }
        j += 1;
    }
    None
}

/// Index of the path of the given strain name.
pub fn find_path_idx(g: &Graph, name: &String) -> (r: Option<usize>)
    ensures
        match r {
            Some(k) => k < g.paths@.len() && g.paths@[k as int].name@ == name@,
            None => !has_path(*g, name@),
        },
{
    let mut k: usize = 0;
    while k < g.paths.len()
        invariant
            k <= g.paths@.len(),
            forall|a: int| 0 <= a < k ==> (#[trigger] g.paths@[a]).name@ != name@,
        decreases g.paths@.len() - k,
    {
        if g.paths[k].name == *name {
            return Some(k);
        }
        k += 1;
    }
    None
}

fn check_blocks_unique(g: &Graph) -> (r: bool)
    ensures
        r == blocks_unique(g.blocks@),
{
    let n = g.blocks.len();
    let mut i: usize = 0;
    while i < n
        invariant
            n == g.blocks@.len(),
            i <= n,
            forall|a: int, b: int| #![trigger g.blocks@[a], g.blocks@[b]]
                0 <= a < b < n && a < i ==> g.blocks@[a].id != g.blocks@[b].id,
        decreases n - i,
    {
        let mut j: usize = i + 1;
        while j < n
            invariant
                n == g.blocks@.len(),
                i < n,
                i + 1 <= j <= n,
                forall|b: int| i < b < j ==> g.blocks@[i as int].id != (#[trigger] g.blocks@[b]).id,
            decreases n - j,
        {
            if g.blocks[i].id == g.blocks[j].id {
                return false;
            }
            j += 1;
        }
        i += 1;
    }
    true
}

fn check_paths_unique(g: &Graph) -> (r: bool)
    ensures
        r == paths_unique(g.paths@),
{
    let n = g.paths.len();
    let mut i: usize = 0;
    while i < n
        invariant
            n == g.paths@.len(),
            i <= n,
            forall|a: int, b: int| #![trigger g.paths@[a], g.paths@[b]]
                0 <= a < b < n && a < i ==> g.paths@[a].name@ != g.paths@[b].name@,
        decreases n - i,
    {
        let mut j: usize = i + 1;
        while j < n
            invariant
                n == g.paths@.len(),
                i < n,
                i + 1 <= j <= n,
                forall|b: int| i < b < j ==> g.paths@[i as int].name@ != (#[trigger] g.paths@[b]).name@,
            decreases n - j,
        {
            if g.paths[i].name == g.paths[j].name {
                return false;
            }
            j += 1;
        }
        i += 1;
    }
    true
}

/// Whether some entry of the path carries the given node.
pub fn path_has_node(p: &Path, n: u64) -> (r: bool)
    ensures
        r == node_in(p.entries@, n),
{
    let mut i: usize = 0;
    while i < p.entries.len()
        invariant
            i <= p.entries@.len(),
            forall|a: int| 0 <= a < i ==> (#[trigger] p.entries@[a]).node != n,
        decreases p.entries@.len() - i,
    {
        if p.entries[i].node == n {
            return true;
        }
        i += 1;
    }
    false
}

fn check_entry_nodes_distinct(p: &Path) -> (r: bool)
    ensures
        r == entry_nodes_distinct(p.entries@),
{
    let n = p.entries.len();
    let mut i: usize = 0;
    while i < n
        invariant
            n == p.entries@.len(),
            i <= n,
            forall|a: int, b: int| #![trigger p.entries@[a], p.entries@[b]]
                0 <= a < b < n && a < i ==> p.entries@[a].node != p.entries@[b].node,
        decreases n - i,
    {
        let mut j: usize = i + 1;
        while j < n
            invariant
                n == p.entries@.len(),
                i < n,
                i + 1 <= j <= n,
                forall|b: int| i < b < j ==> p.entries@[i as int].node != (#[trigger] p.entries@[b]).node,
            decreases n - j,
        {
            if p.entries[i].node == p.entries[j].node {
                return false;
            }
            j += 1;
        }
        i += 1;
    }
    true
}

fn check_nodes_unique(g: &Graph) -> (r: bool)
    ensures
        r == nodes_unique(g.paths@),
{
    let n = g.paths.len();
    let mut pi: usize = 0;
    while pi < n
        invariant
            n == g.paths@.len(),
            pi <= n,
            forall|a: int| 0 <= a < pi ==> entry_nodes_distinct(#[trigger] g.paths@[a].entries@),
        decreases n - pi,
    {
        if !check_entry_nodes_distinct(&g.paths[pi]) {
            return false;
        }
        pi += 1;
    }
    let mut a: usize = 0;
    while a < n
        invariant
            n == g.paths@.len(),
            a <= n,
            forall|x: int| 0 <= x < n ==> entry_nodes_distinct(#[trigger] g.paths@[x].entries@),
            forall|x: int| 0 <= x < a ==> #[trigger] path_disjoint_after(g.paths@, x),
        decreases n - a,
    {
        if !check_path_disjoint_after(g, a) {
            return false;
        }
        a += 1;
    }
    true
}

fn check_path_disjoint_after(g: &Graph, a: usize) -> (r: bool)
    requires
        a < g.paths@.len(),
    ensures
        r == path_disjoint_after(g.paths@, a as int),
{
    let n = g.paths.len();
    let m = g.paths[a].entries.len();
    let mut i: usize = 0;
    while i < m
        invariant
            n == g.paths@.len(),
            a < n,
            m == g.paths@[a as int].entries@.len(),
            i <= m,
            forall|y: int, ii: int|
                #![trigger node_in(g.paths@[y].entries@, g.paths@[a as int].entries@[ii].node)]
                a < y < n && 0 <= ii < i ==> !node_in(
                    g.paths@[y].entries@,
                    g.paths@[a as int].entries@[ii].node,
                ),
        decreases m - i,
    {
        let nd = g.paths[a].entries[i].node;
        let mut b: usize = a + 1;
        while b < n
            invariant
                n == g.paths@.len(),
                a < n,
                i < g.paths@[a as int].entries@.len(),
                nd == g.paths@[a as int].entries@[i as int].node,
                a + 1 <= b <= n,
                forall|y: int| a < y < b ==> !node_in((#[trigger] g.paths@[y]).entries@, nd),
            decreases n - b,
        {
            if path_has_node(&g.paths[b], nd) {
                proof {
                    assert(node_in(g.paths@[a as int].entries@, nd));
                    assert(node_in(g.paths@[b as int].entries@, nd));
                    assert(!path_disjoint_after(g.paths@, a as int));
                }
                return false;
            }
            b += 1;
        }
        i += 1;
    }
    proof {
        assert forall|y: int, nd: u64|
            #![trigger node_in(g.paths@[y].entries@, nd)]
            a < y < g.paths@.len() && node_in(g.paths@[a as int].entries@, nd) implies !node_in(
            g.paths@[y].entries@,
            nd,
        ) by {
            let ii = choose|ii: int|
                0 <= ii < g.paths@[a as int].entries@.len() && g.paths@[a as int].entries@[ii].node
                    == nd;
            assert(!node_in(g.paths@[y].entries@, g.paths@[a as int].entries@[ii].node));
        }
    }
    true
}

fn check_blocks_rec_nodes_distinct(g: &Graph) -> (r: bool)
    ensures
        r == blocks_rec_nodes_distinct(g.blocks@),
{
    let n = g.blocks.len();
    let mut bi: usize = 0;
    while bi < n
        invariant
            n == g.blocks@.len(),
            bi <= n,
            forall|a: int| 0 <= a < bi ==> rec_nodes_distinct(#[trigger] g.blocks@[a]),
        decreases n - bi,
    {
        let m = g.blocks[bi].records.len();
        let mut i: usize = 0;
        while i < m
            invariant
                n == g.blocks@.len(),
                bi < n,
                m == g.blocks@[bi as int].records@.len(),
                i <= m,
                forall|a: int, b: int|
                    #![trigger g.blocks@[bi as int].records@[a], g.blocks@[bi as int].records@[b]]
                    0 <= a < b < m && a < i ==> g.blocks@[bi as int].records@[a].node
                        != g.blocks@[bi as int].records@[b].node,
            decreases m - i,
        {
            let mut j: usize = i + 1;
            while j < m
                invariant
                    n == g.blocks@.len(),
                    bi < n,
                    m == g.blocks@[bi as int].records@.len(),
                    i < m,
                    i + 1 <= j <= m,
                    forall|b: int|
                        i < b < j ==> g.blocks@[bi as int].records@[i as int].node != (
                        #[trigger] g.blocks@[bi as int].records@[b]).node,
                decreases m - j,
            {
                if g.blocks[bi].records[i].node == g.blocks[bi].records[j].node {
                    return false;
                }
                j += 1;
            }
            i += 1;
        }
        bi += 1;
    }
    true
}

fn check_entries_located(g: &Graph) -> (r: bool)
    requires
        blocks_unique(g.blocks@),
    ensures
        r == entries_located(*g),
{
    let n = g.paths.len();
    let mut pi: usize = 0;
    while pi < n
        invariant
            blocks_unique(g.blocks@),
            n == g.paths@.len(),
            pi <= n,
            forall|a: int, i: int|
                0 <= a < pi && 0 <= i < g.paths@[a].entries@.len() ==> entry_located(
                    g.blocks@,
                    #[trigger] g.paths@[a].entries@[i],
                ),
        decreases n - pi,
    {
        let m = g.paths[pi].entries.len();
        let mut i: usize = 0;
        while i < m
            invariant
                blocks_unique(g.blocks@),
                n == g.paths@.len(),
                pi < n,
                m == g.paths@[pi as int].entries@.len(),
                i <= m,
                forall|a: int, ii: int|
                    0 <= a < pi && 0 <= ii < g.paths@[a].entries@.len() ==> entry_located(
                        g.blocks@,
                        #[trigger] g.paths@[a].entries@[ii],
                    ),
                forall|ii: int| 0 <= ii < i ==> entry_located(
                    g.blocks@,
                    #[trigger] g.paths@[pi as int].entries@[ii],
                ),
            decreases m - i,
        {
            let e = g.paths[pi].entries[i];
            match find_block_idx(g, e.block) {
                None => {
                    return false;
                },
                Some(bidx) => {
                    proof {
                        lemma_block_index_of(g.blocks@, bidx as int);
                    }
                    match find_rec_idx(&g.blocks[bidx], e.node) {
                        None => {
                            return false;
                        },
                        Some(_) => {
                        },
                    }
                },
            }
            i += 1;
        }
        pi += 1;
    }
    true
}

fn check_entries_matched(g: &Graph) -> (r: bool)
    requires
        blocks_unique(g.blocks@),
        blocks_rec_nodes_distinct(g.blocks@),
        entries_located(*g),
    ensures
        r == entries_matched(*g),
{
    let n = g.paths.len();
    let mut pi: usize = 0;
    while pi < n
        invariant
            blocks_unique(g.blocks@),
            blocks_rec_nodes_distinct(g.blocks@),
            entries_located(*g),
            n == g.paths@.len(),
            pi <= n,
            forall|a: int, i: int|
                0 <= a < pi && 0 <= i < g.paths@[a].entries@.len() ==> entry_matched(
                    g.blocks@,
                    #[trigger] g.paths@[a].entries@[i],
                    g.paths@[a].name@,
                ),
        decreases n - pi,
    {
        let m = g.paths[pi].entries.len();
        let mut i: usize = 0;
        while i < m
            invariant
                blocks_unique(g.blocks@),
                blocks_rec_nodes_distinct(g.blocks@),
                entries_located(*g),
                n == g.paths@.len(),
                pi < n,
                m == g.paths@[pi as int].entries@.len(),
                i <= m,
                forall|a: int, ii: int|
                    0 <= a < pi && 0 <= ii < g.paths@[a].entries@.len() ==> entry_matched(
                        g.blocks@,
                        #[trigger] g.paths@[a].entries@[ii],
                        g.paths@[a].name@,
                    ),
                forall|ii: int| 0 <= ii < i ==> entry_matched(
                    g.blocks@,
                    #[trigger] g.paths@[pi as int].entries@[ii],
                    g.paths@[pi as int].name@,
                ),
            decreases m - i,
        {
            let e = g.paths[pi].entries[i];
            let bidx = match find_block_idx(g, e.block) {
                None => {
                    proof {
                        assert(entry_located(g.blocks@, g.paths@[pi as int].entries@[i as int]));
                        assert(false);
                    }
                    return false;
                },
                Some(b) => b,
            };
            proof {
                lemma_block_index_of(g.blocks@, bidx as int);
            }
            let ridx = match find_rec_idx(&g.blocks[bidx], e.node) {
                None => {
                    proof {
                        assert(entry_located(g.blocks@, g.paths@[pi as int].entries@[i as int]));
                        assert(false);
                    }
                    return false;
                },
                Some(rj) => rj,
            };
            proof {
                lemma_rec_index_of(g.blocks@[bidx as int], ridx as int);
            }
            let rec_strain_ok = g.blocks[bidx].records[ridx].strain == g.paths[pi].name;
            let rec_strand_ok = g.blocks[bidx].records[ridx].strand == e.strand;
            if !(rec_strain_ok && rec_strand_ok) {
                return false;
            }
            i += 1;
        }
        pi += 1;
    }
    true
}

/// Whether some path occurrence carries the given node on the given block.
fn has_occurrence(g: &Graph, node: u64, blk: u64) -> (r: bool)
    ensures
        r == occurrence_of(*g, node, blk),
{
    let n = g.paths.len();
    let mut pi: usize = 0;
    while pi < n
        invariant
            n == g.paths@.len(),
            pi <= n,
            forall|a: int, i: int|
                0 <= a < pi && 0 <= i < g.paths@[a].entries@.len() ==> !((
                #[trigger] g.paths@[a].entries@[i]).node == node && g.paths@[a].entries@[i].block
                    == blk),
        decreases n - pi,
    {
        let m = g.paths[pi].entries.len();
        let mut i: usize = 0;
        while i < m
            invariant
                n == g.paths@.len(),
                pi < n,
                m == g.paths@[pi as int].entries@.len(),
                i <= m,
                forall|ii: int|
                    0 <= ii < i ==> !((#[trigger] g.paths@[pi as int].entries@[ii]).node == node
                        && g.paths@[pi as int].entries@[ii].block == blk),
            decreases m - i,
        {
            if g.paths[pi].entries[i].node == node && g.paths[pi].entries[i].block == blk {
                return true;
            }
            i += 1;
        }
        pi += 1;
    }
    false
}

fn check_records_covered(g: &Graph) -> (r: bool)
    ensures
        r == records_covered(*g),
{
    let n = g.blocks.len();
    let mut bi: usize = 0;
    while bi < n
        invariant
            n == g.blocks@.len(),
            bi <= n,
            forall|a: int, rj: int|
                0 <= a < bi && 0 <= rj < g.blocks@[a].records@.len() ==> occurrence_of(
                    *g,
                    (#[trigger] g.blocks@[a].records@[rj]).node,
                    g.blocks@[a].id,
                ),
        decreases n - bi,
    {
        let m = g.blocks[bi].records.len();
        let mut rj: usize = 0;
        while rj < m
            invariant
                n == g.blocks@.len(),
                bi < n,
                m == g.blocks@[bi as int].records@.len(),
                rj <= m,
                forall|a: int, rr: int|
                    0 <= a < bi && 0 <= rr < g.blocks@[a].records@.len() ==> occurrence_of(
                        *g,
                        (#[trigger] g.blocks@[a].records@[rr]).node,
                        g.blocks@[a].id,
                    ),
                forall|rr: int|
                    0 <= rr < rj ==> occurrence_of(
                        *g,
                        (#[trigger] g.blocks@[bi as int].records@[rr]).node,
                        g.blocks@[bi as int].id,
                    ),
            decreases m - rj,
        {
            if !has_occurrence(g, g.blocks[bi].records[rj].node, g.blocks[bi].id) {
                return false;
            }
            rj += 1;
        }
        bi += 1;
    }
    true
}

/// Checks the whole structural invariant, reporting the first broken clause.
pub fn validate(g: &Graph) -> (r: Result<(), MarginalizeError>)
    ensures
        r == validate_spec(*g),
        r is Ok <==> wf(*g),
{
    if !check_blocks_unique(g) {
        return Err(MarginalizeError::MalformedGraph(MalformedKind::DuplicateBlockId));
    }
    if !check_paths_unique(g) {
        return Err(MarginalizeError::MalformedGraph(MalformedKind::DuplicatePathName));
    }
    if !check_nodes_unique(g) {
        return Err(MarginalizeError::MalformedGraph(MalformedKind::DuplicateNode));
    }
    if !check_blocks_rec_nodes_distinct(g) {
        return Err(MarginalizeError::MalformedGraph(MalformedKind::DuplicateRecordNode));
    }
    if !check_entries_located(g) {
        return Err(MarginalizeError::MalformedGraph(MalformedKind::DanglingReference));
    }
    if !check_entries_matched(g) {
        return Err(MarginalizeError::MalformedGraph(MalformedKind::RecordMismatch));
    }
    if !check_records_covered(g) {
        return Err(MarginalizeError::MalformedGraph(MalformedKind::OrphanRecord));
    }
    Ok(())
}

impl Graph {
    /// Builds a graph from an external representation, validating the
    /// structural invariant; a malformed input is rejected with the first
    /// invariant it breaks.
    pub fn new(blocks: Vec<Block>, paths: Vec<Path>) -> (r: Result<Graph, MarginalizeError>)
        ensures
            match r {
                Ok(g) => wf(g) && g.blocks@ == blocks@ && g.paths@ == paths@,
                Err(e) => !wf((Graph { blocks, paths })) && validate_spec(
                    (Graph { blocks, paths }),
                ) == Err::<(), MarginalizeError>(e),
            },
    {
        let g = Graph { blocks, paths };
        match validate(&g) {
            Ok(()) => Ok(g),
            Err(e) => Err(e),
        }
    }
}

} // verus!
