//! The merge condition: two blocks are merge candidates when their
//! adjacency is universal and exclusive among the retained paths — every
//! occurrence of the first is immediately followed by the second, every
//! occurrence of the second is immediately preceded by the first, and each
//! block is traversed in one strand throughout. An adjacency realized only
//! across a circular path's linearization seam is left split, so that the
//! linearized reconstruction of every strain is preserved exactly.

use vstd::prelude::*;

use crate::model::{entries_located, entry_located, has_block, Graph, Path, PathEntry, Strand};

verus! {

/// The local adjacency and strand conditions at one entry: an occurrence
/// of `x1` has an `x2` occurrence right after it (never across the end),
/// an occurrence of `x2` has an `x1` occurrence right before it, and the
/// strands are `s1` and `s2` throughout.
pub open spec fn entry_adj_ok(
    s: Seq<PathEntry>,
    i: int,
    x1: u64,
    x2: u64,
    s1: Strand,
    s2: Strand,
) -> bool {
    &&& (s[i].block == x1 ==> i + 1 < s.len() && s[i + 1].block == x2 && s[i].strand == s1 && s[i
        + 1].strand == s2)
    &&& (s[i].block == x2 ==> 1 <= i && s[i - 1].block == x1 && s[i].strand == s2)
}

/// The adjacency condition holds at every entry of the path.
pub open spec fn seq_adj_ok(s: Seq<PathEntry>, x1: u64, x2: u64, s1: Strand, s2: Strand) -> bool {
    forall|i: int| 0 <= i < s.len() ==> #[trigger] entry_adj_ok(s, i, x1, x2, s1, s2)
}

pub open spec fn block_occurs(ps: Seq<Path>, x: u64) -> bool {
    exists|pi: int, i: int|
        0 <= pi < ps.len() && 0 <= i < ps[pi].entries@.len() && (
        #[trigger] ps[pi].entries@[i]).block == x
}

/// The universal-and-exclusive adjacency of `x1` before `x2`, with the
/// strands each block is traversed in.
pub open spec fn cand_with(ps: Seq<Path>, x1: u64, x2: u64, s1: Strand, s2: Strand) -> bool {
    &&& x1 != x2
    &&& block_occurs(ps, x1)
    &&& forall|a: int| 0 <= a < ps.len() ==> seq_adj_ok((#[trigger] ps[a]).entries@, x1, x2, s1, s2)
}

/// `x1` and `x2` are merge candidates.
pub open spec fn cand(ps: Seq<Path>, x1: u64, x2: u64) -> bool {
    exists|s1: Strand, s2: Strand| cand_with(ps, x1, x2, s1, s2)
}

/// No pair of blocks can be merged: the graph is a fixed point of the
/// merge pass.
pub open spec fn no_cand(ps: Seq<Path>) -> bool {
    forall|x1: u64, x2: u64| !cand(ps, x1, x2)
}

/// Finds any occurrence of the block, scanning paths in order.
pub fn find_occ(g: &Graph, x: u64) -> (r: Option<(usize, usize)>)
    ensures
        match r {
            Some(t) => t.0 < g.paths@.len() && t.1 < g.paths@[t.0 as int].entries@.len()
                && g.paths@[t.0 as int].entries@[t.1 as int].block == x,
            None => !block_occurs(g.paths@, x),
        },
{
    let n = g.paths.len();
    let mut pi: usize = 0;
    while pi < n
        invariant
            n == g.paths@.len(),
            pi <= n,
            forall|a: int, i: int|
                0 <= a < pi && 0 <= i < g.paths@[a].entries@.len() ==> (
                #[trigger] g.paths@[a].entries@[i]).block != x,
        decreases n - pi,
    {
        let m = g.paths[pi].entries.len();
        let mut i: usize = 0;
        while i < m
            invariant
                n == g.paths@.len(),
                pi < n,
                m == g.paths@[pi as int].entries@.len(),
                i <= m,
                forall|ii: int|
                    0 <= ii < i ==> (#[trigger] g.paths@[pi as int].entries@[ii]).block != x,
            decreases m - i,
        {
            if g.paths[pi].entries[i].block == x {
                return Some((pi, i));
            }
            i += 1;
        }
        pi += 1;
    }
    None
}

proof fn lemma_not_cand_same(ps: Seq<Path>, x: u64)
    ensures
        !cand(ps, x, x),
{
    if cand(ps, x, x) {
        let (t1, t2): (Strand, Strand) = choose|t1: Strand, t2: Strand|
            cand_with(ps, x, x, t1, t2);
    }
}

proof fn lemma_not_cand_noocc(ps: Seq<Path>, x1: u64, x2: u64)
    requires
        !block_occurs(ps, x1),
    ensures
        !cand(ps, x1, x2),
{
    if cand(ps, x1, x2) {
        let (t1, t2): (Strand, Strand) = choose|t1: Strand, t2: Strand|
            cand_with(ps, x1, x2, t1, t2);
    }
}

/// Refutes candidacy from one entry that breaks the local condition for
/// both possible strand assignments.
proof fn lemma_not_cand_entry(ps: Seq<Path>, x1: u64, x2: u64, pi: int, i: int)
    requires
        0 <= pi < ps.len(),
        0 <= i < ps[pi].entries@.len(),
        forall|t1: Strand, t2: Strand| !entry_adj_ok(ps[pi].entries@, i, x1, x2, t1, t2),
    ensures
        !cand(ps, x1, x2),
{
    if cand(ps, x1, x2) {
        let (t1, t2): (Strand, Strand) = choose|t1: Strand, t2: Strand|
            cand_with(ps, x1, x2, t1, t2);
        assert(seq_adj_ok(ps[pi].entries@, x1, x2, t1, t2));
        assert(entry_adj_ok(ps[pi].entries@, i, x1, x2, t1, t2));
    }
}

/// Refutes candidacy from two occurrences of `x1` in different strands.
proof fn lemma_not_cand_strand1(ps: Seq<Path>, x1: u64, x2: u64, pi: int, i: int, pj: int, j: int)
    requires
        0 <= pi < ps.len(),
        0 <= i < ps[pi].entries@.len(),
        ps[pi].entries@[i].block == x1,
        0 <= pj < ps.len(),
        0 <= j < ps[pj].entries@.len(),
        ps[pj].entries@[j].block == x1,
        ps[pi].entries@[i].strand != ps[pj].entries@[j].strand,
    ensures
        !cand(ps, x1, x2),
{
    if cand(ps, x1, x2) {
        let (t1, t2): (Strand, Strand) = choose|t1: Strand, t2: Strand|
            cand_with(ps, x1, x2, t1, t2);
        assert(seq_adj_ok(ps[pi].entries@, x1, x2, t1, t2));
        assert(seq_adj_ok(ps[pj].entries@, x1, x2, t1, t2));
        assert(entry_adj_ok(ps[pi].entries@, i, x1, x2, t1, t2));
        assert(entry_adj_ok(ps[pj].entries@, j, x1, x2, t1, t2));
    }
}

/// Refutes candidacy from two occurrences of `x2` in different strands.
proof fn lemma_not_cand_strand2(ps: Seq<Path>, x1: u64, x2: u64, pi: int, i: int, pj: int, j: int)
    requires
        0 <= pi < ps.len(),
        0 <= i < ps[pi].entries@.len(),
        ps[pi].entries@[i].block == x2,
        0 <= pj < ps.len(),
        0 <= j < ps[pj].entries@.len(),
        ps[pj].entries@[j].block == x2,
        ps[pi].entries@[i].strand != ps[pj].entries@[j].strand,
    ensures
        !cand(ps, x1, x2),
{
    if cand(ps, x1, x2) {
        let (t1, t2): (Strand, Strand) = choose|t1: Strand, t2: Strand|
            cand_with(ps, x1, x2, t1, t2);
        assert(seq_adj_ok(ps[pi].entries@, x1, x2, t1, t2));
        assert(seq_adj_ok(ps[pj].entries@, x1, x2, t1, t2));
        assert(entry_adj_ok(ps[pi].entries@, i, x1, x2, t1, t2));
        assert(entry_adj_ok(ps[pj].entries@, j, x1, x2, t1, t2));
    }
}

/// Decides whether `x1` directly before `x2` is a merge candidate.
pub fn check_pair(g: &Graph, x1: u64, x2: u64) -> (r: bool)
    ensures
        r == cand(g.paths@, x1, x2),
{
    let ghost ps = g.paths@;
    if x1 == x2 {
        proof {
            lemma_not_cand_same(ps, x1);
        }
        return false;
    }
    let (p0, i0) = match find_occ(g, x1) {
        None => {
            proof {
                lemma_not_cand_noocc(ps, x1, x2);
            }
            return false;
        },
        Some(t) => t,
    };
    let s1 = g.paths[p0].entries[i0].strand;
    let m0 = g.paths[p0].entries.len();
    if i0 + 1 >= m0 || g.paths[p0].entries[i0 + 1].block != x2 {
        proof {
            assert forall|t1: Strand, t2: Strand| !entry_adj_ok(
                ps[p0 as int].entries@,
                i0 as int,
                x1,
                x2,
                t1,
                t2,
            ) by {}
            lemma_not_cand_entry(ps, x1, x2, p0 as int, i0 as int);
        }
        return false;
    }
    let s2 = g.paths[p0].entries[i0 + 1].strand;
    let n = g.paths.len();
    let mut pi: usize = 0;
    while pi < n
        invariant
            n == ps.len(),
            ps == g.paths@,
            pi <= n,
            x1 != x2,
            p0 < ps.len(),
            i0 + 1 < ps[p0 as int].entries@.len(),
            ps[p0 as int].entries@[i0 as int].block == x1,
            ps[p0 as int].entries@[i0 as int].strand == s1,
            ps[p0 as int].entries@[i0 + 1].block == x2,
            ps[p0 as int].entries@[i0 + 1].strand == s2,
            forall|a: int, i: int|
                0 <= a < pi && 0 <= i < ps[a].entries@.len() ==> #[trigger] entry_adj_ok(
                    ps[a].entries@,
                    i,
                    x1,
                    x2,
                    s1,
                    s2,
                ),
        decreases n - pi,
    {
        let m = g.paths[pi].entries.len();
        let mut i: usize = 0;
        while i < m
            invariant
                n == ps.len(),
                ps == g.paths@,
                pi < n,
                m == ps[pi as int].entries@.len(),
                i <= m,
                x1 != x2,
                p0 < ps.len(),
                i0 + 1 < ps[p0 as int].entries@.len(),
                ps[p0 as int].entries@[i0 as int].block == x1,
                ps[p0 as int].entries@[i0 as int].strand == s1,
                ps[p0 as int].entries@[i0 + 1].block == x2,
                ps[p0 as int].entries@[i0 + 1].strand == s2,
                forall|ii: int| 0 <= ii < i ==> #[trigger] entry_adj_ok(
                    ps[pi as int].entries@,
                    ii,
                    x1,
                    x2,
                    s1,
                    s2,
                ),
            decreases m - i,
        {
            let e = g.paths[pi].entries[i];
            if e.block == x1 {
                if i + 1 >= m || g.paths[pi].entries[i + 1].block != x2 {
                    proof {
                        assert forall|t1: Strand, t2: Strand| !entry_adj_ok(
                            ps[pi as int].entries@,
                            i as int,
                            x1,
                            x2,
                            t1,
                            t2,
                        ) by {}
                        lemma_not_cand_entry(ps, x1, x2, pi as int, i as int);
                    }
                    return false;
                }
                if e.strand != s1 {
                    proof {
                        lemma_not_cand_strand1(
                            ps,
                            x1,
                            x2,
                            pi as int,
                            i as int,
                            p0 as int,
                            i0 as int,
                        );
                    }
                    return false;
                }
                if g.paths[pi].entries[i + 1].strand != s2 {
                    proof {
                        lemma_not_cand_strand2(
                            ps,
                            x1,
                            x2,
                            pi as int,
                            i + 1,
                            p0 as int,
                            i0 + 1,
                        );
                    }
                    return false;
                }
            }
            if e.block == x2 {
                if i < 1 || g.paths[pi].entries[i - 1].block != x1 {
                    proof {
                        assert forall|t1: Strand, t2: Strand| !entry_adj_ok(
                            ps[pi as int].entries@,
                            i as int,
                            x1,
                            x2,
                            t1,
                            t2,
                        ) by {}
                        lemma_not_cand_entry(ps, x1, x2, pi as int, i as int);
                    }
                    return false;
                }
                if e.strand != s2 {
                    proof {
                        lemma_not_cand_strand2(
                            ps,
                            x1,
                            x2,
                            pi as int,
                            i as int,
                            p0 as int,
                            i0 + 1,
                        );
                    }
                    return false;
                }
            }
            proof {
                assert(entry_adj_ok(ps[pi as int].entries@, i as int, x1, x2, s1, s2));
            }
            i += 1;
        }
        pi += 1;
    }
    proof {
        assert forall|a: int| 0 <= a < ps.len() implies seq_adj_ok(
            (#[trigger] ps[a]).entries@,
            x1,
            x2,
            s1,
            s2,
        ) by {
            assert forall|i: int| 0 <= i < ps[a].entries@.len() implies #[trigger] entry_adj_ok(
                ps[a].entries@,
                i,
                x1,
                x2,
                s1,
                s2,
            ) by {}
        }
        assert(block_occurs(ps, x1));
        assert(cand_with(ps, x1, x2, s1, s2));
    }
    true
}

/// Finds a merge candidate pair, scanning block pairs in order; none is
/// found exactly when the graph is a fixed point of the merge pass.
pub fn find_candidate(g: &Graph) -> (r: Option<(usize, usize)>)
    requires
        entries_located(*g),
    ensures
        match r {
            Some(t) => t.0 < g.blocks@.len() && t.1 < g.blocks@.len() && t.0 != t.1 && cand(
                g.paths@,
                g.blocks@[t.0 as int].id,
                g.blocks@[t.1 as int].id,
            ),
            None => no_cand(g.paths@),
        },
{
    let n = g.blocks.len();
    let mut bi: usize = 0;
    while bi < n
        invariant
            entries_located(*g),
            n == g.blocks@.len(),
            bi <= n,
            forall|a: int, b: int|
                0 <= a < bi && 0 <= b < n ==> !cand(
                    g.paths@,
                    (#[trigger] g.blocks@[a]).id,
                    (#[trigger] g.blocks@[b]).id,
                ),
        decreases n - bi,
    {
        let mut bj: usize = 0;
        while bj < n
            invariant
                entries_located(*g),
                n == g.blocks@.len(),
                bi < n,
                bj <= n,
                forall|a: int, b: int|
                    0 <= a < bi && 0 <= b < n ==> !cand(
                        g.paths@,
                        (#[trigger] g.blocks@[a]).id,
                        (#[trigger] g.blocks@[b]).id,
                    ),
                forall|b: int|
                    0 <= b < bj ==> !cand(
                        g.paths@,
                        g.blocks@[bi as int].id,
                        (#[trigger] g.blocks@[b]).id,
                    ),
            decreases n - bj,
        {
            if bi != bj {
                if check_pair(g, g.blocks[bi].id, g.blocks[bj].id) {
                    return Some((bi, bj));
                }
            } else {
                proof {
                    lemma_not_cand_same(g.paths@, g.blocks@[bi as int].id);
                }
            }
            bj += 1;
        }
        bi += 1;
    }
    proof {
        lemma_no_cand_everywhere(g);
    }
    None
}

/// When no pair of present blocks is a candidate, no pair of identifiers at
/// all is: a candidate's blocks occur on paths, hence exist in the graph.
proof fn lemma_no_cand_everywhere(g: &Graph)
    requires
        entries_located(*g),
        forall|a: int, b: int|
            0 <= a < g.blocks@.len() && 0 <= b < g.blocks@.len() ==> !cand(
                g.paths@,
                (#[trigger] g.blocks@[a]).id,
                (#[trigger] g.blocks@[b]).id,
            ),
    ensures
        no_cand(g.paths@),
{
    assert forall|x1: u64, x2: u64| !cand(g.paths@, x1, x2) by {
        if cand(g.paths@, x1, x2) {
            let (t1, t2): (Strand, Strand) = choose|t1: Strand, t2: Strand|
                cand_with(g.paths@, x1, x2, t1, t2);
            let (pi, i): (int, int) = choose|pi: int, i: int|
                0 <= pi < g.paths@.len() && 0 <= i < g.paths@[pi].entries@.len() && (
                #[trigger] g.paths@[pi].entries@[i]).block == x1;
            assert(entry_located(g.blocks@, g.paths@[pi].entries@[i]));
            assert(has_block(g.blocks@, x1));
            let a = crate::model::block_index(g.blocks@, x1);
            assert(seq_adj_ok(g.paths@[pi].entries@, x1, x2, t1, t2));
            assert(entry_adj_ok(g.paths@[pi].entries@, i, x1, x2, t1, t2));
            assert(g.paths@[pi].entries@[i + 1].block == x2);
            assert(entry_located(g.blocks@, g.paths@[pi].entries@[i + 1]));
            assert(has_block(g.blocks@, x2));
            let b = crate::model::block_index(g.blocks@, x2);
            assert(!cand(g.paths@, g.blocks@[a].id, g.blocks@[b].id));
        }
    }
}

} // verus!
