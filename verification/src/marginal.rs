//! The marginalization entry point: validate the graph, validate the
//! requested strain set, restrict the graph to those strains, and merge
//! adjacent blocks until no universal-and-exclusive adjacency remains.
//! Every retained path still reconstructs its strain's genome exactly, and
//! the output is a fixed point: marginalizing it again returns it
//! unchanged.

use vstd::prelude::*;

use crate::adjacency::{cand, cand_with, entry_adj_ok, no_cand, seq_adj_ok};
use crate::merge::{entries_blocks_distinct, merge_once};
use crate::model::{
    blocks_eqv, blocks_live, blocks_unique, entries_located, entry_located, entry_nodes_distinct,
    has_block, has_path, name_in, nodes_unique, occurrence_of, recon_entries, strain_recon,
    valid_strains, wf, Graph, MarginalizeError, PathEntry, Strand,
};
use crate::project::{
    keep_paths, lemma_keep_paths_all, lemma_keep_paths_cover, lemma_keep_paths_elem, path_from,
    project, touched_count,
};
use crate::validate::{find_path_idx, validate, validate_spec};

verus! {

/// A graph already in marginal form for the strain set: well-formed, its
/// paths exactly the requested strains, every block traversed, and no
/// merge candidate left. Marginalizing such a graph returns it unchanged.
pub open spec fn marginal_form(g: Graph, ss: Seq<String>) -> bool {
    &&& wf(g)
    &&& valid_strains(g, ss)
    &&& forall|k: int| 0 <= k < g.paths@.len() ==> name_in(ss, (#[trigger] g.paths@[k]).name@)
    &&& blocks_live(g.blocks@)
    &&& no_cand(g.paths@)
}

/// Restricts the graph to the requested strains and merges blocks until no
/// universal-and-exclusive adjacency remains. The graph must be
/// well-formed and the strain set non-empty and known, else the matching
/// error is returned and no graph is built; `MergeConflict` never arises.
#[verifier::rlimit(100)]
#[verifier::spinoff_prover]
pub fn marginalize(g: Graph, strains: &Vec<String>) -> (r: Result<Graph, MarginalizeError>)
    ensures
        r is Err ==> (if !(validate_spec(g) is Ok) {
            r == Err::<Graph, MarginalizeError>(validate_spec(g).unwrap_err())
        } else {
            r == Err::<Graph, MarginalizeError>(MarginalizeError::InvalidStrainSet)
                && !valid_strains(g, strains@)
        }),
        r is Ok <==> wf(g) && valid_strains(g, strains@),
        r is Ok ==> {
            let g2 = r.unwrap();
            &&& marginal_form(g2, strains@)
            &&& g2.paths@.len() == keep_paths(g.paths@, strains@).len()
            &&& forall|k: int|
                0 <= k < g2.paths@.len() ==> (#[trigger] g2.paths@[k]).name@ == keep_paths(
                    g.paths@,
                    strains@,
                )[k].name@ && g2.paths@[k].circular == keep_paths(g.paths@, strains@)[k].circular
                    && recon_entries(g2.blocks@, g2.paths@[k].entries@) == recon_entries(
                    g.blocks@,
                    keep_paths(g.paths@, strains@)[k].entries@,
                ) && (keep_paths(g.paths@, strains@)[k].entries@.len() > 0
                    ==> g2.paths@[k].entries@.len() > 0) && (entries_blocks_distinct(
                    keep_paths(g.paths@, strains@)[k].entries@,
                ) ==> entries_blocks_distinct(g2.paths@[k].entries@))
            &&& g2.blocks@.len() <= touched_count(g.blocks@, strains@)
            &&& (g2.blocks@.len() == touched_count(g.blocks@, strains@) <==> no_cand(
                keep_paths(g.paths@, strains@),
            ))
            &&& forall|a: int|
                0 <= a < g2.blocks@.len() ==> has_block(g.blocks@, (#[trigger] g2.blocks@[a]).id)
            &&& (marginal_form(g, strains@) ==> g2.paths@ == g.paths@ && blocks_eqv(
                g2.blocks@,
                g.blocks@,
            ))
        },
{
    let ghost g0 = g;
    match validate(&g) {
        Err(e) => {
            return Err(e);
        },
        Ok(()) => {
        },
    }
    if strains.len() == 0 {
        return Err(MarginalizeError::InvalidStrainSet);
    }
    let mut k: usize = 0;
    while k < strains.len()
        invariant
            wf(g),
            g == g0,
            k <= strains@.len(),
            forall|a: int| 0 <= a < k ==> has_path(g, (#[trigger] strains@[a])@),
        decreases strains@.len() - k,
    {
        match find_path_idx(&g, &strains[k]) {
            None => {
                return Err(MarginalizeError::InvalidStrainSet);
            },
            Some(_) => {
            },
        }
        k += 1;
    }
    let ghost kp = keep_paths(g0.paths@, strains@);
    let mut cur = project(g, strains);
    let ghost projv = cur;
    let mut done = false;
    while !done
        invariant
            wf(cur),
            blocks_live(cur.blocks@),
            cur.paths@.len() == kp.len(),
            forall|q: int|
                0 <= q < cur.paths@.len() ==> (#[trigger] cur.paths@[q]).name@ == kp[q].name@
                    && cur.paths@[q].circular == kp[q].circular && recon_entries(
                    cur.blocks@,
                    cur.paths@[q].entries@,
                ) == recon_entries(g0.blocks@, kp[q].entries@) && (kp[q].entries@.len() > 0
                    ==> cur.paths@[q].entries@.len() > 0) && (entries_blocks_distinct(
                    kp[q].entries@,
                ) ==> entries_blocks_distinct(cur.paths@[q].entries@)),
            cur.blocks@.len() <= projv.blocks@.len(),
            projv.blocks@.len() == touched_count(g0.blocks@, strains@),
            projv.paths@ == kp,
            cur.blocks@.len() == projv.blocks@.len() ==> (cur.paths@ == projv.paths@
                && cur.blocks@ == projv.blocks@),
            no_cand(kp) ==> cur.blocks@.len() == projv.blocks@.len(),
            forall|a: int|
                0 <= a < cur.blocks@.len() ==> has_block(
                    g0.blocks@,
                    (#[trigger] cur.blocks@[a]).id,
                ),
            ((forall|q: int|
                0 <= q < g0.paths@.len() ==> name_in(strains@, (#[trigger] g0.paths@[q]).name@))
                && blocks_live(g0.blocks@)) ==> (projv.paths@ == g0.paths@ && blocks_eqv(
                projv.blocks@,
                g0.blocks@,
            )),
            done ==> no_cand(cur.paths@),
        decreases cur.blocks@.len() + (if done {
            0int
        } else {
            1int
        }),
    {
        match crate::adjacency::find_candidate(&cur) {
            None => {
                done = true;
            },
            Some((bi, bj)) => {
                proof {
                    if no_cand(kp) {
                        assert(cur.paths@ == projv.paths@);
                        assert(cand(kp, cur.blocks@[bi as int].id, cur.blocks@[bj as int].id));
                        assert(false);
                    }
                }
                let ghost pre = cur;
                cur = merge_once(cur, bi, bj);
                proof {
                    assert forall|a: int| 0 <= a < cur.blocks@.len() implies has_block(
                        g0.blocks@,
                        (#[trigger] cur.blocks@[a]).id,
                    ) by {
                        assert(has_block(pre.blocks@, cur.blocks@[a].id));
                        let w = crate::model::block_index(pre.blocks@, cur.blocks@[a].id);
                        assert(pre.blocks@[w].id == cur.blocks@[a].id);
                        assert(has_block(g0.blocks@, pre.blocks@[w].id));
                    }
                    assert forall|q: int| 0 <= q < cur.paths@.len() implies entry_nodes_distinct(
                        (#[trigger] pre.paths@[q]).entries@,
                    ) by {
                        assert(nodes_unique(pre.paths@));
                    }
                }
            },
        }
    }
    proof {
        lemma_keep_paths_elem(g0.paths@, strains@);
        assert forall|q: int| 0 <= q < cur.paths@.len() implies name_in(
            strains@,
            (#[trigger] cur.paths@[q]).name@,
        ) by {
            assert(path_from(g0.paths@, strains@, kp[q]));
        }
        lemma_keep_paths_cover(g0.paths@, strains@);
        assert forall|a: int| 0 <= a < strains@.len() implies has_path(
            cur,
            (#[trigger] strains@[a])@,
        ) by {
            assert(has_path(g0, strains@[a]@));
            let pk = crate::model::path_index(g0, strains@[a]@);
            assert(g0.paths@[pk].name@ == strains@[a]@);
            assert(name_in(strains@, g0.paths@[pk].name@));
            let w = choose|w: int|
                0 <= w < keep_paths(g0.paths@, strains@).len() && keep_paths(
                    g0.paths@,
                    strains@,
                )[w] == g0.paths@[pk];
            assert(cur.paths@[w].name@ == kp[w].name@);
            assert(has_path(cur, strains@[a]@));
        }
        assert(valid_strains(cur, strains@));
        if marginal_form(g0, strains@) {
            lemma_keep_paths_all(g0.paths@, strains@);
            assert(kp == g0.paths@);
            assert(no_cand(kp));
            assert(cur.paths@ == projv.paths@ && cur.blocks@ == projv.blocks@);
            assert(blocks_eqv(cur.blocks@, g0.blocks@));
        }
        if cur.blocks@.len() == touched_count(g0.blocks@, strains@) {
            assert(cur.paths@ == kp);
            assert(no_cand(kp));
        }
    }
    Ok(cur)
}

/// Runs marginalization for a requested strain set: the command's verified
/// core, from an in-memory graph to the reduced in-memory graph. It fails
/// with the first broken structural invariant on a malformed graph, with
/// `InvalidStrainSet` exactly on an empty or unknown strain set, and never
/// otherwise: `MergeConflict` cannot arise. On success the output is in
/// marginal form — a fixed point of the merge pass — and every requested
/// strain reconstructs its exact genome.
pub fn marginalize_run(g: Graph, strains: &Vec<String>) -> (r: Result<Graph, MarginalizeError>)
    ensures
        r is Err ==> (if !(validate_spec(g) is Ok) {
            r == Err::<Graph, MarginalizeError>(validate_spec(g).unwrap_err())
        } else {
            r == Err::<Graph, MarginalizeError>(MarginalizeError::InvalidStrainSet)
                && !valid_strains(g, strains@)
        }),
        r is Ok <==> wf(g) && valid_strains(g, strains@),
        r is Ok ==> {
            let g2 = r.unwrap();
            &&& marginal_form(g2, strains@)
            &&& g2.paths@.len() == keep_paths(g.paths@, strains@).len()
            &&& forall|k: int|
                0 <= k < g2.paths@.len() ==> (#[trigger] g2.paths@[k]).name@ == keep_paths(
                    g.paths@,
                    strains@,
                )[k].name@ && g2.paths@[k].circular == keep_paths(g.paths@, strains@)[k].circular
                    && recon_entries(g2.blocks@, g2.paths@[k].entries@) == recon_entries(
                    g.blocks@,
                    keep_paths(g.paths@, strains@)[k].entries@,
                ) && (keep_paths(g.paths@, strains@)[k].entries@.len() > 0
                    ==> g2.paths@[k].entries@.len() > 0) && (entries_blocks_distinct(
                    keep_paths(g.paths@, strains@)[k].entries@,
                ) ==> entries_blocks_distinct(g2.paths@[k].entries@))
            &&& g2.blocks@.len() <= touched_count(g.blocks@, strains@)
            &&& (g2.blocks@.len() == touched_count(g.blocks@, strains@) <==> no_cand(
                keep_paths(g.paths@, strains@),
            ))
            &&& forall|a: int|
                0 <= a < g2.blocks@.len() ==> has_block(g.blocks@, (#[trigger] g2.blocks@[a]).id)
            &&& (marginal_form(g, strains@) ==> g2.paths@ == g.paths@ && blocks_eqv(
                g2.blocks@,
                g.blocks@,
            ))
        },
{
    marginalize(g, strains)
}

/// A marginalized single-strain graph is one block holding the whole
/// genome: a non-empty path that repeats no block, with no merge candidate
/// left, has exactly one entry, and the graph exactly one block.
pub proof fn lemma_single_strain_collapses(g: Graph)
    requires
        wf(g),
        g.paths@.len() == 1,
        g.paths@[0].entries@.len() > 0,
        entries_blocks_distinct(g.paths@[0].entries@),
        no_cand(g.paths@),
        blocks_live(g.blocks@),
    ensures
        g.paths@[0].entries@.len() == 1,
        g.blocks@.len() == 1,
{
    let s = g.paths@[0].entries@;
    if s.len() >= 2 {
        let x1 = s[0].block;
        let x2 = s[1].block;
        let t1 = s[0].strand;
        let t2 = s[1].strand;
        assert(x1 != x2);
        assert forall|i: int| 0 <= i < s.len() implies #[trigger] entry_adj_ok(
            s,
            i,
            x1,
            x2,
            t1,
            t2,
        ) by {
            if s[i].block == x1 {
                if i != 0 {
                    assert(s[0].block != s[i].block);
                }
                assert(i == 0);
            }
            if s[i].block == x2 {
                if i != 1 {
                    if i < 1 {
                        assert(s[i].block != s[1].block);
                    } else {
                        assert(s[1].block != s[i].block);
                    }
                }
                assert(i == 1);
            }
        }
        assert(seq_adj_ok(s, x1, x2, t1, t2));
        assert forall|a: int| 0 <= a < g.paths@.len() implies seq_adj_ok(
            (#[trigger] g.paths@[a]).entries@,
            x1,
            x2,
            t1,
            t2,
        ) by {
            assert(a == 0);
        }
        assert(crate::adjacency::block_occurs(g.paths@, x1)) by {
            assert(g.paths@[0].entries@[0].block == x1);
        }
        assert(cand_with(g.paths@, x1, x2, t1, t2));
        assert(cand(g.paths@, x1, x2));
        assert(false);
    }
    let e = s[0];
    assert forall|a: int| 0 <= a < g.blocks@.len() implies (#[trigger] g.blocks@[a]).id
        == e.block by {
        assert(g.blocks@[a].records@.len() > 0);
        assert(occurrence_of(g, g.blocks@[a].records@[0].node, g.blocks@[a].id));
        let (pk, m): (int, int) = choose|pk: int, m: int|
            0 <= pk < g.paths@.len() && 0 <= m < g.paths@[pk].entries@.len() && (
            #[trigger] g.paths@[pk].entries@[m]).node == g.blocks@[a].records@[0].node
                && g.paths@[pk].entries@[m].block == g.blocks@[a].id;
        assert(pk == 0 && m == 0);
    }
    assert(entry_located(g.blocks@, g.paths@[0].entries@[0]));
    assert(has_block(g.blocks@, e.block));
    let w = crate::model::block_index(g.blocks@, e.block);
    assert(0 <= w < g.blocks@.len());
    if g.blocks@.len() >= 2 {
        assert(g.blocks@[0].id == e.block && g.blocks@[1].id == e.block);
        assert(blocks_unique(g.blocks@));
        assert(g.blocks@[0].id != g.blocks@[1].id);
    }
}

} // verus!
