//! Reconstruction of strain genomes from their paths, and the consistency
//! checker: the test oracle that compares every path's reconstruction with a
//! reference sequence, character for character.

use vstd::prelude::*;

use crate::model::{
    blocks_rec_nodes_distinct, blocks_unique, entries_located, entry_contrib, entry_located,
    has_path, lemma_block_index_of, lemma_path_index_of, lemma_rec_index_of, lemma_recon_concat,
    paths_unique, recon_entries, strain_recon, Graph, ReconstructionMismatch, Strand,
};
use crate::seqs::revcomp_vec;
use crate::validate::{find_block_idx, find_path_idx, find_rec_idx};

verus! {

/// Appends all of `v` to `out`.
pub fn append_bytes(out: &mut Vec<u8>, v: &Vec<u8>)
    ensures
        final(out)@ == old(out)@ + v@,
{
    let mut i: usize = 0;
    while i < v.len()
        invariant
            i <= v@.len(),
            out@ == old(out)@ + v@.subrange(0, i as int),
        decreases v@.len() - i,
    {
        out.push(v[i]);
        proof {
            assert(old(out)@ + v@.subrange(0, i as int) + seq![v@[i as int]] =~= old(out)@
                + v@.subrange(0, i + 1));
        }
        i += 1;
    }
    proof {
        assert(v@.subrange(0, v@.len() as int) =~= v@);
    }
}

/// Reconstructs the genome sequence spelled by the path at index `pi`.
pub fn reconstruct_path(g: &Graph, pi: usize) -> (r: Vec<u8>)
    requires
        blocks_unique(g.blocks@),
        blocks_rec_nodes_distinct(g.blocks@),
        entries_located(*g),
        pi < g.paths@.len(),
    ensures
        r@ == recon_entries(g.blocks@, g.paths@[pi as int].entries@),
{
    let s = &g.paths[pi];
    let n = s.entries.len();
    let mut out: Vec<u8> = Vec::new();
    let mut k: usize = 0;
    while k < n
        invariant
            blocks_unique(g.blocks@),
            blocks_rec_nodes_distinct(g.blocks@),
            entries_located(*g),
            pi < g.paths@.len(),
            n == g.paths@[pi as int].entries@.len(),
            k <= n,
            out@ == recon_entries(g.blocks@, g.paths@[pi as int].entries@.subrange(0, k as int)),
        decreases n - k,
    {
        let e = g.paths[pi].entries[k];
        proof {
            assert(entry_located(g.blocks@, g.paths@[pi as int].entries@[k as int]));
        }
        let bidx = match find_block_idx(g, e.block) {
            None => {
                proof {
                    assert(false);
                }
                return out;
            },
            Some(b) => b,
        };
        proof {
            lemma_block_index_of(g.blocks@, bidx as int);
        }
        let ridx = match find_rec_idx(&g.blocks[bidx], e.node) {
            None => {
                proof {
                    assert(false);
                }
                return out;
            },
            Some(rj) => rj,
        };
        proof {
            lemma_rec_index_of(g.blocks@[bidx as int], ridx as int);
        }
        let ghost pre = out@;
        if e.strand == Strand::Forward {
            append_bytes(&mut out, &g.blocks[bidx].records[ridx].seq);
        } else {
            let rc = revcomp_vec(&g.blocks[bidx].records[ridx].seq);
            append_bytes(&mut out, &rc);
        }
        proof {
            let entries = g.paths@[pi as int].entries@;
            assert(out@ == pre + entry_contrib(g.blocks@, entries[k as int]));
            assert(entries.subrange(0, k + 1) =~= entries.subrange(0, k as int) + seq![
                entries[k as int],
            ]);
            lemma_recon_concat(
                g.blocks@,
                entries.subrange(0, k as int),
                seq![entries[k as int]],
            );
            let one = seq![entries[k as int]];
            assert(one[0] == entries[k as int]);
            assert(one.subrange(1, 1) =~= Seq::<crate::model::PathEntry>::empty());
            assert(recon_entries(g.blocks@, Seq::<crate::model::PathEntry>::empty())
                =~= Seq::<u8>::empty());
            assert(recon_entries(g.blocks@, one) =~= entry_contrib(g.blocks@, entries[k as int])
                + recon_entries(g.blocks@, one.subrange(1, 1)));
            assert(recon_entries(g.blocks@, one) =~= entry_contrib(g.blocks@, entries[k as int]));
        }
        k += 1;
    }
    proof {
        assert(g.paths@[pi as int].entries@.subrange(0, n as int) =~= g.paths@[pi as int].entries@);
    }
    out
}

/// Reconstructs the genome of the named strain, or nothing when the graph
/// has no such strain.
pub fn reconstruct_strain(g: &Graph, name: &String) -> (r: Option<Vec<u8>>)
    requires
        blocks_unique(g.blocks@),
        blocks_rec_nodes_distinct(g.blocks@),
        entries_located(*g),
        paths_unique(g.paths@),
    ensures
        match r {
            Some(v) => has_path(*g, name@) && v@ == strain_recon(*g, name@),
            None => !has_path(*g, name@),
        },
{
    match find_path_idx(g, name) {
        None => None,
        Some(k) => {
            proof {
                lemma_path_index_of(*g, k as int);
            }
            Some(reconstruct_path(g, k))
        },
    }
}

pub open spec fn ref_has(refs: Seq<(String, Vec<u8>)>, name: Seq<char>) -> bool {
    exists|k: int| 0 <= k < refs.len() && refs[k].0@ == name
}

pub open spec fn ref_index(refs: Seq<(String, Vec<u8>)>, name: Seq<char>) -> int {
    choose|k: int| 0 <= k < refs.len() && refs[k].0@ == name
}

/// The reference sequence recorded for a strain name.
pub open spec fn ref_seq(refs: Seq<(String, Vec<u8>)>, name: Seq<char>) -> Seq<u8> {
    refs[ref_index(refs, name)].1@
}

pub open spec fn ref_names_unique(refs: Seq<(String, Vec<u8>)>) -> bool {
    forall|i: int, j: int| #![trigger refs[i], refs[j]]
        0 <= i < j < refs.len() ==> refs[i].0@ != refs[j].0@
}

/// The first coordinate at which two sequences diverge: the first index
/// where they differ, or the length of the shorter when one is a proper
/// prefix of the other.
pub open spec fn mismatch_pos(a: Seq<u8>, b: Seq<u8>) -> int
    decreases a.len(),
{
    if a.len() == 0 || b.len() == 0 {
        0
    } else if a[0] != b[0] {
        0
    } else {
        1 + mismatch_pos(a.subrange(1, a.len() as int), b.subrange(1, b.len() as int))
    }
}

proof fn lemma_mismatch_pos(a: Seq<u8>, b: Seq<u8>, j: int)
    requires
        0 <= j <= a.len(),
        j <= b.len(),
        forall|t: int| 0 <= t < j ==> a[t] == b[t],
        j == a.len() || j == b.len() || a[j] != b[j],
    ensures
        mismatch_pos(a, b) == j,
    decreases j,
{
    if j == 0 {
    } else {
        let a1 = a.subrange(1, a.len() as int);
        let b1 = b.subrange(1, b.len() as int);
        assert(forall|t: int| 0 <= t < j - 1 ==> #[trigger] a1[t] == b1[t]);
        lemma_mismatch_pos(a1, b1, j - 1);
    }
}

proof fn lemma_ref_index_of(refs: Seq<(String, Vec<u8>)>, k: int)
    requires
        ref_names_unique(refs),
        0 <= k < refs.len(),
    ensures
        ref_index(refs, refs[k].0@) == k,
        ref_has(refs, refs[k].0@),
{
    assert(ref_has(refs, refs[k].0@));
    let m = ref_index(refs, refs[k].0@);
    assert(0 <= m < refs.len() && refs[m].0@ == refs[k].0@);
    if k != m {
        assert(refs[k].0@ != refs[m].0@);
    }
}

/// One path of the graph reconstructs exactly its reference sequence.
pub open spec fn path_consistent(g: Graph, refs: Seq<(String, Vec<u8>)>, k: int) -> bool {
    ref_has(refs, g.paths@[k].name@) && ref_seq(refs, g.paths@[k].name@) == recon_entries(
        g.blocks@,
        g.paths@[k].entries@,
    )
}

/// Finds the reference entry of a strain name, scanning in order.
fn find_ref_idx(refs: &Vec<(String, Vec<u8>)>, name: &String) -> (r: Option<usize>)
    ensures
        match r {
            Some(k) => k < refs@.len() && refs@[k as int].0@ == name@,
            None => !ref_has(refs@, name@),
        },
{
    let mut k: usize = 0;
    while k < refs.len()
        invariant
            k <= refs@.len(),
            forall|a: int| 0 <= a < k ==> (#[trigger] refs@[a]).0@ != name@,
        decreases refs@.len() - k,
    {
        if refs[k].0 == *name {
            return Some(k);
        }
        k += 1;
    }
    None
}

/// Verifies that every path of the graph reconstructs exactly the reference
/// sequence recorded for its strain; reports the first strain that diverges
/// and the first divergent coordinate.
#[verifier::loop_isolation(false)]
pub fn check_consistency(g: &Graph, refs: &Vec<(String, Vec<u8>)>) -> (r: Result<
    (),
    ReconstructionMismatch,
>)
    requires
        blocks_unique(g.blocks@),
        blocks_rec_nodes_distinct(g.blocks@),
        entries_located(*g),
        ref_names_unique(refs@),
    ensures
        r is Ok <==> (forall|k: int| 0 <= k < g.paths@.len() ==> path_consistent(*g, refs@, k)),
        match r {
            Ok(()) => true,
            Err(m) => exists|k: int|
                0 <= k < g.paths@.len() && (forall|a: int|
                    0 <= a < k ==> path_consistent(*g, refs@, a)) && !path_consistent(*g, refs@, k)
                    && m.strain@ == (#[trigger] g.paths@[k]).name@ && m.position == (if !ref_has(
                    refs@,
                    g.paths@[k].name@,
                ) {
                    0int
                } else {
                    mismatch_pos(
                        ref_seq(refs@, g.paths@[k].name@),
                        recon_entries(g.blocks@, g.paths@[k].entries@),
                    )
                }),
        },
{
    let n = g.paths.len();
    let mut k: usize = 0;
    while k < n
        invariant
            blocks_unique(g.blocks@),
            blocks_rec_nodes_distinct(g.blocks@),
            entries_located(*g),
            ref_names_unique(refs@),
            n == g.paths@.len(),
            k <= n,
            forall|a: int| 0 <= a < k ==> path_consistent(*g, refs@, a),
        decreases n - k,
    {
        let name = &g.paths[k].name;
        let ridx = match find_ref_idx(refs, name) {
            None => {
                let m = ReconstructionMismatch { strain: name.clone(), position: 0 };
                proof {
                    assert(!path_consistent(*g, refs@, k as int));
                    assert(0 <= k < g.paths@.len() && (forall|a: int|
                        0 <= a < k ==> path_consistent(*g, refs@, a)) && !path_consistent(
                        *g,
                        refs@,
                        k as int,
                    ) && m.strain@ == g.paths@[k as int].name@);
                }
                return Err(m);
            },
            Some(x) => x,
        };
        proof {
            lemma_ref_index_of(refs@, ridx as int);
        }
        let recon = reconstruct_path(g, k);
        let expect = &refs[ridx].1;
        let shorter = if recon.len() < expect.len() {
            recon.len()
        } else {
            expect.len()
        };
        let mut j: usize = 0;
        while j < shorter
            invariant
                shorter <= recon@.len(),
                shorter <= expect@.len(),
                j <= shorter,
                shorter == if recon@.len() < expect@.len() {
                    recon@.len() as int
                } else {
                    expect@.len() as int
                },
                forall|t: int| 0 <= t < j ==> recon@[t] == expect@[t],
            decreases shorter - j,
        {
            if recon[j] != expect[j] {
                let m = ReconstructionMismatch { strain: name.clone(), position: j };
                proof {
                    lemma_mismatch_pos(expect@, recon@, j as int);
                    assert(expect@ != recon@);
                    assert(ref_seq(refs@, g.paths@[k as int].name@) == expect@);
                    assert(!path_consistent(*g, refs@, k as int));
                    assert(0 <= k < g.paths@.len() && (forall|a: int|
                        0 <= a < k ==> path_consistent(*g, refs@, a)) && !path_consistent(
                        *g,
                        refs@,
                        k as int,
                    ) && m.strain@ == g.paths@[k as int].name@ && m.position == mismatch_pos(
                        ref_seq(refs@, g.paths@[k as int].name@),
                        recon_entries(g.blocks@, g.paths@[k as int].entries@),
                    ));
                }
                return Err(m);
            }
            j += 1;
        }
        if recon.len() != expect.len() {
            let m = ReconstructionMismatch { strain: name.clone(), position: shorter };
            proof {
                lemma_mismatch_pos(expect@, recon@, shorter as int);
                assert(expect@.len() != recon@.len());
                assert(expect@ != recon@);
                assert(ref_seq(refs@, g.paths@[k as int].name@) == expect@);
                assert(!path_consistent(*g, refs@, k as int));
                assert(0 <= k < g.paths@.len() && (forall|a: int|
                    0 <= a < k ==> path_consistent(*g, refs@, a)) && !path_consistent(
                    *g,
                    refs@,
                    k as int,
                ) && m.strain@ == g.paths@[k as int].name@ && m.position == mismatch_pos(
                    ref_seq(refs@, g.paths@[k as int].name@),
                    recon_entries(g.blocks@, g.paths@[k as int].entries@),
                ));
            }
            return Err(m);
        }
        proof {
            assert(expect@ =~= recon@);
            assert(path_consistent(*g, refs@, k as int));
        }
        k += 1;
    }
    Ok(())
}

} // verus!
