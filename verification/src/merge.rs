//! Merging one candidate pair of blocks: the two blocks become a single
//! block whose consensus and per-strain records are the concatenation of
//! the constituents, recoordinated for strand, and every path replaces each
//! adjacent pair of entries by one entry. The merged block reuses the
//! smaller of the two constituent identifiers — deterministic, derived from
//! the constituents, and unique since both constituents leave; untouched
//! blocks keep their identities. No path's reconstructed genome changes.

use vstd::prelude::*;

use crate::adjacency::{cand, cand_with, entry_adj_ok, seq_adj_ok};
use crate::consistency::append_bytes;
use crate::model::{
    blocks_live, blocks_rec_nodes_distinct, blocks_unique, entries_located, entries_matched,
    entry_contrib, entry_located, entry_matched, entry_nodes_distinct, has_block, has_rec,
    lemma_block_index_of, lemma_node_position_unique, lemma_rec_index_of, lemma_recon_concat,
    node_in, nodes_unique, occurrence_of, oriented, path_disjoint_after, paths_unique,
    rec_nodes_distinct, rec_of, recon_entries, records_covered, wf, AlnRecord, Block, Graph, Path,
    PathEntry, Strand,
};
use crate::seqs::{lemma_revcomp_concat, revcomp_vec};
use crate::validate::find_rec_idx;

verus! {

/// The strand of a merged entry: reverse only when both halves were
/// traversed in reverse, so the forward consensus stays canonical.
pub open spec fn merged_strand(s1: Strand, s2: Strand) -> Strand {
    if s1 == Strand::Reverse && s2 == Strand::Reverse {
        Strand::Reverse
    } else {
        Strand::Forward
    }
}

/// The merged forward-sense sequence of two constituent sequences
/// traversed in strands `s1` and `s2`.
pub open spec fn merged_seq_of(a: Seq<u8>, b: Seq<u8>, s1: Strand, s2: Strand) -> Seq<u8> {
    if s1 == Strand::Reverse && s2 == Strand::Reverse {
        b + a
    } else {
        oriented(a, s1) + oriented(b, s2)
    }
}

/// The merged record contributes exactly what the two halves contributed.
pub proof fn lemma_merged_contrib(a: Seq<u8>, b: Seq<u8>, s1: Strand, s2: Strand)
    ensures
        oriented(merged_seq_of(a, b, s1, s2), merged_strand(s1, s2)) == oriented(a, s1) + oriented(
            b,
            s2,
        ),
{
    if s1 == Strand::Reverse && s2 == Strand::Reverse {
        lemma_revcomp_concat(b, a);
    }
}

pub open spec fn merged_entry(e: PathEntry, idn: u64, sn: Strand) -> PathEntry {
    PathEntry { node: e.node, block: idn, strand: sn }
}

/// A path's entry list after the merge: each occurrence of `x1` and its
/// successor collapse into one entry on the merged block.
pub open spec fn rw(s: Seq<PathEntry>, x1: u64, idn: u64, sn: Strand) -> Seq<PathEntry>
    decreases s.len(),
{
    if s.len() == 0 {
        Seq::empty()
    } else if s[0].block == x1 {
        if s.len() >= 2 {
            seq![merged_entry(s[0], idn, sn)] + rw(s.subrange(2, s.len() as int), x1, idn, sn)
        } else {
            seq![merged_entry(s[0], idn, sn)]
        }
    } else {
        seq![s[0]] + rw(s.subrange(1, s.len() as int), x1, idn, sn)
    }
}

/// No block appears twice on the path.
pub open spec fn entries_blocks_distinct(s: Seq<PathEntry>) -> bool {
    forall|i: int, j: int| #![trigger s[i], s[j]] 0 <= i < j < s.len() ==> s[i].block != s[j].block
}

/// The adjacency condition survives cutting the list at a point that does
/// not split a pair.
proof fn lemma_seq_adj_suffix(s: Seq<PathEntry>, x1: u64, x2: u64, s1: Strand, s2: Strand, c: int)
    requires
        seq_adj_ok(s, x1, x2, s1, s2),
        0 <= c <= s.len(),
        c == s.len() || s[c].block != x2,
    ensures
        seq_adj_ok(s.subrange(c, s.len() as int), x1, x2, s1, s2),
{
    let t = s.subrange(c, s.len() as int);
    assert forall|i: int| 0 <= i < t.len() implies #[trigger] entry_adj_ok(
        t,
        i,
        x1,
        x2,
        s1,
        s2,
    ) by {
        assert(t[i] == s[c + i]);
        assert(entry_adj_ok(s, c + i, x1, x2, s1, s2));
        if t[i].block == x1 {
            assert(s[c + i + 1] == t[i + 1]);
        }
        if t[i].block == x2 {
            assert(i != 0);
            assert(s[c + i - 1] == t[i - 1]);
        }
    }
}

pub open spec fn ent_in(s: Seq<PathEntry>, e: PathEntry) -> bool {
    exists|a: int| 0 <= a < s.len() && s[a] == e
}

/// Every rewritten entry is a merged occurrence of `x1` or a copied entry
/// of another block.
pub open spec fn rw_elem_src(
    s: Seq<PathEntry>,
    x1: u64,
    x2: u64,
    idn: u64,
    sn: Strand,
    e: PathEntry,
) -> bool {
    exists|i: int|
        0 <= i < s.len() && (((#[trigger] s[i]).block == x1 && e == merged_entry(s[i], idn, sn))
            || (s[i].block != x1 && s[i].block != x2 && e == s[i]))
}

/// Structure of the rewritten list: where its entries come from, and that
/// every merged occurrence and every untouched entry survives.
#[verifier::spinoff_prover]
proof fn lemma_rw_elems(s: Seq<PathEntry>, x1: u64, x2: u64, idn: u64, s1: Strand, s2: Strand)
    requires
        x1 != x2,
        seq_adj_ok(s, x1, x2, s1, s2),
    ensures
        forall|a: int|
            0 <= a < rw(s, x1, idn, merged_strand(s1, s2)).len() ==> rw_elem_src(
                s,
                x1,
                x2,
                idn,
                merged_strand(s1, s2),
                #[trigger] rw(s, x1, idn, merged_strand(s1, s2))[a],
            ),
        forall|i: int|
            0 <= i < s.len() && (#[trigger] s[i]).block == x1 ==> ent_in(
                rw(s, x1, idn, merged_strand(s1, s2)),
                merged_entry(s[i], idn, merged_strand(s1, s2)),
            ),
        forall|i: int|
            0 <= i < s.len() && (#[trigger] s[i]).block != x1 && s[i].block != x2 ==> ent_in(
                rw(s, x1, idn, merged_strand(s1, s2)),
                s[i],
            ),
    decreases s.len(),
{
    let sn = merged_strand(s1, s2);
    let out = rw(s, x1, idn, sn);
    if s.len() == 0 {
    } else if s[0].block == x1 {
        assert(entry_adj_ok(s, 0, x1, x2, s1, s2));
        assert(s.len() >= 2);
        let t = s.subrange(2, s.len() as int);
        if t.len() > 0 {
            assert(entry_adj_ok(s, 2, x1, x2, s1, s2));
            assert(s[1].block == x2);
            if s[2].block == x2 {
                assert(s[1].block == x1);
            }
        }
        lemma_seq_adj_suffix(s, x1, x2, s1, s2, 2);
        lemma_rw_elems(t, x1, x2, idn, s1, s2);
        assert(out == seq![merged_entry(s[0], idn, sn)] + rw(t, x1, idn, sn));
        assert forall|a: int| 0 <= a < out.len() implies rw_elem_src(
            s,
            x1,
            x2,
            idn,
            sn,
            #[trigger] out[a],
        ) by {
            if a == 0 {
                assert(out[0] == merged_entry(s[0], idn, sn));
                assert(rw_elem_src(s, x1, x2, idn, sn, out[0]));
            } else {
                assert(out[a] == rw(t, x1, idn, sn)[a - 1]);
                assert(rw_elem_src(t, x1, x2, idn, sn, out[a]));
                let i = choose|i: int|
                    0 <= i < t.len() && (((#[trigger] t[i]).block == x1 && out[a] == merged_entry(
                        t[i],
                        idn,
                        sn,
                    )) || (t[i].block != x1 && t[i].block != x2 && out[a] == t[i]));
                assert(t[i] == s[i + 2]);
                assert(rw_elem_src(s, x1, x2, idn, sn, out[a]));
            }
        }
        assert forall|i: int|
            0 <= i < s.len() && (#[trigger] s[i]).block == x1 implies ent_in(
            out,
            merged_entry(s[i], idn, sn),
        ) by {
            if i == 0 {
                assert(out[0] == merged_entry(s[0], idn, sn));
            } else {
                assert(entry_adj_ok(s, i, x1, x2, s1, s2));
                assert(i >= 2) by {
                    if i == 1 {
                        assert(s[1].block == x2);
                    }
                }
                assert(t[i - 2] == s[i]);
                assert(ent_in(rw(t, x1, idn, sn), merged_entry(t[i - 2], idn, sn)));
                let a = choose|a: int|
                    0 <= a < rw(t, x1, idn, sn).len() && rw(t, x1, idn, sn)[a] == merged_entry(
                        t[i - 2],
                        idn,
                        sn,
                    );
                assert(out[a + 1] == merged_entry(s[i], idn, sn));
            }
        }
        assert forall|i: int|
            0 <= i < s.len() && (#[trigger] s[i]).block != x1 && s[i].block != x2 implies ent_in(
            out,
            s[i],
        ) by {
            assert(i != 0 && i != 1);
            assert(t[i - 2] == s[i]);
            assert(ent_in(rw(t, x1, idn, sn), t[i - 2]));
            let a = choose|a: int|
                0 <= a < rw(t, x1, idn, sn).len() && rw(t, x1, idn, sn)[a] == t[i - 2];
            assert(out[a + 1] == s[i]);
        }
    } else {
        assert(entry_adj_ok(s, 0, x1, x2, s1, s2));
        assert(s[0].block != x2);
        let t = s.subrange(1, s.len() as int);
        if t.len() > 0 {
            assert(entry_adj_ok(s, 1, x1, x2, s1, s2));
            if s[1].block == x2 {
                assert(s[0].block == x1);
            }
        }
        lemma_seq_adj_suffix(s, x1, x2, s1, s2, 1);
        lemma_rw_elems(t, x1, x2, idn, s1, s2);
        assert(out == seq![s[0]] + rw(t, x1, idn, sn));
        assert forall|a: int| 0 <= a < out.len() implies rw_elem_src(
            s,
            x1,
            x2,
            idn,
            sn,
            #[trigger] out[a],
        ) by {
            if a == 0 {
                assert(out[0] == s[0]);
                assert(rw_elem_src(s, x1, x2, idn, sn, out[0]));
            } else {
                assert(out[a] == rw(t, x1, idn, sn)[a - 1]);
                assert(rw_elem_src(t, x1, x2, idn, sn, out[a]));
                let i = choose|i: int|
                    0 <= i < t.len() && (((#[trigger] t[i]).block == x1 && out[a] == merged_entry(
                        t[i],
                        idn,
                        sn,
                    )) || (t[i].block != x1 && t[i].block != x2 && out[a] == t[i]));
                assert(t[i] == s[i + 1]);
                assert(rw_elem_src(s, x1, x2, idn, sn, out[a]));
            }
        }
        assert forall|i: int|
            0 <= i < s.len() && (#[trigger] s[i]).block == x1 implies ent_in(
            out,
            merged_entry(s[i], idn, sn),
        ) by {
            assert(i != 0);
            assert(t[i - 1] == s[i]);
            assert(ent_in(rw(t, x1, idn, sn), merged_entry(t[i - 1], idn, sn)));
            let a = choose|a: int|
                0 <= a < rw(t, x1, idn, sn).len() && rw(t, x1, idn, sn)[a] == merged_entry(
                    t[i - 1],
                    idn,
                    sn,
                );
            assert(out[a + 1] == merged_entry(s[i], idn, sn));
        }
        assert forall|i: int|
            0 <= i < s.len() && (#[trigger] s[i]).block != x1 && s[i].block != x2 implies ent_in(
            out,
            s[i],
        ) by {
            if i == 0 {
                assert(out[0] == s[0]);
            } else {
                assert(t[i - 1] == s[i]);
                assert(ent_in(rw(t, x1, idn, sn), t[i - 1]));
                let a = choose|a: int|
                    0 <= a < rw(t, x1, idn, sn).len() && rw(t, x1, idn, sn)[a] == t[i - 1];
                assert(out[a + 1] == s[i]);
            }
        }
    }
}

/// The rewrite introduces no new node, keeps nodes pairwise distinct, and
/// keeps a non-empty path non-empty.
#[verifier::spinoff_prover]
proof fn lemma_rw_nodes(s: Seq<PathEntry>, x1: u64, idn: u64, sn: Strand)
    ensures
        forall|n: u64| #[trigger] node_in(rw(s, x1, idn, sn), n) ==> node_in(s, n),
        entry_nodes_distinct(s) ==> entry_nodes_distinct(rw(s, x1, idn, sn)),
        s.len() > 0 ==> rw(s, x1, idn, sn).len() > 0,
    decreases s.len(),
{
    let out = rw(s, x1, idn, sn);
    if s.len() == 0 {
    } else {
        let c: int = if s[0].block == x1 && s.len() >= 2 {
            2
        } else {
            1
        };
        let t = s.subrange(c, s.len() as int);
        lemma_rw_nodes(t, x1, idn, sn);
        let head: PathEntry = if s[0].block == x1 {
            merged_entry(s[0], idn, sn)
        } else {
            s[0]
        };
        assert(out == seq![head] + rw(t, x1, idn, sn) || out == seq![head]);
        assert forall|n: u64| #[trigger] node_in(out, n) implies node_in(s, n) by {
            let a = choose|a: int| 0 <= a < out.len() && out[a].node == n;
            if a == 0 {
                assert(s[0].node == n);
            } else {
                assert(out[a] == rw(t, x1, idn, sn)[a - 1]);
                assert(node_in(rw(t, x1, idn, sn), n));
                assert(node_in(t, n));
                let i = choose|i: int| 0 <= i < t.len() && t[i].node == n;
                assert(s[c + i].node == n);
            }
        }
        if entry_nodes_distinct(s) {
            assert forall|i: int, j: int|
                0 <= i < j < t.len() implies (#[trigger] t[i]).node != (#[trigger] t[j]).node by {
                assert(t[i] == s[c + i] && t[j] == s[c + j]);
            }
            assert(entry_nodes_distinct(t));
            assert(entry_nodes_distinct(rw(t, x1, idn, sn)));
            assert forall|i: int, j: int|
                0 <= i < j < out.len() implies (#[trigger] out[i]).node != (
            #[trigger] out[j]).node by {
                if i == 0 {
                    assert(out[j] == rw(t, x1, idn, sn)[j - 1]);
                    assert(node_in(rw(t, x1, idn, sn), out[j].node));
                    assert(node_in(t, out[j].node));
                    let w = choose|w: int| 0 <= w < t.len() && t[w].node == out[j].node;
                    assert(s[c + w].node == out[j].node);
                    assert(s[0].node != s[c + w].node);
                } else {
                    assert(out[i] == rw(t, x1, idn, sn)[i - 1]);
                    assert(out[j] == rw(t, x1, idn, sn)[j - 1]);
                }
            }
        }
    }
}

/// A path that repeats no block still repeats none after the merge.
#[verifier::spinoff_prover]
proof fn lemma_rw_blocks_distinct(
    s: Seq<PathEntry>,
    x1: u64,
    x2: u64,
    idn: u64,
    s1: Strand,
    s2: Strand,
)
    requires
        x1 != x2,
        idn == x1 || idn == x2,
        seq_adj_ok(s, x1, x2, s1, s2),
        entry_nodes_distinct(s),
        entries_blocks_distinct(s),
    ensures
        entries_blocks_distinct(rw(s, x1, idn, merged_strand(s1, s2))),
{
    let sn = merged_strand(s1, s2);
    let out = rw(s, x1, idn, sn);
    lemma_rw_elems(s, x1, x2, idn, s1, s2);
    lemma_rw_nodes(s, x1, idn, sn);
    assert forall|a: int, b: int| #![trigger out[a], out[b]]
        0 <= a < b < out.len() implies out[a].block != out[b].block by {
        assert(rw_elem_src(s, x1, x2, idn, sn, out[a]));
        assert(rw_elem_src(s, x1, x2, idn, sn, out[b]));
        let i1 = choose|i1: int|
            0 <= i1 < s.len() && (((#[trigger] s[i1]).block == x1 && out[a] == merged_entry(
                s[i1],
                idn,
                sn,
            )) || (s[i1].block != x1 && s[i1].block != x2 && out[a] == s[i1]));
        let i2 = choose|i2: int|
            0 <= i2 < s.len() && (((#[trigger] s[i2]).block == x1 && out[b] == merged_entry(
                s[i2],
                idn,
                sn,
            )) || (s[i2].block != x1 && s[i2].block != x2 && out[b] == s[i2]));
        assert(entry_nodes_distinct(out));
        assert(out[a].node != out[b].node);
        assert(out[a].node == s[i1].node && out[b].node == s[i2].node);
        if i1 == i2 {
            assert(false);
        }
        if i1 < i2 {
            assert(s[i1].block != s[i2].block);
        } else {
            assert(s[i2].block != s[i1].block);
        }
    }
}

/// Reconstruction is unchanged by the rewrite: each merged entry
/// contributes what its two constituents contributed, and every other
/// entry contributes as before.
#[verifier::spinoff_prover]
proof fn lemma_rw_recon(
    bold: Seq<Block>,
    bnew: Seq<Block>,
    s: Seq<PathEntry>,
    x1: u64,
    x2: u64,
    idn: u64,
    s1: Strand,
    s2: Strand,
)
    requires
        x1 != x2,
        seq_adj_ok(s, x1, x2, s1, s2),
        forall|i: int|
            0 <= i < s.len() && (#[trigger] s[i]).block != x1 && s[i].block != x2 ==> entry_contrib(
                bnew,
                s[i],
            ) == entry_contrib(bold, s[i]),
        forall|i: int|
            0 <= i < s.len() && (#[trigger] s[i]).block == x1 ==> i + 1 < s.len() && entry_contrib(
                bnew,
                merged_entry(s[i], idn, merged_strand(s1, s2)),
            ) == entry_contrib(bold, s[i]) + entry_contrib(bold, s[i + 1]),
    ensures
        recon_entries(bnew, rw(s, x1, idn, merged_strand(s1, s2))) == recon_entries(bold, s),
    decreases s.len(),
{
    let sn = merged_strand(s1, s2);
    let out = rw(s, x1, idn, sn);
    if s.len() == 0 {
    } else if s[0].block == x1 {
        assert(entry_adj_ok(s, 0, x1, x2, s1, s2));
        assert(s.len() >= 2);
        assert(s[1].block == x2);
        let t = s.subrange(2, s.len() as int);
        if t.len() > 0 {
            assert(entry_adj_ok(s, 2, x1, x2, s1, s2));
            if s[2].block == x2 {
                assert(s[1].block == x1);
            }
        }
        lemma_seq_adj_suffix(s, x1, x2, s1, s2, 2);
        assert forall|i: int|
            0 <= i < t.len() && (#[trigger] t[i]).block != x1 && t[i].block != x2 implies
            entry_contrib(bnew, t[i]) == entry_contrib(bold, t[i]) by {
            assert(t[i] == s[i + 2]);
        }
        assert forall|i: int|
            0 <= i < t.len() && (#[trigger] t[i]).block == x1 implies i + 1 < t.len()
            && entry_contrib(bnew, merged_entry(t[i], idn, sn)) == entry_contrib(bold, t[i])
            + entry_contrib(bold, t[i + 1]) by {
            assert(t[i] == s[i + 2]);
            assert(i + 2 + 1 < s.len());
            assert(t[i + 1] == s[i + 3]);
        }
        lemma_rw_recon(bold, bnew, t, x1, x2, idn, s1, s2);
        assert(out == seq![merged_entry(s[0], idn, sn)] + rw(t, x1, idn, sn));
        lemma_recon_concat(bnew, seq![merged_entry(s[0], idn, sn)], rw(t, x1, idn, sn));
        crate::model::lemma_recon_one(bnew, merged_entry(s[0], idn, sn));
        let s1r = s.subrange(1, s.len() as int);
        assert(recon_entries(bold, s) == entry_contrib(bold, s[0]) + recon_entries(bold, s1r));
        assert(s1r[0] == s[1]);
        assert(s1r.subrange(1, s1r.len() as int) =~= t);
        assert(recon_entries(bold, s1r) == entry_contrib(bold, s[1]) + recon_entries(bold, t));
        assert(recon_entries(bnew, out) =~= recon_entries(bold, s));
    } else {
        assert(entry_adj_ok(s, 0, x1, x2, s1, s2));
        assert(s[0].block != x2);
        let t = s.subrange(1, s.len() as int);
        if t.len() > 0 {
            assert(entry_adj_ok(s, 1, x1, x2, s1, s2));
            if s[1].block == x2 {
                assert(s[0].block == x1);
            }
        }
        lemma_seq_adj_suffix(s, x1, x2, s1, s2, 1);
        assert forall|i: int|
            0 <= i < t.len() && (#[trigger] t[i]).block != x1 && t[i].block != x2 implies
            entry_contrib(bnew, t[i]) == entry_contrib(bold, t[i]) by {
            assert(t[i] == s[i + 1]);
        }
        assert forall|i: int|
            0 <= i < t.len() && (#[trigger] t[i]).block == x1 implies i + 1 < t.len()
            && entry_contrib(bnew, merged_entry(t[i], idn, sn)) == entry_contrib(bold, t[i])
            + entry_contrib(bold, t[i + 1]) by {
            assert(t[i] == s[i + 1]);
            assert(i + 1 + 1 < s.len());
            assert(t[i + 1] == s[i + 2]);
        }
        lemma_rw_recon(bold, bnew, t, x1, x2, idn, s1, s2);
        assert(out == seq![s[0]] + rw(t, x1, idn, sn));
        lemma_recon_concat(bnew, seq![s[0]], rw(t, x1, idn, sn));
        crate::model::lemma_recon_one(bnew, s[0]);
        assert(recon_entries(bold, s) == entry_contrib(bold, s[0]) + recon_entries(
            bold,
            s.subrange(1, s.len() as int),
        ));
        assert(recon_entries(bnew, out) =~= recon_entries(bold, s));
    }
}

/// Rewrites one path's entry list for the merge of `x1` with its successor.
fn rewrite_entries(
    s: &Vec<PathEntry>,
    x1: u64,
    idn: u64,
    snx: Strand,
    Ghost(x2): Ghost<u64>,
    Ghost(s1): Ghost<Strand>,
    Ghost(s2): Ghost<Strand>,
) -> (r: Vec<PathEntry>)
    requires
        x1 != x2,
        seq_adj_ok(s@, x1, x2, s1, s2),
        snx == merged_strand(s1, s2),
    ensures
        r@ == rw(s@, x1, idn, snx),
{
    let mut out: Vec<PathEntry> = Vec::new();
    let mut k: usize = 0;
    proof {
        assert(s@.subrange(0, s@.len() as int) =~= s@);
    }
    while k < s.len()
        invariant
            k <= s@.len(),
            x1 != x2,
            seq_adj_ok(s@, x1, x2, s1, s2),
            snx == merged_strand(s1, s2),
            rw(s@, x1, idn, snx) == out@ + rw(s@.subrange(k as int, s@.len() as int), x1, idn, snx),
        decreases s@.len() - k,
    {
        let ghost suf = s@.subrange(k as int, s@.len() as int);
        let e = s[k];
        proof {
            assert(suf[0] == s@[k as int]);
            assert(entry_adj_ok(s@, k as int, x1, x2, s1, s2));
        }
        if e.block == x1 {
            out.push(PathEntry { node: e.node, block: idn, strand: snx });
            proof {
                assert(suf.len() >= 2);
                assert(rw(suf, x1, idn, snx) == seq![merged_entry(suf[0], idn, snx)] + rw(
                    suf.subrange(2, suf.len() as int),
                    x1,
                    idn,
                    snx,
                ));
                assert(suf.subrange(2, suf.len() as int) =~= s@.subrange(k + 2, s@.len() as int));
                assert(out@ + rw(s@.subrange(k + 2, s@.len() as int), x1, idn, snx) =~= rw(
                    s@,
                    x1,
                    idn,
                    snx,
                ));
            }
            k += 2;
        } else {
            out.push(e);
            proof {
                assert(rw(suf, x1, idn, snx) == seq![suf[0]] + rw(
                    suf.subrange(1, suf.len() as int),
                    x1,
                    idn,
                    snx,
                ));
                assert(suf.subrange(1, suf.len() as int) =~= s@.subrange(k + 1, s@.len() as int));
                assert(out@ + rw(s@.subrange(k + 1, s@.len() as int), x1, idn, snx) =~= rw(
                    s@,
                    x1,
                    idn,
                    snx,
                ));
            }
            k += 1;
        }
    }
    proof {
        assert(rw(s@.subrange(k as int, s@.len() as int), x1, idn, snx) =~= Seq::<
            PathEntry,
        >::empty());
        assert(out@ + rw(s@.subrange(k as int, s@.len() as int), x1, idn, snx) =~= out@);
    }
    out
}

/// Builds the merged forward-sense sequence of two constituents.
fn build_merged_seq(a: &Vec<u8>, b: &Vec<u8>, s1: Strand, s2: Strand) -> (r: Vec<u8>)
    ensures
        r@ == merged_seq_of(a@, b@, s1, s2),
{
    let mut out: Vec<u8> = Vec::new();
    if s1 == Strand::Reverse && s2 == Strand::Reverse {
        append_bytes(&mut out, b);
        append_bytes(&mut out, a);
        proof {
            assert(out@ =~= b@ + a@);
        }
    } else {
        if s1 == Strand::Forward {
            append_bytes(&mut out, a);
        } else {
            let ra = revcomp_vec(a);
            append_bytes(&mut out, &ra);
        }
        if s2 == Strand::Forward {
            append_bytes(&mut out, b);
        } else {
            let rb = revcomp_vec(b);
            append_bytes(&mut out, &rb);
        }
        proof {
            assert(out@ =~= oriented(a@, s1) + oriented(b@, s2));
        }
    }
    out
}

/// Finds the one occurrence of a node, scanning paths in order.
fn find_node(g: &Graph, n: u64) -> (r: Option<(usize, usize)>)
    ensures
        match r {
            Some(t) => t.0 < g.paths@.len() && t.1 < g.paths@[t.0 as int].entries@.len()
                && g.paths@[t.0 as int].entries@[t.1 as int].node == n,
            None => forall|pi: int, i: int|
                0 <= pi < g.paths@.len() && 0 <= i < g.paths@[pi].entries@.len() ==> (
                #[trigger] g.paths@[pi].entries@[i]).node != n,
        },
{
    let np = g.paths.len();
    let mut pi: usize = 0;
    while pi < np
        invariant
            np == g.paths@.len(),
            pi <= np,
            forall|a: int, i: int|
                0 <= a < pi && 0 <= i < g.paths@[a].entries@.len() ==> (
                #[trigger] g.paths@[a].entries@[i]).node != n,
        decreases np - pi,
    {
        let m = g.paths[pi].entries.len();
        let mut i: usize = 0;
        while i < m
            invariant
                np == g.paths@.len(),
                pi < np,
                m == g.paths@[pi as int].entries@.len(),
                i <= m,
                forall|ii: int|
                    0 <= ii < i ==> (#[trigger] g.paths@[pi as int].entries@[ii]).node != n,
            decreases m - i,
        {
            if g.paths[pi].entries[i].node == n {
                return Some((pi, i));
            }
            i += 1;
        }
        pi += 1;
    }
    None
}

/// Where a node occurs (unique in a well-formed graph).
pub open spec fn node_pos(ps: Seq<Path>, n: u64) -> (int, int) {
    choose|pi: int, i: int|
        0 <= pi < ps.len() && 0 <= i < ps[pi].entries@.len() && (
        #[trigger] ps[pi].entries@[i]).node == n
}

/// The node of the entry right after the given node's occurrence.
pub open spec fn succ_node(ps: Seq<Path>, n: u64) -> u64 {
    ps[node_pos(ps, n).0].entries@[node_pos(ps, n).1 + 1].node
}

proof fn lemma_node_pos_of(ps: Seq<Path>, pi: int, i: int)
    requires
        nodes_unique(ps),
        0 <= pi < ps.len(),
        0 <= i < ps[pi].entries@.len(),
    ensures
        node_pos(ps, ps[pi].entries@[i].node) == (pi, i),
{
    let n = ps[pi].entries@[i].node;
    assert(exists|pa: int, ia: int|
        0 <= pa < ps.len() && 0 <= ia < ps[pa].entries@.len() && (
        #[trigger] ps[pa].entries@[ia]).node == n) by {
        assert(ps[pi].entries@[i].node == n);
    }
    let (pa, ia): (int, int) = node_pos(ps, n);
    lemma_node_position_unique(ps, pa, ia, pi, i);
}

/// Index in the old block list of output position `a`, skipping the two
/// merged blocks.
pub open spec fn old_idx(a: int, bl: int, bh: int) -> int {
    if a < bl {
        a
    } else if a + 1 < bh {
        a + 1
    } else {
        a + 2
    }
}

/// The merged block's records: one per record of the first constituent,
/// concatenated with the paired record of the second.
pub open spec fn merged_records_ok(
    nbk: Block,
    b1: Block,
    b2: Block,
    ps: Seq<Path>,
    s1: Strand,
    s2: Strand,
) -> bool {
    &&& nbk.records@.len() == b1.records@.len()
    &&& forall|u: int|
        0 <= u < b1.records@.len() ==> (#[trigger] nbk.records@[u]).node == b1.records@[u].node
            && nbk.records@[u].strain@ == b1.records@[u].strain@ && nbk.records@[u].strand
            == merged_strand(s1, s2) && nbk.records@[u].seq@ == merged_seq_of(
            b1.records@[u].seq@,
            rec_of(b2, succ_node(ps, b1.records@[u].node)).seq@,
            s1,
            s2,
        )
}

/// The block is one of the old blocks, neither constituent.
pub open spec fn untouched_from(bs: Seq<Block>, bl: int, bh: int, b: Block) -> bool {
    exists|k: int| 0 <= k < bs.len() && k != bl && k != bh && b == #[trigger] bs[k]
}

/// The block survives among the untouched part of the merged list.
pub open spec fn survives(rbs: Seq<Block>, b: Block) -> bool {
    exists|a: int| 0 <= a < rbs.len() - 1 && #[trigger] rbs[a] == b
}

/// The untouched blocks are exactly the old blocks at shifted positions.
#[verifier::rlimit(100)]
#[verifier::spinoff_prover]
proof fn lemma_merge_blocks_map(g0: Graph, r: Graph, bl: int, bh: int)
    requires
        0 <= bl < bh < g0.blocks@.len(),
        r.blocks@.len() == g0.blocks@.len() - 1,
        forall|a: int|
            0 <= a < r.blocks@.len() - 1 ==> #[trigger] r.blocks@[a] == g0.blocks@[old_idx(
                a,
                bl,
                bh,
            )],
    ensures
        forall|a: int|
            0 <= a < r.blocks@.len() - 1 ==> untouched_from(
                g0.blocks@,
                bl,
                bh,
                #[trigger] r.blocks@[a],
            ),
        forall|k: int|
            0 <= k < g0.blocks@.len() && k != bl && k != bh ==> survives(
                r.blocks@,
                #[trigger] g0.blocks@[k],
            ),
{
    let last = r.blocks@.len() - 1;
    assert forall|a: int| 0 <= a < last implies untouched_from(
        g0.blocks@,
        bl,
        bh,
        #[trigger] r.blocks@[a],
    ) by {
        let k = old_idx(a, bl, bh);
        assert(0 <= k < g0.blocks@.len() && k != bl && k != bh);
        assert(r.blocks@[a] == g0.blocks@[k]);
        assert(untouched_from(g0.blocks@, bl, bh, r.blocks@[a]));
    }
    assert forall|k: int| 0 <= k < g0.blocks@.len() && k != bl && k != bh implies survives(
        r.blocks@,
        #[trigger] g0.blocks@[k],
    ) by {
        let a: int = if k < bl {
            k
        } else if k < bh {
            k - 1
        } else {
            k - 2
        };
        assert(old_idx(a, bl, bh) == k);
        assert(r.blocks@[a] == g0.blocks@[k]);
        assert(survives(r.blocks@, g0.blocks@[k]));
    }
}

/// Identifiers of the untouched blocks stay pairwise distinct and differ
/// from both constituents' identifiers.
#[verifier::rlimit(100)]
#[verifier::spinoff_prover]
proof fn lemma_merge_blocks_unique(g0: Graph, r: Graph, bl: int, bh: int)
    requires
        blocks_unique(g0.blocks@),
        0 <= bl < bh < g0.blocks@.len(),
        r.blocks@.len() == g0.blocks@.len() - 1,
        forall|a: int|
            0 <= a < r.blocks@.len() - 1 ==> #[trigger] r.blocks@[a] == g0.blocks@[old_idx(
                a,
                bl,
                bh,
            )],
    ensures
        forall|i: int, j: int| #![trigger r.blocks@[i], r.blocks@[j]]
            0 <= i < j < r.blocks@.len() - 1 ==> r.blocks@[i].id != r.blocks@[j].id,
        forall|i: int|
            0 <= i < r.blocks@.len() - 1 ==> (#[trigger] r.blocks@[i]).id != g0.blocks@[bl].id
                && r.blocks@[i].id != g0.blocks@[bh].id,
{
    let last = r.blocks@.len() - 1;
    assert forall|i: int, j: int| #![trigger r.blocks@[i], r.blocks@[j]]
        0 <= i < j < last implies r.blocks@[i].id != r.blocks@[j].id by {
        assert(r.blocks@[i] == g0.blocks@[old_idx(i, bl, bh)]);
        assert(r.blocks@[j] == g0.blocks@[old_idx(j, bl, bh)]);
        assert(old_idx(i, bl, bh) < old_idx(j, bl, bh));
    }
    assert forall|i: int| 0 <= i < last implies (#[trigger] r.blocks@[i]).id
        != g0.blocks@[bl].id && r.blocks@[i].id != g0.blocks@[bh].id by {
        assert(r.blocks@[i] == g0.blocks@[old_idx(i, bl, bh)]);
    }
}

/// Lookup by identifier is unchanged for untouched blocks, and finds the
/// merged block under its identifier.
#[verifier::rlimit(100)]
#[verifier::spinoff_prover]
proof fn lemma_merge_blocks_lookup(
    g0: Graph,
    r: Graph,
    bl: int,
    bh: int,
    x1: u64,
    x2: u64,
    idn: u64,
)
    requires
        blocks_unique(g0.blocks@),
        0 <= bl < bh < g0.blocks@.len(),
        x1 == g0.blocks@[bl].id || x1 == g0.blocks@[bh].id,
        x2 == g0.blocks@[bl].id || x2 == g0.blocks@[bh].id,
        x1 != x2,
        idn == (if x1 < x2 {
            x1
        } else {
            x2
        }),
        r.blocks@.len() == g0.blocks@.len() - 1,
        blocks_unique(r.blocks@),
        r.blocks@[r.blocks@.len() - 1].id == idn,
        forall|k: int|
            0 <= k < g0.blocks@.len() && k != bl && k != bh ==> survives(
                r.blocks@,
                #[trigger] g0.blocks@[k],
            ),
    ensures
        forall|id: u64|
            #![trigger has_block(r.blocks@, id)]
            has_block(g0.blocks@, id) && id != x1 && id != x2 ==> has_block(r.blocks@, id)
                && crate::model::block_of(r.blocks@, id) == crate::model::block_of(g0.blocks@, id),
        has_block(r.blocks@, idn),
        crate::model::block_of(r.blocks@, idn) == r.blocks@[r.blocks@.len() - 1],
{
    let last = r.blocks@.len() - 1;
    assert forall|id: u64|
        #![trigger has_block(r.blocks@, id)]
        has_block(g0.blocks@, id) && id != x1 && id != x2 implies has_block(r.blocks@, id)
        && crate::model::block_of(r.blocks@, id) == crate::model::block_of(g0.blocks@, id) by {
        let k = crate::model::block_index(g0.blocks@, id);
        lemma_block_index_of(g0.blocks@, k);
        assert(k != bl && k != bh);
        assert(survives(r.blocks@, g0.blocks@[k]));
        let a = choose|a: int| 0 <= a < r.blocks@.len() - 1 && #[trigger] r.blocks@[a] == g0.blocks@[k];
        lemma_block_index_of(r.blocks@, a);
    }
    assert(has_block(r.blocks@, idn));
    lemma_block_index_of(r.blocks@, last);
}

/// Contribution and resolution facts for every rewritten entry.
#[verifier::rlimit(100)]
#[verifier::spinoff_prover]
proof fn lemma_merge_contribs(
    g0: Graph,
    r: Graph,
    bi: int,
    bj: int,
    x1: u64,
    x2: u64,
    s1: Strand,
    s2: Strand,
    idn: u64,
)
    requires
        wf(g0),
        0 <= bi < g0.blocks@.len(),
        0 <= bj < g0.blocks@.len(),
        bi != bj,
        x1 == g0.blocks@[bi].id,
        x2 == g0.blocks@[bj].id,
        cand_with(g0.paths@, x1, x2, s1, s2),
        idn == (if x1 < x2 {
            x1
        } else {
            x2
        }),
        blocks_unique(r.blocks@),
        forall|id: u64|
            #![trigger has_block(r.blocks@, id)]
            has_block(g0.blocks@, id) && id != x1 && id != x2 ==> has_block(r.blocks@, id)
                && crate::model::block_of(r.blocks@, id) == crate::model::block_of(g0.blocks@, id),
        has_block(r.blocks@, idn),
        crate::model::block_of(r.blocks@, idn) == r.blocks@[r.blocks@.len() - 1],
        blocks_rec_nodes_distinct(r.blocks@),
        r.blocks@.len() >= 1,
        r.blocks@[r.blocks@.len() - 1].id == idn,
        merged_records_ok(
            r.blocks@[r.blocks@.len() - 1],
            g0.blocks@[bi],
            g0.blocks@[bj],
            g0.paths@,
            s1,
            s2,
        ),
    ensures
        forall|q: int, i: int|
            #![trigger g0.paths@[q].entries@[i]]
            0 <= q < g0.paths@.len() && 0 <= i < g0.paths@[q].entries@.len()
                && g0.paths@[q].entries@[i].block != x1 && g0.paths@[q].entries@[i].block != x2
                ==> entry_contrib(r.blocks@, g0.paths@[q].entries@[i]) == entry_contrib(
                g0.blocks@,
                g0.paths@[q].entries@[i],
            ) && entry_located(r.blocks@, g0.paths@[q].entries@[i]) && entry_matched(
                r.blocks@,
                g0.paths@[q].entries@[i],
                g0.paths@[q].name@,
            ),
        forall|q: int, i: int|
            #![trigger g0.paths@[q].entries@[i]]
            0 <= q < g0.paths@.len() && 0 <= i < g0.paths@[q].entries@.len()
                && g0.paths@[q].entries@[i].block == x1 ==> i + 1 < g0.paths@[q].entries@.len()
                && entry_contrib(
                r.blocks@,
                merged_entry(g0.paths@[q].entries@[i], idn, merged_strand(s1, s2)),
            ) == entry_contrib(g0.blocks@, g0.paths@[q].entries@[i]) + entry_contrib(
                g0.blocks@,
                g0.paths@[q].entries@[i + 1],
            ) && entry_located(
                r.blocks@,
                merged_entry(g0.paths@[q].entries@[i], idn, merged_strand(s1, s2)),
            ) && entry_matched(
                r.blocks@,
                merged_entry(g0.paths@[q].entries@[i], idn, merged_strand(s1, s2)),
                g0.paths@[q].name@,
            ),
{
    let sn = merged_strand(s1, s2);
    let last = r.blocks@.len() - 1;
    let nbk = r.blocks@[last];
    let b1 = g0.blocks@[bi];
    let b2 = g0.blocks@[bj];
    lemma_block_index_of(g0.blocks@, bi);
    lemma_block_index_of(g0.blocks@, bj);
    assert forall|q: int, i: int|
        #![trigger g0.paths@[q].entries@[i]]
        0 <= q < g0.paths@.len() && 0 <= i < g0.paths@[q].entries@.len()
            && g0.paths@[q].entries@[i].block != x1 && g0.paths@[q].entries@[i].block
            != x2 implies entry_contrib(r.blocks@, g0.paths@[q].entries@[i]) == entry_contrib(
        g0.blocks@,
        g0.paths@[q].entries@[i],
    ) && entry_located(r.blocks@, g0.paths@[q].entries@[i]) && entry_matched(
        r.blocks@,
        g0.paths@[q].entries@[i],
        g0.paths@[q].name@,
    ) by {
        let e = g0.paths@[q].entries@[i];
        assert(entry_located(g0.blocks@, e));
        assert(entry_matched(g0.blocks@, e, g0.paths@[q].name@));
        assert(has_block(r.blocks@, e.block));
        assert(crate::model::block_of(r.blocks@, e.block) == crate::model::block_of(
            g0.blocks@,
            e.block,
        ));
    }
    assert forall|q: int, i: int|
        #![trigger g0.paths@[q].entries@[i]]
        0 <= q < g0.paths@.len() && 0 <= i < g0.paths@[q].entries@.len()
            && g0.paths@[q].entries@[i].block == x1 implies i + 1 < g0.paths@[q].entries@.len()
        && entry_contrib(r.blocks@, merged_entry(g0.paths@[q].entries@[i], idn, sn))
        == entry_contrib(g0.blocks@, g0.paths@[q].entries@[i]) + entry_contrib(
        g0.blocks@,
        g0.paths@[q].entries@[i + 1],
    ) && entry_located(r.blocks@, merged_entry(g0.paths@[q].entries@[i], idn, sn))
        && entry_matched(
        r.blocks@,
        merged_entry(g0.paths@[q].entries@[i], idn, sn),
        g0.paths@[q].name@,
    ) by {
        let s = g0.paths@[q].entries@;
        let e = s[i];
        assert(seq_adj_ok(s, x1, x2, s1, s2));
        assert(entry_adj_ok(s, i, x1, x2, s1, s2));
        let e2 = s[i + 1];
        assert(e2.block == x2 && e.strand == s1 && e2.strand == s2);
        assert(entry_located(g0.blocks@, e));
        assert(entry_matched(g0.blocks@, e, g0.paths@[q].name@));
        assert(entry_located(g0.blocks@, e2));
        assert(entry_matched(g0.blocks@, e2, g0.paths@[q].name@));
        let n1 = e.node;
        assert(has_rec(b1, n1));
        let u = crate::model::rec_index(b1, n1);
        assert(0 <= u < b1.records@.len() && b1.records@[u].node == n1);
        lemma_rec_index_of(b1, u);
        assert(rec_of(b1, n1) == b1.records@[u]);
        assert(nbk.records@[u].node == n1);
        lemma_rec_index_of(nbk, u);
        assert(rec_of(nbk, n1) == nbk.records@[u]);
        lemma_node_pos_of(g0.paths@, q, i);
        assert(succ_node(g0.paths@, n1) == e2.node);
        assert(nbk.records@[u].seq@ == merged_seq_of(
            b1.records@[u].seq@,
            rec_of(b2, e2.node).seq@,
            s1,
            s2,
        ));
        lemma_merged_contrib(b1.records@[u].seq@, rec_of(b2, e2.node).seq@, s1, s2);
        assert(entry_contrib(r.blocks@, merged_entry(e, idn, sn)) == oriented(
            rec_of(nbk, n1).seq@,
            sn,
        ));
        assert(entry_contrib(g0.blocks@, e) == oriented(rec_of(b1, n1).seq@, s1));
        assert(entry_contrib(g0.blocks@, e2) == oriented(rec_of(b2, e2.node).seq@, s2));
        assert(rec_of(nbk, n1).strain@ == b1.records@[u].strain@);
        assert(rec_of(nbk, n1).strand == sn);
    }
}

/// Every rewritten entry resolves to a record that matches its path.
#[verifier::rlimit(100)]
#[verifier::spinoff_prover]
proof fn lemma_merge_entries(g0: Graph, r: Graph, x1: u64, x2: u64, s1: Strand, s2: Strand, idn: u64)
    requires
        x1 != x2,
        cand_with(g0.paths@, x1, x2, s1, s2),
        r.paths@.len() == g0.paths@.len(),
        forall|q: int|
            0 <= q < r.paths@.len() ==> (#[trigger] r.paths@[q]).name@ == g0.paths@[q].name@
                && r.paths@[q].entries@ == rw(g0.paths@[q].entries@, x1, idn, merged_strand(s1, s2)),
        forall|q: int, i: int|
            #![trigger g0.paths@[q].entries@[i]]
            0 <= q < g0.paths@.len() && 0 <= i < g0.paths@[q].entries@.len()
                && g0.paths@[q].entries@[i].block != x1 && g0.paths@[q].entries@[i].block != x2
                ==> entry_located(r.blocks@, g0.paths@[q].entries@[i]) && entry_matched(
                r.blocks@,
                g0.paths@[q].entries@[i],
                g0.paths@[q].name@,
            ),
        forall|q: int, i: int|
            #![trigger g0.paths@[q].entries@[i]]
            0 <= q < g0.paths@.len() && 0 <= i < g0.paths@[q].entries@.len()
                && g0.paths@[q].entries@[i].block == x1 ==> entry_located(
                r.blocks@,
                merged_entry(g0.paths@[q].entries@[i], idn, merged_strand(s1, s2)),
            ) && entry_matched(
                r.blocks@,
                merged_entry(g0.paths@[q].entries@[i], idn, merged_strand(s1, s2)),
                g0.paths@[q].name@,
            ),
    ensures
        entries_located(r),
        entries_matched(r),
{
    let sn = merged_strand(s1, s2);
    assert forall|q: int, i: int|
        0 <= q < r.paths@.len() && 0 <= i < r.paths@[q].entries@.len() implies entry_located(
        r.blocks@,
        #[trigger] r.paths@[q].entries@[i],
    ) && entry_matched(r.blocks@, r.paths@[q].entries@[i], r.paths@[q].name@) by {
        let s = g0.paths@[q].entries@;
        assert(seq_adj_ok(s, x1, x2, s1, s2));
        lemma_rw_elems(s, x1, x2, idn, s1, s2);
        let e = r.paths@[q].entries@[i];
        assert(rw_elem_src(s, x1, x2, idn, sn, e));
        let w = choose|w: int|
            0 <= w < s.len() && (((#[trigger] s[w]).block == x1 && e == merged_entry(
                s[w],
                idn,
                sn,
            )) || (s[w].block != x1 && s[w].block != x2 && e == s[w]));
        assert(g0.paths@[q].entries@[w] == s[w]);
    }
    assert(entries_located(r));
    assert(entries_matched(r));
}

/// Every record of the merged graph still lies on some path occurrence.
#[verifier::rlimit(100)]
#[verifier::spinoff_prover]
proof fn lemma_merge_covered(
    g0: Graph,
    r: Graph,
    bi: int,
    bj: int,
    bl: int,
    bh: int,
    x1: u64,
    x2: u64,
    s1: Strand,
    s2: Strand,
    idn: u64,
)
    requires
        wf(g0),
        0 <= bi < g0.blocks@.len(),
        0 <= bj < g0.blocks@.len(),
        bi != bj,
        bl == (if bi < bj {
            bi
        } else {
            bj
        }),
        bh == (if bi < bj {
            bj
        } else {
            bi
        }),
        x1 == g0.blocks@[bi].id,
        x2 == g0.blocks@[bj].id,
        cand_with(g0.paths@, x1, x2, s1, s2),
        r.blocks@.len() >= 1,
        r.blocks@[r.blocks@.len() - 1].id == idn,
        forall|a: int|
            0 <= a < r.blocks@.len() - 1 ==> untouched_from(
                g0.blocks@,
                bl,
                bh,
                #[trigger] r.blocks@[a],
            ),
        merged_records_ok(
            r.blocks@[r.blocks@.len() - 1],
            g0.blocks@[bi],
            g0.blocks@[bj],
            g0.paths@,
            s1,
            s2,
        ),
        r.paths@.len() == g0.paths@.len(),
        forall|q: int|
            0 <= q < r.paths@.len() ==> (#[trigger] r.paths@[q]).entries@ == rw(
                g0.paths@[q].entries@,
                x1,
                idn,
                merged_strand(s1, s2),
            ),
    ensures
        records_covered(r),
{
    let sn = merged_strand(s1, s2);
    let last = r.blocks@.len() - 1;
    let nbk = r.blocks@[last];
    let b1 = g0.blocks@[bi];
    assert forall|a2: int, rj: int|
        0 <= a2 < r.blocks@.len() && 0 <= rj < r.blocks@[a2].records@.len() implies occurrence_of(
            r,
            (#[trigger] r.blocks@[a2].records@[rj]).node,
            r.blocks@[a2].id,
        ) by {
        if a2 < last {
            assert(untouched_from(g0.blocks@, bl, bh, r.blocks@[a2]));
            let k0 = choose|k0: int|
                0 <= k0 < g0.blocks@.len() && k0 != bl && k0 != bh && r.blocks@[a2]
                    == #[trigger] g0.blocks@[k0];
            assert(k0 != bi && k0 != bj);
            assert(occurrence_of(g0, g0.blocks@[k0].records@[rj].node, g0.blocks@[k0].id));
            let (pk, m): (int, int) = choose|pk: int, m: int|
                0 <= pk < g0.paths@.len() && 0 <= m < g0.paths@[pk].entries@.len() && (
                #[trigger] g0.paths@[pk].entries@[m]).node == g0.blocks@[k0].records@[rj].node
                    && g0.paths@[pk].entries@[m].block == g0.blocks@[k0].id;
            assert(g0.blocks@[k0].id != x1 && g0.blocks@[k0].id != x2);
            let s = g0.paths@[pk].entries@;
            assert(seq_adj_ok(s, x1, x2, s1, s2));
            lemma_rw_elems(s, x1, x2, idn, s1, s2);
            assert(ent_in(rw(s, x1, idn, sn), s[m]));
            let pos = choose|pos: int|
                0 <= pos < rw(s, x1, idn, sn).len() && rw(s, x1, idn, sn)[pos] == s[m];
            assert(r.paths@[pk].entries@[pos] == s[m]);
            assert(occurrence_of(r, r.blocks@[a2].records@[rj].node, r.blocks@[a2].id));
        } else {
            assert(nbk.records@[rj].node == b1.records@[rj].node);
            assert(occurrence_of(g0, b1.records@[rj].node, x1));
            let (pk, m): (int, int) = choose|pk: int, m: int|
                0 <= pk < g0.paths@.len() && 0 <= m < g0.paths@[pk].entries@.len() && (
                #[trigger] g0.paths@[pk].entries@[m]).node == b1.records@[rj].node
                    && g0.paths@[pk].entries@[m].block == x1;
            let s = g0.paths@[pk].entries@;
            assert(seq_adj_ok(s, x1, x2, s1, s2));
            lemma_rw_elems(s, x1, x2, idn, s1, s2);
            assert(ent_in(rw(s, x1, idn, sn), merged_entry(s[m], idn, sn)));
            let pos = choose|pos: int|
                0 <= pos < rw(s, x1, idn, sn).len() && rw(s, x1, idn, sn)[pos] == merged_entry(
                    s[m],
                    idn,
                    sn,
                );
            assert(r.paths@[pk].entries@[pos].node == b1.records@[rj].node);
            assert(r.paths@[pk].entries@[pos].block == idn);
            assert(occurrence_of(r, r.blocks@[a2].records@[rj].node, r.blocks@[a2].id));
        }
    }
}

/// Reconstruction, node uniqueness and shape facts of every rewritten
/// path.
#[verifier::rlimit(100)]
#[verifier::spinoff_prover]
proof fn lemma_merge_paths(g0: Graph, r: Graph, x1: u64, x2: u64, s1: Strand, s2: Strand, idn: u64)
    requires
        nodes_unique(g0.paths@),
        x1 != x2,
        idn == x1 || idn == x2,
        cand_with(g0.paths@, x1, x2, s1, s2),
        r.paths@.len() == g0.paths@.len(),
        forall|q: int|
            0 <= q < r.paths@.len() ==> (#[trigger] r.paths@[q]).entries@ == rw(
                g0.paths@[q].entries@,
                x1,
                idn,
                merged_strand(s1, s2),
            ),
        forall|q: int, i: int|
            #![trigger g0.paths@[q].entries@[i]]
            0 <= q < g0.paths@.len() && 0 <= i < g0.paths@[q].entries@.len()
                && g0.paths@[q].entries@[i].block != x1 && g0.paths@[q].entries@[i].block != x2
                ==> entry_contrib(r.blocks@, g0.paths@[q].entries@[i]) == entry_contrib(
                g0.blocks@,
                g0.paths@[q].entries@[i],
            ),
        forall|q: int, i: int|
            #![trigger g0.paths@[q].entries@[i]]
            0 <= q < g0.paths@.len() && 0 <= i < g0.paths@[q].entries@.len()
                && g0.paths@[q].entries@[i].block == x1 ==> i + 1 < g0.paths@[q].entries@.len()
                && entry_contrib(
                r.blocks@,
                merged_entry(g0.paths@[q].entries@[i], idn, merged_strand(s1, s2)),
            ) == entry_contrib(g0.blocks@, g0.paths@[q].entries@[i]) + entry_contrib(
                g0.blocks@,
                g0.paths@[q].entries@[i + 1],
            ),
    ensures
        forall|k: int|
            0 <= k < r.paths@.len() ==> recon_entries(
                r.blocks@,
                (#[trigger] r.paths@[k]).entries@,
            ) == recon_entries(g0.blocks@, g0.paths@[k].entries@),
        forall|k: int|
            0 <= k < r.paths@.len() ==> entry_nodes_distinct((#[trigger] r.paths@[k]).entries@) && (
            g0.paths@[k].entries@.len() > 0 ==> r.paths@[k].entries@.len() > 0) && (forall|n: u64|
                #[trigger] node_in(r.paths@[k].entries@, n) ==> node_in(
                    g0.paths@[k].entries@,
                    n,
                )) && (entries_blocks_distinct(g0.paths@[k].entries@) && entry_nodes_distinct(
                g0.paths@[k].entries@,
            ) ==> entries_blocks_distinct(r.paths@[k].entries@)),
        forall|a: int| 0 <= a < r.paths@.len() ==> #[trigger] path_disjoint_after(r.paths@, a),
{
    let sn = merged_strand(s1, s2);
    // Reconstruction of every rewritten path.
    assert forall|k: int| 0 <= k < r.paths@.len() implies recon_entries(
        r.blocks@,
        (#[trigger] r.paths@[k]).entries@,
    ) == recon_entries(g0.blocks@, g0.paths@[k].entries@) by {
        let s = g0.paths@[k].entries@;
        assert(seq_adj_ok(s, x1, x2, s1, s2));
        assert forall|i: int|
            0 <= i < s.len() && (#[trigger] s[i]).block != x1 && s[i].block != x2 implies
            entry_contrib(r.blocks@, s[i]) == entry_contrib(g0.blocks@, s[i]) by {
            assert(g0.paths@[k].entries@[i] == s[i]);
        }
        assert forall|i: int|
            0 <= i < s.len() && (#[trigger] s[i]).block == x1 implies i + 1 < s.len()
            && entry_contrib(r.blocks@, merged_entry(s[i], idn, sn)) == entry_contrib(
            g0.blocks@,
            s[i],
        ) + entry_contrib(g0.blocks@, s[i + 1]) by {
            assert(g0.paths@[k].entries@[i] == s[i]);
        }
        lemma_rw_recon(g0.blocks@, r.blocks@, s, x1, x2, idn, s1, s2);
    }
    // Node uniqueness, non-emptiness and block-distinctness of the paths.
    assert forall|k: int| 0 <= k < r.paths@.len() implies entry_nodes_distinct(
        (#[trigger] r.paths@[k]).entries@,
    ) && (g0.paths@[k].entries@.len() > 0 ==> r.paths@[k].entries@.len() > 0) && (forall|n: u64|
        #[trigger] node_in(r.paths@[k].entries@, n) ==> node_in(g0.paths@[k].entries@, n)) && (
    entries_blocks_distinct(g0.paths@[k].entries@) && entry_nodes_distinct(g0.paths@[k].entries@)
        ==> entries_blocks_distinct(r.paths@[k].entries@)) by {
        lemma_rw_nodes(g0.paths@[k].entries@, x1, idn, sn);
        assert(entry_nodes_distinct(g0.paths@[k].entries@));
        assert(seq_adj_ok(g0.paths@[k].entries@, x1, x2, s1, s2));
        if entries_blocks_distinct(g0.paths@[k].entries@) {
            lemma_rw_blocks_distinct(g0.paths@[k].entries@, x1, x2, idn, s1, s2);
        }
    }
    assert forall|a: int| 0 <= a < r.paths@.len() implies #[trigger] path_disjoint_after(
        r.paths@,
        a,
    ) by {
        assert forall|y: int, nd: u64|
            #![trigger node_in(r.paths@[y].entries@, nd)]
            a < y < r.paths@.len() && node_in(r.paths@[a].entries@, nd) implies !node_in(
            r.paths@[y].entries@,
            nd,
        ) by {
            assert(node_in(g0.paths@[a].entries@, nd));
            assert(path_disjoint_after(g0.paths@, a));
            if node_in(r.paths@[y].entries@, nd) {
                assert(node_in(g0.paths@[y].entries@, nd));
            }
        }
    }
}

/// Assembles well-formedness of the merged graph.
#[verifier::rlimit(100)]
#[verifier::spinoff_prover]
proof fn lemma_merge_finish(
    g0: Graph,
    r: Graph,
    bi: int,
    bj: int,
    bl: int,
    bh: int,
    x1: u64,
    x2: u64,
    s1: Strand,
    s2: Strand,
    idn: u64,
)
    requires
        wf(g0),
        0 <= bi < g0.blocks@.len(),
        0 <= bj < g0.blocks@.len(),
        bi != bj,
        bl == (if bi < bj {
            bi
        } else {
            bj
        }),
        bh == (if bi < bj {
            bj
        } else {
            bi
        }),
        x1 == g0.blocks@[bi].id,
        x2 == g0.blocks@[bj].id,
        cand_with(g0.paths@, x1, x2, s1, s2),
        idn == (if x1 < x2 {
            x1
        } else {
            x2
        }),
        r.blocks@.len() == g0.blocks@.len() - 1,
        forall|a: int|
            0 <= a < r.blocks@.len() - 1 ==> #[trigger] r.blocks@[a] == g0.blocks@[old_idx(
                a,
                bl,
                bh,
            )],
        r.blocks@[r.blocks@.len() - 1].id == idn,
        merged_records_ok(
            r.blocks@[r.blocks@.len() - 1],
            g0.blocks@[bi],
            g0.blocks@[bj],
            g0.paths@,
            s1,
            s2,
        ),
        r.paths@.len() == g0.paths@.len(),
        forall|q: int|
            0 <= q < r.paths@.len() ==> (#[trigger] r.paths@[q]).name@ == g0.paths@[q].name@
                && r.paths@[q].circular == g0.paths@[q].circular && r.paths@[q].entries@ == rw(
                g0.paths@[q].entries@,
                x1,
                idn,
                merged_strand(s1, s2),
            ),
    ensures
        wf(r),
        blocks_live(g0.blocks@) ==> blocks_live(r.blocks@),
        forall|k: int|
            0 <= k < r.paths@.len() ==> (g0.paths@[k].entries@.len() > 0
                ==> (#[trigger] r.paths@[k]).entries@.len() > 0),
        forall|k: int|
            0 <= k < r.paths@.len() ==> (entries_blocks_distinct(g0.paths@[k].entries@)
                && entry_nodes_distinct(g0.paths@[k].entries@) ==> entries_blocks_distinct(
                (#[trigger] r.paths@[k]).entries@,
            )),
        forall|k: int|
            0 <= k < r.paths@.len() ==> recon_entries(
                r.blocks@,
                (#[trigger] r.paths@[k]).entries@,
            ) == recon_entries(g0.blocks@, g0.paths@[k].entries@),
        forall|a: int|
            0 <= a < r.blocks@.len() ==> has_block(g0.blocks@, (#[trigger] r.blocks@[a]).id),
{
    let sn = merged_strand(s1, s2);
    let last = r.blocks@.len() - 1;
    let nbk = r.blocks@[last];
    let b1 = g0.blocks@[bi];
    let b2 = g0.blocks@[bj];
    assert(rec_nodes_distinct(b1));
    assert forall|u: int, v: int|
        #![trigger nbk.records@[u], nbk.records@[v]]
        0 <= u < v < nbk.records@.len() implies nbk.records@[u].node != nbk.records@[v].node by {
        assert(nbk.records@[u].node == b1.records@[u].node);
        assert(nbk.records@[v].node == b1.records@[v].node);
        assert(b1.records@[u].node != b1.records@[v].node);
    }
    assert(rec_nodes_distinct(nbk));
    lemma_merge_blocks_map(g0, r, bl, bh);
    lemma_merge_blocks_unique(g0, r, bl, bh);
    assert forall|i: int, j: int| #![trigger r.blocks@[i], r.blocks@[j]]
        0 <= i < j < r.blocks@.len() implies r.blocks@[i].id != r.blocks@[j].id by {
        if j == last {
            assert(r.blocks@[i].id != g0.blocks@[bl].id && r.blocks@[i].id != g0.blocks@[bh].id);
        }
    }
    assert(blocks_unique(r.blocks@));
    lemma_merge_blocks_lookup(g0, r, bl, bh, x1, x2, idn);
    assert forall|a: int| 0 <= a < r.blocks@.len() implies rec_nodes_distinct(
        #[trigger] r.blocks@[a],
    ) && has_block(g0.blocks@, r.blocks@[a].id) by {
        if a < last {
            assert(untouched_from(g0.blocks@, bl, bh, r.blocks@[a]));
            let k = choose|k: int|
                0 <= k < g0.blocks@.len() && k != bl && k != bh && r.blocks@[a]
                    == #[trigger] g0.blocks@[k];
            assert(rec_nodes_distinct(g0.blocks@[k]));
            assert(has_block(g0.blocks@, g0.blocks@[k].id));
        } else {
            assert(r.blocks@[a].id == idn);
            assert(has_block(g0.blocks@, g0.blocks@[bi].id));
            assert(has_block(g0.blocks@, g0.blocks@[bj].id));
        }
    }
    assert(blocks_rec_nodes_distinct(r.blocks@));
    lemma_merge_contribs(g0, r, bi, bj, x1, x2, s1, s2, idn);
    assert(nodes_unique(g0.paths@));
    lemma_merge_paths(g0, r, x1, x2, s1, s2, idn);
    lemma_merge_entries(g0, r, x1, x2, s1, s2, idn);
    lemma_merge_covered(g0, r, bi, bj, bl, bh, x1, x2, s1, s2, idn);
    // Liveness carries over.
    if blocks_live(g0.blocks@) {
        assert forall|a2: int| 0 <= a2 < r.blocks@.len() implies (
        #[trigger] r.blocks@[a2]).records@.len() > 0 by {
            if a2 < last {
                assert(untouched_from(g0.blocks@, bl, bh, r.blocks@[a2]));
                let k0 = choose|k0: int|
                    0 <= k0 < g0.blocks@.len() && k0 != bl && k0 != bh && r.blocks@[a2]
                        == #[trigger] g0.blocks@[k0];
            } else {
                assert(b1.records@.len() > 0);
            }
        }
    }
    assert(paths_unique(r.paths@)) by {
        assert forall|i: int, j: int| #![trigger r.paths@[i], r.paths@[j]]
            0 <= i < j < r.paths@.len() implies r.paths@[i].name@ != r.paths@[j].name@ by {
            assert(g0.paths@[i].name@ != g0.paths@[j].name@);
        }
    }
}

/// Merges the candidate pair at block indices `bi` (first constituent) and
/// `bj` (second) into one block carrying the smaller of the two
/// identifiers, rewriting every path; reconstruction, strain names,
/// circular flags and well-formedness are preserved, and the block count
/// drops by one. Paths that repeat no block still repeat none.
#[verifier::rlimit(100)]
#[verifier::spinoff_prover]
pub fn merge_once(g: Graph, bi: usize, bj: usize) -> (r: Graph)
    requires
        wf(g),
        bi < g.blocks@.len(),
        bj < g.blocks@.len(),
        bi != bj,
        cand(g.paths@, g.blocks@[bi as int].id, g.blocks@[bj as int].id),
    ensures
        wf(r),
        r.blocks@.len() == g.blocks@.len() - 1,
        blocks_live(g.blocks@) ==> blocks_live(r.blocks@),
        r.paths@.len() == g.paths@.len(),
        forall|k: int|
            0 <= k < r.paths@.len() ==> (#[trigger] r.paths@[k]).name@ == g.paths@[k].name@
                && r.paths@[k].circular == g.paths@[k].circular && (g.paths@[k].entries@.len() > 0
                ==> r.paths@[k].entries@.len() > 0) && (entries_blocks_distinct(
                g.paths@[k].entries@,
            ) && entry_nodes_distinct(g.paths@[k].entries@) ==> entries_blocks_distinct(
                r.paths@[k].entries@,
            )),
        forall|k: int|
            0 <= k < r.paths@.len() ==> recon_entries(
                r.blocks@,
                (#[trigger] r.paths@[k]).entries@,
            ) == recon_entries(g.blocks@, g.paths@[k].entries@),
        forall|a: int|
            0 <= a < r.blocks@.len() ==> has_block(g.blocks@, (#[trigger] r.blocks@[a]).id),
{
    let ghost g0 = g;
    let x1 = g.blocks[bi].id;
    let x2 = g.blocks[bj].id;
    proof {
        assert(x1 != x2);
    }
    let (p0, i0) = match crate::adjacency::find_occ(&g, x1) {
        None => {
            proof {
                let (t1, t2): (Strand, Strand) = choose|t1: Strand, t2: Strand|
                    cand_with(g.paths@, x1, x2, t1, t2);
                assert(false);
            }
            return g;
        },
        Some(t) => t,
    };
    let s1 = g.paths[p0].entries[i0].strand;
    let ghost (t1, t2): (Strand, Strand) = choose|t1: Strand, t2: Strand|
        cand_with(g0.paths@, x1, x2, t1, t2);
    proof {
        assert(seq_adj_ok(g0.paths@[p0 as int].entries@, x1, x2, t1, t2));
        assert(entry_adj_ok(g0.paths@[p0 as int].entries@, i0 as int, x1, x2, t1, t2));
        assert(t1 == s1);
    }
    let m0 = g.paths[p0].entries.len();
    proof {
        assert(i0 + 1 < m0);
    }
    let s2 = g.paths[p0].entries[i0 + 1].strand;
    proof {
        assert(t2 == s2);
        assert(cand_with(g0.paths@, x1, x2, s1, s2));
    }
    let snx = if s1 == Strand::Reverse && s2 == Strand::Reverse {
        Strand::Reverse
    } else {
        Strand::Forward
    };
    proof {
        assert(snx == merged_strand(s1, s2));
    }
    let idn = if x1 < x2 {
        x1
    } else {
        x2
    };
    // Build the merged records, pairing each record of the first block
    // with the record of the node that follows it on its path.
    let mut new_recs: Vec<AlnRecord> = Vec::new();
    let nrec = g.blocks[bi].records.len();
    let mut t: usize = 0;
    while t < nrec
        invariant
            wf(g),
            g == g0,
            bi < g.blocks@.len(),
            bj < g.blocks@.len(),
            bi != bj,
            x1 == g.blocks@[bi as int].id,
            x2 == g.blocks@[bj as int].id,
            x1 != x2,
            cand_with(g0.paths@, x1, x2, s1, s2),
            snx == merged_strand(s1, s2),
            nrec == g.blocks@[bi as int].records@.len(),
            t <= nrec,
            new_recs@.len() == t,
            forall|u: int|
                0 <= u < t ==> (#[trigger] new_recs@[u]).node
                    == g.blocks@[bi as int].records@[u].node && new_recs@[u].strain@
                    == g.blocks@[bi as int].records@[u].strain@ && new_recs@[u].strand == snx
                    && new_recs@[u].seq@ == merged_seq_of(
                    g.blocks@[bi as int].records@[u].seq@,
                    rec_of(
                        g.blocks@[bj as int],
                        succ_node(g.paths@, g.blocks@[bi as int].records@[u].node),
                    ).seq@,
                    s1,
                    s2,
                ),
        decreases nrec - t,
    {
        let r1node = g.blocks[bi].records[t].node;
        proof {
            assert(occurrence_of(g0, g0.blocks@[bi as int].records@[t as int].node, x1));
        }
        let (pp, ii) = match find_node(&g, r1node) {
            None => {
                proof {
                    let (qa, qb): (int, int) = choose|qa: int, qb: int|
                        0 <= qa < g0.paths@.len() && 0 <= qb < g0.paths@[qa].entries@.len() && (
                        #[trigger] g0.paths@[qa].entries@[qb]).node == r1node
                            && g0.paths@[qa].entries@[qb].block == x1;
                    assert(false);
                }
                return g;
            },
            Some(v) => v,
        };
        proof {
            let (qa, qb): (int, int) = choose|qa: int, qb: int|
                0 <= qa < g0.paths@.len() && 0 <= qb < g0.paths@[qa].entries@.len() && (
                #[trigger] g0.paths@[qa].entries@[qb]).node == r1node
                    && g0.paths@[qa].entries@[qb].block == x1;
            lemma_node_position_unique(g0.paths@, pp as int, ii as int, qa, qb);
            assert(g0.paths@[pp as int].entries@[ii as int].block == x1);
            assert(seq_adj_ok(g0.paths@[pp as int].entries@, x1, x2, s1, s2));
            assert(entry_adj_ok(g0.paths@[pp as int].entries@, ii as int, x1, x2, s1, s2));
            lemma_node_pos_of(g0.paths@, pp as int, ii as int);
        }
        let mpp = g.paths[pp].entries.len();
        proof {
            assert(ii + 1 < mpp);
        }
        let n2 = g.paths[pp].entries[ii + 1].node;
        proof {
            assert(succ_node(g0.paths@, r1node) == n2);
            assert(entry_located(g0.blocks@, g0.paths@[pp as int].entries@[ii + 1]));
            lemma_block_index_of(g0.blocks@, bj as int);
            assert(has_rec(g0.blocks@[bj as int], n2));
        }
        let r2idx = match find_rec_idx(&g.blocks[bj], n2) {
            None => {
                proof {
                    assert(false);
                }
                return g;
            },
            Some(v) => v,
        };
        proof {
            lemma_rec_index_of(g0.blocks@[bj as int], r2idx as int);
        }
        let mseq = build_merged_seq(
            &g.blocks[bi].records[t].seq,
            &g.blocks[bj].records[r2idx].seq,
            s1,
            s2,
        );
        let strain_copy = g.blocks[bi].records[t].strain.clone();
        new_recs.push(AlnRecord { node: r1node, strain: strain_copy, strand: snx, seq: mseq });
        t += 1;
    }
    let ncons = build_merged_seq(&g.blocks[bi].consensus, &g.blocks[bj].consensus, s1, s2);
    let nblock = Block { id: idn, consensus: ncons, records: new_recs };
    let ghost bs0 = g.blocks@;
    let ghost ps0 = g.paths@;
    // Rebuild the block list without the two constituents, then the merged
    // block at the end.
    let Graph { blocks, paths } = g;
    let bl = if bi < bj {
        bi
    } else {
        bj
    };
    let bh = if bi < bj {
        bj
    } else {
        bi
    };
    let mut rest = blocks;
    let mut nb: Vec<Block> = Vec::new();
    let mut k: usize = 0;
    let total = rest.len();
    proof {
        assert(bs0.subrange(0, bs0.len() as int) =~= bs0);
        assert(bs0.len() == total);
    }
    while rest.len() > 0
        invariant
            bl < bh < bs0.len(),
            (bl == bi && bh == bj) || (bl == bj && bh == bi),
            bs0.len() <= usize::MAX,
            rest@.len() <= bs0.len(),
            rest@ == bs0.subrange(bs0.len() - rest@.len(), bs0.len() as int),
            k == bs0.len() - rest@.len(),
            nb@.len() == k - (if k > bl {
                1int
            } else {
                0int
            }) - (if k > bh {
                1int
            } else {
                0int
            }),
            forall|a: int| 0 <= a < nb@.len() ==> #[trigger] nb@[a] == bs0[old_idx(
                a,
                bl as int,
                bh as int,
            )] && old_idx(a, bl as int, bh as int) < k,
        decreases rest@.len(),
    {
        let ghost pre = rest@;
        let b = rest.remove(0);
        proof {
            assert(b == pre[0]);
            assert(pre[0] == bs0[k as int]);
            assert(rest@ =~= pre.subrange(1, pre.len() as int));
            assert forall|x: int| 0 <= x < rest@.len() implies rest@[x] == bs0[bs0.len()
                - rest@.len() + x] by {
                assert(rest@[x] == pre[x + 1]);
                assert(pre[x + 1] == bs0[bs0.len() - pre.len() + x + 1]);
            }
            assert(rest@ =~= bs0.subrange(bs0.len() - rest@.len(), bs0.len() as int));
        }
        if k != bl && k != bh {
            nb.push(b);
            proof {
                assert(old_idx(nb@.len() - 1, bl as int, bh as int) == k);
            }
        }
        k += 1;
    }
    nb.push(nblock);
    // Rewrite every path.
    let mut oldp = paths;
    let mut np: Vec<Path> = Vec::new();
    proof {
        assert(ps0.subrange(0, ps0.len() as int) =~= ps0);
    }
    while oldp.len() > 0
        invariant
            x1 != x2,
            snx == merged_strand(s1, s2),
            cand_with(ps0, x1, x2, s1, s2),
            oldp@.len() <= ps0.len(),
            oldp@ == ps0.subrange(ps0.len() - oldp@.len(), ps0.len() as int),
            np@.len() == ps0.len() - oldp@.len(),
            forall|q: int|
                0 <= q < np@.len() ==> (#[trigger] np@[q]).name@ == ps0[q].name@ && np@[q].circular
                    == ps0[q].circular && np@[q].entries@ == rw(ps0[q].entries@, x1, idn, snx),
        decreases oldp@.len(),
    {
        let ghost pre = oldp@;
        let ghost done = ps0.len() - pre.len();
        let p = oldp.remove(0);
        proof {
            assert(p == pre[0]);
            assert(pre[0] == ps0[done]);
            assert(oldp@ =~= pre.subrange(1, pre.len() as int));
            assert forall|x: int| 0 <= x < oldp@.len() implies oldp@[x] == ps0[ps0.len()
                - oldp@.len() + x] by {
                assert(oldp@[x] == pre[x + 1]);
                assert(pre[x + 1] == ps0[ps0.len() - pre.len() + x + 1]);
            }
            assert(oldp@ =~= ps0.subrange(ps0.len() - oldp@.len(), ps0.len() as int));
            assert(seq_adj_ok(ps0[done].entries@, x1, x2, s1, s2));
        }
        let ne = rewrite_entries(&p.entries, x1, idn, snx, Ghost(x2), Ghost(s1), Ghost(s2));
        np.push(Path { name: p.name, circular: p.circular, entries: ne });
    }
    let r = Graph { blocks: nb, paths: np };
    proof {
        lemma_merge_finish(
            g0,
            r,
            bi as int,
            bj as int,
            bl as int,
            bh as int,
            x1,
            x2,
            s1,
            s2,
            idn,
        );
    }
    r
}

} // verus!
