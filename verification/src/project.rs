//! Projection of a graph onto a strain subset: keep exactly the requested
//! paths, drop alignment records of other strains, and drop blocks that no
//! retained strain traverses. Entries and sequences are untouched, so every
//! retained path still reconstructs its genome exactly.

use vstd::prelude::*;

use crate::model::{
    blocks_eqv, blocks_live, blocks_rec_nodes_distinct, blocks_unique, entries_located,
    entries_matched, entry_contrib, entry_located, entry_matched, entry_nodes_distinct, has_block,
    has_rec, lemma_block_index_of, lemma_node_position_unique, lemma_rec_index_of,
    lemma_recon_congruence, name_in, node_in, nodes_unique, occurrence_of, path_disjoint_after,
    paths_unique, rec_nodes_distinct, rec_of, recon_entries, records_covered, recs_eqv, wf,
    AlnRecord, Block, Graph, Path,
};

verus! {

/// The records of strains in the set, in order.
pub open spec fn keep_recs(rs: Seq<AlnRecord>, ss: Seq<String>) -> Seq<AlnRecord>
    decreases rs.len(),
{
    if rs.len() == 0 {
        Seq::empty()
    } else {
        (if name_in(ss, rs[0].strain@) {
            seq![rs[0]]
        } else {
            Seq::empty()
        }) + keep_recs(rs.subrange(1, rs.len() as int), ss)
    }
}

/// The paths of strains in the set, in order.
pub open spec fn keep_paths(ps: Seq<Path>, ss: Seq<String>) -> Seq<Path>
    decreases ps.len(),
{
    if ps.len() == 0 {
        Seq::empty()
    } else {
        (if name_in(ss, ps[0].name@) {
            seq![ps[0]]
        } else {
            Seq::empty()
        }) + keep_paths(ps.subrange(1, ps.len() as int), ss)
    }
}

/// How many blocks are traversed by at least one strain of the set.
pub open spec fn touched_count(bs: Seq<Block>, ss: Seq<String>) -> int
    decreases bs.len(),
{
    if bs.len() == 0 {
        0
    } else {
        (if keep_recs(bs[0].records@, ss).len() > 0 {
            1int
        } else {
            0int
        }) + touched_count(bs.subrange(1, bs.len() as int), ss)
    }
}

/// The record is one of the originals, and names a kept strain.
pub open spec fn rec_from(rs: Seq<AlnRecord>, ss: Seq<String>, r: AlnRecord) -> bool {
    exists|j: int| 0 <= j < rs.len() && r == #[trigger] rs[j] && name_in(ss, rs[j].strain@)
}

pub proof fn lemma_keep_recs_elem(rs: Seq<AlnRecord>, ss: Seq<String>)
    ensures
        forall|a: int| 0 <= a < keep_recs(rs, ss).len() ==> rec_from(
            rs,
            ss,
            #[trigger] keep_recs(rs, ss)[a],
        ),
    decreases rs.len(),
{
    if rs.len() > 0 {
        let t = rs.subrange(1, rs.len() as int);
        lemma_keep_recs_elem(t, ss);
        assert forall|a: int| 0 <= a < keep_recs(rs, ss).len() implies rec_from(
            rs,
            ss,
            #[trigger] keep_recs(rs, ss)[a],
        ) by {
            let head: Seq<AlnRecord> = if name_in(ss, rs[0].strain@) {
                seq![rs[0]]
            } else {
                Seq::empty()
            };
            if a < head.len() {
                assert(keep_recs(rs, ss)[a] == rs[0]);
                assert(rec_from(rs, ss, keep_recs(rs, ss)[a]));
            } else {
                let a2 = a - head.len();
                assert(keep_recs(rs, ss)[a] == keep_recs(t, ss)[a2]);
                assert(rec_from(t, ss, keep_recs(t, ss)[a2]));
                let j2 = choose|j2: int|
                    0 <= j2 < t.len() && keep_recs(t, ss)[a2] == t[j2] && name_in(
                        ss,
                        t[j2].strain@,
                    );
                assert(t[j2] == rs[j2 + 1]);
                assert(rec_from(rs, ss, keep_recs(rs, ss)[a]));
            }
        }
    }
}

pub proof fn lemma_keep_recs_cover(rs: Seq<AlnRecord>, ss: Seq<String>)
    ensures
        forall|j: int|
            0 <= j < rs.len() && name_in(ss, (#[trigger] rs[j]).strain@) ==> exists|a: int|
                0 <= a < keep_recs(rs, ss).len() && keep_recs(rs, ss)[a] == rs[j],
    decreases rs.len(),
{
    if rs.len() > 0 {
        let t = rs.subrange(1, rs.len() as int);
        lemma_keep_recs_cover(t, ss);
        assert forall|j: int|
            0 <= j < rs.len() && name_in(ss, (#[trigger] rs[j]).strain@) implies exists|a: int|
            0 <= a < keep_recs(rs, ss).len() && keep_recs(rs, ss)[a] == rs[j] by {
            let head: Seq<AlnRecord> = if name_in(ss, rs[0].strain@) {
                seq![rs[0]]
            } else {
                Seq::empty()
            };
            if j == 0 {
                assert(keep_recs(rs, ss)[0] == rs[0]);
            } else {
                assert(t[j - 1] == rs[j]);
                let a2 = choose|a2: int|
                    0 <= a2 < keep_recs(t, ss).len() && keep_recs(t, ss)[a2] == t[j - 1];
                assert(keep_recs(rs, ss)[head.len() + a2] == rs[j]);
            }
        }
    }
}

pub proof fn lemma_keep_recs_distinct(rs: Seq<AlnRecord>, ss: Seq<String>)
    requires
        forall|i: int, j: int| #![trigger rs[i], rs[j]]
            0 <= i < j < rs.len() ==> rs[i].node != rs[j].node,
    ensures
        forall|i: int, j: int| #![trigger keep_recs(rs, ss)[i], keep_recs(rs, ss)[j]]
            0 <= i < j < keep_recs(rs, ss).len() ==> keep_recs(rs, ss)[i].node != keep_recs(
                rs,
                ss,
            )[j].node,
        forall|i: int| 0 <= i < keep_recs(rs, ss).len() ==> exists|j: int|
            0 <= j < rs.len() && #[trigger] keep_recs(rs, ss)[i] == rs[j],
        keep_recs(rs, ss).len() <= rs.len(),
    decreases rs.len(),
{
    lemma_keep_recs_elem(rs, ss);
    if rs.len() > 0 {
        let t = rs.subrange(1, rs.len() as int);
        lemma_keep_recs_distinct(t, ss);
        lemma_keep_recs_elem(t, ss);
        let head: Seq<AlnRecord> = if name_in(ss, rs[0].strain@) {
            seq![rs[0]]
        } else {
            Seq::empty()
        };
        assert forall|i: int, j: int|
            0 <= i < j < keep_recs(rs, ss).len() implies (#[trigger] keep_recs(rs, ss)[i]).node != (
        #[trigger] keep_recs(rs, ss)[j]).node by {
            if i < head.len() {
                assert(keep_recs(rs, ss)[i] == rs[0]);
                let b2 = j - head.len();
                assert(keep_recs(rs, ss)[j] == keep_recs(t, ss)[b2]);
                let j2 = choose|j2: int|
                    0 <= j2 < t.len() && keep_recs(t, ss)[b2] == t[j2] && name_in(
                        ss,
                        t[j2].strain@,
                    );
                assert(t[j2] == rs[j2 + 1]);
                assert(rs[0].node != rs[j2 + 1].node);
            } else {
                assert(keep_recs(rs, ss)[i] == keep_recs(t, ss)[i - head.len()]);
                assert(keep_recs(rs, ss)[j] == keep_recs(t, ss)[j - head.len()]);
            }
        }
    }
}

/// A block is touched exactly when one of its records names a kept strain.
pub proof fn lemma_keep_recs_nonempty(rs: Seq<AlnRecord>, ss: Seq<String>)
    ensures
        keep_recs(rs, ss).len() > 0 <==> exists|j: int|
            0 <= j < rs.len() && name_in(ss, (#[trigger] rs[j]).strain@),
    decreases rs.len(),
{
    if rs.len() > 0 {
        let t = rs.subrange(1, rs.len() as int);
        lemma_keep_recs_nonempty(t, ss);
        if keep_recs(rs, ss).len() > 0 {
            if !name_in(ss, rs[0].strain@) {
                let j = choose|j: int| 0 <= j < t.len() && name_in(ss, (#[trigger] t[j]).strain@);
                assert(rs[j + 1] == t[j]);
            }
        }
        if exists|j: int| 0 <= j < rs.len() && name_in(ss, (#[trigger] rs[j]).strain@) {
            let j = choose|j: int| 0 <= j < rs.len() && name_in(ss, (#[trigger] rs[j]).strain@);
            if j > 0 {
                assert(t[j - 1] == rs[j]);
            }
        }
    }
}

/// Keeping every record is the identity.
pub proof fn lemma_keep_recs_all(rs: Seq<AlnRecord>, ss: Seq<String>)
    requires
        forall|j: int| 0 <= j < rs.len() ==> name_in(ss, (#[trigger] rs[j]).strain@),
    ensures
        keep_recs(rs, ss) == rs,
    decreases rs.len(),
{
    if rs.len() > 0 {
        let t = rs.subrange(1, rs.len() as int);
        lemma_keep_recs_all(t, ss);
        assert(keep_recs(rs, ss) =~= rs);
    }
}

/// The path is one of the originals, and bears a kept strain name.
pub open spec fn path_from(ps: Seq<Path>, ss: Seq<String>, p: Path) -> bool {
    exists|k: int| 0 <= k < ps.len() && p == #[trigger] ps[k] && name_in(ss, ps[k].name@)
}

pub proof fn lemma_keep_paths_elem(ps: Seq<Path>, ss: Seq<String>)
    ensures
        forall|a: int| 0 <= a < keep_paths(ps, ss).len() ==> path_from(
            ps,
            ss,
            #[trigger] keep_paths(ps, ss)[a],
        ),
    decreases ps.len(),
{
    if ps.len() > 0 {
        let t = ps.subrange(1, ps.len() as int);
        lemma_keep_paths_elem(t, ss);
        assert forall|a: int| 0 <= a < keep_paths(ps, ss).len() implies path_from(
            ps,
            ss,
            #[trigger] keep_paths(ps, ss)[a],
        ) by {
            let head: Seq<Path> = if name_in(ss, ps[0].name@) {
                seq![ps[0]]
            } else {
                Seq::empty()
            };
            if a < head.len() {
                assert(keep_paths(ps, ss)[a] == ps[0]);
                assert(path_from(ps, ss, keep_paths(ps, ss)[a]));
            } else {
                let a2 = a - head.len();
                assert(keep_paths(ps, ss)[a] == keep_paths(t, ss)[a2]);
                assert(path_from(t, ss, keep_paths(t, ss)[a2]));
                let k2 = choose|k2: int|
                    0 <= k2 < t.len() && keep_paths(t, ss)[a2] == t[k2] && name_in(
                        ss,
                        t[k2].name@,
                    );
                assert(t[k2] == ps[k2 + 1]);
                assert(path_from(ps, ss, keep_paths(ps, ss)[a]));
            }
        }
    }
}

pub proof fn lemma_keep_paths_cover(ps: Seq<Path>, ss: Seq<String>)
    ensures
        forall|k: int|
            0 <= k < ps.len() && name_in(ss, (#[trigger] ps[k]).name@) ==> exists|a: int|
                0 <= a < keep_paths(ps, ss).len() && keep_paths(ps, ss)[a] == ps[k],
    decreases ps.len(),
{
    if ps.len() > 0 {
        let t = ps.subrange(1, ps.len() as int);
        lemma_keep_paths_cover(t, ss);
        assert forall|k: int|
            0 <= k < ps.len() && name_in(ss, (#[trigger] ps[k]).name@) implies exists|a: int|
            0 <= a < keep_paths(ps, ss).len() && keep_paths(ps, ss)[a] == ps[k] by {
            let head: Seq<Path> = if name_in(ss, ps[0].name@) {
                seq![ps[0]]
            } else {
                Seq::empty()
            };
            if k == 0 {
                assert(keep_paths(ps, ss)[0] == ps[0]);
            } else {
                assert(t[k - 1] == ps[k]);
                let a2 = choose|a2: int|
                    0 <= a2 < keep_paths(t, ss).len() && keep_paths(t, ss)[a2] == t[k - 1];
                assert(keep_paths(ps, ss)[head.len() + a2] == ps[k]);
            }
        }
    }
}

/// A name borne by a kept path is borne by an original path.
pub open spec fn name_of_path(ps: Seq<Path>, name: Seq<char>) -> bool {
    exists|k: int| 0 <= k < ps.len() && (#[trigger] ps[k]).name@ == name
}

pub proof fn lemma_keep_paths_unique(ps: Seq<Path>, ss: Seq<String>)
    requires
        paths_unique(ps),
    ensures
        paths_unique(keep_paths(ps, ss)),
        forall|nm: Seq<char>| name_of_path(keep_paths(ps, ss), nm) ==> name_of_path(ps, nm),
    decreases ps.len(),
{
    lemma_keep_paths_elem(ps, ss);
    assert forall|nm: Seq<char>| name_of_path(keep_paths(ps, ss), nm) implies name_of_path(
        ps,
        nm,
    ) by {
        let a = choose|a: int|
            0 <= a < keep_paths(ps, ss).len() && (#[trigger] keep_paths(ps, ss)[a]).name@ == nm;
        let k = choose|k: int|
            0 <= k < ps.len() && keep_paths(ps, ss)[a] == ps[k] && name_in(ss, ps[k].name@);
        assert(ps[k].name@ == nm);
    }
    if ps.len() > 0 {
        let t = ps.subrange(1, ps.len() as int);
        assert(paths_unique(t));
        lemma_keep_paths_unique(t, ss);
        lemma_keep_paths_elem(t, ss);
        let kp = keep_paths(ps, ss);
        let head: Seq<Path> = if name_in(ss, ps[0].name@) {
            seq![ps[0]]
        } else {
            Seq::empty()
        };
        assert forall|i: int, j: int| #![trigger kp[i], kp[j]]
            0 <= i < j < kp.len() implies kp[i].name@ != kp[j].name@ by {
            if i < head.len() {
                assert(kp[i] == ps[0]);
                let b2 = j - head.len();
                assert(kp[j] == keep_paths(t, ss)[b2]);
                let k2 = choose|k2: int|
                    0 <= k2 < t.len() && keep_paths(t, ss)[b2] == t[k2] && name_in(
                        ss,
                        t[k2].name@,
                    );
                assert(t[k2] == ps[k2 + 1]);
                assert(ps[0].name@ != ps[k2 + 1].name@);
            } else {
                assert(kp[i] == keep_paths(t, ss)[i - head.len()]);
                assert(kp[j] == keep_paths(t, ss)[j - head.len()]);
            }
        }
    }
}

/// Keeping every path is the identity.
pub proof fn lemma_keep_paths_all(ps: Seq<Path>, ss: Seq<String>)
    requires
        forall|k: int| 0 <= k < ps.len() ==> name_in(ss, (#[trigger] ps[k]).name@),
    ensures
        keep_paths(ps, ss) == ps,
    decreases ps.len(),
{
    if ps.len() > 0 {
        let t = ps.subrange(1, ps.len() as int);
        lemma_keep_paths_all(t, ss);
        assert(keep_paths(ps, ss) =~= ps);
    }
}

/// Node uniqueness carries over to the kept paths.
pub proof fn lemma_keep_paths_nodes(ps: Seq<Path>, ss: Seq<String>)
    requires
        paths_unique(ps),
        nodes_unique(ps),
    ensures
        nodes_unique(keep_paths(ps, ss)),
{
    let kp = keep_paths(ps, ss);
    lemma_keep_paths_elem(ps, ss);
    lemma_keep_paths_unique(ps, ss);
    assert forall|a: int| 0 <= a < kp.len() implies entry_nodes_distinct(
        (#[trigger] kp[a]).entries@,
    ) by {
        let k = choose|k: int|
            0 <= k < ps.len() && keep_paths(ps, ss)[a] == ps[k] && name_in(ss, ps[k].name@);
        assert(entry_nodes_distinct(ps[k].entries@));
    }
    assert forall|a: int| 0 <= a < kp.len() implies #[trigger] path_disjoint_after(kp, a) by {
        assert forall|y: int, nd: u64| #![trigger node_in(kp[y].entries@, nd)]
            a < y < kp.len() && node_in(kp[a].entries@, nd) implies !node_in(
            kp[y].entries@,
            nd,
        ) by {
            let ka = choose|k: int|
                0 <= k < ps.len() && keep_paths(ps, ss)[a] == ps[k] && name_in(ss, ps[k].name@);
            let ky = choose|k: int|
                0 <= k < ps.len() && keep_paths(ps, ss)[y] == ps[k] && name_in(ss, ps[k].name@);
            assert(kp[a].name@ != kp[y].name@);
            assert(ka != ky);
            if node_in(kp[y].entries@, nd) {
                let ia = choose|i: int|
                    0 <= i < ps[ka].entries@.len() && ps[ka].entries@[i].node == nd;
                let iy = choose|i: int|
                    0 <= i < ps[ky].entries@.len() && ps[ky].entries@[i].node == nd;
                lemma_node_position_unique(ps, ka, ia, ky, iy);
            }
        }
    }
}

/// Membership test of a strain name in the requested set.
pub fn contains_name(ss: &Vec<String>, name: &String) -> (r: bool)
    ensures
        r == name_in(ss@, name@),
{
    let mut k: usize = 0;
    while k < ss.len()
        invariant
            k <= ss@.len(),
            forall|a: int| 0 <= a < k ==> (#[trigger] ss@[a])@ != name@,
        decreases ss@.len() - k,
    {
        if ss[k] == *name {
            return true;
        }
        k += 1;
    }
    false
}

/// Keeps exactly the records of the requested strains, in order.
fn filter_records(rs: Vec<AlnRecord>, ss: &Vec<String>) -> (r: Vec<AlnRecord>)
    ensures
        r@ == keep_recs(rs@, ss@),
{
    let ghost rs0 = rs@;
    let mut rest = rs;
    let mut out: Vec<AlnRecord> = Vec::new();
    proof {
        assert(rs0.subrange(0, rs0.len() as int) =~= rs0);
    }
    while rest.len() > 0
        invariant
            rest@.len() <= rs0.len(),
            rest@ == rs0.subrange(rs0.len() - rest@.len(), rs0.len() as int),
            keep_recs(rs0, ss@) == out@ + keep_recs(rest@, ss@),
        decreases rest@.len(),
    {
        let ghost pre = rest@;
        let rec = rest.remove(0);
        proof {
            assert(rec == pre[0]);
            assert(rest@ =~= pre.subrange(1, pre.len() as int));
            assert forall|x: int| 0 <= x < rest@.len() implies rest@[x] == rs0[rs0.len()
                - rest@.len() + x] by {
                assert(rest@[x] == pre[x + 1]);
                assert(pre[x + 1] == rs0[rs0.len() - pre.len() + x + 1]);
            }
            assert(rest@ =~= rs0.subrange(rs0.len() - rest@.len(), rs0.len() as int));
        }
        if contains_name(ss, &rec.strain) {
            out.push(rec);
            proof {
                assert(keep_recs(pre, ss@) == seq![pre[0]] + keep_recs(rest@, ss@));
                assert(out@ + keep_recs(rest@, ss@) =~= keep_recs(rs0, ss@));
            }
        } else {
            proof {
                assert(keep_recs(pre, ss@) == Seq::<AlnRecord>::empty() + keep_recs(rest@, ss@));
                assert(Seq::<AlnRecord>::empty() + keep_recs(rest@, ss@) =~= keep_recs(
                    rest@,
                    ss@,
                ));
            }
        }
    }
    proof {
        assert(rest@.len() == 0);
        assert(keep_recs(rest@, ss@) =~= Seq::<AlnRecord>::empty());
        assert(out@ + keep_recs(rest@, ss@) =~= out@);
    }
    out
}

/// Keeps exactly the paths of the requested strains, in order.
fn filter_paths(ps: Vec<Path>, ss: &Vec<String>) -> (r: Vec<Path>)
    ensures
        r@ == keep_paths(ps@, ss@),
{
    let ghost ps0 = ps@;
    let mut rest = ps;
    let mut out: Vec<Path> = Vec::new();
    proof {
        assert(ps0.subrange(0, ps0.len() as int) =~= ps0);
    }
    while rest.len() > 0
        invariant
            rest@.len() <= ps0.len(),
            rest@ == ps0.subrange(ps0.len() - rest@.len(), ps0.len() as int),
            keep_paths(ps0, ss@) == out@ + keep_paths(rest@, ss@),
        decreases rest@.len(),
    {
        let ghost pre = rest@;
        let p = rest.remove(0);
        proof {
            assert(p == pre[0]);
            assert(rest@ =~= pre.subrange(1, pre.len() as int));
            assert forall|x: int| 0 <= x < rest@.len() implies rest@[x] == ps0[ps0.len()
                - rest@.len() + x] by {
                assert(rest@[x] == pre[x + 1]);
                assert(pre[x + 1] == ps0[ps0.len() - pre.len() + x + 1]);
            }
            assert(rest@ =~= ps0.subrange(ps0.len() - rest@.len(), ps0.len() as int));
        }
        if contains_name(ss, &p.name) {
            out.push(p);
            proof {
                assert(keep_paths(pre, ss@) == seq![pre[0]] + keep_paths(rest@, ss@));
                assert(out@ + keep_paths(rest@, ss@) =~= keep_paths(ps0, ss@));
            }
        } else {
            proof {
                assert(keep_paths(pre, ss@) == Seq::<Path>::empty() + keep_paths(rest@, ss@));
                assert(Seq::<Path>::empty() + keep_paths(rest@, ss@) =~= keep_paths(rest@, ss@));
            }
        }
    }
    proof {
        assert(rest@.len() == 0);
        assert(keep_paths(rest@, ss@) =~= Seq::<Path>::empty());
        assert(out@ + keep_paths(rest@, ss@) =~= out@);
    }
    out
}

/// The block is the projection of one of the first `m` originals.
pub open spec fn block_from_upto(bs: Seq<Block>, ss: Seq<String>, m: int, b: Block) -> bool {
    exists|k2: int|
        0 <= k2 < m && b.id == (#[trigger] bs[k2]).id && b.consensus@ == bs[k2].consensus@
            && b.records@ == keep_recs(bs[k2].records@, ss) && b.records@.len() > 0
}

/// Original block `k2` survives, projected, somewhere in the output.
pub open spec fn block_covers(nb: Seq<Block>, bs: Seq<Block>, ss: Seq<String>, k2: int) -> bool {
    exists|a: int|
        0 <= a < nb.len() && (#[trigger] nb[a]).id == bs[k2].id && nb[a].consensus@
            == bs[k2].consensus@ && nb[a].records@ == keep_recs(bs[k2].records@, ss)
}

/// Projects the graph onto the strain subset: keeps exactly the requested
/// paths, drops other strains' records, and drops untouched blocks. What a
/// kept path reconstructs does not change.
pub fn project(g: Graph, ss: &Vec<String>) -> (r: Graph)
    requires
        wf(g),
    ensures
        wf(r),
        r.paths@ == keep_paths(g.paths@, ss@),
        r.blocks@.len() == touched_count(g.blocks@, ss@),
        blocks_live(r.blocks@),
        forall|a: int|
            0 <= a < r.blocks@.len() ==> has_block(g.blocks@, (#[trigger] r.blocks@[a]).id),
        forall|q: int| 0 <= q < r.paths@.len() ==> recon_entries(
            r.blocks@,
            (#[trigger] r.paths@[q]).entries@,
        ) == recon_entries(g.blocks@, r.paths@[q].entries@),
        ((forall|k: int| 0 <= k < g.paths@.len() ==> name_in(ss@, (#[trigger] g.paths@[k]).name@))
            && blocks_live(g.blocks@)) ==> (r.paths@ == g.paths@ && blocks_eqv(
            r.blocks@,
            g.blocks@,
        )),
{
    let ghost g0 = g;
    let Graph { blocks, paths } = g;
    let new_paths = filter_paths(paths, ss);
    let ghost bs0 = blocks@;
    let mut rest = blocks;
    let mut nb: Vec<Block> = Vec::new();
    proof {
        assert(bs0.subrange(0, bs0.len() as int) =~= bs0);
    }
    while rest.len() > 0
        invariant
            blocks_unique(bs0),
            rest@.len() <= bs0.len(),
            rest@ == bs0.subrange(bs0.len() - rest@.len(), bs0.len() as int),
            touched_count(bs0, ss@) == nb@.len() + touched_count(rest@, ss@),
            blocks_unique(nb@),
            forall|a: int| 0 <= a < nb@.len() ==> block_from_upto(
                bs0,
                ss@,
                bs0.len() - rest@.len(),
                #[trigger] nb@[a],
            ),
            forall|k2: int|
                0 <= k2 < bs0.len() - rest@.len() && keep_recs(
                    (#[trigger] bs0[k2]).records@,
                    ss@,
                ).len() > 0 ==> block_covers(nb@, bs0, ss@, k2),
            (forall|k2: int|
                0 <= k2 < bs0.len() - rest@.len() ==> keep_recs((#[trigger] bs0[k2]).records@, ss@)
                    == bs0[k2].records@ && bs0[k2].records@.len() > 0) ==> (nb@.len() == bs0.len()
                - rest@.len() && (forall|a: int|
                0 <= a < nb@.len() ==> (#[trigger] nb@[a]).id == bs0[a].id && nb@[a].consensus@
                    == bs0[a].consensus@ && nb@[a].records@ == bs0[a].records@)),
        decreases rest@.len(),
    {
        let ghost pre = rest@;
        let ghost done = bs0.len() - pre.len();
        let b = rest.remove(0);
        proof {
            assert(b == pre[0]);
            assert(pre[0] == bs0[done]);
            assert(rest@ =~= pre.subrange(1, pre.len() as int));
            assert forall|x: int| 0 <= x < rest@.len() implies rest@[x] == bs0[bs0.len()
                - rest@.len() + x] by {
                assert(rest@[x] == pre[x + 1]);
                assert(pre[x + 1] == bs0[bs0.len() - pre.len() + x + 1]);
            }
            assert(rest@ =~= bs0.subrange(bs0.len() - rest@.len(), bs0.len() as int));
            assert(keep_recs(pre[0].records@, ss@) == keep_recs(bs0[done].records@, ss@));
        }
        let Block { id, consensus, records } = b;
        let kept = filter_records(records, ss);
        let ghost old_nb = nb@;
        if kept.len() > 0 {
            nb.push(Block { id, consensus, records: kept });
            proof {
                assert(nb@ == old_nb.push(nb@[old_nb.len() as int]));
                assert forall|a: int| 0 <= a < nb@.len() implies block_from_upto(
                    bs0,
                    ss@,
                    done + 1,
                    #[trigger] nb@[a],
                ) by {
                    if a < old_nb.len() {
                        assert(nb@[a] == old_nb[a]);
                        assert(block_from_upto(bs0, ss@, done, old_nb[a]));
                    } else {
                        assert(nb@[a].id == bs0[done].id && nb@[a].consensus@
                            == bs0[done].consensus@ && nb@[a].records@ == keep_recs(
                            bs0[done].records@,
                            ss@,
                        ));
                        assert(block_from_upto(bs0, ss@, done + 1, nb@[a]));
                    }
                }
                assert forall|k2: int|
                    0 <= k2 < done + 1 && keep_recs((#[trigger] bs0[k2]).records@, ss@).len()
                        > 0 implies block_covers(nb@, bs0, ss@, k2) by {
                    if k2 < done {
                        assert(block_covers(old_nb, bs0, ss@, k2));
                        let a = choose|a: int|
                            0 <= a < old_nb.len() && (#[trigger] old_nb[a]).id == bs0[k2].id
                                && old_nb[a].consensus@ == bs0[k2].consensus@ && old_nb[a].records@
                                == keep_recs(bs0[k2].records@, ss@);
                        assert(nb@[a] == old_nb[a]);
                        assert(block_covers(nb@, bs0, ss@, k2));
                    } else {
                        assert(nb@[old_nb.len() as int].id == bs0[k2].id);
                        assert(block_covers(nb@, bs0, ss@, k2));
                    }
                }
                assert forall|i: int, j: int| #![trigger nb@[i], nb@[j]]
                    0 <= i < j < nb@.len() implies nb@[i].id != nb@[j].id by {
                    if j < old_nb.len() {
                    } else {
                        assert(block_from_upto(bs0, ss@, done, nb@[i]));
                        let k2 = choose|k2: int|
                            0 <= k2 < done && nb@[i].id == (#[trigger] bs0[k2]).id
                                && nb@[i].consensus@ == bs0[k2].consensus@ && nb@[i].records@
                                == keep_recs(bs0[k2].records@, ss@) && nb@[i].records@.len() > 0;
                        assert(bs0[k2].id != bs0[done].id);
                    }
                }
            }
        } else {
            proof {
                assert forall|k2: int|
                    0 <= k2 < done + 1 && keep_recs((#[trigger] bs0[k2]).records@, ss@).len()
                        > 0 implies block_covers(nb@, bs0, ss@, k2) by {
                    if k2 < done {
                        assert(block_covers(nb@, bs0, ss@, k2));
                    }
                }
            }
        }
    }
    let r = Graph { blocks: nb, paths: new_paths };
    proof {
        assert(rest@.len() == 0);
        assert(touched_count(rest@, ss@) == 0);
        lemma_project_wf(g0, ss@, r);
    }
    r
}

/// The projected graph is well-formed and reconstruction-preserving; with
/// every strain kept and every block live, it is the input unchanged.
#[verifier::rlimit(100)]
#[verifier::spinoff_prover]
proof fn lemma_project_wf(g0: Graph, ss: Seq<String>, r: Graph)
    requires
        wf(g0),
        r.paths@ == keep_paths(g0.paths@, ss),
        blocks_unique(r.blocks@),
        forall|a: int| 0 <= a < r.blocks@.len() ==> block_from_upto(
            g0.blocks@,
            ss,
            g0.blocks@.len() as int,
            #[trigger] r.blocks@[a],
        ),
        forall|k2: int|
            0 <= k2 < g0.blocks@.len() && keep_recs((#[trigger] g0.blocks@[k2]).records@, ss).len()
                > 0 ==> block_covers(r.blocks@, g0.blocks@, ss, k2),
        (forall|k2: int|
            0 <= k2 < g0.blocks@.len() ==> keep_recs((#[trigger] g0.blocks@[k2]).records@, ss)
                == g0.blocks@[k2].records@ && g0.blocks@[k2].records@.len() > 0) ==> (
        r.blocks@.len() == g0.blocks@.len() && (forall|a: int|
            0 <= a < r.blocks@.len() ==> (#[trigger] r.blocks@[a]).id == g0.blocks@[a].id
                && r.blocks@[a].consensus@ == g0.blocks@[a].consensus@ && r.blocks@[a].records@
                == g0.blocks@[a].records@)),
    ensures
        wf(r),
        blocks_live(r.blocks@),
        forall|a: int|
            0 <= a < r.blocks@.len() ==> has_block(g0.blocks@, (#[trigger] r.blocks@[a]).id),
        forall|q: int| 0 <= q < r.paths@.len() ==> recon_entries(
            r.blocks@,
            (#[trigger] r.paths@[q]).entries@,
        ) == recon_entries(g0.blocks@, r.paths@[q].entries@),
        ((forall|k: int| 0 <= k < g0.paths@.len() ==> name_in(ss, (#[trigger] g0.paths@[k]).name@))
            && blocks_live(g0.blocks@)) ==> (r.paths@ == g0.paths@ && blocks_eqv(
            r.blocks@,
            g0.blocks@,
        )),
{
    lemma_keep_paths_elem(g0.paths@, ss);
    lemma_keep_paths_unique(g0.paths@, ss);
    lemma_keep_paths_nodes(g0.paths@, ss);
    assert(paths_unique(r.paths@));
    assert(nodes_unique(r.paths@));
    assert forall|bi: int| 0 <= bi < r.blocks@.len() implies rec_nodes_distinct(
        #[trigger] r.blocks@[bi],
    ) && r.blocks@[bi].records@.len() > 0 by {
        assert(block_from_upto(g0.blocks@, ss, g0.blocks@.len() as int, r.blocks@[bi]));
        let k2 = choose|k2: int|
            0 <= k2 < g0.blocks@.len() && r.blocks@[bi].id == (#[trigger] g0.blocks@[k2]).id
                && r.blocks@[bi].consensus@ == g0.blocks@[k2].consensus@ && r.blocks@[bi].records@
                == keep_recs(g0.blocks@[k2].records@, ss) && r.blocks@[bi].records@.len() > 0;
        assert(rec_nodes_distinct(g0.blocks@[k2]));
        lemma_keep_recs_distinct(g0.blocks@[k2].records@, ss);
    }
    assert(blocks_live(r.blocks@));
    assert forall|a: int| 0 <= a < r.blocks@.len() implies has_block(
        g0.blocks@,
        (#[trigger] r.blocks@[a]).id,
    ) by {
        assert(block_from_upto(g0.blocks@, ss, g0.blocks@.len() as int, r.blocks@[a]));
        let k2 = choose|k2: int|
            0 <= k2 < g0.blocks@.len() && r.blocks@[a].id == (#[trigger] g0.blocks@[k2]).id
                && r.blocks@[a].consensus@ == g0.blocks@[k2].consensus@ && r.blocks@[a].records@
                == keep_recs(g0.blocks@[k2].records@, ss) && r.blocks@[a].records@.len() > 0;
        assert(has_block(g0.blocks@, g0.blocks@[k2].id));
    }
    // Each kept entry resolves to the very record it had, so contributions
    // are unchanged.
    assert forall|q: int, i: int|
        0 <= q < r.paths@.len() && 0 <= i < r.paths@[q].entries@.len() implies {
        let e = #[trigger] r.paths@[q].entries@[i];
        entry_located(r.blocks@, e) && entry_matched(r.blocks@, e, r.paths@[q].name@)
            && entry_contrib(r.blocks@, e) == entry_contrib(g0.blocks@, e)
    } by {
        let e = r.paths@[q].entries@[i];
        assert(path_from(g0.paths@, ss, r.paths@[q]));
        let k = choose|k: int|
            0 <= k < g0.paths@.len() && r.paths@[q] == #[trigger] g0.paths@[k] && name_in(
                ss,
                g0.paths@[k].name@,
            );
        assert(entry_located(g0.blocks@, g0.paths@[k].entries@[i]));
        assert(entry_matched(g0.blocks@, g0.paths@[k].entries@[i], g0.paths@[k].name@));
        let ob = crate::model::block_of(g0.blocks@, e.block);
        let bidx = crate::model::block_index(g0.blocks@, e.block);
        let orec = rec_of(ob, e.node);
        assert(orec.strain@ == g0.paths@[k].name@ && orec.strand == e.strand);
        assert(name_in(ss, orec.strain@));
        let rj = crate::model::rec_index(ob, e.node);
        assert(ob.records@[rj] == orec);
        lemma_keep_recs_cover(ob.records@, ss);
        assert(exists|a: int|
            0 <= a < keep_recs(ob.records@, ss).len() && keep_recs(ob.records@, ss)[a]
                == ob.records@[rj]);
        assert(keep_recs(ob.records@, ss).len() > 0);
        assert(0 <= bidx < g0.blocks@.len() && g0.blocks@[bidx] == ob);
        assert(block_covers(r.blocks@, g0.blocks@, ss, bidx));
        let a2 = choose|a2: int|
            0 <= a2 < r.blocks@.len() && (#[trigger] r.blocks@[a2]).id == g0.blocks@[bidx].id
                && r.blocks@[a2].consensus@ == g0.blocks@[bidx].consensus@
                && r.blocks@[a2].records@ == keep_recs(g0.blocks@[bidx].records@, ss);
        lemma_block_index_of(r.blocks@, a2);
        assert(crate::model::block_of(r.blocks@, e.block) == r.blocks@[a2]);
        let ja = choose|ja: int|
            0 <= ja < keep_recs(ob.records@, ss).len() && keep_recs(ob.records@, ss)[ja]
                == ob.records@[rj];
        assert(r.blocks@[a2].records@[ja] == orec);
        assert(has_rec(r.blocks@[a2], e.node));
        let jb = crate::model::rec_index(r.blocks@[a2], e.node);
        assert(r.blocks@[a2].records@[jb].node == e.node);
        lemma_keep_recs_elem(ob.records@, ss);
        assert(rec_from(ob.records@, ss, keep_recs(ob.records@, ss)[jb]));
        let j0 = choose|j0: int|
            0 <= j0 < ob.records@.len() && keep_recs(ob.records@, ss)[jb] == #[trigger] ob.records@[j0]
                && name_in(ss, ob.records@[j0].strain@);
        lemma_rec_index_of(ob, rj);
        if j0 != rj {
            assert(rec_nodes_distinct(ob));
            assert(ob.records@[j0].node != ob.records@[rj].node);
        }
        assert(rec_of(r.blocks@[a2], e.node) == orec);
    }
    assert(entries_located(r));
    assert(entries_matched(r));
    assert forall|q: int| 0 <= q < r.paths@.len() implies recon_entries(
        r.blocks@,
        (#[trigger] r.paths@[q]).entries@,
    ) == recon_entries(g0.blocks@, r.paths@[q].entries@) by {
        lemma_recon_congruence(r.blocks@, g0.blocks@, r.paths@[q].entries@);
    }
    // No orphan records: a kept record's occurrence lies on a kept path.
    assert forall|bi: int, rj: int|
        0 <= bi < r.blocks@.len() && 0 <= rj < r.blocks@[bi].records@.len() implies occurrence_of(
            r,
            (#[trigger] r.blocks@[bi].records@[rj]).node,
            r.blocks@[bi].id,
        ) by {
        assert(block_from_upto(g0.blocks@, ss, g0.blocks@.len() as int, r.blocks@[bi]));
        let k2 = choose|k2: int|
            0 <= k2 < g0.blocks@.len() && r.blocks@[bi].id == (#[trigger] g0.blocks@[k2]).id
                && r.blocks@[bi].consensus@ == g0.blocks@[k2].consensus@ && r.blocks@[bi].records@
                == keep_recs(g0.blocks@[k2].records@, ss) && r.blocks@[bi].records@.len() > 0;
        let ob = g0.blocks@[k2];
        lemma_keep_recs_elem(ob.records@, ss);
        assert(rec_from(ob.records@, ss, keep_recs(ob.records@, ss)[rj]));
        let j0 = choose|j0: int|
            0 <= j0 < ob.records@.len() && keep_recs(ob.records@, ss)[rj] == #[trigger] ob.records@[j0]
                && name_in(ss, ob.records@[j0].strain@);
        assert(occurrence_of(g0, ob.records@[j0].node, ob.id));
        let (pk, m): (int, int) = choose|pk: int, m: int|
            0 <= pk < g0.paths@.len() && 0 <= m < g0.paths@[pk].entries@.len()
                && (#[trigger] g0.paths@[pk].entries@[m]).node == ob.records@[j0].node
                && g0.paths@[pk].entries@[m].block == ob.id;
        // The record of that occurrence is this record, so the path bears
        // the record's strain and is kept.
        assert(entry_matched(g0.blocks@, g0.paths@[pk].entries@[m], g0.paths@[pk].name@));
        lemma_block_index_of(g0.blocks@, k2);
        lemma_rec_index_of(ob, j0);
        assert(rec_of(ob, ob.records@[j0].node) == ob.records@[j0]);
        assert(g0.paths@[pk].name@ == ob.records@[j0].strain@);
        assert(name_in(ss, g0.paths@[pk].name@));
        lemma_keep_paths_cover(g0.paths@, ss);
        let a = choose|a: int|
            0 <= a < keep_paths(g0.paths@, ss).len() && keep_paths(g0.paths@, ss)[a]
                == g0.paths@[pk];
        assert(r.paths@[a].entries@[m].node == ob.records@[j0].node);
        assert(r.paths@[a].entries@[m].block == r.blocks@[bi].id);
        assert(occurrence_of(r, r.blocks@[bi].records@[rj].node, r.blocks@[bi].id));
    }
    assert(records_covered(r));
    // Keeping everything is the identity.
    if (forall|k: int| 0 <= k < g0.paths@.len() ==> name_in(ss, (#[trigger] g0.paths@[k]).name@))
        && blocks_live(g0.blocks@) {
        lemma_keep_paths_all(g0.paths@, ss);
        assert forall|k2: int| 0 <= k2 < g0.blocks@.len() implies keep_recs(
            (#[trigger] g0.blocks@[k2]).records@,
            ss,
        ) == g0.blocks@[k2].records@ && g0.blocks@[k2].records@.len() > 0 by {
            let ob = g0.blocks@[k2];
            assert forall|j: int| 0 <= j < ob.records@.len() implies name_in(
                ss,
                (#[trigger] ob.records@[j]).strain@,
            ) by {
                assert(occurrence_of(g0, ob.records@[j].node, ob.id));
                let (pk, m): (int, int) = choose|pk: int, m: int|
                    0 <= pk < g0.paths@.len() && 0 <= m < g0.paths@[pk].entries@.len()
                        && (#[trigger] g0.paths@[pk].entries@[m]).node == ob.records@[j].node
                        && g0.paths@[pk].entries@[m].block == ob.id;
                assert(entry_matched(g0.blocks@, g0.paths@[pk].entries@[m], g0.paths@[pk].name@));
                lemma_block_index_of(g0.blocks@, k2);
                lemma_rec_index_of(ob, j);
                assert(name_in(ss, g0.paths@[pk].name@));
            }
            lemma_keep_recs_all(ob.records@, ss);
        }
        assert(blocks_eqv(r.blocks@, g0.blocks@));
    }
}

} // verus!
