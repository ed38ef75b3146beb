//! Filtered pre-order traversal of a syntax tree.
//!
//! A tree is built by the caller from the parser's output; each node carries
//! the caller's `id` for it, its kind, whether it was declared in a system
//! header, and its children in the parser's order.
use vstd::prelude::*;

verus! {

/// One node of a syntax tree.
pub struct AstNode {
    pub id: usize,
    pub kind: i32,
    pub in_system_header: bool,
    pub children: Vec<AstNode>,
}

/// The kinds to skip, as a sequence, if any were given.
pub open spec fn ignore_view(ignore: &Option<Vec<i32>>) -> Option<Seq<i32>> {
    match ignore {
        Some(v) => Some(v@),
        None => None,
    }
}

/// A child is entered unless it was declared in a system header or its kind
/// is one to skip.
pub open spec fn admitted(c: AstNode, ignore: Option<Seq<i32>>) -> bool {
    !c.in_system_header && !(ignore matches Some(ks) && ks.contains(c.kind))
}

/// The nodes that the traversal visits from `n`: `n` itself, then, for each
/// admitted child in order, what it visits from that child.
pub open spec fn visited(n: AstNode, ignore: Option<Seq<i32>>) -> Seq<AstNode>
    decreases n,
{
    seq![n] + visited_children(n.children@, ignore)
}

/// What the traversal visits from the admitted nodes of `cs`, in order.
pub open spec fn visited_children(cs: Seq<AstNode>, ignore: Option<Seq<i32>>) -> Seq<AstNode>
    decreases cs,
{
    if cs.len() == 0 {
        seq![]
    } else {
        visited_children(cs.drop_last(), ignore) + (if admitted(cs.last(), ignore) {
            visited(cs.last(), ignore)
        } else {
            seq![]
        })
    }
}

/// The ids of `ns`.
pub open spec fn ids(ns: Seq<AstNode>) -> Seq<usize> {
    ns.map_values(|n: AstNode| n.id)
}

fn is_ignored(ignore: &Option<Vec<i32>>, kind: i32) -> (r: bool)
    ensures
        r == (ignore_view(ignore) matches Some(ks) && ks.contains(kind)),
{
    match ignore {
        None => false,
        Some(ks) => {
            let mut k: usize = 0;
            while k < ks.len()
                invariant
                    ignore_view(ignore) == Some(ks@),
                    k <= ks@.len(),
                    forall|j: int| 0 <= j < k ==> ks@[j] != kind,
                decreases ks@.len() - k,
            {
                if ks[k] == kind {
                    assert(ks@[k as int] == kind);
                    return true;
                }
                k = k + 1;
            }
            assert(ignore_view(ignore) == Some(ks@));
            false
        },
    }
}

fn visit_into(node: &AstNode, ignore: &Option<Vec<i32>>, out: &mut Vec<usize>)
    ensures
        final(out)@ == old(out)@ + ids(visited(*node, ignore_view(ignore))),
    decreases node,
{
    let ghost ig = ignore_view(ignore);
    let ghost start = out@;
    let ghost cs = node.children@;
    out.push(node.id);
    let mut k: usize = 0;
    assert(cs.subrange(0, 0) =~= Seq::<AstNode>::empty());
    assert(out@ =~= start + ids(seq![*node] + visited_children(cs.subrange(0, 0), ig)));
    while k < node.children.len()
        invariant
            ig == ignore_view(ignore),
            cs == node.children@,
            k <= cs.len(),
            out@ == start + ids(seq![*node] + visited_children(cs.subrange(0, k as int), ig)),
        decreases cs.len() - k,
    {
        let ghost prev = out@;
        let ghost before = visited_children(cs.subrange(0, k as int), ig);
        assert(cs.subrange(0, k + 1).drop_last() =~= cs.subrange(0, k as int));
        assert(cs.subrange(0, k + 1).last() == cs[k as int]);
        let c = &node.children[k];
        if !c.in_system_header && !is_ignored(ignore, c.kind) {
            assert(decreases_to!(node => node.children));
            visit_into(c, ignore, out);
            assert(out@ =~= start + ids(seq![*node] + before + visited(*c, ig)));
        } else {
            assert(out@ =~= start + ids(seq![*node] + before + seq![]));
        }
        k = k + 1;
    }
    assert(cs.subrange(0, k as int) =~= cs);
}

/// Every node reachable from `entity` through admitted children, in
/// pre-order, as ids: the node itself comes first whatever its own kind or
/// origin; a child declared in a system header, or whose kind is in
/// `ignore_kind`, is skipped with all that lies below it.
pub fn entity_children_all(entity: &AstNode, ignore_kind: &Option<Vec<i32>>) -> (r: Vec<usize>)
    ensures
        r@ == ids(visited(*entity, ignore_view(ignore_kind))),
{
    let mut out: Vec<usize> = Vec::new();
    visit_into(entity, ignore_kind, &mut out);
    assert(out@ =~= ids(visited(*entity, ignore_view(ignore_kind))));
    out
}

proof fn lemma_children_admitted(cs: Seq<AstNode>, ig: Option<Seq<i32>>)
    ensures
        forall|k: int|
            0 <= k < visited_children(cs, ig).len() ==> admitted(
                #[trigger] visited_children(cs, ig)[k],
                ig,
            ),
    decreases cs,
{
    if cs.len() > 0 {
        let init = visited_children(cs.drop_last(), ig);
        lemma_children_admitted(cs.drop_last(), ig);
        if admitted(cs.last(), ig) {
            let last = visited(cs.last(), ig);
            lemma_visits_root_then_admitted(cs.last(), ig);
            assert forall|k: int|
                0 <= k < visited_children(cs, ig).len() implies admitted(
                #[trigger] visited_children(cs, ig)[k],
                ig,
            ) by {
                if k < init.len() {
                    assert(visited_children(cs, ig)[k] == init[k]);
                } else {
                    assert(visited_children(cs, ig)[k] == last[k - init.len()]);
                }
            }
        } else {
            assert(visited_children(cs, ig) =~= init);
        }
    }
}

/// The traversal visits the node it starts from first, whatever its kind or
/// origin; every other node it visits was admitted: declared outside system
/// headers and of no kind to skip.
pub proof fn lemma_visits_root_then_admitted(n: AstNode, ig: Option<Seq<i32>>)
    ensures
        visited(n, ig).len() >= 1,
        visited(n, ig)[0] == n,
        forall|k: int| 1 <= k < visited(n, ig).len() ==> admitted(#[trigger] visited(n, ig)[k], ig),
    decreases n,
{
    lemma_children_admitted(n.children@, ig);
    assert forall|k: int| 1 <= k < visited(n, ig).len() implies admitted(
        #[trigger] visited(n, ig)[k],
        ig,
    ) by {
        assert(visited(n, ig)[k] == visited_children(n.children@, ig)[k - 1]);
    }
}

proof fn lemma_skipped_in_children(cs: Seq<AstNode>, ds: Seq<AstNode>, i: int, ig: Option<Seq<i32>>)
    requires
        cs.len() == ds.len(),
        0 <= i < cs.len(),
        forall|j: int| 0 <= j < cs.len() && j != i ==> cs[j] == ds[j],
        !admitted(cs[i], ig),
        !admitted(ds[i], ig),
    ensures
        visited_children(cs, ig) == visited_children(ds, ig),
    decreases cs.len(),
{
    if i < cs.len() - 1 {
        lemma_skipped_in_children(cs.drop_last(), ds.drop_last(), i, ig);
        assert(cs.last() == ds.last());
    } else {
        assert(cs.drop_last() =~= ds.drop_last());
    }
}

/// Nothing below a skipped child reaches the result: two nodes that differ
/// only in one child, skipped in both, give the same ids.
pub proof fn lemma_skipped_child_unseen(a: AstNode, b: AstNode, i: int, ig: Option<Seq<i32>>)
    requires
        a.id == b.id,
        a.children@.len() == b.children@.len(),
        0 <= i < a.children@.len(),
        forall|j: int| 0 <= j < a.children@.len() && j != i ==> a.children@[j] == b.children@[j],
        !admitted(a.children@[i], ig),
        !admitted(b.children@[i], ig),
    ensures
        ids(visited(a, ig)) == ids(visited(b, ig)),
{
    lemma_skipped_in_children(a.children@, b.children@, i, ig);
    let vc = visited_children(a.children@, ig);
    assert(ids(visited(a, ig)) =~= seq![a.id] + ids(vc));
    assert(ids(visited(b, ig)) =~= seq![b.id] + ids(vc));
}

/// Where the block of child `i` begins in the traversal of `n`.
pub open spec fn child_offset(n: AstNode, i: int, ig: Option<Seq<i32>>) -> int {
    1 + visited_children(n.children@.subrange(0, i), ig).len() as int
}

proof fn lemma_children_prefix(cs: Seq<AstNode>, a: int, b: int, ig: Option<Seq<i32>>)
    requires
        0 <= a <= b <= cs.len(),
    ensures
        visited_children(cs.subrange(0, a), ig).len() <= visited_children(cs.subrange(0, b), ig).len(),
        visited_children(cs.subrange(0, b), ig).subrange(
            0,
            visited_children(cs.subrange(0, a), ig).len() as int,
        ) == visited_children(cs.subrange(0, a), ig),
    decreases b - a,
{
    if a < b {
        lemma_children_prefix(cs, a, b - 1, ig);
        assert(cs.subrange(0, b).drop_last() =~= cs.subrange(0, b - 1));
        let p = visited_children(cs.subrange(0, a), ig);
        let q = visited_children(cs.subrange(0, b - 1), ig);
        let r = visited_children(cs.subrange(0, b), ig);
        assert(r.subrange(0, p.len() as int) =~= q.subrange(0, p.len() as int));
    } else {
        let r = visited_children(cs.subrange(0, b), ig);
        assert(r.subrange(0, r.len() as int) =~= r);
    }
}

/// Pre-order: after the node itself, the traversal of each admitted child
/// stands as one block, and the blocks of siblings come in the parser's
/// order.
pub proof fn lemma_preorder_blocks(n: AstNode, i: int, j: int, ig: Option<Seq<i32>>)
    requires
        0 <= i < j <= n.children@.len(),
        admitted(n.children@[i], ig),
    ensures
        visited(n, ig)[0] == n,
        1 <= child_offset(n, i, ig),
        visited(n, ig).subrange(
            child_offset(n, i, ig),
            child_offset(n, i, ig) + visited(n.children@[i], ig).len(),
        ) == visited(n.children@[i], ig),
        child_offset(n, i, ig) + visited(n.children@[i], ig).len() <= child_offset(n, j, ig),
        child_offset(n, j, ig) <= visited(n, ig).len(),
{
    let cs = n.children@;
    let c = cs[i];
    assert(cs.subrange(0, i + 1).drop_last() =~= cs.subrange(0, i));
    assert(cs.subrange(0, i + 1).last() == c);
    let before = visited_children(cs.subrange(0, i), ig);
    let upto = visited_children(cs.subrange(0, i + 1), ig);
    assert(upto == before + visited(c, ig));
    lemma_children_prefix(cs, i + 1, j, ig);
    lemma_children_prefix(cs, j, cs.len() as int, ig);
    lemma_children_prefix(cs, i + 1, cs.len() as int, ig);
    assert(cs.subrange(0, cs.len() as int) =~= cs);
    let all = visited_children(cs, ig);
    assert(all.subrange(0, upto.len() as int) == upto);
    assert(visited(n, ig).subrange(
        child_offset(n, i, ig),
        child_offset(n, i, ig) + visited(c, ig).len(),
    ) =~= upto.subrange(before.len() as int, upto.len() as int));
    assert(upto.subrange(before.len() as int, upto.len() as int) =~= visited(c, ig));
}

/// The node reached from `n` by following the child indices of `p`, if each
/// is in range.
pub open spec fn node_at(n: AstNode, p: Seq<int>) -> Option<AstNode>
    decreases p.len(),
{
    if p.len() == 0 {
        Some(n)
    } else if 0 <= p[0] < n.children@.len() {
        node_at(n.children@[p[0]], p.drop_first())
    } else {
        None
    }
}

/// Every child passed on the way from `n` down the indices of `p` is admitted.
pub open spec fn path_admitted(n: AstNode, p: Seq<int>, ignore: Option<Seq<i32>>) -> bool
    decreases p.len(),
{
    p.len() == 0 || (0 <= p[0] < n.children@.len() && admitted(n.children@[p[0]], ignore)
        && path_admitted(n.children@[p[0]], p.drop_first(), ignore))
}

/// The paths from `n` of the nodes that the traversal visits, in its order.
pub open spec fn visited_paths(n: AstNode, ignore: Option<Seq<i32>>) -> Seq<Seq<int>>
    decreases n,
{
    seq![Seq::<int>::empty()] + child_paths(n.children@, ignore)
}

/// The paths, below their parent, of what the traversal visits from the
/// admitted nodes of `cs`, where `cs` are the first children of that parent.
pub open spec fn child_paths(cs: Seq<AstNode>, ignore: Option<Seq<i32>>) -> Seq<Seq<int>>
    decreases cs,
{
    if cs.len() == 0 {
        seq![]
    } else {
        child_paths(cs.drop_last(), ignore) + (if admitted(cs.last(), ignore) {
            visited_paths(cs.last(), ignore).map_values(|q: Seq<int>| seq![cs.len() - 1] + q)
        } else {
            seq![]
        })
    }
}

/// The paths of the first `m` children's traversals match the nodes visited,
/// pass admitted children only, and have their parent path earlier.
#[verifier::opaque]
spec fn child_paths_match(n: AstNode, m: int, ig: Option<Seq<i32>>) -> bool {
    let cs = n.children@.subrange(0, m);
    let ps = child_paths(cs, ig);
    let vs = visited_children(cs, ig);
    &&& ps.len() == vs.len()
    &&& forall|k: int|
        0 <= k < ps.len() ==> node_at(n, #[trigger] ps[k]) == Some(vs[k]) && path_admitted(
            n,
            ps[k],
            ig,
        ) && ps[k].len() >= 1 && (ps[k].len() == 1 || exists|j: int|
            0 <= j < k && #[trigger] ps[j] == ps[k].drop_last())
}

/// Each path of the first `m` children's traversals starts with the index of
/// one of those children.
#[verifier::opaque]
spec fn child_paths_heads(n: AstNode, m: int, ig: Option<Seq<i32>>) -> bool {
    let ps = child_paths(n.children@.subrange(0, m), ig);
    forall|k: int| 0 <= k < ps.len() ==> (#[trigger] ps[k]).len() >= 1 && 0 <= ps[k][0] < m
}

/// Among the paths of the first `m` children's traversals, siblings come in
/// the order of their parent's children.
#[verifier::opaque]
spec fn child_paths_ordered(n: AstNode, m: int, ig: Option<Seq<i32>>) -> bool {
    let ps = child_paths(n.children@.subrange(0, m), ig);
    forall|j: int, k: int|
        0 <= j < k < ps.len() && (#[trigger] ps[j]).len() == (#[trigger] ps[k]).len()
            && ps[j].drop_last() == ps[k].drop_last() ==> ps[j].last() < ps[k].last()
}

/// The paths of the traversal of `n` match the nodes visited, pass admitted
/// children only, and have their parent path earlier.
#[verifier::opaque]
spec fn tree_paths_ok(n: AstNode, ig: Option<Seq<i32>>) -> bool {
    let vp = visited_paths(n, ig);
    &&& vp.len() == visited(n, ig).len()
    &&& vp[0] == Seq::<int>::empty()
    &&& forall|k: int|
        0 <= k < vp.len() ==> node_at(n, #[trigger] vp[k]) == Some(visited(n, ig)[k])
            && path_admitted(n, vp[k], ig)
    &&& forall|k: int|
        #![trigger vp[k]]
        1 <= k < vp.len() ==> exists|j: int| 0 <= j < k && #[trigger] vp[j] == vp[k].drop_last()
}

/// Below `n`, only its own path is empty, and siblings come in the order of
/// their parent's children.
#[verifier::opaque]
spec fn tree_paths_order(n: AstNode, ig: Option<Seq<i32>>) -> bool {
    let vp = visited_paths(n, ig);
    &&& forall|k: int| 1 <= k < vp.len() ==> (#[trigger] vp[k]).len() >= 1
    &&& forall|j: int, k: int|
        0 <= j < k < vp.len() && (#[trigger] vp[j]).len() == (#[trigger] vp[k]).len() && vp[j].len()
            >= 1 && vp[j].drop_last() == vp[k].drop_last() ==> vp[j].last() < vp[k].last()
}

proof fn lemma_step_shape(n: AstNode, m: int, ig: Option<Seq<i32>>)
    requires
        0 < m <= n.children@.len(),
    ensures
        ({
            let cs = n.children@.subrange(0, m);
            let prev = n.children@.subrange(0, m - 1);
            let c = n.children@[m - 1];
            &&& admitted(c, ig) ==> child_paths(cs, ig) == child_paths(prev, ig) + visited_paths(
                c,
                ig,
            ).map_values(|q: Seq<int>| seq![m - 1] + q)
            &&& admitted(c, ig) ==> visited_children(cs, ig) == visited_children(prev, ig)
                + visited(c, ig)
            &&& !admitted(c, ig) ==> child_paths(cs, ig) == child_paths(prev, ig)
            &&& !admitted(c, ig) ==> visited_children(cs, ig) == visited_children(prev, ig)
        }),
{
    let cs = n.children@.subrange(0, m);
    assert(cs.drop_last() =~= n.children@.subrange(0, m - 1));
    assert(cs.last() == n.children@[m - 1]);
    assert(cs.len() - 1 == m - 1);
}

proof fn lemma_step_match(n: AstNode, m: int, ig: Option<Seq<i32>>)
    requires
        0 < m <= n.children@.len(),
        child_paths_match(n, m - 1, ig),
        admitted(n.children@[m - 1], ig) ==> tree_paths_ok(n.children@[m - 1], ig),
        admitted(n.children@[m - 1], ig) ==> tree_paths_order(n.children@[m - 1], ig),
    ensures
        child_paths_match(n, m, ig),
{
    reveal(child_paths_match);
    lemma_step_shape(n, m, ig);
    let cs = n.children@.subrange(0, m);
    let ps = child_paths(cs, ig);
    let vs = visited_children(cs, ig);
    let prev = n.children@.subrange(0, m - 1);
    let pp = child_paths(prev, ig);
    let pv = visited_children(prev, ig);
    let c = n.children@[m - 1];
    if admitted(c, ig) {
        reveal(tree_paths_ok);
        reveal(tree_paths_order);
        let qs = visited_paths(c, ig);
        let block = qs.map_values(|q: Seq<int>| seq![m - 1] + q);
        assert(ps == pp + block);
        assert forall|k: int| 0 <= k < ps.len() implies node_at(n, #[trigger] ps[k]) == Some(vs[k])
            && path_admitted(n, ps[k], ig) && ps[k].len() >= 1 && (
        ps[k].len() == 1 || exists|j: int| 0 <= j < k && #[trigger] ps[j] == ps[k].drop_last()) by {
            if k < pp.len() {
                assert(ps[k] == pp[k]);
                assert(vs[k] == pv[k]);
                if pp[k].len() != 1 {
                    let j = choose|j: int| 0 <= j < k && #[trigger] pp[j] == pp[k].drop_last();
                    assert(ps[j] == pp[j]);
                }
            } else {
                let kk = k - pp.len();
                let q = qs[kk];
                let p = seq![m - 1] + q;
                assert(ps[k] == block[kk]);
                assert(block[kk] == p);
                assert(vs[k] == visited(c, ig)[kk]);
                assert(p.drop_first() =~= q);
                assert(p[0] == m - 1);
                assert(node_at(n, p) == node_at(c, q));
                assert(path_admitted(n, p, ig) == path_admitted(c, q, ig));
                if p.len() != 1 {
                    assert(q.len() > 0);
                    assert(kk != 0);
                    let jj = choose|jj: int| 0 <= jj < kk && #[trigger] qs[jj] == q.drop_last();
                    let j = pp.len() + jj;
                    assert(ps[j] == block[jj]);
                    assert(block[jj] =~= p.drop_last());
                }
            }
        }
    }
}

proof fn lemma_step_order(n: AstNode, m: int, ig: Option<Seq<i32>>)
    requires
        0 < m <= n.children@.len(),
        child_paths_heads(n, m - 1, ig),
        child_paths_ordered(n, m - 1, ig),
        admitted(n.children@[m - 1], ig) ==> tree_paths_order(n.children@[m - 1], ig),
    ensures
        child_paths_ordered(n, m, ig),
{
    reveal(child_paths_ordered);
    lemma_step_shape(n, m, ig);
    let cs = n.children@.subrange(0, m);
    let ps = child_paths(cs, ig);
    let prev = n.children@.subrange(0, m - 1);
    let pp = child_paths(prev, ig);
    let c = n.children@[m - 1];
    if admitted(c, ig) {
        reveal(tree_paths_order);
        reveal(child_paths_heads);
        let qs = visited_paths(c, ig);
        let block = qs.map_values(|q: Seq<int>| seq![m - 1] + q);
        assert(ps == pp + block);
        assert forall|j: int, k: int|
            0 <= j < k < ps.len() && (#[trigger] ps[j]).len() == (#[trigger] ps[k]).len()
                && ps[j].drop_last() == ps[k].drop_last() implies ps[j].last() < ps[k].last() by {
            if k < pp.len() {
                assert(ps[j] == pp[j] && ps[k] == pp[k]);
            } else if j < pp.len() {
                let kk = k - pp.len();
                assert(ps[j] == pp[j]);
                assert(ps[k] == block[kk]);
                assert(block[kk] == seq![m - 1] + qs[kk]);
                assert(0 <= pp[j][0] < m - 1);
                if ps[k].len() > 1 {
                    assert(ps[k].drop_last()[0] == m - 1);
                    assert(ps[j].drop_last()[0] == ps[j][0]);
                }
            } else {
                let jj = j - pp.len();
                let kk = k - pp.len();
                let pj = seq![m - 1] + qs[jj];
                let pk = seq![m - 1] + qs[kk];
                assert(ps[j] == block[jj] && block[jj] == pj);
                assert(ps[k] == block[kk] && block[kk] == pk);
                assert(qs[jj].len() == qs[kk].len());
                if qs[kk].len() > 0 {
                    assert(qs[jj].drop_last() =~= pj.drop_last().drop_first());
                    assert(qs[kk].drop_last() =~= pk.drop_last().drop_first());
                    assert(pj.last() == qs[jj].last());
                    assert(pk.last() == qs[kk].last());
                } else {
                    assert(kk >= 1);
                }
            }
        }
    }
}

proof fn lemma_step_heads(n: AstNode, m: int, ig: Option<Seq<i32>>)
    requires
        0 < m <= n.children@.len(),
        child_paths_heads(n, m - 1, ig),
    ensures
        child_paths_heads(n, m, ig),
{
    reveal(child_paths_heads);
    lemma_step_shape(n, m, ig);
    let ps = child_paths(n.children@.subrange(0, m), ig);
    let pp = child_paths(n.children@.subrange(0, m - 1), ig);
    let c = n.children@[m - 1];
    if admitted(c, ig) {
        let qs = visited_paths(c, ig);
        let block = qs.map_values(|q: Seq<int>| seq![m - 1] + q);
        assert(ps == pp + block);
        assert forall|k: int| 0 <= k < ps.len() implies (#[trigger] ps[k]).len() >= 1 && 0 <= ps[k][0]
            < m by {
            if k < pp.len() {
                assert(ps[k] == pp[k]);
            } else {
                assert(ps[k] == block[k - pp.len()]);
            }
        }
    }
}

proof fn lemma_child_paths(n: AstNode, m: int, ig: Option<Seq<i32>>)
    requires
        0 <= m <= n.children@.len(),
    ensures
        child_paths_match(n, m, ig),
        child_paths_heads(n, m, ig),
        child_paths_ordered(n, m, ig),
    decreases n, m,
{
    if m > 0 {
        lemma_child_paths(n, m - 1, ig);
        let c = n.children@[m - 1];
        if admitted(c, ig) {
            assert(decreases_to!(n => n.children));
            lemma_tree_paths(c, ig);
        }
        lemma_step_match(n, m, ig);
        lemma_step_heads(n, m, ig);
        lemma_step_order(n, m, ig);
    } else {
        reveal(child_paths_match);
        reveal(child_paths_heads);
        reveal(child_paths_ordered);
        assert(n.children@.subrange(0, 0) =~= Seq::<AstNode>::empty());
    }
}

proof fn lemma_tree_from_children(n: AstNode, ig: Option<Seq<i32>>)
    requires
        child_paths_match(n, n.children@.len() as int, ig),
        child_paths_heads(n, n.children@.len() as int, ig),
        child_paths_ordered(n, n.children@.len() as int, ig),
    ensures
        tree_paths_ok(n, ig),
        tree_paths_order(n, ig),
{
    reveal(child_paths_match);
    reveal(child_paths_heads);
    reveal(child_paths_ordered);
    reveal(tree_paths_ok);
    reveal(tree_paths_order);
    let cs = n.children@;
    assert(cs.subrange(0, cs.len() as int) =~= cs);
    let ps = child_paths(cs, ig);
    let vp = visited_paths(n, ig);
    assert(vp[0] == Seq::<int>::empty());
    assert(node_at(n, vp[0]) == Some(n));
    assert forall|k: int| 0 <= k < vp.len() implies node_at(n, #[trigger] vp[k]) == Some(
        visited(n, ig)[k],
    ) && path_admitted(n, vp[k], ig) by {
        if k > 0 {
            assert(vp[k] == ps[k - 1]);
            assert(visited(n, ig)[k] == visited_children(cs, ig)[k - 1]);
        }
    }
    assert forall|k: int| #![trigger vp[k]] 1 <= k < vp.len() implies exists|j: int|
        0 <= j < k && #[trigger] vp[j] == vp[k].drop_last() by {
        assert(vp[k] == ps[k - 1]);
        if ps[k - 1].len() == 1 {
            assert(vp[0] =~= vp[k].drop_last());
        } else {
            let j = choose|j: int| 0 <= j < k - 1 && #[trigger] ps[j] == ps[k - 1].drop_last();
            assert(vp[j + 1] == ps[j]);
        }
    }
    assert forall|k: int| 1 <= k < vp.len() implies (#[trigger] vp[k]).len() >= 1 by {
        assert(vp[k] == ps[k - 1]);
    }
    assert forall|j: int, k: int|
        0 <= j < k < vp.len() && (#[trigger] vp[j]).len() == (#[trigger] vp[k]).len() && vp[j].len()
            >= 1 && vp[j].drop_last() == vp[k].drop_last() implies vp[j].last() < vp[k].last() by {
        assert(vp[j] == ps[j - 1]);
        assert(vp[k] == ps[k - 1]);
    }
}

proof fn lemma_tree_paths(n: AstNode, ig: Option<Seq<i32>>)
    ensures
        tree_paths_ok(n, ig),
        tree_paths_order(n, ig),
    decreases n, n.children@.len() + 1,
{
    lemma_child_paths(n, n.children@.len() as int, ig);
    lemma_tree_from_children(n, ig);
}

/// The k-th node that the traversal of `n` visits is the node at the k-th of
/// its paths. Each such path passes admitted children only: nothing declared
/// in a system header, nor anything of a kind to skip, stands on the way to a
/// visited node. The first path is `n` itself, the parent of every later
/// node has been visited before it, and siblings are visited in the order of
/// their parent's children.
pub proof fn lemma_visited_paths(n: AstNode, ig: Option<Seq<i32>>)
    ensures
        visited_paths(n, ig).len() == visited(n, ig).len(),
        visited_paths(n, ig)[0] == Seq::<int>::empty(),
        forall|k: int|
            0 <= k < visited_paths(n, ig).len() ==> node_at(n, #[trigger] visited_paths(n, ig)[k])
                == Some(visited(n, ig)[k]) && path_admitted(n, visited_paths(n, ig)[k], ig),
        forall|k: int|
            #![trigger visited_paths(n, ig)[k]]
            1 <= k < visited_paths(n, ig).len() ==> exists|j: int|
                0 <= j < k && #[trigger] visited_paths(n, ig)[j] == visited_paths(n, ig)[k].drop_last(),
        forall|k: int|
            1 <= k < visited_paths(n, ig).len() ==> (#[trigger] visited_paths(n, ig)[k]).len() >= 1,
        forall|j: int, k: int|
            0 <= j < k < visited_paths(n, ig).len() && (#[trigger] visited_paths(n, ig)[j]).len() == (
            #[trigger] visited_paths(n, ig)[k]).len() && visited_paths(n, ig)[j].len() >= 1
                && visited_paths(n, ig)[j].drop_last() == visited_paths(n, ig)[k].drop_last()
                ==> visited_paths(n, ig)[j].last() < visited_paths(n, ig)[k].last(),
{
    lemma_tree_paths(n, ig);
    reveal(tree_paths_ok);
    reveal(tree_paths_order);
}

} // verus!
