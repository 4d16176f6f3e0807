//! Laws of the group operations, stated over the models that their contracts use.
use vstd::prelude::*;
use crate::groups::{
    has_other_member, index_after_add, next_after_add, next_after_remove, relabel, stamps_after_add,
    stamps_after_remove, stamps_after_union, GroupInfo, absorb, brings_new, id_listed, lists_groups, names, reconcile, groups_invariants, index_after_remove, index_after_union, members_in, next_after_union,
};

verus! {

/// `x` and `y` are both known and share a group.
pub open spec fn same_group(index: Map<Seq<char>, usize>, x: Seq<char>, y: Seq<char>) -> bool {
    index.contains_key(x) && index.contains_key(y) && index[x] == index[y]
}

/// Every operation keeps the four invariants: adding a user, merging two users' groups and
/// making a user solo, at any time `now`, turn groups that satisfy them into groups that
/// satisfy them again.
pub proof fn lemma_operations_keep_invariants(
    index: Map<Seq<char>, usize>,
    stamps: Map<usize, i64>,
    next: usize,
    a: Seq<char>,
    b: Seq<char>,
    now: i64,
)
    requires
        groups_invariants(index, stamps, next),
        next < usize::MAX - 1,
    ensures
        groups_invariants(
            index_after_add(index, next, a),
            stamps_after_add(stamps, index, next, a, now),
            next_after_add(index, next, a),
        ),
        groups_invariants(
            index_after_union(index, next, a, b),
            stamps_after_union(stamps, index, next, a, b, now),
            next_after_union(index, next, a, b),
        ),
        groups_invariants(
            index_after_remove(index, next, a),
            stamps_after_remove(stamps, index, next, a, now),
            next_after_remove(index, next, a),
        ),
{
    lemma_add_keeps_invariants(index, stamps, next, a, now);
    lemma_union_keeps_invariants(index, stamps, next, a, b, now);
    lemma_remove_keeps_invariants(index, stamps, next, a, now);
}

proof fn lemma_union_keeps_invariants(
    index: Map<Seq<char>, usize>,
    stamps: Map<usize, i64>,
    next: usize,
    a: Seq<char>,
    b: Seq<char>,
    now: i64,
)
    requires
        groups_invariants(index, stamps, next),
        next < usize::MAX - 1,
    ensures
        groups_invariants(
            index_after_union(index, next, a, b),
            stamps_after_union(stamps, index, next, a, b, now),
            next_after_union(index, next, a, b),
        ),
{
    lemma_add_keeps_invariants(index, stamps, next, a, now);
    let i1 = index_after_add(index, next, a);
    let s1 = stamps_after_add(stamps, index, next, a, now);
    let n1 = next_after_add(index, next, a);
    lemma_add_keeps_invariants(i1, s1, n1, b, now);
    let i2 = index_after_add(i1, n1, b);
    let s2 = stamps_after_add(s1, i1, n1, b, now);
    let n2 = next_after_add(i1, n1, b);
    assert(i2.contains_key(a) && i2.contains_key(b));
    let ga = i2[a];
    let gb = i2[b];
    let iu = relabel(i2, gb, ga);
    let su = if ga == gb { s2 } else { s2.remove(gb).insert(ga, now) };
    assert(iu == index_after_union(index, next, a, b));
    assert(su == stamps_after_union(stamps, index, next, a, b, now));
    reveal(groups_invariants);
    assert(iu.contains_key(a) && iu[a] == ga);
    assert forall|g: usize| #[trigger] su.contains_key(g) implies exists|w: Seq<char>| iu.contains_key(w) && #[trigger] iu[w] == g by {
        if g == ga {
            assert(iu.contains_key(a) && iu[a] == g);
        } else {
            let w = choose|w: Seq<char>| i2.contains_key(w) && #[trigger] i2[w] == g;
            assert(iu.contains_key(w) && iu[w] == g);
        }
    }
}

proof fn lemma_remove_keeps_invariants(
    index: Map<Seq<char>, usize>,
    stamps: Map<usize, i64>,
    next: usize,
    a: Seq<char>,
    now: i64,
)
    requires
        groups_invariants(index, stamps, next),
        next < usize::MAX,
    ensures
        groups_invariants(
            index_after_remove(index, next, a),
            stamps_after_remove(stamps, index, next, a, now),
            next_after_remove(index, next, a),
        ),
{
    reveal(groups_invariants);
    if index.contains_key(a) {
        let g = index[a];
        let ir = index.insert(a, next);
        let sr = if has_other_member(index, g, a) { stamps.insert(g, now).insert(next, now) } else { stamps.remove(g).insert(next, now) };
        assert(ir.contains_key(a) && ir[a] == next);
        assert forall|w: Seq<char>| #[trigger] ir.contains_key(w) implies sr.contains_key(ir[w]) by {
            if w != a && index[w] == g {
                assert(has_other_member(index, g, a));
            }
        }
        assert forall|h: usize| #[trigger] sr.contains_key(h) implies exists|w: Seq<char>| ir.contains_key(w) && #[trigger] ir[w] == h by {
            if h == next {
                assert(ir.contains_key(a) && ir[a] == h);
            } else if h == g {
                let v = choose|v: Seq<char>| v != a && index.contains_key(v) && #[trigger] index[v] == g;
                assert(ir.contains_key(v) && ir[v] == h);
            } else {
                let w = choose|w: Seq<char>| index.contains_key(w) && #[trigger] index[w] == h;
                assert(w != a);
                assert(ir.contains_key(w) && ir[w] == h);
            }
        }
    }
}

proof fn lemma_add_keeps_invariants(
    index: Map<Seq<char>, usize>,
    stamps: Map<usize, i64>,
    next: usize,
    a: Seq<char>,
    now: i64,
)
    requires
        groups_invariants(index, stamps, next),
        next < usize::MAX,
    ensures
        groups_invariants(
            index_after_add(index, next, a),
            stamps_after_add(stamps, index, next, a, now),
            next_after_add(index, next, a),
        ),
{
    reveal(groups_invariants);
    if !index.contains_key(a) {
        let i1 = index.insert(a, next);
        let s1 = stamps.insert(next, now);
        assert forall|g: usize| #[trigger] s1.contains_key(g) implies exists|w: Seq<char>| i1.contains_key(w) && #[trigger] i1[w] == g by {
            if g == next {
                assert(i1.contains_key(a) && i1[a] == g);
            } else {
                let w = choose|w: Seq<char>| index.contains_key(w) && #[trigger] index[w] == g;
                assert(i1.contains_key(w) && i1[w] == g);
            }
        }
    }
}

/// Merging is symmetric: `union(a, b)` and `union(b, a)` know the same users and
/// connect the same pairs.
pub proof fn lemma_union_symmetric(
    index: Map<Seq<char>, usize>,
    stamps: Map<usize, i64>,
    next: usize,
    a: Seq<char>,
    b: Seq<char>,
)
    requires
        groups_invariants(index, stamps, next),
        next < usize::MAX - 1,
    ensures
        index_after_union(index, next, a, b).dom() == index_after_union(index, next, b, a).dom(),
        forall|x: Seq<char>, y: Seq<char>|
            #[trigger] same_group(index_after_union(index, next, a, b), x, y)
                == #[trigger] same_group(index_after_union(index, next, b, a), x, y),
{
    reveal(groups_invariants);
    assert forall|x: Seq<char>| #[trigger] index.contains_key(x) implies index[x] < next by {
        assert(stamps.contains_key(index[x]));
    }
    let ab = index_after_union(index, next, a, b);
    let ba = index_after_union(index, next, b, a);
    assert(ab.dom() =~= ba.dom());
}

/// Merging is transitive: after `union(a, b)` and then `union(b, c)`, `a` and `c`
/// share a group.
pub proof fn lemma_union_transitive(
    index: Map<Seq<char>, usize>,
    next: usize,
    a: Seq<char>,
    b: Seq<char>,
    c: Seq<char>,
)
    requires
        next < usize::MAX - 3,
    ensures
        ({
            let i1 = index_after_union(index, next, a, b);
            let n1 = next_after_union(index, next, a, b);
            same_group(index_after_union(i1, n1, b, c), a, c)
        }),
{
}

/// Removing a known user leaves it alone in a new group, apart from its former group,
/// while the other former members stay together; an unknown user stays unknown.
pub proof fn lemma_remove_makes_singleton(
    index: Map<Seq<char>, usize>,
    stamps: Map<usize, i64>,
    next: usize,
    u: Seq<char>,
)
    requires
        groups_invariants(index, stamps, next),
    ensures
        index.contains_key(u) ==> {
            let after = index_after_remove(index, next, u);
            &&& members_in(after, after[u]) == set![u]
            &&& after[u] != index[u]
            &&& forall|x: Seq<char>, y: Seq<char>|
                x != u && y != u && #[trigger] same_group(index, x, u) && #[trigger] same_group(index, y, u)
                    ==> same_group(after, x, y)
        },
        !index.contains_key(u) ==> index_after_remove(index, next, u) == index,
{
    reveal(groups_invariants);
    if index.contains_key(u) {
        let after = index_after_remove(index, next, u);
        assert forall|x: Seq<char>| #[trigger] index.contains_key(x) implies index[x] < next by {
            assert(stamps.contains_key(index[x]));
        }
        assert(members_in(after, after[u]) =~= set![u]);
    }
}

/// What `reconcile` makes of the first `n` listed groups: the users and groups among them.
proof fn lemma_reconcile_listed_prefix(
    index: Map<Seq<char>, usize>,
    stamps: Map<usize, i64>,
    next: usize,
    gs: Seq<(usize, GroupInfo)>,
    n: int,
)
    requires
        groups_invariants(index, stamps, next),
        lists_groups(gs, index, stamps),
        0 <= n <= gs.len(),
    ensures
        reconcile(gs.take(n)).0 == Map::new(
            |u: Seq<char>| index.contains_key(u) && id_listed(gs.take(n), index[u]),
            |u: Seq<char>| index[u],
        ),
        reconcile(gs.take(n)).1 == Map::new(
            |g: usize| stamps.contains_key(g) && id_listed(gs.take(n), g),
            |g: usize| stamps[g],
        ),
    decreases n,
{
    if n == 0 {
        assert(reconcile(gs.take(0)).0 =~= Map::new(
            |u: Seq<char>| index.contains_key(u) && id_listed(gs.take(0), index[u]),
            |u: Seq<char>| index[u],
        ));
        assert(reconcile(gs.take(0)).1 =~= Map::new(
            |g: usize| stamps.contains_key(g) && id_listed(gs.take(0), g),
            |g: usize| stamps[g],
        ));
    } else {
        lemma_reconcile_listed_prefix(index, stamps, next, gs, n - 1);
        reveal(groups_invariants);
        let pre = gs.take(n - 1);
        let cur = gs.take(n);
        assert(cur.drop_last() =~= pre);
        let prev = reconcile(pre);
        let id = gs[n - 1].0;
        let info = gs[n - 1].1;
        let ms = names(info.members@);
        assert(cur.last() == gs[n - 1]);
        assert(stamps.contains_key(id));
        assert(id < next);
        assert forall|g: usize| #[trigger] id_listed(cur, g) <==> id_listed(pre, g) || g == id by {
            if id_listed(cur, g) {
                let j = choose|j: int| 0 <= j < cur.len() && #[trigger] cur[j].0 == g;
                if j < n - 1 {
                    assert(pre[j].0 == g);
                }
            }
            if id_listed(pre, g) {
                let j = choose|j: int| 0 <= j < pre.len() && #[trigger] pre[j].0 == g;
                assert(cur[j].0 == g);
            }
            if g == id {
                assert(cur[n - 1].0 == g);
            }
        }
        if id_listed(pre, id) {
            let j = choose|j: int| 0 <= j < pre.len() && #[trigger] pre[j].0 == id;
            assert(gs[j].0 == id);
        }
        let w = choose|w: Seq<char>| index.contains_key(w) && #[trigger] index[w] == id;
        assert(members_in(index, id).contains(w));
        assert(ms.to_set().contains(w));
        let k = choose|k: int| 0 <= k < ms.len() && ms[k] == w;
        assert(!prev.0.contains_key(ms[k]));
        assert(brings_new(prev.0, ms));
        assert forall|u: Seq<char>| ms.contains(u) <==> index.contains_key(u) && index[u] == id by {
            if ms.contains(u) {
                assert(ms.to_set().contains(u));
            }
            if index.contains_key(u) && index[u] == id {
                assert(members_in(index, id).contains(u));
            }
        }
        assert(reconcile(cur).0 =~= Map::new(
            |u: Seq<char>| index.contains_key(u) && id_listed(cur, index[u]),
            |u: Seq<char>| index[u],
        ));
        assert(reconcile(cur).1 =~= Map::new(
            |g: usize| stamps.contains_key(g) && id_listed(cur, g),
            |g: usize| stamps[g],
        ));
    }
}

/// Rebuilding is idempotent: valid groups, listed as `get_groups` lists them, come back
/// from `from_maps` with the same index and the same live groups.
pub proof fn lemma_from_maps_idempotent(
    index: Map<Seq<char>, usize>,
    stamps: Map<usize, i64>,
    next: usize,
    gs: Seq<(usize, GroupInfo)>,
)
    requires
        groups_invariants(index, stamps, next),
        lists_groups(gs, index, stamps),
    ensures
        reconcile(gs).0 == index,
        reconcile(gs).1 == stamps,
{
    lemma_reconcile_listed_prefix(index, stamps, next, gs, gs.len() as int);
    assert(gs.take(gs.len() as int) =~= gs);
    reveal(groups_invariants);
    assert(reconcile(gs).0 =~= index);
    assert(reconcile(gs).1 =~= stamps);
}

} // verus!
