//! Union-find over user names for one channel: which users share memory, and when
//! each sharing group was last changed.
use vstd::prelude::*;
use crate::assoc::{
    assoc, has_key, kept, keyed_by_chars, keys_unique, lemma_assoc_all, lemma_assoc_at, lemma_assoc_filter_start,
    lemma_assoc_filter_step, lemma_assoc_map_values, lemma_assoc_push, lemma_assoc_remove, lemma_assoc_update,
    lemma_keyed_by_chars_push, lemma_keyed_by_chars_remove,
};
use crate::clock::now_nanos;

verus! {

/// Groups whose last change is at least this old (in nanoseconds: sixteen hours) expire.
pub const USER_GROUP_RETENTION_NANOS: i64 = 57_600_000_000_000;

/// A group as it is stored or reported: its members and the time (nanoseconds since the
/// Unix epoch) of its last change.
#[derive(Debug, Clone)]
pub struct GroupInfo {
    pub members: Vec<String>,
    pub last_modified: i64,
}

/// Disjoint groups of users.
///
/// `user_to_group` is the authoritative index from each user to the id of its group;
/// the members of a group are exactly the users that the index maps to its id.
/// `groups` holds each live group's id with the time of its last change.
#[derive(Debug)]
pub struct GroupSets {
    user_to_group: Vec<(String, usize)>,
    groups: Vec<(usize, i64)>,
    next_group_id: usize,
}

/// The names in `v`, each as its characters.
pub open spec fn names(v: Seq<String>) -> Seq<Seq<char>> {
    v.map_values(|s: String| s@)
}

/// A group last changed at `stamp` is still fresh at `now`.
pub open spec fn is_fresh(stamp: i64, now: i64) -> bool {
    stamp as int > now as int - USER_GROUP_RETENTION_NANOS as int
}

/// Group `g` has at least two members.
pub open spec fn has_two_members(index: Map<Seq<char>, usize>, g: usize) -> bool {
    exists|u: Seq<char>, v: Seq<char>|
        u != v && index.contains_key(u) && index.contains_key(v) && #[trigger] index[u] == g && #[trigger] index[v] == g
}

/// Whether group `g`, last changed at `stamp`, survives expiry at `now`: it is fresh and
/// not a singleton.
pub open spec fn survives(index: Map<Seq<char>, usize>, now: i64) -> spec_fn(usize, i64) -> bool {
    |g: usize, stamp: i64| is_fresh(stamp, now) && has_two_members(index, g)
}

/// Whether a user, indexed to group `g`, stays after expiry: its group survives.
pub open spec fn in_live_group(stamps: Map<usize, i64>) -> spec_fn(Seq<char>, usize) -> bool {
    |u: Seq<char>, g: usize| stamps.contains_key(g)
}

/// The index after the members `ms` of group `id` are taken in: those not indexed yet
/// join `id`; the others keep the group they already have.
pub open spec fn absorb(index: Map<Seq<char>, usize>, ms: Seq<Seq<char>>, id: usize) -> Map<Seq<char>, usize> {
    Map::new(|u: Seq<char>| index.contains_key(u) || ms.contains(u), |u: Seq<char>| if index.contains_key(u) { index[u] } else { id })
}

/// Some member in `ms` is not indexed yet.
pub open spec fn brings_new(index: Map<Seq<char>, usize>, ms: Seq<Seq<char>>) -> bool {
    exists|k: int| 0 <= k < ms.len() && !index.contains_key(#[trigger] ms[k])
}

/// Some group in `gs` has id `id`.
pub open spec fn id_listed(gs: Seq<(usize, GroupInfo)>, id: usize) -> bool {
    exists|j: int| 0 <= j < gs.len() && #[trigger] gs[j].0 == id
}

/// What `from_maps` makes of stored groups, taken in order: each user belongs to the
/// first group that lists it; a group whose id was listed before, whose id leaves no room
/// for a next one, or that keeps no member of its own, is dropped.
pub open spec fn reconcile(gs: Seq<(usize, GroupInfo)>) -> (Map<Seq<char>, usize>, Map<usize, i64>)
    decreases gs.len(),
{
    if gs.len() == 0 {
        (Map::empty(), Map::empty())
    } else {
        let prev = reconcile(gs.drop_last());
        let id = gs.last().0;
        let info = gs.last().1;
        let ms = names(info.members@);
        if id == usize::MAX || id_listed(gs.drop_last(), id) || !brings_new(prev.0, ms) {
            prev
        } else {
            (absorb(prev.0, ms, id), prev.1.insert(id, info.last_modified))
        }
    }
}

/// A stored group as plain values: its id, its members' names and its last change.
pub open spec fn group_view(p: (usize, GroupInfo)) -> (usize, Seq<Seq<char>>, i64) {
    (p.0, names(p.1.members@), p.1.last_modified)
}

/// Some group in `vs` has id `id`.
pub open spec fn id_listed_view(vs: Seq<(usize, Seq<Seq<char>>, i64)>, id: usize) -> bool {
    exists|j: int| 0 <= j < vs.len() && #[trigger] vs[j].0 == id
}

/// `reconcile` over groups given as plain values.
pub open spec fn reconcile_views(vs: Seq<(usize, Seq<Seq<char>>, i64)>) -> (Map<Seq<char>, usize>, Map<usize, i64>)
    decreases vs.len(),
{
    if vs.len() == 0 {
        (Map::empty(), Map::empty())
    } else {
        let prev = reconcile_views(vs.drop_last());
        let id = vs.last().0;
        let ms = vs.last().1;
        if id == usize::MAX || id_listed_view(vs.drop_last(), id) || !brings_new(prev.0, ms) {
            prev
        } else {
            (absorb(prev.0, ms, id), prev.1.insert(id, vs.last().2))
        }
    }
}

/// `reconcile` reads a group only through its plain values.
pub proof fn lemma_reconcile_views(gs: Seq<(usize, GroupInfo)>)
    ensures
        reconcile(gs) == reconcile_views(gs.map_values(|p: (usize, GroupInfo)| group_view(p))),
    decreases gs.len(),
{
    let vs = gs.map_values(|p: (usize, GroupInfo)| group_view(p));
    if gs.len() > 0 {
        let pre = gs.drop_last();
        lemma_reconcile_views(pre);
        assert(vs.drop_last() =~= pre.map_values(|p: (usize, GroupInfo)| group_view(p)));
        let id = gs.last().0;
        assert(vs.last() == group_view(gs.last()));
        if id_listed(pre, id) {
            let j = choose|j: int| 0 <= j < pre.len() && #[trigger] pre[j].0 == id;
            assert(vs.drop_last()[j].0 == id);
        }
        if id_listed_view(vs.drop_last(), id) {
            let j = choose|j: int| 0 <= j < vs.drop_last().len() && #[trigger] vs.drop_last()[j].0 == id;
            assert(pre[j].0 == id);
        }
    }
}

proof fn lemma_reconcile(gs: Seq<(usize, GroupInfo)>)
    ensures
        forall|u: Seq<char>| #[trigger] reconcile(gs).0.contains_key(u) ==> reconcile(gs).1.contains_key(reconcile(gs).0[u]),
        forall|g: usize| #[trigger] reconcile(gs).1.contains_key(g) ==> exists|u: Seq<char>|
            reconcile(gs).0.contains_key(u) && #[trigger] reconcile(gs).0[u] == g,
        forall|g: usize| #[trigger] reconcile(gs).1.contains_key(g) ==> id_listed(gs, g) && g != usize::MAX,
    decreases gs.len(),
{
    if gs.len() > 0 {
        let pre = gs.drop_last();
        lemma_reconcile(pre);
        let prev = reconcile(pre);
        let id = gs.last().0;
        let ms = names(gs.last().1.members@);
        let r = reconcile(gs);
        assert forall|g: usize| #[trigger] prev.1.contains_key(g) implies id_listed(gs, g) by {
            let j = choose|j: int| 0 <= j < pre.len() && #[trigger] pre[j].0 == g;
            assert(gs[j].0 == g);
        }
        if !(id == usize::MAX || id_listed(pre, id) || !brings_new(prev.0, ms)) {
            let k = choose|k: int| 0 <= k < ms.len() && !prev.0.contains_key(#[trigger] ms[k]);
            assert(r.0.contains_key(ms[k]) && r.0[ms[k]] == id);
            assert(gs[gs.len() - 1].0 == id);
            assert forall|g: usize| #[trigger] r.1.contains_key(g) implies exists|u: Seq<char>|
                r.0.contains_key(u) && #[trigger] r.0[u] == g by {
                if g != id {
                    let u = choose|u: Seq<char>| prev.0.contains_key(u) && #[trigger] prev.0[u] == g;
                    assert(r.0.contains_key(u) && r.0[u] == g);
                } else {
                    assert(r.0.contains_key(ms[k]) && r.0[ms[k]] == g);
                }
            }
        }
    }
}

/// `gs` lists the live groups of `index` and `stamps`: each once, with its last change and
/// its members.
pub open spec fn lists_groups(gs: Seq<(usize, GroupInfo)>, index: Map<Seq<char>, usize>, stamps: Map<usize, i64>) -> bool {
    &&& forall|a: int, b: int| 0 <= a < gs.len() && 0 <= b < gs.len() && a != b ==> #[trigger] gs[a].0 != #[trigger] gs[b].0
    &&& forall|j: int| 0 <= j < gs.len() ==> stamps.contains_key(#[trigger] gs[j].0)
        && gs[j].1.last_modified == stamps[gs[j].0]
        && names(gs[j].1.members@).to_set() == members_in(index, gs[j].0)
    &&& forall|g: usize| #[trigger] stamps.contains_key(g) ==> exists|j: int| 0 <= j < gs.len() && #[trigger] gs[j].0 == g
}

/// The users that `index` places in group `g`.
pub open spec fn members_in(index: Map<Seq<char>, usize>, g: usize) -> Set<Seq<char>> {
    Set::new(|u: Seq<char>| index.contains_key(u) && index[u] == g)
}

/// The four invariants of a group structure, over its index, its live groups and its
/// next id: every indexed user's group is live; every member of a live group is indexed
/// to it (so by construction, as members are read off the index); no live group is
/// empty; and every live id is below the next id to allocate.
#[verifier::opaque]
pub open spec fn groups_invariants(index: Map<Seq<char>, usize>, stamps: Map<usize, i64>, next: usize) -> bool {
    &&& forall|u: Seq<char>| #[trigger] index.contains_key(u) ==> stamps.contains_key(index[u])
    &&& forall|g: usize| #[trigger] stamps.contains_key(g) ==> exists|u: Seq<char>|
            index.contains_key(u) && #[trigger] index[u] == g
    &&& forall|g: usize| #[trigger] stamps.contains_key(g) ==> g < next
}

/// The index after `u` is added: unchanged if `u` is known, else `u` gets id `next`.
pub open spec fn index_after_add(index: Map<Seq<char>, usize>, next: usize, u: Seq<char>) -> Map<Seq<char>, usize> {
    if index.contains_key(u) {
        index
    } else {
        index.insert(u, next)
    }
}

/// The next id after `u` is added.
pub open spec fn next_after_add(index: Map<Seq<char>, usize>, next: usize, u: Seq<char>) -> usize {
    if index.contains_key(u) {
        next
    } else {
        (next + 1) as usize
    }
}

/// `index` with every member of group `from` moved to group `to`.
pub open spec fn relabel(index: Map<Seq<char>, usize>, from: usize, to: usize) -> Map<Seq<char>, usize> {
    Map::new(|u: Seq<char>| index.contains_key(u), |u: Seq<char>| if index[u] == from { to } else { index[u] })
}

/// The index after `union(a, b)`: both are added, then `b`'s group joins `a`'s.
pub open spec fn index_after_union(index: Map<Seq<char>, usize>, next: usize, a: Seq<char>, b: Seq<char>) -> Map<Seq<char>, usize> {
    let i1 = index_after_add(index, next, a);
    let n1 = next_after_add(index, next, a);
    let i2 = index_after_add(i1, n1, b);
    relabel(i2, i2[b], i2[a])
}

/// The next id after `union(a, b)`.
pub open spec fn next_after_union(index: Map<Seq<char>, usize>, next: usize, a: Seq<char>, b: Seq<char>) -> usize {
    let i1 = index_after_add(index, next, a);
    let n1 = next_after_add(index, next, a);
    next_after_add(i1, n1, b)
}

/// The live groups after `u` is added at time `now`.
pub open spec fn stamps_after_add(stamps: Map<usize, i64>, index: Map<Seq<char>, usize>, next: usize, u: Seq<char>, now: i64) -> Map<usize, i64> {
    if index.contains_key(u) {
        stamps
    } else {
        stamps.insert(next, now)
    }
}

/// The live groups after `union(a, b)` at time `now`: `b`'s group, if another than
/// `a`'s, is gone, and `a`'s was changed at `now`.
pub open spec fn stamps_after_union(stamps: Map<usize, i64>, index: Map<Seq<char>, usize>, next: usize, a: Seq<char>, b: Seq<char>, now: i64) -> Map<usize, i64> {
    let i1 = index_after_add(index, next, a);
    let n1 = next_after_add(index, next, a);
    let s1 = stamps_after_add(stamps, index, next, a, now);
    let i2 = index_after_add(i1, n1, b);
    let s2 = stamps_after_add(s1, i1, n1, b, now);
    if i2[a] == i2[b] {
        s2
    } else {
        s2.remove(i2[b]).insert(i2[a], now)
    }
}

/// The index after `remove_user(u)`: a known `u` moves to a fresh group of its own.
pub open spec fn index_after_remove(index: Map<Seq<char>, usize>, next: usize, u: Seq<char>) -> Map<Seq<char>, usize> {
    if index.contains_key(u) {
        index.insert(u, next)
    } else {
        index
    }
}

/// The next id after `remove_user(u)`.
pub open spec fn next_after_remove(index: Map<Seq<char>, usize>, next: usize, u: Seq<char>) -> usize {
    if index.contains_key(u) {
        (next + 1) as usize
    } else {
        next
    }
}

/// The live groups after `remove_user(u)` at time `now`: `u`'s former group was changed
/// at `now`, or is gone if `u` was its only member; `u`'s new group was made at `now`.
pub open spec fn stamps_after_remove(stamps: Map<usize, i64>, index: Map<Seq<char>, usize>, next: usize, u: Seq<char>, now: i64) -> Map<usize, i64> {
    if index.contains_key(u) {
        let g = index[u];
        if has_other_member(index, g, u) {
            stamps.insert(g, now).insert(next, now)
        } else {
            stamps.remove(g).insert(next, now)
        }
    } else {
        stamps
    }
}

/// Whether `g` has some member other than `u`.
pub open spec fn has_other_member(index: Map<Seq<char>, usize>, g: usize, u: Seq<char>) -> bool {
    exists|v: Seq<char>| v != u && index.contains_key(v) && #[trigger] index[v] == g
}

fn position_of_user(v: &Vec<(String, usize)>, u: &String) -> (r: Option<usize>)
    requires
        keys_unique(keyed_by_chars(v@)),
    ensures
        r is None ==> !assoc(keyed_by_chars(v@)).contains_key(u@),
        r is Some ==> r->0 < v@.len() && v@[r->0 as int].0@ == u@,
        r is Some ==> assoc(keyed_by_chars(v@)).contains_key(u@)
            && assoc(keyed_by_chars(v@))[u@] == v@[r->0 as int].1,
{
    let ghost s = keyed_by_chars(v@);
    let mut i: usize = 0;
    while i < v.len()
        invariant
            i <= v@.len(),
            s == keyed_by_chars(v@),
            keys_unique(s),
            forall|j: int| 0 <= j < i ==> v@[j].0@ != u@,
        decreases v.len() - i,
    {
        if v[i].0 == *u {
            proof { lemma_assoc_at(s, i as int); }
            return Some(i);
        }
        i = i + 1;
    }
    proof {
        if has_key(s, u@) {
            let j = choose|j: int| 0 <= j < s.len() && #[trigger] s[j].0 == u@;
            assert(v@[j].0@ == u@);
        }
    }
    None
}

fn position_of_group(v: &Vec<(usize, i64)>, g: usize) -> (r: Option<usize>)
    requires
        keys_unique(v@),
    ensures
        r is None ==> !assoc(v@).contains_key(g),
        r is Some ==> r->0 < v@.len() && v@[r->0 as int].0 == g,
        r is Some ==> assoc(v@).contains_key(g) && assoc(v@)[g] == v@[r->0 as int].1,
{
    let mut i: usize = 0;
    while i < v.len()
        invariant
            i <= v@.len(),
            keys_unique(v@),
            forall|j: int| 0 <= j < i ==> v@[j].0 != g,
        decreases v.len() - i,
    {
        if v[i].0 == g {
            proof { lemma_assoc_at(v@, i as int); }
            return Some(i);
        }
        i = i + 1;
    }
    None
}

/// Taking `u` out of the index keeps the invariants, once its group is refreshed (if
/// others remain in it) or dropped (if not).
proof fn lemma_member_taken_out(
    idx0: Map<Seq<char>, usize>,
    st0: Map<usize, i64>,
    next: usize,
    u: Seq<char>,
    others: bool,
    now: i64,
)
    requires
        groups_invariants(idx0, st0, next),
        idx0.contains_key(u),
        others == exists|v: Seq<char>| idx0.remove(u).contains_key(v) && #[trigger] idx0.remove(u)[v] == idx0[u],
    ensures
        others == has_other_member(idx0, idx0[u], u),
        groups_invariants(
            idx0.remove(u),
            if others { st0.insert(idx0[u], now) } else { st0.remove(idx0[u]) },
            next,
        ),
{
    reveal(groups_invariants);
    let g = idx0[u];
    let idx = idx0.remove(u);
    let st = if others { st0.insert(g, now) } else { st0.remove(g) };
    if has_other_member(idx0, g, u) {
        let v = choose|v: Seq<char>| v != u && idx0.contains_key(v) && #[trigger] idx0[v] == g;
        assert(idx.contains_key(v) && idx[v] == g);
    }
    if others {
        let v = choose|v: Seq<char>| idx.contains_key(v) && #[trigger] idx[v] == g;
        assert(v != u && idx0.contains_key(v) && idx0[v] == g);
    }
    assert forall|w: Seq<char>| #[trigger] idx.contains_key(w) implies st.contains_key(idx[w]) by {
        assert(idx0.contains_key(w));
        if idx[w] == g {
            assert(others);
        }
    }
    assert forall|h: usize| #[trigger] st.contains_key(h) implies exists|w: Seq<char>|
        idx.contains_key(w) && #[trigger] idx[w] == h by {
        if h != g {
            let w = choose|w: Seq<char>| idx0.contains_key(w) && #[trigger] idx0[w] == h;
            assert(idx.contains_key(w) && idx[w] == h);
        }
    }
}

/// The keys of the first `n` pairs of `s` that are in group `g`, in order.
pub open spec fn picked(s: Seq<(Seq<char>, usize)>, g: usize, n: int) -> Seq<Seq<char>>
    decreases n,
{
    if n <= 0 {
        Seq::empty()
    } else if s[n - 1].1 == g {
        picked(s, g, n - 1).push(s[n - 1].0)
    } else {
        picked(s, g, n - 1)
    }
}

proof fn lemma_picked(s: Seq<(Seq<char>, usize)>, g: usize, n: int)
    requires
        keys_unique(s),
        0 <= n <= s.len(),
    ensures
        picked(s, g, n).no_duplicates(),
        forall|x: Seq<char>| picked(s, g, n).contains(x) <==> exists|j: int| 0 <= j < n && #[trigger] s[j].0 == x && s[j].1 == g,
    decreases n,
{
    if n > 0 {
        lemma_picked(s, g, n - 1);
        let p = picked(s, g, n - 1);
        assert forall|x: Seq<char>| picked(s, g, n).contains(x) <==> exists|j: int| 0 <= j < n && #[trigger] s[j].0 == x && s[j].1 == g by {
            let q = picked(s, g, n);
            if q.contains(x) {
                let k = choose|k: int| 0 <= k < q.len() && q[k] == x;
                if k < p.len() {
                    assert(p[k] == x);
                    assert(p.contains(x));
                    let j = choose|j: int| 0 <= j < n - 1 && #[trigger] s[j].0 == x && s[j].1 == g;
                    assert(0 <= j < n && s[j].0 == x && s[j].1 == g);
                } else {
                    assert(s[n - 1].1 == g);
                    assert(s[n - 1].0 == x);
                }
            }
            if exists|j: int| 0 <= j < n && #[trigger] s[j].0 == x && s[j].1 == g {
                let j = choose|j: int| 0 <= j < n && #[trigger] s[j].0 == x && s[j].1 == g;
                if j < n - 1 {
                    assert(p.contains(x));
                    let k = choose|k: int| 0 <= k < p.len() && p[k] == x;
                    assert(q[k] == x);
                } else {
                    assert(q[q.len() - 1] == x);
                }
                assert(q.contains(x));
            }
        }
        if s[n - 1].1 == g {
            assert(!p.contains(s[n - 1].0));
        }
    }
}

proof fn lemma_picked_members(s: Seq<(Seq<char>, usize)>, g: usize)
    requires
        keys_unique(s),
    ensures
        picked(s, g, s.len() as int).no_duplicates(),
        picked(s, g, s.len() as int).to_set() == members_in(assoc(s), g),
{
    lemma_picked(s, g, s.len() as int);
    lemma_assoc_all(s);
    let rn = picked(s, g, s.len() as int);
    let m = members_in(assoc(s), g);
    assert forall|x: Seq<char>| rn.to_set().contains(x) <==> m.contains(x) by {
        if m.contains(x) {
            let j = choose|j: int| 0 <= j < s.len() && #[trigger] s[j].0 == x;
        }
    }
    assert(rn.to_set() =~= m);
}

/// Some group `k` of `gs` has id `g` and lists member `u`.
pub open spec fn listed_in(gs: Seq<(usize, GroupInfo)>, u: Seq<char>, g: usize) -> bool {
    exists|k: int| 0 <= k < gs.len() && #[trigger] gs[k].0 == g && names(gs[k].1.members@).contains(u)
}

/// Every user that `reconcile` places in a group is listed in that group.
pub proof fn lemma_reconcile_sound(gs: Seq<(usize, GroupInfo)>)
    ensures
        forall|u: Seq<char>| #[trigger] reconcile(gs).0.contains_key(u) ==> listed_in(gs, u, reconcile(gs).0[u]),
    decreases gs.len(),
{
    if gs.len() > 0 {
        let pre = gs.drop_last();
        lemma_reconcile_sound(pre);
        let prev = reconcile(pre);
        let r = reconcile(gs);
        let n = gs.len() - 1;
        assert forall|u: Seq<char>| #[trigger] r.0.contains_key(u) implies listed_in(gs, u, r.0[u]) by {
            if prev.0.contains_key(u) && r.0[u] == prev.0[u] {
                let k = choose|k: int| 0 <= k < pre.len() && #[trigger] pre[k].0 == prev.0[u] && names(pre[k].1.members@).contains(u);
                assert(gs[k] == pre[k]);
            } else {
                assert(gs[n].0 == r.0[u]);
            }
        }
    }
}

fn group_has_member(v: &Vec<(String, usize)>, g: usize) -> (r: bool)
    requires
        keys_unique(keyed_by_chars(v@)),
    ensures
        r == exists|u: Seq<char>| assoc(keyed_by_chars(v@)).contains_key(u) && #[trigger] assoc(
            keyed_by_chars(v@),
        )[u] == g,
{
    let ghost s = keyed_by_chars(v@);
    let mut i: usize = 0;
    while i < v.len()
        invariant
            i <= v@.len(),
            s == keyed_by_chars(v@),
            keys_unique(s),
            forall|j: int| 0 <= j < i ==> v@[j].1 != g,
        decreases v.len() - i,
    {
        if v[i].1 == g {
            proof {
                lemma_assoc_at(s, i as int);
                assert(s[i as int].0 == v@[i as int].0@);
            }
            return true;
        }
        i = i + 1;
    }
    proof {
        assert forall|u: Seq<char>| assoc(s).contains_key(u) implies #[trigger] assoc(s)[u] != g by {
            let j = choose|j: int| 0 <= j < s.len() && #[trigger] s[j].0 == u;
            lemma_assoc_at(s, j);
        }
    }
    false
}

proof fn lemma_expiry_keeps_invariants(
    idx0: Map<Seq<char>, usize>,
    st0: Map<usize, i64>,
    next: usize,
    now: i64,
    idx: Map<Seq<char>, usize>,
    st: Map<usize, i64>,
)
    requires
        groups_invariants(idx0, st0, next),
        st == kept(st0, survives(idx0, now)),
        idx == kept(idx0, in_live_group(st)),
    ensures
        groups_invariants(idx, st, next),
        forall|g: usize| #[trigger] st.contains_key(g) ==> is_fresh(st[g], now) && has_two_members(idx, g),
{
    reveal(groups_invariants);
    assert forall|g: usize| #[trigger] st.contains_key(g) implies is_fresh(st[g], now) && has_two_members(idx, g) by {
        let (a, b) = choose|a: Seq<char>, b: Seq<char>|
            a != b && idx0.contains_key(a) && idx0.contains_key(b) && #[trigger] idx0[a] == g && #[trigger] idx0[b] == g;
        assert(idx.contains_key(a) && idx.contains_key(b) && idx[a] == g && idx[b] == g);
    }
    assert forall|g: usize| #[trigger] st.contains_key(g) implies exists|w: Seq<char>|
        idx.contains_key(w) && #[trigger] idx[w] == g by {
        assert(has_two_members(idx0, g));
        let (a, b) = choose|a: Seq<char>, b: Seq<char>|
            a != b && idx0.contains_key(a) && idx0.contains_key(b) && #[trigger] idx0[a] == g && #[trigger] idx0[b] == g;
        assert(idx.contains_key(a) && idx[a] == g);
    }
}

fn group_has_two(v: &Vec<(String, usize)>, g: usize) -> (r: bool)
    requires
        keys_unique(keyed_by_chars(v@)),
    ensures
        r == has_two_members(assoc(keyed_by_chars(v@)), g),
{
    let ghost s = keyed_by_chars(v@);
    proof { lemma_assoc_all(s); }
    let mut first: Option<usize> = None;
    let mut i: usize = 0;
    while i < v.len()
        invariant
            i <= v@.len(),
            s == keyed_by_chars(v@),
            keys_unique(s),
            forall|j: int| 0 <= j < s.len() ==> assoc(s).contains_key(#[trigger] s[j].0) && assoc(s)[s[j].0] == s[j].1,
            first is Some ==> first->0 < i && s[first->0 as int].1 == g,
            forall|j: int| 0 <= j < i && s[j].1 == g ==> first == Some(j as usize),
        decreases v.len() - i,
    {
        assert(s[i as int].1 == v@[i as int].1);
        if v[i].1 == g {
            match first {
                Some(f) => {
                    proof {
                        let a = s[f as int].0;
                        let b = s[i as int].0;
                        assert(assoc(s)[a] == g && assoc(s)[b] == g);
                    }
                    return true;
                },
                None => {
                    first = Some(i);
                },
            }
        }
        i = i + 1;
    }
    proof {
        if has_two_members(assoc(s), g) {
            let (a, b) = choose|a: Seq<char>, b: Seq<char>|
                a != b && assoc(s).contains_key(a) && assoc(s).contains_key(b) && #[trigger] assoc(s)[a] == g
                    && #[trigger] assoc(s)[b] == g;
            let ja = choose|j: int| 0 <= j < s.len() && #[trigger] s[j].0 == a;
            let jb = choose|j: int| 0 <= j < s.len() && #[trigger] s[j].0 == b;
        }
    }
    false
}

fn id_in(v: &Vec<usize>, id: usize) -> (r: bool)
    ensures
        r == v@.contains(id),
{
    let mut i: usize = 0;
    while i < v.len()
        invariant
            i <= v@.len(),
            forall|j: int| 0 <= j < i ==> v@[j] != id,
        decreases v.len() - i,
    {
        if v[i] == id {
            return true;
        }
        i = i + 1;
    }
    false
}

/// Valid groups satisfy the four invariants: every indexed user's group is live, every
/// member of a live group is indexed to it, no live group is empty, and every live id
/// is below the next id.
pub proof fn lemma_valid_groups_keep_invariants(g: &GroupSets)
    requires
        g.wf(),
    ensures
        groups_invariants(g.index(), g.stamps(), g.next_id()),
        forall|h: usize, u: Seq<char>| #[trigger] members_in(g.index(), h).contains(u) ==> g.index()[u] == h,
{
}

impl GroupSets {
    /// Each known user and the id of its group.
    pub closed spec fn index(&self) -> Map<Seq<char>, usize> {
        assoc(keyed_by_chars(self.user_to_group@))
    }

    /// Each live group id and the time of its last change.
    pub closed spec fn stamps(&self) -> Map<usize, i64> {
        assoc(self.groups@)
    }

    /// The id that the next new group gets.
    pub closed spec fn next_id(&self) -> usize {
        self.next_group_id
    }

    pub closed spec fn wf(&self) -> bool {
        &&& keys_unique(keyed_by_chars(self.user_to_group@))
        &&& keys_unique(self.groups@)
        &&& groups_invariants(self.index(), self.stamps(), self.next_id())
    }

    /// The members of group `g`.
    pub open spec fn members(&self, g: usize) -> Set<Seq<char>> {
        members_in(self.index(), g)
    }

    /// No groups, and ids start at zero.
    pub fn new() -> (r: GroupSets)
        ensures
            r.wf(),
            r.index() == Map::<Seq<char>, usize>::empty(),
            r.stamps() == Map::<usize, i64>::empty(),
            r.next_id() == 0,
    {
        let r = GroupSets { user_to_group: Vec::new(), groups: Vec::new(), next_group_id: 0 };
        proof { reveal(groups_invariants); }
        assert(r.index() =~= Map::<Seq<char>, usize>::empty());
        assert(r.stamps() =~= Map::<usize, i64>::empty());
        r
    }

    /// The id that the next new group gets.
    pub fn next_group_id(&self) -> (r: usize)
        ensures
            r == self.next_id(),
    {
        self.next_group_id
    }

    /// Find the group id that a user belongs to.
    pub fn find_group(&self, user: &str) -> (r: Option<usize>)
        requires
            self.wf(),
        ensures
            r == (if self.index().contains_key(user@) { Some(self.index()[user@]) } else { None::<usize> }),
    {
        let u = user.to_string();
        match position_of_user(&self.user_to_group, &u) {
            Some(i) => Some(self.user_to_group[i].1),
            None => None,
        }
    }

    /// Add a user as a singleton group (last changed at `now`) if it is not known yet.
    pub fn add_user_at(&mut self, user: &str, now: i64)
        requires
            old(self).wf(),
            old(self).next_id() < usize::MAX,
        ensures
            final(self).wf(),
            final(self).index() == index_after_add(old(self).index(), old(self).next_id(), user@),
            final(self).next_id() == next_after_add(old(self).index(), old(self).next_id(), user@),
            final(self).stamps() == (if old(self).index().contains_key(user@) {
                old(self).stamps()
            } else {
                old(self).stamps().insert(old(self).next_id(), now)
            }),
    {
        let u = user.to_string();
        if position_of_user(&self.user_to_group, &u).is_some() {
            return;
        }
        let g = self.next_group_id;
        proof {
            reveal(groups_invariants);
            assert(!self.stamps().contains_key(g));
            lemma_assoc_push(keyed_by_chars(self.user_to_group@), u@, g);
            lemma_keyed_by_chars_push(self.user_to_group@, u, g);
            lemma_assoc_push(self.groups@, g, now);
        }
        self.next_group_id = g + 1;
        self.groups.push((g, now));
        self.user_to_group.push((u, g));
        proof {
            reveal(groups_invariants);
            let idx = self.index();
            let st = self.stamps();
            assert(idx.contains_key(user@) && idx[user@] == g);
            assert forall|h: usize| #[trigger] st.contains_key(h) implies exists|w: Seq<char>|
                idx.contains_key(w) && #[trigger] idx[w] == h by {
                if h != g {
                    let w = choose|w: Seq<char>| old(self).index().contains_key(w) && #[trigger] old(self).index()[w] == h;
                    assert(idx.contains_key(w) && idx[w] == h);
                } else {
                    assert(idx.contains_key(user@) && idx[user@] == h);
                }
            }
        }
    }

    /// Merge the groups of `user1` and `user2` (adding either if unknown); the merged
    /// group keeps the id of `user1`'s and was last changed at `now`.
    pub fn union_at(&mut self, user1: &str, user2: &str, now: i64)
        requires
            old(self).wf(),
            old(self).next_id() < usize::MAX - 1,
        ensures
            final(self).wf(),
            final(self).index() == index_after_union(old(self).index(), old(self).next_id(), user1@, user2@),
            final(self).next_id() == next_after_union(old(self).index(), old(self).next_id(), user1@, user2@),
            final(self).stamps() == stamps_after_union(
                old(self).stamps(),
                old(self).index(),
                old(self).next_id(),
                user1@,
                user2@,
                now,
            ),
    {
        self.add_user_at(user1, now);
        self.add_user_at(user2, now);
        let ghost mid_index = self.index();
        let ghost mid_stamps = self.stamps();
        let ga = match self.find_group(user1) {
            Some(g) => g,
            None => { return; },
        };
        let gb = match self.find_group(user2) {
            Some(g) => g,
            None => { return; },
        };
        if ga == gb {
            proof { assert(relabel(mid_index, gb, ga) =~= mid_index); }
            return;
        }
        let ghost v0 = self.user_to_group@;
        let ghost g0 = self.groups@;
        let ghost n0 = self.next_group_id;
        let mut i: usize = 0;
        while i < self.user_to_group.len()
            invariant
                i <= self.user_to_group@.len(),
                self.user_to_group@.len() == v0.len(),
                forall|j: int| 0 <= j < i ==> (#[trigger] self.user_to_group@[j]).0 == v0[j].0
                    && self.user_to_group@[j].1 == (if v0[j].1 == gb { ga } else { v0[j].1 }),
                forall|j: int| i <= j < v0.len() ==> #[trigger] self.user_to_group@[j] == v0[j],
                self.groups@ == g0,
                self.next_group_id == n0,
            decreases v0.len() - i,
        {
            if self.user_to_group[i].1 == gb {
                let name = self.user_to_group[i].0.clone();
                self.user_to_group.set(i, (name, ga));
            }
            i = i + 1;
        }
        proof {
            let f = |x: usize| if x == gb { ga } else { x };
            let s0 = keyed_by_chars(v0);
            let t = keyed_by_chars(self.user_to_group@);
            assert forall|j: int| 0 <= j < s0.len() implies (#[trigger] t[j]).0 == s0[j].0 && t[j].1 == f(s0[j].1) by {
                assert(self.user_to_group@[j].0 == v0[j].0);
            }
            lemma_assoc_map_values(s0, t, f);
            assert(self.index() =~= relabel(mid_index, gb, ga));
        }
        match position_of_group(&self.groups, gb) {
            Some(k) => {
                proof { lemma_assoc_remove(self.groups@, k as int); }
                self.groups.remove(k);
            },
            None => {},
        }
        match position_of_group(&self.groups, ga) {
            Some(k) => {
                proof { lemma_assoc_update(self.groups@, k as int, now); }
                self.groups.set(k, (ga, now));
            },
            None => {},
        }
        proof {
            reveal(groups_invariants);
            let idx = self.index();
            let st = self.stamps();
            assert(st =~= mid_stamps.remove(gb).insert(ga, now));
            assert forall|u: Seq<char>| #[trigger] idx.contains_key(u) implies st.contains_key(idx[u]) by {
                assert(mid_index.contains_key(u));
            }
            assert forall|h: usize| #[trigger] st.contains_key(h) implies exists|w: Seq<char>|
                idx.contains_key(w) && #[trigger] idx[w] == h by {
                if h == ga {
                    assert(idx.contains_key(user1@) && idx[user1@] == h);
                } else {
                    let w = choose|w: Seq<char>| mid_index.contains_key(w) && #[trigger] mid_index[w] == h;
                    assert(idx.contains_key(w) && idx[w] == h);
                }
            }
        }
    }

    /// Take the user at position `pos` of the index out of it; its group is changed at
    /// `now` if others remain in it, else dropped. Reports whether others remain.
    fn take_out(&mut self, pos: usize, now: i64) -> (others: bool)
        requires
            old(self).wf(),
            pos < old(self).user_to_group@.len(),
        ensures
            final(self).wf(),
            final(self).next_id() == old(self).next_id(),
            old(self).index().contains_key(old(self).user_to_group@[pos as int].0@),
            final(self).index() == old(self).index().remove(old(self).user_to_group@[pos as int].0@),
            others == has_other_member(
                old(self).index(),
                old(self).index()[old(self).user_to_group@[pos as int].0@],
                old(self).user_to_group@[pos as int].0@,
            ),
            final(self).stamps() == (if others {
                old(self).stamps().insert(old(self).index()[old(self).user_to_group@[pos as int].0@], now)
            } else {
                old(self).stamps().remove(old(self).index()[old(self).user_to_group@[pos as int].0@])
            }),
    {
        let g = self.user_to_group[pos].1;
        let ghost u = self.user_to_group@[pos as int].0@;
        let ghost idx0 = self.index();
        let ghost st0 = self.stamps();
        proof {
            lemma_assoc_at(keyed_by_chars(self.user_to_group@), pos as int);
            lemma_assoc_remove(keyed_by_chars(self.user_to_group@), pos as int);
            lemma_keyed_by_chars_remove(self.user_to_group@, pos as int);
        }
        self.user_to_group.remove(pos);
        let others = group_has_member(&self.user_to_group, g);
        proof {
            reveal(groups_invariants);
            assert(st0.contains_key(g));
        }
        match position_of_group(&self.groups, g) {
            Some(k) => {
                if others {
                    proof { lemma_assoc_update(self.groups@, k as int, now); }
                    self.groups.set(k, (g, now));
                } else {
                    proof { lemma_assoc_remove(self.groups@, k as int); }
                    self.groups.remove(k);
                }
            },
            None => {},
        }
        proof {
            lemma_member_taken_out(idx0, st0, self.next_id(), u, others, now);
        }
        others
    }

    /// Take `user` out of its group (which was changed at `now`, and is gone if `user`
    /// was its only member) and make it a singleton again, in a new group made at `now`.
    /// An unknown user stays unknown.
    pub fn remove_user_at(&mut self, user: &str, now: i64)
        requires
            old(self).wf(),
            old(self).next_id() < usize::MAX,
        ensures
            final(self).wf(),
            final(self).index() == index_after_remove(old(self).index(), old(self).next_id(), user@),
            final(self).next_id() == next_after_remove(old(self).index(), old(self).next_id(), user@),
            final(self).stamps() == stamps_after_remove(
                old(self).stamps(),
                old(self).index(),
                old(self).next_id(),
                user@,
                now,
            ),
    {
        let u = user.to_string();
        let pos = match position_of_user(&self.user_to_group, &u) {
            Some(p) => p,
            None => { return; },
        };
        let ghost idx0 = self.index();
        self.take_out(pos, now);
        self.add_user_at(user, now);
        proof {
            assert(self.index() =~= idx0.insert(u@, old(self).next_id()));
        }
    }

    /// The users that share `user`'s group, in index order: just `user` if it is unknown.
    pub fn get_group_members(&self, user: &str) -> (r: Vec<String>)
        requires
            self.wf(),
        ensures
            names(r@).no_duplicates(),
            !self.index().contains_key(user@) ==> names(r@) == seq![user@],
            self.index().contains_key(user@) ==> names(r@).to_set() == self.members(self.index()[user@]),
    {
        let g = match self.find_group(user) {
            Some(g) => g,
            None => {
                let r = vec![user.to_string()];
                assert(names(r@) =~= seq![user@]);
                return r;
            },
        };
        self.members_of_group(g)
    }

    /// Drop every group last changed at or before `now` minus the retention window, then
    /// every group left with a single member, together with their users.
    pub fn expire_old_groups(&mut self, now: i64)
        requires
            old(self).wf(),
        ensures
            final(self).wf(),
            final(self).next_id() == old(self).next_id(),
            final(self).stamps() == kept(old(self).stamps(), survives(old(self).index(), now)),
            final(self).index() == kept(old(self).index(), in_live_group(final(self).stamps())),
            forall|g: usize| #[trigger] final(self).stamps().contains_key(g) ==> is_fresh(final(self).stamps()[g], now)
                && has_two_members(final(self).index(), g),
    {
        let ghost gs = self.groups@;
        let ghost idx0 = self.index();
        let ghost st0 = self.stamps();
        let ghost keep_g = survives(idx0, now);
        let cutoff: i128 = now as i128 - USER_GROUP_RETENTION_NANOS as i128;
        let mut new_groups: Vec<(usize, i64)> = Vec::new();
        proof { lemma_assoc_filter_start(gs, keep_g); }
        let mut i: usize = 0;
        while i < self.groups.len()
            invariant
                i <= gs.len(),
                self.groups@ == gs,
                keys_unique(gs),
                keys_unique(keyed_by_chars(self.user_to_group@)),
                idx0 == self.index(),
                keep_g == survives(idx0, now),
                cutoff == now as int - USER_GROUP_RETENTION_NANOS as int,
                keys_unique(new_groups@),
                assoc(new_groups@) == kept(assoc(gs.take(i as int)), keep_g),
            decreases gs.len() - i,
        {
            let (g, t) = self.groups[i];
            let keep = t as i128 > cutoff && group_has_two(&self.user_to_group, g);
            proof { lemma_assoc_filter_step(gs, new_groups@, i as int, keep_g); }
            if keep {
                new_groups.push((g, t));
            }
            i = i + 1;
        }
        assert(gs.take(gs.len() as int) =~= gs);
        let ghost st1 = assoc(new_groups@);
        let ghost us = keyed_by_chars(self.user_to_group@);
        let ghost keep_u = in_live_group(st1);
        let mut new_index: Vec<(String, usize)> = Vec::new();
        proof { lemma_assoc_filter_start(us, keep_u); }
        let mut j: usize = 0;
        while j < self.user_to_group.len()
            invariant
                j <= us.len(),
                us == keyed_by_chars(self.user_to_group@),
                keys_unique(us),
                keys_unique(new_groups@),
                st1 == assoc(new_groups@),
                keep_u == in_live_group(st1),
                keys_unique(keyed_by_chars(new_index@)),
                assoc(keyed_by_chars(new_index@)) == kept(assoc(us.take(j as int)), keep_u),
            decreases us.len() - j,
        {
            assert(us[j as int] == (self.user_to_group@[j as int].0@, self.user_to_group@[j as int].1));
            let g = self.user_to_group[j].1;
            let live = position_of_group(&new_groups, g).is_some();
            proof { lemma_assoc_filter_step(us, keyed_by_chars(new_index@), j as int, keep_u); }
            if live {
                let name = self.user_to_group[j].0.clone();
                proof { lemma_keyed_by_chars_push(new_index@, name, g); }
                new_index.push((name, g));
            }
            j = j + 1;
        }
        assert(us.take(us.len() as int) =~= us);
        self.groups = new_groups;
        self.user_to_group = new_index;
        proof { lemma_expiry_keeps_invariants(idx0, st0, self.next_id(), now, self.index(), self.stamps()); }
    }

    /// Rebuild valid groups from stored rows that may disagree with each other. The
    /// index rows are not trusted: each user goes to the first group that lists it, later
    /// listings of the user, groups left without members, a repeated id and the id
    /// `usize::MAX` are dropped, and the next id is one past the largest id kept.
    pub fn from_maps(user_to_group: Vec<(String, usize)>, groups: Vec<(usize, GroupInfo)>) -> (r: GroupSets)
        ensures
            r.wf(),
            r.index() == reconcile(groups@).0,
            r.stamps() == reconcile(groups@).1,
            forall|u: Seq<char>| #[trigger] r.index().contains_key(u) ==> listed_in(groups@, u, r.index()[u]),
            forall|g: usize| #[trigger] r.stamps().contains_key(g) ==> g < r.next_id(),
            r.next_id() == 0 <==> r.stamps().is_empty(),
            r.next_id() > 0 ==> r.stamps().contains_key((r.next_id() - 1) as usize),
    {
        let ghost gs = groups@;
        let mut idx_v: Vec<(String, usize)> = Vec::new();
        let mut st_v: Vec<(usize, i64)> = Vec::new();
        let mut seen: Vec<usize> = Vec::new();
        proof {
            assert(assoc(keyed_by_chars(idx_v@)) =~= Map::<Seq<char>, usize>::empty());
            assert(assoc(st_v@) =~= Map::<usize, i64>::empty());
            assert(gs.take(0) =~= Seq::<(usize, GroupInfo)>::empty());
        }
        let mut i: usize = 0;
        while i < groups.len()
            invariant
                i <= gs.len(),
                groups@ == gs,
                keys_unique(keyed_by_chars(idx_v@)),
                keys_unique(st_v@),
                assoc(keyed_by_chars(idx_v@)) == reconcile(gs.take(i as int)).0,
                assoc(st_v@) == reconcile(gs.take(i as int)).1,
                seen@.len() == i,
                forall|j: int| 0 <= j < i ==> #[trigger] seen@[j] == gs[j].0,
            decreases gs.len() - i,
        {
            let ghost pre = gs.take(i as int);
            let ghost prev = reconcile(pre);
            assert(gs.take(i as int + 1).drop_last() =~= pre);
            proof { lemma_reconcile(pre); }
            let id = groups[i].0;
            let dup = id_in(&seen, id);
            proof {
                if id_listed(pre, id) {
                    let j = choose|j: int| 0 <= j < pre.len() && #[trigger] pre[j].0 == id;
                    assert(seen@[j] == id);
                }
                if dup {
                    let j = choose|j: int| 0 <= j < seen@.len() && seen@[j] == id;
                    assert(pre[j].0 == id);
                }
            }
            if id != usize::MAX && !dup {
                let members = &groups[i].1.members;
                let ghost ms = names(members@);
                let mut fresh = false;
                let mut k: usize = 0;
                proof { assert(absorb(prev.0, ms.take(0), id) =~= prev.0); }
                while k < members.len()
                    invariant
                        k <= members@.len(),
                        ms == names(members@),
                        keys_unique(keyed_by_chars(idx_v@)),
                        assoc(keyed_by_chars(idx_v@)) == absorb(prev.0, ms.take(k as int), id),
                        fresh == brings_new(prev.0, ms.take(k as int)),
                    decreases members@.len() - k,
                {
                    let ghost before = ms.take(k as int);
                    assert(ms.take(k as int + 1) =~= before.push(members@[k as int]@));
                    match position_of_user(&idx_v, &members[k]) {
                        Some(_) => {
                            proof {
                                let m = members@[k as int]@;
                                assert(absorb(prev.0, ms.take(k as int + 1), id) =~= absorb(prev.0, before, id));
                                if brings_new(prev.0, ms.take(k as int + 1)) {
                                    let q = choose|q: int| 0 <= q < k + 1 && !prev.0.contains_key(#[trigger] ms.take(k as int + 1)[q]);
                                    if q < k {
                                        assert(before[q] == ms.take(k as int + 1)[q]);
                                    } else {
                                        assert(before.contains(m));
                                        let q2 = choose|q2: int| 0 <= q2 < before.len() && before[q2] == m;
                                        assert(!prev.0.contains_key(before[q2]));
                                    }
                                }
                                if fresh {
                                    let q = choose|q: int| 0 <= q < k && !prev.0.contains_key(#[trigger] before[q]);
                                    assert(ms.take(k as int + 1)[q] == before[q]);
                                }
                            }
                        },
                        None => {
                            let name = members[k].clone();
                            proof {
                                lemma_assoc_push(keyed_by_chars(idx_v@), name@, id);
                                lemma_keyed_by_chars_push(idx_v@, name, id);
                                let after = ms.take(k as int + 1);
                                assert forall|u: Seq<char>| after.contains(u) <==> before.contains(u) || u == name@ by {
                                    if after.contains(u) {
                                        let q = choose|q: int| 0 <= q < after.len() && after[q] == u;
                                        if q < k {
                                            assert(before[q] == u);
                                        }
                                    }
                                    if before.contains(u) {
                                        let q = choose|q: int| 0 <= q < before.len() && before[q] == u;
                                        assert(after[q] == u);
                                    }
                                    if u == name@ {
                                        assert(after[k as int] == u);
                                    }
                                }
                                assert(absorb(prev.0, after, id) =~= absorb(prev.0, before, id).insert(name@, id));
                                assert(!prev.0.contains_key(ms.take(k as int + 1)[k as int]));
                                if fresh {
                                    let q = choose|q: int| 0 <= q < k && !prev.0.contains_key(#[trigger] before[q]);
                                    assert(ms.take(k as int + 1)[q] == before[q]);
                                }
                            }
                            idx_v.push((name, id));
                            fresh = true;
                        },
                    }
                    k = k + 1;
                }
                assert(ms.take(members@.len() as int) =~= ms);
                if fresh {
                    proof { lemma_assoc_push(st_v@, id, groups@[i as int].1.last_modified); }
                    st_v.push((id, groups[i].1.last_modified));
                }
            }
            seen.push(id);
            i = i + 1;
        }
        assert(gs.take(gs.len() as int) =~= gs);
        proof {
            lemma_reconcile(gs);
            lemma_reconcile_sound(gs);
        }
        let mut next: usize = 0;
        let mut j: usize = 0;
        while j < st_v.len()
            invariant
                j <= st_v@.len(),
                keys_unique(st_v@),
                assoc(st_v@) == reconcile(gs).1,
                forall|g: usize| #[trigger] reconcile(gs).1.contains_key(g) ==> g != usize::MAX,
                forall|q: int| 0 <= q < j ==> (#[trigger] st_v@[q]).0 < next,
                next == 0 || (next > 0 && exists|q: int| 0 <= q < j && (#[trigger] st_v@[q]).0 == next - 1),
            decreases st_v@.len() - j,
        {
            proof { lemma_assoc_at(st_v@, j as int); }
            if st_v[j].0 >= next {
                next = st_v[j].0 + 1;
            }
            j = j + 1;
        }
        let r = GroupSets { user_to_group: idx_v, groups: st_v, next_group_id: next };
        proof {
            reveal(groups_invariants);
            lemma_assoc_all(st_v@);
            assert forall|g: usize| #[trigger] r.stamps().contains_key(g) implies g < r.next_id() by {
                let q = choose|q: int| 0 <= q < st_v@.len() && #[trigger] st_v@[q].0 == g;
            }
            if next > 0 {
                let q = choose|q: int| 0 <= q < st_v@.len() && (#[trigger] st_v@[q]).0 == next - 1;
            } else if st_v@.len() > 0 {
                assert(st_v@[0].0 < next);
            }
            if st_v@.len() == 0 {
                assert(r.stamps() =~= Map::<usize, i64>::empty());
            } else {
                assert(r.stamps().contains_key(st_v@[0].0));
            }
        }
        r
    }

    /// The members of group `g`, in index order.
    fn members_of_group(&self, g: usize) -> (r: Vec<String>)
        requires
            self.wf(),
        ensures
            names(r@).no_duplicates(),
            names(r@).to_set() == self.members(g),
    {
        let ghost s = keyed_by_chars(self.user_to_group@);
        let mut r: Vec<String> = Vec::new();
        let mut i: usize = 0;
        while i < self.user_to_group.len()
            invariant
                i <= self.user_to_group@.len(),
                s == keyed_by_chars(self.user_to_group@),
                names(r@) == picked(s, g, i as int),
            decreases self.user_to_group@.len() - i,
        {
            assert(s[i as int].0 == self.user_to_group@[i as int].0@);
            if self.user_to_group[i].1 == g {
                let ghost r0 = r@;
                r.push(self.user_to_group[i].0.clone());
                assert(names(r@) =~= names(r0).push(s[i as int].0));
            }
            i = i + 1;
        }
        proof { lemma_picked_members(s, g); }
        r
    }

    /// Each known user with the id of its group, as stored.
    pub fn get_user_to_group_mappings(&self) -> (r: Vec<(String, usize)>)
        requires
            self.wf(),
        ensures
            keys_unique(keyed_by_chars(r@)),
            assoc(keyed_by_chars(r@)) == self.index(),
    {
        let mut r: Vec<(String, usize)> = Vec::new();
        let mut i: usize = 0;
        while i < self.user_to_group.len()
            invariant
                i <= self.user_to_group@.len(),
                keyed_by_chars(r@) == keyed_by_chars(self.user_to_group@).take(i as int),
            decreases self.user_to_group@.len() - i,
        {
            let name = self.user_to_group[i].0.clone();
            let g = self.user_to_group[i].1;
            proof { lemma_keyed_by_chars_push(r@, name, g); }
            r.push((name, g));
            assert(keyed_by_chars(r@) =~= keyed_by_chars(self.user_to_group@).take(i as int + 1));
            i = i + 1;
        }
        assert(keyed_by_chars(self.user_to_group@).take(i as int) =~= keyed_by_chars(self.user_to_group@));
        r
    }

    /// Each live group with its members and the time of its last change.
    pub fn get_groups(&self) -> (r: Vec<(usize, GroupInfo)>)
        requires
            self.wf(),
        ensures
            lists_groups(r@, self.index(), self.stamps()),
    {
        let mut r: Vec<(usize, GroupInfo)> = Vec::new();
        let mut i: usize = 0;
        proof { lemma_assoc_all(self.groups@); }
        while i < self.groups.len()
            invariant
                i <= self.groups@.len(),
                self.wf(),
                r@.len() == i,
                forall|j: int| 0 <= j < self.groups@.len() ==> self.stamps().contains_key(#[trigger] self.groups@[j].0)
                    && self.stamps()[self.groups@[j].0] == self.groups@[j].1,
                forall|j: int| 0 <= j < i ==> (#[trigger] r@[j]).0 == self.groups@[j].0
                    && r@[j].1.last_modified == self.groups@[j].1
                    && names(r@[j].1.members@).to_set() == self.members(r@[j].0),
            decreases self.groups@.len() - i,
        {
            let (g, t) = self.groups[i];
            let members = self.members_of_group(g);
            r.push((g, GroupInfo { members, last_modified: t }));
            i = i + 1;
        }
        proof {
            assert forall|a: int, b: int| 0 <= a < r@.len() && 0 <= b < r@.len() && a != b implies #[trigger] r@[a].0
                != #[trigger] r@[b].0 by {
                assert(self.groups@[a].0 != self.groups@[b].0);
            }
            assert forall|g: usize| #[trigger] self.stamps().contains_key(g) implies exists|j: int| 0 <= j < r@.len() && #[trigger] r@[j].0 == g by {
                let j = choose|j: int| 0 <= j < self.groups@.len() && #[trigger] self.groups@[j].0 == g;
                assert(r@[j].0 == g);
            }
        }
        r
    }

    /// Merge the groups of `user1` and `user2` (adding either if unknown); the merged
    /// group keeps the id of `user1`'s and is stamped with the current time.
    pub fn union(&mut self, user1: &str, user2: &str)
        requires
            old(self).wf(),
            old(self).next_id() < usize::MAX - 1,
        ensures
            final(self).wf(),
            final(self).index() == index_after_union(old(self).index(), old(self).next_id(), user1@, user2@),
            final(self).next_id() == next_after_union(old(self).index(), old(self).next_id(), user1@, user2@),
            exists|now: i64| final(self).stamps() == stamps_after_union(
                old(self).stamps(),
                old(self).index(),
                old(self).next_id(),
                user1@,
                user2@,
                now,
            ),
    {
        let now = now_nanos();
        self.union_at(user1, user2, now);
    }

    /// Take `user` out of its group and make it a singleton again (see `remove_user_at`),
    /// stamped with the current time.
    pub fn remove_user(&mut self, user: &str)
        requires
            old(self).wf(),
            old(self).next_id() < usize::MAX,
        ensures
            final(self).wf(),
            final(self).index() == index_after_remove(old(self).index(), old(self).next_id(), user@),
            final(self).next_id() == next_after_remove(old(self).index(), old(self).next_id(), user@),
            exists|now: i64| final(self).stamps() == stamps_after_remove(
                old(self).stamps(),
                old(self).index(),
                old(self).next_id(),
                user@,
                now,
            ),
    {
        let now = now_nanos();
        self.remove_user_at(user, now);
    }

    /// When group `g` last changed, if it is live.
    pub fn last_modified(&self, g: usize) -> (r: Option<i64>)
        requires
            self.wf(),
        ensures
            r == (if self.stamps().contains_key(g) { Some(self.stamps()[g]) } else { None::<i64> }),
    {
        match position_of_group(&self.groups, g) {
            Some(k) => Some(self.groups[k].1),
            None => None,
        }
    }

    /// Whether group `g` has at least two members.
    pub fn is_shared(&self, g: usize) -> (r: bool)
        requires
            self.wf(),
        ensures
            r == has_two_members(self.index(), g),
    {
        group_has_two(&self.user_to_group, g)
    }

    /// Add a user as a singleton group if it is not known yet.
    pub fn add_user(&mut self, user: &str)
        requires
            old(self).wf(),
            old(self).next_id() < usize::MAX,
        ensures
            final(self).wf(),
            final(self).index() == index_after_add(old(self).index(), old(self).next_id(), user@),
            final(self).next_id() == next_after_add(old(self).index(), old(self).next_id(), user@),
            old(self).index().contains_key(user@) ==> final(self).stamps() == old(self).stamps(),
            !old(self).index().contains_key(user@) ==> final(self).stamps().dom()
                == old(self).stamps().dom().insert(old(self).next_id()),
            forall|g: usize| #[trigger] old(self).stamps().contains_key(g)
                ==> final(self).stamps()[g] == old(self).stamps()[g],
    {
        let now = now_nanos();
        proof { reveal(groups_invariants); }
        self.add_user_at(user, now);
    }
}

} // verus!
