//! What storing groups and loading them back keeps.
use vstd::prelude::*;
use crate::groups::{absorb, brings_new, id_listed_view, reconcile_views};
use crate::assoc::{assoc, keyed_by_chars};
use crate::group_laws::same_group;
use crate::groups::{GroupSets, groups_invariants, has_two_members, is_fresh, lemma_valid_groups_keep_invariants};
use crate::memory::{
    MAX_STORED_ID, distinct_rows, has_channel_rows, is_loaded, is_stored, loaded_groups, row_matches, valid_sets,
    GroupRow, first_pos, has_row, lemma_first_pos_range, lemma_raw_groups_step, raw_groups, usable_id,
};

verus! {

/// Groups given as plain values with distinct ids other than `usize::MAX`, each with
/// some member, and no user in two of them.
pub open spec fn disjoint_groups(vs: Seq<(usize, Seq<Seq<char>>, i64)>) -> bool {
    &&& forall|a: int, b: int| 0 <= a < vs.len() && 0 <= b < vs.len() && a != b ==> #[trigger] vs[a].0 != #[trigger] vs[b].0
    &&& forall|a: int| 0 <= a < vs.len() ==> (#[trigger] vs[a]).0 != usize::MAX && vs[a].1.len() > 0
    &&& forall|a: int, b: int, u: Seq<char>| 0 <= a < vs.len() && 0 <= b < vs.len() && a != b
        && #[trigger] vs[a].1.contains(u) ==> !#[trigger] vs[b].1.contains(u)
}

/// Rebuilding disjoint groups keeps every member in its group and every group's time.
proof fn lemma_reconcile_disjoint(vs: Seq<(usize, Seq<Seq<char>>, i64)>)
    requires
        disjoint_groups(vs),
    ensures
        forall|u: Seq<char>| #[trigger] reconcile_views(vs).0.contains_key(u)
            <==> exists|a: int| 0 <= a < vs.len() && #[trigger] vs[a].1.contains(u),
        forall|a: int, u: Seq<char>| 0 <= a < vs.len() && #[trigger] vs[a].1.contains(u)
            ==> reconcile_views(vs).0[u] == vs[a].0,
        forall|g: usize| #[trigger] reconcile_views(vs).1.contains_key(g)
            <==> exists|a: int| 0 <= a < vs.len() && #[trigger] vs[a].0 == g,
        forall|a: int| 0 <= a < vs.len() ==> #[trigger] reconcile_views(vs).1[vs[a].0] == vs[a].2,
    decreases vs.len(),
{
    if vs.len() > 0 {
        let pre = vs.drop_last();
        let n = vs.len() - 1;
        assert(disjoint_groups(pre)) by {
            assert forall|a: int, b: int, u: Seq<char>| 0 <= a < pre.len() && 0 <= b < pre.len() && a != b
                && #[trigger] pre[a].1.contains(u) implies !#[trigger] pre[b].1.contains(u) by {
                assert(vs[a] == pre[a] && vs[b] == pre[b]);
            }
            assert forall|a: int, b: int| 0 <= a < pre.len() && 0 <= b < pre.len() && a != b implies #[trigger] pre[a].0
                != #[trigger] pre[b].0 by {
                assert(vs[a] == pre[a] && vs[b] == pre[b]);
            }
            assert forall|a: int| 0 <= a < pre.len() implies (#[trigger] pre[a]).0 != usize::MAX && pre[a].1.len() > 0 by {
                assert(vs[a] == pre[a]);
            }
        }
        lemma_reconcile_disjoint(pre);
        let prev = reconcile_views(pre);
        let last = vs[n];
        assert(vs.last() == last);
        if id_listed_view(pre, last.0) {
            let j = choose|j: int| 0 <= j < pre.len() && #[trigger] pre[j].0 == last.0;
            assert(vs[j].0 == vs[n].0);
        }
        assert(last.1.contains(last.1[0]));
        if prev.0.contains_key(last.1[0]) {
            let a = choose|a: int| 0 <= a < pre.len() && #[trigger] pre[a].1.contains(last.1[0]);
            assert(vs[a] == pre[a]);
        }
        assert(brings_new(prev.0, last.1));
        let r = reconcile_views(vs);
        assert(r.0 == absorb(prev.0, last.1, last.0));
        assert forall|u: Seq<char>| #[trigger] r.0.contains_key(u)
            <==> exists|a: int| 0 <= a < vs.len() && #[trigger] vs[a].1.contains(u) by {
            if r.0.contains_key(u) {
                if prev.0.contains_key(u) {
                    let a = choose|a: int| 0 <= a < pre.len() && #[trigger] pre[a].1.contains(u);
                    assert(vs[a] == pre[a]);
                } else {
                    assert(vs[n].1.contains(u));
                }
            }
            if exists|a: int| 0 <= a < vs.len() && #[trigger] vs[a].1.contains(u) {
                let a = choose|a: int| 0 <= a < vs.len() && #[trigger] vs[a].1.contains(u);
                if a < n {
                    assert(pre[a] == vs[a]);
                }
            }
        }
        assert forall|a: int, u: Seq<char>| 0 <= a < vs.len() && #[trigger] vs[a].1.contains(u)
            implies r.0[u] == vs[a].0 by {
            if a < n {
                assert(pre[a] == vs[a]);
            } else if prev.0.contains_key(u) {
                let b = choose|b: int| 0 <= b < pre.len() && #[trigger] pre[b].1.contains(u);
                assert(vs[b] == pre[b]);
            }
        }
        assert forall|g: usize| #[trigger] r.1.contains_key(g)
            <==> exists|a: int| 0 <= a < vs.len() && #[trigger] vs[a].0 == g by {
            if r.1.contains_key(g) && g != last.0 {
                let a = choose|a: int| 0 <= a < pre.len() && #[trigger] pre[a].0 == g;
                assert(vs[a] == pre[a]);
            }
            if r.1.contains_key(g) && g == last.0 {
                assert(vs[n].0 == g);
            }
            if exists|a: int| 0 <= a < vs.len() && #[trigger] vs[a].0 == g {
                let a = choose|a: int| 0 <= a < vs.len() && #[trigger] vs[a].0 == g;
                if a < n {
                    assert(pre[a] == vs[a]);
                }
            }
        }
        assert forall|a: int| 0 <= a < vs.len() implies #[trigger] r.1[vs[a].0] == vs[a].2 by {
            if a < n {
                assert(pre[a] == vs[a]);
            }
        }
    }
}

/// Every row of channel `c` records a user of `index` with its group id (other than
/// `usize::MAX`) and that group's time in `stamps`; no user has two rows there.
pub open spec fn rows_record(rows: Seq<GroupRow>, c: Seq<char>, index: Map<Seq<char>, usize>, stamps: Map<usize, i64>) -> bool {
    &&& forall|j: int| 0 <= j < rows.len() && #[trigger] rows[j].receiver@ == c ==> {
        &&& usable_id(rows[j])
        &&& rows[j].group_id as usize != usize::MAX
        &&& index.contains_key(rows[j].user@)
        &&& index[rows[j].user@] == rows[j].group_id as usize
        &&& stamps.contains_key(rows[j].group_id as usize)
        &&& rows[j].last_modified == stamps[rows[j].group_id as usize]
    }
    &&& forall|x: int, y: int| 0 <= x < rows.len() && 0 <= y < rows.len() && x != y && #[trigger] rows[x].receiver@ == c
        && #[trigger] rows[y].receiver@ == c ==> rows[x].user@ != rows[y].user@
}

/// What gathering rows of channel `c` by group gives, for the first `n` rows.
pub open spec fn gathered(rows: Seq<GroupRow>, c: Seq<char>, stamps: Map<usize, i64>, n: int) -> bool {
    let vs = raw_groups(rows.take(n), c);
    &&& forall|a: int, b: int| 0 <= a < vs.len() && 0 <= b < vs.len() && a != b ==> #[trigger] vs[a].0 != #[trigger] vs[b].0
    &&& forall|a: int| 0 <= a < vs.len() ==> (#[trigger] vs[a]).0 != usize::MAX && vs[a].1.len() > 0
        && vs[a].2 == stamps[vs[a].0]
    &&& forall|a: int, u: Seq<char>| 0 <= a < vs.len() ==> (#[trigger] vs[a].1.contains(u) <==> has_row(rows.take(n), c, u, vs[a].0))
    &&& forall|g: usize| #[trigger] id_listed_view(vs, g) <==> has_some_row(rows.take(n), c, g)
}

/// Some row of channel `c` has group id `g`.
pub open spec fn has_some_row(rows: Seq<GroupRow>, c: Seq<char>, g: usize) -> bool {
    exists|u: Seq<char>| #[trigger] has_row(rows, c, u, g)
}

proof fn lemma_has_row_step(rows: Seq<GroupRow>, n: int, c: Seq<char>, u: Seq<char>, g: usize)
    requires
        0 <= n < rows.len(),
    ensures
        has_row(rows.take(n + 1), c, u, g) <==> has_row(rows.take(n), c, u, g) || (rows[n].receiver@ == c
            && rows[n].user@ == u && rows[n].group_id >= 0 && rows[n].group_id as usize == g),
{
    let t = rows.take(n + 1);
    let p = rows.take(n);
    if has_row(t, c, u, g) {
        let j = choose|j: int| 0 <= j < t.len() && #[trigger] t[j].receiver@ == c && t[j].user@ == u && t[j].group_id >= 0
            && t[j].group_id as usize == g;
        if j < n {
            assert(p[j] == t[j]);
        }
    }
    if has_row(p, c, u, g) {
        let j = choose|j: int| 0 <= j < p.len() && #[trigger] p[j].receiver@ == c && p[j].user@ == u && p[j].group_id >= 0
            && p[j].group_id as usize == g;
        assert(t[j] == p[j]);
    }
    if rows[n].receiver@ == c && rows[n].user@ == u && rows[n].group_id >= 0 && rows[n].group_id as usize == g {
        assert(t[n] == rows[n]);
    }
}

proof fn lemma_gathered(rows: Seq<GroupRow>, c: Seq<char>, index: Map<Seq<char>, usize>, stamps: Map<usize, i64>, n: int)
    requires
        rows_record(rows, c, index, stamps),
        0 <= n <= rows.len(),
    ensures
        gathered(rows, c, stamps, n),
    decreases n,
{
    if n == 0 {
        assert(raw_groups(rows.take(0), c) =~= Seq::<(usize, Seq<Seq<char>>, i64)>::empty()) by {
            assert(rows.take(0).len() == 0);
        }
        assert forall|g: usize| #[trigger] id_listed_view(raw_groups(rows.take(0), c), g) <==> has_some_row(rows.take(0), c, g) by {
            if has_some_row(rows.take(0), c, g) {
                let u = choose|u: Seq<char>| #[trigger] has_row(rows.take(0), c, u, g);
            }
        }
    } else {
        let m = n - 1;
        lemma_gathered(rows, c, index, stamps, m);
        lemma_raw_groups_step(rows, m, c);
        let prev = raw_groups(rows.take(m), c);
        let vs = raw_groups(rows.take(n), c);
        let row = rows[m];
        assert forall|u: Seq<char>, g: usize| #[trigger] has_row(rows.take(n), c, u, g) <==> has_row(rows.take(m), c, u, g)
            || (row.receiver@ == c && row.user@ == u && row.group_id >= 0 && row.group_id as usize == g) by {
            lemma_has_row_step(rows, m, c, u, g);
        }
        if row.receiver@ != c {
            assert(vs == prev);
            assert forall|g: usize| #[trigger] id_listed_view(vs, g) <==> has_some_row(rows.take(n), c, g) by {
                if id_listed_view(vs, g) {
                    assert(has_some_row(rows.take(m), c, g));
                    let u = choose|u: Seq<char>| #[trigger] has_row(rows.take(m), c, u, g);
                    assert(has_row(rows.take(n), c, u, g));
                }
                if has_some_row(rows.take(n), c, g) {
                    let u = choose|u: Seq<char>| #[trigger] has_row(rows.take(n), c, u, g);
                    assert(has_row(rows.take(m), c, u, g));
                    assert(has_some_row(rows.take(m), c, g));
                }
            }
        } else {
            assert(rows[m].receiver@ == c);
            let id = row.group_id as usize;
            lemma_first_pos_range(prev, id);
            let k = first_pos(prev, id);
            if k >= 0 {
                assert(vs == prev.update(k, (id, prev[k].1.push(row.user@), prev[k].2)));
                assert forall|a: int, b: int| 0 <= a < vs.len() && 0 <= b < vs.len() && a != b implies #[trigger] vs[a].0
                    != #[trigger] vs[b].0 by {
                    assert(vs[a].0 == prev[a].0 && vs[b].0 == prev[b].0);
                }
                assert forall|a: int| 0 <= a < vs.len() implies (#[trigger] vs[a]).0 != usize::MAX && vs[a].1.len() > 0
                    && vs[a].2 == stamps[vs[a].0] by {
                    assert(prev[a].0 != usize::MAX && prev[a].1.len() > 0 && prev[a].2 == stamps[prev[a].0]);
                }
                assert forall|a: int, u: Seq<char>| 0 <= a < vs.len() implies (#[trigger] vs[a].1.contains(u) <==> has_row(rows.take(n), c, u, vs[a].0)) by {
                    if a == k {
                        if vs[a].1.contains(u) && !prev[k].1.contains(u) {
                            let q = choose|q: int| 0 <= q < vs[a].1.len() && vs[a].1[q] == u;
                            if q < prev[k].1.len() {
                                assert(prev[k].1[q] == u);
                            }
                        }
                        if prev[k].1.contains(u) {
                            let q = choose|q: int| 0 <= q < prev[k].1.len() && prev[k].1[q] == u;
                            assert(vs[a].1[q] == u);
                        }
                        if u == row.user@ {
                            assert(vs[a].1[prev[k].1.len() as int] == u);
                        }
                    } else {
                        assert(vs[a] == prev[a]);
                    }
                }
                assert forall|g: usize| #[trigger] id_listed_view(vs, g) <==> has_some_row(rows.take(n), c, g) by {
                    if exists|a: int| 0 <= a < vs.len() && #[trigger] vs[a].0 == g {
                        let a = choose|a: int| 0 <= a < vs.len() && #[trigger] vs[a].0 == g;
                        assert(prev[a].0 == g);
                        assert(id_listed_view(prev, g));
                        assert(has_some_row(rows.take(m), c, g));
                        let u = choose|u: Seq<char>| #[trigger] has_row(rows.take(m), c, u, g);
                        assert(has_row(rows.take(n), c, u, g));
                    }
                    if exists|u: Seq<char>| #[trigger] has_row(rows.take(n), c, u, g) {
                        let u = choose|u: Seq<char>| #[trigger] has_row(rows.take(n), c, u, g);
                        if has_row(rows.take(m), c, u, g) {
                            assert(has_some_row(rows.take(m), c, g));
                            assert(id_listed_view(prev, g));
                            let a = choose|a: int| 0 <= a < prev.len() && #[trigger] prev[a].0 == g;
                            assert(vs[a].0 == g);
                        } else {
                            assert(vs[k].0 == g);
                        }
                    }
                }
            } else {
                assert(vs == prev.push((id, seq![row.user@], row.last_modified)));
                let nl = prev.len() as int;
                assert forall|a: int, b: int| 0 <= a < vs.len() && 0 <= b < vs.len() && a != b implies #[trigger] vs[a].0
                    != #[trigger] vs[b].0 by {
                    if a < nl && b < nl {
                        assert(vs[a] == prev[a] && vs[b] == prev[b]);
                    } else if a < nl {
                        assert(vs[a] == prev[a]);
                    } else {
                        assert(vs[b] == prev[b]);
                    }
                }
                assert forall|a: int| 0 <= a < vs.len() implies (#[trigger] vs[a]).0 != usize::MAX && vs[a].1.len() > 0
                    && vs[a].2 == stamps[vs[a].0] by {
                    if a < nl {
                        assert(vs[a] == prev[a]);
                    }
                }
                assert forall|u: Seq<char>| !has_row(rows.take(m), c, u, id) by {
                    if has_row(rows.take(m), c, u, id) {
                        assert(has_some_row(rows.take(m), c, id));
                        assert(id_listed_view(prev, id));
                        let a = choose|a: int| 0 <= a < prev.len() && #[trigger] prev[a].0 == id;
                    }
                }
                assert forall|a: int, u: Seq<char>| 0 <= a < vs.len() implies (#[trigger] vs[a].1.contains(u) <==> has_row(rows.take(n), c, u, vs[a].0)) by {
                    if a == nl {
                        if vs[a].1.contains(u) {
                            let q = choose|q: int| 0 <= q < vs[a].1.len() && vs[a].1[q] == u;
                        }
                        if u == row.user@ {
                            assert(vs[a].1[0] == u);
                        }
                    } else {
                        assert(vs[a] == prev[a]);
                    }
                }
                assert forall|g: usize| #[trigger] id_listed_view(vs, g) <==> has_some_row(rows.take(n), c, g) by {
                    if exists|a: int| 0 <= a < vs.len() && #[trigger] vs[a].0 == g {
                        let a = choose|a: int| 0 <= a < vs.len() && #[trigger] vs[a].0 == g;
                        if a < nl {
                            assert(prev[a].0 == g);
                            assert(id_listed_view(prev, g));
                            assert(has_some_row(rows.take(m), c, g));
                            let u = choose|u: Seq<char>| #[trigger] has_row(rows.take(m), c, u, g);
                            assert(has_row(rows.take(n), c, u, g));
                        } else {
                            assert(has_row(rows.take(n), c, row.user@, g));
                        }
                    }
                    if exists|u: Seq<char>| #[trigger] has_row(rows.take(n), c, u, g) {
                        let u = choose|u: Seq<char>| #[trigger] has_row(rows.take(n), c, u, g);
                        if has_row(rows.take(m), c, u, g) {
                            assert(has_some_row(rows.take(m), c, g));
                            assert(id_listed_view(prev, g));
                            let a = choose|a: int| 0 <= a < prev.len() && #[trigger] prev[a].0 == g;
                            assert(vs[a].0 == g);
                        } else {
                            assert(vs[nl].0 == g);
                        }
                    }
                }
            }
        }
    }
}

/// `rows` are what `group_rows` writes for `sets`: a row for each stored user, and
/// nothing else.
pub open spec fn stored_rows(sets: Seq<(String, GroupSets)>, rows: Seq<GroupRow>) -> bool {
    &&& forall|k: int| 0 <= k < rows.len() ==> assoc(keyed_by_chars(sets)).contains_key(#[trigger] rows[k].receiver@)
        && row_matches(rows[k], rows[k].receiver@, assoc(keyed_by_chars(sets))[rows[k].receiver@])
    &&& forall|c: Seq<char>, u: Seq<char>| #[trigger] assoc(keyed_by_chars(sets)).contains_key(c)
        && #[trigger] is_stored(assoc(keyed_by_chars(sets))[c], u) ==> exists|k: int| 0 <= k < rows.len()
            && #[trigger] rows[k].receiver@ == c && rows[k].user@ == u
    &&& distinct_rows(rows)
}

/// Storing groups and loading them back keeps who shares memory with whom: if every group
/// of channel `c` is still fresh at `now` and its id fits a stored integer, two different
/// users share a group after the load exactly when they shared one before. A channel
/// without rows has no two users sharing a group.
pub proof fn lemma_stored_groups_load_back(
    sets: Seq<(String, GroupSets)>,
    rows: Seq<GroupRow>,
    c: Seq<char>,
    now: i64,
    loaded: GroupSets,
    u: Seq<char>,
    v: Seq<char>,
)
    requires
        valid_sets(sets),
        stored_rows(sets, rows),
        assoc(keyed_by_chars(sets)).contains_key(c),
        forall|h: usize| #[trigger] assoc(keyed_by_chars(sets))[c].stamps().contains_key(h)
            ==> is_fresh(assoc(keyed_by_chars(sets))[c].stamps()[h], now) && h as int <= MAX_STORED_ID as int,
        has_channel_rows(rows, c) ==> is_loaded(rows, c, now, loaded),
        u != v,
    ensures
        has_channel_rows(rows, c) ==> (same_group(loaded.index(), u, v) <==> same_group(assoc(keyed_by_chars(sets))[c].index(), u, v)),
        !has_channel_rows(rows, c) ==> !same_group(assoc(keyed_by_chars(sets))[c].index(), u, v),
{
    let g = assoc(keyed_by_chars(sets))[c];
    let idx = g.index();
    let st = g.stamps();
    lemma_valid_groups_keep_invariants(&g);
    reveal(groups_invariants);
    // a user of a shared group is stored, and has a row
    assert forall|x: Seq<char>| idx.contains_key(x) && #[trigger] has_two_members(idx, idx[x])
        implies exists|k: int| 0 <= k < rows.len() && #[trigger] rows[k].receiver@ == c && rows[k].user@ == x by {
        assert(st.contains_key(idx[x]));
        assert(is_stored(g, x));
    }
    if same_group(idx, u, v) {
        assert(has_two_members(idx, idx[u]));
        let k = choose|k: int| 0 <= k < rows.len() && #[trigger] rows[k].receiver@ == c && rows[k].user@ == u;
        assert(has_channel_rows(rows, c));
    }
    if has_channel_rows(rows, c) {
        assert(rows_record(rows, c, idx, st)) by {
            assert forall|j: int| 0 <= j < rows.len() && #[trigger] rows[j].receiver@ == c implies {
                &&& usable_id(rows[j])
                &&& rows[j].group_id as usize != usize::MAX
                &&& idx.contains_key(rows[j].user@)
                &&& idx[rows[j].user@] == rows[j].group_id as usize
                &&& st.contains_key(rows[j].group_id as usize)
                &&& rows[j].last_modified == st[rows[j].group_id as usize]
            } by {
                assert(row_matches(rows[j], c, g));
                assert(st.contains_key(idx[rows[j].user@]));
            }
        }
        lemma_gathered(rows, c, idx, st, rows.len() as int);
        assert(rows.take(rows.len() as int) =~= rows);
        let vs = raw_groups(rows, c);
        assert(disjoint_groups(vs)) by {
            assert forall|a: int, b: int, x: Seq<char>| 0 <= a < vs.len() && 0 <= b < vs.len() && a != b
                && #[trigger] vs[a].1.contains(x) implies !#[trigger] vs[b].1.contains(x) by {
                if vs[b].1.contains(x) {
                    assert(has_row(rows, c, x, vs[a].0));
                    assert(has_row(rows, c, x, vs[b].0));
                    let j1 = choose|j: int| 0 <= j < rows.len() && #[trigger] rows[j].receiver@ == c && rows[j].user@ == x
                        && rows[j].group_id >= 0 && rows[j].group_id as usize == vs[a].0;
                    let j2 = choose|j: int| 0 <= j < rows.len() && #[trigger] rows[j].receiver@ == c && rows[j].user@ == x
                        && rows[j].group_id >= 0 && rows[j].group_id as usize == vs[b].0;
                    assert(j1 == j2);
                }
            }
        }
        lemma_reconcile_disjoint(vs);
        let l = loaded_groups(rows, c);
        // the rebuilt index is the index of the stored users
        assert forall|x: Seq<char>| idx.contains_key(x) && #[trigger] has_two_members(idx, idx[x])
            implies l.0.contains_key(x) && l.0[x] == idx[x] by {
            let k = choose|k: int| 0 <= k < rows.len() && #[trigger] rows[k].receiver@ == c && rows[k].user@ == x;
            assert(has_row(rows, c, x, idx[x]));
            assert(has_some_row(rows, c, idx[x]));
            assert(id_listed_view(vs, idx[x]));
            let a = choose|a: int| 0 <= a < vs.len() && #[trigger] vs[a].0 == idx[x];
            assert(vs[a].1.contains(x));
        }
        assert forall|x: Seq<char>| #[trigger] l.0.contains_key(x) implies idx.contains_key(x) && l.0[x] == idx[x]
            && has_two_members(idx, idx[x]) by {
            let a = choose|a: int| 0 <= a < vs.len() && #[trigger] vs[a].1.contains(x);
            assert(has_row(rows, c, x, vs[a].0));
            let j = choose|j: int| 0 <= j < rows.len() && #[trigger] rows[j].receiver@ == c && rows[j].user@ == x
                && rows[j].group_id >= 0 && rows[j].group_id as usize == vs[a].0;
            assert(row_matches(rows[j], c, g));
        }
        // nothing expires
        assert forall|x: Seq<char>| #[trigger] l.0.contains_key(x) implies loaded.index().contains_key(x)
            && loaded.index()[x] == l.0[x] by {
            let h = idx[x];
            let a = choose|a: int| 0 <= a < vs.len() && #[trigger] vs[a].1.contains(x);
            assert(l.1.contains_key(vs[a].0));
            assert(l.1[vs[a].0] == st[h]);
            let (p, q) = choose|p: Seq<char>, q: Seq<char>|
                p != q && idx.contains_key(p) && idx.contains_key(q) && #[trigger] idx[p] == h && #[trigger] idx[q] == h;
            assert(has_two_members(idx, idx[p]));
            assert(has_two_members(idx, idx[q]));
            assert(l.0.contains_key(p) && l.0[p] == h);
            assert(l.0.contains_key(q) && l.0[q] == h);
            assert(has_two_members(l.0, h));
            assert(loaded.stamps().contains_key(h));
        }
        assert forall|x: Seq<char>| #[trigger] loaded.index().contains_key(x) implies l.0.contains_key(x) by {
        }
        if same_group(idx, u, v) {
            assert(has_two_members(idx, idx[u]));
            assert(has_two_members(idx, idx[v]));
            assert(l.0.contains_key(u) && l.0.contains_key(v));
        }
        if same_group(loaded.index(), u, v) {
            assert(l.0.contains_key(u) && l.0.contains_key(v));
        }
    }
}

} // verus!
