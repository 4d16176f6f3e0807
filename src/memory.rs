//! Conversation memory: per-user message history with age and count retention, and
//! per-channel groups of users who share their history.
use vstd::prelude::*;
use vstd::utf8::encode_utf8;
use crate::groups::{
    GroupInfo, GroupSets, group_view, groups_invariants, lemma_reconcile_views, listed_in, reconcile_views,
    survives, in_live_group, has_two_members, lemma_valid_groups_keep_invariants, index_after_remove, index_after_union, is_fresh, members_in, names,
    next_after_remove, next_after_union, stamps_after_remove, stamps_after_union,
};
use crate::assoc::{
    assoc, has_key, kept, keyed_by_chars, keys_unique, lemma_assoc_all, lemma_assoc_at, lemma_assoc_push,
    lemma_assoc_remove, lemma_keyed_by_chars_push, lemma_keyed_by_chars_remove,
};

verus! {

/// Entries at least this old (in nanoseconds: ten minutes) are dropped on load.
pub const MEMORY_RETENTION_NANOS: i64 = 600_000_000_000;

/// The largest group id that a stored row can hold.
pub const MAX_STORED_ID: u64 = 9_223_372_036_854_775_807;

/// At most this many entries per user are kept on load.
pub const MEMORY_MAX_MESSAGES: usize = 20;

/// Who wrote a message.
#[derive(Debug, Clone, Copy, PartialEq, Eq, Structural)]
pub enum Sender {
    User,
    Assistant,
}

impl Sender {
    /// The role name as stored and as sent on: `user` or `assistant`.
    pub fn as_str(&self) -> (r: &'static str)
        ensures
            *self == Sender::User ==> r@ == "user"@,
            *self == Sender::Assistant ==> r@ == "assistant"@,
    {
        match self {
            Sender::User => "user",
            Sender::Assistant => "assistant",
        }
    }

    /// Reads a stored role name; anything but `user` or `assistant` is refused.
    pub fn parse(s: &str) -> (r: Option<Sender>)
        ensures
            r == (if s@ == "user"@ {
                Some(Sender::User)
            } else if s@ == "assistant"@ {
                Some(Sender::Assistant)
            } else {
                None::<Sender>
            }),
    {
        let t = s.to_string();
        let user = "user".to_string();
        let assistant = "assistant".to_string();
        if t == user {
            Some(Sender::User)
        } else if t == assistant {
            Some(Sender::Assistant)
        } else {
            None
        }
    }
}

/// One message in a user's history: who wrote it, in which channel, when (nanoseconds
/// since the Unix epoch), and its text.
#[derive(Debug)]
pub struct Entry {
    pub sender: Sender,
    pub receiver: String,
    pub timestamp: i64,
    pub message: String,
}

impl Entry {
    /// A copy of the entry.
    pub fn duplicate(&self) -> (r: Entry)
        ensures
            r == *self,
    {
        Entry {
            sender: self.sender,
            receiver: self.receiver.clone(),
            timestamp: self.timestamp,
            message: self.message.clone(),
        }
    }
}

/// An entry written at `stamp` is still kept at `now`.
pub open spec fn entry_is_fresh(stamp: i64, now: i64) -> bool {
    stamp as int > now as int - MEMORY_RETENTION_NANOS as int
}

/// The rows are in order of time, oldest first.
pub open spec fn in_time_order(rows: Seq<(String, Entry)>) -> bool {
    forall|i: int, j: int| 0 <= i < j < rows.len() ==> rows[i].1.timestamp <= rows[j].1.timestamp
}

/// The entries of `user` among `rows`, in row order.
pub open spec fn rows_of(rows: Seq<(String, Entry)>, user: Seq<char>) -> Seq<Entry> {
    rows.filter(|r: (String, Entry)| r.0@ == user).map_values(|r: (String, Entry)| r.1)
}

/// What is kept of a user's entries (oldest first) at `now`: the fresh ones, and of those
/// only the last `MEMORY_MAX_MESSAGES`.
pub open spec fn retained(es: Seq<Entry>, now: i64) -> Seq<Entry> {
    let f = es.filter(|e: Entry| entry_is_fresh(e.timestamp, now));
    if f.len() > MEMORY_MAX_MESSAGES {
        f.subrange(f.len() - MEMORY_MAX_MESSAGES, f.len() as int)
    } else {
        f
    }
}

/// Each user's entries, as lists.
pub open spec fn histories(v: Seq<(String, Vec<Entry>)>) -> Map<Seq<char>, Seq<Entry>> {
    assoc(keyed_by_chars(v)).map_values(|es: Vec<Entry>| es@)
}

/// Some row belongs to `user`.
pub open spec fn has_rows(rows: Seq<(String, Entry)>, user: Seq<char>) -> bool {
    exists|i: int| 0 <= i < rows.len() && #[trigger] rows[i].0@ == user
}

proof fn lemma_rows_of_step(rows: Seq<(String, Entry)>, i: int, user: Seq<char>)
    requires
        0 <= i < rows.len(),
    ensures
        rows_of(rows.take(i + 1), user) == if rows[i].0@ == user {
            rows_of(rows.take(i), user).push(rows[i].1)
        } else {
            rows_of(rows.take(i), user)
        },
        has_rows(rows.take(i + 1), user) == (has_rows(rows.take(i), user) || rows[i].0@ == user),
{
    reveal(Seq::filter);
    let t = rows.take(i + 1);
    assert(t.drop_last() =~= rows.take(i));
    assert(t.last() == rows[i]);
    let pred = |r: (String, Entry)| r.0@ == user;
    let f = rows.take(i).filter(pred);
    if rows[i].0@ == user {
        assert(t.filter(pred) == f.push(rows[i]));
        assert(f.push(rows[i]).map_values(|r: (String, Entry)| r.1) =~= f.map_values(|r: (String, Entry)| r.1).push(rows[i].1));
    } else {
        assert(t.filter(pred) == f);
    }
    if has_rows(t, user) {
        let j = choose|j: int| 0 <= j < t.len() && #[trigger] t[j].0@ == user;
        if j < i {
            assert(rows.take(i)[j].0@ == user);
        }
    }
    if has_rows(rows.take(i), user) {
        let j = choose|j: int| 0 <= j < i && #[trigger] rows.take(i)[j].0@ == user;
        assert(t[j].0@ == user);
    }
    if rows[i].0@ == user {
        assert(t[i].0@ == user);
    }
}

fn position_of_name<T>(v: &Vec<(String, T)>, u: &String) -> (r: Option<usize>)
    requires
        keys_unique(keyed_by_chars(v@)),
    ensures
        r is None ==> !assoc(keyed_by_chars(v@)).contains_key(u@),
        r is Some ==> r->0 < v@.len() && v@[r->0 as int].0@ == u@,
{
    let ghost s = keyed_by_chars(v@);
    let mut i: usize = 0;
    while i < v.len()
        invariant
            i <= v@.len(),
            s == keyed_by_chars(v@),
            forall|j: int| 0 <= j < i ==> v@[j].0@ != u@,
        decreases v.len() - i,
    {
        if v[i].0 == *u {
            return Some(i);
        }
        i = i + 1;
    }
    proof {
        if has_key(s, u@) {
            let j = choose|j: int| 0 <= j < s.len() && #[trigger] s[j].0 == u@;
            assert(v@[j].0@ == u@);
        }
    }
    None
}

/// The rows gathered per user, users in order of their first row.
fn group_by_user(rows: &Vec<(String, Entry)>) -> (r: Vec<(String, Vec<Entry>)>)
    ensures
        keys_unique(keyed_by_chars(r@)),
        forall|u: Seq<char>| #[trigger] histories(r@).contains_key(u) <==> has_rows(rows@, u),
        forall|u: Seq<char>| #[trigger] histories(r@).contains_key(u) ==> histories(r@)[u] == rows_of(rows@, u),
{
    let mut r: Vec<(String, Vec<Entry>)> = Vec::new();
    let mut i: usize = 0;
    while i < rows.len()
        invariant
            i <= rows@.len(),
            keys_unique(keyed_by_chars(r@)),
            forall|u: Seq<char>| #[trigger] histories(r@).contains_key(u) <==> has_rows(rows@.take(i as int), u),
            forall|u: Seq<char>| #[trigger] histories(r@).contains_key(u) ==> histories(r@)[u] == rows_of(rows@.take(i as int), u),
        decreases rows@.len() - i,
    {
        let ghost r0 = r@;
        let user = &rows[i].0;
        let entry = rows[i].1.duplicate();
        match position_of_name(&r, user) {
            Some(p) => {
                proof {
                    lemma_assoc_at(keyed_by_chars(r@), p as int);
                    lemma_assoc_remove(keyed_by_chars(r@), p as int);
                    lemma_keyed_by_chars_remove(r@, p as int);
                }
                let mut pair = r.remove(p);
                let ghost mid = r@;
                pair.1.push(entry);
                proof {
                    lemma_assoc_push(keyed_by_chars(mid), pair.0@, pair.1);
                    lemma_keyed_by_chars_push(mid, pair.0, pair.1);
                }
                r.push(pair);
                proof {
                    let un = rows@[i as int].0@;
                    assert(histories(r@) =~= histories(r0).insert(un, histories(r0)[un].push(rows@[i as int].1)));
                    assert forall|u: Seq<char>| #[trigger] histories(r@).contains_key(u) ==> histories(r@)[u] == rows_of(rows@.take(i as int + 1), u) by {
                        lemma_rows_of_step(rows@, i as int, u);
                    }
                    assert forall|u: Seq<char>| #[trigger] histories(r@).contains_key(u) <==> has_rows(rows@.take(i as int + 1), u) by {
                        lemma_rows_of_step(rows@, i as int, u);
                    }
                }
            },
            None => {
                let name = user.clone();
                let mut es: Vec<Entry> = Vec::new();
                es.push(entry);
                proof {
                    lemma_assoc_push(keyed_by_chars(r@), name@, es);
                    lemma_keyed_by_chars_push(r@, name, es);
                }
                r.push((name, es));
                proof {
                    let un = rows@[i as int].0@;
                    assert(!histories(r0).contains_key(un));
                    assert(histories(r@) =~= histories(r0).insert(un, es@));
                    assert forall|u: Seq<char>| #[trigger] histories(r@).contains_key(u) ==> histories(r@)[u] == rows_of(rows@.take(i as int + 1), u) by {
                        lemma_rows_of_step(rows@, i as int, u);
                        if u == rows@[i as int].0@ {
                            assert(!histories(r0).contains_key(u));
                            assert(!has_rows(rows@.take(i as int), u));
                            assert(rows_of(rows@.take(i as int), u) =~= Seq::<Entry>::empty()) by {
                                reveal(Seq::filter);
                                lemma_no_rows_empty(rows@.take(i as int), u);
                            }
                            assert(histories(r@)[u] =~= seq![rows@[i as int].1]);
                        }
                    }
                    assert forall|u: Seq<char>| #[trigger] histories(r@).contains_key(u) <==> has_rows(rows@.take(i as int + 1), u) by {
                        lemma_rows_of_step(rows@, i as int, u);
                    }
                }
            },
        }
        i = i + 1;
    }
    assert(rows@.take(i as int) =~= rows@);
    r
}

/// What is kept of a user's entries (oldest first) at `now`.
pub fn retain_entries(es: &Vec<Entry>, now: i64) -> (r: Vec<Entry>)
    ensures
        r@ == retained(es@, now),
{
    let cutoff: i128 = now as i128 - MEMORY_RETENTION_NANOS as i128;
    let ghost pred = |e: Entry| entry_is_fresh(e.timestamp, now);
    let mut fresh: Vec<Entry> = Vec::new();
    let mut i: usize = 0;
    while i < es.len()
        invariant
            i <= es@.len(),
            cutoff == now as int - MEMORY_RETENTION_NANOS as int,
            pred == (|e: Entry| entry_is_fresh(e.timestamp, now)),
            fresh@ == es@.take(i as int).filter(pred),
        decreases es@.len() - i,
    {
        proof {
            reveal(Seq::filter);
            let t = es@.take(i as int + 1);
            assert(t.drop_last() =~= es@.take(i as int));
            assert(t.last() == es@[i as int]);
        }
        if es[i].timestamp as i128 > cutoff {
            fresh.push(es[i].duplicate());
        }
        i = i + 1;
    }
    assert(es@.take(i as int) =~= es@);
    if fresh.len() <= MEMORY_MAX_MESSAGES {
        return fresh;
    }
    let start: usize = fresh.len() - MEMORY_MAX_MESSAGES;
    let mut r: Vec<Entry> = Vec::new();
    let mut k: usize = start;
    while k < fresh.len()
        invariant
            start <= k <= fresh@.len(),
            r@ == fresh@.subrange(start as int, k as int),
        decreases fresh@.len() - k,
    {
        r.push(fresh[k].duplicate());
        assert(r@ =~= fresh@.subrange(start as int, k as int + 1));
        k = k + 1;
    }
    r
}

/// The history kept on load at `now`, from stored rows in chronological order: each
/// user's retained entries; users with none left are absent.
pub fn load_history(rows: &Vec<(String, Entry)>, now: i64) -> (r: Vec<(String, Vec<Entry>)>)
    requires
        in_time_order(rows@),
    ensures
        keys_unique(keyed_by_chars(r@)),
        forall|u: Seq<char>| #[trigger] histories(r@).contains_key(u) <==> retained(rows_of(rows@, u), now).len() > 0,
        forall|u: Seq<char>| #[trigger] histories(r@).contains_key(u) ==> histories(r@)[u] == retained(rows_of(rows@, u), now),
{
    let grouped = group_by_user(rows);
    let ghost gk = keyed_by_chars(grouped@);
    proof { lemma_assoc_all(gk); }
    let mut out: Vec<(String, Vec<Entry>)> = Vec::new();
    let mut j: usize = 0;
    while j < grouped.len()
        invariant
            j <= grouped@.len(),
            gk == keyed_by_chars(grouped@),
            keys_unique(gk),
            forall|q: int| 0 <= q < gk.len() ==> assoc(gk).contains_key(#[trigger] gk[q].0) && assoc(gk)[gk[q].0] == gk[q].1,
            keys_unique(keyed_by_chars(out@)),
            forall|u: Seq<char>| #[trigger] histories(out@).contains_key(u) ==> exists|q: int|
                0 <= q < j && #[trigger] gk[q].0 == u && histories(out@)[u] == retained(gk[q].1@, now),
            forall|q: int| 0 <= q < j && retained(gk[q].1@, now).len() > 0 ==> #[trigger] histories(out@).contains_key(gk[q].0),
            forall|u: Seq<char>| #[trigger] histories(out@).contains_key(u) ==> histories(out@)[u].len() > 0,
        decreases grouped@.len() - j,
    {
        let kept = retain_entries(&grouped[j].1, now);
        assert(gk[j as int].0 == grouped@[j as int].0@);
        if kept.len() > 0 {
            let name = grouped[j].0.clone();
            let ghost o0 = out@;
            proof {
                if assoc(keyed_by_chars(out@)).contains_key(name@) {
                    assert(histories(out@).contains_key(name@));
                    let q = choose|q: int| 0 <= q < j && #[trigger] gk[q].0 == name@ && histories(out@)[name@] == retained(gk[q].1@, now);
                }
                lemma_assoc_push(keyed_by_chars(out@), name@, kept);
                lemma_keyed_by_chars_push(out@, name, kept);
            }
            out.push((name, kept));
            proof {
                assert(histories(out@) =~= histories(o0).insert(gk[j as int].0, retained(gk[j as int].1@, now)));
                assert forall|u: Seq<char>| #[trigger] histories(out@).contains_key(u) implies exists|q: int|
                    0 <= q < j + 1 && #[trigger] gk[q].0 == u && histories(out@)[u] == retained(gk[q].1@, now) by {
                    if u != gk[j as int].0 {
                        let q = choose|q: int| 0 <= q < j && #[trigger] gk[q].0 == u && histories(o0)[u] == retained(gk[q].1@, now);
                    }
                }
            }
        }
        j = j + 1;
    }
    proof {
        assert forall|u: Seq<char>| #[trigger] histories(out@).contains_key(u) <==> retained(rows_of(rows@, u), now).len() > 0 by {
            if histories(out@).contains_key(u) {
                let q = choose|q: int| 0 <= q < j && #[trigger] gk[q].0 == u && histories(out@)[u] == retained(gk[q].1@, now);
                assert(histories(grouped@).contains_key(u));
            }
            if retained(rows_of(rows@, u), now).len() > 0 {
                if !has_rows(rows@, u) {
                    lemma_no_rows_empty(rows@, u);
                    reveal(Seq::filter);
                    assert(rows_of(rows@, u) =~= Seq::<Entry>::empty());
                    assert(rows_of(rows@, u).filter(|e: Entry| entry_is_fresh(e.timestamp, now)).len() == 0);
                }
                assert(histories(grouped@).contains_key(u));
                let q = choose|q: int| 0 <= q < gk.len() && #[trigger] gk[q].0 == u;
            }
        }
        assert forall|u: Seq<char>| #[trigger] histories(out@).contains_key(u) implies histories(out@)[u] == retained(rows_of(rows@, u), now) by {
            let q = choose|q: int| 0 <= q < j && #[trigger] gk[q].0 == u && histories(out@)[u] == retained(gk[q].1@, now);
            assert(histories(grouped@).contains_key(u));
        }
    }
    out
}

/// `a` comes before or equals `b` when compared byte by byte (a prefix comes first).
pub open spec fn bytes_le(a: Seq<u8>, b: Seq<u8>) -> bool
    decreases a.len(),
{
    if a.len() == 0 {
        true
    } else if b.len() == 0 {
        false
    } else if a[0] < b[0] {
        true
    } else if a[0] > b[0] {
        false
    } else {
        bytes_le(a.subrange(1, a.len() as int), b.subrange(1, b.len() as int))
    }
}

/// The names are in ascending order of their UTF-8 bytes.
pub open spec fn sorted_names(v: Seq<String>) -> bool {
    forall|i: int, j: int| 0 <= i < j < v.len() ==> bytes_le(encode_utf8(v[i]@), encode_utf8(v[j]@))
}

/// Relies on `slice::sort` on `String`s: it reorders the names into ascending order,
/// `String`s comparing lexicographically by their bytes.
#[verifier::external_body]
fn sort_names(v: &mut Vec<String>)
    ensures
        final(v)@.to_multiset() == old(v)@.to_multiset(),
        sorted_names(final(v)@),
{
    v.sort();
}

/// Reordering names that are all different keeps them all different.
proof fn lemma_reordered_names_distinct(before: Seq<String>, after: Seq<String>)
    requires
        after.to_multiset() == before.to_multiset(),
        names(before).no_duplicates(),
    ensures
        names(after).no_duplicates(),
{
    broadcast use vstd::seq_lib::group_to_multiset_ensures, vstd::multiset::group_multiset_axioms;

    assert forall|a: int, b: int| 0 <= a < names(after).len() && 0 <= b < names(after).len() && a != b
        implies names(after)[a] != names(after)[b] by {
        if names(after)[a] == names(after)[b] {
            assert(after.contains(after[a]));
            assert(before.to_multiset().count(after[a]) > 0);
            let p = choose|p: int| 0 <= p < before.len() && before[p] == after[a];
            assert(after.contains(after[b]));
            assert(before.to_multiset().count(after[b]) > 0);
            let q = choose|q: int| 0 <= q < before.len() && before[q] == after[b];
            if p != q {
                assert(names(before)[p] == names(before)[q]);
            } else {
                let x = after[a];
                let ra = after.remove(a);
                let bi = if b < a { b } else { b - 1 };
                assert(ra[bi] == x);
                assert(ra.contains(x));
                assert(ra.to_multiset().count(x) > 0);
                assert(ra.to_multiset() == after.to_multiset().remove(x));
                assert(after.to_multiset().count(x) >= 2);
                let rp = before.remove(p);
                assert(rp.to_multiset() == before.to_multiset().remove(x));
                assert(before.to_multiset().count(x) >= 2);
                assert(rp.to_multiset().count(x) >= 1);
                assert(rp.contains(x));
                let t = choose|t: int| 0 <= t < rp.len() && rp[t] == x;
                let t2 = if t < p { t } else { t + 1 };
                assert(before[t2] == x);
                assert(names(before)[t2] == names(before)[p]);
            }
        }
    }
}

/// A stored membership row: `user` belongs to group `group_id` in channel `receiver`,
/// whose last change was at `last_modified`.
#[derive(Debug)]
pub struct GroupRow {
    pub user: String,
    pub receiver: String,
    pub group_id: i64,
    pub last_modified: i64,
}

/// The in-memory view of the store: each user's history, and each channel's groups.
pub struct Memory {
    entries: Vec<(String, Vec<Entry>)>,
    joined_users: Vec<(String, GroupSets)>,
}

/// Who shares memory with `user` in a channel whose groups are `sets` (if any): its group,
/// or just itself.
pub open spec fn joined_set(sets: Option<GroupSets>, user: Seq<char>) -> Set<Seq<char>> {
    match sets {
        Some(g) => if g.index().contains_key(user) {
            members_in(g.index(), g.index()[user])
        } else {
            set![user]
        },
        None => set![user],
    }
}

/// `es` without the entries of channel `receiver`.
pub open spec fn without_channel(es: Seq<Entry>, receiver: Seq<char>) -> Seq<Entry> {
    es.filter(|e: Entry| e.receiver@ != receiver)
}

/// What a history shows of channel `receiver`: role, text and time of each entry there.
pub open spec fn shown(es: Seq<Entry>, receiver: Seq<char>) -> Seq<(Sender, Seq<char>, i64)> {
    es.filter(|e: Entry| e.receiver@ == receiver).map_values(|e: Entry| (e.sender, e.message@, e.timestamp))
}

/// The histories after the entries of channel `receiver` are removed for each user in
/// `users`; a user left without entries is dropped.
pub open spec fn cleared(h: Map<Seq<char>, Seq<Entry>>, users: Seq<Seq<char>>, receiver: Seq<char>) -> Map<Seq<char>, Seq<Entry>> {
    Map::new(
        |u: Seq<char>| h.contains_key(u) && (!users.contains(u) || without_channel(h[u], receiver).len() > 0),
        |u: Seq<char>| if users.contains(u) { without_channel(h[u], receiver) } else { h[u] },
    )
}

proof fn lemma_without_channel_twice(es: Seq<Entry>, receiver: Seq<char>)
    ensures
        without_channel(without_channel(es, receiver), receiver) == without_channel(es, receiver),
    decreases es.len(),
{
    reveal(Seq::filter);
    if es.len() > 0 {
        lemma_without_channel_twice(es.drop_last(), receiver);
        let w = without_channel(es, receiver);
        let wd = without_channel(es.drop_last(), receiver);
        if es.last().receiver@ != receiver {
            assert(w == wd.push(es.last()));
            assert(w.drop_last() =~= wd);
        } else {
            assert(w == wd);
        }
    }
}

proof fn lemma_cleared_step(h: Map<Seq<char>, Seq<Entry>>, us: Seq<Seq<char>>, k: int, receiver: Seq<char>)
    requires
        0 <= k < us.len(),
    ensures
        ({
            let hk = cleared(h, us.take(k), receiver);
            let x = us[k];
            cleared(h, us.take(k + 1), receiver) == if hk.contains_key(x) {
                if without_channel(hk[x], receiver).len() > 0 {
                    hk.insert(x, without_channel(hk[x], receiver))
                } else {
                    hk.remove(x)
                }
            } else {
                hk
            }
        }),
{
    let a = us.take(k);
    let b = us.take(k + 1);
    let x = us[k];
    assert(b =~= a.push(x));
    assert forall|u: Seq<char>| b.contains(u) <==> a.contains(u) || u == x by {
        if b.contains(u) {
            let q = choose|q: int| 0 <= q < b.len() && b[q] == u;
            if q < k {
                assert(a[q] == u);
            }
        }
        if a.contains(u) {
            let q = choose|q: int| 0 <= q < a.len() && a[q] == u;
            assert(b[q] == u);
        }
        if u == x {
            assert(b[k] == u);
        }
    }
    if h.contains_key(x) {
        lemma_without_channel_twice(h[x], receiver);
    }
    let hk = cleared(h, a, receiver);
    let want = if hk.contains_key(x) {
        if without_channel(hk[x], receiver).len() > 0 {
            hk.insert(x, without_channel(hk[x], receiver))
        } else {
            hk.remove(x)
        }
    } else {
        hk
    };
    assert(cleared(h, b, receiver) =~= want);
}

/// `es` without the entries of channel `receiver`.
fn drop_channel(es: &Vec<Entry>, receiver: &String) -> (r: Vec<Entry>)
    ensures
        r@ == without_channel(es@, receiver@),
{
    let ghost pred = |e: Entry| e.receiver@ != receiver@;
    let mut r: Vec<Entry> = Vec::new();
    let mut i: usize = 0;
    while i < es.len()
        invariant
            i <= es@.len(),
            pred == (|e: Entry| e.receiver@ != receiver@),
            r@ == es@.take(i as int).filter(pred),
        decreases es@.len() - i,
    {
        proof {
            reveal(Seq::filter);
            let t = es@.take(i as int + 1);
            assert(t.drop_last() =~= es@.take(i as int));
            assert(t.last() == es@[i as int]);
        }
        if !(es[i].receiver == *receiver) {
            r.push(es[i].duplicate());
        }
        i = i + 1;
    }
    assert(es@.take(i as int) =~= es@);
    r
}

/// Why a change to the groups was refused.
#[derive(Debug, Clone, Copy, PartialEq, Eq, Structural)]
pub enum MemoryError {
    /// The channel has used up its group ids.
    GroupIdsExhausted,
}

/// Every channel appears once, and its groups are valid.
pub open spec fn valid_sets(v: Seq<(String, GroupSets)>) -> bool {
    &&& keys_unique(keyed_by_chars(v))
    &&& forall|c: Seq<char>| #[trigger] assoc(keyed_by_chars(v)).contains_key(c) ==> assoc(keyed_by_chars(v))[c].wf()
}

/// The index of channel `c` in `v`; empty if the channel has no groups yet.
pub open spec fn index_in(v: Seq<(String, GroupSets)>, c: Seq<char>) -> Map<Seq<char>, usize> {
    if assoc(keyed_by_chars(v)).contains_key(c) {
        assoc(keyed_by_chars(v))[c].index()
    } else {
        Map::empty()
    }
}

/// The live groups of channel `c` in `v`; none if the channel has no groups yet.
pub open spec fn stamps_in(v: Seq<(String, GroupSets)>, c: Seq<char>) -> Map<usize, i64> {
    if assoc(keyed_by_chars(v)).contains_key(c) {
        assoc(keyed_by_chars(v))[c].stamps()
    } else {
        Map::empty()
    }
}

/// The next group id of channel `c` in `v`; zero if the channel has no groups yet.
pub open spec fn next_in(v: Seq<(String, GroupSets)>, c: Seq<char>) -> usize {
    if assoc(keyed_by_chars(v)).contains_key(c) {
        assoc(keyed_by_chars(v))[c].next_id()
    } else {
        0
    }
}

/// `after` holds the same channels with the same groups as `before`, but for channel `c`.
pub open spec fn others_unchanged(before: Seq<(String, GroupSets)>, after: Seq<(String, GroupSets)>, c: Seq<char>) -> bool {
    forall|d: Seq<char>| d != c ==> (#[trigger] assoc(keyed_by_chars(after)).contains_key(d) == assoc(keyed_by_chars(before)).contains_key(d))
        && (assoc(keyed_by_chars(after)).contains_key(d) ==> assoc(keyed_by_chars(after))[d] == assoc(keyed_by_chars(before))[d])
}

/// Takes channel `receiver`'s groups out of `sets` (fresh ones if it has none).
fn take_channel(sets: &mut Vec<(String, GroupSets)>, receiver: &String) -> (r: GroupSets)
    requires
        valid_sets(old(sets)@),
    ensures
        valid_sets(final(sets)@),
        !assoc(keyed_by_chars(final(sets)@)).contains_key(receiver@),
        assoc(keyed_by_chars(final(sets)@)) == assoc(keyed_by_chars(old(sets)@)).remove(receiver@),
        r.wf(),
        assoc(keyed_by_chars(old(sets)@)).contains_key(receiver@) ==> r == assoc(keyed_by_chars(old(sets)@))[receiver@],
        r.index() == index_in(old(sets)@, receiver@),
        r.stamps() == stamps_in(old(sets)@, receiver@),
        r.next_id() == next_in(old(sets)@, receiver@),
{
    match position_of_name(sets, receiver) {
        Some(p) => {
            proof {
                lemma_assoc_at(keyed_by_chars(sets@), p as int);
                lemma_assoc_remove(keyed_by_chars(sets@), p as int);
                lemma_keyed_by_chars_remove(sets@, p as int);
            }
            let pair = sets.remove(p);
            pair.1
        },
        None => {
            let g = GroupSets::new();
            assert(assoc(keyed_by_chars(sets@)).remove(receiver@) =~= assoc(keyed_by_chars(sets@)));
            g
        },
    }
}

/// Puts channel `receiver`'s groups back into `sets`.
fn put_channel(sets: &mut Vec<(String, GroupSets)>, receiver: String, g: GroupSets)
    requires
        valid_sets(old(sets)@),
        !assoc(keyed_by_chars(old(sets)@)).contains_key(receiver@),
        g.wf(),
    ensures
        valid_sets(final(sets)@),
        assoc(keyed_by_chars(final(sets)@)) == assoc(keyed_by_chars(old(sets)@)).insert(receiver@, g),
{
    proof {
        lemma_assoc_push(keyed_by_chars(sets@), receiver@, g);
        lemma_keyed_by_chars_push(sets@, receiver, g);
    }
    sets.push((receiver, g));
}

/// Joins `user1` and `user2` in channel `receiver` (see `GroupSets::union_at`); refused,
/// with nothing changed, when the channel has no two group ids left.
pub fn join_in(sets: &mut Vec<(String, GroupSets)>, receiver: &str, user1: &str, user2: &str, now: i64) -> (r: Result<(), MemoryError>)
    requires
        valid_sets(old(sets)@),
    ensures
        valid_sets(final(sets)@),
        r is Err <==> next_in(old(sets)@, receiver@) >= usize::MAX - 1,
        r is Err ==> assoc(keyed_by_chars(final(sets)@)) == assoc(keyed_by_chars(old(sets)@)),
        r is Ok ==> others_unchanged(old(sets)@, final(sets)@, receiver@),
        r is Ok ==> index_in(final(sets)@, receiver@) == index_after_union(
            index_in(old(sets)@, receiver@), next_in(old(sets)@, receiver@), user1@, user2@),
        r is Ok ==> next_in(final(sets)@, receiver@) == next_after_union(
            index_in(old(sets)@, receiver@), next_in(old(sets)@, receiver@), user1@, user2@),
        r is Ok ==> stamps_in(final(sets)@, receiver@) == stamps_after_union(
            stamps_in(old(sets)@, receiver@), index_in(old(sets)@, receiver@), next_in(old(sets)@, receiver@),
            user1@, user2@, now),
{
    let rc = receiver.to_string();
    let ghost before = assoc(keyed_by_chars(sets@));
    let mut g = take_channel(sets, &rc);
    let exhausted = g.next_group_id() >= usize::MAX - 1;
    if !exhausted {
        g.union_at(user1, user2, now);
    }
    put_channel(sets, rc, g);
    proof {
        if exhausted {
            if before.contains_key(receiver@) {
                assert(assoc(keyed_by_chars(sets@)) =~= before);
            }
        }
    }
    if exhausted {
        return Err(MemoryError::GroupIdsExhausted);
    }
    Ok(())
}

/// Makes `user` solo in channel `receiver` (see `GroupSets::remove_user_at`); refused,
/// with nothing changed, when the channel has no group id left.
pub fn solo_in(sets: &mut Vec<(String, GroupSets)>, receiver: &str, user: &str, now: i64) -> (r: Result<(), MemoryError>)
    requires
        valid_sets(old(sets)@),
    ensures
        valid_sets(final(sets)@),
        r is Err <==> next_in(old(sets)@, receiver@) >= usize::MAX,
        r is Err ==> assoc(keyed_by_chars(final(sets)@)) == assoc(keyed_by_chars(old(sets)@)),
        r is Ok ==> others_unchanged(old(sets)@, final(sets)@, receiver@),
        r is Ok ==> index_in(final(sets)@, receiver@) == index_after_remove(
            index_in(old(sets)@, receiver@), next_in(old(sets)@, receiver@), user@),
        r is Ok ==> next_in(final(sets)@, receiver@) == next_after_remove(
            index_in(old(sets)@, receiver@), next_in(old(sets)@, receiver@), user@),
        r is Ok ==> stamps_in(final(sets)@, receiver@) == stamps_after_remove(
            stamps_in(old(sets)@, receiver@), index_in(old(sets)@, receiver@), next_in(old(sets)@, receiver@),
            user@, now),
{
    let rc = receiver.to_string();
    let ghost before = assoc(keyed_by_chars(sets@));
    let mut g = take_channel(sets, &rc);
    let exhausted = g.next_group_id() >= usize::MAX;
    if !exhausted {
        g.remove_user_at(user, now);
    }
    put_channel(sets, rc, g);
    proof {
        if exhausted {
            if before.contains_key(receiver@) {
                assert(assoc(keyed_by_chars(sets@)) =~= before);
            }
        }
    }
    if exhausted {
        return Err(MemoryError::GroupIdsExhausted);
    }
    Ok(())
}

/// Every member that `list` gives a group has a row of channel `c` with that user and
/// that group id.
pub open spec fn sourced(rows: Seq<GroupRow>, c: Seq<char>, list: Seq<(usize, GroupInfo)>) -> bool {
    forall|k: int, u: Seq<char>| 0 <= k < list.len() && #[trigger] names(list[k].1.members@).contains(u)
        ==> has_row(rows, c, u, list[k].0)
}

/// Some row records `u` in group `g` of channel `c`.
pub open spec fn has_row(rows: Seq<GroupRow>, c: Seq<char>, u: Seq<char>, g: usize) -> bool {
    exists|j: int| 0 <= j < rows.len() && #[trigger] rows[j].receiver@ == c && rows[j].user@ == u && rows[j].group_id >= 0
        && rows[j].group_id as usize == g
}

/// Every user that `g` places in a group of channel `c` has a row there with that group id.
pub open spec fn backed_by_rows(rows: Seq<GroupRow>, c: Seq<char>, g: GroupSets) -> bool {
    forall|u: Seq<char>| #[trigger] g.index().contains_key(u) ==> has_row(rows, c, u, g.index()[u])
}

proof fn lemma_has_row_grow(rows: Seq<GroupRow>, i: int, c: Seq<char>, u: Seq<char>, g: usize)
    requires
        0 <= i < rows.len(),
        has_row(rows.take(i), c, u, g),
    ensures
        has_row(rows.take(i + 1), c, u, g),
{
    let j = choose|j: int| 0 <= j < i && #[trigger] rows.take(i)[j].receiver@ == c && rows.take(i)[j].user@ == u
        && rows.take(i)[j].group_id >= 0 && rows.take(i)[j].group_id as usize == g;
    assert(rows.take(i + 1)[j] == rows.take(i)[j]);
}

proof fn lemma_sourced_grow(rows: Seq<GroupRow>, i: int, c: Seq<char>, list: Seq<(usize, GroupInfo)>)
    requires
        0 <= i < rows.len(),
        sourced(rows.take(i), c, list),
    ensures
        sourced(rows.take(i + 1), c, list),
{
    assert forall|k: int, u: Seq<char>| 0 <= k < list.len() && #[trigger] names(list[k].1.members@).contains(u)
        implies has_row(rows.take(i + 1), c, u, list[k].0) by {
        lemma_has_row_grow(rows, i, c, u, list[k].0);
    }
}

proof fn lemma_sourced_add(
    rows: Seq<GroupRow>,
    i: int,
    list: Seq<(usize, GroupInfo)>,
    new_list: Seq<(usize, GroupInfo)>,
    k: int,
)
    requires
        0 <= i < rows.len(),
        rows[i].group_id >= 0,
        sourced(rows.take(i + 1), rows[i].receiver@, list),
        0 <= k < new_list.len(),
        new_list.len() == list.len() || new_list.len() == list.len() + 1,
        new_list.len() == list.len() + 1 ==> k == list.len(),
        k < list.len() ==> list[k].0 == new_list[k].0,
        new_list[k].0 == rows[i].group_id as usize,
        names(new_list[k].1.members@) == if k < list.len() {
            names(list[k].1.members@).push(rows[i].user@)
        } else {
            seq![rows[i].user@]
        },
        forall|q: int| 0 <= q < new_list.len() && q != k ==> #[trigger] new_list[q] == list[q],
    ensures
        sourced(rows.take(i + 1), rows[i].receiver@, new_list),
{
    let c = rows[i].receiver@;
    let t = rows.take(i + 1);
    assert(t[i].receiver@ == c && t[i].user@ == rows[i].user@);
    assert forall|q: int, u: Seq<char>| 0 <= q < new_list.len() && #[trigger] names(new_list[q].1.members@).contains(u)
        implies has_row(t, c, u, new_list[q].0) by {
        if q == k {
            let ms = names(new_list[k].1.members@);
            let p = choose|p: int| 0 <= p < ms.len() && ms[p] == u;
            if p == ms.len() - 1 {
                assert(u == rows[i].user@);
                assert(t[i].receiver@ == c && t[i].user@ == u && t[i].group_id >= 0 && t[i].group_id as usize == new_list[q].0);
                assert(has_row(t, c, u, new_list[q].0));
            } else {
                assert(k < list.len());
                let old_ms = names(list[k].1.members@);
                assert(ms == old_ms.push(rows[i].user@));
                assert(old_ms[p] == u);
                assert(old_ms.contains(u));
                assert(has_row(t, c, u, list[k].0));
                assert(has_row(t, c, u, new_list[q].0));
            }
        } else {
            assert(new_list[q] == list[q]);
            assert(names(list[q].1.members@).contains(u));
            assert(has_row(t, c, u, new_list[q].0));
        }
    }
}

/// Some row belongs to channel `c`.
pub open spec fn has_channel_rows(rows: Seq<GroupRow>, c: Seq<char>) -> bool {
    exists|j: int| 0 <= j < rows.len() && #[trigger] rows[j].receiver@ == c
}

/// The stored groups as plain values.
pub open spec fn group_views(list: Seq<(usize, GroupInfo)>) -> Seq<(usize, Seq<Seq<char>>, i64)> {
    list.map_values(|p: (usize, GroupInfo)| group_view(p))
}

/// Position of the first group with id `id` in `vs`, or -1.
pub open spec fn first_pos(vs: Seq<(usize, Seq<Seq<char>>, i64)>, id: usize) -> int
    decreases vs.len(),
{
    if vs.len() == 0 {
        -1
    } else {
        let f = first_pos(vs.drop_last(), id);
        if f >= 0 {
            f
        } else if vs.last().0 == id {
            vs.len() - 1
        } else {
            -1
        }
    }
}

/// A row's group id can be a group id here: it is not negative and fits a `usize`.
pub open spec fn usable_id(r: GroupRow) -> bool {
    r.group_id >= 0 && r.group_id as int <= usize::MAX as int
}

/// The groups that the rows of channel `c` list, in order of their first row: each with
/// its id, its users in row order, and the last change given by its first row. Rows
/// whose id is not usable are skipped.
pub open spec fn raw_groups(rows: Seq<GroupRow>, c: Seq<char>) -> Seq<(usize, Seq<Seq<char>>, i64)>
    decreases rows.len(),
{
    if rows.len() == 0 {
        Seq::empty()
    } else {
        let prev = raw_groups(rows.drop_last(), c);
        let r = rows.last();
        if r.receiver@ != c || !usable_id(r) {
            prev
        } else {
            let id = r.group_id as usize;
            let k = first_pos(prev, id);
            if k >= 0 {
                prev.update(k, (id, prev[k].1.push(r.user@), prev[k].2))
            } else {
                prev.push((id, seq![r.user@], r.last_modified))
            }
        }
    }
}

/// The index and live groups that channel `c`'s rows rebuild to, before expiry.
pub open spec fn loaded_groups(rows: Seq<GroupRow>, c: Seq<char>) -> (Map<Seq<char>, usize>, Map<usize, i64>) {
    reconcile_views(raw_groups(rows, c))
}

/// `g` is what channel `c`'s rows load to at `now`: the rebuilt groups, of which those
/// that expire at `now` are dropped with their users.
pub open spec fn is_loaded(rows: Seq<GroupRow>, c: Seq<char>, now: i64, g: GroupSets) -> bool {
    let l = loaded_groups(rows, c);
    &&& g.stamps() == kept(l.1, survives(l.0, now))
    &&& g.index() == kept(l.0, in_live_group(g.stamps()))
}

proof fn lemma_raw_groups_none(rows: Seq<GroupRow>, c: Seq<char>)
    requires
        !has_channel_rows(rows, c),
    ensures
        raw_groups(rows, c) == Seq::<(usize, Seq<Seq<char>>, i64)>::empty(),
    decreases rows.len(),
{
    if rows.len() > 0 {
        let d = rows.drop_last();
        if has_channel_rows(d, c) {
            let j = choose|j: int| 0 <= j < d.len() && #[trigger] d[j].receiver@ == c;
            assert(rows[j].receiver@ == c);
        }
        lemma_raw_groups_none(d, c);
        assert(rows[rows.len() - 1].receiver@ != c);
    }
}

pub proof fn lemma_first_pos_range(vs: Seq<(usize, Seq<Seq<char>>, i64)>, id: usize)
    ensures
        -1 <= first_pos(vs, id) < vs.len(),
        first_pos(vs, id) >= 0 ==> vs[first_pos(vs, id)].0 == id,
        first_pos(vs, id) < 0 ==> forall|a: int| 0 <= a < vs.len() ==> vs[a].0 != id,
    decreases vs.len(),
{
    if vs.len() > 0 {
        lemma_first_pos_range(vs.drop_last(), id);
        if first_pos(vs, id) < 0 {
            assert forall|a: int| 0 <= a < vs.len() implies vs[a].0 != id by {
                if a < vs.len() - 1 {
                    assert(vs.drop_last()[a] == vs[a]);
                }
            }
        }
    }
}

proof fn lemma_first_pos_prefix(vs: Seq<(usize, Seq<Seq<char>>, i64)>, id: usize, i: int)
    requires
        0 <= i <= vs.len(),
        first_pos(vs.take(i), id) == -1,
        i < vs.len() ==> vs[i].0 == id,
    ensures
        first_pos(vs, id) == if i < vs.len() { i } else { -1 },
    decreases vs.len(),
{
    if i == vs.len() {
        assert(vs.take(i) =~= vs);
    } else if vs.len() == i + 1 {
        assert(vs.drop_last() =~= vs.take(i));
    } else {
        assert(vs.drop_last().take(i) =~= vs.take(i));
        lemma_first_pos_prefix(vs.drop_last(), id, i);
    }
}

pub proof fn lemma_raw_groups_step(rows: Seq<GroupRow>, i: int, c: Seq<char>)
    requires
        0 <= i < rows.len(),
    ensures
        raw_groups(rows.take(i + 1), c) == ({
            let prev = raw_groups(rows.take(i), c);
            let r = rows[i];
            if r.receiver@ != c || !usable_id(r) {
                prev
            } else {
                let id = r.group_id as usize;
                let k = first_pos(prev, id);
                if k >= 0 {
                    prev.update(k, (id, prev[k].1.push(r.user@), prev[k].2))
                } else {
                    prev.push((id, seq![r.user@], r.last_modified))
                }
            }
        }),
{
    assert(rows.take(i + 1).drop_last() =~= rows.take(i));
    assert(rows.take(i + 1).last() == rows[i]);
}

fn position_of_group_info(list: &Vec<(usize, GroupInfo)>, id: usize) -> (r: Option<usize>)
    ensures
        r is Some ==> r->0 < list@.len() && list@[r->0 as int].0 == id,
        r is Some ==> r->0 == first_pos(group_views(list@), id),
        r is None ==> first_pos(group_views(list@), id) == -1,
{
    let ghost vs = group_views(list@);
    let mut k: usize = 0;
    while k < list.len()
        invariant
            k <= list@.len(),
            vs == group_views(list@),
            first_pos(vs.take(k as int), id) == -1,
        decreases list@.len() - k,
    {
        assert(vs[k as int].0 == list@[k as int].0);
        if list[k].0 == id {
            proof { lemma_first_pos_prefix(vs, id, k as int); }
            return Some(k);
        }
        assert(vs.take(k as int + 1).drop_last() =~= vs.take(k as int));
        k = k + 1;
    }
    proof { lemma_first_pos_prefix(vs, id, k as int); }
    None
}

fn position_of_string(v: &Vec<String>, u: &String) -> (r: Option<usize>)
    ensures
        r is Some ==> r->0 < v@.len() && v@[r->0 as int]@ == u@,
        r is None ==> forall|j: int| 0 <= j < v@.len() ==> v@[j]@ != u@,
{
    let mut k: usize = 0;
    while k < v.len()
        invariant
            k <= v@.len(),
            forall|j: int| 0 <= j < k ==> v@[j]@ != u@,
        decreases v@.len() - k,
    {
        if v[k] == *u {
            return Some(k);
        }
        k = k + 1;
    }
    None
}

/// Each channel's groups as loaded at `now` from stored membership rows: the rows of a
/// channel are gathered into groups by id (the first row of a group gives its last
/// change; rows with a negative id are ignored), rebuilt by `GroupSets::from_maps`, and
/// expired. Every channel with rows is present.
pub fn group_sets_from_rows(rows: &Vec<GroupRow>, now: i64) -> (r: Vec<(String, GroupSets)>)
    ensures
        valid_sets(r@),
        forall|c: Seq<char>| #[trigger] assoc(keyed_by_chars(r@)).contains_key(c) <==> has_channel_rows(rows@, c),
        forall|c: Seq<char>, g: usize| #[trigger] assoc(keyed_by_chars(r@)).contains_key(c)
            && #[trigger] assoc(keyed_by_chars(r@))[c].stamps().contains_key(g) ==> is_fresh(
                assoc(keyed_by_chars(r@))[c].stamps()[g], now)
                && has_two_members(assoc(keyed_by_chars(r@))[c].index(), g),
        forall|c: Seq<char>| #[trigger] assoc(keyed_by_chars(r@)).contains_key(c)
            ==> backed_by_rows(rows@, c, assoc(keyed_by_chars(r@))[c]),
        forall|c: Seq<char>| #[trigger] assoc(keyed_by_chars(r@)).contains_key(c)
            ==> is_loaded(rows@, c, now, assoc(keyed_by_chars(r@))[c]),
{
    let mut chan_names: Vec<String> = Vec::new();
    let mut chan_groups: Vec<Vec<(usize, GroupInfo)>> = Vec::new();
    let mut i: usize = 0;
    while i < rows.len()
        invariant
            i <= rows@.len(),
            chan_groups@.len() == chan_names@.len(),
            forall|a: int, b: int| 0 <= a < chan_names@.len() && 0 <= b < chan_names@.len() && a != b
                ==> #[trigger] chan_names@[a]@ != #[trigger] chan_names@[b]@,
            forall|c: Seq<char>| (exists|a: int| 0 <= a < chan_names@.len() && #[trigger] chan_names@[a]@ == c)
                <==> has_channel_rows(rows@.take(i as int), c),
            forall|a: int| 0 <= a < chan_names@.len() ==> sourced(rows@.take(i as int), (#[trigger] chan_names@[a])@, chan_groups@[a]@),
            forall|a: int| 0 <= a < chan_names@.len() ==> group_views(chan_groups@[a]@) == raw_groups(rows@.take(i as int), (#[trigger] chan_names@[a])@),
        decreases rows@.len() - i,
    {
        let row = &rows[i];
        let ghost pre = rows@.take(i as int);
        let ghost cur = rows@.take(i as int + 1);
        proof {
            assert forall|c: Seq<char>| has_channel_rows(cur, c) <==> has_channel_rows(pre, c) || c == row.receiver@ by {
                if has_channel_rows(cur, c) {
                    let j = choose|j: int| 0 <= j < cur.len() && #[trigger] cur[j].receiver@ == c;
                    if j < i {
                        assert(pre[j].receiver@ == c);
                    }
                }
                if has_channel_rows(pre, c) {
                    let j = choose|j: int| 0 <= j < pre.len() && #[trigger] pre[j].receiver@ == c;
                    assert(cur[j].receiver@ == c);
                }
                if c == row.receiver@ {
                    assert(cur[i as int].receiver@ == c);
                }
            }
        }
        let p = match position_of_string(&chan_names, &row.receiver) {
            Some(p) => p,
            None => {
                let ghost n0 = chan_names@;
                chan_names.push(row.receiver.clone());
                chan_groups.push(Vec::new());
                proof {
                    if has_channel_rows(pre, row.receiver@) {
                        let a = choose|a: int| 0 <= a < n0.len() && #[trigger] n0[a]@ == row.receiver@;
                    }
                    lemma_raw_groups_none(pre, row.receiver@);
                    assert(group_views(chan_groups@[n0.len() as int]@) =~= raw_groups(pre, chan_names@[n0.len() as int]@));
                    assert forall|c: Seq<char>| (exists|a: int| 0 <= a < chan_names@.len() && #[trigger] chan_names@[a]@ == c)
                        <==> has_channel_rows(cur, c) by {
                        if exists|a: int| 0 <= a < chan_names@.len() && #[trigger] chan_names@[a]@ == c {
                            let a = choose|a: int| 0 <= a < chan_names@.len() && #[trigger] chan_names@[a]@ == c;
                            if a < n0.len() {
                                assert(n0[a]@ == c);
                            }
                        }
                        if has_channel_rows(pre, c) {
                            let a = choose|a: int| 0 <= a < n0.len() && #[trigger] n0[a]@ == c;
                            assert(chan_names@[a]@ == c);
                        }
                        if c == row.receiver@ {
                            assert(chan_names@[n0.len() as int]@ == c);
                        }
                    }
                }
                chan_names.len() - 1
            },
        };
        let ghost cg_mid = chan_groups@;
        proof {
            assert(chan_names@[p as int]@ == row.receiver@);
            assert(rows@[i as int] == *row);
            assert forall|a: int| 0 <= a < chan_names@.len() && a != p implies group_views(cg_mid[a]@) == raw_groups(cur, (#[trigger] chan_names@[a])@) by {
                lemma_raw_groups_step(rows@, i as int, chan_names@[a]@);
            }
            lemma_raw_groups_step(rows@, i as int, row.receiver@);
            assert forall|a: int| 0 <= a < chan_names@.len() implies sourced(cur, (#[trigger] chan_names@[a])@, chan_groups@[a]@) by {
                if a < chan_names@.len() - 1 || a != p {
                    lemma_sourced_grow(rows@, i as int, chan_names@[a]@, chan_groups@[a]@);
                } else {
                    lemma_sourced_grow(rows@, i as int, chan_names@[a]@, chan_groups@[a]@);
                }
            }
        }
        if row.group_id >= 0 && row.group_id as u64 <= usize::MAX as u64 {
            let id = row.group_id as usize;
            let ghost cg0 = chan_groups@;
            let mut list = chan_groups.remove(p);
            let ghost l0 = list@;
            let ghost k_at: int;
            match position_of_group_info(&list, id) {
                Some(k) => {
                    let mut entry = list.remove(k);
                    let ghost m0 = entry.1.members@;
                    entry.1.members.push(row.user.clone());
                    proof {
                        assert(names(entry.1.members@) =~= names(m0).push(row.user@));
                    }
                    list.insert(k, entry);
                    proof { k_at = k as int; }
                },
                None => {
                    let mut members: Vec<String> = Vec::new();
                    members.push(row.user.clone());
                    proof { assert(names(members@) =~= seq![row.user@]); }
                    list.push((id, GroupInfo { members, last_modified: row.last_modified }));
                    proof { k_at = l0.len() as int; }
                },
            }
            proof {
                assert(rows@[i as int] == *row);
                lemma_sourced_add(rows@, i as int, l0, list@, k_at);
                let prev = raw_groups(pre, row.receiver@);
                assert(group_views(l0) == prev);
                let kk = first_pos(prev, id);
                if kk >= 0 {
                    assert(group_views(list@) =~= prev.update(kk, (id, prev[kk].1.push(row.user@), prev[kk].2)));
                } else {
                    assert(group_views(list@) =~= prev.push((id, seq![row.user@], row.last_modified)));
                }
                assert(group_views(list@) == raw_groups(cur, row.receiver@));
            }
            chan_groups.insert(p, list);
            proof {
                assert forall|a: int| 0 <= a < chan_names@.len() implies group_views(chan_groups@[a]@) == raw_groups(cur, (#[trigger] chan_names@[a])@) by {
                    if a != p {
                        assert(chan_groups@[a] == cg0[a]);
                    }
                }
                assert forall|a: int| 0 <= a < chan_names@.len() implies sourced(cur, (#[trigger] chan_names@[a])@, chan_groups@[a]@) by {
                    if a != p {
                        assert(chan_groups@[a] == cg0[a]);
                    }
                }
            }
        }
        proof {
            if !(row.group_id >= 0 && row.group_id as u64 <= usize::MAX as u64) {
                assert(!usable_id(*row));
                assert forall|a: int| 0 <= a < chan_names@.len() implies group_views(chan_groups@[a]@) == raw_groups(cur, (#[trigger] chan_names@[a])@) by {
                }
            }
        }
        i = i + 1;
    }
    assert(rows@.take(i as int) =~= rows@);
    let mut r: Vec<(String, GroupSets)> = Vec::new();
    let mut j: usize = 0;
    while j < chan_names.len()
        invariant
            j <= chan_names@.len(),
            chan_groups@.len() == chan_names@.len(),
            r@.len() == j,
            forall|q: int| 0 <= q < j ==> (#[trigger] r@[q]).0@ == chan_names@[q]@ && r@[q].1.wf()
                && forall|g: usize| #[trigger] r@[q].1.stamps().contains_key(g) ==> is_fresh(r@[q].1.stamps()[g], now)
                    && has_two_members(r@[q].1.index(), g),
            forall|q: int| 0 <= q < j ==> backed_by_rows(rows@, chan_names@[q]@, (#[trigger] r@[q]).1),
            forall|a: int| j <= a < chan_names@.len() ==> sourced(rows@, (#[trigger] chan_names@[a])@, chan_groups@[a]@),
            forall|a: int| j <= a < chan_names@.len() ==> group_views(chan_groups@[a]@) == raw_groups(rows@, (#[trigger] chan_names@[a])@),
            forall|q: int| 0 <= q < j ==> is_loaded(rows@, chan_names@[q]@, now, (#[trigger] r@[q]).1),
        decreases chan_names@.len() - j,
    {
        let ghost cg0 = chan_groups@;
        let list = chan_groups.remove(j);
        let ghost l = list@;
        assert(sourced(rows@, chan_names@[j as int]@, l));
        let g0 = GroupSets::from_maps(Vec::new(), list);
        let mut g = g0;
        g.expire_old_groups(now);
        proof {
            let c = chan_names@[j as int]@;
            assert forall|u: Seq<char>| #[trigger] g.index().contains_key(u) implies has_row(rows@, c, u, g.index()[u]) by {
                assert(g0.index().contains_key(u) && g0.index()[u] == g.index()[u]);
                assert(listed_in(l, u, g0.index()[u]));
                let k = choose|k: int| 0 <= k < l.len() && #[trigger] l[k].0 == g0.index()[u] && names(l[k].1.members@).contains(u);
            }
        }
        proof {
            lemma_reconcile_views(l);
            assert(group_views(l) == raw_groups(rows@, chan_names@[j as int]@));
            assert(is_loaded(rows@, chan_names@[j as int]@, now, g));
        }
        chan_groups.insert(j, Vec::new());
        proof {
            assert forall|a: int| j + 1 <= a < chan_names@.len() implies sourced(rows@, (#[trigger] chan_names@[a])@, chan_groups@[a]@)
                && group_views(chan_groups@[a]@) == raw_groups(rows@, chan_names@[a]@) by {
                assert(chan_groups@[a] == cg0[a]);
            }
        }
        r.push((chan_names[j].clone(), g));
        j = j + 1;
    }
    proof {
        let s = keyed_by_chars(r@);
        assert forall|a: int, b: int| 0 <= a < s.len() && 0 <= b < s.len() && a != b implies #[trigger] s[a].0
            != #[trigger] s[b].0 by {
            assert(s[a].0 == chan_names@[a]@);
            assert(s[b].0 == chan_names@[b]@);
        }
        lemma_assoc_all(s);
        assert forall|c: Seq<char>| #[trigger] assoc(s).contains_key(c) <==> has_channel_rows(rows@, c) by {
            if assoc(s).contains_key(c) {
                let q = choose|q: int| 0 <= q < s.len() && #[trigger] s[q].0 == c;
                assert(chan_names@[q]@ == c);
            }
            if has_channel_rows(rows@, c) {
                let a = choose|a: int| 0 <= a < chan_names@.len() && #[trigger] chan_names@[a]@ == c;
                assert(s[a].0 == c);
            }
        }
        assert forall|c: Seq<char>| #[trigger] assoc(s).contains_key(c) implies is_loaded(rows@, c, now, assoc(s)[c]) by {
            let q = choose|q: int| 0 <= q < s.len() && #[trigger] s[q].0 == c;
            assert(assoc(s)[c] == r@[q].1);
            assert(chan_names@[q]@ == c);
        }
        assert forall|c: Seq<char>| #[trigger] assoc(s).contains_key(c) implies backed_by_rows(rows@, c, assoc(s)[c]) by {
            let q = choose|q: int| 0 <= q < s.len() && #[trigger] s[q].0 == c;
            assert(assoc(s)[c] == r@[q].1);
            assert(chan_names@[q]@ == c);
        }
        assert forall|c: Seq<char>| #[trigger] assoc(s).contains_key(c) implies assoc(s)[c].wf()
            && forall|g: usize| #[trigger] assoc(s)[c].stamps().contains_key(g) ==> is_fresh(assoc(s)[c].stamps()[g], now)
                && has_two_members(assoc(s)[c].index(), g) by {
            let q = choose|q: int| 0 <= q < s.len() && #[trigger] s[q].0 == c;
            assert(assoc(s)[c] == r@[q].1);
        }
    }
    r
}

/// `row` records, for channel `c` with groups `g`, a user with its group id and the
/// group's last change.
pub open spec fn row_matches(row: GroupRow, c: Seq<char>, g: GroupSets) -> bool {
    &&& row.receiver@ == c
    &&& row.group_id >= 0
    &&& g.index().contains_key(row.user@)
    &&& g.index()[row.user@] as int == row.group_id as int
    &&& g.index()[row.user@] == row.group_id as usize
    &&& g.stamps().contains_key(row.group_id as usize)
    &&& row.last_modified == g.stamps()[row.group_id as usize]
    &&& has_two_members(g.index(), row.group_id as usize)
}

/// User `u` of groups `g` is stored: its group is shared and its id fits a stored integer.
pub open spec fn is_stored(g: GroupSets, u: Seq<char>) -> bool {
    g.index().contains_key(u) && has_two_members(g.index(), g.index()[u]) && g.index()[u] as int <= MAX_STORED_ID as int
}

/// No two rows record the same user in the same channel.
pub open spec fn distinct_rows(rows: Seq<GroupRow>) -> bool {
    forall|x: int, y: int| 0 <= x < rows.len() && 0 <= y < rows.len() && x != y
        ==> !(#[trigger] rows[x].receiver@ == #[trigger] rows[y].receiver@ && rows[x].user@ == rows[y].user@)
}

/// The membership rows to store for every channel's groups: one per user of a shared
/// group (singletons are the default and are not stored).
pub fn group_rows(sets: &Vec<(String, GroupSets)>) -> (r: Vec<GroupRow>)
    requires
        valid_sets(sets@),
    ensures
        forall|k: int| 0 <= k < r@.len() ==> assoc(keyed_by_chars(sets@)).contains_key(#[trigger] r@[k].receiver@)
            && row_matches(r@[k], r@[k].receiver@, assoc(keyed_by_chars(sets@))[r@[k].receiver@]),
        forall|c: Seq<char>, u: Seq<char>| #[trigger] assoc(keyed_by_chars(sets@)).contains_key(c)
            && #[trigger] is_stored(assoc(keyed_by_chars(sets@))[c], u) ==> exists|k: int| 0 <= k < r@.len()
                && #[trigger] r@[k].receiver@ == c && r@[k].user@ == u,
        distinct_rows(r@),
{
    let ghost cs = keyed_by_chars(sets@);
    let ghost chans = assoc(cs);
    proof { lemma_assoc_all(cs); }
    let mut r: Vec<GroupRow> = Vec::new();
    let ghost mut chan_of: Seq<int> = Seq::empty();
    let mut q: usize = 0;
    while q < sets.len()
        invariant
            q <= sets@.len(),
            cs == keyed_by_chars(sets@),
            chans == assoc(cs),
            valid_sets(sets@),
            forall|a: int| 0 <= a < cs.len() ==> chans.contains_key(#[trigger] cs[a].0) && chans[cs[a].0] == cs[a].1,
            forall|k: int| 0 <= k < r@.len() ==> chans.contains_key(#[trigger] r@[k].receiver@)
                && row_matches(r@[k], r@[k].receiver@, chans[r@[k].receiver@]),
            forall|a: int, u: Seq<char>| 0 <= a < q && #[trigger] is_stored(cs[a].1, u) ==> exists|k: int| 0 <= k < r@.len()
                && #[trigger] r@[k].receiver@ == cs[a].0 && r@[k].user@ == u,
            chan_of.len() == r@.len(),
            forall|k: int| #![trigger chan_of[k]] 0 <= k < r@.len() ==> 0 <= chan_of[k] < q && r@[k].receiver@ == cs[chan_of[k]].0,
            distinct_rows(r@),
        decreases sets@.len() - q,
    {
        let name = &sets[q].0;
        let g = &sets[q].1;
        assert(cs[q as int] == (name@, *g));
        assert(chans.contains_key(cs[q as int].0) && chans[cs[q as int].0] == cs[q as int].1);
        assert(g.wf());
        let m = g.get_user_to_group_mappings();
        let ghost ms = keyed_by_chars(m@);
        proof { lemma_assoc_all(ms); }
        let ghost r_start = r@;
        let ghost mut upos: Seq<int> = Seq::empty();
        let mut j: usize = 0;
        while j < m.len()
            invariant
                j <= m@.len(),
                ms == keyed_by_chars(m@),
                keys_unique(ms),
                assoc(ms) == g.index(),
                g.wf(),
                chans.contains_key(name@) && chans[name@] == *g,
                forall|a: int| 0 <= a < ms.len() ==> assoc(ms).contains_key(#[trigger] ms[a].0) && assoc(ms)[ms[a].0] == ms[a].1,
                forall|k: int| 0 <= k < r@.len() ==> chans.contains_key(#[trigger] r@[k].receiver@)
                    && row_matches(r@[k], r@[k].receiver@, chans[r@[k].receiver@]),
                r_start.len() <= r@.len(),
                forall|k: int| 0 <= k < r_start.len() ==> #[trigger] r@[k] == r_start[k],
                forall|b: int| 0 <= b < j && #[trigger] is_stored(*g, ms[b].0) ==> exists|k: int| 0 <= k < r@.len()
                    && #[trigger] r@[k].receiver@ == name@ && r@[k].user@ == ms[b].0,
                q < sets@.len(),
                cs == keyed_by_chars(sets@),
                cs[q as int].0 == name@,
                keys_unique(cs),
                chan_of.len() == r@.len(),
                forall|k: int| #![trigger chan_of[k]] 0 <= k < r_start.len() ==> 0 <= chan_of[k] < q && r@[k].receiver@ == cs[chan_of[k]].0,
                upos.len() + r_start.len() == r@.len(),
                forall|k: int| #![trigger upos[k]] 0 <= k < upos.len() ==> 0 <= upos[k] < j
                    && r@[r_start.len() + k].receiver@ == name@ && r@[r_start.len() + k].user@ == ms[upos[k]].0,
                forall|k: int| r_start.len() <= k < r@.len() ==> #[trigger] chan_of[k] == q,
                distinct_rows(r@),
            decreases m@.len() - j,
        {
            let gid = m[j].1;
            assert(ms[j as int] == (m@[j as int].0@, gid));
            if gid as u64 <= MAX_STORED_ID && g.is_shared(gid) {
                match g.last_modified(gid) {
                    Some(t) => {
                        let ghost r0 = r@;
                        r.push(GroupRow { user: m[j].0.clone(), receiver: name.clone(), group_id: gid as i64, last_modified: t });
                        proof {
                            let u0 = upos;
                            let c0 = chan_of;
                            upos = upos.push(j as int);
                            chan_of = chan_of.push(q as int);
                            let last = r@.len() - 1;
                            assert forall|x: int, y: int| 0 <= x < r@.len() && 0 <= y < r@.len() && x != y
                                implies !(#[trigger] r@[x].receiver@ == #[trigger] r@[y].receiver@ && r@[x].user@ == r@[y].user@) by {
                                if x == last || y == last {
                                    let o = if x == last { y } else { x };
                                    assert(r@[o] == r0[o]);
                                    if o < r_start.len() {
                                        assert(0 <= c0[o] < q);
                                        assert(cs.len() == sets@.len());
                                        assert(cs[c0[o]].0 != cs[q as int].0);
                                    } else {
                                        let kk = o - r_start.len();
                                        assert(u0[kk] < j);
                                        assert(ms[u0[kk]].0 != ms[j as int].0);
                                    }
                                } else {
                                    assert(r@[x] == r0[x]);
                                    assert(r@[y] == r0[y]);
                                }
                            }
                            assert forall|k: int| #![trigger upos[k]] 0 <= k < upos.len() implies 0 <= upos[k] < j + 1
                                && r@[r_start.len() + k].receiver@ == name@ && r@[r_start.len() + k].user@ == ms[upos[k]].0 by {
                                if k < u0.len() {
                                    assert(r@[r_start.len() + k] == r0[r_start.len() + k]);
                                }
                            }
                            assert(r@[r@.len() - 1].receiver@ == name@ && r@[r@.len() - 1].user@ == ms[j as int].0);
                            assert forall|b: int| 0 <= b < j + 1 && #[trigger] is_stored(*g, ms[b].0) implies exists|k: int| 0 <= k < r@.len()
                                && #[trigger] r@[k].receiver@ == name@ && r@[k].user@ == ms[b].0 by {
                                if b < j {
                                    let k = choose|k: int| 0 <= k < r0.len() && #[trigger] r0[k].receiver@ == name@ && r0[k].user@ == ms[b].0;
                                    assert(r@[k] == r0[k]);
                                } else {
                                    assert(r@[r@.len() - 1].receiver@ == name@);
                                }
                            }
                        }
                    },
                    None => {
                        proof {
                            lemma_valid_groups_keep_invariants(g);
                            reveal(groups_invariants);
                            if has_two_members(g.index(), gid) {
                                let (a, b) = choose|a: Seq<char>, b: Seq<char>|
                                    a != b && g.index().contains_key(a) && g.index().contains_key(b)
                                        && #[trigger] g.index()[a] == gid && #[trigger] g.index()[b] == gid;
                                assert(g.stamps().contains_key(g.index()[a]));
                            }
                        }
                    },
                }
            }
            j = j + 1;
        }
        proof {
            assert forall|k: int| #![trigger chan_of[k]] 0 <= k < r@.len() implies 0 <= chan_of[k] < q + 1 && r@[k].receiver@ == cs[chan_of[k]].0 by {
                if k >= r_start.len() {
                    let kk = k - r_start.len();
                    assert(upos[kk] < j);
                }
            }
            assert forall|a: int, u: Seq<char>| 0 <= a < q + 1 && #[trigger] is_stored(cs[a].1, u) implies exists|k: int| 0 <= k < r@.len()
                && #[trigger] r@[k].receiver@ == cs[a].0 && r@[k].user@ == u by {
                if a < q {
                    let k = choose|k: int| 0 <= k < r_start.len() && #[trigger] r_start[k].receiver@ == cs[a].0 && r_start[k].user@ == u;
                    assert(r@[k] == r_start[k]);
                } else {
                    let b = choose|b: int| 0 <= b < ms.len() && #[trigger] ms[b].0 == u;
                    assert(is_stored(*g, ms[b].0));
                }
            }
        }
        q = q + 1;
    }
    proof {
        assert forall|c: Seq<char>, u: Seq<char>| #[trigger] chans.contains_key(c) && #[trigger] is_stored(chans[c], u) implies exists|k: int| 0 <= k < r@.len()
            && #[trigger] r@[k].receiver@ == c && r@[k].user@ == u by {
            let a = choose|a: int| 0 <= a < cs.len() && #[trigger] cs[a].0 == c;
            assert(is_stored(cs[a].1, u));
        }
    }
    r
}

/// A history line as seen: role, text and time.
pub open spec fn line_view(t: (Sender, String, i64)) -> (Sender, Seq<char>, i64) {
    (t.0, t.1@, t.2)
}

/// The lines shown to each user of `us` in turn in channel `receiver`, each user's
/// oldest first.
pub open spec fn shown_for(h: Map<Seq<char>, Seq<Entry>>, us: Seq<Seq<char>>, receiver: Seq<char>) -> Seq<(Sender, Seq<char>, i64)>
    decreases us.len(),
{
    if us.len() == 0 {
        Seq::empty()
    } else {
        shown_for(h, us.drop_last(), receiver) + if h.contains_key(us.last()) {
            shown(h[us.last()], receiver)
        } else {
            Seq::empty()
        }
    }
}

/// The lines are in order of time.
pub open spec fn by_time(s: Seq<(Sender, Seq<char>, i64)>) -> bool {
    forall|i: int, j: int| 0 <= i < j < s.len() ==> s[i].2 <= s[j].2
}

/// The lines sorted by time.
fn sort_by_time(v: Vec<(Sender, String, i64)>) -> (r: Vec<(Sender, String, i64)>)
    ensures
        r@.map_values(|t: (Sender, String, i64)| line_view(t)).to_multiset()
            == v@.map_values(|t: (Sender, String, i64)| line_view(t)).to_multiset(),
        by_time(r@.map_values(|t: (Sender, String, i64)| line_view(t))),
{
    broadcast use vstd::seq_lib::group_to_multiset_ensures;

    let mut out: Vec<(Sender, String, i64)> = Vec::new();
    let mut i: usize = 0;
    assert(v@.take(0).map_values(|t: (Sender, String, i64)| line_view(t)) =~= Seq::empty());
    assert(out@.map_values(|t: (Sender, String, i64)| line_view(t)) =~= Seq::empty());
    while i < v.len()
        invariant
            i <= v@.len(),
            out@.map_values(|t: (Sender, String, i64)| line_view(t)).to_multiset()
                == v@.take(i as int).map_values(|t: (Sender, String, i64)| line_view(t)).to_multiset(),
            forall|a: int, b: int| 0 <= a < b < out@.len() ==> out@[a].2 <= out@[b].2,
        decreases v@.len() - i,
    {
        let x = (v[i].0, v[i].1.clone(), v[i].2);
        let mut k: usize = 0;
        while k < out.len() && out[k].2 <= x.2
            invariant
                k <= out@.len(),
                forall|a: int| 0 <= a < k ==> out@[a].2 <= x.2,
            decreases out@.len() - k,
        {
            k = k + 1;
        }
        let ghost o0 = out@;
        out.insert(k, x);
        proof {
            assert(out@.map_values(|t: (Sender, String, i64)| line_view(t))
                =~= o0.map_values(|t: (Sender, String, i64)| line_view(t)).insert(k as int, line_view(x)));
            assert(v@.take(i as int + 1).map_values(|t: (Sender, String, i64)| line_view(t))
                =~= v@.take(i as int).map_values(|t: (Sender, String, i64)| line_view(t)).push(line_view(v@[i as int])));
            assert(line_view(x) == line_view(v@[i as int]));
            vstd::seq_lib::to_multiset_insert(o0.map_values(|t: (Sender, String, i64)| line_view(t)), k as int, line_view(x));
            vstd::seq_lib::to_multiset_build(v@.take(i as int).map_values(|t: (Sender, String, i64)| line_view(t)), line_view(x));
            assert forall|a: int, b: int| 0 <= a < b < out@.len() implies out@[a].2 <= out@[b].2 by {
                if a < k && b == k {
                } else if a == k && b > k {
                    assert(out@[b] == o0[b - 1]);
                    if b - 1 > k {
                        assert(o0[k as int].2 <= o0[b - 1].2);
                    }
                } else if a < k && b > k {
                    assert(out@[b] == o0[b - 1]);
                } else if a > k {
                    assert(out@[a] == o0[a - 1]);
                    assert(out@[b] == o0[b - 1]);
                }
            }
        }
        i = i + 1;
    }
    assert(v@.take(i as int) =~= v@);
    out
}

impl Memory {
    /// Each user's history, oldest first.
    pub closed spec fn history(&self) -> Map<Seq<char>, Seq<Entry>> {
        histories(self.entries@)
    }

    /// Each channel's groups.
    pub closed spec fn channels(&self) -> Map<Seq<char>, GroupSets> {
        assoc(keyed_by_chars(self.joined_users@))
    }

    pub closed spec fn wf(&self) -> bool {
        &&& keys_unique(keyed_by_chars(self.entries@))
        &&& keys_unique(keyed_by_chars(self.joined_users@))
        &&& forall|c: Seq<char>| #[trigger] self.channels().contains_key(c) ==> self.channels()[c].wf()
        &&& forall|u: Seq<char>| #[trigger] self.history().contains_key(u) ==> self.history()[u].len() > 0
    }

    /// The groups of channel `receiver`, if it has any.
    pub open spec fn sets_of(&self, receiver: Seq<char>) -> Option<GroupSets> {
        if self.channels().contains_key(receiver) {
            Some(self.channels()[receiver])
        } else {
            None
        }
    }

    fn channel_sets(&self, receiver: &str) -> (r: Option<&GroupSets>)
        requires
            self.wf(),
        ensures
            r is Some <==> self.channels().contains_key(receiver@),
            r is Some ==> *r->0 == self.channels()[receiver@],
    {
        let c = receiver.to_string();
        match position_of_name(&self.joined_users, &c) {
            Some(p) => {
                proof { lemma_assoc_at(keyed_by_chars(self.joined_users@), p as int); }
                Some(&self.joined_users[p].1)
            },
            None => None,
        }
    }

    /// A memory holding the given histories (as `load_history` returns them) and the
    /// given channels' groups.
    pub fn new(entries: Vec<(String, Vec<Entry>)>, joined_users: Vec<(String, GroupSets)>) -> (r: Memory)
        requires
            keys_unique(keyed_by_chars(entries@)),
            keys_unique(keyed_by_chars(joined_users@)),
            forall|u: Seq<char>| #[trigger] histories(entries@).contains_key(u) ==> histories(entries@)[u].len() > 0,
            forall|c: Seq<char>| #[trigger] assoc(keyed_by_chars(joined_users@)).contains_key(c)
                ==> assoc(keyed_by_chars(joined_users@))[c].wf(),
        ensures
            r.wf(),
            r.history() == histories(entries@),
            r.channels() == assoc(keyed_by_chars(joined_users@)),
    {
        Memory { entries, joined_users }
    }

    /// The memory as loaded at `now` from stored entry rows (in chronological order) and
    /// membership rows: each user keeps its retained entries, and each channel with rows
    /// gets its rebuilt and expired groups.
    pub fn load(entry_rows: &Vec<(String, Entry)>, group_rows: &Vec<GroupRow>, now: i64) -> (r: Memory)
        requires
            in_time_order(entry_rows@),
        ensures
            r.wf(),
            forall|u: Seq<char>| #[trigger] r.history().contains_key(u) <==> retained(rows_of(entry_rows@, u), now).len() > 0,
            forall|u: Seq<char>| #[trigger] r.history().contains_key(u) ==> r.history()[u] == retained(rows_of(entry_rows@, u), now),
            forall|c: Seq<char>| #[trigger] r.channels().contains_key(c) <==> has_channel_rows(group_rows@, c),
            forall|c: Seq<char>, g: usize| #[trigger] r.channels().contains_key(c) && #[trigger] r.channels()[c].stamps().contains_key(g)
                ==> is_fresh(r.channels()[c].stamps()[g], now) && has_two_members(r.channels()[c].index(), g),
            forall|c: Seq<char>| #[trigger] r.channels().contains_key(c) ==> backed_by_rows(group_rows@, c, r.channels()[c]),
            forall|c: Seq<char>| #[trigger] r.channels().contains_key(c) ==> is_loaded(group_rows@, c, now, r.channels()[c]),
    {
        let entries = load_history(entry_rows, now);
        let sets = group_sets_from_rows(group_rows, now);
        Memory::new(entries, sets)
    }

    /// Replaces every channel's groups, as after a committed change.
    pub fn set_joined_users(&mut self, joined_users: Vec<(String, GroupSets)>)
        requires
            old(self).wf(),
            keys_unique(keyed_by_chars(joined_users@)),
            forall|c: Seq<char>| #[trigger] assoc(keyed_by_chars(joined_users@)).contains_key(c)
                ==> assoc(keyed_by_chars(joined_users@))[c].wf(),
        ensures
            final(self).wf(),
            final(self).history() == old(self).history(),
            final(self).channels() == assoc(keyed_by_chars(joined_users@)),
    {
        let ghost h0 = self.history();
        self.joined_users = joined_users;
        assert(self.history() == h0);
        assert forall|u: Seq<char>| #[trigger] self.history().contains_key(u) implies self.history()[u].len() > 0 by {
            assert(h0.contains_key(u));
        }
    }

    /// Appends `entry` to `user`'s history.
    pub fn add_entry(&mut self, user: &str, entry: Entry)
        requires
            old(self).wf(),
        ensures
            final(self).wf(),
            final(self).channels() == old(self).channels(),
            final(self).history() == old(self).history().insert(
                user@,
                if old(self).history().contains_key(user@) {
                    old(self).history()[user@].push(entry)
                } else {
                    seq![entry]
                },
            ),
    {
        let u = user.to_string();
        let ghost h0 = self.history();
        match position_of_name(&self.entries, &u) {
            Some(p) => {
                proof {
                    lemma_assoc_at(keyed_by_chars(self.entries@), p as int);
                    lemma_assoc_remove(keyed_by_chars(self.entries@), p as int);
                    lemma_keyed_by_chars_remove(self.entries@, p as int);
                }
                let mut pair = self.entries.remove(p);
                let ghost mid = self.entries@;
                pair.1.push(entry);
                proof {
                    lemma_assoc_push(keyed_by_chars(mid), pair.0@, pair.1);
                    lemma_keyed_by_chars_push(mid, pair.0, pair.1);
                }
                self.entries.push(pair);
                proof {
                    assert(self.history() =~= h0.insert(user@, h0[user@].push(entry)));
                    assert forall|x: Seq<char>| #[trigger] self.history().contains_key(x) implies self.history()[x].len() > 0 by {
                        if x != user@ {
                            assert(h0.contains_key(x));
                        }
                    }
                    assert(self.channels() == old(self).channels());
                }
            },
            None => {
                let mut es: Vec<Entry> = Vec::new();
                es.push(entry);
                proof {
                    lemma_assoc_push(keyed_by_chars(self.entries@), u@, es);
                    lemma_keyed_by_chars_push(self.entries@, u, es);
                }
                self.entries.push((u, es));
                proof {
                    assert(self.history() =~= h0.insert(user@, seq![entry]));
                    assert forall|x: Seq<char>| #[trigger] self.history().contains_key(x) implies self.history()[x].len() > 0 by {
                        if x != user@ {
                            assert(h0.contains_key(x));
                        }
                    }
                    assert(self.channels() == old(self).channels());
                }
            },
        }
    }

    /// `user`'s entries in channel `receiver`, oldest first, as role, text and time.
    pub fn user_history(&self, user: &str, receiver: &str) -> (r: Vec<(Sender, String, i64)>)
        requires
            self.wf(),
        ensures
            r@.map_values(|t: (Sender, String, i64)| (t.0, t.1@, t.2)) == (if self.history().contains_key(user@) {
                shown(self.history()[user@], receiver@)
            } else {
                Seq::empty()
            }),
    {
        let u = user.to_string();
        let rc = receiver.to_string();
        let mut r: Vec<(Sender, String, i64)> = Vec::new();
        let p = match position_of_name(&self.entries, &u) {
            Some(p) => p,
            None => {
                assert(r@.map_values(|t: (Sender, String, i64)| (t.0, t.1@, t.2)) =~= Seq::empty());
                return r;
            },
        };
        proof { lemma_assoc_at(keyed_by_chars(self.entries@), p as int); }
        let es = &self.entries[p].1;
        let ghost pred = |e: Entry| e.receiver@ == receiver@;
        let ghost f = |e: Entry| (e.sender, e.message@, e.timestamp);
        let mut i: usize = 0;
        while i < es.len()
            invariant
                i <= es@.len(),
                rc@ == receiver@,
                pred == (|e: Entry| e.receiver@ == receiver@),
                f == (|e: Entry| (e.sender, e.message@, e.timestamp)),
                r@.map_values(|t: (Sender, String, i64)| (t.0, t.1@, t.2)) == es@.take(i as int).filter(pred).map_values(f),
            decreases es@.len() - i,
        {
            let ghost r0 = r@;
            proof {
                reveal(Seq::filter);
                let t = es@.take(i as int + 1);
                assert(t.drop_last() =~= es@.take(i as int));
                assert(t.last() == es@[i as int]);
            }
            if es[i].receiver == rc {
                r.push((es[i].sender, es[i].message.clone(), es[i].timestamp));
                assert(r@.map_values(|t: (Sender, String, i64)| (t.0, t.1@, t.2)) =~= r0.map_values(
                    |t: (Sender, String, i64)| (t.0, t.1@, t.2),
                ).push(f(es@[i as int])));
                assert(es@.take(i as int).filter(pred).push(es@[i as int]).map_values(f) =~= es@.take(i as int).filter(
                    pred,
                ).map_values(f).push(f(es@[i as int])));
            }
            i = i + 1;
        }
        assert(es@.take(i as int) =~= es@);
        r
    }

    /// Removes the entries of channel `receiver` from the history of every user in
    /// `users`; a user left without entries is dropped.
    pub fn clear_history_for_users(&mut self, users: &Vec<String>, receiver: &str)
        requires
            old(self).wf(),
        ensures
            final(self).wf(),
            final(self).channels() == old(self).channels(),
            final(self).history() == cleared(old(self).history(), names(users@), receiver@),
    {
        let rc = receiver.to_string();
        let ghost h0 = self.history();
        proof { assert(cleared(h0, names(users@).take(0), receiver@) =~= h0); }
        let mut k: usize = 0;
        while k < users.len()
            invariant
                k <= users@.len(),
                rc@ == receiver@,
                self.wf(),
                self.channels() == old(self).channels(),
                self.history() == cleared(h0, names(users@).take(k as int), receiver@),
            decreases users@.len() - k,
        {
            let ghost hk = self.history();
            let ghost x = users@[k as int]@;
            proof { lemma_cleared_step(h0, names(users@), k as int, receiver@); }
            match position_of_name(&self.entries, &users[k]) {
                Some(p) => {
                    proof {
                        lemma_assoc_at(keyed_by_chars(self.entries@), p as int);
                        lemma_assoc_remove(keyed_by_chars(self.entries@), p as int);
                        lemma_keyed_by_chars_remove(self.entries@, p as int);
                    }
                    let pair = self.entries.remove(p);
                    let kept = drop_channel(&pair.1, &rc);
                    if kept.len() > 0 {
                        let ghost mid = self.entries@;
                        proof {
                            lemma_assoc_push(keyed_by_chars(mid), pair.0@, kept);
                            lemma_keyed_by_chars_push(mid, pair.0, kept);
                        }
                        self.entries.push((pair.0, kept));
                        proof { assert(self.history() =~= hk.insert(x, without_channel(hk[x], receiver@))); }
                    } else {
                        proof { assert(self.history() =~= hk.remove(x)); }
                    }
                },
                None => {},
            }
            k = k + 1;
        }
        assert(names(users@).take(k as int) =~= names(users@));
    }

    /// Clears, in channel `receiver`, the history of every user joined with `user`
    /// (`user` included).
    pub fn clear_history_for_joined_users(&mut self, user: &str, receiver: &str)
        requires
            old(self).wf(),
        ensures
            final(self).wf(),
            final(self).channels() == old(self).channels(),
            exists|us: Seq<Seq<char>>| us.to_set() == joined_set(old(self).sets_of(receiver@), user@)
                && final(self).history() == cleared(old(self).history(), us, receiver@),
    {
        let users = self.get_joined_users(user, receiver);
        self.clear_history_for_users(&users, receiver);
    }

    /// What the users joined with `user` (`user` included) have said in channel
    /// `receiver`, merged in order of time: the history visible to `user` there.
    pub fn joined_history(&self, user: &str, receiver: &str) -> (r: Vec<(Sender, String, i64)>)
        requires
            self.wf(),
        ensures
            by_time(r@.map_values(|t: (Sender, String, i64)| line_view(t))),
            exists|us: Seq<Seq<char>>| us.to_set() == joined_set(self.sets_of(receiver@), user@)
                && r@.map_values(|t: (Sender, String, i64)| line_view(t)).to_multiset()
                    == shown_for(self.history(), us, receiver@).to_multiset(),
    {
        let users = self.get_joined_users(user, receiver);
        let mut all: Vec<(Sender, String, i64)> = Vec::new();
        let mut i: usize = 0;
        assert(all@.map_values(|t: (Sender, String, i64)| line_view(t)) =~= shown_for(self.history(), names(users@).take(0), receiver@));
        while i < users.len()
            invariant
                i <= users@.len(),
                self.wf(),
                all@.map_values(|t: (Sender, String, i64)| line_view(t)) == shown_for(self.history(), names(users@).take(i as int), receiver@),
            decreases users@.len() - i,
        {
            let mut part = self.user_history(users[i].as_str(), receiver);
            let ghost a0 = all@;
            let ghost p0 = part@;
            all.append(&mut part);
            proof {
                let us = names(users@);
                assert(us.take(i as int + 1).drop_last() =~= us.take(i as int));
                assert(us.take(i as int + 1).last() == users@[i as int]@);
                assert(all@.map_values(|t: (Sender, String, i64)| line_view(t)) =~= a0.map_values(
                    |t: (Sender, String, i64)| line_view(t),
                ) + p0.map_values(|t: (Sender, String, i64)| line_view(t)));
            }
            i = i + 1;
        }
        assert(names(users@).take(i as int) =~= names(users@));
        sort_by_time(all)
    }

    /// Users joined with `user` in channel `receiver`, the user included, sorted.
    pub fn get_joined_users(&self, user: &str, receiver: &str) -> (r: Vec<String>)
        requires
            self.wf(),
        ensures
            sorted_names(r@),
            names(r@).no_duplicates(),
            names(r@).to_set() == joined_set(self.sets_of(receiver@), user@),
    {
        let mut users = match self.channel_sets(receiver) {
            Some(g) => g.get_group_members(user),
            None => {
                let v = vec![user.to_string()];
                assert(names(v@) =~= seq![user@]);
                v
            },
        };
        let ghost before = users@;
        proof {
            assert(names(before).to_set() == joined_set(self.sets_of(receiver@), user@)) by {
                if !(self.sets_of(receiver@) is Some && self.sets_of(receiver@)->0.index().contains_key(user@)) {
                    assert(names(before) == seq![user@]);
                    assert forall|x: Seq<char>| names(before).to_set().contains(x) <==> x == user@ by {
                        if x == user@ {
                            assert(names(before)[0] == x);
                        }
                    }
                    assert(names(before).to_set() =~= set![user@]);
                }
            }
        }
        proof {
            if !(self.sets_of(receiver@) is Some && self.sets_of(receiver@)->0.index().contains_key(user@)) {
                assert(names(before).no_duplicates()) by {
                    assert(names(before) == seq![user@]);
                }
            }
        }
        sort_names(&mut users);
        proof {
            lemma_reordered_names_distinct(before, users@);
            broadcast use vstd::seq_lib::group_to_multiset_ensures;
            assert forall|x: Seq<char>| names(users@).to_set().contains(x) <==> names(before).to_set().contains(x) by {
                if names(users@).contains(x) {
                    let k = choose|k: int| 0 <= k < names(users@).len() && names(users@)[k] == x;
                    assert(users@.contains(users@[k]));
                    assert(users@.to_multiset().count(users@[k]) > 0);
                    assert(before.contains(users@[k]));
                    let q = choose|q: int| 0 <= q < before.len() && before[q] == users@[k];
                    assert(names(before)[q] == x);
                }
                if names(before).contains(x) {
                    let k = choose|k: int| 0 <= k < names(before).len() && names(before)[k] == x;
                    assert(before.contains(before[k]));
                    assert(before.to_multiset().count(before[k]) > 0);
                    assert(users@.contains(before[k]));
                    let q = choose|q: int| 0 <= q < users@.len() && users@[q] == before[k];
                    assert(names(users@)[q] == x);
                }
            }
            assert(names(users@).to_set() =~= names(before).to_set());
        }
        users
    }

    /// Users joined with `user` in channel `receiver`, the user left out, sorted.
    pub fn get_joined_users_excluding_self(&self, user: &str, receiver: &str) -> (r: Vec<String>)
        requires
            self.wf(),
        ensures
            sorted_names(r@),
            names(r@).no_duplicates(),
            names(r@).to_set() == joined_set(self.sets_of(receiver@), user@).remove(user@),
    {
        let all = self.get_joined_users(user, receiver);
        let me = user.to_string();
        let mut r: Vec<String> = Vec::new();
        let ghost mut pos: Seq<int> = Seq::empty();
        let mut i: usize = 0;
        while i < all.len()
            invariant
                i <= all@.len(),
                me@ == user@,
                pos.len() == r@.len(),
                forall|k: int| #![trigger pos[k]] 0 <= k < pos.len() ==> 0 <= pos[k] < i && r@[k] == all@[pos[k]] && r@[k]@ != user@,
                forall|a: int, b: int| 0 <= a < b < pos.len() ==> #[trigger] pos[a] < #[trigger] pos[b],
                forall|j: int| 0 <= j < i && (#[trigger] all@[j])@ != user@ ==> exists|k: int| 0 <= k < pos.len() && pos[k] == j,
            decreases all@.len() - i,
        {
            if !(all[i] == me) {
                r.push(all[i].clone());
                proof {
                    let p0 = pos;
                    pos = pos.push(i as int);
                    assert forall|j: int| 0 <= j < i + 1 && (#[trigger] all@[j])@ != user@ implies exists|k: int| 0 <= k < pos.len() && pos[k] == j by {
                        if j == i {
                            assert(pos[pos.len() - 1] == j);
                        } else {
                            let k = choose|k: int| 0 <= k < p0.len() && p0[k] == j;
                            assert(pos[k] == j);
                        }
                    }
                }
            }
            i = i + 1;
        }
        proof {
            assert forall|a: int, b: int| 0 <= a < b < r@.len() implies bytes_le(encode_utf8(r@[a]@), encode_utf8(r@[b]@)) by {
                assert(pos[a] < pos[b]);
            }
            assert forall|a: int, b: int| 0 <= a < names(r@).len() && 0 <= b < names(r@).len() && a != b
                implies names(r@)[a] != names(r@)[b] by {
                assert(pos[a] != pos[b]) by {
                    if a < b {
                        assert(pos[a] < pos[b]);
                    } else {
                        assert(pos[b] < pos[a]);
                    }
                }
                assert(names(all@)[pos[a]] != names(all@)[pos[b]]);
            }
            let target = joined_set(self.sets_of(receiver@), user@).remove(user@);
            assert forall|x: Seq<char>| names(r@).to_set().contains(x) <==> target.contains(x) by {
                if names(r@).contains(x) {
                    let k = choose|k: int| 0 <= k < names(r@).len() && names(r@)[k] == x;
                    assert(names(all@)[pos[k]] == x);
                    assert(names(all@).to_set().contains(x));
                }
                if target.contains(x) {
                    assert(names(all@).to_set().contains(x));
                    let j = choose|j: int| 0 <= j < names(all@).len() && names(all@)[j] == x;
                    assert(all@[j]@ != user@);
                    let k = choose|k: int| 0 <= k < pos.len() && pos[k] == j;
                    assert(names(r@)[k] == x);
                }
            }
            assert(names(r@).to_set() =~= target);
        }
        r
    }
}

proof fn lemma_no_rows_empty(rows: Seq<(String, Entry)>, user: Seq<char>)
    requires
        !has_rows(rows, user),
    ensures
        rows_of(rows, user).len() == 0,
    decreases rows.len(),
{
    reveal(Seq::filter);
    if rows.len() > 0 {
        let d = rows.drop_last();
        if has_rows(d, user) {
            let j = choose|j: int| 0 <= j < d.len() && #[trigger] d[j].0@ == user;
            assert(rows[j].0@ == user);
        }
        lemma_no_rows_empty(d, user);
        assert(rows[rows.len() - 1].0@ != user);
        assert(rows.filter(|r: (String, Entry)| r.0@ == user) == d.filter(|r: (String, Entry)| r.0@ == user));
    }
}

} // verus!
