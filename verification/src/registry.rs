//! The permission store: which roles may run admin commands, per server.
//!
//! The registry maps a server id to the list of role ids that are allowed to
//! use the admin commands there. Two invariants hold after every operation:
//! every stored role list is strictly ascending (sorted, no duplicates), and
//! no stored role list is empty (an entry whose list empties is pruned).

use vstd::prelude::*;

verus! {

/// A sequence is strictly ascending: sorted with no duplicate values.
pub open spec fn sorted_unique(s: Seq<u64>) -> bool {
    forall|i: int, j: int| 0 <= i < j < s.len() ==> s[i] < s[j]
}

/// One server's entry: the roles allowed to run admin commands there.
pub struct ServerEntry {
    pub server: u64,
    pub roles: Vec<u64>,
}

/// The persisted aggregate: server id -> strictly ascending role list.
///
/// Entries are kept strictly ascending by server id, so every server occurs
/// at most once and the stored form is canonical.
pub struct AdminRoleRegistry {
    pub entries: Vec<ServerEntry>,
}

/// Some entry of `s` carries the server id `k`.
pub open spec fn has_server(s: Seq<ServerEntry>, k: u64) -> bool {
    exists|i: int| 0 <= i < s.len() && s[i].server == k
}

/// The index of the entry for server `k` (meaningful when keys are unique).
pub open spec fn index_of_server(s: Seq<ServerEntry>, k: u64) -> int {
    choose|i: int| 0 <= i < s.len() && s[i].server == k
}

/// The role list stored for server `k`.
pub open spec fn roles_of(s: Seq<ServerEntry>, k: u64) -> Seq<u64> {
    s[index_of_server(s, k)].roles@
}

/// The mapping a sequence of entries stands for.
pub open spec fn map_of(s: Seq<ServerEntry>) -> Map<u64, Seq<u64>> {
    Map::new(|k: u64| has_server(s, k), |k: u64| roles_of(s, k))
}

/// Well-formedness of the raw entry sequence: server ids strictly ascending,
/// every role list strictly ascending and non-empty.
pub open spec fn wf_entries(s: Seq<ServerEntry>) -> bool {
    &&& forall|i: int, j: int| 0 <= i < j < s.len() ==> s[i].server < s[j].server
    &&& forall|i: int|
        0 <= i < s.len() ==> sorted_unique(#[trigger] s[i].roles@) && s[i].roles@.len() > 0
}

/// Whether `v` holds `x`.
pub fn vec_contains(v: &Vec<u64>, x: u64) -> (r: bool)
    ensures
        r == v@.contains(x),
{
    let n = v.len();
    for i in 0..n
        invariant
            n == v@.len(),
            forall|j: int| 0 <= j < i ==> v@[j] != x,
    {
        if v[i] == x {
            return true;
        }
    }
    false
}

/// Insert `x` into the strictly ascending list `v`, keeping it strictly
/// ascending; inserting a value already present changes nothing.
pub fn insert_sorted(v: &mut Vec<u64>, x: u64)
    requires
        sorted_unique(old(v)@),
    ensures
        sorted_unique(final(v)@),
        forall|y: u64| final(v)@.contains(y) <==> old(v)@.contains(y) || y == x,
{
    let ghost orig = v@;
    let n = v.len();
    let mut i: usize = 0;
    while i < n && v[i] < x
        invariant
            n == v@.len(),
            v@ == orig,
            sorted_unique(v@),
            0 <= i <= n,
            forall|j: int| 0 <= j < i ==> v@[j] < x,
        decreases n - i,
    {
        i += 1;
    }
    if i < n && v[i] == x {
        assert(v@.contains(x));
        return;
    }
    // `i` is the insertion point: everything before is smaller, everything
    // from `i` on is larger.
    assert(forall|j: int| i <= j < v@.len() ==> x < v@[j]) by {
        assert forall|j: int| i <= j < v@.len() implies x < v@[j] by {
            assert(x < v@[i as int]);
            if i < j {
                assert(v@[i as int] < v@[j]);
            }
        }
    }
    v.insert(i, x);
    assert(sorted_unique(v@)) by {
        assert forall|p: int, q: int| 0 <= p < q < v@.len() implies v@[p] < v@[q] by {
            assert(v@ == orig.insert(i as int, x));
        }
    }
    assert forall|y: u64| v@.contains(y) <==> orig.contains(y) || y == x by {
        if orig.contains(y) {
            let k = choose|k: int| 0 <= k < orig.len() && orig[k] == y;
            if k < i {
                assert(v@[k] == y);
            } else {
                assert(v@[k + 1] == y);
            }
            assert(v@.contains(y));
        }
        if y == x {
            assert(v@[i as int] == y);
            assert(v@.contains(y));
        }
        if v@.contains(y) {
            let k = choose|k: int| 0 <= k < v@.len() && v@[k] == y;
            if k < i {
                assert(orig[k] == y);
                assert(orig.contains(y));
            } else if k == i {
                assert(y == x);
            } else {
                assert(orig[k - 1] == y);
                assert(orig.contains(y));
            }
        }
    }
}

/// The strictly ascending list holding every value of `a` and of `b`.
pub fn merge_sorted(a: &Vec<u64>, b: &Vec<u64>) -> (r: Vec<u64>)
    requires
        sorted_unique(a@),
    ensures
        sorted_unique(r@),
        forall|y: u64| r@.contains(y) <==> a@.contains(y) || b@.contains(y),
{
    let mut r = a.clone();
    let n = b.len();
    for i in 0..n
        invariant
            n == b@.len(),
            sorted_unique(r@),
            forall|y: u64| r@.contains(y) <==> a@.contains(y) || b@.subrange(0, i as int).contains(y),
    {
        let ghost before = r@;
        insert_sorted(&mut r, b[i]);
        proof {
            assert forall|y: u64| r@.contains(y) <==> a@.contains(y) || b@.subrange(
                0,
                i + 1 as int,
            ).contains(y) by {
                assert(b@.subrange(0, i + 1 as int).drop_last() == b@.subrange(0, i as int));
                if b@.subrange(0, i as int).contains(y) {
                    let k = choose|k: int| 0 <= k < i && b@.subrange(0, i as int)[k] == y;
                    assert(b@.subrange(0, i + 1 as int)[k] == y);
                }
                if y == b@[i as int] {
                    assert(b@.subrange(0, i + 1 as int)[i as int] == y);
                }
                if b@.subrange(0, i + 1 as int).contains(y) {
                    let k = choose|k: int|
                        0 <= k < i + 1 && #[trigger] b@.subrange(0, i + 1 as int)[k] == y;
                    if k < i {
                        assert(b@.subrange(0, i as int)[k] == y);
                    } else {
                        assert(y == b@[i as int]);
                    }
                }
            }
        }
    }
    proof {
        assert(b@.subrange(0, n as int) == b@);
    }
    r
}

/// The strictly ascending list holding the values of `a` that are not in `b`.
pub fn remove_all(a: &Vec<u64>, b: &Vec<u64>) -> (r: Vec<u64>)
    requires
        sorted_unique(a@),
    ensures
        sorted_unique(r@),
        forall|y: u64| r@.contains(y) <==> a@.contains(y) && !b@.contains(y),
{
    let mut r: Vec<u64> = Vec::new();
    let n = a.len();
    for i in 0..n
        invariant
            n == a@.len(),
            sorted_unique(a@),
            sorted_unique(r@),
            forall|y: u64| r@.contains(y) <==> a@.subrange(0, i as int).contains(y)
                && !b@.contains(y),
            forall|k: int| 0 <= k < r@.len() ==> a@.subrange(0, i as int).contains(r@[k]),
    {
        let ghost before = r@;
        let keep = !vec_contains(b, a[i]);
        if keep {
            proof {
                // every element already kept is smaller than a[i]
                assert forall|k: int| 0 <= k < r@.len() implies r@[k] < a@[i as int] by {
                    assert(a@.subrange(0, i as int).contains(r@[k]));
                    let m = choose|m: int| 0 <= m < i && a@[m] == r@[k];
                    assert(a@[m] < a@[i as int]);
                }
            }
            r.push(a[i]);
            proof {
                assert(sorted_unique(r@)) by {
                    assert forall|p: int, q: int| 0 <= p < q < r@.len() implies r@[p] < r@[q] by {
                        if q < r@.len() - 1 {
                            assert(before[p] < before[q]);
                        } else {
                            assert(r@[p] == before[p]);
                        }
                    }
                }
            }
        }
        proof {
            if keep {
                assert(r@ == before.push(a@[i as int]));
                assert(r@[r@.len() - 1] == a@[i as int]);
            } else {
                assert(r@ == before);
            }
            assert forall|y: u64| r@.contains(y) <==> a@.subrange(0, i + 1 as int).contains(y)
                && !b@.contains(y) by {
                if a@.subrange(0, i + 1 as int).contains(y) {
                    let k = choose|k: int|
                        0 <= k < i + 1 && #[trigger] a@.subrange(0, i + 1 as int)[k] == y;
                    if k < i {
                        assert(a@.subrange(0, i as int)[k] == y);
                        assert(a@.subrange(0, i as int).contains(y));
                    } else {
                        assert(y == a@[i as int]);
                    }
                }
                if a@.subrange(0, i as int).contains(y) {
                    let k = choose|k: int| 0 <= k < i && a@.subrange(0, i as int)[k] == y;
                    assert(a@.subrange(0, i + 1 as int)[k] == y);
                    assert(a@.subrange(0, i + 1 as int).contains(y));
                }
                if y == a@[i as int] {
                    assert(a@.subrange(0, i + 1 as int)[i as int] == y);
                    assert(a@.subrange(0, i + 1 as int).contains(y));
                }
                if r@.contains(y) && !before.contains(y) {
                    let k = choose|k: int| 0 <= k < r@.len() && r@[k] == y;
                    if k < before.len() {
                        assert(before[k] == y);
                        assert(before.contains(y));
                    } else {
                        assert(y == a@[i as int]);
                    }
                }
                if before.contains(y) {
                    let k = choose|k: int| 0 <= k < before.len() && before[k] == y;
                    assert(r@[k] == y);
                    assert(r@.contains(y));
                }
            }
            assert forall|k: int| 0 <= k < r@.len() implies a@.subrange(0, i + 1 as int).contains(
                r@[k],
            ) by {
                assert(r@.contains(r@[k]));
            }
        }
    }
    proof {
        assert(a@.subrange(0, n as int) == a@);
    }
    r
}

/// Two strictly ascending lists with the same members are the same list:
/// the sorted, deduplicated form is canonical.
pub proof fn lemma_sorted_unique_canonical(a: Seq<u64>, b: Seq<u64>)
    requires
        sorted_unique(a),
        sorted_unique(b),
        forall|x: u64| a.contains(x) <==> b.contains(x),
    ensures
        a == b,
    decreases a.len(),
{
    if a.len() == 0 {
        if b.len() > 0 {
            assert(b.contains(b[0]));
        }
        assert(a =~= b);
    } else {
        assert(a.contains(a.last()));
        assert(b.contains(a.last()));
        assert(b.len() > 0);
        assert(b.contains(b.last()));
        let la = a.last();
        let lb = b.last();
        assert(la <= lb) by {
            let i = choose|i: int| 0 <= i < b.len() && b[i] == la;
            if i < b.len() - 1 {
                assert(b[i] < b[b.len() - 1]);
            }
        }
        assert(lb <= la) by {
            let i = choose|i: int| 0 <= i < a.len() && a[i] == lb;
            if i < a.len() - 1 {
                assert(a[i] < a[a.len() - 1]);
            }
        }
        assert forall|x: u64| a.drop_last().contains(x) <==> b.drop_last().contains(x) by {
            if a.drop_last().contains(x) {
                let i = choose|i: int| 0 <= i < a.len() - 1 && a[i] == x;
                assert(a[i] < a[a.len() - 1]);
                assert(a.contains(x));
                let j = choose|j: int| 0 <= j < b.len() && b[j] == x;
                assert(j < b.len() - 1);
                assert(b.drop_last()[j] == x);
            }
            if b.drop_last().contains(x) {
                let i = choose|i: int| 0 <= i < b.len() - 1 && b[i] == x;
                assert(b[i] < b[b.len() - 1]);
                assert(b.contains(x));
                let j = choose|j: int| 0 <= j < a.len() && a[j] == x;
                assert(j < a.len() - 1);
                assert(a.drop_last()[j] == x);
            }
        }
        lemma_sorted_unique_canonical(a.drop_last(), b.drop_last());
        assert(a =~= b) by {
            assert forall|i: int| 0 <= i < a.len() implies a[i] == b[i] by {
                if i < a.len() - 1 {
                    assert(a.drop_last()[i] == b.drop_last()[i]);
                }
            }
        }
    }
}

impl View for AdminRoleRegistry {
    type V = Map<u64, Seq<u64>>;

    open spec fn view(&self) -> Map<u64, Seq<u64>> {
        map_of(self.entries@)
    }
}

/// In a well-formed entry sequence, the entry at index `i` is the one the
/// mapping associates with its server id.
pub proof fn lemma_entry_lookup(s: Seq<ServerEntry>, i: int)
    requires
        wf_entries(s),
        0 <= i < s.len(),
    ensures
        has_server(s, s[i].server),
        index_of_server(s, s[i].server) == i,
        map_of(s).contains_key(s[i].server),
        map_of(s)[s[i].server] == s[i].roles@,
{
    assert(has_server(s, s[i].server));
    let j = index_of_server(s, s[i].server);
    assert(0 <= j < s.len() && s[j].server == s[i].server);
    if j < i {
        assert(s[j].server < s[i].server);
    } else if i < j {
        assert(s[i].server < s[j].server);
    }
}

/// Every list a well-formed mapping stores is strictly ascending and
/// non-empty.
pub open spec fn wf_map(m: Map<u64, Seq<u64>>) -> bool {
    forall|k: u64|
        m.contains_key(k) ==> sorted_unique(#[trigger] m[k]) && m[k].len() > 0
}

/// What adding `roles` to `server`'s list does to the stored mapping:
/// every other server is untouched; `server`'s list afterwards holds exactly
/// its old values and the added ones, strictly ascending; an entry exists
/// only when that union is non-empty.
pub open spec fn add_effect(
    pre: Map<u64, Seq<u64>>,
    post: Map<u64, Seq<u64>>,
    server: u64,
    roles: Seq<u64>,
) -> bool {
    &&& forall|k: u64|
        k != server ==> (#[trigger] post.contains_key(k) <==> pre.contains_key(k))
    &&& forall|k: u64| k != server && pre.contains_key(k) ==> #[trigger] post[k] == pre[k]
    &&& if pre.contains_key(server) || roles.len() > 0 {
        &&& post.contains_key(server)
        &&& sorted_unique(post[server])
        &&& forall|x: u64|
            #[trigger] post[server].contains(x) <==> (pre.contains_key(server)
                && pre[server].contains(x)) || roles.contains(x)
    } else {
        !post.contains_key(server)
    }
}

/// What removing `roles` from `server`'s list does to the stored mapping:
/// every other server is untouched; `server`'s list afterwards holds exactly
/// its old values that were not removed; the entry is pruned when nothing
/// survives.
pub open spec fn remove_effect(
    pre: Map<u64, Seq<u64>>,
    post: Map<u64, Seq<u64>>,
    server: u64,
    roles: Seq<u64>,
) -> bool {
    &&& forall|k: u64|
        k != server ==> (#[trigger] post.contains_key(k) <==> pre.contains_key(k))
    &&& forall|k: u64| k != server && pre.contains_key(k) ==> #[trigger] post[k] == pre[k]
    &&& if pre.contains_key(server) && (exists|x: u64|
        pre[server].contains(x) && !roles.contains(x)) {
        &&& post.contains_key(server)
        &&& sorted_unique(post[server])
        &&& forall|x: u64|
            #[trigger] post[server].contains(x) <==> pre[server].contains(x) && !roles.contains(
                x,
            )
    } else {
        !post.contains_key(server)
    }
}

/// Replacing the entry at `idx` with one that carries the same server id
/// changes the mapping at that server alone.
proof fn lemma_map_of_update(s: Seq<ServerEntry>, idx: int, e: ServerEntry)
    requires
        wf_entries(s),
        0 <= idx < s.len(),
        e.server == s[idx].server,
        sorted_unique(e.roles@),
        e.roles@.len() > 0,
    ensures
        wf_entries(s.update(idx, e)),
        forall|k: u64|
            k != e.server ==> (#[trigger] map_of(s.update(idx, e)).contains_key(k) <==> map_of(
                s,
            ).contains_key(k)),
        forall|k: u64|
            k != e.server && map_of(s).contains_key(k) ==> #[trigger] map_of(s.update(idx, e))[k]
                == map_of(s)[k],
        map_of(s.update(idx, e)).contains_key(e.server),
        map_of(s.update(idx, e))[e.server] == e.roles@,
{
    let s2 = s.update(idx, e);
    assert(wf_entries(s2)) by {
        assert(forall|i: int| 0 <= i < s2.len() ==> #[trigger] s2[i].server == s[i].server);
    }
    assert forall|k: u64|
        k != e.server implies (#[trigger] map_of(s2).contains_key(k) <==> map_of(
        s,
    ).contains_key(k)) by {
        if has_server(s, k) {
            let i = choose|i: int| 0 <= i < s.len() && s[i].server == k;
            assert(i != idx);
            assert(s2[i].server == k);
            assert(has_server(s2, k));
        }
        if has_server(s2, k) {
            let i = choose|i: int| 0 <= i < s2.len() && s2[i].server == k;
            assert(i != idx);
            assert(s[i].server == k);
            assert(has_server(s, k));
        }
    }
    assert forall|k: u64|
        k != e.server && map_of(s).contains_key(k) implies #[trigger] map_of(s2)[k] == map_of(
        s,
    )[k] by {
        let i = choose|i: int| 0 <= i < s.len() && s[i].server == k;
        assert(i != idx);
        assert(s2[i].server == k && s2[i].roles == s[i].roles);
        lemma_entry_lookup(s, i);
        lemma_entry_lookup(s2, i);
    }
    lemma_entry_lookup(s2, idx);
}

/// Inserting an entry at its sorted position adds that server's mapping and
/// changes nothing else.
proof fn lemma_map_of_insert(s: Seq<ServerEntry>, idx: int, e: ServerEntry)
    requires
        wf_entries(s),
        0 <= idx <= s.len(),
        forall|j: int| 0 <= j < idx ==> s[j].server < e.server,
        forall|j: int| idx <= j < s.len() ==> e.server < s[j].server,
        sorted_unique(e.roles@),
        e.roles@.len() > 0,
    ensures
        wf_entries(s.insert(idx, e)),
        !map_of(s).contains_key(e.server),
        forall|k: u64|
            k != e.server ==> (#[trigger] map_of(s.insert(idx, e)).contains_key(k) <==> map_of(
                s,
            ).contains_key(k)),
        forall|k: u64|
            k != e.server && map_of(s).contains_key(k) ==> #[trigger] map_of(s.insert(idx, e))[k]
                == map_of(s)[k],
        map_of(s.insert(idx, e)).contains_key(e.server),
        map_of(s.insert(idx, e))[e.server] == e.roles@,
{
    let s2 = s.insert(idx, e);
    assert(s2.len() == s.len() + 1);
    assert(forall|i: int| 0 <= i < idx ==> s2[i] == s[i]);
    assert(s2[idx] == e);
    assert(forall|i: int| idx < i < s2.len() ==> s2[i] == s[i - 1]);
    assert(wf_entries(s2)) by {
        assert forall|p: int, q: int| 0 <= p < q < s2.len() implies s2[p].server
            < s2[q].server by {
            if p < idx && q > idx {
                assert(s[p].server < e.server);
                assert(e.server < s[q - 1].server);
            }
        }
    }
    if has_server(s, e.server) {
        let i = choose|i: int| 0 <= i < s.len() && s[i].server == e.server;
        assert(false);
    }
    assert forall|k: u64|
        k != e.server implies (#[trigger] map_of(s2).contains_key(k) <==> map_of(
        s,
    ).contains_key(k)) by {
        if has_server(s, k) {
            let i = choose|i: int| 0 <= i < s.len() && s[i].server == k;
            if i < idx {
                assert(s2[i].server == k);
            } else {
                assert(s2[i + 1].server == k);
            }
            assert(has_server(s2, k));
        }
        if has_server(s2, k) {
            let i = choose|i: int| 0 <= i < s2.len() && s2[i].server == k;
            if i < idx {
                assert(s[i].server == k);
            } else {
                assert(i != idx);
                assert(s[i - 1].server == k);
            }
            assert(has_server(s, k));
        }
    }
    assert forall|k: u64|
        k != e.server && map_of(s).contains_key(k) implies #[trigger] map_of(s2)[k] == map_of(
        s,
    )[k] by {
        let i = choose|i: int| 0 <= i < s.len() && s[i].server == k;
        lemma_entry_lookup(s, i);
        if i < idx {
            assert(s2[i].server == k && s2[i].roles == s[i].roles);
            lemma_entry_lookup(s2, i);
        } else {
            assert(s2[i + 1].server == k && s2[i + 1].roles == s[i].roles);
            lemma_entry_lookup(s2, i + 1);
        }
    }
    lemma_entry_lookup(s2, idx);
}

/// Removing the entry at `idx` prunes that server's mapping and changes
/// nothing else.
proof fn lemma_map_of_remove(s: Seq<ServerEntry>, idx: int)
    requires
        wf_entries(s),
        0 <= idx < s.len(),
    ensures
        wf_entries(s.remove(idx)),
        forall|k: u64|
            k != s[idx].server ==> (#[trigger] map_of(s.remove(idx)).contains_key(k) <==> map_of(
                s,
            ).contains_key(k)),
        forall|k: u64|
            k != s[idx].server && map_of(s).contains_key(k) ==> #[trigger] map_of(
                s.remove(idx),
            )[k] == map_of(s)[k],
        !map_of(s.remove(idx)).contains_key(s[idx].server),
{
    let s2 = s.remove(idx);
    assert(s2.len() == s.len() - 1);
    assert(forall|i: int| 0 <= i < idx ==> s2[i] == s[i]);
    assert(forall|i: int| idx <= i < s2.len() ==> s2[i] == s[i + 1]);
    assert(wf_entries(s2));
    if has_server(s2, s[idx].server) {
        let i = choose|i: int| 0 <= i < s2.len() && s2[i].server == s[idx].server;
        if i < idx {
            assert(s[i].server < s[idx].server);
        } else {
            assert(s[idx].server < s[i + 1].server);
        }
        assert(false);
    }
    assert forall|k: u64|
        k != s[idx].server implies (#[trigger] map_of(s2).contains_key(k) <==> map_of(
        s,
    ).contains_key(k)) by {
        if has_server(s, k) {
            let i = choose|i: int| 0 <= i < s.len() && s[i].server == k;
            if i < idx {
                assert(s2[i].server == k);
            } else {
                assert(i != idx);
                assert(s2[i - 1].server == k);
            }
            assert(has_server(s2, k));
        }
        if has_server(s2, k) {
            let i = choose|i: int| 0 <= i < s2.len() && s2[i].server == k;
            if i < idx {
                assert(s[i].server == k);
            } else {
                assert(s[i + 1].server == k);
            }
            assert(has_server(s, k));
        }
    }
    assert forall|k: u64|
        k != s[idx].server && map_of(s).contains_key(k) implies #[trigger] map_of(s2)[k] == map_of(
        s,
    )[k] by {
        let i = choose|i: int| 0 <= i < s.len() && s[i].server == k;
        lemma_entry_lookup(s, i);
        if i < idx {
            assert(s2[i].server == k && s2[i].roles == s[i].roles);
            lemma_entry_lookup(s2, i);
        } else {
            assert(s2[i - 1].server == k && s2[i - 1].roles == s[i].roles);
            lemma_entry_lookup(s2, i - 1);
        }
    }
}

impl AdminRoleRegistry {
    /// The registry's invariant.
    pub open spec fn wf(&self) -> bool {
        wf_entries(self.entries@)
    }

    /// A well-formed registry stores only strictly ascending, non-empty
    /// lists: the sort/dedup invariant, as seen through the mapping.
    pub proof fn lemma_wf_map(&self)
        requires
            self.wf(),
        ensures
            wf_map(self@),
    {
        assert forall|k: u64|
            self@.contains_key(k) implies sorted_unique(#[trigger] self@[k]) && self@[k].len()
            > 0 by {
            let i = index_of_server(self.entries@, k);
            assert(0 <= i < self.entries@.len() && self.entries@[i].server == k);
        }
    }

    /// An empty registry: no server has any admin roles.
    pub fn new() -> (r: Self)
        ensures
            r.wf(),
            r@ == Map::<u64, Seq<u64>>::empty(),
            r.entries@ =~= Seq::<ServerEntry>::empty(),
    {
        let r = AdminRoleRegistry { entries: Vec::new() };
        proof {
            assert(r@ =~= Map::<u64, Seq<u64>>::empty());
        }
        r
    }

    /// Read-only lookup: the admin role list for `server`, or nothing when
    /// the server has no configured admin roles.
    pub fn get_admin_roles(&self, server: u64) -> (r: Option<&Vec<u64>>)
        requires
            self.wf(),
        ensures
            match r {
                Some(v) => self@.contains_key(server) && v@ == self@[server] && v@.len() > 0
                    && sorted_unique(v@),
                None => !self@.contains_key(server),
            },
    {
        let n = self.entries.len();
        for i in 0..n
            invariant
                n == self.entries@.len(),
                self.wf(),
                forall|j: int| 0 <= j < i ==> self.entries@[j].server != server,
        {
            if self.entries[i].server == server {
                proof {
                    lemma_entry_lookup(self.entries@, i as int);
                }
                return Some(&self.entries[i].roles);
            }
        }
        None
    }

    /// Grant admin access: insert the given role ids into `server`'s list,
    /// creating the entry when absent, keeping the list strictly ascending.
    /// Adding a role that is already present changes nothing for that id.
    pub fn add_admin_roles(&mut self, server: u64, roles: &Vec<u64>)
        requires
            old(self).wf(),
        ensures
            final(self).wf(),
            add_effect(old(self)@, final(self)@, server, roles@),
    {
        let ghost pre = self.entries@;
        let n = self.entries.len();
        let mut idx: usize = 0;
        while idx < n && self.entries[idx].server < server
            invariant
                n == self.entries@.len(),
                self.entries@ == pre,
                wf_entries(pre),
                0 <= idx <= n,
                forall|j: int| 0 <= j < idx ==> pre[j].server < server,
            decreases n - idx,
        {
            idx += 1;
        }
        if idx < n && self.entries[idx].server == server {
            proof {
                lemma_entry_lookup(pre, idx as int);
            }
            let merged = merge_sorted(&self.entries[idx].roles, roles);
            proof {
                assert(pre[idx as int].roles@.contains(pre[idx as int].roles@[0]));
                assert(merged@.contains(pre[idx as int].roles@[0]));
            }
            let mut e = self.entries.remove(idx);
            e.roles = merged;
            self.entries.insert(idx, e);
            proof {
                let enew = self.entries@[idx as int];
                assert(self.entries@ =~= pre.update(idx as int, enew));
                lemma_map_of_update(pre, idx as int, enew);
            }
        } else {
            proof {
                if has_server(pre, server) {
                    let i = choose|i: int| 0 <= i < pre.len() && pre[i].server == server;
                    if idx < n {
                        assert(i < idx || pre[idx as int].server <= pre[i].server);
                    }
                    assert(false);
                }
            }
            if roles.len() > 0 {
                let empty_list: Vec<u64> = Vec::new();
                let fresh = merge_sorted(&empty_list, roles);
                proof {
                    assert(roles@.contains(roles@[0]));
                    assert(fresh@.contains(roles@[0]));
                }
                self.entries.insert(idx, ServerEntry { server, roles: fresh });
                proof {
                    let enew = self.entries@[idx as int];
                    assert(self.entries@ =~= pre.insert(idx as int, enew));
                    assert forall|j: int| idx <= j < pre.len() implies enew.server
                        < pre[j].server by {
                        assert(pre[idx as int].server > server);
                        if idx < j {
                            assert(pre[idx as int].server < pre[j].server);
                        }
                    }
                    lemma_map_of_insert(pre, idx as int, enew);
                }
            }
        }
    }

    /// Revoke admin access: remove the given role ids from `server`'s list;
    /// when the list empties, the entry is pruned entirely. Removing a role
    /// that is not present changes nothing for that id.
    pub fn remove_admin_roles(&mut self, server: u64, roles: &Vec<u64>)
        requires
            old(self).wf(),
        ensures
            final(self).wf(),
            remove_effect(old(self)@, final(self)@, server, roles@),
    {
        let ghost pre = self.entries@;
        let n = self.entries.len();
        let mut idx: usize = 0;
        while idx < n && self.entries[idx].server != server
            invariant
                n == self.entries@.len(),
                self.entries@ == pre,
                wf_entries(pre),
                0 <= idx <= n,
                forall|j: int| 0 <= j < idx ==> pre[j].server != server,
            decreases n - idx,
        {
            idx += 1;
        }
        if idx == n {
            proof {
                if has_server(pre, server) {
                    let i = choose|i: int| 0 <= i < pre.len() && pre[i].server == server;
                    assert(false);
                }
            }
            return;
        }
        proof {
            lemma_entry_lookup(pre, idx as int);
        }
        let remaining = remove_all(&self.entries[idx].roles, roles);
        if remaining.len() == 0 {
            self.entries.remove(idx);
            proof {
                lemma_map_of_remove(pre, idx as int);
                if exists|x: u64| map_of(pre)[server].contains(x) && !roles@.contains(x) {
                    let x = choose|x: u64|
                        map_of(pre)[server].contains(x) && !roles@.contains(x);
                    assert(remaining@.contains(x));
                    assert(false);
                }
            }
        } else {
            let mut e = self.entries.remove(idx);
            e.roles = remaining;
            self.entries.insert(idx, e);
            proof {
                let enew = self.entries@[idx as int];
                assert(self.entries@ =~= pre.update(idx as int, enew));
                lemma_map_of_update(pre, idx as int, enew);
                assert(enew.roles@.contains(enew.roles@[0]));
            }
        }
    }
}

/// Adding the same roles twice leaves the same stored mapping as adding them
/// once: the add operation is idempotent.
pub proof fn lemma_add_idempotent(
    pre: Map<u64, Seq<u64>>,
    once: Map<u64, Seq<u64>>,
    twice: Map<u64, Seq<u64>>,
    server: u64,
    roles: Seq<u64>,
)
    requires
        add_effect(pre, once, server, roles),
        add_effect(once, twice, server, roles),
    ensures
        twice == once,
{
    if once.contains_key(server) {
        assert forall|x: u64| twice[server].contains(x) <==> once[server].contains(x) by {
            if roles.contains(x) {
                assert(once[server].contains(x));
            }
        }
        lemma_sorted_unique_canonical(twice[server], once[server]);
    } else {
        assert(!(pre.contains_key(server) || roles.len() > 0));
        assert(!twice.contains_key(server));
    }
    assert(twice =~= once) by {
        assert(forall|k: u64|
            #[trigger] twice.contains_key(k) <==> once.contains_key(k));
        assert(forall|k: u64|
            once.contains_key(k) ==> #[trigger] twice[k] == once[k]);
    }
}

/// Removing roles that are not configured for the server leaves the stored
/// mapping unchanged: the remove operation is a no-op on absent roles.
pub proof fn lemma_remove_absent(
    pre: Map<u64, Seq<u64>>,
    post: Map<u64, Seq<u64>>,
    server: u64,
    roles: Seq<u64>,
)
    requires
        wf_map(pre),
        remove_effect(pre, post, server, roles),
        forall|x: u64|
            roles.contains(x) ==> !(pre.contains_key(server) && #[trigger] pre[server].contains(
                x,
            )),
    ensures
        post == pre,
{
    if pre.contains_key(server) {
        let x0 = pre[server][0];
        assert(pre[server].contains(x0));
        assert(!roles.contains(x0));
        assert forall|x: u64| post[server].contains(x) <==> pre[server].contains(x) by {
            if pre[server].contains(x) {
                assert(!roles.contains(x));
            }
        }
        lemma_sorted_unique_canonical(post[server], pre[server]);
    }
    assert(post =~= pre) by {
        assert(forall|k: u64| #[trigger] post.contains_key(k) <==> pre.contains_key(k));
        assert(forall|k: u64| pre.contains_key(k) ==> #[trigger] post[k] == pre[k]);
    }
}

/// Removing every role a server has configured prunes its entry: the server
/// no longer appears in the stored mapping at all.
pub proof fn lemma_remove_all_prunes(
    pre: Map<u64, Seq<u64>>,
    post: Map<u64, Seq<u64>>,
    server: u64,
    roles: Seq<u64>,
)
    requires
        remove_effect(pre, post, server, roles),
        forall|x: u64|
            pre.contains_key(server) && #[trigger] pre[server].contains(x) ==> roles.contains(x),
    ensures
        !post.contains_key(server),
{
    if pre.contains_key(server) && (exists|x: u64|
        pre[server].contains(x) && !roles.contains(x)) {
        let x = choose|x: u64| pre[server].contains(x) && !roles.contains(x);
        assert(false);
    }
}

} // verus!
