//! What a task is sent with: the promises that share its promise's branch.

use vstd::prelude::*;
use vstd::set_lib::*;
use vstd::utf8::*;
use crate::calls::{bytes_ascending, in_key_order, World};
use crate::index::{entry_written, has_entry, in_branch, index_agrees};
use crate::keys::{
    branch_entries_share_the_prefix, branch_key_of, branch_prefix_of, entry_of,
    only_entries_in_the_index, KeyView,
};
use crate::laws::{filter_all, filter_ordered};
use crate::order::{bytes_lt, keys_keep_id_order};
use crate::records::{PromiseView, Text};
use crate::search::filter_prefix;
use crate::tags::{ascending, ascending_distinct, ascending_insert};
use crate::text::{text_lt, text_lt_irreflexive, text_lt_total, text_lt_transitive};
use crate::txn::{
    ascending_unique, collect, first, in_order, in_order_is, named_by, scan, siblings, RowView,
    TxnView, SCAN_PAGE,
};

verus! {

/// The index entries of `ids` within `branch`.
pub open spec fn entries(branch: Text, ids: Seq<Text>) -> Seq<Seq<u8>> {
    Seq::new(ids.len(), |i: int| branch_key_of(branch, ids[i]))
}

/// Whether the index of `branch` holds the promises of `ids` and no others: a
/// listing of its prefix gives their entries in id order.
pub open spec fn indexes(w: World, branch: Text, ids: Seq<Text>) -> bool {
    &&& ascending(ids)
    &&& ids.len() <= usize::MAX - SCAN_PAGE
    &&& forall|count: usize| #[trigger]
        w.listing(branch_prefix_of(branch), count) == first(entries(branch, ids), count)
}

/// An index entry names its promise.
proof fn entry_names(branch: Text, id: Text)
    ensures
        entry_of(branch_prefix_of(branch), branch_key_of(branch, id)) == Some(id),
{
    let prefix = branch_prefix_of(branch);
    let key = branch_key_of(branch, id);
    assert(key.skip(prefix.len() as int) =~= encode_utf8(id));
    assert(prefix =~= key.subrange(0, prefix.len() as int));
    encode_utf8_valid_utf8(id);
    encode_utf8_decode_utf8(id);
}

/// The members of `ids` up to `n`, other than `own`.
pub open spec fn others(ids: Seq<Text>, n: int, own: Text) -> Set<Text> {
    ids.take(n).to_set().remove(own)
}

/// The members of a sequence are finitely many.
proof fn others_finite(ids: Seq<Text>, n: int, own: Text)
    requires
        0 <= n <= ids.len(),
    ensures
        others(ids, n, own).finite(),
{
    vstd::seq_lib::seq_to_set_is_finite(ids.take(n));
}

/// Collecting from the entries of `ids` adds the ids up to a place, which is the
/// end unless there are more than `limit`.
proof fn collect_is(branch: Text, ids: Seq<Text>, own: Text, limit: usize, known: Set<Text>) -> (n:
    int)
    requires
        known.finite(),
    ensures
        0 <= n <= ids.len(),
        collect(entries(branch, ids), branch_prefix_of(branch), own, limit, known) == known.union(
            others(ids, n, own),
        ),
        n < ids.len() ==> collect(
            entries(branch, ids),
            branch_prefix_of(branch),
            own,
            limit,
            known,
        ).len() > limit,
    decreases ids.len(),
{
    let prefix = branch_prefix_of(branch);
    let keys = entries(branch, ids);
    if ids.len() == 0 {
        assert(known.union(others(ids, 0, own)) =~= known);
        0
    } else {
        let id = ids[0];
        entry_names(branch, id);
        assert(keys[0] == branch_key_of(branch, id));
        let next = if id != own {
            known.insert(id)
        } else {
            known
        };
        let rest = ids.drop_first();
        assert(keys.drop_first() =~= entries(branch, rest));
        if next.len() > limit {
            assert(ids.take(1) =~= seq![id]);
            assert(seq![id][0] == id);
            assert(known.union(others(ids, 1, own)) =~= next);
            1
        } else {
            let m = collect_is(branch, rest, own, limit, next);
            let n = m + 1;
            assert(ids.take(n) =~= seq![id] + rest.take(m));
            assert forall|x: Text| #[trigger] next.union(others(rest, m, own)).contains(x)
                <==> known.union(others(ids, n, own)).contains(x) by {
                if ids.take(n).contains(x) && x != id {
                    let i = ids.take(n).index_of(x);
                    assert(rest.take(m)[i - 1] == x);
                }
                if rest.take(m).contains(x) {
                    let i = rest.take(m).index_of(x);
                    assert(ids.take(n)[i + 1] == x);
                }
                assert(ids.take(n)[0] == id);
            }
            assert(next.union(others(rest, m, own)) =~= known.union(others(ids, n, own)));
            n
        }
    }
}

/// A scan of the index gives the ids up to a place, which is the end unless
/// there are more than `limit`.
proof fn scan_is(
    w: World,
    branch: Text,
    ids: Seq<Text>,
    own: Text,
    limit: usize,
    count: usize,
) -> (n: int)
    requires
        indexes(w, branch, ids),
    ensures
        0 <= n <= ids.len(),
        scan(w, branch_prefix_of(branch), own, limit, count) == others(ids, n, own),
        n < ids.len() ==> others(ids, n, own).len() > limit,
    decreases usize::MAX - count,
{
    let prefix = branch_prefix_of(branch);
    let keys = w.listing(prefix, count);
    let part = first(ids, count);
    assert(keys == first(entries(branch, ids), count));
    assert(keys =~= entries(branch, part));
    let found = collect(keys, prefix, own, limit, Set::empty());
    let n = collect_is(branch, part, own, limit, Set::empty());
    assert(Set::<Text>::empty().union(others(part, n, own)) =~= others(part, n, own));
    assert(part.take(n) =~= ids.take(n));
    if found.len() > limit || keys.len() < count || count > usize::MAX - SCAN_PAGE {
        n
    } else {
        scan_is(w, branch, ids, own, limit, (count + SCAN_PAGE) as usize)
    }
}

/// The place of `key` among ascending keys that do not hold it.
proof fn place(keys: Seq<Text>, key: Text) -> (at: int)
    requires
        ascending(keys),
        !keys.contains(key),
    ensures
        0 <= at <= keys.len(),
        forall|i: int| 0 <= i < at ==> text_lt(#[trigger] keys[i], key),
        at < keys.len() ==> text_lt(key, keys[at]),
    decreases keys.len(),
{
    if keys.len() == 0 {
        0
    } else {
        let short = keys.drop_last();
        let last = keys[keys.len() - 1];
        assert(keys.contains(last));
        assert forall|i: int, j: int|
            #![trigger short[i], short[j]]
            0 <= i < j < short.len() implies text_lt(short[i], short[j]) by {
            assert(text_lt(keys[i], keys[j]));
        }
        assert(!short.contains(key)) by {
            if short.contains(key) {
                let i = short.index_of(key);
                assert(keys[i] == key);
            }
        }
        let at = place(short, key);
        text_lt_total(last, key);
        if text_lt(last, key) {
            assert forall|i: int| 0 <= i < keys.len() implies text_lt(#[trigger] keys[i], key) by {
                if i < keys.len() - 1 {
                    assert(text_lt(keys[i], keys[keys.len() - 1]));
                    text_lt_transitive(keys[i], last, key);
                }
            }
            keys.len() as int
        } else {
            assert forall|i: int| 0 <= i < at implies text_lt(#[trigger] keys[i], key) by {
                assert(short[i] == keys[i]);
            }
            at
        }
    }
}

/// A finite set of texts can be put in order.
pub proof fn ordered(ids: Set<Text>) -> (s: Seq<Text>)
    requires
        ids.finite(),
    ensures
        ascending(s),
        s.to_set() == ids,
        in_order(ids) == s,
        s.len() == ids.len(),
    decreases ids.len(),
{
    if ids.len() == 0 {
        let s = Seq::<Text>::empty();
        assert(s.to_set() =~= ids);
        in_order_is(ids, s);
        s
    } else {
        let id = ids.choose();
        let rest = ordered(ids.remove(id));
        assert(!rest.contains(id)) by {
            if rest.contains(id) {
                assert(rest.to_set().contains(id));
            }
        }
        let at = place(rest, id);
        ascending_insert(rest, at, id);
        let s = rest.insert(at, id);
        assert forall|x: Text| #[trigger] s.to_set().contains(x) <==> ids.contains(x) by {
            assert(s[at] == id);
            if ids.contains(x) && x != id {
                assert(rest.to_set().contains(x));
                let i = rest.index_of(x);
                assert(s[if i < at {
                    i
                } else {
                    i + 1
                }] == x);
            }
            if s.contains(x) && x != id {
                let i = s.index_of(x);
                assert(rest[if i < at {
                    i
                } else {
                    i - 1
                }] == x);
                assert(rest.to_set().contains(x));
            }
        }
        assert(s.to_set() =~= ids);
        in_order_is(ids, s);
        s
    }
}

/// Dropping members that are greater than more than `limit` others does not
/// change the first `limit` in order.
proof fn first_agree(all: Set<Text>, part: Set<Text>, small: Set<Text>, limit: usize)
    requires
        all.finite(),
        part.subset_of(all),
        small.subset_of(part),
        small.len() > limit,
        forall|x: Text, s: Text|
            all.contains(x) && !part.contains(x) && small.contains(s) ==> text_lt(s, x),
    ensures
        first(in_order(part), limit) == first(in_order(all), limit),
{
    let a = ordered(all);
    let n: int = if a.len() <= limit {
        a.len() as int
    } else {
        limit as int
    };
    assert forall|i: int| 0 <= i < n implies part.contains(#[trigger] a[i]) by {
        assert(a.to_set().contains(a[i]));
        if !part.contains(a[i]) {
            let before = a.take(i);
            assert forall|s: Text| #[trigger] small.contains(s) implies before.to_set().contains(
                s,
            ) by {
                assert(all.contains(s));
                assert(a.to_set().contains(s));
                let k = a.index_of(s);
                assert(text_lt(s, a[i]));
                if k > i {
                    assert(text_lt(a[i], a[k]));
                    text_lt_transitive(s, a[i], s);
                }
                text_lt_irreflexive(s);
                assert(before[k] == s);
            }
            assert forall|x: int, y: int|
                #![trigger before[x], before[y]]
                0 <= x < y < before.len() implies text_lt(before[x], before[y]) by {
                assert(text_lt(a[x], a[y]));
            }
            ascending_distinct(before);
            before.unique_seq_to_set();
            vstd::seq_lib::seq_to_set_is_finite(before);
            lemma_len_subset(small, before.to_set());
        }
    }
    let keep = |x: Text| part.contains(x);
    let b = a.filter(keep);
    filter_prefix(a, n, keep);
    assert forall|i: int| 0 <= i < a.take(n).len() implies keep(#[trigger] a.take(n)[i]) by {
        assert(a.take(n)[i] == a[i]);
    }
    filter_all(a.take(n), keep);
    assert(b.take(n) == a.take(n));
    let same = |x: Text| x;
    assert forall|i: int, j: int| 0 <= i < j < a.len() implies text_lt(
        same(#[trigger] a[i]),
        same(#[trigger] a[j]),
    ) by {
        assert(text_lt(a[i], a[j]));
    }
    filter_ordered(a, same, keep);
    assert forall|i: int, j: int|
        #![trigger b[i], b[j]]
        0 <= i < j < b.len() implies text_lt(b[i], b[j]) by {
        assert(text_lt(same(b[i]), same(b[j])));
    }
    assert forall|x: Text| #[trigger] b.to_set().contains(x) <==> part.contains(x) by {
        if part.contains(x) {
            assert(a.to_set().contains(x));
            let i = a.index_of(x);
            a.lemma_filter_contains(keep, i);
            assert(b.contains(a[i]));
        }
        if b.contains(x) {
            let i = b.index_of(x);
            a.lemma_filter_pred(keep, i);
        }
    }
    assert(b.to_set() =~= part);
    in_order_is(part, b);
    if a.len() <= limit {
        a.lemma_filter_len(keep);
        assert(b =~= b.take(n));
        assert(a =~= a.take(n));
    } else if b.len() <= limit {
        assert(b =~= b.take(n));
    }
}

/// The ids that a request has indexed are finitely many.
proof fn indexed_finite(t: TxnView, prefix: Seq<u8>)
    requires
        t.writes.dom().finite(),
    ensures
        t.indexed(prefix).finite(),
{
    let name = |key: KeyView| entry_of(prefix, key.bytes())->0;
    t.writes.dom().lemma_map_finite(name);
    assert forall|id: Text| #[trigger] t.indexed(prefix).contains(id) implies t.writes.dom().map(
        name,
    ).contains(id) by {
        assert(named_by(t.writes, prefix, id));
        let key = choose|key: KeyView| #[trigger]
            t.writes.contains_key(key) && t.writes[key] is Some && entry_of(prefix, key.bytes())
                == Some(id);
        assert(t.writes.dom().contains(key) && id == name(key));
    }
    lemma_set_subset_finite(t.writes.dom().map(name), t.indexed(prefix));
}

/// Of the ids indexed under the branch, in the store or by the request itself,
/// other than the promise's, the first ones in order are the siblings.
proof fn siblings_are_first(
    w: World,
    t: TxnView,
    promise: PromiseView,
    branch: Text,
    ids: Seq<Text>,
)
    requires
        indexes(w, branch, ids),
        t.writes.dom().finite(),
    ensures
        siblings(w, t, promise, branch) == first(
            in_order(
                ids.to_set().union(t.indexed(branch_prefix_of(branch))).remove(promise.id),
            ),
            t.preload_limit,
        ),
{
    let prefix = branch_prefix_of(branch);
    let own = promise.id;
    let limit = t.preload_limit;
    let n = scan_is(w, branch, ids, own, limit, SCAN_PAGE);
    let small = others(ids, n, own);
    let written = t.indexed(prefix).remove(own);
    let part = small.union(written);
    let all = ids.to_set().union(t.indexed(prefix)).remove(own);
    indexed_finite(t, prefix);
    others_finite(ids, n, own);
    vstd::seq_lib::seq_to_set_is_finite(ids);
    if n == ids.len() {
        assert(ids.take(n) =~= ids);
        assert(part =~= all);
    } else {
        assert forall|x: Text| #[trigger] small.contains(x) implies ids.to_set().contains(x) by {
            let i = ids.take(n).index_of(x);
            assert(ids[i] == x);
        }
        assert(part.subset_of(all));
        assert forall|x: Text, s: Text|
            all.contains(x) && !part.contains(x) && small.contains(s) implies text_lt(s, x) by {
            assert(ids.to_set().contains(x));
            let j = ids.index_of(x);
            let i = ids.take(n).index_of(s);
            assert(ids[i] == s);
            if j < n {
                assert(ids.take(n)[j] == x);
                assert(ids.take(n).to_set().contains(x));
            }
            assert(text_lt(ids[i], ids[j]));
        }
        first_agree(all, part, small, limit);
    }
}

/// The promises that the store's index names in `branch`.
pub open spec fn stored_in(w: World, branch: Text) -> Set<Text> {
    Set::new(|id: Text| w.index.contains((branch, id)))
}

/// Whether no branch with an entry holds a null character.
pub open spec fn regular(w: World, t: TxnView) -> bool {
    &&& forall|branch: Text, id: Text| #[trigger]
        w.index.contains((branch, id)) ==> !branch.contains('\0')
    &&& forall|branch: Text, id: Text| #[trigger]
        entry_written(t, branch, id) is Some ==> !branch.contains('\0')
}

/// A listing of the branch's prefix gives the entries of the promises that the
/// index names in the branch, in id order.
proof fn listing_names_the_branch(w: World, t: TxnView, branch: Text) -> (ids: Seq<Text>)
    requires
        regular(w, t),
        !branch.contains('\0'),
        stored_in(w, branch).finite(),
        stored_in(w, branch).len() <= usize::MAX - SCAN_PAGE,
    ensures
        ids.to_set() == stored_in(w, branch),
        indexes(w, branch, ids),
{
    let prefix = branch_prefix_of(branch);
    let all = w.keys_with(prefix);
    let ids = ordered(stored_in(w, branch));
    let keys = entries(branch, ids);
    assert forall|i: int, j: int|
        #![trigger keys[i], keys[j]]
        0 <= i < j < keys.len() implies bytes_lt(keys[i], keys[j]) by {
        assert(text_lt(ids[i], ids[j]));
        keys_keep_id_order(branch, branch, ids[i], ids[j]);
    }
    assert forall|key: Seq<u8>| #[trigger] keys.to_set().contains(key) <==> all.contains(key) by {
        if keys.contains(key) {
            let i = keys.index_of(key);
            assert(ids.to_set().contains(ids[i]));
            assert(w.index.contains((branch, ids[i])));
            branch_entries_share_the_prefix(branch, ids[i], branch);
            entry_names(branch, ids[i]);
        }
        if all.contains(key) {
            named_in_branch(w, t, branch, key);
            let id = entry_of(prefix, key)->0;
            assert(ids.to_set().contains(id));
            let i = ids.index_of(id);
            assert(keys[i] == key);
        }
    }
    assert(keys.to_set() =~= all);
    let s = in_key_order(all);
    assert(bytes_ascending(keys) && keys.to_set() == all);
    assert(bytes_ascending(s) && s.to_set() == all);
    let names = Seq::new(s.len(), |i: int| entry_of(prefix, s[i])->0);
    assert forall|i: int| 0 <= i < s.len() implies #[trigger] s[i] == branch_key_of(
        branch,
        names[i],
    ) && w.index.contains((branch, names[i])) by {
        assert(s.to_set().contains(s[i]));
        named_in_branch(w, t, branch, s[i]);
    }
    assert forall|i: int, j: int|
        #![trigger names[i], names[j]]
        0 <= i < j < names.len() implies text_lt(names[i], names[j]) by {
        assert(bytes_lt(s[i], s[j]));
        keys_keep_id_order(branch, branch, names[i], names[j]);
    }
    assert forall|id: Text| #[trigger] names.to_set().contains(id) <==> ids.to_set().contains(
        id,
    ) by {
        if names.contains(id) {
            let i = names.index_of(id);
            assert(s[i] == branch_key_of(branch, names[i]));
        }
        if ids.to_set().contains(id) {
            let k = ids.index_of(id);
            assert(keys[k] == branch_key_of(branch, id));
            assert(keys.to_set().contains(keys[k]));
            assert(s.to_set().contains(keys[k]));
            let i = s.index_of(keys[k]);
            entry_names(branch, id);
            assert(names[i] == id);
        }
    }
    assert(names.to_set() =~= ids.to_set());
    ascending_unique(names, ids);
    assert(s =~= keys);
    ids
}

/// A key of the index that starts with the branch's prefix is the entry of a
/// promise in the branch.
proof fn named_in_branch(w: World, t: TxnView, branch: Text, key: Seq<u8>)
    requires
        regular(w, t),
        !branch.contains('\0'),
        w.keys_with(branch_prefix_of(branch)).contains(key),
    ensures
        entry_of(branch_prefix_of(branch), key) is Some,
        ({
            let id = entry_of(branch_prefix_of(branch), key)->0;
            w.index.contains((branch, id)) && key == branch_key_of(branch, id)
        }),
{
    let (other, id) = choose|other: Text, id: Text| #[trigger]
        w.index.contains((other, id)) && key == branch_key_of(other, id);
    branch_entries_share_the_prefix(branch, id, other);
    entry_names(branch, id);
}

/// The ids that a request's writes name in a branch are those of the entries
/// that it wrote.
proof fn writes_name_the_branch(w: World, t: TxnView, branch: Text, id: Text)
    requires
        regular(w, t),
        !branch.contains('\0'),
    ensures
        t.indexed(branch_prefix_of(branch)).contains(id) <==> (entry_written(t, branch, id)
            matches Some(row) && row is Some),
{
    let prefix = branch_prefix_of(branch);
    entry_names(branch, id);
    if entry_written(t, branch, id) matches Some(row) && row is Some {
        let key = KeyView::Branch(branch, id);
        assert(t.writes.contains_key(key) && t.writes[key] is Some && entry_of(prefix, key.bytes())
            == Some(id));
    }
    if named_by(t.writes, prefix, id) {
        let key = choose|key: KeyView| #[trigger]
            t.writes.contains_key(key) && t.writes[key] is Some && entry_of(prefix, key.bytes())
                == Some(id);
        only_entries_in_the_index(branch, key);
        if let KeyView::Branch(other, named) = key {
            assert(entry_written(t, other, named) is Some);
            branch_entries_share_the_prefix(branch, named, other);
        }
    }
}

/// A task is sent with the first siblings of its promise: of all the promises in
/// the branch, other than the promise itself, the first ones in id order, as
/// many as the preload limit allows.
pub proof fn a_task_is_sent_with_its_first_siblings(
    w: World,
    t: TxnView,
    promise: PromiseView,
    branch: Text,
)
    requires
        index_agrees(w, t),
        regular(w, t),
        !branch.contains('\0'),
        t.writes.dom().finite(),
        stored_in(w, branch).finite(),
        stored_in(w, branch).len() <= usize::MAX - SCAN_PAGE,
    ensures
        siblings(w, t, promise, branch) == first(
            in_order(
                Set::new(|id: Text| in_branch(t.promise(w, id), branch)).remove(promise.id),
            ),
            t.preload_limit,
        ),
{
    let ids = listing_names_the_branch(w, t, branch);
    siblings_are_first(w, t, promise, branch, ids);
    let named = ids.to_set().union(t.indexed(branch_prefix_of(branch))).remove(promise.id);
    let all = Set::new(|id: Text| in_branch(t.promise(w, id), branch)).remove(promise.id);
    assert forall|id: Text| #[trigger] named.contains(id) <==> all.contains(id) by {
        writes_name_the_branch(w, t, branch, id);
        assert(ids.to_set().contains(id) <==> w.index.contains((branch, id)));
        assert(has_entry(w, t, branch, id) <==> in_branch(t.promise(w, id), branch));
        assert(entry_written(t, branch, id) != Some(None::<RowView>));
    }
    assert(named =~= all);
}

} // verus!
