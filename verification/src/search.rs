//! Searches: the filters and the pages of their results.

use vstd::prelude::*;
use crate::calls::view_opt;
use crate::envelope::{viewed, Reply, ReplyView};
use crate::records::{TagMap, Text};
use crate::tags::{keys_of, map_of, Tags};
use crate::text::{copied, is_before, text_eq, text_lt, text_opt};
use crate::txn::first;

verus! {

/// The page size of a search of promises or tasks without a limit.
pub const DEFAULT_SEARCH_LIMIT: usize = 100;

/// The page size of a search of schedules without a limit.
pub const DEFAULT_SCHEDULE_SEARCH_LIMIT: usize = 10;

/// The most items of a page.
pub const MAX_SEARCH_LIMIT: i64 = 1000;

/// The page size of a search, or the refusal of a limit out of range.
pub open spec fn limit_of(limit: Option<i64>, default: usize) -> Result<usize, ReplyView> {
    match limit {
        None => Ok(default),
        Some(limit) => if 1 <= limit <= MAX_SEARCH_LIMIT {
            Ok(limit as usize)
        } else {
            Err(ReplyView::Error(400, "Invalid 'limit': must be between 1 and 1000"@))
        },
    }
}

/// The page size of a search, or a 400 reply.
pub fn search_limit(limit: Option<i64>, default: usize) -> (r: Result<usize, Reply>)
    ensures
        match limit_of(limit, default) {
            Ok(limit) => r == Ok::<usize, Reply>(limit),
            Err(reply) => r matches Err(e) && e@ == reply,
        },
{
    match limit {
        None => Ok(default),
        Some(limit) => {
            if 1 <= limit && limit <= MAX_SEARCH_LIMIT {
                Ok(limit as usize)
            } else {
                Err(Reply::err(400, "Invalid 'limit': must be between 1 and 1000"))
            }
        },
    }
}

/// Whether `tags` holds every tag of `filter`, where there is one.
pub open spec fn has_tags(tags: TagMap, filter: Option<TagMap>) -> bool {
    filter is Some ==> forall|key: Text| #[trigger]
        filter->0.contains_key(key) ==> tags.contains_key(key) && tags[key] == filter->0[key]
}

/// Whether `tags` holds every tag of `filter`, where there is one.
pub fn tags_match(tags: &Tags, filter: &Option<Tags>) -> (r: bool)
    ensures
        r == has_tags(tags@, view_opt(*filter)),
{
    let wanted = match filter {
        Some(wanted) => wanted,
        None => {
            return true;
        },
    };
    let entries = wanted.entries();
    let ghost keys = keys_of(entries@);
    proof {
        crate::tags::ascending_distinct(keys);
    }
    let mut i: usize = 0;
    while i < entries.len()
        invariant
            i <= entries.len(),
            keys == keys_of(entries@),
            keys.no_duplicates(),
            map_of(entries@) == wanted@,
            *filter == Some(*wanted),
            forall|j: int|
                0 <= j < i ==> tags@.contains_key(#[trigger] keys[j]) && tags@[keys[j]]
                    == entries@[j].1@,
        decreases entries.len() - i,
    {
        let same = match tags.get(&entries[i].0) {
            Some(value) => text_eq(value, &entries[i].1),
            None => false,
        };
        if !same {
            proof {
                let key = keys[i as int];
                assert(keys.contains(key));
                assert(keys.index_of(key) == i);
                assert(view_opt(*filter)->0.contains_key(key));
                assert(wanted@[key] == entries@[i as int].1@);
            }
            return false;
        }
        i += 1;
    }
    proof {
        assert forall|key: Text| #[trigger] wanted@.contains_key(key) implies tags@.contains_key(key)
            && tags@[key] == wanted@[key] by {
            let j = keys.index_of(key);
            assert(keys[j] == key);
        }
    }
    true
}

/// Whether an item of `id` is after `cursor`.
pub open spec fn follows(cursor: Option<Text>, id: Text) -> bool {
    cursor is Some ==> text_lt(cursor->0, id)
}

/// The items after `cursor`.
pub open spec fn remaining<T>(items: Seq<T>, id: spec_fn(T) -> Text, cursor: Option<Text>) -> Seq<T> {
    items.filter(|item: T| follows(cursor, id(item)))
}

/// One page of `items`: the items after `cursor`, at most `limit` of them, and
/// the id of the last one when more remain.
pub open spec fn page_of<T>(
    items: Seq<T>,
    id: spec_fn(T) -> Text,
    cursor: Option<Text>,
    limit: usize,
) -> (Seq<T>, Option<Text>) {
    let rest = remaining(items, id, cursor);
    (
        first(rest, limit),
        if rest.len() > limit {
            Some(id(rest[limit - 1]))
        } else {
            None
        },
    )
}

/// Whether `id` is what `id_of` gives for every item.
pub open spec fn gives<T, F: Fn(&T) -> &str>(id_of: F, id: spec_fn(T) -> Text) -> bool {
    forall|item: T, s: &str| #[trigger] call_ensures(id_of, (&item,), s) ==> s@ == id(item)
}

/// The filter of a longer sequence starts with the filter of a shorter one.
pub proof fn filter_prefix<T>(items: Seq<T>, n: int, keep: spec_fn(T) -> bool)
    requires
        0 <= n <= items.len(),
    ensures
        items.take(n).filter(keep).len() <= items.filter(keep).len(),
        items.filter(keep).take(items.take(n).filter(keep).len() as int) == items.take(n).filter(
            keep,
        ),
{
    assert(items =~= items.take(n) + items.skip(n));
    Seq::filter_distributes_over_add(items.take(n), items.skip(n), keep);
    let a = items.take(n).filter(keep);
    let b = items.skip(n).filter(keep);
    assert((a + b).take(a.len() as int) =~= a);
}

/// Filtering records and then taking their views, or the other way round, is
/// the same.
proof fn filter_viewed<T: View>(
    items: Seq<T>,
    keep: spec_fn(T) -> bool,
    keep_view: spec_fn(T::V) -> bool,
)
    requires
        forall|item: T| #[trigger] keep(item) == keep_view(item@),
    ensures
        viewed(items.filter(keep)) == viewed(items).filter(keep_view),
    decreases items.len(),
{
    reveal(Seq::filter);
    if items.len() > 0 {
        filter_viewed(items.drop_last(), keep, keep_view);
        assert(viewed(items).drop_last() =~= viewed(items.drop_last()));
        assert(viewed(items).last() == items.last()@);
        assert(keep(items.last()) == keep_view(items.last()@));
        if keep(items.last()) {
            assert(viewed(items.filter(keep)) =~= viewed(items.drop_last().filter(keep)).push(
                items.last()@,
            ));
        }
    } else {
        assert(viewed(items) =~= Seq::empty());
        assert(viewed(items.filter(keep)) =~= Seq::empty());
    }
}

/// A page of records, viewed, is the page of their views.
pub proof fn page_viewed<T: View>(
    items: Seq<T>,
    id: spec_fn(T) -> Text,
    id_view: spec_fn(T::V) -> Text,
    cursor: Option<Text>,
    limit: usize,
)
    requires
        forall|item: T| #[trigger] id(item) == id_view(item@),
        limit > 0,
    ensures
        page_of(viewed(items), id_view, cursor, limit) == (
            viewed(page_of(items, id, cursor, limit).0),
            page_of(items, id, cursor, limit).1,
        ),
{
    let keep = |item: T| follows(cursor, id(item));
    let keep_view = |item: T::V| follows(cursor, id_view(item));
    assert forall|item: T| #[trigger] keep(item) == keep_view(item@) by {
        assert(id(item) == id_view(item@));
    }
    filter_viewed(items, keep, keep_view);
    let rest = items.filter(keep);
    assert(viewed(first(rest, limit)) =~= first(viewed(rest), limit));
    if rest.len() > limit {
        assert(id(rest[limit - 1]) == id_view(rest[limit - 1]@));
    }
}

/// The items in the opposite order.
fn reversed<T>(items: Vec<T>) -> (r: Vec<T>)
    ensures
        r@ == items@.reverse(),
{
    let ghost all = items@;
    let mut items = items;
    let mut r: Vec<T> = Vec::new();
    while items.len() > 0
        invariant
            items.len() + r.len() == all.len(),
            items@ == all.take(items.len() as int),
            forall|i: int| 0 <= i < r.len() ==> r@[i] == all[all.len() - 1 - i],
        decreases items.len(),
    {
        let ghost before = items@;
        if let Some(item) = items.pop() {
            r.push(item);
            assert(items@ =~= all.take(items.len() as int));
        }
    }
    assert(r@ =~= all.reverse());
    r
}

/// One page of `items`, which are in id order: the items after `cursor`, at
/// most `limit` of them, and the cursor of the next page when more remain.
pub fn page<T, F: Fn(&T) -> &str>(
    items: Vec<T>,
    id_of: F,
    cursor: Option<&str>,
    limit: usize,
) -> (r: (Vec<T>, Option<String>))
    requires
        limit < usize::MAX,
        forall|item: T| #[trigger] call_requires(id_of, (&item,)),
        limit > 0 || forall|i: int, s: &str|
            0 <= i < items@.len() && #[trigger] call_ensures(id_of, (&items@[i],), s)
                ==> !follows(view_opt(cursor), s@),
    ensures
        forall|id: spec_fn(T) -> Text| #[trigger]
            gives(id_of, id) ==> (r.0@, text_opt(r.1)) == page_of(
                items@,
                id,
                view_opt(cursor),
                limit,
            ),
{
    let ghost all = items@;
    let ghost from = view_opt(cursor);
    let mut rest = reversed(items);
    let mut page: Vec<T> = Vec::new();
    let mut last: Option<String> = None;
    let ghost mut n: int = 0;
    assert(all.take(0) =~= Seq::<T>::empty());
    proof {
        assert forall|id: spec_fn(T) -> Text| #[trigger] gives(id_of, id) implies page@ == remaining(
            all.take(0),
            id,
            from,
        ) by {
            reveal(Seq::filter);
        }
    }
    while rest.len() > 0
        invariant
            all == items@,
            0 <= n <= all.len(),
            rest.len() == all.len() - n,
            forall|i: int| 0 <= i < rest.len() ==> rest@[i] == all[all.len() - 1 - i],
            limit < usize::MAX,
            page.len() <= limit,
            from == view_opt(cursor),
            forall|item: T| #[trigger] call_requires(id_of, (&item,)),
            limit > 0 || forall|i: int, s: &str|
                0 <= i < all.len() && #[trigger] call_ensures(id_of, (&all[i],), s) ==> !follows(
                    from,
                    s@,
                ),
            forall|id: spec_fn(T) -> Text| #[trigger]
                gives(id_of, id) ==> page@ == remaining(all.take(n), id, from),
            page.len() > 0 ==> last is Some && forall|id: spec_fn(T) -> Text| #[trigger]
                gives(id_of, id) ==> last->0@ == id(page@[page.len() - 1]),
        decreases rest.len(),
    {
        let ghost before = page@;
        let item = match rest.pop() {
            Some(item) => item,
            None => {
                return (page, None);
            },
        };
        assert(item == all[n]);
        let ghost next = all.take(n + 1);
        assert(next.drop_last() =~= all.take(n));
        assert(next.last() == item);
        let id = id_of(&item);
        let after = match cursor {
            Some(cursor) => is_before(cursor, id),
            None => true,
        };
        assert(after == follows(from, id@));
        let name = copied(id);
        proof {
            assert forall|id: spec_fn(T) -> Text| #[trigger] gives(id_of, id) implies remaining(
                next,
                id,
                from,
            ) == (if after {
                before.push(item)
            } else {
                before
            }) by {
                reveal(Seq::filter);
                assert(name@ == id(item));
            }
        }
        if after {
            if page.len() == limit {
                proof {
                    assert forall|id: spec_fn(T) -> Text| #[trigger] gives(id_of, id) implies (
                    page@, text_opt(last)) == page_of(all, id, from, limit) by {
                        let keep = |item: T| follows(from, id(item));
                        filter_prefix(all, n + 1, keep);
                        let whole = all.filter(keep);
                        assert(whole.take(limit + 1) == before.push(item));
                        assert(whole.take(limit as int) =~= whole.take(limit + 1).take(
                            limit as int,
                        ));
                        assert(before.push(item).take(limit as int) =~= before);
                        assert(whole[limit - 1] == whole.take(limit as int)[limit - 1]);
                    }
                }
                return (page, last);
            }
            page.push(item);
            last = Some(name);
        }
        proof {
            n = n + 1;
        }
    }
    assert(all.take(n) =~= all);
    (page, None)
}

} // verus!
