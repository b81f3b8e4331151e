//! The branch index and the promises it names.

use vstd::prelude::*;
use crate::calls::World;
use crate::keys::KeyView;
use crate::records::{StoredPromiseView, Text, TAG_BRANCH};
use crate::txn::{RowView, TxnView};

verus! {

/// What a request wrote for the entry of `id` in `branch`, where it wrote it.
pub open spec fn entry_written(t: TxnView, branch: Text, id: Text) -> Option<Option<RowView>> {
    let key = KeyView::Branch(branch, id);
    if t.writes.contains_key(key) {
        Some(t.writes[key])
    } else {
        None
    }
}

/// Whether the index, as a request sees it, has an entry of `id` in `branch`.
pub open spec fn has_entry(w: World, t: TxnView, branch: Text, id: Text) -> bool {
    match entry_written(t, branch, id) {
        Some(row) => row is Some,
        None => w.index.contains((branch, id)),
    }
}

/// Whether a promise, if there is one, is in `branch`.
pub open spec fn in_branch(row: Option<StoredPromiseView>, branch: Text) -> bool {
    row matches Some(row) && row.record.tags.contains_key(TAG_BRANCH@)
        && row.record.tags[TAG_BRANCH@] == branch
}

/// Whether the index, as a request sees it, names the promises of each branch
/// and no others, and the request deletes no entry.
pub open spec fn index_agrees(w: World, t: TxnView) -> bool {
    &&& forall|branch: Text, id: Text| #[trigger]
        has_entry(w, t, branch, id) <==> in_branch(t.promise(w, id), branch)
    &&& forall|branch: Text, id: Text| #[trigger] entry_written(t, branch, id) != Some(None::<RowView>)
}

/// Whether the index agrees with the promises at a later point of a request
/// where it does at an earlier one.
#[verifier::opaque]
pub open spec fn files(w: World, from: TxnView, to: TxnView) -> bool {
    index_agrees(w, from) ==> index_agrees(w, to)
}

/// Two steps after each other file as each does.
pub proof fn steps_file(w: World, a: TxnView, b: TxnView, c: TxnView)
    requires
        files(w, a, b),
        files(w, b, c),
    ensures
        files(w, a, c),
{
    reveal(files);
}

/// Whether a step writes no index entry and leaves every promise in its branch.
pub open spec fn branches_kept(w: World, from: TxnView, to: TxnView) -> bool {
    &&& forall|branch: Text, id: Text| #[trigger]
        entry_written(to, branch, id) == entry_written(from, branch, id)
    &&& forall|branch: Text, id: Text| #[trigger]
        in_branch(to.promise(w, id), branch) == in_branch(from.promise(w, id), branch)
}

/// A step that writes no index entry and leaves every promise in its branch
/// files.
pub proof fn kept_branches_file(w: World, from: TxnView, to: TxnView)
    requires
        branches_kept(w, from, to),
    ensures
        files(w, from, to),
{
    reveal(files);
    if index_agrees(w, from) {
        assert forall|branch: Text, id: Text| #[trigger] has_entry(w, to, branch, id)
            <==> in_branch(to.promise(w, id), branch) by {
            assert(entry_written(to, branch, id) == entry_written(from, branch, id));
            assert(has_entry(w, from, branch, id) <==> in_branch(from.promise(w, id), branch));
        }
        assert forall|branch: Text, id: Text| #[trigger] entry_written(to, branch, id) != Some(
            None::<RowView>,
        ) by {
            assert(entry_written(from, branch, id) != Some(None::<RowView>));
        }
    }
}

} // verus!
