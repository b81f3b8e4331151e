//! Keys of the protocol's records within the queue's user namespace and the
//! name of the queue the crate owns.
//!
//! Every key starts with `resonate/`, so the namespace can be shared with an
//! application's own entries. Promise and task keys end with the full promise
//! id, so a prefix scan lists promises in id order, which is the order the
//! search operations page by. The branch index maps a `resonate:branch` tag
//! value to the ids of the promises with that tag, separated by a null byte,
//! which the protocol forbids inside an id.

use vstd::prelude::*;
use vstd::slice::*;
use vstd::string::*;
use vstd::utf8::*;
use crate::records::Text;
use crate::text::{copied, text_eq, utf8_text};

verus! {

/// Prefix of every promise record.
pub const PROMISE_PREFIX: &'static str = "resonate/p/";

/// Prefix of every task record.
pub const TASK_PREFIX: &'static str = "resonate/t/";

/// Prefix of every schedule record.
pub const SCHEDULE_PREFIX: &'static str = "resonate/s/";

/// Prefix of the branch index.
pub const BRANCH_PREFIX: &'static str = "resonate/b/";

/// The queue of the crate's timer jobs.
pub const TIMER_QUEUE: &'static str = "resonate/timers";

/// The bytes of `prefix` followed by the bytes of `id`.
pub open spec fn key_of(prefix: Text, id: Text) -> Seq<u8> {
    encode_utf8(prefix) + encode_utf8(id)
}

/// The prefix of the index entries of `branch`.
pub open spec fn branch_prefix_of(branch: Text) -> Seq<u8> {
    key_of(BRANCH_PREFIX@, branch).push(0u8)
}

/// The index entry of `id` within `branch`.
pub open spec fn branch_key_of(branch: Text, id: Text) -> Seq<u8> {
    branch_prefix_of(branch) + encode_utf8(id)
}

/// The id that an index key names after `prefix`.
pub open spec fn entry_of(prefix: Seq<u8>, key: Seq<u8>) -> Option<Text> {
    let rest = key.skip(prefix.len() as int);
    if prefix.is_prefix_of(key) && valid_utf8(rest) {
        Some(decode_utf8(rest))
    } else {
        None
    }
}

/// The key of a promise record.
pub fn promise_key(id: &str) -> (r: Vec<u8>)
    ensures
        r@ == key_of(PROMISE_PREFIX@, id@),
{
    join(PROMISE_PREFIX.as_bytes(), id.as_bytes())
}

/// The key of a task record.
pub fn task_key(id: &str) -> (r: Vec<u8>)
    ensures
        r@ == key_of(TASK_PREFIX@, id@),
{
    join(TASK_PREFIX.as_bytes(), id.as_bytes())
}

/// The key of a schedule record.
pub fn schedule_key(id: &str) -> (r: Vec<u8>)
    ensures
        r@ == key_of(SCHEDULE_PREFIX@, id@),
{
    join(SCHEDULE_PREFIX.as_bytes(), id.as_bytes())
}

/// The index entry of promise `id` within branch `branch`.
pub fn branch_key(branch: &str, id: &str) -> (r: Vec<u8>)
    ensures
        r@ == branch_key_of(branch@, id@),
{
    let key = branch_prefix(branch);
    join(key.as_slice(), id.as_bytes())
}

/// The prefix of every index entry within branch `branch`.
pub fn branch_prefix(branch: &str) -> (r: Vec<u8>)
    ensures
        r@ == branch_prefix_of(branch@),
{
    let mut key = join(BRANCH_PREFIX.as_bytes(), branch.as_bytes());
    key.push(0u8);
    key
}

/// Whether `key` starts with `prefix`.
fn has_prefix(key: &[u8], prefix: &[u8]) -> (r: bool)
    ensures
        r == prefix@.is_prefix_of(key@),
{
    if key.len() < prefix.len() {
        return false;
    }
    let mut i: usize = 0;
    while i < prefix.len()
        invariant
            i <= prefix.len(),
            prefix.len() <= key.len(),
            forall|j: int| 0 <= j < i ==> prefix@[j] == key@[j],
        decreases prefix.len() - i,
    {
        if key[i] != prefix[i] {
            assert(key@.subrange(0, prefix@.len() as int)[i as int] != prefix@[i as int]);
            return false;
        }
        i += 1;
    }
    assert(prefix@ =~= key@.subrange(0, prefix@.len() as int));
    true
}

/// The promise id of a branch index key with prefix `prefix`.
pub fn branch_entry_id<'a>(prefix: &[u8], key: &'a [u8]) -> (r: Option<&'a str>)
    ensures
        r is Some <==> entry_of(prefix@, key@) is Some,
        r matches Some(id) ==> entry_of(prefix@, key@) == Some(id@),
{
    if !has_prefix(key, prefix) {
        return None;
    }
    let rest = slice_subrange(key, prefix.len(), key.len());
    assert(rest@ =~= key@.skip(prefix@.len() as int));
    let r = utf8_text(rest);
    proof {
        if let Some(id) = r {
            encode_utf8_decode_utf8(id@);
        }
    }
    r
}

/// The bytes of `prefix` followed by those of `id`.
pub fn join(prefix: &[u8], id: &[u8]) -> (r: Vec<u8>)
    ensures
        r@ == prefix@ + id@,
{
    let mut key: Vec<u8> = Vec::new();
    key.extend_from_slice(prefix);
    key.extend_from_slice(id);
    assert(key@ =~= prefix@ + id@);
    key
}

/// The place of one record.
#[derive(Debug, PartialEq, Eq)]
pub enum Key {
    /// A promise, by its id.
    Promise(String),
    /// A task, by its id.
    Task(String),
    /// A schedule, by its id.
    Schedule(String),
    /// An entry of the branch index: the branch and the promise's id.
    Branch(String, String),
}

/// A key in contracts.
pub enum KeyView {
    Promise(Text),
    Task(Text),
    Schedule(Text),
    Branch(Text, Text),
}

impl KeyView {
    /// The bytes of the key.
    pub open spec fn bytes(self) -> Seq<u8> {
        match self {
            KeyView::Promise(id) => key_of(PROMISE_PREFIX@, id),
            KeyView::Task(id) => key_of(TASK_PREFIX@, id),
            KeyView::Schedule(id) => key_of(SCHEDULE_PREFIX@, id),
            KeyView::Branch(branch, id) => branch_key_of(branch, id),
        }
    }

    /// Whether the key is no index entry of a branch with a null character.
    pub open spec fn is_regular(self) -> bool {
        self matches KeyView::Branch(branch, id) ==> !branch.contains('\0')
    }
}

impl View for Key {
    type V = KeyView;

    open spec fn view(&self) -> KeyView {
        match self {
            Key::Promise(id) => KeyView::Promise(id@),
            Key::Task(id) => KeyView::Task(id@),
            Key::Schedule(id) => KeyView::Schedule(id@),
            Key::Branch(branch, id) => KeyView::Branch(branch@, id@),
        }
    }
}

impl Clone for Key {
    fn clone(&self) -> (r: Self)
        ensures
            r@ == self@,
    {
        match self {
            Key::Promise(id) => Key::Promise(copied(id)),
            Key::Task(id) => Key::Task(copied(id)),
            Key::Schedule(id) => Key::Schedule(copied(id)),
            Key::Branch(branch, id) => Key::Branch(copied(branch), copied(id)),
        }
    }
}

impl Key {
    /// The bytes of the key.
    pub fn bytes(&self) -> (r: Vec<u8>)
        ensures
            r@ == self@.bytes(),
    {
        match self {
            Key::Promise(id) => promise_key(id),
            Key::Task(id) => task_key(id),
            Key::Schedule(id) => schedule_key(id),
            Key::Branch(branch, id) => branch_key(branch, id),
        }
    }

    /// Whether two keys name the same place.
    pub fn same(&self, other: &Key) -> (r: bool)
        ensures
            r == (self@ == other@),
    {
        match (self, other) {
            (Key::Promise(a), Key::Promise(b)) => text_eq(a, b),
            (Key::Task(a), Key::Task(b)) => text_eq(a, b),
            (Key::Schedule(a), Key::Schedule(b)) => text_eq(a, b),
            (Key::Branch(a, x), Key::Branch(b, y)) => text_eq(a, b) && text_eq(x, y),
            _ => false,
        }
    }
}

/// Different texts have different bytes.
pub proof fn utf8_injective(a: Text, b: Text)
    requires
        encode_utf8(a) == encode_utf8(b),
    ensures
        a == b,
{
    encode_utf8_decode_utf8(a);
    encode_utf8_decode_utf8(b);
}

/// The encoding of a character holds a null byte only if the character is
/// the null character.
proof fn scalar_has_no_null(c: u32)
    requires
        is_scalar(c),
        c != 0,
    ensures
        !encode_scalar(c).contains(0u8),
{
    assert(has_width_1_encoding(c) && c != 0 ==> leading_byte_width_1(c) != 0) by (bit_vector);
    assert(has_width_2_encoding(c) ==> leading_byte_width_2(c) != 0) by (bit_vector);
    assert(has_width_3_encoding(c) ==> leading_byte_width_3(c) != 0) by (bit_vector);
    assert(has_width_4_encoding(c) ==> leading_byte_width_4(c) != 0) by (bit_vector);
    assert(last_continuation_byte(c) != 0) by (bit_vector);
    assert(second_last_continuation_byte(c) != 0) by (bit_vector);
    assert(third_last_continuation_byte(c) != 0) by (bit_vector);
}

/// A character and its code point are the same number.
pub proof fn char_code(c: char)
    ensures
        c as u32 == c as int,
{
}

/// Text without null characters has no null bytes.
pub proof fn text_has_no_null(s: Text)
    requires
        !s.contains('\0'),
    ensures
        !encode_utf8(s).contains(0u8),
    decreases s.len(),
{
    if s.len() > 0 {
        let rest = s.drop_first();
        assert forall|i: int| 0 <= i < rest.len() implies rest[i] != '\0' by {
            assert(rest[i] == s[i + 1]);
        }
        text_has_no_null(rest);
        char_is_scalar(s[0]);
        assert(s[0] != '\0');
        char_code(s[0]);
        scalar_has_no_null(s[0] as u32);
        let head = encode_scalar(s[0] as u32);
        let tail = encode_utf8(rest);
        assert forall|i: int| 0 <= i < encode_utf8(s).len() implies encode_utf8(s)[i] != 0u8 by {
            if i < head.len() {
                assert(head.contains(head[i]));
            } else {
                assert(tail.contains(tail[i - head.len()]));
            }
        }
    }
}

/// A prefix of ASCII text is encoded one byte per character.
proof fn prefix_bytes()
    ensures
        encode_utf8(PROMISE_PREFIX@).len() == 11,
        encode_utf8(TASK_PREFIX@).len() == 11,
        encode_utf8(SCHEDULE_PREFIX@).len() == 11,
        encode_utf8(BRANCH_PREFIX@).len() == 11,
        encode_utf8(PROMISE_PREFIX@)[9] == 'p' as u8,
        encode_utf8(TASK_PREFIX@)[9] == 't' as u8,
        encode_utf8(SCHEDULE_PREFIX@)[9] == 's' as u8,
        encode_utf8(BRANCH_PREFIX@)[9] == 'b' as u8,
{
    reveal_strlit("resonate/p/");
    reveal_strlit("resonate/t/");
    reveal_strlit("resonate/s/");
    reveal_strlit("resonate/b/");
    is_ascii_chars_encode_utf8(PROMISE_PREFIX@);
    is_ascii_chars_encode_utf8(TASK_PREFIX@);
    is_ascii_chars_encode_utf8(SCHEDULE_PREFIX@);
    is_ascii_chars_encode_utf8(BRANCH_PREFIX@);
}

/// Every key starts with `resonate/`, so the namespace can be shared with an
/// application's own entries.
pub proof fn every_key_starts_with_the_namespace(key: KeyView)
    ensures
        encode_utf8("resonate/"@).is_prefix_of(key.bytes()),
{
    let name = encode_utf8("resonate/"@);
    let bytes = key.bytes();
    prefix_bytes();
    reveal_strlit("resonate/");
    reveal_strlit("resonate/p/");
    reveal_strlit("resonate/t/");
    reveal_strlit("resonate/s/");
    reveal_strlit("resonate/b/");
    is_ascii_chars_encode_utf8("resonate/"@);
    is_ascii_chars_encode_utf8(PROMISE_PREFIX@);
    is_ascii_chars_encode_utf8(TASK_PREFIX@);
    is_ascii_chars_encode_utf8(SCHEDULE_PREFIX@);
    is_ascii_chars_encode_utf8(BRANCH_PREFIX@);
    assert(name =~= bytes.subrange(0, name.len() as int));
}

/// The part of a key after a prefix of `n` bytes.
proof fn tail_of(prefix: Seq<u8>, tail: Seq<u8>, n: int)
    requires
        prefix.len() == n,
    ensures
        (prefix + tail).skip(n) == tail,
{
    assert((prefix + tail).skip(n) =~= tail);
}

/// Two index entries with the same bytes are the same entry, where neither
/// branch holds a null character.
pub proof fn branch_keys_injective(branch_a: Text, a: Text, branch_b: Text, b: Text)
    requires
        !branch_a.contains('\0'),
        !branch_b.contains('\0'),
        branch_key_of(branch_a, a) == branch_key_of(branch_b, b),
    ensures
        branch_a == branch_b,
        a == b,
{
    prefix_bytes();
    text_has_no_null(branch_a);
    text_has_no_null(branch_b);
    let p = encode_utf8(BRANCH_PREFIX@);
    let x = encode_utf8(branch_a);
    let y = encode_utf8(branch_b);
    let ka = branch_key_of(branch_a, a);
    let kb = branch_key_of(branch_b, b);
    assert(ka[11 + x.len() as int] == 0u8);
    assert(kb[11 + y.len() as int] == 0u8);
    if x.len() < y.len() {
        assert(kb[11 + x.len() as int] == y[x.len() as int]);
        assert(y.contains(y[x.len() as int]));
    } else if y.len() < x.len() {
        assert(ka[11 + y.len() as int] == x[y.len() as int]);
        assert(x.contains(x[y.len() as int]));
    }
    assert forall|i: int| 0 <= i < x.len() implies x[i] == y[i] by {
        assert(ka[11 + i] == x[i]);
        assert(kb[11 + i] == y[i]);
    }
    assert(x =~= y);
    utf8_injective(branch_a, branch_b);
    tail_of(branch_prefix_of(branch_a), encode_utf8(a), 12 + x.len() as int);
    tail_of(branch_prefix_of(branch_b), encode_utf8(b), 12 + x.len() as int);
    utf8_injective(a, b);
}

/// The tenth byte of a key tells the kind of its record.
proof fn kind_letter(key: KeyView)
    ensures
        key.bytes()[9] == (match key {
            KeyView::Promise(_) => 112u8,
            KeyView::Task(_) => 116u8,
            KeyView::Schedule(_) => 115u8,
            KeyView::Branch(_, _) => 98u8,
        }),
{
    prefix_bytes();
}

/// Only index entries start with the prefix of a branch.
pub proof fn only_entries_in_the_index(branch: Text, key: KeyView)
    ensures
        branch_prefix_of(branch).is_prefix_of(key.bytes()) ==> key is Branch,
{
    let prefix = branch_prefix_of(branch);
    prefix_bytes();
    kind_letter(key);
    if prefix.is_prefix_of(key.bytes()) {
        assert(prefix[9] == key.bytes()[9]);
        assert(prefix[9] == encode_utf8(BRANCH_PREFIX@)[9]);
    }
}

/// Different records have different keys: two keys with the same bytes are
/// the same key, where no branch holds a null character.
pub proof fn keys_injective(a: KeyView, b: KeyView)
    requires
        a.is_regular(),
        b.is_regular(),
        a.bytes() == b.bytes(),
    ensures
        a == b,
{
    prefix_bytes();
    kind_letter(a);
    kind_letter(b);
    match (a, b) {
        (KeyView::Promise(x), KeyView::Promise(y)) => {
            tail_of(encode_utf8(PROMISE_PREFIX@), encode_utf8(x), 11);
            tail_of(encode_utf8(PROMISE_PREFIX@), encode_utf8(y), 11);
            utf8_injective(x, y);
        },
        (KeyView::Task(x), KeyView::Task(y)) => {
            tail_of(encode_utf8(TASK_PREFIX@), encode_utf8(x), 11);
            tail_of(encode_utf8(TASK_PREFIX@), encode_utf8(y), 11);
            utf8_injective(x, y);
        },
        (KeyView::Schedule(x), KeyView::Schedule(y)) => {
            tail_of(encode_utf8(SCHEDULE_PREFIX@), encode_utf8(x), 11);
            tail_of(encode_utf8(SCHEDULE_PREFIX@), encode_utf8(y), 11);
            utf8_injective(x, y);
        },
        (KeyView::Branch(c, x), KeyView::Branch(d, y)) => {
            branch_keys_injective(c, x, d, y);
        },
        _ => {},
    }
}

/// Every index entry of a branch starts with the branch's prefix and names
/// its promise after it, and no entry of another branch does, where neither
/// branch holds a null character.
pub proof fn branch_entries_share_the_prefix(branch: Text, id: Text, other: Text)
    requires
        !branch.contains('\0'),
        !other.contains('\0'),
    ensures
        entry_of(branch_prefix_of(branch), branch_key_of(branch, id)) == Some(id),
        other != branch ==> !branch_prefix_of(branch).is_prefix_of(branch_key_of(other, id)),
{
    let prefix = branch_prefix_of(branch);
    let key = branch_key_of(branch, id);
    tail_of(prefix, encode_utf8(id), prefix.len() as int);
    assert(prefix =~= key.subrange(0, prefix.len() as int));
    encode_utf8_valid_utf8(id);
    encode_utf8_decode_utf8(id);
    let strange = branch_key_of(other, id);
    if other != branch && prefix.is_prefix_of(strange) {
        prefix_bytes();
        text_has_no_null(branch);
        text_has_no_null(other);
        let x = encode_utf8(branch);
        let y = encode_utf8(other);
        assert(forall|i: int| 0 <= i < prefix.len() ==> prefix[i] == strange[i]);
        assert(strange[11 + y.len() as int] == 0u8);
        assert(prefix[11 + x.len() as int] == 0u8);
        if x.len() < y.len() {
            assert(strange[11 + x.len() as int] == y[x.len() as int]);
            assert(y.contains(y[x.len() as int]));
        } else if y.len() < x.len() {
            assert(prefix[11 + y.len() as int] == x[y.len() as int]);
            assert(x.contains(x[y.len() as int]));
        }
        assert forall|i: int| 0 <= i < x.len() implies x[i] == y[i] by {
            assert(prefix[11 + i] == x[i]);
            assert(strange[11 + i] == y[i]);
        }
        assert(x =~= y);
        utf8_injective(branch, other);
    }
}

} // verus!
