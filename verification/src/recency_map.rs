use vstd::prelude::*;

use hashlink::LinkedHashMap;
use std::collections::hash_map::RandomState;

verus! {

#[verifier::external_type_specification]
#[verifier::external_body]
#[verifier::reject_recursive_types(K)]
#[verifier::reject_recursive_types(V)]
#[verifier::reject_recursive_types(S)]
pub struct ExLinkedHashMap<K, V, S>(LinkedHashMap<K, V, S>);

/// What a recency-ordered map holds, oldest touch first: each item pairs a key
/// with its stored `(available, refill_at_ms)` bucket state.
pub uninterp spec fn entries(m: LinkedHashMap<u64, (u64, u64), RandomState>) -> Seq<
    (u64, (u64, u64)),
>;

/// The first position holding `key`, or -1 where no entry does.
pub open spec fn find_key(s: Seq<(u64, (u64, u64))>, key: u64) -> int
    decreases s.len(),
{
    if s.len() == 0 {
        -1
    } else if s[0].0 == key {
        0
    } else {
        let r = find_key(s.drop_first(), key);
        if r == -1 {
            -1
        } else {
            1 + r
        }
    }
}

/// No two entries share a key.
pub open spec fn distinct_keys(s: Seq<(u64, (u64, u64))>) -> bool {
    forall|i: int, j: int| 0 <= i < j < s.len() ==> s[i].0 != s[j].0
}

/// A key is missed exactly when no entry holds it.
pub proof fn lemma_find_key_absent(s: Seq<(u64, (u64, u64))>, key: u64)
    ensures
        (find_key(s, key) == -1) <==> (forall|j: int| 0 <= j < s.len() ==> s[j].0 != key),
    decreases s.len(),
{
    if s.len() == 0 {
    } else if s[0].0 == key {
        assert(!(forall|j: int| 0 <= j < s.len() ==> s[j].0 != key)) by {
            assert(0 <= 0 < s.len() && s[0].0 == key);
        }
    } else {
        let d = s.drop_first();
        lemma_find_key_absent(d, key);
        assert(forall|j: int| 0 <= j < d.len() ==> d[j] == s[j + 1]);
        if find_key(s, key) == -1 {
            if find_key(d, key) != -1 {
                lemma_find_key_found(d, key);
                assert(false);
            }
            assert forall|j: int| 0 <= j < s.len() implies s[j].0 != key by {
                if j > 0 {
                    assert(0 <= j - 1 < d.len());
                    assert(d[j - 1].0 != key);
                    assert(d[j - 1] == s[j]);
                }
            }
        } else {
            assert(find_key(d, key) != -1);
            let w = choose|j: int| 0 <= j < d.len() && d[j].0 == key;
            assert(!(forall|j: int| 0 <= j < s.len() ==> s[j].0 != key)) by {
                assert(0 <= w + 1 < s.len() && s[w + 1].0 == key);
            }
        }
    }
}

/// A found key stands at the returned position.
pub proof fn lemma_find_key_found(s: Seq<(u64, (u64, u64))>, key: u64)
    requires
        find_key(s, key) != -1,
    ensures
        0 <= find_key(s, key) < s.len(),
        s[find_key(s, key)].0 == key,
    decreases s.len(),
{
    if s.len() > 0 && s[0].0 != key {
        lemma_find_key_found(s.drop_first(), key);
        assert(s.drop_first()[find_key(s.drop_first(), key)] == s[find_key(s, key)]);
    }
}

/// Taking one entry out keeps the remaining keys distinct.
pub proof fn lemma_distinct_remove(s: Seq<(u64, (u64, u64))>, i: int)
    requires
        distinct_keys(s),
        0 <= i < s.len(),
    ensures
        distinct_keys(s.remove(i)),
{
    let t = s.remove(i);
    assert forall|a: int, b: int| 0 <= a < b < t.len() implies t[a].0 != t[b].0 by {
        if a < i {
            assert(t[a] == s[a]);
        } else {
            assert(t[a] == s[a + 1]);
        }
        if b < i {
            assert(t[b] == s[b]);
        } else {
            assert(t[b] == s[b + 1]);
        }
    }
}

/// Appending an entry under a key that no entry holds keeps the keys distinct.
pub proof fn lemma_distinct_push(s: Seq<(u64, (u64, u64))>, key: u64, v: (u64, u64))
    requires
        distinct_keys(s),
        forall|j: int| 0 <= j < s.len() ==> s[j].0 != key,
    ensures
        distinct_keys(s.push((key, v))),
{
    let t = s.push((key, v));
    assert forall|a: int, b: int| 0 <= a < b < t.len() implies t[a].0 != t[b].0 by {
        assert(t[a] == s[a]);
        if b < s.len() {
            assert(t[b] == s[b]);
        }
    }
}

/// Relies on hashlink::LinkedHashMap::with_hasher: a newly built map is
/// empty. Seeded with std's RandomState.
#[verifier::external_body]
pub(crate) fn map_new() -> (m: LinkedHashMap<u64, (u64, u64), RandomState>)
    ensures
        entries(m) == Seq::<(u64, (u64, u64))>::empty(),
{
    LinkedHashMap::with_hasher(RandomState::new())
}

/// Relies on hashlink::LinkedHashMap::len: the number of entries in the map.
#[verifier::external_body]
pub(crate) fn map_len(m: &LinkedHashMap<u64, (u64, u64), RandomState>) -> (n: usize)
    ensures
        n == entries(*m).len(),
{
    m.len()
}

/// Relies on hashlink::LinkedHashMap::is_empty: whether the map has no entry.
#[verifier::external_body]
pub(crate) fn map_is_empty(m: &LinkedHashMap<u64, (u64, u64), RandomState>) -> (r: bool)
    ensures
        r == (entries(*m).len() == 0),
{
    m.is_empty()
}

/// Relies on hashlink::LinkedHashMap::remove: detaches the key's entry, if
/// any, keeping the order of the remaining entries.
#[verifier::external_body]
pub(crate) fn map_remove(m: &mut LinkedHashMap<u64, (u64, u64), RandomState>, key: u64) -> (r:
    Option<(u64, u64)>)
    ensures
        ({
            let pre = entries(*old(m));
            let i = find_key(pre, key);
            if i == -1 {
                r == None::<(u64, u64)> && entries(*final(m)) == pre
            } else {
                r == Some(pre[i].1) && entries(*final(m)) == pre.remove(i)
            }
        }),
{
    m.remove(&key)
}

/// Relies on hashlink::LinkedHashMap::insert: a key not yet in the map gets
/// its entry appended at the most-recent end.
#[verifier::external_body]
pub(crate) fn map_insert_new(
    m: &mut LinkedHashMap<u64, (u64, u64), RandomState>,
    key: u64,
    v: (u64, u64),
)
    requires
        find_key(entries(*old(m)), key) == -1,
    ensures
        entries(*final(m)) == entries(*old(m)).push((key, v)),
{
    m.insert(key, v);
}

/// Relies on hashlink::LinkedHashMap::front: the oldest entry, if any.
#[verifier::external_body]
pub(crate) fn map_front(m: &LinkedHashMap<u64, (u64, u64), RandomState>) -> (r: Option<
    (u64, (u64, u64)),
>)
    ensures
        match r {
            None => entries(*m).len() == 0,
            Some(kv) => entries(*m).len() > 0 && kv == entries(*m)[0],
        },
{
    m.front().map(|(k, v)| (*k, *v))
}

/// Relies on hashlink::LinkedHashMap::pop_front: removes the oldest entry.
#[verifier::external_body]
pub(crate) fn map_pop_front(m: &mut LinkedHashMap<u64, (u64, u64), RandomState>) -> (r: Option<
    (u64, (u64, u64)),
>)
    ensures
        ({
            let pre = entries(*old(m));
            if pre.len() == 0 {
                r == None::<(u64, (u64, u64))> && entries(*final(m)) == pre
            } else {
                r == Some(pre[0]) && entries(*final(m)) == pre.drop_first()
            }
        }),
{
    m.pop_front()
}

} // verus!
