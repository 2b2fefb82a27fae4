//! Breakpoint lists: values keyed by beat position, in strictly increasing
//! beat order, so that each beat has at most one value.
use crate::schema::BeatPosition;
use vstd::prelude::*;

verus! {

/// Every key is well-formed and the keys strictly increase.
pub open spec fn keys_increasing<V>(s: Seq<(BeatPosition, V)>) -> bool {
    &&& forall|i: int| 0 <= i < s.len() ==> (#[trigger] s[i]).0.wf()
    &&& forall|i: int, j: int| 0 <= i < j < s.len() ==> #[trigger] s[i].0.value() < #[trigger] s[j].0.value()
}

/// Some entry of `s` has the key `k`.
pub open spec fn has_key<V>(s: Seq<(BeatPosition, V)>, k: real) -> bool {
    exists|i: int| 0 <= i < s.len() && (#[trigger] s[i]).0.value() == k
}

/// Sets the value at `pos`: replaces the entry with that key, or inserts a new
/// entry where the order puts it. Returns the index of the entry.
pub fn insert_at_key<V>(entries: &mut Vec<(BeatPosition, V)>, pos: BeatPosition, v: V) -> (r: usize)
    requires
        keys_increasing(old(entries)@),
        pos.wf(),
    ensures
        keys_increasing(final(entries)@),
        r <= old(entries)@.len(),
        r < final(entries)@.len(),
        final(entries)@[r as int] == (pos, v),
        if has_key(old(entries)@, pos.value()) {
            &&& r < old(entries)@.len()
            &&& old(entries)@[r as int].0.value() == pos.value()
            &&& final(entries)@ == old(entries)@.update(r as int, (pos, v))
        } else {
            final(entries)@ == old(entries)@.insert(r as int, (pos, v))
        },
{
    let ghost s = entries@;
    let n = entries.len();
    let mut i: usize = 0;
    while i < n && entries[i].0.lt(&pos)
        invariant
            entries@ == s,
            s == old(entries)@,
            n == s.len(),
            i <= n,
            keys_increasing(s),
            pos.wf(),
            forall|k: int| 0 <= k < i ==> (#[trigger] s[k]).0.value() < pos.value(),
        decreases n - i,
    {
        i = i + 1;
    }
    if i < n && entries[i].0.le(&pos) {
        entries.set(i, (pos, v));
        assert forall|a: int, b: int| 0 <= a < b < entries@.len() implies #[trigger] entries@[a].0.value() < #[trigger] entries@[b].0.value() by {
            if a == i {
                assert(s[a].0.value() < s[b].0.value());
            } else if b == i {
                assert(s[a].0.value() < s[b].0.value());
            }
        }
        return i;
    }
    proof {
        assert forall|k: int| 0 <= k < s.len() implies (#[trigger] s[k]).0.value() != pos.value() by {
            if k >= i {
                assert(s[i as int].0.value() <= s[k].0.value());
            }
        }
    }
    entries.insert(i, (pos, v));
    assert forall|a: int, b: int| 0 <= a < b < entries@.len() implies #[trigger] entries@[a].0.value() < #[trigger] entries@[b].0.value() by {
        if a < i && b > i {
            assert(s[a].0.value() < pos.value());
            assert(entries@[b] == s[b - 1]);
        } else if a > i {
            assert(entries@[a] == s[a - 1]);
            assert(entries@[b] == s[b - 1]);
        } else if a == i {
            assert(entries@[b] == s[b - 1]);
        }
    }
    i
}

/// The index of the last entry whose key is at or before `pos`: the one in
/// force at `pos`. `None` where every key lies after `pos`.
pub fn last_at_or_before<V>(entries: &Vec<(BeatPosition, V)>, pos: &BeatPosition) -> (r: Option<usize>)
    requires
        keys_increasing(entries@),
        pos.wf(),
    ensures
        r is None <==> (entries@.len() == 0 || entries@[0].0.value() > pos.value()),
        r matches Some(i) ==> i < entries@.len() && entries@[i as int].0.value() <= pos.value()
            && (i + 1 == entries@.len() || entries@[i + 1].0.value() > pos.value()),
{
    let n = entries.len();
    let mut i: usize = 0;
    while i < n && entries[i].0.le(pos)
        invariant
            n == entries@.len(),
            i <= n,
            keys_increasing(entries@),
            pos.wf(),
            forall|k: int| 0 <= k < i ==> (#[trigger] entries@[k]).0.value() <= pos.value(),
        decreases n - i,
    {
        i = i + 1;
    }
    if i == 0 {
        None
    } else {
        Some(i - 1)
    }
}

/// Removes the entry with key `pos`, if there is one, and returns its index.
pub fn remove_key<V>(entries: &mut Vec<(BeatPosition, V)>, pos: BeatPosition) -> (r: Option<usize>)
    requires
        keys_increasing(old(entries)@),
        pos.wf(),
    ensures
        keys_increasing(final(entries)@),
        r is Some <==> has_key(old(entries)@, pos.value()),
        r matches Some(i) ==> i < old(entries)@.len() && old(entries)@[i as int].0.value() == pos.value()
            && final(entries)@ == old(entries)@.remove(i as int),
        r is None ==> final(entries)@ == old(entries)@,
{
    let ghost s = entries@;
    let n = entries.len();
    let mut i: usize = 0;
    while i < n
        invariant
            entries@ == s,
            s == old(entries)@,
            n == s.len(),
            i <= n,
            keys_increasing(s),
            pos.wf(),
            forall|k: int| 0 <= k < i ==> (#[trigger] s[k]).0.value() != pos.value(),
        decreases n - i,
    {
        if entries[i].0.le(&pos) && pos.le(&entries[i].0) {
            assert(s[i as int].0.value() == pos.value());
            assert(has_key(s, pos.value()));
            entries.remove(i);
            assert forall|a: int, b: int| 0 <= a < b < entries@.len() implies #[trigger] entries@[a].0.value() < #[trigger] entries@[b].0.value() by {
                if a >= i {
                    assert(entries@[a] == s[a + 1]);
                }
                if b >= i {
                    assert(entries@[b] == s[b + 1]);
                }
            }
            assert forall|k: int| 0 <= k < entries@.len() implies (#[trigger] entries@[k]).0.wf() by {
                if k >= i {
                    assert(entries@[k] == s[k + 1]);
                }
            }
            return Some(i);
        }
        i = i + 1;
    }
    None
}

} // verus!
