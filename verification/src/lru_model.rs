//! The mathematical model of the LRU cache.
//!
//! The contents of a cache are modelled as a sequence of key/value
//! pairs ordered from most to least recently used.  `put_model` and
//! `get_model` say how one operation transforms that sequence, and the
//! proof functions at the end state the laws of the eviction policy.

use vstd::prelude::*;

verus! {

/// The keys of a recency sequence, most recently used first.
pub open spec fn keys_of<V>(s: Seq<(u64, V)>) -> Seq<u64> {
    s.map_values(|e: (u64, V)| e.0)
}

/// Every key occurs at most once.
pub open spec fn distinct_keys<V>(s: Seq<(u64, V)>) -> bool {
    forall|i: int, j: int| 0 <= i < j < s.len() ==> s[i].0 != s[j].0
}

/// The value stored for `k`, or `None` when `k` is absent.
pub open spec fn lookup<V>(s: Seq<(u64, V)>, k: u64) -> Option<V>
    decreases s.len(),
{
    if s.len() == 0 {
        None
    } else if s[0].0 == k {
        Some(s[0].1)
    } else {
        lookup(s.skip(1), k)
    }
}

/// `s` with the entry for `k` removed; unchanged when `k` is absent.
pub open spec fn remove_key<V>(s: Seq<(u64, V)>, k: u64) -> Seq<(u64, V)>
    decreases s.len(),
{
    if s.len() == 0 {
        s
    } else if s[0].0 == k {
        s.skip(1)
    } else {
        seq![s[0]] + remove_key(s.skip(1), k)
    }
}

/// The contents after `put(k, v)` on a cache of capacity `cap`: an
/// existing entry is updated and promoted; otherwise the new entry is
/// inserted in front, evicting the least recently used entry when the
/// cache is full.
pub open spec fn put_model<V>(s: Seq<(u64, V)>, cap: nat, k: u64, v: V) -> Seq<(u64, V)> {
    if lookup(s, k) is Some {
        seq![(k, v)] + remove_key(s, k)
    } else if s.len() < cap {
        seq![(k, v)] + s
    } else {
        seq![(k, v)] + s.take(s.len() - 1)
    }
}

/// The contents after `get(k)`: a present entry is promoted to the
/// most recently used position; a miss changes nothing.
pub open spec fn get_model<V>(s: Seq<(u64, V)>, k: u64) -> Seq<(u64, V)> {
    match lookup(s, k) {
        Some(v) => seq![(k, v)] + remove_key(s, k),
        None => s,
    }
}

/// The contents after a whole sequence of `put` operations, applied
/// front to back.
pub open spec fn puts_model<V>(s: Seq<(u64, V)>, kvs: Seq<(u64, V)>, cap: nat) -> Seq<(u64, V)>
    decreases kvs.len(),
{
    if kvs.len() == 0 {
        s
    } else {
        puts_model(put_model(s, cap, kvs[0].0, kvs[0].1), kvs.skip(1), cap)
    }
}

pub proof fn lemma_lookup_prepend_hit<V>(x: (u64, V), t: Seq<(u64, V)>)
    ensures
        lookup(seq![x] + t, x.0) == Some(x.1),
{
    assert((seq![x] + t)[0] == x);
}

pub proof fn lemma_lookup_prepend_other<V>(x: (u64, V), t: Seq<(u64, V)>, k: u64)
    requires
        x.0 != k,
    ensures
        lookup(seq![x] + t, k) == lookup(t, k),
{
    assert((seq![x] + t)[0] == x);
    assert((seq![x] + t).skip(1) =~= t);
}

/// A sequence with none of its keys equal to `k` has no entry for `k`.
pub proof fn lemma_lookup_absent<V>(s: Seq<(u64, V)>, k: u64)
    requires
        forall|j: int| 0 <= j < s.len() ==> (#[trigger] s[j]).0 != k,
    ensures
        lookup(s, k) is None,
    decreases s.len(),
{
    if s.len() > 0 {
        assert(forall|j: int| 0 <= j < s.skip(1).len() ==> (#[trigger] s.skip(1)[j]).0 != k);
        lemma_lookup_absent(s.skip(1), k);
    }
}

/// When `k` is present, `lookup` finds some position holding it.
pub proof fn lemma_lookup_finds_position<V>(s: Seq<(u64, V)>, k: u64) -> (j: int)
    requires
        lookup(s, k) is Some,
    ensures
        0 <= j < s.len(),
        s[j].0 == k,
        lookup(s, k) == Some(s[j].1),
    decreases s.len(),
{
    if s[0].0 == k {
        0
    } else {
        let j = lemma_lookup_finds_position(s.skip(1), k) + 1;
        assert(s.skip(1)[j - 1] == s[j]);
        j
    }
}

pub proof fn lemma_distinct_skip<V>(s: Seq<(u64, V)>)
    requires
        distinct_keys(s),
        s.len() > 0,
    ensures
        distinct_keys(s.skip(1)),
{
    assert forall|i: int, j: int| 0 <= i < j < s.skip(1).len() implies s.skip(1)[i].0 != s.skip(
        1,
    )[j].0 by {
        assert(s.skip(1)[i] == s[i + 1]);
        assert(s.skip(1)[j] == s[j + 1]);
    }
}

/// With distinct keys, the entry for the key at position `j` is found
/// exactly there, and removing that key removes exactly position `j`.
pub proof fn lemma_lookup_at_position<V>(s: Seq<(u64, V)>, j: int)
    requires
        distinct_keys(s),
        0 <= j < s.len(),
    ensures
        lookup(s, s[j].0) == Some(s[j].1),
        remove_key(s, s[j].0) == s.remove(j),
    decreases s.len(),
{
    if j == 0 {
        assert(s.skip(1) =~= s.remove(0));
    } else {
        assert(s[0].0 != s[j].0);
        lemma_distinct_skip(s);
        assert(s.skip(1)[j - 1] == s[j]);
        lemma_lookup_at_position(s.skip(1), j - 1);
        assert(seq![s[0]] + s.skip(1).remove(j - 1) =~= s.remove(j));
    }
}

/// Removing one key does not change what any other key maps to.
pub proof fn lemma_lookup_remove_other<V>(s: Seq<(u64, V)>, k: u64, k2: u64)
    requires
        k != k2,
    ensures
        lookup(remove_key(s, k), k2) == lookup(s, k2),
    decreases s.len(),
{
    if s.len() == 0 {
    } else if s[0].0 == k {
        assert(s[0].0 != k2);
    } else {
        lemma_lookup_remove_other(s.skip(1), k, k2);
        if s[0].0 == k2 {
            lemma_lookup_prepend_hit(s[0], remove_key(s.skip(1), k));
        } else {
            lemma_lookup_prepend_other(s[0], remove_key(s.skip(1), k), k2);
        }
    }
}

/// Dropping the last entry does not change what any other key maps to.
pub proof fn lemma_lookup_drop_last<V>(s: Seq<(u64, V)>, k: u64)
    requires
        s.len() > 0,
        s[s.len() - 1].0 != k,
    ensures
        lookup(s.take(s.len() - 1), k) == lookup(s, k),
    decreases s.len(),
{
    let t = s.take(s.len() - 1);
    if s.len() == 1 {
        assert(s[0].0 != k);
        assert(t.len() == 0);
    } else if s[0].0 == k {
        assert(t[0] == s[0]);
    } else {
        assert(t[0] == s[0]);
        lemma_lookup_drop_last(s.skip(1), k);
        assert(s.skip(1).take(s.skip(1).len() - 1) =~= t.skip(1));
    }
}

/// The capacity bound is an invariant of `put` and `get` (the cache
/// never holds more than `cap` entries).
pub proof fn law_capacity_bound<V>(s: Seq<(u64, V)>, cap: nat, k: u64, v: V)
    requires
        distinct_keys(s),
        s.len() <= cap,
        cap > 0,
    ensures
        put_model(s, cap, k, v).len() <= cap,
        get_model(s, k).len() <= cap,
{
    if lookup(s, k) is Some {
        let j = lemma_lookup_finds_position(s, k);
        lemma_lookup_at_position(s, j);
    }
}

/// A key sitting at some position is found by `lookup`.
pub proof fn lemma_position_implies_found<V>(s: Seq<(u64, V)>, j: int)
    requires
        0 <= j < s.len(),
    ensures
        lookup(s, s[j].0) is Some,
    decreases s.len(),
{
    if s[0].0 == s[j].0 {
    } else {
        assert(s.skip(1)[j - 1] == s[j]);
        lemma_position_implies_found(s.skip(1), j - 1);
    }
}

/// Prepending a fresh key to a distinct-key sequence keeps the keys
/// distinct.
pub proof fn lemma_distinct_prepend<V>(x: (u64, V), t: Seq<(u64, V)>)
    requires
        distinct_keys(t),
        forall|l: int| 0 <= l < t.len() ==> (#[trigger] t[l]).0 != x.0,
    ensures
        distinct_keys(seq![x] + t),
{
    let p = seq![x] + t;
    assert forall|i1: int, i2: int| 0 <= i1 < i2 < p.len() implies p[i1].0 != p[i2].0 by {
        if i1 == 0 {
            assert(p[i2] == t[i2 - 1]);
        } else {
            assert(p[i1] == t[i1 - 1] && p[i2] == t[i2 - 1]);
        }
    }
}

/// Removing a key leaves distinct keys distinct, and removes every
/// entry for that key.
pub proof fn lemma_remove_key_distinct<V>(s: Seq<(u64, V)>, j: int)
    requires
        distinct_keys(s),
        0 <= j < s.len(),
    ensures
        distinct_keys(s.remove(j)),
        forall|l: int| 0 <= l < s.remove(j).len() ==> (#[trigger] s.remove(j)[l]).0 != s[j].0,
{
    let r = s.remove(j);
    assert forall|l: int| 0 <= l < r.len() implies (#[trigger] r[l]).0 != s[j].0 by {
        let a = if l < j {
            l
        } else {
            l + 1
        };
        assert(r[l] == s[a]);
    }
    assert forall|i1: int, i2: int| 0 <= i1 < i2 < r.len() implies r[i1].0 != r[i2].0 by {
        let a = if i1 < j {
            i1
        } else {
            i1 + 1
        };
        let b = if i2 < j {
            i2
        } else {
            i2 + 1
        };
        assert(r[i1] == s[a] && r[i2] == s[b]);
    }
}

/// `put` and `get` keep the keys distinct.
pub proof fn law_distinct_preserved<V>(s: Seq<(u64, V)>, cap: nat, k: u64, v: V)
    requires
        distinct_keys(s),
        cap > 0,
    ensures
        distinct_keys(put_model(s, cap, k, v)),
        distinct_keys(get_model(s, k)),
{
    if lookup(s, k) is Some {
        let j = lemma_lookup_finds_position(s, k);
        lemma_lookup_at_position(s, j);
        lemma_remove_key_distinct(s, j);
        let r = s.remove(j);
        lemma_distinct_prepend((k, v), r);
        lemma_distinct_prepend((k, s[j].1), r);
        assert(get_model(s, k) == seq![(k, s[j].1)] + r);
    } else {
        let base = if s.len() < cap {
            s
        } else {
            s.take(s.len() - 1)
        };
        assert forall|l: int| 0 <= l < base.len() implies (#[trigger] base[l]).0 != k by {
            assert(base[l] == s[l]);
            if s[l].0 == k {
                lemma_position_implies_found(s, l);
            }
        }
        assert(distinct_keys(base)) by {
            assert forall|i1: int, i2: int| 0 <= i1 < i2 < base.len() implies base[i1].0
                != base[i2].0 by {
                assert(base[i1] == s[i1] && base[i2] == s[i2]);
            }
        }
        lemma_distinct_prepend((k, v), base);
    }
}

/// A `get` on a present key promotes it: afterwards it is the most
/// recently used key, its value unchanged, and no entry was gained or
/// lost.
pub proof fn law_get_promotes<V>(s: Seq<(u64, V)>, k: u64)
    requires
        distinct_keys(s),
        lookup(s, k) is Some,
    ensures
        get_model(s, k).len() == s.len(),
        keys_of(get_model(s, k))[0] == k,
        lookup(get_model(s, k), k) == lookup(s, k),
{
    let j = lemma_lookup_finds_position(s, k);
    lemma_lookup_at_position(s, j);
    let p = seq![(k, s[j].1)] + s.remove(j);
    assert(p[0] == (k, s[j].1));
    lemma_lookup_prepend_hit((k, s[j].1), s.remove(j));
    assert(keys_of(p)[0] == p[0].0);
}

/// A `put` on an existing key stores the new value and does not grow
/// the cache.
pub proof fn law_put_update<V>(s: Seq<(u64, V)>, cap: nat, k: u64, v: V)
    requires
        distinct_keys(s),
        lookup(s, k) is Some,
    ensures
        put_model(s, cap, k, v).len() == s.len(),
        lookup(put_model(s, cap, k, v), k) == Some(v),
{
    let j = lemma_lookup_finds_position(s, k);
    lemma_lookup_at_position(s, j);
    lemma_lookup_prepend_hit((k, v), s.remove(j));
}

/// Round trip: immediately after `put(k, v)`, whatever the prior
/// contents, `k` maps to `v`.
pub proof fn law_round_trip<V>(s: Seq<(u64, V)>, cap: nat, k: u64, v: V)
    requires
        cap > 0,
    ensures
        lookup(put_model(s, cap, k, v), k) == Some(v),
{
    if lookup(s, k) is Some {
        lemma_lookup_prepend_hit((k, v), remove_key(s, k));
    } else if s.len() < cap {
        lemma_lookup_prepend_hit((k, v), s);
    } else {
        lemma_lookup_prepend_hit((k, v), s.take(s.len() - 1));
    }
}

/// A `put` of one key leaves every other key's value alone, as long as
/// it does not evict that key (no eviction happens on an update or on a
/// cache with room; an eviction only removes the least recently used
/// entry).
pub proof fn law_put_preserves_other<V>(s: Seq<(u64, V)>, cap: nat, k: u64, v: V, k2: u64)
    requires
        cap > 0,
        k2 != k,
        lookup(s, k) is Some || s.len() < cap || (s.len() > 0 && s[s.len() - 1].0 != k2),
    ensures
        lookup(put_model(s, cap, k, v), k2) == lookup(s, k2),
{
    if lookup(s, k) is Some {
        lemma_lookup_prepend_other((k, v), remove_key(s, k), k2);
        lemma_lookup_remove_other(s, k, k2);
    } else if s.len() < cap {
        lemma_lookup_prepend_other((k, v), s, k2);
    } else {
        lemma_lookup_prepend_other((k, v), s.take(s.len() - 1), k2);
        lemma_lookup_drop_last(s, k2);
    }
}

/// A `get` of one key never changes what any other key maps to.
pub proof fn law_get_preserves_other<V>(s: Seq<(u64, V)>, k: u64, k2: u64)
    requires
        k2 != k,
    ensures
        lookup(get_model(s, k), k2) == lookup(s, k2),
{
    if lookup(s, k) is Some {
        let u = lookup(s, k)->Some_0;
        lemma_lookup_prepend_other((k, u), remove_key(s, k), k2);
        lemma_lookup_remove_other(s, k, k2);
    }
}

/// Applying a batch of puts front to back splits at any point.
pub proof fn lemma_puts_model_append<V>(
    s: Seq<(u64, V)>,
    a: Seq<(u64, V)>,
    b: Seq<(u64, V)>,
    cap: nat,
)
    ensures
        puts_model(s, a + b, cap) == puts_model(puts_model(s, a, cap), b, cap),
    decreases a.len(),
{
    if a.len() == 0 {
        assert(a + b =~= b);
    } else {
        assert((a + b)[0] == a[0]);
        assert((a + b).skip(1) =~= a.skip(1) + b);
        lemma_puts_model_append(put_model(s, cap, a[0].0, a[0].1), a.skip(1), b, cap);
    }
}

/// Putting fresh, pairwise distinct keys into a cache with enough room
/// stacks them in front in reverse order of insertion, evicting
/// nothing.
pub proof fn lemma_puts_fresh<V>(s: Seq<(u64, V)>, kvs: Seq<(u64, V)>, cap: nat)
    requires
        distinct_keys(s),
        distinct_keys(kvs),
        s.len() + kvs.len() <= cap,
        forall|i: int, l: int|
            0 <= i < kvs.len() && 0 <= l < s.len() ==> (#[trigger] kvs[i]).0 != (
            #[trigger] s[l]).0,
    ensures
        puts_model(s, kvs, cap) == kvs.reverse() + s,
    decreases kvs.len(),
{
    if kvs.len() == 0 {
        assert(kvs.reverse() + s =~= s);
    } else {
        assert forall|l: int| 0 <= l < s.len() implies (#[trigger] s[l]).0 != kvs[0].0 by {
            assert(kvs[0].0 != s[l].0);
        }
        lemma_lookup_absent(s, kvs[0].0);
        let s1 = seq![kvs[0]] + s;
        assert(put_model(s, cap, kvs[0].0, kvs[0].1) == s1);
        lemma_distinct_prepend(kvs[0], s);
        let rest = kvs.skip(1);
        lemma_distinct_skip(kvs);
        assert forall|i: int, l: int|
            0 <= i < rest.len() && 0 <= l < s1.len() implies (#[trigger] rest[i]).0 != (
        #[trigger] s1[l]).0 by {
            assert(rest[i] == kvs[i + 1]);
            if l == 0 {
                assert(kvs[0].0 != kvs[i + 1].0);
            } else {
                assert(s1[l] == s[l - 1]);
            }
        }
        lemma_puts_fresh(s1, rest, cap);
        assert(rest.reverse() + s1 =~= kvs.reverse() + s) by {
            assert forall|x: int| 0 <= x < rest.reverse().len() + s1.len() implies (rest.reverse()
                + s1)[x] == (kvs.reverse() + s)[x] by {
                if x < rest.len() {
                    assert((rest.reverse() + s1)[x] == rest[rest.len() - 1 - x]);
                    assert(rest[rest.len() - 1 - x] == kvs[kvs.len() - 1 - x]);
                    assert((kvs.reverse() + s)[x] == kvs[kvs.len() - 1 - x]);
                } else if x == rest.len() {
                    assert((rest.reverse() + s1)[x] == s1[0]);
                    assert((kvs.reverse() + s)[x] == kvs[kvs.len() - 1 - x]);
                } else {
                    assert((rest.reverse() + s1)[x] == s1[x - rest.len()]);
                    assert(s1[x - rest.len()] == s[x - rest.len() - 1]);
                    assert((kvs.reverse() + s)[x] == s[x - kvs.len()]);
                }
            }
        }
    }
}

/// Pure FIFO eviction: putting `cap + 1` pairwise distinct keys into
/// an empty cache, with no intervening `get`, evicts exactly the first
/// key; every later key is still present with its value.
pub proof fn law_fifo_eviction<V>(kvs: Seq<(u64, V)>, cap: nat)
    requires
        cap > 0,
        kvs.len() == cap + 1,
        distinct_keys(kvs),
    ensures
        lookup(puts_model(Seq::empty(), kvs, cap), kvs[0].0) is None,
        forall|i: int|
            1 <= i < kvs.len() ==> lookup(puts_model(Seq::empty(), kvs, cap), (
            #[trigger] kvs[i]).0) == Some(kvs[i].1),
{
    let e = Seq::<(u64, V)>::empty();
    let first = kvs.take(cap as int);
    let lastp = kvs[cap as int];
    assert(kvs =~= first + seq![lastp]);
    lemma_puts_model_append(e, first, seq![lastp], cap);
    assert(distinct_keys(first)) by {
        assert forall|i: int, l: int| 0 <= i < l < first.len() implies first[i].0
            != first[l].0 by {
            assert(first[i] == kvs[i] && first[l] == kvs[l]);
        }
    }
    lemma_puts_fresh(e, first, cap);
    let full = first.reverse() + e;
    assert(full =~= first.reverse());
    assert(puts_model(e, first, cap) == full);
    assert(full.len() == cap);
    assert forall|l: int| 0 <= l < full.len() implies (#[trigger] full[l]).0 != lastp.0 by {
        assert(full[l] == kvs[cap - 1 - l]);
    }
    lemma_lookup_absent(full, lastp.0);
    let fin = puts_model(e, kvs, cap);
    assert(fin == put_model(full, cap, lastp.0, lastp.1)) by {
        assert(puts_model(full, seq![lastp], cap) == puts_model(
            put_model(full, cap, lastp.0, lastp.1),
            Seq::empty(),
            cap,
        )) by {
            assert(seq![lastp][0] == lastp);
            assert(seq![lastp].skip(1) =~= Seq::<(u64, V)>::empty());
        }
    }
    assert(fin == seq![lastp] + full.take(cap - 1));
    assert(fin.len() == cap);
    assert forall|x: int| 0 <= x < fin.len() implies (#[trigger] fin[x]) == kvs[cap - x] by {
        if x == 0 {
        } else {
            assert(fin[x] == full.take(cap - 1)[x - 1]);
            assert(full[x - 1] == kvs[cap - 1 - (x - 1)]);
        }
    }
    assert(distinct_keys(fin)) by {
        assert forall|i: int, l: int| 0 <= i < l < fin.len() implies fin[i].0 != fin[l].0 by {
            assert(fin[i] == kvs[cap - i] && fin[l] == kvs[cap - l]);
        }
    }
    assert forall|l: int| 0 <= l < fin.len() implies (#[trigger] fin[l]).0 != kvs[0].0 by {
        assert(fin[l] == kvs[cap - l]);
    }
    lemma_lookup_absent(fin, kvs[0].0);
    assert forall|i: int| 1 <= i < kvs.len() implies lookup(fin, (#[trigger] kvs[i]).0) == Some(
        kvs[i].1,
    ) by {
        let x = cap - i;
        assert(fin[x] == kvs[i]);
        lemma_lookup_at_position(fin, x);
    }
}

} // verus!
