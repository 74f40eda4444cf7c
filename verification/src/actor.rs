//! The command protocol of the cache's owner-thread wrapper.
//!
//! Many callers share one cache by sending commands to a single owner
//! thread, which holds the only cache instance, applies each command,
//! and sends the reply back.  The loop around channels lives outside
//! this library; the decision it takes for each command is `apply`,
//! whose contract ties both the reply and the new cache state to the
//! recency-sequence model.

use crate::lru::LRUCache;
use crate::lru_model::{
    distinct_keys, get_model, law_capacity_bound, law_distinct_preserved, law_get_preserves_other,
    law_get_promotes, law_put_preserves_other, lemma_lookup_at_position,
    lemma_lookup_finds_position, lookup, put_model,
};
use vstd::prelude::*;

verus! {

/// One request to the cache's owner thread.
pub enum Command<V> {
    Put(u64, V),
    Get(u64),
}

/// The reply the owner thread owes for `cmd` on a cache holding `s`:
/// a put is acknowledged with no payload, a get answers the lookup.
pub open spec fn reply_model<V>(s: Seq<(u64, V)>, cmd: Command<V>) -> Option<V> {
    match cmd {
        Command::Put(_, _) => None,
        Command::Get(k) => lookup(s, k),
    }
}

/// The cache contents after the owner thread has applied `cmd`.
pub open spec fn step_model<V>(s: Seq<(u64, V)>, cap: nat, cmd: Command<V>) -> Seq<(u64, V)> {
    match cmd {
        Command::Put(k, v) => put_model(s, cap, k, v),
        Command::Get(k) => get_model(s, k),
    }
}

/// The cache contents after a whole sequence of commands, applied
/// front to back.
pub open spec fn steps_model<V>(s: Seq<(u64, V)>, cap: nat, cmds: Seq<Command<V>>) -> Seq<
    (u64, V),
>
    decreases cmds.len(),
{
    if cmds.len() == 0 {
        s
    } else {
        steps_model(step_model(s, cap, cmds[0]), cap, cmds.skip(1))
    }
}

/// Whatever sequence of `put` and `get` commands is applied, the
/// cache never holds more than `cap` entries, and its keys stay
/// distinct.
pub proof fn law_capacity_never_exceeded<V>(s: Seq<(u64, V)>, cap: nat, cmds: Seq<Command<V>>)
    requires
        cap > 0,
        distinct_keys(s),
        s.len() <= cap,
    ensures
        steps_model(s, cap, cmds).len() <= cap,
        distinct_keys(steps_model(s, cap, cmds)),
    decreases cmds.len(),
{
    if cmds.len() > 0 {
        let s1 = step_model(s, cap, cmds[0]);
        match cmds[0] {
            Command::Put(k, v) => {
                law_capacity_bound(s, cap, k, v);
                law_distinct_preserved(s, cap, k, v);
            },
            Command::Get(k) => {
                let v = vstd::pervasive::arbitrary::<V>();
                law_capacity_bound(s, cap, k, v);
                law_distinct_preserved(s, cap, k, v);
            },
        }
        law_capacity_never_exceeded(s1, cap, cmds.skip(1));
    }
}

/// Read-after-write consistency under serialization: once `k` maps to
/// `v`, any sequence of commands in which nobody writes `k` again and
/// the writes all still fit leaves `k` mapping to `v` — so a caller's
/// own `get` after its own acknowledged `put` sees the value it wrote,
/// however the owner thread interleaved the other callers' commands.
pub proof fn law_read_after_write<V>(s: Seq<(u64, V)>, cap: nat, cmds: Seq<Command<V>>, k: u64, v: V)
    requires
        cap > 0,
        distinct_keys(s),
        lookup(s, k) == Some::<V>(v),
        s.len() + cmds.len() <= cap,
        forall|i: int|
            0 <= i < cmds.len() ==> match #[trigger] cmds[i] {
                Command::Put(k2, _) => k2 != k,
                Command::Get(_) => true,
            },
    ensures
        lookup(steps_model(s, cap, cmds), k) == Some(v),
    decreases cmds.len(),
{
    if cmds.len() > 0 {
        let s1 = step_model(s, cap, cmds[0]);
        match cmds[0] {
            Command::Put(k2, v2) => {
                law_put_preserves_other(s, cap, k2, v2, k);
                law_distinct_preserved(s, cap, k2, v2);
                assert(s1.len() <= s.len() + 1) by {
                    if lookup(s, k2) is Some {
                        let j = lemma_lookup_finds_position(s, k2);
                        lemma_lookup_at_position(s, j);
                    }
                }
            },
            Command::Get(k2) => {
                if k2 == k {
                    law_get_promotes(s, k);
                } else {
                    law_get_preserves_other(s, k2, k);
                }
                law_distinct_preserved(s, cap, k2, vstd::pervasive::arbitrary::<V>());
                assert(s1.len() <= s.len()) by {
                    if lookup(s, k2) is Some {
                        let j = lemma_lookup_finds_position(s, k2);
                        lemma_lookup_at_position(s, j);
                    }
                }
            },
        }
        assert forall|i: int| 0 <= i < cmds.skip(1).len() implies match #[trigger] cmds.skip(
            1,
        )[i] {
            Command::Put(k2, _) => k2 != k,
            Command::Get(_) => true,
        } by {
            assert(cmds.skip(1)[i] == cmds[i + 1]);
        }
        law_read_after_write(s1, cap, cmds.skip(1), k, v);
    }
}

/// Apply one command to the cache and produce the reply that is sent
/// back on the command's reply channel.
pub fn apply<V: Copy>(cache: &mut LRUCache<V>, cmd: Command<V>) -> (reply: Option<V>)
    requires
        old(cache).wf(),
    ensures
        final(cache).wf(),
        final(cache).cap() == old(cache).cap(),
        final(cache).entries() == step_model(old(cache).entries(), old(cache).cap(), cmd),
        reply == reply_model(old(cache).entries(), cmd),
{
    match cmd {
        Command::Put(k, v) => {
            cache.put(k, v);
            None
        },
        Command::Get(k) => cache.get(k),
    }
}

} // verus!
