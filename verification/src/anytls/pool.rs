//! The client's pool of idle sessions: a session without streams is kept for a
//! while, so that the next connection need not dial.
use vstd::prelude::*;

verus! {

/// The largest number of idle sessions kept.
pub const MAX_IDLE_SESSIONS: usize = 64;

/// How long a session may stay idle, in nanoseconds.
pub const IDLE_SESSION_TIMEOUT: u64 = 60_000_000_000;

/// Idle sessions with the times since when they are idle, oldest first. Times
/// are in nanoseconds on the caller's clock.
pub struct IdlePool<T> {
    pub entries: Vec<(u64, T)>,
}

impl<T> View for IdlePool<T> {
    type V = Seq<(u64, T)>;

    open spec fn view(&self) -> Seq<(u64, T)> {
        self.entries@
    }
}

/// Whether a session that is idle since `since` has been so for too long.
pub open spec fn expired(since: u64, now: u64) -> bool {
    now - since > IDLE_SESSION_TIMEOUT
}

/// The entries that may stay.
pub open spec fn fresh<T>(entries: Seq<(u64, T)>, now: u64) -> Seq<(u64, T)> {
    entries.filter(|e: (u64, T)| !expired(e.0, now))
}

/// The sessions that have been idle for too long.
pub open spec fn stale<T>(entries: Seq<(u64, T)>, now: u64) -> Seq<T> {
    entries.filter(|e: (u64, T)| expired(e.0, now)).map_values(|e: (u64, T)| e.1)
}

/// The pool once a session is put in; a full one gives up its oldest.
pub open spec fn after_put<T>(entries: Seq<(u64, T)>, now: u64, session: T) -> Seq<(u64, T)> {
    if entries.len() >= MAX_IDLE_SESSIONS {
        entries.skip(1).push((now, session))
    } else {
        entries.push((now, session))
    }
}

/// The pool once a session is released; one that is still in use, or closed, is
/// not put in.
pub open spec fn after_release<T>(
    entries: Seq<(u64, T)>,
    now: u64,
    idle: bool,
    session: T,
) -> Seq<(u64, T)> {
    if idle {
        after_put(entries, now, session)
    } else {
        entries
    }
}

impl<T> IdlePool<T> {
    /// An empty pool.
    pub fn new() -> (r: IdlePool<T>)
        ensures
            r@ == Seq::<(u64, T)>::empty(),
    {
        IdlePool { entries: Vec::new() }
    }

    /// Takes the session that was put in last.
    pub fn take(&mut self) -> (r: Option<T>)
        ensures
            match r {
                Some(s) => old(self)@.len() > 0 && s == old(self)@.last().1 && final(self)@
                    == old(self)@.drop_last(),
                None => old(self)@.len() == 0 && final(self)@ == old(self)@,
            },
    {
        match self.entries.pop() {
            Some((_, s)) => Some(s),
            None => None,
        }
    }

    /// Puts a session in. A full pool gives up its oldest session, which is
    /// to be closed.
    pub fn put(&mut self, now: u64, session: T) -> (r: Option<T>)
        ensures
            final(self)@ == after_put(old(self)@, now, session),
            match r {
                Some(evicted) => old(self)@.len() >= MAX_IDLE_SESSIONS && evicted
                    == old(self)@[0].1,
                None => old(self)@.len() < MAX_IDLE_SESSIONS,
            },
            old(self)@.len() <= MAX_IDLE_SESSIONS ==> final(self)@.len() <= MAX_IDLE_SESSIONS,
    {
        if self.entries.len() >= MAX_IDLE_SESSIONS {
            let (_, evicted) = self.entries.remove(0);
            self.entries.push((now, session));
            assert(self@ =~= old(self)@.skip(1).push((now, session)));
            Some(evicted)
        } else {
            self.entries.push((now, session));
            None
        }
    }

    /// Takes back a session whose stream has ended. One that is idle is put in,
    /// and a full pool then gives up its oldest session, which is to be closed.
    /// One that is not idle leaves the pool as it is.
    pub fn release(&mut self, now: u64, idle: bool, session: T) -> (r: Option<T>)
        ensures
            final(self)@ == after_release(old(self)@, now, idle, session),
            match r {
                Some(evicted) => idle && old(self)@.len() >= MAX_IDLE_SESSIONS && evicted
                    == old(self)@[0].1,
                None => !idle || old(self)@.len() < MAX_IDLE_SESSIONS,
            },
    {
        if idle {
            self.put(now, session)
        } else {
            None
        }
    }

    /// Removes the sessions that have been idle for too long and returns them;
    /// they are to be closed.
    pub fn sweep(&mut self, now: u64) -> (r: Vec<T>)
        ensures
            final(self)@ == fresh(old(self)@, now),
            r@ == stale(old(self)@, now),
    {
        let ghost before = self@;
        let mut closed: Vec<T> = Vec::new();
        let mut i: usize = 0;
        let ghost mut seen: int = 0;
        assert(before.take(0) =~= Seq::<(u64, T)>::empty());
        proof {
            lemma_sweep_start(before, now);
        }
        while i < self.entries.len()
            invariant
                before == old(self)@,
                0 <= seen <= before.len(),
                i <= self.entries.len(),
                self.entries@ == fresh(before.take(seen), now) + before.skip(seen),
                i == fresh(before.take(seen), now).len(),
                closed@ == stale(before.take(seen), now),
            decreases self.entries.len() - i,
        {
            let ghost e = before[seen];
            assert(self.entries@[i as int] == before.skip(seen)[0]);
            proof {
                lemma_sweep_step(before, seen, now);
            }
            let since: u64 = self.entries[i].0;
            if now > since && now - since > IDLE_SESSION_TIMEOUT {
                let ghost kept = fresh(before.take(seen), now);
                let (_, s) = self.entries.remove(i);
                closed.push(s);
                assert(self.entries@ =~= kept + before.skip(seen + 1));
            } else {
                let ghost kept = fresh(before.take(seen), now);
                i = i + 1;
                assert(self.entries@ =~= kept.push(e) + before.skip(seen + 1));
            }
            proof {
                seen = seen + 1;
            }
        }
        assert(before.skip(seen).len() == 0);
        assert(before.take(seen) =~= before);
        assert(self.entries@ =~= fresh(before, now));
        closed
    }
}

proof fn lemma_sweep_start<T>(entries: Seq<(u64, T)>, now: u64)
    ensures
        fresh(entries.take(0), now) == Seq::<(u64, T)>::empty(),
        stale(entries.take(0), now) == Seq::<T>::empty(),
        entries.skip(0) == entries,
        Seq::<(u64, T)>::empty() + entries == entries,
{
    reveal(Seq::filter);
    assert(entries.skip(0) =~= entries);
    assert(Seq::<(u64, T)>::empty() + entries =~= entries);
    assert(stale(entries.take(0), now) =~= Seq::<T>::empty());
}

proof fn lemma_sweep_step<T>(entries: Seq<(u64, T)>, k: int, now: u64)
    requires
        0 <= k < entries.len(),
    ensures
        fresh(entries.take(k + 1), now) == (if expired(entries[k].0, now) {
            fresh(entries.take(k), now)
        } else {
            fresh(entries.take(k), now).push(entries[k])
        }),
        stale(entries.take(k + 1), now) == (if expired(entries[k].0, now) {
            stale(entries.take(k), now).push(entries[k].1)
        } else {
            stale(entries.take(k), now)
        }),
{
    reveal(Seq::filter);
    let a = entries.take(k);
    assert(entries.take(k + 1).drop_last() =~= a);
    assert(a.push(entries[k]) =~= entries.take(k + 1));
    if expired(entries[k].0, now) {
        assert(stale(entries.take(k + 1), now) =~= stale(a, now).push(entries[k].1));
    }
}

/// A released session is in the pool if it is idle, and the pool does not
/// change if it is not; either way the pool stays within its limit.
pub proof fn law_only_idle_sessions_are_pooled<T>(
    entries: Seq<(u64, T)>,
    now: u64,
    idle: bool,
    session: T,
)
    ensures
        idle ==> after_release(entries, now, idle, session).last() == (now, session),
        !idle ==> after_release(entries, now, idle, session) == entries,
        idle && entries.len() < 64 ==> after_release(entries, now, idle, session) == entries.push(
            (now, session),
        ),
        idle && entries.len() >= 64 ==> after_release(entries, now, idle, session).drop_last()
            == entries.skip(1),
        entries.len() <= MAX_IDLE_SESSIONS ==> after_release(entries, now, idle, session).len()
            <= MAX_IDLE_SESSIONS,
{
}

/// A session that goes idle is the one that the next connection gets, and
/// taking it undoes putting it in, but for a session that had to make room.
pub proof fn law_idle_session_is_reused<T>(entries: Seq<(u64, T)>, now: u64, session: T)
    ensures
        after_put(entries, now, session).len() > 0,
        after_put(entries, now, session).last().1 == session,
        after_put(entries, now, session).drop_last() == (if entries.len() >= MAX_IDLE_SESSIONS {
            entries.skip(1)
        } else {
            entries
        }),
{
    assert(entries.push((now, session)).drop_last() =~= entries);
    assert(entries.skip(1).push((now, session)).drop_last() =~= entries.skip(1));
}

/// A sweep closes the sessions that have been idle for more than 60 seconds,
/// and keeps all others.
pub proof fn law_sweep_goes_by_idle_time<T>(entries: Seq<(u64, T)>, now: u64, i: int)
    requires
        0 <= i < entries.len(),
    ensures
        fresh(entries, now).contains(entries[i]) <==> now <= entries[i].0 + 60_000_000_000,
        now > entries[i].0 + 60_000_000_000 ==> stale(entries, now).contains(entries[i].1),
{
    let keep = |e: (u64, T)| !expired(e.0, now);
    let drop = |e: (u64, T)| expired(e.0, now);
    let kept = entries.filter(keep);
    let dropped = entries.filter(drop);
    let e = entries[i];
    if now <= e.0 + 60_000_000_000 {
        entries.lemma_filter_contains(keep, i);
    } else {
        if kept.contains(e) {
            let j = choose|j: int| 0 <= j < kept.len() && kept[j] == e;
            entries.lemma_filter_pred(keep, j);
        }
        entries.lemma_filter_contains(drop, i);
        let j = choose|j: int| 0 <= j < dropped.len() && dropped[j] == e;
        assert(stale(entries, now)[j] == e.1);
    }
}

/// A sweep looks at one session after the other: each stays or goes by its own
/// idle time, and both those that stay and those that go keep their order.
pub proof fn law_sweep_keeps_order<T>(entries: Seq<(u64, T)>, since: u64, session: T, now: u64)
    ensures
        fresh(Seq::<(u64, T)>::empty(), now) == Seq::<(u64, T)>::empty(),
        stale(Seq::<(u64, T)>::empty(), now) == Seq::<T>::empty(),
        now - since <= 60_000_000_000 ==> {
            &&& fresh(entries.push((since, session)), now) == fresh(entries, now).push(
                (since, session),
            )
            &&& stale(entries.push((since, session)), now) == stale(entries, now)
        },
        now - since > 60_000_000_000 ==> {
            &&& fresh(entries.push((since, session)), now) == fresh(entries, now)
            &&& stale(entries.push((since, session)), now) == stale(entries, now).push(session)
        },
{
    let all = entries.push((since, session));
    lemma_sweep_start(entries, now);
    assert(entries.take(0) =~= Seq::<(u64, T)>::empty());
    lemma_sweep_step(all, entries.len() as int, now);
    assert(all.take(entries.len() as int) =~= entries);
    assert(all.take(entries.len() as int + 1) =~= all);
}

/// The entries of a pool with all times `d` later.
pub open spec fn later<T>(entries: Seq<(u64, T)>, d: u64) -> Seq<(u64, T)> {
    entries.map_values(|e: (u64, T)| ((e.0 + d) as u64, e.1))
}

/// Whether a session stays depends on how long it has been idle alone, not on
/// when that was.
pub proof fn law_sweep_goes_by_differences<T>(entries: Seq<(u64, T)>, now: u64, d: u64)
    requires
        now + d <= u64::MAX,
        forall|i: int| 0 <= i < entries.len() ==> (#[trigger] entries[i]).0 + d <= u64::MAX,
    ensures
        fresh(later(entries, d), (now + d) as u64) == later(fresh(entries, now), d),
        stale(later(entries, d), (now + d) as u64) == stale(entries, now),
    decreases entries.len(),
{
    if entries.len() == 0 {
        lemma_sweep_start(entries, now);
        lemma_sweep_start(entries, (now + d) as u64);
        assert(entries.take(0) =~= entries);
        assert(later(entries, d) =~= entries);
        assert(later(fresh(entries, now), d) =~= fresh(entries, now));
    } else {
        let init = entries.drop_last();
        let e = entries.last();
        assert forall|i: int| 0 <= i < init.len() implies (#[trigger] init[i]).0 + d
            <= u64::MAX by {
            assert(init[i] == entries[i]);
        }
        law_sweep_goes_by_differences(init, now, d);
        assert(entries =~= init.push(e));
        let moved = (e.0 + d) as u64;
        assert(later(entries, d) =~= later(init, d).push((moved, e.1)));
        law_sweep_keeps_order(init, e.0, e.1, now);
        law_sweep_keeps_order(later(init, d), moved, e.1, (now + d) as u64);
        assert(later(fresh(init, now).push(e), d) =~= later(fresh(init, now), d).push(
            (moved, e.1),
        ));
    }
}

/// A pool with room gains the session at its end and loses none; one with 64
/// sessions loses the one that has been there longest.
pub proof fn law_put_adds_behind<T>(entries: Seq<(u64, T)>, now: u64, session: T)
    ensures
        entries.len() < 64 ==> after_put(entries, now, session) == entries + seq![(now, session)],
        entries.len() >= 64 ==> seq![entries[0]] + after_put(entries, now, session) == entries
            + seq![(now, session)],
{
    let e = (now, session);
    assert(entries.push(e) =~= entries + seq![e]);
    if entries.len() >= 64 {
        assert(seq![entries[0]] + entries.skip(1).push(e) =~= entries + seq![e]);
    }
}

} // verus!
