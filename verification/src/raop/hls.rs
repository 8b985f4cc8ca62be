//! The playback that a sender started with the address of an HTTP live stream.
use vstd::prelude::*;

verus! {

/// A playback session of the application.
pub trait HlsSession: Sized {
    /// Stopping this session once can leave it as `after`.
    open spec fn stops_as(self, after: Self) -> bool {
        true
    }

    /// Stops the playback.
    fn stop(&mut self)
        ensures
            old(self).stops_as(*final(self)),
    ;
}

/// What changes the playback of a connection.
pub enum HlsCall<S> {
    /// A session is put in.
    Replace(S),
    /// The session is taken out.
    Clear,
}

/// The session that a call leaves in place.
pub open spec fn held_after<S>(call: HlsCall<S>) -> Option<S> {
    match call {
        HlsCall::Replace(session) => Some(session),
        HlsCall::Clear => None,
    }
}

/// `after` is what stopping `before` once left, where there is a session at all. For a session of
/// any type, nothing but one call of `stop` gives that.
pub open spec fn stopped_once<S: HlsSession>(before: Option<S>, after: Option<S>) -> bool {
    match before {
        Some(session) => after matches Some(stopped) && session.stops_as(stopped),
        None => after is None,
    }
}

/// The playback of a connection.
pub struct HlsState<S> {
    /// The session that plays.
    pub session: Option<S>,
    /// The sender's identifier of the session.
    pub session_id: Option<String>,
}

impl<S: HlsSession> HlsState<S> {
    /// Nothing plays.
    pub fn new() -> (r: Self)
        ensures
            r.session is None,
            r.session_id is None,
    {
        HlsState { session: None, session_id: None }
    }

    fn stop_current(&mut self) -> (r: Option<S>)
        ensures
            final(self).session is None,
            final(self).session_id == old(self).session_id,
            stopped_once(old(self).session, r),
    {
        match self.session.take() {
            Some(before) => {
                let mut session = before;
                session.stop();
                Some(session)
            },
            None => None,
        }
    }

    /// Stops the session that plays and then puts another one in, which is not touched. The one
    /// that was stopped comes back.
    pub fn replace_session(&mut self, session: S, session_id: Option<String>) -> (r: Option<S>)
        ensures
            final(self).session == held_after(HlsCall::Replace(session)),
            final(self).session_id == session_id,
            stopped_once(old(self).session, r),
    {
        let before = self.stop_current();
        self.session = Some(session);
        self.session_id = session_id;
        before
    }

    /// Stops the session that plays and takes it out. It comes back.
    pub fn clear_session(&mut self) -> (r: Option<S>)
        ensures
            final(self).session == held_after(HlsCall::<S>::Clear),
            final(self).session_id is None,
            stopped_once(old(self).session, r),
    {
        let before = self.stop_current();
        self.session_id = None;
        before
    }
}

/// The session that plays after some calls on a new playback.
pub open spec fn held<S>(calls: Seq<HlsCall<S>>) -> Option<S> {
    if calls.len() == 0 {
        None
    } else {
        held_after(calls.last())
    }
}

/// A list of what is there.
pub open spec fn listed<S>(session: Option<S>) -> Seq<S> {
    match session {
        Some(s) => seq![s],
        None => Seq::empty(),
    }
}

/// The sessions that were put in by some calls, in their order.
pub open spec fn put_in<S>(calls: Seq<HlsCall<S>>) -> Seq<S>
    decreases calls.len(),
{
    if calls.len() == 0 {
        Seq::empty()
    } else {
        put_in(calls.drop_last()) + listed(held_after(calls.last()))
    }
}

/// The sessions that were stopped by some calls on a new playback, in their order: each call stops
/// the one that played before it.
pub open spec fn stopped<S>(calls: Seq<HlsCall<S>>) -> Seq<S>
    decreases calls.len(),
{
    if calls.len() == 0 {
        Seq::empty()
    } else {
        stopped(calls.drop_last()) + listed(held(calls.drop_last()))
    }
}

/// Every session that is put in is stopped exactly once or still plays: those that were stopped,
/// with the one that plays behind them, are those that were put in.
pub proof fn law_sessions_are_stopped_once<S>(calls: Seq<HlsCall<S>>)
    ensures
        put_in(calls) == stopped(calls) + listed(held(calls)),
    decreases calls.len(),
{
    if calls.len() > 0 {
        law_sessions_are_stopped_once(calls.drop_last());
    } else {
        assert(put_in(calls) =~= stopped(calls) + listed(held(calls)));
    }
}

/// A call leaves exactly the session that it puts in, and none where it takes one out; what comes
/// back is the session that played, stopped, and nothing where none played.
pub proof fn law_calls_on_a_playback<S: HlsSession>(session: S, before: Option<S>, after: Option<S>)
    ensures
        held_after(HlsCall::Replace(session)) == Some(session),
        held_after(HlsCall::<S>::Clear) is None,
        stopped_once(before, after) ==> (before is Some <==> after is Some),
        stopped_once(before, after) && before is Some ==> before->0.stops_as(after->0),
{
}

/// The sessions that are put in are those of the calls that put one in, in their order, and the one
/// that plays is that of the last call.
pub proof fn law_sessions_put_in<S>(calls: Seq<HlsCall<S>>, session: S)
    ensures
        put_in(Seq::<HlsCall<S>>::empty()).len() == 0,
        held(Seq::<HlsCall<S>>::empty()) is None,
        put_in(calls.push(HlsCall::Replace(session))) == put_in(calls).push(session),
        put_in(calls.push(HlsCall::Clear)) == put_in(calls),
        held(calls.push(HlsCall::Replace(session))) == Some(session),
        held(calls.push(HlsCall::Clear)) is None,
{
    assert(calls.push(HlsCall::Replace(session)).drop_last() =~= calls);
    assert(calls.push(HlsCall::Clear).drop_last() =~= calls);
    assert(put_in(calls) + Seq::empty() =~= put_in(calls));
    assert(put_in(calls) + seq![session] =~= put_in(calls).push(session));
}

/// Putting a session in stops the one that played, which comes back, and leaves the new one as it
/// is. Taking it out stops it and leaves none.
pub proof fn law_sessions_are_replaced<S: HlsSession>(
    playback: &mut HlsState<S>,
    later: &mut HlsState<S>,
    session: S,
    session_id: Option<String>,
    replaced: Option<S>,
    cleared: Option<S>,
)
    requires
        call_ensures(HlsState::<S>::replace_session, (playback, session, session_id), replaced),
        *old(later) == *final(playback),
        call_ensures(HlsState::<S>::clear_session, (later,), cleared),
    ensures
        final(playback).session == Some(session),
        final(playback).session_id == session_id,
        replaced is Some <==> old(playback).session is Some,
        replaced is Some ==> old(playback).session->0.stops_as(replaced->0),
        cleared matches Some(stopped) && session.stops_as(stopped),
        final(later).session is None,
        final(later).session_id is None,
{
}

} // verus!
