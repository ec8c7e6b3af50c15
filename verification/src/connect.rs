//! Reaching a location: how often a connection is tried, and when the location
//! is given up.

use vstd::prelude::*;

use crate::handshake::HandshakeError;
use crate::location_manager::{LocationManager, Routing};
use crate::random::random_between;

verus! {

/// How often a connection that failed is tried again.
pub const RETRIES: u32 = 5;

/// How long one try may take, in milliseconds.
pub const TRY_MILLIS: u64 = 500;

/// A connection to a location that is being made.
#[derive(Debug)]
pub struct ConnectionAttempt {
    /// The number of the location.
    pub location: u64,
    /// Whether the connection has to be secure.
    pub secure: bool,
    /// How many more tries there are after the one that is running.
    pub retries: u32,
}

/// What follows a try that failed.
#[derive(Debug)]
pub enum AfterFailure {
    /// Wait so many milliseconds and try again.
    Retry { attempt: ConnectionAttempt, delay_millis: u64 },
    /// There will be no connection, for the reason that the text gives.
    GiveUp(String),
}

impl HandshakeError {
    /// Whether a try that failed this way may be followed by another one: it
    /// took too long, or the socket failed.
    pub open spec fn is_passing(self) -> bool {
        self is Timeout || self is IOError
    }
}

/// Whether a failure ends an attempt that has `retries` left.
pub open spec fn gives_up(retries: nat, error: HandshakeError) -> bool {
    !error.is_passing() || retries == 0
}

/// What a failure does to the routing: a location that could not be reached in
/// the last try is dead.
pub open spec fn routing_after_failure(
    routing: Routing,
    attempt: ConnectionAttempt,
    error: HandshakeError,
) -> Routing {
    if error.is_passing() && attempt.retries == 0 {
        routing.after_death(attempt.location)
    } else {
        routing
    }
}

impl ConnectionAttempt {
    /// The first try to reach a location.
    pub fn new(location: u64, secure: bool) -> (r: Self)
        ensures
            r == (ConnectionAttempt { location, secure, retries: RETRIES }),
            r.location == location,
            r.secure == secure,
            r.retries == 5,
    {
        ConnectionAttempt { location, secure, retries: RETRIES }
    }

    /// Decides what follows a try that failed. The pause before the next try is
    /// picked by chance, from 1 to 199 milliseconds.
    pub fn failed(self, locations: &mut LocationManager, error: HandshakeError) -> (r: AfterFailure)
        requires
            old(locations)@.wf(),
        ensures
            final(locations)@.wf(),
            final(locations)@ == routing_after_failure(old(locations)@, self, error),
            match r {
                AfterFailure::Retry { attempt, delay_millis } => {
                    &&& !gives_up(self.retries as nat, error)
                    &&& attempt == (ConnectionAttempt { retries: (self.retries - 1) as u32, ..self })
                    &&& 1 <= delay_millis < 200
                },
                AfterFailure::GiveUp(text) => {
                    &&& gives_up(self.retries as nat, error)
                    &&& text@ == error.shown()
                },
            },
            (error is Timeout || error is IOError) && self.retries > 0 ==> {
                &&& r matches AfterFailure::Retry { attempt, delay_millis }
                &&& attempt.location == self.location
                &&& attempt.secure == self.secure
                &&& attempt.retries == self.retries - 1
                &&& 1 <= delay_millis <= 199
                &&& final(locations)@ == old(locations)@
            },
            (error is Timeout || error is IOError) && self.retries == 0 ==> {
                &&& r matches AfterFailure::GiveUp(text)
                &&& text@ == error.shown()
                &&& final(locations)@ == old(locations)@.after_death(self.location)
            },
            !(error is Timeout || error is IOError) ==> {
                &&& r matches AfterFailure::GiveUp(text)
                &&& text@ == error.shown()
                &&& final(locations)@ == old(locations)@
            },
    {
        let passing: bool = match &error {
            HandshakeError::Timeout => true,
            HandshakeError::IOError(_) => true,
            _ => false,
        };
        if passing && self.retries > 0 {
            let attempt = ConnectionAttempt {
                location: self.location,
                secure: self.secure,
                retries: self.retries - 1,
            };
            AfterFailure::Retry { attempt, delay_millis: random_between(1, 200) }
        } else {
            if passing {
                locations.mark_dead(self.location);
            }
            AfterFailure::GiveUp(error.message())
        }
    }
}

/// How many of the failures `errors`, one after the other, it takes until a
/// connection with `retries` left is given up; `None` if they do not suffice.
pub open spec fn failures_until_given_up(retries: nat, errors: Seq<HandshakeError>) -> Option<nat>
    decreases errors.len(),
{
    if errors.len() == 0 {
        None
    } else if gives_up(retries, errors[0]) {
        Some(1)
    } else {
        match failures_until_given_up((retries - 1) as nat, errors.drop_first()) {
            Some(n) => Some(n + 1),
            None => None,
        }
    }
}

/// The routing after the failures `errors`, one after the other.
pub open spec fn routing_after_failures(
    routing: Routing,
    attempt: ConnectionAttempt,
    errors: Seq<HandshakeError>,
) -> Routing
    decreases errors.len(),
{
    if errors.len() == 0 {
        routing
    } else if gives_up(attempt.retries as nat, errors[0]) {
        routing_after_failure(routing, attempt, errors[0])
    } else {
        routing_after_failures(
            routing_after_failure(routing, attempt, errors[0]),
            ConnectionAttempt { retries: (attempt.retries - 1) as u32, ..attempt },
            errors.drop_first(),
        )
    }
}

/// Whether all failures may be followed by another try.
pub open spec fn all_passing(errors: Seq<HandshakeError>) -> bool {
    forall|i: int| 0 <= i < errors.len() ==> (#[trigger] errors[i]).is_passing()
}

proof fn lemma_rest_passing(errors: Seq<HandshakeError>)
    requires
        errors.len() > 0,
        all_passing(errors),
    ensures
        all_passing(errors.drop_first()),
{
    let rest = errors.drop_first();
    assert forall|i: int| 0 <= i < rest.len() implies (#[trigger] rest[i]).is_passing() by {
        assert(rest[i] == errors[i + 1]);
    }
}

/// A location is tried at most once more than there are retries: so many
/// failures end the attempt. It takes exactly so many if all of them may be
/// followed by another try.
pub proof fn law_tries_are_bounded(retries: nat, errors: Seq<HandshakeError>)
    requires
        errors.len() > retries,
    ensures
        failures_until_given_up(retries, errors) matches Some(n) && 1 <= n <= retries + 1,
        all_passing(errors) ==> failures_until_given_up(retries, errors) == Some(retries + 1),
    decreases retries,
{
    if errors[0].is_passing() && retries > 0 {
        law_tries_are_bounded((retries - 1) as nat, errors.drop_first());
        if all_passing(errors) {
            lemma_rest_passing(errors);
        }
    }
}

/// A location that cannot be reached in any try is given up, and not before the
/// last try has failed.
pub proof fn law_unreachable_location_is_given_up(
    routing: Routing,
    attempt: ConnectionAttempt,
    errors: Seq<HandshakeError>,
)
    requires
        all_passing(errors),
    ensures
        routing_after_failures(routing, attempt, errors) == if errors.len() > attempt.retries {
            routing.after_death(attempt.location)
        } else {
            routing
        },
    decreases errors.len(),
{
    if errors.len() > 0 {
        assert(errors[0].is_passing());
        if attempt.retries > 0 {
            lemma_rest_passing(errors);
            law_unreachable_location_is_given_up(
                routing,
                ConnectionAttempt { retries: (attempt.retries - 1) as u32, ..attempt },
                errors.drop_first(),
            );
        }
    }
}

/// A failure may be followed by another try exactly if it took too long or the
/// socket failed. It ends an attempt if it is of another kind, or if no retry is
/// left, and the location dies of it exactly if it is of these kinds and no retry
/// is left.
pub proof fn law_which_failures_pass(
    routing: Routing,
    attempt: ConnectionAttempt,
    error: HandshakeError,
)
    ensures
        error.is_passing() <==> (error is Timeout || error is IOError),
        error is BadRequest || error is HeadersParsing || error is SocketClosed || error
            is MissedHeader || error is BadHeaderValue || error is TlsError
            ==> !error.is_passing(),
        gives_up(attempt.retries as nat, error) <==> !(error is Timeout || error is IOError)
            || attempt.retries == 0,
        (error is Timeout || error is IOError) && attempt.retries == 0 ==> routing_after_failure(
            routing,
            attempt,
            error,
        ) == routing.after_death(attempt.location),
        !(error is Timeout || error is IOError) || attempt.retries > 0 ==> routing_after_failure(
            routing,
            attempt,
            error,
        ) == routing,
{
}

/// Five retries, each try of half a second.
pub proof fn law_patience()
    ensures
        RETRIES == 5,
        TRY_MILLIS == 500,
{
}

/// A location that times out or refuses its socket six times in a row is given up
/// by a new attempt, and not before the sixth time.
pub proof fn law_six_failures(
    routing: Routing,
    attempt: ConnectionAttempt,
    errors: Seq<HandshakeError>,
)
    requires
        attempt.retries == 5,
        forall|i: int|
            0 <= i < errors.len() ==> (#[trigger] errors[i]) is Timeout || errors[i] is IOError,
    ensures
        errors.len() >= 6 ==> failures_until_given_up(attempt.retries as nat, errors) == Some(6nat),
        errors.len() < 6 ==> routing_after_failures(routing, attempt, errors) == routing,
        errors.len() >= 6 ==> routing_after_failures(routing, attempt, errors)
            == routing.after_death(attempt.location),
{
    assert(all_passing(errors));
    law_unreachable_location_is_given_up(routing, attempt, errors);
    if errors.len() >= 6 {
        law_tries_are_bounded(5, errors);
    }
}

} // verus!
