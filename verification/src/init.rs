//! The connection state machine, the initializer, and the error classifier.

use vstd::prelude::*;

use crate::headers::{
    Headers, lower, merge, header_value_ok, parse_header_name, valid_header_name,
    valid_header_value, lemma_lower_canonical,
};

verus! {

/// The per-connection initialization state: a connection starts out
/// [`NotInitialized`](ConnectionInitState::NotInitialized) and can move at
/// most once to [`Initialized`](ConnectionInitState::Initialized), which then
/// carries the authorized session and the effective headers for the rest of
/// the connection's lifetime.
pub enum ConnectionInitState<S> {
    NotInitialized,
    Initialized { session: S, headers: Headers },
}

/// The client-declared part of a `connection_init` message: header entries in
/// the order they are to be applied; on a repeated name the later entry wins.
pub struct InitPayload {
    pub headers: Vec<(String, String)>,
}

/// Everything that can go wrong during connection initialization.
#[derive(Clone, Copy, Debug, PartialEq, Eq, Structural)]
pub enum ConnectionInitError {
    /// The connection was already initialized.
    AlreadyInitialized,
    /// A payload header name is not a valid header name.
    InvalidHeaderName,
    /// A payload header value is not a valid header value.
    InvalidHeaderValue,
    /// The authenticator rejected the effective headers.
    Authn,
    /// The authorizer rejected the authenticated identity.
    Session,
}

/// The outbound signals this subsystem can produce, one per
/// `connection_init` message received.
#[derive(Clone, Copy, Debug, PartialEq, Eq, Structural)]
pub enum ServerResponse {
    /// Initialization succeeded.
    ConnectionAck,
    /// The connection was already initialized.
    TooManyInitRequests,
    /// Initialization failed; the cause is deliberately not disclosed.
    Forbidden,
}

/// A syntactically acceptable payload entry.
pub open spec fn entry_ok(e: (String, String)) -> bool {
    valid_header_name(e.0@) && valid_header_value(e.1@)
}

/// A syntactically acceptable payload.
pub open spec fn entries_ok(s: Seq<(String, String)>) -> bool {
    forall|i: int| 0 <= i < s.len() ==> entry_ok(#[trigger] s[i])
}

/// The header map a payload denotes: names lowercased, later entries winning.
pub open spec fn parsed_map(s: Seq<(String, String)>) -> Map<Seq<char>, Seq<char>>
    decreases s.len(),
{
    if s.len() == 0 {
        Map::empty()
    } else {
        parsed_map(s.drop_last()).insert(lower(s.last().0@), s.last().1@)
    }
}

/// The error a malformed payload is rejected with: decided by its first
/// entry, in order, that is not acceptable; the name is checked before the
/// value.
pub open spec fn first_parse_error(s: Seq<(String, String)>) -> ConnectionInitError
    recommends
        !entries_ok(s),
    decreases s.len(),
{
    if s.len() == 0 {
        arbitrary()
    } else if !valid_header_name(s.first().0@) {
        ConnectionInitError::InvalidHeaderName
    } else if !valid_header_value(s.first().1@) {
        ConnectionInitError::InvalidHeaderValue
    } else {
        first_parse_error(s.drop_first())
    }
}

/// Locates `first_parse_error` at the first unacceptable entry.
proof fn lemma_first_error_at(s: Seq<(String, String)>, i: int)
    requires
        0 <= i < s.len(),
        forall|j: int| 0 <= j < i ==> entry_ok(#[trigger] s[j]),
        !entry_ok(s[i]),
    ensures
        !entries_ok(s),
        first_parse_error(s) == if !valid_header_name(s[i].0@) {
            ConnectionInitError::InvalidHeaderName
        } else {
            ConnectionInitError::InvalidHeaderValue
        },
    decreases i,
{
    if i == 0 {
    } else {
        let rest = s.drop_first();
        assert forall|j: int| 0 <= j < i - 1 implies entry_ok(#[trigger] rest[j]) by {
            assert(rest[j] == s[j + 1]);
        }
        assert(rest[i - 1] == s[i]);
        lemma_first_error_at(rest, i - 1);
        assert(entry_ok(s[0]));
    }
}

/// A malformed payload is rejected with one of the two header errors, never
/// with anything else.
pub proof fn lemma_first_parse_error_kind(s: Seq<(String, String)>)
    requires
        !entries_ok(s),
    ensures
        first_parse_error(s) == ConnectionInitError::InvalidHeaderName || first_parse_error(s)
            == ConnectionInitError::InvalidHeaderValue,
    decreases s.len(),
{
    if s.len() == 0 {
        assert(entries_ok(s));
    } else if !entry_ok(s.first()) {
        assert(s.first() == s[0]);
    } else {
        let rest = s.drop_first();
        assert(!entries_ok(rest)) by {
            if entries_ok(rest) {
                assert forall|j: int| 0 <= j < s.len() implies entry_ok(#[trigger] s[j]) by {
                    if j == 0 {
                        assert(s[0] == s.first());
                    } else {
                        assert(rest[j - 1] == s[j]);
                    }
                }
            }
        }
        lemma_first_parse_error_kind(rest);
    }
}

/// Parses the client-declared payload entries into a header set.
///
/// The call succeeds exactly when every entry carries a valid name and a
/// valid value, and then yields the map the payload denotes. Otherwise it
/// fails with the error of the first unacceptable entry, and no merging or
/// authentication can follow.
pub fn parse_headers(entries: Vec<(String, String)>) -> (r: Result<Headers, ConnectionInitError>)
    ensures
        r is Ok <==> entries_ok(entries@),
        r matches Ok(h) ==> h.wf() && h@ == parsed_map(entries@),
        r matches Err(e) ==> e == first_parse_error(entries@),
{
    let n: usize = entries.len();
    let mut h = Headers::new();
    let mut i: usize = 0;
    proof {
        assert(entries@.take(0) =~= Seq::<(String, String)>::empty());
    }
    while i < n
        invariant
            n == entries@.len(),
            i <= n,
            h.wf(),
            h@ == parsed_map(entries@.take(i as int)),
            forall|j: int| 0 <= j < i ==> entry_ok(#[trigger] entries@[j]),
        decreases n - i,
    {
        let name = match parse_header_name(&entries[i].0) {
            Some(name) => name,
            None => {
                proof {
                    lemma_first_error_at(entries@, i as int);
                }
                return Err(ConnectionInitError::InvalidHeaderName);
            },
        };
        if !header_value_ok(&entries[i].1) {
            proof {
                lemma_first_error_at(entries@, i as int);
            }
            return Err(ConnectionInitError::InvalidHeaderValue);
        }
        let value = entries[i].1.clone();
        proof {
            lemma_lower_canonical(entries@[i as int].0@);
        }
        h.insert(name, value);
        proof {
            let stepped = entries@.take(i as int + 1);
            assert(stepped.drop_last() =~= entries@.take(i as int));
            assert(stepped.last() == entries@[i as int]);
        }
        i += 1;
    }
    proof {
        assert(entries@.take(n as int) =~= entries@);
    }
    Ok(h)
}

/// The payload entries an optional payload carries.
pub open spec fn payload_entries(payload: Option<InitPayload>) -> Option<Seq<(String, String)>> {
    match payload {
        Some(p) => Some(p.headers@),
        None => None,
    }
}

/// A syntactically acceptable optional payload; an absent payload is
/// acceptable.
pub open spec fn payload_ok(payload: Option<Seq<(String, String)>>) -> bool {
    match payload {
        Some(s) => entries_ok(s),
        None => true,
    }
}

/// The effective headers of a connection: the payload headers (an empty set
/// when the payload is absent) with every handshake header inserted over
/// them, so that on any shared name the handshake value wins.
pub open spec fn effective_headers(
    handshake: Map<Seq<char>, Seq<char>>,
    payload: Option<Seq<(String, String)>>,
) -> Map<Seq<char>, Seq<char>> {
    match payload {
        Some(s) => parsed_map(s).union_prefer_right(handshake),
        None => handshake,
    }
}

/// What one initialization attempt decides before any collaborator is
/// consulted: a duplicate attempt is rejected outright; a malformed payload
/// is rejected with its parse error; otherwise the attempt may proceed with
/// the effective headers.
pub open spec fn initialize_spec<S>(
    state: ConnectionInitState<S>,
    handshake: Map<Seq<char>, Seq<char>>,
    payload: Option<Seq<(String, String)>>,
) -> Result<Map<Seq<char>, Seq<char>>, ConnectionInitError> {
    if state is Initialized {
        Err(ConnectionInitError::AlreadyInitialized)
    } else if !payload_ok(payload) {
        Err(first_parse_error(payload->0))
    } else {
        Ok(effective_headers(handshake, payload))
    }
}

/// Validates and merges one initialization attempt, before authentication.
///
/// On an already-initialized connection this fails immediately with
/// [`ConnectionInitError::AlreadyInitialized`]: no parsing and no merging is
/// done for a duplicate attempt. Otherwise the payload is parsed and merged
/// under the handshake headers; the resulting effective headers are what the
/// authenticator and authorizer must then be consulted with.
pub fn initialize<S>(
    state: &ConnectionInitState<S>,
    handshake_headers: &Headers,
    payload: Option<InitPayload>,
) -> (r: Result<Headers, ConnectionInitError>)
    requires
        handshake_headers.wf(),
    ensures
        r matches Ok(h) ==> h.wf() && (initialize_spec(
            *state,
            handshake_headers@,
            payload_entries(payload),
        ) matches Ok(m) && h@ == m),
        r matches Err(e) ==> (initialize_spec(
            *state,
            handshake_headers@,
            payload_entries(payload),
        ) matches Err(e2) && e == e2),
{
    match state {
        ConnectionInitState::Initialized { .. } => Err(ConnectionInitError::AlreadyInitialized),
        ConnectionInitState::NotInitialized => {
            let parsed = match payload {
                Some(p) => parse_headers(p.headers),
                None => Ok(Headers::new()),
            };
            match parsed {
                Ok(h) => {
                    let merged = merge(h, handshake_headers);
                    proof {
                        assert(Map::<Seq<char>, Seq<char>>::empty().union_prefer_right(
                            handshake_headers@,
                        ) =~= handshake_headers@);
                    }
                    Ok(merged)
                },
                Err(e) => Err(e),
            }
        },
    }
}

/// The classifier's mapping: a duplicate initialization is answered with the
/// too-many-initialization-requests signal; every other failure with the
/// generic forbidden signal.
pub open spec fn classify_spec(e: ConnectionInitError) -> ServerResponse {
    if e is AlreadyInitialized {
        ServerResponse::TooManyInitRequests
    } else {
        ServerResponse::Forbidden
    }
}

/// Collapses the internal error taxonomy into the two wire-visible signals.
pub fn classify(e: &ConnectionInitError) -> (r: ServerResponse)
    ensures
        r == classify_spec(*e),
{
    match e {
        ConnectionInitError::AlreadyInitialized => ServerResponse::TooManyInitRequests,
        _ => ServerResponse::Forbidden,
    }
}

/// The state after one attempt is applied: only a successful attempt on a
/// not-yet-initialized connection transitions; everything else leaves the
/// state exactly as it was.
pub open spec fn next_state<S>(
    state: ConnectionInitState<S>,
    result: Result<(S, Headers), ConnectionInitError>,
) -> ConnectionInitState<S> {
    match result {
        Ok(p) => if state is NotInitialized {
            ConnectionInitState::Initialized { session: p.0, headers: p.1 }
        } else {
            state
        },
        Err(_) => state,
    }
}

/// The signal one attempt is answered with: an attempt on an initialized
/// connection is always answered with the too-many-initialization-requests
/// signal, a successful first attempt with the acknowledgment, and a failed
/// one with its classified error.
pub open spec fn init_response<S>(
    state: ConnectionInitState<S>,
    result: Result<(S, Headers), ConnectionInitError>,
) -> ServerResponse {
    if state is Initialized {
        ServerResponse::TooManyInitRequests
    } else {
        match result {
            Ok(_) => ServerResponse::ConnectionAck,
            Err(e) => classify_spec(e),
        }
    }
}

/// Applies the outcome of one initialization attempt to the connection state
/// and picks the outbound signal.
///
/// The attempt's outcome is the initializer's result, carried through the
/// authenticate/authorize round trip: a session and the effective headers on
/// success, the initializer's or a collaborator's error otherwise. Whatever
/// the outcome, an already-initialized connection is never overwritten.
pub fn apply_init_result<S>(
    state: &mut ConnectionInitState<S>,
    result: Result<(S, Headers), ConnectionInitError>,
) -> (r: ServerResponse)
    ensures
        *final(state) == next_state(*old(state), result),
        r == init_response(*old(state), result),
{
    match state {
        ConnectionInitState::Initialized { .. } => ServerResponse::TooManyInitRequests,
        ConnectionInitState::NotInitialized => match result {
            Ok((session, headers)) => {
                *state = ConnectionInitState::Initialized { session, headers };
                ServerResponse::ConnectionAck
            },
            Err(e) => classify(&e),
        },
    }
}

/// Whatever state an attempt leaves behind is well-formed, provided the
/// attempt's headers were: an `Initialized` state never holds malformed
/// headers.
pub open spec fn state_wf<S>(state: ConnectionInitState<S>) -> bool {
    match state {
        ConnectionInitState::NotInitialized => true,
        ConnectionInitState::Initialized { headers, .. } => headers.wf(),
    }
}

/// Applying an attempt whose headers are well-formed preserves state
/// well-formedness.
pub proof fn lemma_next_state_wf<S>(
    state: ConnectionInitState<S>,
    result: Result<(S, Headers), ConnectionInitError>,
)
    requires
        state_wf(state),
        result matches Ok(p) ==> p.1.wf(),
    ensures
        state_wf(next_state(state, result)),
{
}

/// Trust ordering of the two header sources: any name bound by the handshake
/// headers is bound to the handshake value in the effective headers, whatever
/// the payload declared for it.
pub proof fn lemma_handshake_wins(
    handshake: Map<Seq<char>, Seq<char>>,
    payload: Option<Seq<(String, String)>>,
    name: Seq<char>,
)
    requires
        handshake.contains_key(name),
    ensures
        effective_headers(handshake, payload).contains_key(name),
        effective_headers(handshake, payload)[name] == handshake[name],
{
}

/// A first initialization attempt: from `NotInitialized`, a well-formed
/// payload passes validation and merging, and any successful outcome of the
/// authenticate/authorize round trip transitions the connection and is
/// acknowledged.
pub proof fn lemma_first_init_succeeds<S>(
    state: ConnectionInitState<S>,
    handshake: Map<Seq<char>, Seq<char>>,
    payload: Option<Seq<(String, String)>>,
    session: S,
    headers: Headers,
)
    requires
        state is NotInitialized,
        payload_ok(payload),
    ensures
        initialize_spec(state, handshake, payload) == Result::<
            Map<Seq<char>, Seq<char>>,
            ConnectionInitError,
        >::Ok(effective_headers(handshake, payload)),
        next_state(state, Result::<(S, Headers), ConnectionInitError>::Ok((session, headers)))
            == (ConnectionInitState::Initialized { session, headers }),
        init_response(state, Result::<(S, Headers), ConnectionInitError>::Ok((session, headers)))
            == ServerResponse::ConnectionAck,
{
}

/// An absent payload: initialization proceeds with exactly the handshake
/// headers as the effective set.
pub proof fn lemma_absent_payload<S>(
    state: ConnectionInitState<S>,
    handshake: Map<Seq<char>, Seq<char>>,
)
    requires
        state is NotInitialized,
    ensures
        initialize_spec::<S>(state, handshake, None) == Result::<
            Map<Seq<char>, Seq<char>>,
            ConnectionInitError,
        >::Ok(handshake),
{
}

/// An initialized connection is terminal: a further attempt is rejected by
/// the initializer before any parsing, and whatever outcome is applied, the
/// session and headers stay exactly as the first successful attempt set
/// them, and the answer is the too-many-initialization-requests signal.
pub proof fn lemma_initialized_is_terminal<S>(
    state: ConnectionInitState<S>,
    handshake: Map<Seq<char>, Seq<char>>,
    payload: Option<Seq<(String, String)>>,
    result: Result<(S, Headers), ConnectionInitError>,
)
    requires
        state is Initialized,
    ensures
        initialize_spec(state, handshake, payload) == Result::<
            Map<Seq<char>, Seq<char>>,
            ConnectionInitError,
        >::Err(ConnectionInitError::AlreadyInitialized),
        next_state(state, result) == state,
        init_response(state, result) == ServerResponse::TooManyInitRequests,
{
}

/// A malformed payload fails the attempt before the authenticator can be
/// consulted: the initializer rejects it with a header error — never with
/// `AlreadyInitialized` — so the wire answer is the generic forbidden
/// signal, and a failed attempt leaves the state untouched.
pub proof fn lemma_malformed_payload_forbidden<S>(
    state: ConnectionInitState<S>,
    handshake: Map<Seq<char>, Seq<char>>,
    entries: Seq<(String, String)>,
)
    requires
        state is NotInitialized,
        !entries_ok(entries),
    ensures
        initialize_spec::<S>(state, handshake, Some(entries)) matches Err(e) && e
            != ConnectionInitError::AlreadyInitialized && classify_spec(e)
            == ServerResponse::Forbidden,
        forall|result: Result<(S, Headers), ConnectionInitError>|
            result is Err ==> #[trigger] next_state(state, result) == state,
{
    lemma_first_parse_error_kind(entries);
}

/// Failures are opaque on the wire: any two failures other than a duplicate
/// initialization are answered with one and the same signal, so the answer
/// carries nothing of the underlying cause.
pub proof fn lemma_failure_opaque(e1: ConnectionInitError, e2: ConnectionInitError)
    requires
        !(e1 is AlreadyInitialized),
        !(e2 is AlreadyInitialized),
    ensures
        classify_spec(e1) == classify_spec(e2),
        classify_spec(e1) == ServerResponse::Forbidden,
{
}

/// Two attempts on the same connection, applied back to back under the
/// state cell's exclusive access, produce at most one acknowledgment; and
/// once the first is acknowledged, the second leaves the state exactly as
/// the first set it and is answered with the
/// too-many-initialization-requests signal.
pub proof fn lemma_at_most_one_ack<S>(
    s0: ConnectionInitState<S>,
    r1: Result<(S, Headers), ConnectionInitError>,
    r2: Result<(S, Headers), ConnectionInitError>,
)
    ensures
        !(init_response(s0, r1) == ServerResponse::ConnectionAck && init_response(
            next_state(s0, r1),
            r2,
        ) == ServerResponse::ConnectionAck),
        init_response(s0, r1) == ServerResponse::ConnectionAck ==> {
            &&& next_state(s0, r1) is Initialized
            &&& next_state(next_state(s0, r1), r2) == next_state(s0, r1)
            &&& init_response(next_state(s0, r1), r2) == ServerResponse::TooManyInitRequests
        },
{
}

} // verus!
