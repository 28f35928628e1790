//! The order of requests within each session: which requests a session table admits,
//! which it refuses, and how it records them.
use vstd::prelude::*;

use crate::text::{distinct_keys, lemma_pairs_to_map, lemma_pairs_to_map_remove,
    lemma_pairs_to_map_update, pairs_to_map};

verus! {

/// What a request asks of the session it names.
#[derive(Clone, Copy, Debug, PartialEq, Eq, Structural)]
pub enum RequestKind {
    /// Starts the session, or starts it again.
    StartSession,
    /// Ends the session.
    EndSession,
    /// A response payload, which no client may send as a request.
    Response,
    /// Any other request on an open session.
    SessionRequest,
}

/// Why a request is refused.
#[derive(Clone, Copy, Debug, PartialEq, Eq, Structural)]
pub enum RefusalCode {
    InvalidPayload,
    UnknownSession,
    OutOfOrderRequest,
}

/// What the table decided on a request.
#[derive(Clone, Copy, Debug, PartialEq, Eq, Structural)]
pub enum Admission {
    /// The request is refused with this code and changes nothing.
    Refused(RefusalCode),
    /// The session may be started; it is recorded once its settings are accepted.
    Start,
    /// The session has ended and is forgotten.
    End,
    /// The request is recorded as the latest of its session and is handled.
    Proceed,
}

/// The decision on a request with identifier `request_id` for session `session`; `kind` is
/// `None` when the request carries no payload.
pub open spec fn admission(
    table: Map<Seq<char>, u64>,
    request_id: u64,
    session: Seq<char>,
    kind: Option<RequestKind>,
) -> Admission {
    match kind {
        None => Admission::Refused(RefusalCode::InvalidPayload),
        Some(RequestKind::Response) => Admission::Refused(RefusalCode::InvalidPayload),
        Some(RequestKind::StartSession) => if table.contains_key(session) && request_id
            <= table[session] {
            Admission::Refused(RefusalCode::OutOfOrderRequest)
        } else {
            Admission::Start
        },
        Some(k) => if !table.contains_key(session) {
            Admission::Refused(RefusalCode::UnknownSession)
        } else if request_id <= table[session] {
            Admission::Refused(RefusalCode::OutOfOrderRequest)
        } else if k == RequestKind::EndSession {
            Admission::End
        } else {
            Admission::Proceed
        },
    }
}

/// The table after the decision on a request.
pub open spec fn table_after(
    table: Map<Seq<char>, u64>,
    request_id: u64,
    session: Seq<char>,
    kind: Option<RequestKind>,
) -> Map<Seq<char>, u64> {
    match admission(table, request_id, session, kind) {
        Admission::End => table.remove(session),
        Admission::Proceed => table.insert(session, request_id),
        _ => table,
    }
}

spec fn order_view(v: Seq<(String, u64)>) -> Seq<(Seq<char>, u64)> {
    v.map_values(|e: (String, u64)| (e.0@, e.1))
}

/// The identifier of the latest request of each open session.
pub struct SessionOrder {
    last: Vec<(String, u64)>,
}

impl View for SessionOrder {
    type V = Map<Seq<char>, u64>;

    closed spec fn view(&self) -> Map<Seq<char>, u64> {
        pairs_to_map(order_view(self.last@))
    }
}

fn find_session(last: &Vec<(String, u64)>, session: &String) -> (r: Option<usize>)
    ensures
        match r {
            Some(j) => j < last@.len() && order_view(last@)[j as int].0 == session@,
            None => forall|k: int|
                0 <= k < last@.len() ==> (#[trigger] order_view(last@)[k]).0 != session@,
        },
{
    let mut j: usize = 0;
    while j < last.len()
        invariant
            j <= last@.len(),
            forall|k: int| 0 <= k < j ==> (#[trigger] order_view(last@)[k]).0 != session@,
        decreases last@.len() - j,
    {
        assert(order_view(last@)[j as int].0 == last@[j as int].0@);
        if last[j].0 == *session {
            return Some(j);
        }
        j = j + 1;
    }
    None
}

impl SessionOrder {
    /// No session is recorded twice.
    pub closed spec fn wf(&self) -> bool {
        distinct_keys(order_view(self.last@))
    }

    /// A table with no open session.
    pub fn new() -> (r: SessionOrder)
        ensures
            r.wf(),
            r@ == Map::<Seq<char>, u64>::empty(),
    {
        let r = SessionOrder { last: Vec::new() };
        assert(order_view(r.last@) =~= Seq::<(Seq<char>, u64)>::empty());
        r
    }

    /// The identifier of the latest request of the session, if it is open.
    pub fn last_request(&self, session: &str) -> (r: Option<u64>)
        requires
            self.wf(),
        ensures
            match r {
                Some(id) => self@.contains_key(session@) && self@[session@] == id,
                None => !self@.contains_key(session@),
            },
    {
        let ghost s = order_view(self.last@);
        let key = session.to_owned();
        proof {
            lemma_pairs_to_map(s);
        }
        match find_session(&self.last, &key) {
            Some(j) => {
                assert(s[j as int] == (self.last@[j as int].0@, self.last@[j as int].1));
                assert(pairs_to_map(s).contains_key(s[j as int].0));
                Some(self.last[j].1)
            },
            None => None,
        }
    }

    /// Decides on a request and records what it changes: a request without payload or with
    /// a response payload is refused as invalid; one for a session that is not open (other
    /// than a start) as unknown; one whose identifier is not greater than the latest of its
    /// session as out of order. An accepted end forgets the session; any other accepted
    /// request on an open session becomes its latest.
    pub fn decide(&mut self, request_id: u64, session: &str, kind: Option<RequestKind>) -> (r:
        Admission)
        requires
            old(self).wf(),
        ensures
            final(self).wf(),
            r == admission(old(self)@, request_id, session@, kind),
            final(self)@ == table_after(old(self)@, request_id, session@, kind),
    {
        let ghost s = order_view(self.last@);
        proof {
            lemma_pairs_to_map(s);
        }
        let key = session.to_owned();
        let found = find_session(&self.last, &key);
        let last: Option<u64> = match found {
            Some(j) => {
                assert(s[j as int] == (self.last@[j as int].0@, self.last@[j as int].1));
                Some(self.last[j].1)
            },
            None => None,
        };
        assert(last is Some <==> self@.contains_key(session@));
        assert(last matches Some(v) ==> v == self@[session@]);
        match kind {
            None => Admission::Refused(RefusalCode::InvalidPayload),
            Some(RequestKind::Response) => Admission::Refused(RefusalCode::InvalidPayload),
            Some(RequestKind::StartSession) => match last {
                Some(previous) => if request_id <= previous {
                    Admission::Refused(RefusalCode::OutOfOrderRequest)
                } else {
                    Admission::Start
                },
                None => Admission::Start,
            },
            Some(k) => {
                match found {
                    None => Admission::Refused(RefusalCode::UnknownSession),
                    Some(j) => {
                        if request_id <= self.last[j].1 {
                            return Admission::Refused(RefusalCode::OutOfOrderRequest);
                        }
                        if k == RequestKind::EndSession {
                            proof {
                                lemma_pairs_to_map_remove(s, j as int);
                            }
                            let _ = self.last.remove(j);
                            assert(order_view(self.last@) =~= s.remove(j as int));
                            Admission::End
                        } else {
                            proof {
                                lemma_pairs_to_map_update(s, j as int, request_id);
                            }
                            let entry = (key, request_id);
                            self.last.set(j, entry);
                            assert(order_view(self.last@) =~= s.update(
                                j as int,
                                (s[j as int].0, request_id),
                            ));
                            proof {
                                let u = s.update(j as int, (s[j as int].0, request_id));
                                assert forall|a: int, b: int| 0 <= a < b < u.len() implies (
                                #[trigger] u[a]).0 != (#[trigger] u[b]).0 by {
                                    assert(u[a].0 == s[a].0 && u[b].0 == s[b].0);
                                }
                            }
                            Admission::Proceed
                        }
                    },
                }
            },
        }
    }

    /// Records an accepted start: the session is open with this request as its latest.
    pub fn start(&mut self, request_id: u64, session: &str)
        requires
            old(self).wf(),
        ensures
            final(self).wf(),
            final(self)@ == old(self)@.insert(session@, request_id),
    {
        let ghost s = order_view(self.last@);
        proof {
            lemma_pairs_to_map(s);
        }
        let key = session.to_owned();
        match find_session(&self.last, &key) {
            Some(j) => {
                proof {
                    lemma_pairs_to_map_update(s, j as int, request_id);
                }
                self.last.set(j, (key, request_id));
                assert(order_view(self.last@) =~= s.update(j as int, (s[j as int].0, request_id)));
                proof {
                    let u = s.update(j as int, (s[j as int].0, request_id));
                    assert forall|a: int, b: int| 0 <= a < b < u.len() implies (#[trigger] u[a]).0
                        != (#[trigger] u[b]).0 by {
                        assert(u[a].0 == s[a].0 && u[b].0 == s[b].0);
                    }
                }
            },
            None => {
                self.last.push((key, request_id));
                assert(order_view(self.last@) =~= s.push((session@, request_id)));
                assert(order_view(self.last@).drop_last() == s);
                proof {
                    let u = s.push((session@, request_id));
                    assert forall|a: int, b: int| 0 <= a < b < u.len() implies (#[trigger] u[a]).0
                        != (#[trigger] u[b]).0 by {
                        if b == s.len() {
                            assert(u[a] == s[a]);
                        } else {
                            assert(u[a] == s[a] && u[b] == s[b]);
                        }
                    }
                }
            },
        }
    }

    /// Forgets a session, as when its connection closes.
    pub fn remove(&mut self, session: &str)
        requires
            old(self).wf(),
        ensures
            final(self).wf(),
            final(self)@ == old(self)@.remove(session@),
    {
        let ghost s = order_view(self.last@);
        proof {
            lemma_pairs_to_map(s);
        }
        let key = session.to_owned();
        match find_session(&self.last, &key) {
            Some(j) => {
                proof {
                    lemma_pairs_to_map_remove(s, j as int);
                }
                let _ = self.last.remove(j);
                assert(order_view(self.last@) =~= s.remove(j as int));
            },
            None => {
                assert(self@ =~= self@.remove(session@));
            },
        }
    }
}

/// A request whose identifier is not greater than the latest of its open session is refused
/// as out of order, whatever it asks, and changes nothing.
pub proof fn lemma_out_of_order_refused(
    table: Map<Seq<char>, u64>,
    request_id: u64,
    session: Seq<char>,
    kind: RequestKind,
)
    requires
        table.contains_key(session),
        request_id <= table[session],
        kind != RequestKind::Response,
    ensures
        admission(table, request_id, session, Some(kind)) == Admission::Refused(
            RefusalCode::OutOfOrderRequest,
        ),
        table_after(table, request_id, session, Some(kind)) == table,
{
}

/// Sessions are isolated: a request for one session leaves every other session as it was.
pub proof fn lemma_sessions_isolated(
    table: Map<Seq<char>, u64>,
    request_id: u64,
    session: Seq<char>,
    kind: Option<RequestKind>,
    other: Seq<char>,
)
    requires
        other != session,
    ensures
        table_after(table, request_id, session, kind).contains_key(other) == table.contains_key(
            other,
        ),
        table.contains_key(other) ==> table_after(table, request_id, session, kind)[other]
            == table[other],
{
}

/// A refused request changes nothing, and an accepted one on an open session raises its
/// latest identifier.
pub proof fn lemma_admitted_requests_increase(
    table: Map<Seq<char>, u64>,
    request_id: u64,
    session: Seq<char>,
    kind: Option<RequestKind>,
)
    ensures
        admission(table, request_id, session, kind) is Refused ==> table_after(
            table,
            request_id,
            session,
            kind,
        ) == table,
        admission(table, request_id, session, kind) == Admission::Proceed ==> table[session]
            < request_id && table_after(table, request_id, session, kind)[session] == request_id,
{
}

} // verus!
