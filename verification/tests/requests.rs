use beankey::{Admission, RefusalCode, RequestKind, SessionOrder};

#[test]
fn isolates_sessions_and_rejects_out_of_order_requests() {
    let mut sessions = SessionOrder::new();
    assert_eq!(sessions.decide(2, "default", Some(RequestKind::StartSession)), Admission::Start);
    sessions.start(2, "default");
    assert_eq!(
        sessions.decide(1, "default", Some(RequestKind::SessionRequest)),
        Admission::Refused(RefusalCode::OutOfOrderRequest)
    );
    assert_eq!(sessions.last_request("default"), Some(2));
    assert_eq!(sessions.decide(1, "other", Some(RequestKind::StartSession)), Admission::Start);
    sessions.start(1, "other");
    assert_eq!(sessions.last_request("other"), Some(1));
    assert_eq!(sessions.last_request("default"), Some(2));
}

#[test]
fn routes_requests_by_session_state() {
    let mut sessions = SessionOrder::new();
    assert_eq!(
        sessions.decide(1, "s", Some(RequestKind::SessionRequest)),
        Admission::Refused(RefusalCode::UnknownSession)
    );
    assert_eq!(sessions.decide(1, "s", None), Admission::Refused(RefusalCode::InvalidPayload));
    assert_eq!(
        sessions.decide(1, "s", Some(RequestKind::Response)),
        Admission::Refused(RefusalCode::InvalidPayload)
    );
    sessions.start(1, "s");
    assert_eq!(
        sessions.decide(1, "s", Some(RequestKind::StartSession)),
        Admission::Refused(RefusalCode::OutOfOrderRequest)
    );
    assert_eq!(sessions.decide(3, "s", Some(RequestKind::SessionRequest)), Admission::Proceed);
    assert_eq!(sessions.last_request("s"), Some(3));
    assert_eq!(sessions.decide(4, "s", Some(RequestKind::EndSession)), Admission::End);
    assert_eq!(sessions.last_request("s"), None);
    sessions.start(7, "t");
    sessions.remove("t");
    assert_eq!(sessions.last_request("t"), None);
}
