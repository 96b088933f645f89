use televery::bindings::{BindOutcome, BindingStore};
use televery::codec::{FramePoll, Frames};
use televery::router::{PolicyError, Reply, Router, Submission};
use televery::tag::{callback_tag, Decision};

fn names(v: &[&str]) -> Vec<String> {
    v.iter().map(|s| s.to_string()).collect()
}

fn router() -> Router {
    Router::new(names(&["testapp"]), names(&["alice", "bob"]), 60)
}

/// Reads one request from `line` and submits it for connection `conn`.
fn submit_line(r: &mut Router, line: &[u8], conn: u64, now: u64) -> Submission {
    let mut f = Frames::new();
    f.read_off(line);
    match f.poll(false) {
        Ok(FramePoll::Ready(q)) => r.submit(q.appname, q.method, conn, now),
        other => panic!("no request: {:?}", other),
    }
}

#[test]
fn approver_passes_request() {
    let mut r = router();
    assert_eq!(r.bind(Some("alice".to_string()), 1001), BindOutcome::Bound);
    let s = submit_line(&mut r, b"REQ testapp\n", 7, 100);
    let token = match s {
        Submission::Notify { token, targets } => {
            assert_eq!(targets, vec![1001]);
            token
        }
        other => panic!("not notified: {:?}", other),
    };
    assert!(r.is_pending(token));
    let reply = r.decide(&callback_tag(token, Decision::Allow));
    assert_eq!(reply, Some(Reply { conn: 7, decision: Decision::Allow }));
    assert_eq!(reply.unwrap().decision.response_line(), "ALLOW\n");
    assert!(!r.is_pending(token));
    assert_eq!(r.pending_count(), 0);
}

#[test]
fn approver_denies_request() {
    let mut r = router();
    r.bind(Some("bob".to_string()), 2002);
    let token = match r.submit("testapp".to_string(), "REQ".to_string(), 3, 0) {
        Submission::Notify { token, .. } => token,
        other => panic!("not notified: {:?}", other),
    };
    assert_eq!(r.decide(&callback_tag(token, Decision::Deny)), Some(Reply { conn: 3, decision: Decision::Deny }));
}

#[test]
fn second_decision_is_ignored() {
    let mut r = router();
    r.bind(Some("alice".to_string()), 1001);
    let token = match r.submit("testapp".to_string(), "REQ".to_string(), 7, 0) {
        Submission::Notify { token, .. } => token,
        other => panic!("not notified: {:?}", other),
    };
    assert!(r.decide(&callback_tag(token, Decision::Allow)).is_some());
    assert_eq!(r.decide(&callback_tag(token, Decision::Deny)), None);
    assert_eq!(r.decide(&callback_tag(token, Decision::Allow)), None);
    assert_eq!(r.pending_count(), 0);
}

#[test]
fn no_binding_denies_without_prompt() {
    let mut r = router();
    let s = submit_line(&mut r, b"REQ testapp\n", 7, 0);
    assert_eq!(s, Submission::Denied(PolicyError::NoApprover));
    assert_eq!(Decision::Deny.response_line(), "DENY\n");
    assert_eq!(r.pending_count(), 0);
}

#[test]
fn untrusted_sender_is_rejected() {
    let mut r = router();
    assert_eq!(r.bind(Some("mallory".to_string()), 666), BindOutcome::Rejected);
    assert_eq!(r.submit("testapp".to_string(), "REQ".to_string(), 1, 0), Submission::Denied(PolicyError::NoApprover));
    r.bind(Some("alice".to_string()), 1001);
    match r.submit("testapp".to_string(), "REQ".to_string(), 1, 0) {
        Submission::Notify { targets, .. } => assert_eq!(targets, vec![1001]),
        other => panic!("not notified: {:?}", other),
    }
}

#[test]
fn sender_without_identity_is_anonymous() {
    let mut r = router();
    assert_eq!(r.bind(None, 5), BindOutcome::Anonymous);
    assert_eq!(r.submit("testapp".to_string(), "REQ".to_string(), 1, 0), Submission::Denied(PolicyError::NoApprover));
}

#[test]
fn untrusted_app_is_denied() {
    let mut r = router();
    r.bind(Some("alice".to_string()), 1001);
    assert_eq!(r.submit("otherapp".to_string(), "REQ".to_string(), 1, 0), Submission::Denied(PolicyError::UntrustedApp));
    assert_eq!(r.pending_count(), 0);
}

#[test]
fn deadline_denies_and_late_decision_is_ignored() {
    let mut r = router();
    r.bind(Some("alice".to_string()), 1001);
    let token = match r.submit("testapp".to_string(), "REQ".to_string(), 9, 100) {
        Submission::Notify { token, .. } => token,
        other => panic!("not notified: {:?}", other),
    };
    assert_eq!(r.expire(159), Vec::<Reply>::new());
    assert!(r.is_pending(token));
    assert_eq!(r.expire(160), vec![Reply { conn: 9, decision: Decision::Deny }]);
    assert!(!r.is_pending(token));
    assert_eq!(r.decide(&callback_tag(token, Decision::Allow)), None);
    assert_eq!(r.expire(1000), Vec::<Reply>::new());
}

#[test]
fn expiry_keeps_requests_not_yet_due() {
    let mut r = router();
    r.bind(Some("alice".to_string()), 1001);
    let first = match r.submit("testapp".to_string(), "REQ".to_string(), 1, 0) {
        Submission::Notify { token, .. } => token,
        other => panic!("not notified: {:?}", other),
    };
    let second = match r.submit("testapp".to_string(), "REQ".to_string(), 2, 30) {
        Submission::Notify { token, .. } => token,
        other => panic!("not notified: {:?}", other),
    };
    assert_ne!(first, second);
    assert_eq!(r.expire(70), vec![Reply { conn: 1, decision: Decision::Deny }]);
    assert_eq!(r.pending_count(), 1);
    assert_eq!(r.decide(&callback_tag(second, Decision::Allow)), Some(Reply { conn: 2, decision: Decision::Allow }));
}

#[test]
fn unknown_or_malformed_callback_is_ignored() {
    let mut r = router();
    r.bind(Some("alice".to_string()), 1001);
    r.submit("testapp".to_string(), "REQ".to_string(), 1, 0);
    assert_eq!(r.decide(b"99,0"), None);
    assert_eq!(r.decide(b"garbage"), None);
    assert_eq!(r.pending_count(), 1);
}

#[test]
fn every_bound_approver_is_prompted() {
    let mut r = router();
    r.bind(Some("alice".to_string()), 1001);
    r.bind(Some("bob".to_string()), 2002);
    match r.submit("testapp".to_string(), "REQ".to_string(), 1, 0) {
        Submission::Notify { targets, .. } => assert_eq!(targets, vec![1001, 2002]),
        other => panic!("not notified: {:?}", other),
    }
}

#[test]
fn latest_binding_wins() {
    let mut s = BindingStore::new(names(&["alice"]));
    assert_eq!(s.bind(Some("alice".to_string()), 1), BindOutcome::Bound);
    assert_eq!(s.bind(Some("alice".to_string()), 2), BindOutcome::Bound);
    assert_eq!(s.targets(), vec![2]);
    assert_eq!(s.target_of(&"alice".to_string()), Some(2));
    assert_eq!(s.target_of(&"bob".to_string()), None);
    assert!(s.is_trusted(&"alice".to_string()));
    assert!(!s.is_trusted(&"bob".to_string()));
}
