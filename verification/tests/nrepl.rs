use nreplops_tool::error::Error;
use nreplops_tool::nrepl::{
    close_id, close_reply, eval_id, eval_reply, new_session_of, take_message, wire_position, Op,
    WireResponse,
};

fn response(id: Option<&str>, status: &[&str]) -> WireResponse {
    WireResponse {
        session: "s".to_string(),
        id: id.map(|s| s.to_string()),
        status: if status.is_empty() {
            None
        } else {
            Some(status.iter().map(|s| s.to_string()).collect())
        },
        new_session: None,
        value: Some("42".to_string()),
        ex: None,
        root_ex: None,
        out: None,
        err: None,
    }
}

#[test]
fn op_names() {
    assert_eq!(Op::Clone.as_str(), "clone");
    assert_eq!(Op::Close.as_str(), "close");
    assert_eq!(Op::Eval.as_str(), "eval");
}

#[test]
fn responses_are_matched_by_id_and_status() {
    let r = response(Some("s:1"), &["done"]);
    assert!(r.matches("s:1"));
    assert!(!r.matches("s:2"));
    assert!(r.has_status("done"));
    assert!(!r.has_status("session-closed"));
    assert!(!response(None, &[]).matches("s:1"));
    assert!(!response(Some("s:1"), &[]).has_status("done"));
}

#[test]
fn evaluation_reads_until_done() {
    assert_eq!(eval_reply(&response(Some("x"), &[]), "s:1"), (false, true));
    assert_eq!(eval_reply(&response(Some("s:1"), &[]), "s:1"), (true, true));
    assert_eq!(eval_reply(&response(Some("s:1"), &["done"]), "s:1"), (true, false));
    assert!(close_reply(&response(Some("c"), &["session-closed"]), "c"));
    assert!(!close_reply(&response(Some("c"), &["done"]), "c"));
    let r = response(Some("s:1"), &[]);
    assert_eq!(r.response().value, Some("42"));
}

#[test]
fn new_session_needs_the_field() {
    let mut r = response(None, &[]);
    assert_eq!(new_session_of(&r), Err(Error::UnexptectedResponse));
    r.new_session = Some("abc".to_string());
    assert_eq!(new_session_of(&r), Ok("abc".to_string()));
}

#[test]
fn messages_are_cut_off_the_buffer() {
    let mut buffer = b"i1ei2".to_vec();
    assert_eq!(take_message(&mut buffer), Ok(Some(b"i1e".to_vec())));
    assert_eq!(buffer, b"i2".to_vec());
    assert_eq!(take_message(&mut buffer), Ok(None));
    assert_eq!(buffer, b"i2".to_vec());
    let mut bad = b"x".to_vec();
    assert_eq!(take_message(&mut bad), Err(Error::CorruptedResponse));
    assert_eq!(bad, b"x".to_vec());
}

#[test]
fn request_ids_name_the_session() {
    assert_eq!(eval_id("abc", 1), "abc:1");
    assert_eq!(eval_id("abc", 1203), "abc:1203");
    assert_eq!(eval_id("", 0), ":0");
    assert_eq!(close_id("abc"), "abc:close");
}

#[test]
fn positions_too_large_for_the_wire_become_zero() {
    assert_eq!(wire_position(None), None);
    assert_eq!(wire_position(Some(1)), Some(1));
    assert_eq!(wire_position(Some(2147483647)), Some(2147483647));
    assert_eq!(wire_position(Some(2147483648)), Some(0));
}

#[test]
fn errors_have_messages() {
    assert_eq!(Error::NoInput.message(), "No input");
    assert_eq!(Error::NotFound("x.clj".to_string()).message(), "file x.clj not found");
    assert_eq!(Error::CannotParsePortFile("p".to_string()).message(), "bad port file p");
    assert_eq!(Error::StdInConflict.message(), "");
    assert_eq!(Error::PortFileTimeout.message(), "timeout while waiting for port file");
}
