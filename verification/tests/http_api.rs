use mesos_client::codec::{encode_frame, CodecError};
use mesos_client::http_api::{dispatch_buffer, Error, HttpApi, HttpHandler};
use std::cell::RefCell;

#[test]
fn request_url_joins_scheme_destination_and_endpoint() {
    let api = HttpApi::new("/api/v1/scheduler").unwrap();
    let url = api.request_url("10.0.0.5:5050");
    assert_eq!(url, "http://10.0.0.5:5050/api/v1/scheduler");
}

#[test]
fn send_succeeds_only_on_accepted() {
    let api = HttpApi::new("/api/v1/scheduler").unwrap();
    assert!(api.send_outcome(202, String::new()).is_ok());
    for status in [200u16, 201, 204, 400, 404, 500, 503] {
        match api.send_outcome(status, format!("status {}", status)) {
            Err(Error::Status(code, _)) => assert_eq!(code, status),
            other => panic!("expected a status error, got {:?}", other),
        }
    }
}

#[test]
fn headers_without_token() {
    let api = HttpApi::new("/api/v1/scheduler").unwrap();
    let headers = api.request_headers();
    assert_eq!(headers.len(), 2);
    assert_eq!(headers[0].0, "Accept");
    assert_eq!(headers[0].1, "application/x-protobuf");
    assert_eq!(headers[1].0, "Content-Type");
    assert_eq!(headers[1].1, "application/x-protobuf");
}

#[test]
fn subscribe_captures_stream_id_for_later_sends() {
    let mut api = HttpApi::new("/api/v1/scheduler").unwrap();
    let outcome = api.subscribe_outcome(200, Some("abc123".to_string()), String::new());
    assert!(outcome.is_ok());
    let headers = api.request_headers();
    assert_eq!(headers.len(), 3);
    assert_eq!(headers[2].0, "Mesos-Stream-Id");
    assert_eq!(headers[2].1, "abc123");
}

#[test]
fn subscribe_without_token_header_keeps_none() {
    let mut api = HttpApi::new("/api/v1/scheduler").unwrap();
    assert!(api.subscribe_outcome(200, None, String::new()).is_ok());
    assert_eq!(api.request_headers().len(), 2);
}

#[test]
fn subscribe_fails_on_other_status_and_keeps_state() {
    let mut api = HttpApi::new("/api/v1/scheduler").unwrap();
    match api.subscribe_outcome(503, Some("abc123".to_string()), "oops".to_string()) {
        Err(Error::Status(code, detail)) => {
            assert_eq!(code, 503);
            assert_eq!(detail, "oops");
        },
        other => panic!("expected a status error, got {:?}", other),
    }
    assert_eq!(api.request_headers().len(), 2);
}

struct RecordingHandler {
    events: RefCell<Vec<Vec<u8>>>,
    errors: RefCell<Vec<CodecError>>,
}

impl HttpHandler for RecordingHandler {
    fn on_event(&self, event: Vec<u8>) {
        self.events.borrow_mut().push(event);
    }

    fn on_error(&self, error: Error) {
        match error {
            Error::Serialization(e) => self.errors.borrow_mut().push(e),
            other => panic!("unexpected error kind {:?}", other),
        }
    }
}

#[test]
fn dispatcher_survives_a_malformed_frame() {
    let mut input = encode_frame(&b"one".to_vec());
    input.extend_from_slice(b"oops\n");
    input.extend_from_slice(&encode_frame(&b"two".to_vec()));
    let handler =
        RecordingHandler { events: RefCell::new(Vec::new()), errors: RefCell::new(Vec::new()) };
    dispatch_buffer(&input, &handler);
    assert_eq!(*handler.events.borrow(), vec![b"one".to_vec(), b"two".to_vec()]);
    assert_eq!(*handler.errors.borrow(), vec![CodecError::Framing]);
}
