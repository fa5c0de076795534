use grpc::client::stream_util::RecvStreamValidator;
use grpc::client::ResponseStreamItem;
use grpc::core_types::{ResponseHeaders, Trailers};
use grpc::status::{StatusCodeError, StatusError};

fn run(items: Vec<ResponseStreamItem>, unary: bool) -> Vec<ResponseStreamItem> {
    let mut v = RecvStreamValidator::new((), unary);
    items.into_iter().map(|i| v.validate(i)).collect()
}

fn internal_error(item: &ResponseStreamItem) -> Option<String> {
    match item {
        ResponseStreamItem::Trailers(t) => match t.status() {
            Err(e) if e.code() == StatusCodeError::Internal => Some(e.message().to_string()),
            _ => None,
        },
        _ => None,
    }
}

fn ok_trailers() -> ResponseStreamItem {
    ResponseStreamItem::Trailers(Trailers::new(Ok(())))
}

#[test]
fn validator_messages_before_headers() {
    let out = run(vec![ResponseStreamItem::Message], false);
    assert_eq!(internal_error(&out[0]).as_deref(), Some("stream received messages without headers"));
}

#[test]
fn validator_stream_closed_before_trailers() {
    let out = run(vec![ResponseStreamItem::Headers(ResponseHeaders::new()), ResponseStreamItem::StreamClosed], false);
    assert_eq!(internal_error(&out[1]).as_deref(), Some("stream ended without trailers"));
}

#[test]
fn validator_headers_repeated() {
    let out = run(
        vec![ResponseStreamItem::Headers(ResponseHeaders::new()), ResponseStreamItem::Headers(ResponseHeaders::new())],
        false,
    );
    assert_eq!(internal_error(&out[1]).as_deref(), Some("stream received multiple headers"));
}

#[test]
fn validator_unary_ok_without_message() {
    let out = run(vec![ResponseStreamItem::Headers(ResponseHeaders::new()), ok_trailers()], true);
    assert_eq!(internal_error(&out[1]).as_deref(), Some("unary stream received zero messages"));
}

#[test]
fn validator_unary_multiple_messages() {
    let out = run(
        vec![ResponseStreamItem::Headers(ResponseHeaders::new()), ResponseStreamItem::Message, ResponseStreamItem::Message],
        true,
    );
    assert_eq!(internal_error(&out[2]).as_deref(), Some("unary stream received multiple messages"));
}

#[test]
fn validator_successful_stream_then_closed() {
    let out = run(
        vec![
            ResponseStreamItem::Headers(ResponseHeaders::new()),
            ResponseStreamItem::Message,
            ResponseStreamItem::Message,
            ok_trailers(),
            ResponseStreamItem::Message,
        ],
        false,
    );
    assert!(matches!(out[0], ResponseStreamItem::Headers(_)));
    assert!(matches!(out[2], ResponseStreamItem::Message));
    assert!(matches!(&out[3], ResponseStreamItem::Trailers(t) if t.status().is_ok()));
    assert!(matches!(out[4], ResponseStreamItem::StreamClosed));
}

#[test]
fn validator_error_trailers_pass_through() {
    let err = StatusError::new(StatusCodeError::NotFound, "missing".to_string());
    let out = run(vec![ResponseStreamItem::Trailers(Trailers::new(Err(err)))], true);
    match &out[0] {
        ResponseStreamItem::Trailers(t) => assert_eq!(t.status().as_ref().unwrap_err().code(), StatusCodeError::NotFound),
        other => panic!("unexpected {:?}", other),
    }
}

#[test]
fn trailers_clone_keeps_status_and_metadata() {
    let mut md = grpc::metadata::MetadataMap::new();
    md.insert("k".to_string(), "v".to_string());
    md.insert("a".to_string(), "b".to_string());
    let t = Trailers::new(Err(StatusError::new(StatusCodeError::NotFound, "gone".to_string()))).with_metadata(md);
    let c = t.clone();
    match c.status() {
        Err(e) => {
            assert_eq!(e.code(), StatusCodeError::NotFound);
            assert_eq!(e.message(), "gone");
        }
        Ok(()) => panic!("status changed"),
    }
    assert_eq!(c.metadata().entries(), t.metadata().entries());
    assert_eq!(c.metadata().get("a"), Some("b"));
}
