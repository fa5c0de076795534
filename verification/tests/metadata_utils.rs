use grpc::client::interceptor::{Intercepted, InterceptedOnce, IntoOnce};
use grpc::client::metadata_utils::AttachHeadersInterceptor;
use grpc::core_types::RequestHeaders;
use grpc::metadata::MetadataMap;

fn md(entries: &[(&str, &str)]) -> MetadataMap {
    let mut m = MetadataMap::new();
    for (k, v) in entries {
        m.insert(k.to_string(), v.to_string());
    }
    m
}

#[test]
fn attach_headers_replaces_keys() {
    let interceptor = AttachHeadersInterceptor::new(md(&[("a", "1"), ("b", "2")]));
    let mut headers = RequestHeaders::new().with_metadata(md(&[("a", "0"), ("c", "3")]));
    interceptor.attach(&mut headers);
    let m = headers.metadata();
    assert_eq!(m.get("a"), Some("1"));
    assert_eq!(m.get("b"), Some("2"));
    assert_eq!(m.get("c"), Some("3"));
    assert_eq!(m.len(), 3);
}

#[test]
fn intercepted_keeps_its_parts() {
    let i = Intercepted::new(1u8, "x");
    assert_eq!(*i.invoke(), 1);
    assert_eq!(*i.intercept(), "x");
    assert_eq!(i.into_parts(), (1, "x"));
    let o = InterceptedOnce::new(2u8, IntoOnce("y"));
    let (inv, IntoOnce(int)) = o.into_parts();
    assert_eq!((inv, int), (2, "y"));
}
