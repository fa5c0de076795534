use grpc::byte_str::ByteStr;

#[test]
fn byte_str_keeps_its_text() {
    let s = ByteStr::from("héllo wörld".to_string());
    assert_eq!(s.as_str(), "héllo wörld");
    let t = s.clone();
    assert_eq!(t.as_str(), "héllo wörld");
    assert_eq!(ByteStr::default().as_str(), "");
}
