use grpc::codec::bytes_codec::{BytesDecoder, BytesEncoder};
use grpc::client::transport::{BufEncoder, BytesEncoder as TransportBytesEncoder};
use grpc::status::{StatusCodeError, StatusError};

#[test]
fn bytes_encoder_appends_or_fails() {
    let mut e = BytesEncoder::new();
    let mut dst = vec![1u8];
    assert!(e.encode(Ok(vec![2, 3]), &mut dst).is_ok());
    assert_eq!(dst, vec![1, 2, 3]);
    let err = StatusError::new(StatusCodeError::Internal, "bad".to_string());
    let r = e.encode(Err(err), &mut dst);
    assert_eq!(r.unwrap_err().message(), "bad");
    assert_eq!(dst, vec![1, 2, 3]);
}

#[test]
fn bytes_decoder_takes_everything() {
    let mut d = BytesDecoder::new();
    let mut src = vec![4u8, 5, 6];
    assert_eq!(d.decode(&mut src).unwrap(), Some(vec![4, 5, 6]));
    assert!(src.is_empty());
}

#[test]
fn transport_encoders_append() {
    let mut dst = vec![];
    TransportBytesEncoder::new().encode(&[7, 8], &mut dst).unwrap();
    let mut item = vec![9u8];
    BufEncoder::new().encode(&mut item, &mut dst).unwrap();
    assert_eq!(dst, vec![7, 8, 9]);
    assert!(item.is_empty());
}
