use respcodec::check_handshake;
use respcodec::handshake_request;
use respcodec::reader_step;
use respcodec::request_message;
use respcodec::Error;
use respcodec::ReadStep;
use respcodec::model::Type;
use respcodec::model::Value;
use respcodec::resp;
use respcodec::resp::ParseError;

#[test]
fn reader_accumulates_until_complete() {
    let msg = b"*2\r\n$5\r\nHello\r\n$5\r\nWorld\r\n";
    let mut buf: Vec<u8> = Vec::new();
    match reader_step(&mut buf, &msg[..7].to_vec()) {
        ReadStep::NeedMore => {}
        _ => panic!("expected NeedMore after a partial chunk"),
    }
    match reader_step(&mut buf, &msg[7..].to_vec()) {
        ReadStep::Done(v, end) => {
            assert_eq!(
                v,
                Value::List(vec![
                    Value::BinaryString(b"Hello".to_vec()),
                    Value::BinaryString(b"World".to_vec())
                ])
            );
            assert_eq!(end, msg.len());
        }
        _ => panic!("expected Done after the rest arrived"),
    }
}

#[test]
fn reader_reports_closure() {
    let mut buf: Vec<u8> = b"+par".to_vec();
    match reader_step(&mut buf, &Vec::new()) {
        ReadStep::Closed => {}
        _ => panic!("an empty chunk must mean closure, not NeedMore"),
    }
    assert_eq!(buf, b"+par".to_vec());
}

#[test]
fn reader_surfaces_malformed() {
    let mut buf: Vec<u8> = Vec::new();
    match reader_step(&mut buf, &b"@foo\r\n".to_vec()) {
        ReadStep::Failed(e) => assert_eq!(e, ParseError::UnknownType(b'@')),
        _ => panic!("expected Failed on a grammar violation"),
    }
}

#[test]
fn handshake_request_shape() {
    let v = handshake_request();
    assert_eq!(
        v,
        Value::List(vec![Value::BinaryString(b"hello".to_vec())])
    );
    assert_eq!(resp::pack(v), b"*1\r\n$5\r\nhello\r\n".to_vec());
}

#[test]
fn request_message_shape() {
    let v = request_message(b"get".to_vec(), &vec![b"key".to_vec()]);
    assert_eq!(
        v,
        Value::List(vec![
            Value::BinaryString(b"get".to_vec()),
            Value::BinaryString(b"key".to_vec())
        ])
    );
    assert_eq!(resp::pack(v), b"*2\r\n$3\r\nget\r\n$3\r\nkey\r\n".to_vec());
}

#[test]
fn handshake_check() {
    let good = Value::Mapping(vec![(
        Value::SimpleText(b"server".to_vec()),
        Value::SimpleText(b"kv".to_vec()),
    )]);
    assert_eq!(check_handshake(&good), Ok(()));
    let bad = Value::Integer(3);
    assert_eq!(check_handshake(&bad), Err(Error::ServerProto(Type::Integer)));
    let bad2 = Value::List(vec![]);
    assert_eq!(check_handshake(&bad2), Err(Error::ServerProto(Type::List)));
}
