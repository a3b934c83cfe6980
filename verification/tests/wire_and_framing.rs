use grizol::bep_data_parser::{BepDataParser, CompleteMessage};
use grizol::framing::{serialize_event, serialize_hello, serialize_message, SendError};
use grizol::syncthing::{
    Close, Counter, ErrorCode, FileInfo, Header, Hello, Index, MessageCompression, MessageType,
    Ping, Request, Response, Vector,
};
use grizol::types::GrizolEvent;
use grizol::wire;
use grizol::wire::Message;

fn hello() -> Hello {
    Hello {
        device_name: "a".to_string(),
        client_name: "grizol".to_string(),
        client_version: "0.1.0".to_string(),
    }
}

fn request(id: i32) -> Request {
    Request {
        id,
        folder: "f".to_string(),
        name: "n".to_string(),
        offset: 131072,
        size: 300,
        hash: vec![9; 32],
        from_temporary: false,
    }
}

#[test]
fn fields_are_written_by_number() {
    assert_eq!(
        wire::encode(&hello()),
        vec![
            0x0a, 1, b'a', 0x12, 6, b'g', b'r', b'i', b'z', b'o', b'l', 0x1a, 5, b'0', b'.', b'1',
            b'.', b'0'
        ]
    );
    assert_eq!(wire::encode(&Ping {}), Vec::<u8>::new());
    let response = Response { id: 300, data: vec![], code: 1 };
    assert_eq!(wire::encode(&response), vec![0x08, 0xac, 0x02, 0x18, 0x01]);
}

#[test]
fn a_negative_number_takes_ten_bytes() {
    let response = Response { id: -1, data: vec![], code: 0 };
    let raw = wire::encode(&response);
    assert_eq!(raw, vec![8, 255, 255, 255, 255, 255, 255, 255, 255, 255, 1]);
    assert_eq!(wire::decode::<Response>(&raw), Ok(response));
}

#[test]
fn messages_are_read_back() {
    let mut file = FileInfo::empty();
    file.name = "dir/é.txt".to_string();
    file.size = 1 << 40;
    file.modified_ns = -5;
    file.deleted = true;
    file.version = Some(Vector { counters: vec![Counter { id: u64::MAX, value: 3 }] });
    let index = Index { folder: "x".to_string(), files: vec![file, FileInfo::empty()] };
    assert_eq!(wire::decode::<Index>(&wire::encode(&index)), Ok(index));
}

#[test]
fn unknown_fields_are_passed_over_and_truncated_ones_refused() {
    let mut raw = wire::encode(&hello());
    raw.extend([0x78, 0x01]);
    assert_eq!(wire::decode::<Hello>(&raw), Ok(hello()));
    raw.truncate(raw.len() - 1);
    assert!(wire::decode::<Hello>(&raw).is_err());
}

#[test]
fn text_that_is_not_utf8_is_refused() {
    assert!(wire::decode::<Close>(&[0x0a, 1, 0xff]).is_err());
    assert_eq!(
        wire::decode::<Close>(&[0x0a, 2, 0xc3, 0xa9]),
        Ok(Close { reason: "é".to_string() })
    );
}

#[test]
fn a_hello_is_framed() {
    assert_eq!(
        serialize_hello(&vec![1, 2, 3]),
        vec![0x2e, 0xa7, 0xd9, 0x0b, 0, 3, 1, 2, 3]
    );
}

#[test]
fn a_message_is_framed() {
    let header = Header { message_type: MessageType::Ping.to_number(), compression: 0 };
    assert_eq!(serialize_message(&header, &vec![]), vec![0, 2, 8, 6, 0, 0, 0, 0]);
}

#[test]
fn every_message_that_is_sent_is_read_back() {
    let mut parser = BepDataParser::new();
    let sent = vec![
        CompleteMessage::Hello(hello()),
        CompleteMessage::Ping(Ping {}),
        CompleteMessage::Close(Close { reason: "bye".to_string() }),
        CompleteMessage::Response(Response { id: 1, data: vec![1, 2], code: 0 }),
        CompleteMessage::Index(Index { folder: "f".to_string(), files: vec![] }),
    ];
    for message in sent {
        let data = serialize_event(&GrizolEvent::Message(message.clone()), &vec![]).unwrap();
        assert_eq!(parser.parse_incoming_data(&data), Ok(vec![message]));
    }
}

#[test]
fn requests_are_sent_one_after_the_other() {
    let mut parser = BepDataParser::new();
    let first = serialize_event(
        &GrizolEvent::Message(CompleteMessage::Hello(hello())),
        &vec![],
    )
    .unwrap();
    parser.parse_incoming_data(&first).unwrap();
    let requests = vec![request(1), request(2)];
    let data = serialize_event(&GrizolEvent::RequestCreated, &requests).unwrap();
    assert_eq!(
        parser.parse_incoming_data(&data),
        Ok(vec![
            CompleteMessage::Request(request(1)),
            CompleteMessage::Request(request(2))
        ])
    );
    assert_eq!(serialize_event(&GrizolEvent::RequestProcessed, &vec![]), Ok(vec![]));
}

#[test]
fn a_request_is_not_sent_by_itself() {
    let event = GrizolEvent::Message(CompleteMessage::Request(request(1)));
    assert_eq!(serialize_event(&event, &vec![]), Err(SendError::RequestAsMessage));
}

#[test]
fn a_hello_that_is_too_long_is_not_sent() {
    let mut long = hello();
    long.device_name = "x".repeat(70000);
    let event = GrizolEvent::Message(CompleteMessage::Hello(long));
    assert_eq!(serialize_event(&event, &vec![]), Err(SendError::TooLong));
}

#[test]
fn numbers_stand_for_types() {
    for n in 0..8 {
        assert_eq!(MessageType::from_number(n).unwrap().to_number(), n);
    }
    assert_eq!(MessageType::from_number(8), None);
    assert_eq!(MessageCompression::from_number(1), Some(MessageCompression::Lz4));
    assert_eq!(MessageCompression::from_number(2), None);
    assert_eq!(ErrorCode::from_number(2), Some(ErrorCode::NoSuchFile));
    assert_eq!(ErrorCode::InvalidFile.to_number(), 3);
    assert_eq!(ErrorCode::from_number(4), None);
}
