use grizol::bep_data_parser::{BepAuthStatus, BepDataParser, CompleteMessage, ParseError};
use grizol::framing::{serialize_hello, serialize_message};
use grizol::syncthing;
use grizol::syncthing::{Header, MessageType};
use grizol::wire;

fn raw_hello_message() -> Vec<u8> {
    vec![
        // Magic
        0x2e, 0xa7, 0xd9, 0x0b,
        // Length
        0x00, 0x37,
        // Hello
        0x0a, 0x0a, 0x72, 0x65, 0x6d, 0x6f, 0x74, 0x65,
        0x2d, 0x64, 0x65, 0x76, 0x12, 0x09, 0x73, 0x79,
        0x6e, 0x63, 0x74, 0x68, 0x69, 0x6e, 0x67, 0x1a,
        0x1e, 0x76, 0x31, 0x2e, 0x32, 0x33, 0x2e, 0x35,
        0x2d, 0x64, 0x65, 0x76, 0x2e, 0x31, 0x37, 0x2e,
        0x67, 0x37, 0x32, 0x32, 0x36, 0x62, 0x38, 0x34,
        0x35, 0x2e, 0x64, 0x69, 0x72, 0x74, 0x79,
    ]
}

fn raw_cluster_message() -> Vec<u8> {
    vec![
        0x00, 0x00, 0x00, 0x00, 0x00, 0xa2, 0x0a, 0x9f, 0x01, 0x0a, 0x06, 0x74, 0x65, 0x73,
        0x74, 0x5f, 0x61, 0x12, 0x06, 0x74, 0x65, 0x73, 0x74, 0x5f, 0x61, 0x82, 0x01, 0x45,
        0x0a, 0x20, 0x18, 0xb6, 0xa9, 0x7b, 0x17, 0xcd, 0x8e, 0x3e, 0x4f, 0x4b, 0xec, 0x31,
        0xe5, 0xa7, 0x46, 0x8f, 0xe6, 0x76, 0xeb, 0x62, 0xbe, 0xf6, 0xb5, 0xb7, 0x96, 0xcf,
        0xca, 0x08, 0x38, 0x15, 0x26, 0xc3, 0x12, 0x06, 0x6d, 0x79, 0x64, 0x61, 0x6d, 0x61,
        0x1a, 0x15, 0x74, 0x63, 0x70, 0x3a, 0x2f, 0x2f, 0x31, 0x32, 0x37, 0x2e, 0x30, 0x2e,
        0x30, 0x2e, 0x31, 0x3a, 0x32, 0x33, 0x34, 0x35, 0x36, 0x20, 0x01, 0x30, 0x0e, 0x82,
        0x01, 0x44, 0x0a, 0x20, 0x7e, 0xbf, 0x75, 0x0c, 0x99, 0xcc, 0xf3, 0x76, 0x84, 0x79,
        0x1d, 0x79, 0x79, 0x61, 0x11, 0x02, 0xca, 0x35, 0x2b, 0xa5, 0x87, 0x11, 0x59, 0xb9,
        0xb4, 0x89, 0x1a, 0xcc, 0x28, 0x97, 0x41, 0x65, 0x12, 0x0a, 0x72, 0x65, 0x6d, 0x6f,
        0x74, 0x65, 0x2d, 0x64, 0x65, 0x76, 0x1a, 0x07, 0x64, 0x79, 0x6e, 0x61, 0x6d, 0x69,
        0x63, 0x30, 0x06, 0x40, 0xf8, 0xad, 0xe3, 0x8d, 0xbb, 0xc8, 0xa6, 0xd3, 0xc4, 0x01,
        0x00, 0x02, 0x08, 0x01, 0x00, 0x00, 0x03, 0x92, 0x0a, 0x06, 0x74, 0x65, 0x73, 0x74,
        0x5f, 0x61, 0x12, 0x94, 0x01, 0x0a, 0x20, 0x35, 0x53, 0x57, 0x52, 0x55, 0x4f, 0x4d,
        0x4f, 0x59, 0x45, 0x44, 0x33, 0x54, 0x4f, 0x35, 0x59, 0x4c, 0x4a, 0x51, 0x51, 0x32,
        0x32, 0x4f, 0x49, 0x43, 0x35, 0x32, 0x4f, 0x33, 0x33, 0x59, 0x52, 0x18, 0x21, 0x20,
        0xa4, 0x83, 0x02, 0x28, 0x94, 0x82, 0x9c, 0xa4, 0x06, 0x4a, 0x0c, 0x0a, 0x0a, 0x08,
        0xbe, 0x9c, 0xb6, 0xbe, 0xb1, 0xaf, 0xaa, 0xdb, 0x18, 0x50, 0x01, 0x58, 0x9b, 0xcb,
        0x9a, 0x82, 0x02, 0x68, 0x80, 0x80, 0x10, 0x72, 0x00, 0x82, 0x01, 0x24, 0x10, 0x21,
        0x1a, 0x20, 0x0b, 0xbd, 0x1f, 0xca, 0x9b, 0xf1, 0xbd, 0x73, 0x4b, 0x75, 0x36, 0xfc,
        0x78, 0xb5, 0xd8, 0x1b, 0xbf, 0x27, 0x4c, 0xc6, 0xcd, 0xb2, 0x94, 0x57, 0x1e, 0xb1,
        0xa8, 0x2a, 0x48, 0xae, 0x88, 0x2c, 0x92, 0x01, 0x20, 0xb6, 0xc3, 0x1a, 0x02, 0xc5,
        0x9e, 0x80, 0x51, 0xa7, 0x27, 0xdb, 0xb7, 0x36, 0x93, 0x85, 0x42, 0x65, 0x4c, 0x1a,
        0x9b, 0x7e, 0x04, 0xca, 0x1c, 0x05, 0x09, 0x18, 0x81, 0xf0, 0x64, 0x2e, 0x59, 0x12,
        0x94, 0x01, 0x0a, 0x20, 0x43, 0x32, 0x34, 0x50, 0x49, 0x4a, 0x46, 0x56, 0x56, 0x48,
        0x55, 0x46, 0x45, 0x55, 0x4f, 0x42, 0x4a, 0x4c, 0x53, 0x4a, 0x41, 0x52, 0x37, 0x35,
        0x34, 0x4b, 0x52, 0x55, 0x32, 0x4e, 0x41, 0x45, 0x18, 0x21, 0x20, 0xa4, 0x83, 0x02,
        0x28, 0x94, 0x82, 0x9c, 0xa4, 0x06, 0x4a, 0x0c, 0x0a, 0x0a, 0x08, 0xbe, 0x9c, 0xb6,
        0xbe, 0xb1, 0xaf, 0xaa, 0xdb, 0x18, 0x50, 0x02, 0x58, 0x9b, 0xcb, 0x9a, 0x82, 0x02,
        0x68, 0x80, 0x80, 0x10, 0x72, 0x00, 0x82, 0x01, 0x24, 0x10, 0x21, 0x1a, 0x20, 0xbc,
        0x4e, 0x1f, 0x8c, 0x0d, 0x2c, 0xfd, 0xe1, 0x72, 0xaa, 0x40, 0x1f, 0xb0, 0x33, 0x50,
        0xc1, 0x8a, 0xf7, 0x4d, 0x1c, 0xf7, 0xc2, 0x77, 0x64, 0x4e, 0xa7, 0x0f, 0x67, 0x65,
        0x7f, 0x2b, 0x01, 0x92, 0x01, 0x20, 0x62, 0x22, 0xe1, 0xe8, 0x3e, 0xc4, 0xd6, 0x94,
        0x3b, 0xce, 0xb9, 0xef, 0x0b, 0x32, 0x12, 0xa2, 0x85, 0xc7, 0x72, 0x58, 0xad, 0xb4,
        0xbf, 0xf3, 0x6a, 0x69, 0x44, 0xf5, 0x8a, 0xf4, 0x3a, 0xdc, 0x12, 0x94, 0x01, 0x0a,
        0x20, 0x52, 0x42, 0x47, 0x33, 0x48, 0x36, 0x36, 0x51, 0x59, 0x53, 0x56, 0x4a, 0x37,
        0x53, 0x42, 0x43, 0x4a, 0x59, 0x51, 0x57, 0x4c, 0x58, 0x49, 0x50, 0x37, 0x49, 0x32,
        0x32, 0x4c, 0x58, 0x46, 0x50, 0x18, 0x21, 0x20, 0xa4, 0x83, 0x02, 0x28, 0x94, 0x82,
        0x9c, 0xa4, 0x06, 0x4a, 0x0c, 0x0a, 0x0a, 0x08, 0xbe, 0x9c, 0xb6, 0xbe, 0xb1, 0xaf,
        0xaa, 0xdb, 0x18, 0x50, 0x03, 0x58, 0x9b, 0xe0, 0x8e, 0x84, 0x02, 0x68, 0x80, 0x80,
        0x10, 0x72, 0x00, 0x82, 0x01, 0x24, 0x10, 0x21, 0x1a, 0x20, 0x35, 0x6f, 0xc5, 0x79,
        0xa7, 0xb1, 0x3c, 0xd7, 0x33, 0x59, 0xfd, 0xe1, 0x12, 0x1d, 0x2b, 0x1b, 0x93, 0x89,
        0x48, 0xbe, 0xee, 0x53, 0x24, 0xe8, 0xea, 0x1a, 0xf5, 0x98, 0x6d, 0x85, 0x27, 0x09,
        0x92, 0x01, 0x20, 0x3d, 0xbf, 0x61, 0xcb, 0xb1, 0xcd, 0xe0, 0x1e, 0x26, 0x7e, 0x00,
        0xc3, 0x1f, 0x48, 0x0b, 0x72, 0xe8, 0x43, 0x43, 0xc2, 0xfd, 0x9c, 0x53, 0x5e, 0xbe,
        0xef, 0x2f, 0x07, 0xff, 0x70, 0xa6, 0x66, 0x12, 0x94, 0x01, 0x0a, 0x20, 0x42, 0x4e,
        0x53, 0x4d, 0x44, 0x35, 0x4c, 0x34, 0x51, 0x45, 0x43, 0x4f, 0x45, 0x34, 0x4c, 0x51,
        0x48, 0x34, 0x50, 0x59, 0x4e, 0x48, 0x49, 0x33, 0x37, 0x52, 0x58, 0x42, 0x49, 0x49,
        0x4a, 0x57, 0x18, 0x21, 0x20, 0xa4, 0x83, 0x02, 0x28, 0x94, 0x82, 0x9c, 0xa4, 0x06,
        0x4a, 0x0c, 0x0a, 0x0a, 0x08, 0xbe, 0x9c, 0xb6, 0xbe, 0xb1, 0xaf, 0xaa, 0xdb, 0x18,
        0x50, 0x04, 0x58, 0x9b, 0xf5, 0x82, 0x86, 0x02, 0x68, 0x80, 0x80, 0x10, 0x72, 0x00,
        0x82, 0x01, 0x24, 0x10, 0x21, 0x1a, 0x20, 0x0c, 0xa4, 0xbd, 0xfe, 0x67, 0x24, 0xe2,
        0x46, 0x0a, 0x9c, 0xbd, 0xde, 0x0c, 0x36, 0x1f, 0x12, 0x2d, 0xc6, 0x87, 0x04, 0xfa,
        0xf7, 0xf4, 0x9e, 0x46, 0xb0, 0xfd, 0x82, 0x4d, 0xc8, 0x9d, 0xb1, 0x92, 0x01, 0x20,
        0x27, 0xca, 0x38, 0xcc, 0x45, 0xed, 0x42, 0x85, 0x5a, 0x70, 0x46, 0x00, 0xcb, 0x1c,
        0x72, 0x95, 0xb1, 0x8c, 0x02, 0x80, 0x33, 0x16, 0x4f, 0x8a, 0xeb, 0xe1, 0xe5, 0x14,
        0xfd, 0xc4, 0xfa, 0x66, 0x12, 0x94, 0x01, 0x0a, 0x20, 0x57, 0x36, 0x55, 0x57, 0x41,
        0x46, 0x4c, 0x45, 0x37, 0x52, 0x43, 0x53, 0x57, 0x34, 0x59, 0x4a, 0x47, 0x52, 0x56,
        0x48, 0x41, 0x48, 0x32, 0x37, 0x35, 0x4c, 0x4f, 0x52, 0x34, 0x4d, 0x33, 0x49, 0x18,
        0x21, 0x20, 0xa4, 0x83, 0x02, 0x28, 0x94, 0x82, 0x9c, 0xa4, 0x06, 0x4a, 0x0c, 0x0a,
        0x0a, 0x08, 0xbe, 0x9c, 0xb6, 0xbe, 0xb1, 0xaf, 0xaa, 0xdb, 0x18, 0x50, 0x05, 0x58,
        0x9b, 0xe0, 0x8e, 0x84, 0x02, 0x68, 0x80, 0x80, 0x10, 0x72, 0x00, 0x82, 0x01, 0x24,
        0x10, 0x21, 0x1a, 0x20, 0xc2, 0xed, 0x34, 0x2a, 0x14, 0x5a, 0x50, 0x67, 0x2f, 0xd3,
        0x74, 0xec, 0x71, 0x4b, 0xf1, 0x26, 0xe9, 0xee, 0xf9, 0x38, 0x18, 0x75, 0x4d, 0x1f,
        0x3d, 0x32, 0xe5, 0x60, 0xed, 0x36, 0xa7, 0x01, 0x92, 0x01, 0x20, 0x5f, 0x9a, 0x92,
        0xdf, 0x04, 0x88, 0x2e, 0x30, 0xf2, 0x2c, 0x9f, 0xc2, 0xee, 0x37, 0x63, 0xe7, 0x08,
        0x95, 0x99, 0x3d, 0x2c, 0x1c, 0xdd, 0xb6, 0xf4, 0x32, 0xbc, 0x47, 0x68, 0xaa, 0x40,
        0x78, 0x12, 0x94, 0x01, 0x0a, 0x20, 0x4c, 0x48, 0x5a, 0x42, 0x58, 0x4e, 0x36, 0x4b,
        0x4f, 0x34, 0x56, 0x49, 0x42, 0x44, 0x57, 0x4d, 0x4c, 0x58, 0x44, 0x55, 0x48, 0x52,
        0x5a, 0x4d, 0x56, 0x54, 0x34, 0x56, 0x47, 0x54, 0x59, 0x54, 0x18, 0x21, 0x20, 0xa4,
        0x83, 0x02, 0x28, 0x94, 0x82, 0x9c, 0xa4, 0x06, 0x4a, 0x0c, 0x0a, 0x0a, 0x08, 0xbe,
        0x9c, 0xb6, 0xbe, 0xb1, 0xaf, 0xaa, 0xdb, 0x18, 0x50, 0x06, 0x58, 0x9a, 0xb6, 0xa6,
        0x80, 0x02, 0x68, 0x80, 0x80, 0x10, 0x72, 0x00, 0x82, 0x01, 0x24, 0x10, 0x21, 0x1a,
        0x20, 0xb0, 0x4d, 0xce, 0x96, 0xda, 0xe1, 0xcb, 0x55, 0x7c, 0x11, 0x06, 0xbe, 0x9d,
        0x08, 0xd0, 0xf4, 0x66, 0x89, 0xdb, 0x77, 0x99, 0xa4, 0x93, 0x1d, 0x84, 0x4b, 0x7d,
        0x30, 0x71, 0x62, 0xaa, 0x44, 0x92, 0x01, 0x20, 0xac, 0xff, 0x75, 0x24, 0xa6, 0xe2,
        0x1f, 0xcd, 0xc0, 0x9f, 0xe5, 0x00, 0x33, 0x84, 0x27, 0x17, 0x14, 0x83, 0xa1, 0x64,
        0xeb, 0x61, 0x7d, 0xf1, 0x80, 0x7f, 0x4c, 0x71, 0xe9, 0x5b, 0x17, 0x56,
    ]
}

#[test]
fn parse_incoming_data_hello_single_block_succeeds() {
    let mut data_parser = BepDataParser::new();
    let incoming_data: Vec<u8> = raw_hello_message();

    let complete_messages = data_parser.parse_incoming_data(&incoming_data);

    assert_eq!(complete_messages.as_ref().unwrap().len(), 1);
    let hello = syncthing::Hello {
        device_name: "remote-dev".to_string(),
        client_name: "syncthing".to_string(),
        client_version: "v1.23.5-dev.17.g7226b845.dirty".to_string(),
    };
    assert_eq!(complete_messages.unwrap()[0], CompleteMessage::Hello(hello));
}

#[test]
fn parse_incoming_data_hello_multiple_blocks_succeeds() {
    let mut data_parser = BepDataParser::new();
    let incoming_data: Vec<u8> = raw_hello_message();

    let _complete_messages = data_parser.parse_incoming_data(&incoming_data[..1]);
    let _complete_messages = data_parser.parse_incoming_data(&incoming_data[1..4]);
    let _complete_messages = data_parser.parse_incoming_data(&incoming_data[4..10]);
    let _complete_messages = data_parser.parse_incoming_data(&incoming_data[10..20]);
    let complete_messages = data_parser.parse_incoming_data(&incoming_data[20..]);

    assert_eq!(complete_messages.as_ref().unwrap().len(), 1);
    let hello = syncthing::Hello {
        device_name: "remote-dev".to_string(),
        client_name: "syncthing".to_string(),
        client_version: "v1.23.5-dev.17.g7226b845.dirty".to_string(),
    };
    assert_eq!(complete_messages.unwrap()[0], CompleteMessage::Hello(hello));
}

#[test]
fn parseincomingdata_clustersingleblock_succeeds() {
    let mut data_parser = BepDataParser::new();
    let mut incoming_data: Vec<u8> = vec![];
    incoming_data.extend(raw_hello_message());
    incoming_data.extend(raw_cluster_message());

    let complete_messages = data_parser.parse_incoming_data(&incoming_data);

    assert_eq!(complete_messages.as_ref().unwrap().len(), 3);
}

fn ping_frame() -> Vec<u8> {
    let header = Header { message_type: MessageType::Ping.to_number(), compression: 0 };
    serialize_message(&header, &vec![])
}

fn after_hello() -> BepDataParser {
    let mut data_parser = BepDataParser::new();
    let messages = data_parser.parse_incoming_data(&raw_hello_message()).unwrap();
    assert_eq!(messages.len(), 1);
    data_parser
}

#[test]
fn data_in_pieces_gives_the_same_messages() {
    let mut all = raw_hello_message();
    all.extend(raw_cluster_message());
    all.extend(ping_frame());

    let mut at_once = BepDataParser::new();
    let expected = at_once.parse_incoming_data(&all).unwrap();
    assert_eq!(expected.len(), 4);

    for step in [1, 2, 3, 7, 64, 1000] {
        let mut data_parser = BepDataParser::new();
        let mut messages = vec![];
        for piece in all.chunks(step) {
            messages.extend(data_parser.parse_incoming_data(piece).unwrap());
        }
        assert_eq!(messages, expected);
    }
}

#[test]
fn the_messages_of_a_cluster_are_read() {
    let mut data_parser = after_hello();
    let messages = data_parser.parse_incoming_data(&raw_cluster_message()).unwrap();
    match &messages[0] {
        CompleteMessage::ClusterConfig(c) => {
            assert_eq!(c.folders.len(), 1);
            assert_eq!(c.folders[0].id, "test_a");
            assert_eq!(c.folders[0].devices.len(), 2);
            assert_eq!(c.folders[0].devices[0].name, "mydama");
            assert_eq!(c.folders[0].devices[0].addresses, vec!["tcp://127.0.0.1:23456"]);
            assert_eq!(c.folders[0].devices[0].max_sequence, 14);
            assert_eq!(c.folders[0].devices[1].addresses, vec!["dynamic"]);
        }
        m => panic!("unexpected {:?}", m),
    }
    match &messages[1] {
        CompleteMessage::Index(i) => {
            assert_eq!(i.folder, "test_a");
            assert_eq!(i.files.len(), 6);
            assert_eq!(i.files[0].name, "5SWRUOMOYED3TO5YLJQQ22OIC52O33YR");
            assert_eq!(i.files[0].size, 33);
            assert_eq!(i.files[0].sequence, 1);
            assert_eq!(i.files[0].blocks[0].hash.len(), 32);
            assert_eq!(i.files[0].version.as_ref().unwrap().counters.len(), 1);
        }
        m => panic!("unexpected {:?}", m),
    }
}

#[test]
fn a_compressed_message_is_read() {
    let response = syncthing::Response { id: 7, data: vec![5; 300], code: 0 };
    let raw = wire::encode(&response);
    let mut body = (raw.len() as u32).to_be_bytes().to_vec();
    body.extend(lz4_flex::compress(&raw));
    assert!(body.len() < raw.len());
    let header = Header { message_type: MessageType::Response.to_number(), compression: 1 };

    let mut data_parser = after_hello();
    let messages = data_parser.parse_incoming_data(&serialize_message(&header, &body)).unwrap();
    assert_eq!(messages, vec![CompleteMessage::Response(response)]);
}

#[test]
fn a_body_that_cannot_be_decompressed_is_refused() {
    let header = Header { message_type: MessageType::Response.to_number(), compression: 1 };
    let mut data_parser = after_hello();
    let frame = serialize_message(&header, &vec![0, 0, 0, 9, 0xff, 0xff]);
    assert_eq!(data_parser.parse_incoming_data(&frame), Err(ParseError::BadCompression));
}

#[test]
fn a_hello_without_the_magic_number_is_refused() {
    let mut data_parser = BepDataParser::new();
    let mut data = raw_hello_message();
    data[0] = 0x2f;
    assert_eq!(data_parser.parse_incoming_data(&data), Err(ParseError::NoMagicHello));
}

#[test]
fn a_hello_that_is_not_well_formed_is_refused() {
    let mut data_parser = BepDataParser::new();
    let frame = serialize_hello(&vec![0x0a, 0x05, 0x61]);
    assert_eq!(data_parser.parse_incoming_data(&frame), Err(ParseError::BadHello));
}

#[test]
fn a_header_that_is_not_well_formed_is_refused() {
    let mut data_parser = after_hello();
    assert_eq!(
        data_parser.parse_incoming_data(&[0, 1, 0x08, 0, 0, 0, 0]),
        Err(ParseError::BadHeader)
    );
}

#[test]
fn an_unknown_type_is_refused() {
    let mut data_parser = after_hello();
    let frame = serialize_message(&Header { message_type: 8, compression: 0 }, &vec![]);
    assert_eq!(data_parser.parse_incoming_data(&frame), Err(ParseError::UnknownType));
}

#[test]
fn a_message_that_is_not_well_formed_is_refused() {
    let mut data_parser = after_hello();
    let header = Header { message_type: MessageType::Close.to_number(), compression: 0 };
    let frame = serialize_message(&header, &vec![0x0a, 0x02, 0xff, 0xfe]);
    assert_eq!(data_parser.parse_incoming_data(&frame), Err(ParseError::BadMessage));
}

#[test]
fn the_states_of_a_connection_differ() {
    assert_ne!(BepAuthStatus::PreHello, BepAuthStatus::PostHello);
}

/// A block of LZ4 that holds its content as it is.
fn literal_block(raw: &[u8]) -> Vec<u8> {
    let mut block = vec![0xf0];
    let mut rest = raw.len() - 15;
    while rest >= 255 {
        block.push(255);
        rest -= 255;
    }
    block.push(rest as u8);
    block.extend_from_slice(raw);
    block
}

#[test]
fn content_of_all_ones_is_decompressed() {
    let response = syncthing::Response { id: 7, data: vec![0xff; 17_000_000], code: 0 };
    let raw = wire::encode(&response);
    let mut body = (raw.len() as u32).to_be_bytes().to_vec();
    body.extend(literal_block(&raw));
    let header = Header { message_type: MessageType::Response.to_number(), compression: 1 };
    let mut data_parser = after_hello();
    let messages = data_parser.parse_incoming_data(&serialize_message(&header, &body)).unwrap();
    assert!(messages == vec![CompleteMessage::Response(response)]);
}

#[test]
fn a_length_that_is_too_large_is_refused() {
    let header = Header { message_type: MessageType::Response.to_number(), compression: 1 };
    for token in [0xf0, 0x0f] {
        let mut body = vec![0, 0, 0, 9, token];
        body.extend(if token == 0x0f { vec![1, 0] } else { vec![] });
        body.extend(vec![0xff; 16_843_010]);
        let mut data_parser = after_hello();
        let frame = serialize_message(&header, &body);
        assert_eq!(data_parser.parse_incoming_data(&frame), Err(ParseError::BadCompression));
    }
}

#[test]
fn errors_are_reported_in_words() {
    assert_eq!(
        ParseError::NoMagicHello.to_text(),
        "Got error when dealing with complete message: NoMagicHello"
    );
    assert_eq!(
        ParseError::BadMessage.to_text(),
        "Got error when dealing with complete message: Error: the message cannot be decoded"
    );
}
