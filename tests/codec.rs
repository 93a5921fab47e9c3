use dns_server::bits::{as_bit_flag, get_bit_flag};
use dns_server::{
    deserialize_name, serialize_name, Answer, DnsError, DnsMessage, Header, OperationCode,
    QueryResponseIndicator, Question, ResponseCode,
};

fn header(op_code: OperationCode, r_code: ResponseCode) -> Header {
    Header {
        packet_id: 0xBEEF,
        qr_ind: QueryResponseIndicator::Response,
        op_code,
        is_auth_ans: true,
        is_trunc: false,
        is_rec_desired: true,
        is_rec_available: true,
        r_code,
        qd_count: 0x0102,
        an_count: 3,
        ns_count: 0xFFFF,
        ar_count: 0,
    }
}

fn message_bytes(m: &DnsMessage) -> [u8; 512] {
    m.serialize().expect("message encodes")
}

#[test]
fn name_to_labels_parses_string() {
    let result = serialize_name("github.com").unwrap();

    assert_eq!(
        result,
        [0x6, 0x67, 0x69, 0x74, 0x68, 0x75, 0x62, 0x3, 0x63, 0x6f, 0x6d, 0x0]
    );
}

#[test]
fn root_name_is_a_single_zero() {
    assert_eq!(serialize_name("").unwrap(), vec![0u8]);
}

#[test]
fn label_of_128_bytes_is_rejected() {
    let long = "a".repeat(128);
    assert_eq!(serialize_name(&long), Err(DnsError::EncodingOverflow));
    let fits = "a".repeat(127);
    let encoded = serialize_name(&fits).unwrap();
    assert_eq!(encoded.len(), 129);
    assert_eq!(encoded[0], 127);
}

#[test]
fn non_ascii_label_keeps_its_bytes() {
    let encoded = serialize_name("é.io").unwrap();
    assert_eq!(encoded, vec![2, 0xC3, 0xA9, 2, b'i', b'o', 0]);
    let (name, end) = deserialize_name(&encoded, 0).unwrap();
    assert_eq!(name, "é.io");
    assert_eq!(end, 7);
}

#[test]
fn header_round_trip_every_code() {
    let ops = [
        OperationCode::Query,
        OperationCode::IQuery,
        OperationCode::Status,
        OperationCode::Other(7),
        OperationCode::Other(15),
    ];
    let codes = [
        ResponseCode::NoError,
        ResponseCode::FormatError,
        ResponseCode::ServerFailure,
        ResponseCode::NameError,
        ResponseCode::NotImplemented,
        ResponseCode::Refused,
    ];
    for op in ops {
        for code in codes {
            let h = header(op, code);
            let bytes = h.serialize();
            assert_eq!(bytes.len(), 12);
            assert_eq!(Header::deserialize(&bytes), Ok(h));
        }
    }
}

#[test]
fn header_bit_layout() {
    let h = header(OperationCode::Status, ResponseCode::Refused);
    let bytes = h.serialize();
    assert_eq!(bytes, vec![0xBE, 0xEF, 0x80 | (2 << 3) | 0x04 | 0x01, 0x80 | 5, 1, 2, 0, 3, 0xFF, 0xFF, 0, 0]);
}

#[test]
fn response_code_six_fails() {
    let mut bytes = header(OperationCode::Query, ResponseCode::NoError).serialize();
    bytes[3] = 6;
    assert_eq!(Header::deserialize(&bytes), Err(DnsError::MalformedHeader));
    bytes[3] = 0x80 | 15;
    assert_eq!(Header::deserialize(&bytes), Err(DnsError::MalformedHeader));
}

#[test]
fn bit_flags() {
    assert!(get_bit_flag(0b1000_0000, 7));
    assert!(!get_bit_flag(0b1000_0000, 6));
    assert!(get_bit_flag(0b0000_0001, 0));
    assert_eq!(as_bit_flag(true, 2), 0b100);
    assert_eq!(as_bit_flag(false, 7), 0);
}

#[test]
fn pointer_resolves_to_earlier_name() {
    let mut buf = [0u8; 512];
    let example = serialize_name("example.com").unwrap();
    buf[12..12 + example.len()].copy_from_slice(&example);
    buf[40] = 0xC0;
    buf[41] = 12;
    let (name, end) = deserialize_name(&buf, 40).unwrap();
    assert_eq!(name, "example.com");
    assert_eq!(end, 42);
}

#[test]
fn labels_then_pointer() {
    let mut buf = [0u8; 512];
    let example = serialize_name("example.com").unwrap();
    buf[12..12 + example.len()].copy_from_slice(&example);
    buf[40..44].copy_from_slice(&[3, b'w', b'w', b'w']);
    buf[44] = 0xC0;
    buf[45] = 12;
    let (name, end) = deserialize_name(&buf, 40).unwrap();
    assert_eq!(name, "www.example.com");
    assert_eq!(end, 46);
}

#[test]
fn pointer_cycle_fails() {
    let mut buf = [0u8; 512];
    buf[20] = 0xC0;
    buf[21] = 20;
    assert_eq!(deserialize_name(&buf, 20), Err(DnsError::MalformedName));
}

#[test]
fn two_pointer_cycle_fails() {
    let mut buf = [0u8; 512];
    buf[20] = 0xC0;
    buf[21] = 30;
    buf[30] = 0xC0;
    buf[31] = 20;
    assert_eq!(deserialize_name(&buf, 20), Err(DnsError::MalformedName));
}

#[test]
fn name_past_the_end_fails() {
    let buf = [5u8, b'a', b'b'];
    assert_eq!(deserialize_name(&buf, 0), Err(DnsError::MalformedName));
    assert_eq!(deserialize_name(&buf, 3), Err(DnsError::MalformedName));
}

#[test]
fn invalid_utf8_label_fails() {
    let buf = [1u8, 0xFF, 0];
    assert_eq!(deserialize_name(&buf, 0), Err(DnsError::MalformedName));
}

fn sample_message() -> DnsMessage {
    DnsMessage {
        header: Header {
            packet_id: 77,
            qr_ind: QueryResponseIndicator::Response,
            op_code: OperationCode::Query,
            is_auth_ans: false,
            is_trunc: false,
            is_rec_desired: true,
            is_rec_available: false,
            r_code: ResponseCode::NoError,
            qd_count: 2,
            an_count: 2,
            ns_count: 0,
            ar_count: 0,
        },
        questions: vec![
            Question { name: "codecrafters.io".to_string(), record_type: 1, class: 1 },
            Question { name: "a.b.c".to_string(), record_type: 28, class: 1 },
        ],
        answers: vec![
            Answer {
                name: "codecrafters.io".to_string(),
                record_type: 1,
                class: 1,
                time_to_live: 0x01020304,
                length: 4,
                data: vec![1, 2, 3, 4],
            },
            Answer {
                name: "x".to_string(),
                record_type: 1,
                class: 1,
                time_to_live: 60,
                length: 4,
                data: vec![9, 9, 9, 9],
            },
        ],
    }
}

#[test]
fn message_round_trip() {
    let m = sample_message();
    let bytes = message_bytes(&m);
    let d = DnsMessage::deserialize(&bytes).unwrap();
    assert_eq!(d.header, m.header);
    assert_eq!(d.questions.len(), 2);
    assert_eq!(d.answers.len(), 2);
    for (a, b) in d.questions.iter().zip(m.questions.iter()) {
        assert_eq!(a.name, b.name);
        assert_eq!(a.record_type, b.record_type);
        assert_eq!(a.class, b.class);
    }
    for (a, b) in d.answers.iter().zip(m.answers.iter()) {
        assert_eq!(a.name, b.name);
        assert_eq!(a.time_to_live, b.time_to_live);
        assert_eq!(a.length, b.length);
        assert_eq!(a.data, b.data);
    }
}

#[test]
fn empty_message_round_trip() {
    let mut m = sample_message();
    m.questions.clear();
    m.answers.clear();
    m.header.qd_count = 0;
    m.header.an_count = 0;
    let bytes = message_bytes(&m);
    assert!(bytes[12..].iter().all(|b| *b == 0));
    let d = DnsMessage::deserialize(&bytes).unwrap();
    assert_eq!(d.header, m.header);
    assert!(d.questions.is_empty() && d.answers.is_empty());
}

#[test]
fn message_layout_is_exact() {
    let m = sample_message();
    let bytes = message_bytes(&m);
    let q = serialize_name("codecrafters.io").unwrap();
    assert_eq!(&bytes[12..12 + q.len()], &q[..]);
    assert_eq!(&bytes[12 + q.len()..16 + q.len()], &[0, 1, 0, 1]);
}

#[test]
fn message_too_large_fails() {
    let mut m = sample_message();
    let label = "a".repeat(60);
    let long = vec![label.as_str(); 8].join(".");
    m.questions[0].name = long.clone();
    m.questions[1].name = long;
    assert_eq!(m.serialize(), Err(DnsError::EncodingOverflow));
}

#[test]
fn unsupported_answer_fails() {
    let mut m = sample_message();
    m.answers[1].record_type = 5;
    let bytes = message_bytes(&m);
    assert_eq!(DnsMessage::deserialize(&bytes).err(), Some(DnsError::UnsupportedRecord));
}

#[test]
fn record_past_the_end_is_malformed() {
    // One question whose name ends at offset 509: no room for its type and class.
    let mut bytes = [0u8; 512];
    bytes[5] = 1;
    bytes[12..508].fill(b'q');
    for k in 0..7 {
        bytes[12 + 64 * k] = 63;
    }
    bytes[460] = 47;
    bytes[508] = 0;
    assert_eq!(DnsMessage::deserialize(&bytes).err(), Some(DnsError::MalformedName));
}

#[test]
fn answer_reads_four_data_bytes_whatever_the_length_field() {
    let mut m = sample_message();
    m.answers[0].length = 9;
    let bytes = message_bytes(&m);
    let d = DnsMessage::deserialize(&bytes).unwrap();
    assert_eq!(d.answers[0].length, 9);
    assert_eq!(d.answers[0].data, vec![1, 2, 3, 4]);
    assert_eq!(d.answers[1].data, vec![9, 9, 9, 9]);
}
