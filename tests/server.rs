use dns_server::{
    get_response, DnsMessage, DnsServerConfig, DnsServerMode, Forwarding, Header, OperationCode,
    QueryResponseIndicator, Question, ResponseCode, Answer,
};

fn query_bytes(id: u16, names: &[&str]) -> [u8; 512] {
    let mut buf = [0u8; 512];
    buf[0] = (id >> 8) as u8;
    buf[1] = id as u8;
    buf[2] = 0x01;
    buf[5] = names.len() as u8;
    let mut pos = 12;
    for name in names {
        for label in name.split('.') {
            buf[pos] = label.len() as u8;
            buf[pos + 1..pos + 1 + label.len()].copy_from_slice(label.as_bytes());
            pos += 1 + label.len();
        }
        buf[pos] = 0;
        buf[pos + 1..pos + 5].copy_from_slice(&[0, 1, 0, 1]);
        pos += 5;
    }
    buf
}

fn reply_for(query: &DnsMessage, address: [u8; 4]) -> DnsMessage {
    let q = &query.questions[0];
    DnsMessage {
        header: Header {
            qr_ind: QueryResponseIndicator::Response,
            an_count: 1,
            ..query.header
        },
        questions: vec![Question { name: q.name.clone(), record_type: q.record_type, class: q.class }],
        answers: vec![Answer {
            name: q.name.clone(),
            record_type: 1,
            class: 1,
            time_to_live: 300,
            length: 4,
            data: address.to_vec(),
        }],
    }
}

#[test]
fn resolving_end_to_end() {
    let buf = query_bytes(0x1234, &["codecrafters.io"]);
    let query = DnsMessage::deserialize(&buf).unwrap();
    assert_eq!(query.header.packet_id, 0x1234);
    assert!(query.header.is_rec_desired);
    assert_eq!(query.questions.len(), 1);
    assert_eq!(query.questions[0].name, "codecrafters.io");

    let response = get_response(&query);
    let bytes = response.serialize().unwrap();
    let decoded = DnsMessage::deserialize(&bytes).unwrap();
    assert_eq!(decoded.header.packet_id, 0x1234);
    assert_eq!(decoded.header.qr_ind, QueryResponseIndicator::Response);
    assert_eq!(decoded.header.an_count, 1);
    assert_eq!(decoded.header.r_code, ResponseCode::NoError);
    assert!(decoded.header.is_rec_desired);
    assert_eq!(decoded.answers.len(), 1);
    let a = &decoded.answers[0];
    assert_eq!(a.name, "codecrafters.io");
    assert_eq!(a.record_type, 1);
    assert_eq!(a.class, 1);
    assert_eq!(a.time_to_live, 60);
    assert_eq!(a.data, vec![8, 8, 8, 8]);
}

#[test]
fn resolving_other_opcode_is_not_implemented() {
    let mut buf = query_bytes(7, &["a.io", "b.io"]);
    buf[2] = 1 << 3;
    let query = DnsMessage::deserialize(&buf).unwrap();
    assert_eq!(query.header.op_code, OperationCode::IQuery);
    let response = get_response(&query);
    assert_eq!(response.header.r_code, ResponseCode::NotImplemented);
    assert_eq!(response.header.qd_count, 2);
    assert_eq!(response.header.an_count, 2);
    assert_eq!(response.answers[1].name, "b.io");
}

#[test]
fn forwarding_two_questions_in_order() {
    let buf = query_bytes(0x4242, &["first.example", "second.example"]);
    let query = DnsMessage::deserialize(&buf).unwrap();
    let mut session = Forwarding::new(query);
    let mut sent = Vec::new();
    let mut address = 1u8;
    while let Some(upstream) = session.upstream_query() {
        assert_eq!(upstream.header.qd_count, 1);
        assert_eq!(upstream.questions.len(), 1);
        assert_eq!(upstream.header.packet_id, 0x4242);
        sent.push(upstream.questions[0].name.clone());
        let reply = reply_for(&upstream, [address; 4]);
        address += 1;
        session.on_reply(Some(reply));
    }
    assert_eq!(sent, vec!["first.example".to_string(), "second.example".to_string()]);
    let response = session.finish();
    assert_eq!(response.header.packet_id, 0x4242);
    assert_eq!(response.header.qr_ind, QueryResponseIndicator::Response);
    assert_eq!(response.header.r_code, ResponseCode::NoError);
    assert_eq!(response.header.qd_count, 2);
    assert_eq!(response.header.an_count, 2);
    assert_eq!(response.questions[0].name, "first.example");
    assert_eq!(response.questions[1].name, "second.example");
    assert_eq!(response.answers[0].data, vec![1, 1, 1, 1]);
    assert_eq!(response.answers[1].data, vec![2, 2, 2, 2]);
    assert!(response.serialize().is_ok());
}

#[test]
fn forwarding_failure_reports_server_failure() {
    let buf = query_bytes(9, &["up.example", "down.example"]);
    let query = DnsMessage::deserialize(&buf).unwrap();
    let mut session = Forwarding::new(query);
    let first = session.upstream_query().unwrap();
    session.on_reply(Some(reply_for(&first, [5, 5, 5, 5])));
    assert!(session.upstream_query().is_some());
    session.on_reply(None);
    assert!(session.upstream_query().is_none());
    let response = session.finish();
    assert_eq!(response.header.r_code, ResponseCode::ServerFailure);
    assert_eq!(response.header.qd_count, 2);
    assert_eq!(response.header.an_count, 1);
    assert_eq!(response.questions[1].name, "down.example");
}

#[test]
fn config_selects_forwarding() {
    let args = vec!["prog".to_string(), "--resolver".to_string(), "8.8.8.8:53".to_string()];
    let config = DnsServerConfig::new(args);
    assert_eq!(config.bind_addr, "127.0.0.1:2053");
    match config.mode {
        DnsServerMode::ForwardingServer(addr) => assert_eq!(addr, "8.8.8.8:53"),
        DnsServerMode::ResolvingServer => panic!("expected forwarding"),
    }
}

#[test]
fn config_falls_back_to_resolving() {
    for args in [
        vec!["prog".to_string()],
        vec!["prog".to_string(), "--resolver".to_string()],
        vec!["prog".to_string(), "--other".to_string(), "x".to_string()],
    ] {
        let config = DnsServerConfig::new(args);
        assert!(matches!(config.mode, DnsServerMode::ResolvingServer));
    }
}
