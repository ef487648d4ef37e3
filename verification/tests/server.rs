use bson::Document;
use zawgl::server::{decode_open_cypher_request, next_action, open_cypher_prefix, ConnectionAction, Incoming, RequestError};

fn frame(doc: &Document) -> Vec<u8> {
    let mut data = b"!application/openCypher".to_vec();
    doc.to_writer(&mut data).unwrap();
    data
}

#[test]
fn decodes_a_framed_document() {
    let mut doc = Document::new();
    doc.insert("query", "MATCH (n) RETURN n");
    let decoded = decode_open_cypher_request(&frame(&doc)).unwrap();
    assert_eq!(decoded, doc);
    assert_eq!(decoded.get_str("query").unwrap(), "MATCH (n) RETURN n");
}

#[test]
fn refuses_a_frame_without_the_header() {
    assert!(matches!(decode_open_cypher_request(b"!application/json{}"), Err(RequestError::HeaderError)));
    assert!(matches!(decode_open_cypher_request(b"!application/openCypher"), Err(RequestError::HeaderError)));
    assert!(matches!(decode_open_cypher_request(b""), Err(RequestError::HeaderError)));
}

#[test]
fn refuses_a_payload_that_is_not_bson() {
    let mut data = b"!application/openCypher".to_vec();
    data.extend_from_slice(&[1, 2]);
    assert!(matches!(decode_open_cypher_request(&data), Err(RequestError::ParsingError(_))));
}

#[test]
fn the_header_bytes() {
    assert_eq!(open_cypher_prefix(), b"!application/openCypher".to_vec());
}

fn nested(depth: usize) -> Document {
    let mut doc = Document::new();
    doc.insert("leaf", 1);
    for _ in 0..depth {
        let mut outer = Document::new();
        outer.insert("d", doc);
        doc = outer;
    }
    doc
}

#[test]
fn decodes_a_moderately_nested_document() {
    let doc = nested(50);
    assert_eq!(decode_open_cypher_request(&frame(&doc)).unwrap(), doc);
}

/// The bytes of a document nested `depth` levels deep: each level holds
/// one document under the key "d".
fn nested_bytes(depth: usize) -> Vec<u8> {
    let mut doc = vec![5u8, 0, 0, 0, 0];
    for _ in 1..depth {
        let mut body = vec![3u8, b'd', 0];
        body.extend_from_slice(&doc);
        body.push(0);
        let mut outer = ((body.len() + 4) as i32).to_le_bytes().to_vec();
        outer.extend_from_slice(&body);
        doc = outer;
    }
    doc
}

#[test]
fn refuses_a_payload_that_nests_too_deeply() {
    let mut data = b"!application/openCypher".to_vec();
    data.extend_from_slice(&nested_bytes(101));
    assert!(matches!(decode_open_cypher_request(&data), Err(RequestError::NestingError)));
}

#[test]
fn decodes_a_payload_nested_up_to_the_limit() {
    let mut data = b"!application/openCypher".to_vec();
    data.extend_from_slice(&nested_bytes(100));
    assert!(decode_open_cypher_request(&data).is_ok());
}

#[test]
fn a_long_array_of_small_integers_is_decoded() {
    let mut doc = Document::new();
    let values: Vec<bson::Bson> = (0..1000).map(|i| bson::Bson::Int32(3 + (i % 2))).collect();
    doc.insert("values", values);
    assert_eq!(decode_open_cypher_request(&frame(&doc)).unwrap(), doc);
}

#[test]
fn a_truncated_payload_is_a_parsing_error() {
    let mut data = b"!application/openCypher".to_vec();
    data.extend_from_slice(&[3u8; 1500]);
    assert!(matches!(decode_open_cypher_request(&data), Err(RequestError::ParsingError(_))));
}

#[test]
fn a_long_payload_without_nesting_marks_is_decoded() {
    let mut doc = Document::new();
    doc.insert("query", "MATCH (n) RETURN n ".repeat(200));
    assert_eq!(decode_open_cypher_request(&frame(&doc)).unwrap(), doc);
}

#[test]
fn the_decoded_document_keeps_the_payload_keys_in_order() {
    let mut inner = Document::new();
    inner.insert("b", 1);
    let mut doc = Document::new();
    doc.insert("z", "last letter");
    doc.insert("a", inner);
    let decoded = decode_open_cypher_request(&frame(&doc)).unwrap();
    let keys: Vec<&String> = decoded.keys().collect();
    assert_eq!(keys, vec!["z", "a"]);
}

#[test]
fn a_connection_forwards_requests_and_stops_on_close() {
    let mut doc = Document::new();
    doc.insert("query", "RETURN 1");
    match next_action(Incoming::Binary(frame(&doc))) {
        ConnectionAction::Forward(d) => assert_eq!(d, doc),
        _ => panic!("expected the request to be forwarded"),
    }
    assert!(matches!(next_action(Incoming::Binary(b"hello".to_vec())), ConnectionAction::Refuse(RequestError::HeaderError)));
    assert!(matches!(next_action(Incoming::Close), ConnectionAction::Stop));
    assert!(matches!(next_action(Incoming::Other), ConnectionAction::Skip));
}
