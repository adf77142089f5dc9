use rdht::errors::{Error, ParseError};
use rdht::protocl::KRPC;
use rdht::protocl::{DHTQuery, DHTResponse};

fn b(t: &str) -> Vec<u8> {
    t.as_bytes().to_vec()
}

#[test]
fn test_ping_decode() {
    let ping = KRPC::decode(b"d1:ad2:id20:abcdefghij0123456789e1:q4:ping1:t2:aa1:y1:qe");
    assert_eq!(
        ping,
        Ok(KRPC::Query(
            b("aa"),
            DHTQuery::Ping {
                id: b("abcdefghij0123456789")
            }
        ))
    );
    let ping = KRPC::decode(b"d1:rd2:id20:mnopqrstuvwxyz123456e1:t2:aa1:y1:re");
    assert_eq!(
        ping,
        Ok(KRPC::Response(
            b("aa"),
            DHTResponse::ID {
                id: b("mnopqrstuvwxyz123456")
            }
        ))
    );
}

#[test]
fn test_find_node_decode() {
    let find_node = KRPC::decode(
        b"d1:ad2:id20:abcdefghij01234567896:target20:mnopqrstuvwxyz123456e1:q9:find_node1:t2:aa1:y1:qe",
    );
    assert_eq!(
        find_node,
        Ok(KRPC::Query(
            b("aa"),
            DHTQuery::FindNode {
                id: b("abcdefghij0123456789"),
                target: b("mnopqrstuvwxyz123456"),
            }
        ))
    );
    let find_node =
        KRPC::decode(b"d1:rd2:id20:0123456789abcdefghij5:nodes9:def456...e1:t2:aa1:y1:re");
    assert_eq!(
        find_node,
        Ok(KRPC::Response(
            b("aa"),
            DHTResponse::FindNode {
                id: b("0123456789abcdefghij"),
                nodes: b("def456..."),
            }
        ))
    );
}

#[test]
fn test_announce_peer_decode() {
    let announce_peer = KRPC::decode(b"d1:ad2:id20:abcdefghij012345678912:implied_porti1e9:info_hash20:mnopqrstuvwxyz1234564:porti6881e5:token8:aoeusnthe1:q13:announce_peer1:t2:aa1:y1:qe");
    assert_eq!(
        announce_peer,
        Ok(KRPC::Query(
            b("aa"),
            DHTQuery::AnnouncePeer {
                id: b("abcdefghij0123456789"),
                impiled_port: 1,
                port: 6881,
                info_hash: b("mnopqrstuvwxyz123456"),
                token: b("aoeusnth"),
            }
        ))
    );
    let announce_peer = KRPC::decode(b"d1:rd2:id20:mnopqrstuvwxyz123456e1:t2:aa1:y1:re");
    assert_eq!(
        announce_peer,
        Ok(KRPC::Response(
            b("aa"),
            DHTResponse::ID {
                id: b("mnopqrstuvwxyz123456")
            }
        ))
    );
}

#[test]
fn test_error_decode() {
    let error = KRPC::decode(b"d1:eli201e23:A Generic Error Ocurrede1:t2:aa1:y1:ee");
    assert_eq!(
        error,
        Ok(KRPC::Error(b("aa"), 201, b("A Generic Error Ocurred")))
    );
}

#[test]
fn get_peers_query_and_response_decode() {
    assert_eq!(
        KRPC::decode(b"d1:ad2:id20:abcdefghij01234567899:info_hash20:mnopqrstuvwxyz123456e1:q9:get_peers1:t2:aa1:y1:qe"),
        Ok(KRPC::Query(
            b("aa"),
            DHTQuery::GetPeers {
                id: b("abcdefghij0123456789"),
                info_hash: b("mnopqrstuvwxyz123456"),
            }
        ))
    );
    assert_eq!(
        KRPC::decode(b"d1:rd2:id20:abcdefghij01234567895:token8:aoeusnth6:valuesl6:axje.u6:idhtnmee1:t2:aa1:y1:re"),
        Ok(KRPC::Response(
            b("aa"),
            DHTResponse::GetPeers {
                id: b("abcdefghij0123456789"),
                token: b("aoeusnth"),
                values: vec![b("axje.u"), b("idhtnm")],
            }
        ))
    );
}

#[test]
fn values_win_over_nodes() {
    assert_eq!(
        KRPC::decode(b"d1:rd2:id2:xy5:nodes3:abc5:token1:k6:valuesl6:123456ee1:t1:z1:y1:re"),
        Ok(KRPC::Response(
            b("z"),
            DHTResponse::GetPeers {
                id: b("xy"),
                token: b("k"),
                values: vec![b("123456")],
            }
        ))
    );
    // values without a token
    assert_eq!(
        KRPC::decode(b"d1:rd2:id2:xy6:valuesl6:123456ee1:t1:z1:y1:re"),
        Err(Error::InvalidKRPC)
    );
}

#[test]
fn unknown_query_method_is_invalid() {
    assert_eq!(
        KRPC::decode(b"d1:ad2:id20:abcdefghij0123456789e1:q4:pong1:t2:aa1:y1:qe"),
        Err(Error::InvalidKRPC)
    );
}

#[test]
fn response_without_id_is_invalid() {
    assert_eq!(
        KRPC::decode(b"d1:rd5:nodes3:abce1:t2:aa1:y1:re"),
        Err(Error::InvalidKRPC)
    );
}

#[test]
fn envelope_errors() {
    // not a dictionary
    assert_eq!(KRPC::decode(b"i1e"), Err(Error::InvalidKRPC));
    // empty transaction id
    assert_eq!(
        KRPC::decode(b"d1:rd2:id1:xe1:t0:1:y1:re"),
        Err(Error::InvalidKRPC)
    );
    // unknown kind
    assert_eq!(
        KRPC::decode(b"d1:rd2:id1:xe1:t1:a1:y1:xe"),
        Err(Error::InvalidKRPC)
    );
    // error list of the wrong shape
    assert_eq!(
        KRPC::decode(b"d1:eli201ee1:t2:aa1:y1:ee"),
        Err(Error::InvalidKRPC)
    );
    // implied_port out of range
    assert_eq!(
        KRPC::decode(b"d1:ad2:id1:x12:implied_porti2e9:info_hash1:h4:porti1e5:token1:ke1:q13:announce_peer1:t1:a1:y1:qe"),
        Err(Error::InvalidKRPC)
    );
    // port out of range
    assert_eq!(
        KRPC::decode(b"d1:ad2:id1:x12:implied_porti0e9:info_hash1:h4:porti65536e5:token1:ke1:q13:announce_peer1:t1:a1:y1:qe"),
        Err(Error::InvalidKRPC)
    );
    // bencode errors come through
    assert_eq!(
        KRPC::decode(b"d1:t2:aa"),
        Err(Error::BencodeParseError(ParseError::DictEnd))
    );
}

#[test]
fn encode_ping_query() {
    let m = KRPC::Query(
        b("aa"),
        DHTQuery::Ping {
            id: b("abcdefghij0123456789"),
        },
    );
    assert_eq!(
        m.encode(),
        Ok(b("d1:ad2:id20:abcdefghij0123456789e1:q4:ping1:t2:aa1:y1:qe"))
    );
}

#[test]
fn encode_error_message() {
    let m = KRPC::Error(b("aa"), 201, b("A Generic Error Ocurred"));
    assert_eq!(
        m.encode(),
        Ok(b("d1:eli201e23:A Generic Error Ocurrede1:t2:aa1:y1:ee"))
    );
}

#[test]
fn messages_survive_encode_and_decode() {
    let msgs = vec![
        KRPC::Query(b("t1"), DHTQuery::Ping { id: b("abcdefghij0123456789") }),
        KRPC::Query(
            b("t2"),
            DHTQuery::FindNode { id: b("abcdefghij0123456789"), target: b("mnopqrstuvwxyz123456") },
        ),
        KRPC::Query(
            b("t3"),
            DHTQuery::GetPeers { id: b("abcdefghij0123456789"), info_hash: b("mnopqrstuvwxyz123456") },
        ),
        KRPC::Query(
            b("t4"),
            DHTQuery::AnnouncePeer {
                id: b("abcdefghij0123456789"),
                impiled_port: 0,
                port: 6881,
                info_hash: b("mnopqrstuvwxyz123456"),
                token: b("aoeusnth"),
            },
        ),
        KRPC::Response(b("t5"), DHTResponse::ID { id: b("mnopqrstuvwxyz123456") }),
        KRPC::Response(
            b("t6"),
            DHTResponse::FindNode { id: b("mnopqrstuvwxyz123456"), nodes: b("def456...") },
        ),
        KRPC::Response(
            b("t7"),
            DHTResponse::GetPeers {
                id: b("mnopqrstuvwxyz123456"),
                token: b("tok"),
                values: vec![b("axje.u"), b("idhtnm")],
            },
        ),
        KRPC::Error(b("t8"), 203, b("Protocol Error")),
    ];
    for m in msgs {
        let bytes = m.encode().unwrap();
        assert_eq!(KRPC::decode(&bytes), Ok(m));
    }
}

#[test]
fn encode_refuses_messages_decode_would_reject() {
    let empty_tid = KRPC::Response(Vec::new(), DHTResponse::ID { id: b("x") });
    assert_eq!(empty_tid.encode(), Err(Error::InvalidValue));
    let bad_port = KRPC::Query(
        b("aa"),
        DHTQuery::AnnouncePeer {
            id: b("x"),
            impiled_port: 2,
            port: 1,
            info_hash: b("h"),
            token: b("k"),
        },
    );
    assert_eq!(bad_port.encode(), Err(Error::InvalidValue));
}
