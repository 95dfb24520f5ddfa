use pool_miner::connect::{
    assemble, dial, open_handshake, read_timestamp, redial_after, timestamp_url, websocket_url, Dial,
    Handshake, Retry, TimestampReply, UrlError, UrlParts,
};
use pool_miner::miner::Miner;

const ADDRESS: &str = "2gPihUTjt3FJqf1VpidgrY5cZ6PuyMccGVwQHRfjMPZG";
const KEY: [u8; 32] = [
    24, 243, 6, 223, 230, 153, 210, 8, 92, 137, 123, 67, 164, 197, 79, 196, 125, 43, 183, 85, 103,
    91, 232, 167, 73, 131, 104, 131, 0, 101, 214, 231,
];

fn header(handshake: &Handshake, i: usize) -> (&str, &str) {
    (handshake.headers[i].name, handshake.headers[i].value.as_str())
}

#[test]
fn addresses_of_miners() {
    let miner = Miner::from_address(ADDRESS).unwrap();
    assert_eq!(&miner.ready_message(1)[1..33], &KEY);
    let zeros = Miner::from_address("11111111111111111111111111111111").unwrap();
    assert_eq!(&zeros.ready_message(1)[1..33], &[0; 32]);
    let vote = Miner::from_address("Vote111111111111111111111111111111111111111").unwrap();
    let vote_key = [
        7, 97, 72, 29, 53, 116, 116, 187, 124, 77, 118, 36, 235, 211, 189, 179, 216, 53, 94, 115,
        209, 16, 67, 252, 13, 163, 83, 128, 0, 0, 0, 0,
    ];
    assert_eq!(&vote.ready_message(1)[1..33], &vote_key);
    let small = Miner::from_address("111KWCfMfKoLt2cZbE5UcrZknqeER1Q4vVBx4Epu58").unwrap();
    assert_eq!(&small.ready_message(1)[1..4], &[0; 3]);
    assert_eq!(&small.ready_message(1)[4..33], &[7; 29]);
    let most = "JEKNVnkbo3jma5nREBBJCDoXFVeKkD56V3xKrvRmWxFG";
    assert_eq!(&Miner::from_address(most).unwrap().ready_message(1)[1..33], &[255; 32]);
    for bad in [
        "JEKNVnkbo3jma5nREBBJCDoXFVeKkD56V3xKrvRmWxFH",
        "11KWCfMfKoLt2cZbE5UcrZknqeER1Q4vVBx4Epu58",
        "1111KWCfMfKoLt2cZbE5UcrZknqeER1Q4vVBx4Epu58",
        "Vote11111111111111111111111111111111111111l",
        "\u{00e9}",
    ] {
        assert!(Miner::from_address(bad).is_none(), "{:?}", bad);
    }
    let long = "1".repeat(45);
    for bad in ["", "1", "0OIl", "not an address", "1111111111111111111111111111111", long.as_str()] {
        assert!(Miner::from_address(bad).is_none(), "{:?}", bad);
    }
}

#[test]
fn authorization_of_a_miner() {
    assert_eq!(
        Miner::from_address(ADDRESS).unwrap().authorization(),
        "Basic MmdQaWhVVGp0M0ZKcWYxVnBpZGdyWTVjWjZQdXlNY2NHVndRSFJmak1QWkc6"
    );
    assert_eq!(
        Miner::from_address("11111111111111111111111111111111").unwrap().authorization(),
        "Basic MTExMTExMTExMTExMTExMTExMTExMTExMTExMTExMTE6"
    );
}

#[test]
fn addresses_of_servers() {
    assert_eq!(timestamp_url("host:80"), "http://host:80/timestamp");
    assert_eq!(websocket_url("host:80", 17), "ws://host:80/?timestamp=17");
    assert_eq!(websocket_url("host/", 0), "ws://host/?timestamp=0");
    let url = websocket_url("host", 1_723_000_000);
    let given = url.strip_prefix("ws://host/?timestamp=").unwrap().to_string();
    assert_eq!(read_timestamp(&TimestampReply::Body(given)), Ok(1_723_000_000));
    assert_eq!(websocket_url("", u64::MAX), "ws://?timestamp=18446744073709551615");
}

#[test]
fn replies_to_the_question_for_the_time() {
    assert_eq!(read_timestamp(&TimestampReply::Body("1723".to_string())), Ok(1723));
    assert_eq!(
        read_timestamp(&TimestampReply::Body("1723\n".to_string())),
        Err(Retry::BadTimestamp)
    );
    assert_eq!(read_timestamp(&TimestampReply::NoBody), Err(Retry::EmptyBody));
    assert_eq!(read_timestamp(&TimestampReply::Unreachable), Err(Retry::Restarting));
    assert_eq!(Retry::Restarting.message(), "Server restarting, trying again in 3 seconds...");
    assert_eq!(
        Retry::EmptyBody.message(),
        "Server response body for /timestamp is empty, contact admin."
    );
    assert_eq!(
        Retry::BadTimestamp.message(),
        "Server response body for /timestamp failed to parse, contact admin."
    );
}

#[test]
fn handshake_with_a_server() {
    let miner = Miner::from_address(ADDRESS).unwrap();
    let handshake = open_handshake(&miner, "Example.COM:3000", 12).unwrap();
    assert_eq!(handshake.method, "GET");
    assert_eq!(handshake.uri, "ws://example.com:3000/?timestamp=12");
    assert_eq!(handshake.headers.len(), 6);
    let (name, key) = header(&handshake, 0);
    assert_eq!(name, "Sec-Websocket-Key");
    assert_eq!(key.len(), 24);
    assert!(key.ends_with("=="));
    assert_eq!(header(&handshake, 1), ("Host", "example.com"));
    assert_eq!(header(&handshake, 2), ("Upgrade", "websocket"));
    assert_eq!(header(&handshake, 3), ("Connection", "upgrade"));
    assert_eq!(header(&handshake, 4), ("Sec-Websocket-Version", "13"));
    assert_eq!(header(&handshake, 5), ("Authorization", miner.authorization().as_str()));
    let again = open_handshake(&miner, "Example.COM:3000", 12).unwrap();
    assert_ne!(header(&again, 0), header(&handshake, 0));
}

#[test]
fn handshake_that_cannot_be_made() {
    let miner = Miner::from_address(ADDRESS).unwrap();
    assert!(matches!(open_handshake(&miner, "", 12), Err(UrlError::Unparsable)));
    assert!(matches!(open_handshake(&miner, "a b", 12), Err(UrlError::Unparsable)));
    let parts = UrlParts { text: "unix:/run".to_string(), host: None };
    let made = assemble(Some(parts), "a".to_string(), "k".to_string());
    assert!(matches!(made, Err(UrlError::NoHost)));
    assert!(matches!(
        assemble(None, "a".to_string(), "k".to_string()),
        Err(UrlError::Unparsable)
    ));
    assert_eq!(UrlError::Unparsable.message(), "Failed to parse server url");
    assert_eq!(UrlError::NoHost.message(), "Invalid host in server url");
}

#[test]
fn dialling_a_server() {
    let miner = Miner::from_address(ADDRESS).unwrap();
    match dial(&miner, "host", &TimestampReply::Body("5".to_string())) {
        Dial::Connect(timestamp, handshake) => {
            assert_eq!(timestamp, 5);
            assert_eq!(handshake.uri, "ws://host/?timestamp=5");
        }
        other => panic!("{:?}", other),
    }
    assert!(matches!(
        dial(&miner, "host", &TimestampReply::Unreachable),
        Dial::Wait(Retry::Restarting)
    ));
    assert!(matches!(
        dial(&miner, "", &TimestampReply::Body("5".to_string())),
        Dial::GiveUp(5, UrlError::Unparsable)
    ));
}

#[test]
fn waiting_for_a_server() {
    assert_eq!(redial_after(true), 3);
    assert_eq!(redial_after(false), 0);
}
