use skat_server::connection::{
    decode_frame, encode_frame, login_name, route_incoming, timed_out, Incoming, FRAME_END,
};
use skat_server::lobby::LobbyCommand;
use skat_server::proto::{Card, Message, Rank, Suit};
use skat_server::text::extract_inside_parentheses;

#[test]
fn frame_round_trip() {
    let payload = b"{\"Bid\":18}".to_vec();
    let framed = encode_frame(&payload);
    assert_eq!(framed.last(), Some(&FRAME_END));
    assert_eq!(framed.len(), payload.len() + 1);
    let (p, n) = decode_frame(&framed).unwrap();
    assert_eq!(p, payload);
    assert_eq!(n, framed.len());
}

#[test]
fn frame_leaves_following_bytes() {
    let mut stream = encode_frame(&b"first".to_vec());
    stream.extend(encode_frame(&b"second".to_vec()));
    let (p, n) = decode_frame(&stream).unwrap();
    assert_eq!(p, b"first".to_vec());
    let rest = stream[n..].to_vec();
    let (q, m) = decode_frame(&rest).unwrap();
    assert_eq!(q, b"second".to_vec());
    assert_eq!(m, rest.len());
}

#[test]
fn partial_frame_waits() {
    assert!(decode_frame(&b"no end yet".to_vec()).is_none());
    assert!(decode_frame(&vec![]).is_none());
    let (p, n) = decode_frame(&vec![FRAME_END]).unwrap();
    assert!(p.is_empty());
    assert_eq!(n, 1);
}

#[test]
fn reader_routes_frames() {
    assert!(matches!(route_incoming(4, Some(Message::KeepAlive(77))), Incoming::KeepAlive(77)));
    assert!(matches!(
        route_incoming(4, Some(Message::JoinGame)),
        Incoming::Command(LobbyCommand::JoinGame { player_id: 4 })
    ));
    assert!(matches!(route_incoming(4, None), Incoming::Command(LobbyCommand::Disconnect { player_id: 4 })));
    match route_incoming(4, Some(Message::Login("Ann".to_string()))) {
        Incoming::Game(m) => assert_eq!(m, Message::Login("Ann".to_string())),
        other => panic!("unexpected {:?}", other),
    }
    match route_incoming(4, Some(Message::Disconnect)) {
        Incoming::Game(m) => assert_eq!(m, Message::Disconnect),
        other => panic!("unexpected {:?}", other),
    }
    let c = Card { suit: Suit::Hearts, rank: Rank::King };
    match route_incoming(4, Some(Message::PlayCard(c))) {
        Incoming::Game(m) => assert_eq!(m, Message::PlayCard(c)),
        other => panic!("unexpected {:?}", other),
    }
}

#[test]
fn keep_alive_watchdog() {
    assert!(!timed_out(10_000, 10_000));
    assert!(!timed_out(15_000, 10_000));
    assert!(timed_out(15_001, 10_000));
    assert!(!timed_out(5, 10_000));
}

#[test]
fn login_message_gives_name() {
    assert_eq!(login_name(Message::Login("Bo".to_string())), Some("Bo".to_string()));
    assert_eq!(login_name(Message::JoinGame), None);
}

#[test]
fn parentheses_are_stripped() {
    assert_eq!(extract_inside_parentheses("(Card)"), Some("Card".to_string()));
    assert_eq!(extract_inside_parentheses("()"), Some(String::new()));
    assert_eq!(extract_inside_parentheses("Card"), None);
    assert_eq!(extract_inside_parentheses("(Card"), None);
    assert_eq!(extract_inside_parentheses(")"), None);
    assert_eq!(extract_inside_parentheses(""), None);
}
