use emakiwm::base64::base64;
use emakiwm::sha1::sha1;
use emakiwm::ws::{
    answer_request, frame, handshake, handshake_accept, key_of_request, react, receive,
    request_progress, Reaction, Received, Request, OP_CLOSE, OP_PING, OP_TEXT,
};

#[test]
fn sha1_known_vector() {
    let hex: String = sha1(b"abc").iter().map(|b| format!("{b:02x}")).collect();
    assert_eq!(hex, "a9993e364706816aba3e25717850c26c9cd0d89d");
}

#[test]
fn handshake_accept_rfc6455_example() {
    assert_eq!(
        handshake_accept("dGhlIHNhbXBsZSBub25jZQ=="),
        "s3pPLMBiTxaQ9kYGzzhZRbK+xOo="
    );
}

#[test]
fn base64_padding() {
    assert_eq!(base64(b"f"), "Zg==");
    assert_eq!(base64(b"fo"), "Zm8=");
    assert_eq!(base64(b"foo"), "Zm9v");
}

fn hex(bytes: &[u8]) -> String {
    bytes.iter().map(|b| format!("{b:02x}")).collect()
}

#[test]
fn sha1_of_other_lengths() {
    assert_eq!(
        hex(&sha1(b"")),
        "da39a3ee5e6b4b0d3255bfef95601890afd80709"
    );
    assert_eq!(
        hex(&sha1(
            b"abcdbcdecdefdefgefghfghighijhijkijkljklmklmnlmnomnopnopq"
        )),
        "84983e441c3bd26ebaae4aa1f95129e5e54670f1"
    );
    let million = vec![b'a'; 1_000_000];
    assert_eq!(
        hex(&sha1(&million)),
        "34aa973cd4c4daa4f61eeb2bdbad27316534016f"
    );
}

#[test]
fn base64_joins_full_groups() {
    let bytes: Vec<u8> = (0..200).collect();
    for n in [0, 3, 99, 198] {
        let joined = base64(&bytes[..n]) + &base64(&bytes[n..]);
        assert_eq!(joined, base64(&bytes));
    }
    for n in 0..9 {
        let pads = base64(&bytes[..n]).matches('=').count();
        assert_eq!(pads, (3 - n % 3) % 3);
    }
}

#[test]
fn base64_of_all_symbols() {
    assert_eq!(base64(b""), "");
    let mut bytes = Vec::new();
    for g in 0..16u32 {
        let n = ((4 * g) << 18) | ((4 * g + 1) << 12) | ((4 * g + 2) << 6) | (4 * g + 3);
        bytes.push((n >> 16) as u8);
        bytes.push((n >> 8) as u8);
        bytes.push(n as u8);
    }
    assert_eq!(
        base64(&bytes),
        "ABCDEFGHIJKLMNOPQRSTUVWXYZabcdefghijklmnopqrstuvwxyz0123456789+/"
    );
}

#[test]
fn frames_have_the_shortest_length() {
    assert_eq!(frame(OP_TEXT, b"hi"), vec![0x81, 2, b'h', b'i']);
    assert_eq!(&frame(OP_TEXT, &[0; 125])[..2], &[0x81, 125]);
    assert_eq!(&frame(OP_TEXT, &[0; 126])[..4], &[0x81, 126, 0, 126]);
    assert_eq!(&frame(OP_CLOSE, &[0; 65535])[..4], &[0x88, 126, 255, 255]);
    assert_eq!(
        &frame(OP_TEXT, &[0; 65536])[..10],
        &[0x81, 127, 0, 0, 0, 0, 0, 1, 0, 0]
    );
}

fn got(r: Received) -> (u8, Vec<u8>) {
    match r {
        Received::Frame(op, p) => (op, p),
        other => panic!("unexpected: {other:?}"),
    }
}

#[test]
fn frames_are_read_back() {
    for n in [0usize, 1, 125, 126, 300, 65535, 65536] {
        let payload: Vec<u8> = (0..n).map(|i| (i % 251) as u8).collect();
        let (op, back) = got(receive(&frame(OP_PING, &payload)));
        assert_eq!(op, OP_PING);
        assert_eq!(back, payload);
    }
}

#[test]
fn long_frames_are_refused() {
    let bytes = frame(OP_TEXT, &[0; 65537]);
    assert!(matches!(receive(&bytes), Received::Refuse));
    let huge = vec![0x82, 0xFF, 255, 255, 255, 255, 255, 255, 255, 255];
    assert!(matches!(receive(&huge), Received::Refuse));
}

#[test]
fn masked_frames_are_unmasked() {
    let mask = [0x37u8, 0xfa, 0x21, 0x3d];
    let bytes = vec![
        0x81, 0x85, 0x37, 0xfa, 0x21, 0x3d, 0x7f, 0x9f, 0x4d, 0x51, 0x58,
    ];
    assert_eq!(got(receive(&bytes)), (OP_TEXT, b"Hello".to_vec()));
    let payload = b"ping me again".to_vec();
    let mut bytes = vec![0x89, 0x80 | payload.len() as u8];
    bytes.extend_from_slice(&mask);
    for (i, b) in payload.iter().enumerate() {
        bytes.push(b ^ mask[i % 4]);
    }
    assert_eq!(got(receive(&bytes)), (OP_PING, payload));
}

#[test]
fn bytes_are_asked_for_part_by_part() {
    fn need(r: Received) -> usize {
        match r {
            Received::Need(n) => n,
            other => panic!("unexpected: {other:?}"),
        }
    }
    assert_eq!(need(receive(&vec![])), 2);
    assert_eq!(need(receive(&vec![0x81])), 2);
    assert_eq!(need(receive(&vec![0x81, 0x85])), 6);
    assert_eq!(need(receive(&vec![0x81, 0x85, 1, 2, 3, 4])), 11);
    assert_eq!(need(receive(&vec![0x81, 126])), 4);
    assert_eq!(need(receive(&vec![0x81, 127, 0, 0])), 10);
    let whole = frame(OP_TEXT, &[7; 300]);
    for k in 0..whole.len() {
        let n = need(receive(&whole[..k].to_vec()));
        assert!(k < n && n <= whole.len());
    }
}

#[test]
fn pings_and_closes_are_answered() {
    match react(OP_PING, b"x") {
        Reaction::Send(f) => assert_eq!(f, vec![0x8A, 1, b'x']),
        other => panic!("unexpected: {other:?}"),
    }
    match react(OP_CLOSE, &[3, 232]) {
        Reaction::Close(f) => assert_eq!(f, vec![0x88, 2, 3, 232]),
        other => panic!("unexpected: {other:?}"),
    }
    assert!(matches!(react(OP_TEXT, b"x"), Reaction::Ignore));
}

#[test]
fn requests_end_with_a_blank_line() {
    assert_eq!(request_progress(&vec![]), Request::More);
    assert_eq!(
        request_progress(&b"GET / HTTP/1.1\r\n".to_vec()),
        Request::More
    );
    assert_eq!(
        request_progress(&b"GET / HTTP/1.1\r\n\r\nrest".to_vec()),
        Request::Complete
    );
    assert_eq!(request_progress(&b"a\n\n".to_vec()), Request::More);
    let mut long = vec![b'a'; 16384];
    assert_eq!(request_progress(&long), Request::More);
    long.push(b'a');
    assert_eq!(request_progress(&long), Request::Drop);
}

const REQUEST: &str = "GET / HTTP/1.1\r\nHost: localhost\r\nUpgrade: websocket\r\n\
    sec-WebSocket-KEY:  dGhlIHNhbXBsZSBub25jZQ== \r\nSec-WebSocket-Key: other\r\n\r\n";

const ANSWER: &str = "HTTP/1.1 101 Switching Protocols\r\nUpgrade: websocket\r\n\
    Connection: Upgrade\r\nSec-WebSocket-Accept: s3pPLMBiTxaQ9kYGzzhZRbK+xOo=\r\n\r\n";

#[test]
fn first_key_is_answered() {
    assert_eq!(
        key_of_request(REQUEST),
        Some("dGhlIHNhbXBsZSBub25jZQ==".to_string())
    );
    assert_eq!(answer_request(REQUEST), (true, ANSWER.to_string()));
    assert_eq!(
        handshake(&REQUEST.as_bytes().to_vec()),
        (true, ANSWER.to_string())
    );
}

#[test]
fn request_without_key_is_refused() {
    let refused = "HTTP/1.1 400 Bad Request\r\n\r\n".to_string();
    assert_eq!(key_of_request("GET / HTTP/1.1\r\n\r\n"), None);
    assert_eq!(
        answer_request("Sec-WebSocket-Keys: x\r\n\r\n"),
        (false, refused.clone())
    );
    assert_eq!(handshake(&b"\r\n\r\n".to_vec()), (false, refused));
}

#[test]
fn broken_bytes_do_not_spoil_a_request() {
    let mut bytes = b"GET /\xff HTTP/1.1\r\n".to_vec();
    bytes.extend_from_slice(b"Sec-WebSocket-Key: dGhlIHNhbXBsZSBub25jZQ==\r\n\r\n");
    assert_eq!(handshake(&bytes), (true, ANSWER.to_string()));
}
