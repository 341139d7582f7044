use crabviz::client::{Client, Params};
use crabviz::generator::SymbolLocation;
use crabviz::lsp_types::{
    normalize_implementations, DocumentSymbol, GotoImplementationResponse, Location, LocationLink, Position, Range,
    SymbolKind, Uri,
};
use crabviz::pending::{PendingContext, Phase};
use crabviz::transport::{classify, decimal, frame, is_exit, read_frame, Frame, FrameError, MessageKind};

fn pos(line: u32, character: u32) -> Position {
    Position { line, character }
}

#[test]
fn all_responses_consumed_leave_nothing_pending() {
    let mut phase = Phase::new();
    let n: u64 = 5;
    for id in 0..n {
        assert!(phase.issue(id, PendingContext::Outline(format!("/p/f{}.go", id))).is_ok());
    }
    phase.finish();
    assert!(!phase.is_complete());
    for id in (0..n).rev() {
        match phase.consume(id) {
            Some(PendingContext::Outline(path)) => assert_eq!(path, format!("/p/f{}.go", id)),
            other => panic!("unexpected {:?}", other),
        }
    }
    assert!(phase.is_settled());
    assert!(phase.is_complete());
}

#[test]
fn unknown_response_is_ignored() {
    let mut phase = Phase::new();
    assert!(phase.issue(7, PendingContext::Calls(SymbolLocation { path: "/p/a".to_string(), line: 1, character: 2 })).is_ok());
    match phase.issue(7, PendingContext::Outline("/dup".to_string())) {
        Err(PendingContext::Outline(p)) => assert_eq!(p, "/dup"),
        _ => panic!("a pending id must be refused"),
    }
    assert!(phase.consume(8).is_none());
    assert!(!phase.is_settled());
    assert!(phase.consume(7).is_some());
    assert!(phase.consume(7).is_none());
    assert!(phase.is_settled());
}

#[test]
fn empty_phase_completes_once_finished() {
    let mut phase = Phase::new();
    assert!(!phase.is_complete());
    phase.finish();
    assert!(phase.is_complete());
    assert!(phase.is_settled());
}

#[test]
fn completion_waits_for_producer() {
    let mut phase = Phase::new();
    assert!(phase.issue(0, PendingContext::Implementations(SymbolLocation { path: "/x".to_string(), line: 0, character: 0 })).is_ok());
    assert!(phase.consume(0).is_some());
    // the counter reads zero between two bursts, but the producer is not done
    assert!(!phase.is_complete());
    assert!(phase.issue(1, PendingContext::Outline("/y".to_string())).is_ok());
    phase.finish();
    assert!(!phase.is_complete());
    phase.consume(1);
    assert!(phase.is_complete());
}

#[test]
fn request_ids_ascend() {
    let mut c = Client::new();
    let sym = DocumentSymbol {
        name: "f".to_string(),
        detail: None,
        kind: SymbolKind::Function,
        tags: None,
        range: Range { start: pos(1, 0), end: pos(3, 1) },
        selection_range: Range { start: pos(1, 3), end: pos(1, 4) },
        children: vec![],
    };
    let a = c.initialize_start(42, "file:///w".to_string());
    let b = c.document_symbol("file:///w/a.go".to_string());
    let d = c.outgoing_calls("/w/a.go".to_string(), &sym);
    let e = c.implementations("/w/a.go".to_string(), &sym);
    assert_eq!((a.id, b.id, d.id, e.id), (0, 1, 2, 3));
    assert_eq!(a.method, "initialize");
    assert_eq!(b.method, "textDocument/documentSymbol");
    assert_eq!(d.method, "callHierarchy/outgoingCalls");
    assert_eq!(e.method, "textDocument/implementation");
    match d.params {
        Params::OutgoingCalls { item } => {
            assert_eq!(item.name, "f");
            assert_eq!(item.uri.path, "/w/a.go");
            assert_eq!(item.selection_range.start, pos(1, 3));
        }
        _ => panic!("wrong params"),
    }
    match e.params {
        Params::Implementation { position, .. } => assert_eq!(position, pos(1, 3)),
        _ => panic!("wrong params"),
    }
    let n = c.initialize_finish();
    assert_eq!(n.method, "initialized");
    assert!(c.can_send());
}

#[test]
fn frame_round_trip() {
    let payload = br#"{"jsonrpc":"2.0","id":1}"#;
    let bytes = frame(payload);
    let text = String::from_utf8(bytes.clone()).unwrap();
    assert_eq!(text, format!("Content-Length: {}\r\n\r\n{}", payload.len(), String::from_utf8(payload.to_vec()).unwrap()));
    let f = read_frame(&bytes).unwrap();
    assert_eq!(f, Frame { payload_start: bytes.len() - payload.len(), payload_len: payload.len() });
    assert_eq!(&bytes[f.payload_start..f.payload_start + f.payload_len], &payload[..]);
}

#[test]
fn frame_with_other_headers() {
    let bytes = b"Content-Type: x\r\nContent-Length: 2\r\nContent-Length: 9\r\n\r\nok";
    assert_eq!(read_frame(bytes), Ok(Frame { payload_start: 57, payload_len: 2 }));
}

#[test]
fn frame_errors() {
    assert_eq!(read_frame(b"Content-Length: 2\r\n"), Err(FrameError::UnterminatedHeader));
    assert_eq!(read_frame(b"Content-Type: x\r\n\r\n{}"), Err(FrameError::MissingLength));
    assert_eq!(read_frame(b"Content-Length: 1x\r\n\r\n{}"), Err(FrameError::MissingLength));
    assert_eq!(read_frame(b"Content-Length: 99999999999999999999999\r\n\r\n"), Err(FrameError::MissingLength));
    assert_eq!(read_frame(b"Content-Length: 5\r\n\r\n{}"), Err(FrameError::Truncated));
    assert_eq!(read_frame(b""), Err(FrameError::UnterminatedHeader));
}

#[test]
fn decimal_digits() {
    assert_eq!(decimal(0), b"0".to_vec());
    assert_eq!(decimal(907), b"907".to_vec());
}

#[test]
fn message_kinds() {
    assert_eq!(classify(true, true), Some(MessageKind::Request));
    assert_eq!(classify(true, false), Some(MessageKind::Response));
    assert_eq!(classify(false, true), Some(MessageKind::Notification));
    assert_eq!(classify(false, false), None);
    assert!(is_exit("exit"));
    assert!(!is_exit("exits"));
}

fn loc(path: &str, l: u32) -> Location {
    Location { uri: Uri { path: path.to_string() }, range: Range { start: pos(l, 1), end: pos(l, 5) } }
}

#[test]
fn implementation_shapes_normalized() {
    let one = normalize_implementations(GotoImplementationResponse::Scalar(loc("/a", 3)));
    assert_eq!(one.len(), 1);
    assert_eq!(one[0].range.start, pos(3, 1));
    let many = normalize_implementations(GotoImplementationResponse::Array(vec![loc("/a", 1), loc("/b", 2)]));
    assert_eq!(many.iter().map(|l| l.uri.path.as_str()).collect::<Vec<_>>(), vec!["/a", "/b"]);
    let link = LocationLink {
        origin_selection_range: None,
        target_uri: Uri { path: "/c".to_string() },
        target_range: Range { start: pos(10, 0), end: pos(20, 0) },
        target_selection_range: Range { start: pos(11, 4), end: pos(11, 9) },
    };
    let links = normalize_implementations(GotoImplementationResponse::Link(vec![link]));
    assert_eq!(links[0].uri.path, "/c");
    assert_eq!(links[0].range.start, pos(11, 4));
}
