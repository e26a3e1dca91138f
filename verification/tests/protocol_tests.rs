use care::codec::{is_well_formed_encoding, percent_decode_checked, split_lines};
use care::protocol::{
    build_request_line_one, build_request_line_two, parse_and_dispatch, parse_request,
    parse_response, CallRecord, Handler, HandlerError, ProtocolError, Request, ScriptedHandler,
    Verb,
};

struct RecordingHandler {
    lines: Vec<(String, String, String)>,
    last_detect: bool,
}

impl Handler for RecordingHandler {
    fn detect(&mut self, path: &String) -> Result<bool, HandlerError> {
        self.lines.push(("detect".to_string(), path.clone(), "".to_string()));
        self.last_detect = !self.last_detect;
        Ok(self.last_detect)
    }

    fn gather(&mut self, path: &String, shadow_root: &String) -> Result<(), HandlerError> {
        self.lines.push(("gather".to_string(), path.clone(), shadow_root.clone()));
        Ok(())
    }

    fn affect(&mut self, path: &String, shadow_root: &String) -> Result<(), HandlerError> {
        self.lines.push(("affect".to_string(), path.clone(), shadow_root.clone()));
        Ok(())
    }
}

#[test]
fn parsing_and_dispatching() {
    let script = "com.akavel.mana.v2.rq\ndetect foo/bar/baz\ndetect fee/fo/fum\ngather bee/bop zee/zam\naffect a/b c/d\n";
    let input: Vec<u8> = script.as_bytes().to_vec();
    let mut h = RecordingHandler { lines: vec![], last_detect: false };
    let out = parse_and_dispatch(&input, &mut h).unwrap();
    assert_eq!(
        h.lines,
        vec![
            ("detect".to_string(), "foo/bar/baz".to_string(), "".to_string()),
            ("detect".to_string(), "fee/fo/fum".to_string(), "".to_string()),
            ("gather".to_string(), "bee/bop".to_string(), "zee/zam".to_string()),
            ("affect".to_string(), "a/b".to_string(), "c/d".to_string()),
        ]
    );
    assert_eq!(
        String::from_utf8(out).unwrap(),
        "com.akavel.mana.v2.rs\ndetected present\ndetected absent\ngathered bee/bop zee/zam\naffected a/b c/d\n"
    );
}

#[test]
fn percent_encoding_is_not_identity() {
    let line = build_request_line_one(Verb::Detect, "a b%c\n");
    assert_eq!(line, b"detect a%20b%25c%0A".to_vec());
    let plain = build_request_line_one(Verb::Detect, "AZaz09-._~");
    assert_eq!(plain, b"detect AZaz09-._~".to_vec());
}

#[test]
fn percent_decoding_round_trip_and_errors() {
    assert_eq!(percent_decode_checked(&b"a%20b".to_vec()), Some(b"a b".to_vec()));
    assert_eq!(percent_decode_checked(&b"plain".to_vec()), Some(b"plain".to_vec()));
    assert_eq!(percent_decode_checked(&b"bad%2".to_vec()), None);
    assert_eq!(percent_decode_checked(&b"bad%zz".to_vec()), None);
    assert!(is_well_formed_encoding(&b"ok%2Fhere".to_vec()));
    assert!(!is_well_formed_encoding(&b"broken%".to_vec()));
}

#[test]
fn request_lines_round_trip() {
    let line = build_request_line_one(Verb::Detect, "dir with space/ü");
    match parse_request(&line) {
        Ok(Request::Detect { path, .. }) => assert_eq!(path, "dir with space/ü"),
        other => panic!("wrong parse: {:?}", other.is_ok()),
    }
    let line2 = build_request_line_two(Verb::Gather, "a b", "shadow dir");
    match parse_request(&line2) {
        Ok(Request::Gather { path, root, .. }) => {
            assert_eq!(path, "a b");
            assert_eq!(root, "shadow dir");
        },
        other => panic!("wrong parse: {:?}", other.is_ok()),
    }
}

#[test]
fn parse_request_errors() {
    assert!(matches!(
        parse_request(&b"frobnicate x".to_vec()),
        Err(ProtocolError::UnknownVerb)
    ));
    assert!(matches!(
        parse_request(&b"detect one two".to_vec()),
        Err(ProtocolError::WrongArgCount)
    ));
    assert!(matches!(
        parse_request(&b"detect bad%2".to_vec()),
        Err(ProtocolError::MalformedEncoding)
    ));
    // well-formed escapes that decode to bytes outside UTF-8
    assert!(matches!(
        parse_request(&b"detect %FF%FE".to_vec()),
        Err(ProtocolError::MalformedEncoding)
    ));
    assert!(matches!(
        parse_request(&b"gather onearg".to_vec()),
        Err(ProtocolError::WrongArgCount)
    ));
    assert!(matches!(
        parse_request(&b"gather a b c".to_vec()),
        Err(ProtocolError::WrongArgCount)
    ));
}

#[test]
fn parse_response_checks_prefix() {
    let suffix = parse_response(Verb::Detect, &b"detected present".to_vec()).unwrap();
    assert_eq!(suffix, b"present".to_vec());
    assert!(matches!(
        parse_response(Verb::Gather, &b"detected present".to_vec()),
        Err(ProtocolError::BadResponse)
    ));
    assert!(matches!(
        parse_response(Verb::Affect, &b"garbage".to_vec()),
        Err(ProtocolError::BadResponse)
    ));
}

#[test]
fn split_lines_framing() {
    let ls = split_lines(&b"one\ntwo\nlast".to_vec());
    assert_eq!(ls, vec![b"one".to_vec(), b"two".to_vec(), b"last".to_vec()]);
    let ls2 = split_lines(&b"one\n".to_vec());
    assert_eq!(ls2, vec![b"one".to_vec()]);
    let ls3 = split_lines(&b"".to_vec());
    assert!(ls3.is_empty());
}

#[test]
fn dispatch_records_calls_in_order() {
    let input = b"com.akavel.mana.v2.rq\ndetect a/b\ngather c/d sh\n".to_vec();
    let mut h = ScriptedHandler::new(vec![true]);
    let out = parse_and_dispatch(&input, &mut h).unwrap();
    assert_eq!(
        String::from_utf8(out).unwrap(),
        "com.akavel.mana.v2.rs\ndetected present\ngathered c/d sh\n"
    );
    assert_eq!(h.log.len(), 2);
    match &h.log[0] {
        CallRecord::Detect { path } => assert_eq!(path, "a/b"),
        _ => panic!("expected a detect record"),
    }
    match &h.log[1] {
        CallRecord::Gather { path, root } => {
            assert_eq!(path, "c/d");
            assert_eq!(root, "sh");
        },
        _ => panic!("expected a gather record"),
    }
}

#[test]
fn dispatch_stops_on_handler_error() {
    // one scripted answer, two detects: the second one fails in the handler
    let input = b"detect a/b\ndetect c/d\n".to_vec();
    let mut h = ScriptedHandler::new(vec![false]);
    match parse_and_dispatch(&input, &mut h) {
        Err(care::protocol::CalleeError::Handler(e)) => {
            assert_eq!(e.message, "no answer scripted");
        },
        _ => panic!("expected a handler error"),
    }
    assert_eq!(h.log.len(), 2);
}
