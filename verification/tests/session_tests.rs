use care::session::{Cmd, EffectorError, Effectors, ScriptedTransport, SessionError};

fn scripted(replies: Vec<&str>) -> ScriptedTransport {
    ScriptedTransport::new(replies.into_iter().map(|s| s.as_bytes().to_vec()).collect())
}

#[test]
fn session_calls_and_log() {
    let t = scripted(vec![
        "com.akavel.mana.v2.rs",
        "detected present",
        "detected absent",
        "gathered x y",
        "affected x y",
    ]);
    let mut cmd = Cmd::new(t);
    cmd.handshake().unwrap();
    assert_eq!(cmd.detect("foo").unwrap(), true);
    assert_eq!(cmd.detect("bar").unwrap(), false);
    cmd.gather("x", "y").unwrap();
    cmd.affect("x", "y").unwrap();
    let sent: Vec<String> = cmd
        .transport
        .log
        .iter()
        .map(|l| String::from_utf8(l.clone()).unwrap())
        .collect();
    assert_eq!(
        sent,
        vec![
            "com.akavel.mana.v2.rq".to_string(),
            "detect foo".to_string(),
            "detect bar".to_string(),
            "gather x y".to_string(),
            "affect x y".to_string(),
        ]
    );
}

#[test]
fn session_encodes_arguments() {
    let t = scripted(vec!["com.akavel.mana.v2.rs", "gathered a%20b sh%2Fdir"]);
    let mut cmd = Cmd::new(t);
    cmd.handshake().unwrap();
    cmd.gather("a b", "sh/dir").unwrap();
    let last = String::from_utf8(cmd.transport.log[1].clone()).unwrap();
    assert_eq!(last, "gather a%20b sh%2Fdir");
}

#[test]
fn handshake_requires_version_response() {
    let t = scripted(vec!["something else"]);
    let mut cmd = Cmd::new(t);
    assert!(matches!(cmd.handshake(), Err(SessionError::Handshake)));
}

#[test]
fn bad_response_prefix_is_protocol_error() {
    let t = scripted(vec!["gathered not-a-detect"]);
    let mut cmd = Cmd::new(t);
    assert!(matches!(cmd.detect("x"), Err(SessionError::Protocol(_))));
}

#[test]
fn detect_answer_is_present_only() {
    let t = scripted(vec!["detected absent", "detected wat"]);
    let mut cmd = Cmd::new(t);
    assert_eq!(cmd.detect("x").unwrap(), false);
    assert_eq!(cmd.detect("y").unwrap(), false);
}

#[test]
fn registry_dispatches_by_prefix() {
    let t = scripted(vec!["detected present"]);
    let cmd = Cmd::new(t);
    let mut reg = Effectors::new(vec![("fs".to_string(), cmd)]);
    assert_eq!(reg.detect("fs", "a").unwrap(), true);
    match reg.detect("pkg", "a") {
        Err(EffectorError::UnknownEffector { prefix }) => assert_eq!(prefix, "pkg"),
        _ => panic!("expected an unknown-effector error"),
    }
}
