use vstd::prelude::*;

use crate::paths::str_eq;
use crate::protocol::{
    build_request_line_one, build_request_line_two, bytes_eq, handshake_rq, handshake_rq_vec,
    handshake_rs, handshake_rs_vec, lemma_request_line_no_newline, parse_response, present_bytes,
    present_vec, request_line_one, request_line_two, spec_parse_response, ProtocolError, Verb,
};
use vstd::utf8::encode_utf8;

verus! {

#[derive(Debug)]
pub struct TransportError {
    pub message: String,
}

/// One effector session's line channel: each call writes exactly one request
/// line and reads exactly one response line, so at most one line is ever
/// outstanding and the pipe buffer cannot fill.  The out-of-process
/// realization owns a child's pipes; the in-process one below serves tests.
pub trait Transport {
    /// The request lines written so far.  A realization outside the verifier
    /// inherits the default, which gives its log no meaning.
    open spec fn sent(&self) -> Seq<Seq<u8>> {
        Seq::empty()
    }

    /// The response lines read so far.
    open spec fn received(&self) -> Seq<Seq<u8>> {
        Seq::empty()
    }

    /// Writes `line` and a terminating newline, then reads one line, handing
    /// it back without its terminating newline.
    fn exchange(&mut self, line: &Vec<u8>) -> (r: Result<Vec<u8>, TransportError>)
        requires
            forall|i: int| 0 <= i < line@.len() ==> line@[i] != 10,
        ensures
            final(self).sent() == old(self).sent().push(line@),
            r matches Ok(resp) ==> final(self).received() == old(self).received().push(resp@),
            r is Err ==> final(self).received() == old(self).received(),
    ;
}

#[derive(Debug)]
pub enum SessionError {
    Handshake,
    Protocol(ProtocolError),
    Transport(TransportError),
}

/// A live effector session: the protocol caller.
pub struct Cmd<T: Transport> {
    pub transport: T,
}

impl<T: Transport> Cmd<T> {
    pub open spec fn sent(&self) -> Seq<Seq<u8>> {
        self.transport.sent()
    }

    pub open spec fn received(&self) -> Seq<Seq<u8>> {
        self.transport.received()
    }

    pub fn new(transport: T) -> (r: Cmd<T>)
        ensures
            r.transport == transport,
    {
        Cmd { transport }
    }

    /// Sends the protocol version request and requires the matching version
    /// response as the very next line.
    pub fn handshake(&mut self) -> (r: Result<(), SessionError>)
        ensures
            final(self).sent() == old(self).sent().push(handshake_rq()),
            r matches Ok(_) ==> final(self).received() == old(self).received().push(
                handshake_rs(),
            ),
            (final(self).received().len() == old(self).received().len() + 1
                && final(self).received().last() == handshake_rs()) ==> r is Ok,
    {
        let line = handshake_rq_vec();
        match self.transport.exchange(&line) {
            Err(e) => Err(SessionError::Transport(e)),
            Ok(resp) => {
                let rs = handshake_rs_vec();
                if bytes_eq(&resp, &rs) {
                    Ok(())
                } else {
                    Err(SessionError::Handshake)
                }
            },
        }
    }

    /// One call: writes exactly one request line, reads exactly one response
    /// line, and accepts it only under the verb's "...ed " prefix.
    fn call(&mut self, v: Verb, line: Vec<u8>) -> (r: Result<Vec<u8>, SessionError>)
        requires
            forall|i: int| 0 <= i < line@.len() ==> line@[i] != 10,
        ensures
            final(self).sent() == old(self).sent().push(line@),
            r matches Ok(suffix) ==> final(self).received().len() == old(self).received().len()
                + 1 && spec_parse_response(v, final(self).received().last()) == Ok::<
                Seq<u8>,
                ProtocolError,
            >(suffix@),
            r is Err ==> final(self).received().len() <= old(self).received().len() + 1,
            (final(self).received().len() == old(self).received().len() + 1
                && spec_parse_response(v, final(self).received().last()) is Ok) ==> r is Ok,
    {
        match self.transport.exchange(&line) {
            Err(e) => Err(SessionError::Transport(e)),
            Ok(resp) => match parse_response(v, &resp) {
                Ok(suffix) => Ok(suffix),
                Err(e) => Err(SessionError::Protocol(e)),
            },
        }
    }

    /// Asks whether the artifact at `path` exists on the machine; true is
    /// exactly the answer "detected present".
    pub fn detect(&mut self, path: &str) -> (r: Result<bool, SessionError>)
        ensures
            final(self).sent() == old(self).sent().push(
                request_line_one(Verb::Detect, encode_utf8(path@)),
            ),
            r matches Ok(b) ==> final(self).received().len() == old(self).received().len() + 1
                && (spec_parse_response(Verb::Detect, final(self).received().last()) matches Ok(
                suffix,
            ) && b == (suffix == present_bytes())),
            (final(self).received().len() == old(self).received().len() + 1
                && spec_parse_response(Verb::Detect, final(self).received().last()) is Ok)
                ==> r is Ok,
    {
        let line = build_request_line_one(Verb::Detect, path);
        proof {
            lemma_request_line_no_newline(Verb::Detect, encode_utf8(path@), Seq::empty());
        }
        match self.call(Verb::Detect, line) {
            Err(e) => Err(e),
            Ok(suffix) => {
                let p = present_vec();
                Ok(bytes_eq(&suffix, &p))
            },
        }
    }

    /// Asks the effector to write the artifact's current machine state into
    /// the shadow tree.
    pub fn gather(&mut self, path: &str, shadow_root: &str) -> (r: Result<(), SessionError>)
        ensures
            final(self).sent() == old(self).sent().push(
                request_line_two(Verb::Gather, encode_utf8(path@), encode_utf8(shadow_root@)),
            ),
            r matches Ok(_) ==> final(self).received().len() == old(self).received().len() + 1
                && spec_parse_response(Verb::Gather, final(self).received().last()) is Ok,
            (final(self).received().len() == old(self).received().len() + 1
                && spec_parse_response(Verb::Gather, final(self).received().last()) is Ok)
                ==> r is Ok,
    {
        let line = build_request_line_two(Verb::Gather, path, shadow_root);
        proof {
            lemma_request_line_no_newline(
                Verb::Gather,
                encode_utf8(path@),
                encode_utf8(shadow_root@),
            );
        }
        match self.call(Verb::Gather, line) {
            Err(e) => Err(e),
            Ok(_) => Ok(()),
        }
    }

    /// Asks the effector to apply the artifact's shadow state to the machine.
    pub fn affect(&mut self, path: &str, shadow_root: &str) -> (r: Result<(), SessionError>)
        ensures
            final(self).sent() == old(self).sent().push(
                request_line_two(Verb::Affect, encode_utf8(path@), encode_utf8(shadow_root@)),
            ),
            r matches Ok(_) ==> final(self).received().len() == old(self).received().len() + 1
                && spec_parse_response(Verb::Affect, final(self).received().last()) is Ok,
            (final(self).received().len() == old(self).received().len() + 1
                && spec_parse_response(Verb::Affect, final(self).received().last()) is Ok)
                ==> r is Ok,
    {
        let line = build_request_line_two(Verb::Affect, path, shadow_root);
        proof {
            lemma_request_line_no_newline(
                Verb::Affect,
                encode_utf8(path@),
                encode_utf8(shadow_root@),
            );
        }
        match self.call(Verb::Affect, line) {
            Err(e) => Err(e),
            Ok(_) => Ok(()),
        }
    }
}

/// An in-process transport that answers each exchange from a fixed list of
/// lines, in order, and records what was sent; tests drive sessions with it.
pub struct ScriptedTransport {
    pub replies: Vec<Vec<u8>>,
    pub next: usize,
    pub log: Vec<Vec<u8>>,
}

impl ScriptedTransport {
    pub fn new(replies: Vec<Vec<u8>>) -> (r: ScriptedTransport)
        ensures
            r.replies == replies,
            r.next == 0,
            r.log@.len() == 0,
    {
        ScriptedTransport { replies, next: 0, log: Vec::new() }
    }
}

impl Transport for ScriptedTransport {
    open spec fn sent(&self) -> Seq<Seq<u8>> {
        self.log.deep_view()
    }

    open spec fn received(&self) -> Seq<Seq<u8>> {
        self.replies.deep_view().take(self.next as int)
    }

    fn exchange(&mut self, line: &Vec<u8>) -> (r: Result<Vec<u8>, TransportError>) {
        let ghost pre_log = self.log.deep_view();
        self.log.push(line.clone());
        proof {
            assert(self.log.deep_view() =~~= pre_log.push(line@));
        }
        if self.next < self.replies.len() {
            let ghost pre_rcv = self.replies.deep_view().take(self.next as int);
            let resp = self.replies[self.next].clone();
            self.next = self.next + 1;
            proof {
                assert(resp@ =~= self.replies.deep_view()[self.next as int - 1]);
                assert(self.replies.deep_view().take(self.next as int) =~~= pre_rcv.push(resp@));
            }
            Ok(resp)
        } else {
            Err(TransportError { message: "no reply scripted".to_owned() })
        }
    }
}

// ---------------------------------------------------------------------------
// The effector registry: one live session per path prefix.
// ---------------------------------------------------------------------------

#[derive(Debug)]
pub enum EffectorError {
    UnknownEffector { prefix: String },
    Session(SessionError),
}

/// Maps each effector prefix to its live session; dispatch looks the prefix
/// up and forwards the subpath.
pub struct Effectors<T: Transport> {
    pub sessions: Vec<(String, Cmd<T>)>,
}

impl<T: Transport> Effectors<T> {
    pub open spec fn has_prefix(&self, p: Seq<char>) -> bool {
        exists|i: int| 0 <= i < self.sessions@.len() && (#[trigger] self.sessions@[i].0)@ == p
    }

    /// Wraps already-spawned sessions, in the descriptors' order.
    pub fn new(sessions: Vec<(String, Cmd<T>)>) -> (r: Effectors<T>)
        ensures
            r.sessions == sessions,
    {
        Effectors { sessions }
    }

    fn find(&self, prefix: &str) -> (r: Option<usize>)
        ensures
            r matches Some(i) ==> i < self.sessions@.len() && self.sessions@[i as int].0@
                == prefix@,
            r is None ==> !self.has_prefix(prefix@),
    {
        let mut i: usize = 0;
        while i < self.sessions.len()
            invariant
                i <= self.sessions@.len(),
                forall|k: int| 0 <= k < i ==> (#[trigger] self.sessions@[k].0)@ != prefix@,
            decreases self.sessions@.len() - i,
        {
            if str_eq(self.sessions[i].0.as_str(), prefix) {
                return Some(i);
            }
            i = i + 1;
        }
        None
    }

    /// What a successful lookup leaves behind: the session at `i` sent
    /// exactly one more line, and every other session is untouched.
    pub open spec fn dispatch_frame(
        pre: Seq<(String, Cmd<T>)>,
        post: Seq<(String, Cmd<T>)>,
        i: int,
        line: Seq<u8>,
    ) -> bool {
        &&& 0 <= i < pre.len()
        &&& post.len() == pre.len()
        &&& post[i].0 == pre[i].0
        &&& post[i].1.sent() == pre[i].1.sent().push(line)
        &&& forall|j: int| 0 <= j < pre.len() && j != i ==> post[j] == pre[j]
    }

    /// Dispatches a detect call to the session owning `prefix`.
    pub fn detect(&mut self, prefix: &str, subpath: &str) -> (r: Result<bool, EffectorError>)
        ensures
            r matches Err(e) ==> (e matches EffectorError::UnknownEffector { prefix: p } ==> (
            p@ == prefix@ && !old(self).has_prefix(prefix@))),
            !old(self).has_prefix(prefix@) ==> (r matches Err(e) && (e matches
                EffectorError::UnknownEffector { prefix: p } && p@ == prefix@)) && *final(self)
                == *old(self),
            old(self).has_prefix(prefix@) ==> exists|i: int|
                #![auto]
                {
                    &&& old(self).sessions@[i].0@ == prefix@
                    &&& Self::dispatch_frame(
                        old(self).sessions@,
                        final(self).sessions@,
                        i,
                        request_line_one(Verb::Detect, encode_utf8(subpath@)),
                    )
                    &&& (r matches Ok(b) ==> final(self).sessions@[i].1.received().len() == old(
                        self,
                    ).sessions@[i].1.received().len() + 1 && (spec_parse_response(
                        Verb::Detect,
                        final(self).sessions@[i].1.received().last(),
                    ) matches Ok(suffix) && b == (suffix == present_bytes())))
                },
    {
        match self.find(prefix) {
            None => Err(EffectorError::UnknownEffector { prefix: prefix.to_owned() }),
            Some(i) => {
                let ghost pre = self.sessions@;
                let mut pair = self.sessions.remove(i);
                let rr = pair.1.detect(subpath);
                self.sessions.insert(i, pair);
                proof {
                    let ii = i as int;
                    assert(self.sessions@ =~= pre.update(ii, self.sessions@[ii]));
                    assert(pre[ii].0@ == prefix@);
                    assert(self.sessions@[ii].1.sent() == pre[ii].1.sent().push(request_line_one(Verb::Detect, encode_utf8(subpath@))));
                    assert(forall|j: int|
                        0 <= j < pre.len() && j != ii ==> self.sessions@[j] == pre[j]);
                    assert(Self::dispatch_frame(pre, self.sessions@, ii, request_line_one(Verb::Detect, encode_utf8(subpath@))));
                }
                match rr {
                    Ok(b) => Ok(b),
                    Err(e) => Err(EffectorError::Session(e)),
                }
            },
        }
    }

    /// Dispatches a gather call to the session owning `prefix`.
    pub fn gather(&mut self, prefix: &str, subpath: &str, shadow_root: &str) -> (r: Result<
        (),
        EffectorError,
    >)
        ensures
            r matches Err(e) ==> (e matches EffectorError::UnknownEffector { prefix: p } ==> (
            p@ == prefix@ && !old(self).has_prefix(prefix@))),
            !old(self).has_prefix(prefix@) ==> (r matches Err(e) && (e matches
                EffectorError::UnknownEffector { prefix: p } && p@ == prefix@)) && *final(self)
                == *old(self),
            old(self).has_prefix(prefix@) ==> exists|i: int|
                #![auto]
                {
                    &&& old(self).sessions@[i].0@ == prefix@
                    &&& Self::dispatch_frame(
                        old(self).sessions@,
                        final(self).sessions@,
                        i,
                        request_line_two(
                            Verb::Gather,
                            encode_utf8(subpath@),
                            encode_utf8(shadow_root@),
                        ),
                    )
                    &&& (r matches Ok(_) ==> final(self).sessions@[i].1.received().len() == old(
                        self,
                    ).sessions@[i].1.received().len() + 1 && spec_parse_response(
                        Verb::Gather,
                        final(self).sessions@[i].1.received().last(),
                    ) is Ok)
                },
    {
        match self.find(prefix) {
            None => Err(EffectorError::UnknownEffector { prefix: prefix.to_owned() }),
            Some(i) => {
                let ghost pre = self.sessions@;
                let mut pair = self.sessions.remove(i);
                let rr = pair.1.gather(subpath, shadow_root);
                self.sessions.insert(i, pair);
                proof {
                    let ii = i as int;
                    assert(self.sessions@ =~= pre.update(ii, self.sessions@[ii]));
                    assert(pre[ii].0@ == prefix@);
                    assert(self.sessions@[ii].1.sent() == pre[ii].1.sent().push(request_line_two(Verb::Gather, encode_utf8(subpath@), encode_utf8(shadow_root@))));
                    assert(forall|j: int|
                        0 <= j < pre.len() && j != ii ==> self.sessions@[j] == pre[j]);
                    assert(Self::dispatch_frame(pre, self.sessions@, ii, request_line_two(Verb::Gather, encode_utf8(subpath@), encode_utf8(shadow_root@))));
                }
                match rr {
                    Ok(_) => Ok(()),
                    Err(e) => Err(EffectorError::Session(e)),
                }
            },
        }
    }

    /// Dispatches an affect call to the session owning `prefix`.
    pub fn affect(&mut self, prefix: &str, subpath: &str, shadow_root: &str) -> (r: Result<
        (),
        EffectorError,
    >)
        ensures
            r matches Err(e) ==> (e matches EffectorError::UnknownEffector { prefix: p } ==> (
            p@ == prefix@ && !old(self).has_prefix(prefix@))),
            !old(self).has_prefix(prefix@) ==> (r matches Err(e) && (e matches
                EffectorError::UnknownEffector { prefix: p } && p@ == prefix@)) && *final(self)
                == *old(self),
            old(self).has_prefix(prefix@) ==> exists|i: int|
                #![auto]
                {
                    &&& old(self).sessions@[i].0@ == prefix@
                    &&& Self::dispatch_frame(
                        old(self).sessions@,
                        final(self).sessions@,
                        i,
                        request_line_two(
                            Verb::Affect,
                            encode_utf8(subpath@),
                            encode_utf8(shadow_root@),
                        ),
                    )
                    &&& (r matches Ok(_) ==> final(self).sessions@[i].1.received().len() == old(
                        self,
                    ).sessions@[i].1.received().len() + 1 && spec_parse_response(
                        Verb::Affect,
                        final(self).sessions@[i].1.received().last(),
                    ) is Ok)
                },
    {
        match self.find(prefix) {
            None => Err(EffectorError::UnknownEffector { prefix: prefix.to_owned() }),
            Some(i) => {
                let ghost pre = self.sessions@;
                let mut pair = self.sessions.remove(i);
                let rr = pair.1.affect(subpath, shadow_root);
                self.sessions.insert(i, pair);
                proof {
                    let ii = i as int;
                    assert(self.sessions@ =~= pre.update(ii, self.sessions@[ii]));
                    assert(pre[ii].0@ == prefix@);
                    assert(self.sessions@[ii].1.sent() == pre[ii].1.sent().push(request_line_two(Verb::Affect, encode_utf8(subpath@), encode_utf8(shadow_root@))));
                    assert(forall|j: int|
                        0 <= j < pre.len() && j != ii ==> self.sessions@[j] == pre[j]);
                    assert(Self::dispatch_frame(pre, self.sessions@, ii, request_line_two(Verb::Affect, encode_utf8(subpath@), encode_utf8(shadow_root@))));
                }
                match rr {
                    Ok(_) => Ok(()),
                    Err(e) => Err(EffectorError::Session(e)),
                }
            },
        }
    }
}

} // verus!
