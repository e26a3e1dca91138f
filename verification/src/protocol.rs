use vstd::prelude::*;

use crate::codec::{
    copy_range, lemma_percent_encoded_wire_safe, lemma_percent_round_trip, lines_of,
    percent_decode_checked, percent_decoded, percent_encode, percent_encoded, split_lines,
    well_formed_encoding,
};
use vstd::string::StrSliceExecFns;
use vstd::utf8::{decode_utf8, encode_utf8, valid_utf8};

verus! {

// ---------------------------------------------------------------------------
// The wire grammar.
//
// caller -> callee:  com.akavel.mana.v2.rq
//                    detect <path>
//                    gather <path> <shadow_root>
//                    affect <path> <shadow_root>
// callee -> caller:  com.akavel.mana.v2.rs
//                    detected present | detected absent
//                    gathered <path> <shadow_root>   (echoes the raw args)
//                    affected <path> <shadow_root>
//
// Arguments are percent-encoded and separated by single ASCII spaces.
// ---------------------------------------------------------------------------

#[derive(Clone, Copy, PartialEq, Eq, Structural, Debug)]
pub enum Verb {
    Detect,
    Gather,
    Affect,
}

#[derive(Clone, Copy, PartialEq, Eq, Structural, Debug)]
pub enum ProtocolError {
    UnknownVerb,
    WrongArgCount,
    MalformedEncoding,
    BadResponse,
}

pub open spec fn verb_bytes(v: Verb) -> Seq<u8> {
    match v {
        Verb::Detect => seq![100u8, 101u8, 116u8, 101u8, 99u8, 116u8],
        Verb::Gather => seq![103u8, 97u8, 116u8, 104u8, 101u8, 114u8],
        Verb::Affect => seq![97u8, 102u8, 102u8, 101u8, 99u8, 116u8],
    }
}

/// The request prefix: the verb followed by one space.
pub open spec fn verb_prefix(v: Verb) -> Seq<u8> {
    verb_bytes(v) + seq![32u8]
}

/// The response prefix: the verb with "ed" appended, then one space.
pub open spec fn verb_done_prefix(v: Verb) -> Seq<u8> {
    verb_bytes(v) + seq![101u8, 100u8, 32u8]
}

/// "com.akavel.mana.v2.rq"
pub open spec fn handshake_rq() -> Seq<u8> {
    seq![
        99u8, 111u8, 109u8, 46u8, 97u8, 107u8, 97u8, 118u8, 101u8, 108u8, 46u8, 109u8, 97u8,
        110u8, 97u8, 46u8, 118u8, 50u8, 46u8, 114u8, 113u8,
    ]
}

/// "com.akavel.mana.v2.rs"
pub open spec fn handshake_rs() -> Seq<u8> {
    seq![
        99u8, 111u8, 109u8, 46u8, 97u8, 107u8, 97u8, 118u8, 101u8, 108u8, 46u8, 109u8, 97u8,
        110u8, 97u8, 46u8, 118u8, 50u8, 46u8, 114u8, 115u8,
    ]
}

/// "present"
pub open spec fn present_bytes() -> Seq<u8> {
    seq![112u8, 114u8, 101u8, 115u8, 101u8, 110u8, 116u8]
}

/// "absent"
pub open spec fn absent_bytes() -> Seq<u8> {
    seq![97u8, 98u8, 115u8, 101u8, 110u8, 116u8]
}

pub open spec fn no_space(s: Seq<u8>) -> bool {
    forall|i: int| 0 <= i < s.len() ==> s[i] != 32
}

pub open spec fn starts_with(s: Seq<u8>, p: Seq<u8>) -> bool {
    p.len() <= s.len() && s.subrange(0, p.len() as int) == p
}

/// A raw argument is acceptable when its encoding is well formed and the
/// bytes it stands for are valid UTF-8.
pub open spec fn arg_ok(raw: Seq<u8>) -> bool {
    well_formed_encoding(raw) && valid_utf8(percent_decoded(raw))
}

/// The characters a raw argument stands for.
pub open spec fn arg_chars(raw: Seq<u8>) -> Seq<char> {
    decode_utf8(percent_decoded(raw))
}

/// A parsed request, with both the raw (still encoded) arguments, which acks
/// echo verbatim, and the decoded paths.
pub enum ReqModel {
    Handshake,
    Detect { raw: Seq<u8>, path: Seq<char> },
    Gather { raw1: Seq<u8>, path: Seq<char>, raw2: Seq<u8>, root: Seq<char> },
    Affect { raw1: Seq<u8>, path: Seq<char>, raw2: Seq<u8>, root: Seq<char> },
}

/// Splitting a request tail into exactly two space-separated arguments.
pub open spec fn valid_arg_split(rest: Seq<u8>, j: int) -> bool {
    0 <= j < rest.len() && rest[j] == 32 && no_space(rest.subrange(0, j)) && no_space(
        rest.skip(j + 1),
    )
}

pub open spec fn spec_split_two(rest: Seq<u8>) -> Option<(Seq<u8>, Seq<u8>)> {
    if exists|j: int| valid_arg_split(rest, j) {
        let j = choose|j: int| valid_arg_split(rest, j);
        Some((rest.subrange(0, j), rest.skip(j + 1)))
    } else {
        None
    }
}

/// There is at most one way to split a tail into two space-free arguments.
pub proof fn lemma_arg_split_unique(rest: Seq<u8>, j1: int, j2: int)
    requires
        valid_arg_split(rest, j1),
        valid_arg_split(rest, j2),
    ensures
        j1 == j2,
{
    if j1 < j2 {
        assert(rest.subrange(0, j2)[j1] == 32);
    } else if j2 < j1 {
        assert(rest.subrange(0, j1)[j2] == 32);
    }
}

pub open spec fn spec_parse_two(
    rest: Seq<u8>,
) -> Result<(Seq<u8>, Seq<u8>), ProtocolError> {
    match spec_split_two(rest) {
        Some((raw1, raw2)) => if arg_ok(raw1) && arg_ok(raw2) {
            Ok((raw1, raw2))
        } else {
            Err(ProtocolError::MalformedEncoding)
        },
        None => Err(ProtocolError::WrongArgCount),
    }
}

/// What one request line means: the handshake token, or a verb, one space and
/// its percent-encoded arguments.  Anything else is a protocol error, naming
/// the first rule the line breaks.
pub open spec fn spec_parse_request(line: Seq<u8>) -> Result<ReqModel, ProtocolError> {
    if line == handshake_rq() {
        Ok(ReqModel::Handshake)
    } else if starts_with(line, verb_prefix(Verb::Detect)) {
        let raw = line.skip(7);
        if !no_space(raw) {
            Err(ProtocolError::WrongArgCount)
        } else if !arg_ok(raw) {
            Err(ProtocolError::MalformedEncoding)
        } else {
            Ok(ReqModel::Detect { raw, path: arg_chars(raw) })
        }
    } else if starts_with(line, verb_prefix(Verb::Gather)) {
        match spec_parse_two(line.skip(7)) {
            Ok((raw1, raw2)) => Ok(
                ReqModel::Gather {
                    raw1,
                    path: arg_chars(raw1),
                    raw2,
                    root: arg_chars(raw2),
                },
            ),
            Err(e) => Err(e),
        }
    } else if starts_with(line, verb_prefix(Verb::Affect)) {
        match spec_parse_two(line.skip(7)) {
            Ok((raw1, raw2)) => Ok(
                ReqModel::Affect {
                    raw1,
                    path: arg_chars(raw1),
                    raw2,
                    root: arg_chars(raw2),
                },
            ),
            Err(e) => Err(e),
        }
    } else {
        Err(ProtocolError::UnknownVerb)
    }
}

/// An executable request, carrying the raw arguments for the echoing acks and
/// the decoded paths for the handler.
pub enum Request {
    Handshake,
    Detect { raw_path: Vec<u8>, path: String },
    Gather { raw_path: Vec<u8>, path: String, raw_root: Vec<u8>, root: String },
    Affect { raw_path: Vec<u8>, path: String, raw_root: Vec<u8>, root: String },
}

impl View for Request {
    type V = ReqModel;

    open spec fn view(&self) -> ReqModel {
        match self {
            Request::Handshake => ReqModel::Handshake,
            Request::Detect { raw_path, path } => ReqModel::Detect {
                raw: raw_path@,
                path: path@,
            },
            Request::Gather { raw_path, path, raw_root, root } => ReqModel::Gather {
                raw1: raw_path@,
                path: path@,
                raw2: raw_root@,
                root: root@,
            },
            Request::Affect { raw_path, path, raw_root, root } => ReqModel::Affect {
                raw1: raw_path@,
                path: path@,
                raw2: raw_root@,
                root: root@,
            },
        }
    }
}

// ---------------------------------------------------------------------------
// Executable byte-string helpers.
// ---------------------------------------------------------------------------

pub fn bytes_eq(a: &Vec<u8>, b: &Vec<u8>) -> (r: bool)
    ensures
        r == (a@ == b@),
{
    if a.len() != b.len() {
        return false;
    }
    let mut i: usize = 0;
    while i < a.len()
        invariant
            a@.len() == b@.len(),
            i <= a@.len(),
            forall|k: int| 0 <= k < i ==> a@[k] == b@[k],
        decreases a@.len() - i,
    {
        if a[i] != b[i] {
            return false;
        }
        i = i + 1;
    }
    proof {
        assert(a@ =~= b@);
    }
    true
}

fn append_vec(out: &mut Vec<u8>, v: &Vec<u8>)
    ensures
        final(out)@ == old(out)@ + v@,
{
    let ghost pre = out@;
    let mut i: usize = 0;
    while i < v.len()
        invariant
            i <= v@.len(),
            out@ == pre + v@.subrange(0, i as int),
        decreases v@.len() - i,
    {
        out.push(v[i]);
        proof {
            assert(out@ =~= pre + v@.subrange(0, i as int + 1));
        }
        i = i + 1;
    }
    proof {
        assert(v@.subrange(0, v@.len() as int) =~= v@);
    }
}

fn push_verb(out: &mut Vec<u8>, v: Verb)
    ensures
        final(out)@ == old(out)@ + verb_bytes(v),
{
    let ghost pre = out@;
    match v {
        Verb::Detect => {
            out.push(100);
            out.push(101);
            out.push(116);
            out.push(101);
            out.push(99);
            out.push(116);
        },
        Verb::Gather => {
            out.push(103);
            out.push(97);
            out.push(116);
            out.push(104);
            out.push(101);
            out.push(114);
        },
        Verb::Affect => {
            out.push(97);
            out.push(102);
            out.push(102);
            out.push(101);
            out.push(99);
            out.push(116);
        },
    }
    proof {
        assert(out@ =~= pre + verb_bytes(v));
    }
}

fn push_handshake(out: &mut Vec<u8>, response: bool)
    ensures
        !response ==> final(out)@ == old(out)@ + handshake_rq(),
        response ==> final(out)@ == old(out)@ + handshake_rs(),
{
    let ghost pre = out@;
    out.push(99);
    out.push(111);
    out.push(109);
    out.push(46);
    out.push(97);
    out.push(107);
    out.push(97);
    out.push(118);
    out.push(101);
    out.push(108);
    out.push(46);
    out.push(109);
    out.push(97);
    out.push(110);
    out.push(97);
    out.push(46);
    out.push(118);
    out.push(50);
    out.push(46);
    out.push(114);
    if response {
        out.push(115);
        proof {
            assert(out@ =~= pre + handshake_rs());
        }
    } else {
        out.push(113);
        proof {
            assert(out@ =~= pre + handshake_rq());
        }
    }
}

pub fn handshake_rq_vec() -> (r: Vec<u8>)
    ensures
        r@ == handshake_rq(),
{
    let mut r: Vec<u8> = Vec::new();
    push_handshake(&mut r, false);
    proof {
        assert(r@ =~= handshake_rq());
    }
    r
}

pub fn handshake_rs_vec() -> (r: Vec<u8>)
    ensures
        r@ == handshake_rs(),
{
    let mut r: Vec<u8> = Vec::new();
    push_handshake(&mut r, true);
    proof {
        assert(r@ =~= handshake_rs());
    }
    r
}

fn verb_prefix_vec(v: Verb) -> (r: Vec<u8>)
    ensures
        r@ == verb_prefix(v),
{
    let mut r: Vec<u8> = Vec::new();
    push_verb(&mut r, v);
    r.push(32);
    proof {
        assert(r@ =~= verb_prefix(v));
    }
    r
}

fn strip_prefix_vec(s: &Vec<u8>, p: &Vec<u8>) -> (r: Option<Vec<u8>>)
    ensures
        starts_with(s@, p@) ==> (r matches Some(rest) && rest@ == s@.skip(p@.len() as int)),
        !starts_with(s@, p@) ==> r is None,
{
    if p.len() > s.len() {
        return None;
    }
    let mut i: usize = 0;
    while i < p.len()
        invariant
            p@.len() <= s@.len(),
            i <= p@.len(),
            forall|k: int| 0 <= k < i ==> s@[k] == p@[k],
        decreases p@.len() - i,
    {
        if s[i] != p[i] {
            proof {
                assert(s@.subrange(0, p@.len() as int)[i as int] != p@[i as int]);
            }
            return None;
        }
        i = i + 1;
    }
    proof {
        assert(s@.subrange(0, p@.len() as int) =~= p@);
    }
    Some(copy_range(s, p.len(), s.len()))
}

fn has_space(v: &Vec<u8>) -> (r: bool)
    ensures
        r == !no_space(v@),
{
    let mut i: usize = 0;
    while i < v.len()
        invariant
            i <= v@.len(),
            forall|k: int| 0 <= k < i ==> v@[k] != 32,
        decreases v@.len() - i,
    {
        if v[i] == 32 {
            return true;
        }
        i = i + 1;
    }
    false
}

/// Relies on String::from_utf8: it returns Ok exactly on valid UTF-8 input
/// and then preserves the bytes.
#[verifier::external_body]
pub(crate) fn string_from_utf8(v: Vec<u8>) -> (r: Option<String>)
    ensures
        r matches Some(s) ==> valid_utf8(v@) && s@ == decode_utf8(v@),
        r is None ==> !valid_utf8(v@),
{
    match String::from_utf8(v) {
        Ok(s) => Some(s),
        Err(_) => None,
    }
}

/// Decodes one raw wire argument into the string it stands for.
pub fn decode_arg(raw: &Vec<u8>) -> (r: Option<String>)
    ensures
        arg_ok(raw@) ==> (r matches Some(s) && s@ == arg_chars(raw@)),
        !arg_ok(raw@) ==> r is None,
{
    match percent_decode_checked(raw) {
        None => None,
        Some(bytes) => string_from_utf8(bytes),
    }
}

fn split_two(rest: &Vec<u8>) -> (r: Option<(Vec<u8>, Vec<u8>)>)
    ensures
        spec_split_two(rest@) matches Some(pair) ==> (r matches Some(p) && p.0@ == pair.0
            && p.1@ == pair.1),
        spec_split_two(rest@) is None ==> r is None,
{
    let n = rest.len();
    let mut j: usize = 0;
    while j < n && rest[j] != 32
        invariant
            n == rest@.len(),
            j <= n,
            forall|k: int| 0 <= k < j ==> rest@[k] != 32,
        decreases n - j,
    {
        j = j + 1;
    }
    if j == n {
        // no space at all: no valid split exists
        proof {
            assert forall|k: int| !valid_arg_split(rest@, k) by {
                if 0 <= k < rest@.len() {
                    assert(rest@[k] != 32);
                }
            }
        }
        return None;
    }
    // check that no second space follows
    let mut m: usize = j + 1;
    while m < n
        invariant
            n == rest@.len(),
            j < n,
            rest@[j as int] == 32,
            forall|k: int| 0 <= k < j ==> rest@[k] != 32,
            j + 1 <= m <= n,
            forall|k: int| j < k < m ==> rest@[k] != 32,
        decreases n - m,
    {
        if rest[m] == 32 {
            proof {
                let jj = j as int;
                let mm = m as int;
                assert forall|k: int| !valid_arg_split(rest@, k) by {
                    if valid_arg_split(rest@, k) {
                        if k < jj {
                            assert(rest@[k] == 32);
                            assert(false);
                        } else if k == jj {
                            assert(rest@.skip(jj + 1)[mm - jj - 1] == 32);
                            assert(false);
                        } else {
                            assert(rest@.subrange(0, k)[jj] == 32);
                            assert(false);
                        }
                    }
                }
            }
            return None;
        }
        m = m + 1;
    }
    proof {
        assert(valid_arg_split(rest@, j as int));
        let jc = choose|k: int| valid_arg_split(rest@, k);
        lemma_arg_split_unique(rest@, jc, j as int);
    }
    let a = copy_range(rest, 0, j);
    let b = copy_range(rest, j + 1, n);
    Some((a, b))
}

/// Parses one request line exactly as the grammar reads it.
pub fn parse_request(line: &Vec<u8>) -> (r: Result<Request, ProtocolError>)
    ensures
        spec_parse_request(line@) matches Ok(m) ==> (r matches Ok(req) && req@ == m),
        spec_parse_request(line@) matches Err(e) ==> r == Err::<Request, ProtocolError>(e),
{
    let hs = handshake_rq_vec();
    if bytes_eq(line, &hs) {
        return Ok(Request::Handshake);
    }
    let dp = verb_prefix_vec(Verb::Detect);
    if let Some(raw) = strip_prefix_vec(line, &dp) {
        if has_space(&raw) {
            return Err(ProtocolError::WrongArgCount);
        }
        return match decode_arg(&raw) {
            Some(path) => Ok(Request::Detect { raw_path: raw, path }),
            None => Err(ProtocolError::MalformedEncoding),
        };
    }
    let gp = verb_prefix_vec(Verb::Gather);
    if let Some(rest) = strip_prefix_vec(line, &gp) {
        return match split_two(&rest) {
            None => Err(ProtocolError::WrongArgCount),
            Some((raw1, raw2)) => match (decode_arg(&raw1), decode_arg(&raw2)) {
                (Some(path), Some(root)) => Ok(
                    Request::Gather { raw_path: raw1, path, raw_root: raw2, root },
                ),
                _ => Err(ProtocolError::MalformedEncoding),
            },
        };
    }
    let ap = verb_prefix_vec(Verb::Affect);
    if let Some(rest) = strip_prefix_vec(line, &ap) {
        return match split_two(&rest) {
            None => Err(ProtocolError::WrongArgCount),
            Some((raw1, raw2)) => match (decode_arg(&raw1), decode_arg(&raw2)) {
                (Some(path), Some(root)) => Ok(
                    Request::Affect { raw_path: raw1, path, raw_root: raw2, root },
                ),
                _ => Err(ProtocolError::MalformedEncoding),
            },
        };
    }
    Err(ProtocolError::UnknownVerb)
}

// ---------------------------------------------------------------------------
// The callee side: dispatching a request stream to a handler.
// ---------------------------------------------------------------------------

/// What a handler failure carries back; the dispatch loop stops on the first
/// one.
#[derive(Debug)]
pub struct HandlerError {
    pub message: String,
}

/// One handler call, as the dispatch loop issues them.
pub enum HandlerCall {
    Detect { path: Seq<char> },
    Gather { path: Seq<char>, root: Seq<char> },
    Affect { path: Seq<char>, root: Seq<char> },
}

/// One side of the effector capability: something that can tell whether an
/// artifact exists, write its current state into the shadow tree, and apply
/// the shadow state to the machine.  The engine talks to out-of-process
/// implementations; the in-process one below serves tests.  Each method
/// records itself in the call log, and each detect answer is logged in order.
pub trait Handler {
    /// The calls received so far.  A realization outside the verifier
    /// inherits the default, which gives its log no meaning.
    open spec fn calls(&self) -> Seq<HandlerCall> {
        Seq::empty()
    }

    /// The detect answers given so far.
    open spec fn answers(&self) -> Seq<bool> {
        Seq::empty()
    }

    fn detect(&mut self, path: &String) -> (r: Result<bool, HandlerError>)
        ensures
            final(self).calls() == old(self).calls().push(HandlerCall::Detect { path: path@ }),
            r matches Ok(b) ==> final(self).answers() == old(self).answers().push(b),
            r is Err ==> final(self).answers() == old(self).answers(),
    ;

    fn gather(&mut self, path: &String, shadow_root: &String) -> (r: Result<(), HandlerError>)
        ensures
            final(self).calls() == old(self).calls().push(
                HandlerCall::Gather { path: path@, root: shadow_root@ },
            ),
            final(self).answers() == old(self).answers(),
    ;

    fn affect(&mut self, path: &String, shadow_root: &String) -> (r: Result<(), HandlerError>)
        ensures
            final(self).calls() == old(self).calls().push(
                HandlerCall::Affect { path: path@, root: shadow_root@ },
            ),
            final(self).answers() == old(self).answers(),
    ;
}

#[derive(Debug)]
pub enum CalleeError {
    Protocol(ProtocolError),
    Handler(HandlerError),
}

/// The request a line stands for, defaulting to the handshake where the line
/// does not parse; meaningful only on lines that do.
pub open spec fn parsed_request(line: Seq<u8>) -> ReqModel {
    match spec_parse_request(line) {
        Ok(m) => m,
        Err(_) => ReqModel::Handshake,
    }
}

/// The handler call a request demands, if any: the handshake is answered
/// without consulting the handler.
pub open spec fn call_for(m: ReqModel) -> Option<HandlerCall> {
    match m {
        ReqModel::Handshake => None,
        ReqModel::Detect { path, .. } => Some(HandlerCall::Detect { path }),
        ReqModel::Gather { path, root, .. } => Some(HandlerCall::Gather { path, root }),
        ReqModel::Affect { path, root, .. } => Some(HandlerCall::Affect { path, root }),
    }
}

pub open spec fn calls_of_line(l: Seq<u8>) -> Seq<HandlerCall> {
    match call_for(parsed_request(l)) {
        Some(c) => seq![c],
        None => Seq::empty(),
    }
}

/// The handler calls a request stream demands, in order.
pub open spec fn calls_of_lines(lines: Seq<Seq<u8>>) -> Seq<HandlerCall>
    decreases lines.len(),
{
    if lines.len() == 0 {
        Seq::empty()
    } else {
        calls_of_line(lines[0]) + calls_of_lines(lines.drop_first())
    }
}

/// How many detect requests a stream holds.
pub open spec fn detect_count(lines: Seq<Seq<u8>>) -> nat
    decreases lines.len(),
{
    if lines.len() == 0 {
        0
    } else {
        (if parsed_request(lines[0]) is Detect {
            1nat
        } else {
            0nat
        }) + detect_count(lines.drop_first())
    }
}

/// The response line owed to one request: the handshake answer, the detect
/// answer chosen by `d`, or the ack echoing the raw arguments verbatim.
pub open spec fn response_for(m: ReqModel, d: bool) -> Seq<u8> {
    match m {
        ReqModel::Handshake => handshake_rs(),
        ReqModel::Detect { .. } => verb_done_prefix(Verb::Detect) + (if d {
            present_bytes()
        } else {
            absent_bytes()
        }),
        ReqModel::Gather { raw1, raw2, .. } => verb_done_prefix(Verb::Gather) + raw1
            + seq![32u8] + raw2,
        ReqModel::Affect { raw1, raw2, .. } => verb_done_prefix(Verb::Affect) + raw1
            + seq![32u8] + raw2,
    }
}

/// The full output stream owed to a request stream: one response line per
/// request, where the detect answers are taken from `ds`, in order.
pub open spec fn callee_output(lines: Seq<Seq<u8>>, ds: Seq<bool>) -> Seq<u8>
    decreases lines.len(),
{
    if lines.len() == 0 {
        Seq::empty()
    } else if parsed_request(lines[0]) is Detect {
        response_for(parsed_request(lines[0]), ds[0]) + seq![10u8] + callee_output(
            lines.drop_first(),
            ds.drop_first(),
        )
    } else {
        response_for(parsed_request(lines[0]), false) + seq![10u8] + callee_output(
            lines.drop_first(),
            ds,
        )
    }
}

pub proof fn lemma_calls_of_lines_snoc(lines: Seq<Seq<u8>>, l: Seq<u8>)
    ensures
        calls_of_lines(lines.push(l)) == calls_of_lines(lines) + calls_of_line(l),
        detect_count(lines.push(l)) == detect_count(lines) + (if parsed_request(l) is Detect {
            1nat
        } else {
            0nat
        }),
    decreases lines.len(),
{
    if lines.len() == 0 {
        assert(lines.push(l)[0] == l);
        assert(lines.push(l).drop_first() =~~= Seq::<Seq<u8>>::empty());
        assert(calls_of_lines(lines.push(l)) == calls_of_line(l) + calls_of_lines(
            lines.push(l).drop_first(),
        ));
        assert(calls_of_lines(lines.push(l).drop_first()) =~= Seq::<HandlerCall>::empty());
        assert(calls_of_lines(lines) =~= Seq::<HandlerCall>::empty());
        assert(calls_of_lines(lines.push(l)) =~= calls_of_lines(lines) + calls_of_line(l));
        assert(detect_count(lines.push(l).drop_first()) == 0);
        assert(detect_count(lines) == 0);
    } else {
        lemma_calls_of_lines_snoc(lines.drop_first(), l);
        assert(lines.push(l)[0] == lines[0]);
        assert(lines.push(l).drop_first() =~~= lines.drop_first().push(l));
        assert(calls_of_lines(lines.push(l)) == calls_of_line(lines[0]) + calls_of_lines(
            lines.drop_first().push(l),
        ));
        assert(calls_of_lines(lines.push(l)) =~= calls_of_lines(lines) + calls_of_line(l));
        assert(detect_count(lines.push(l)) == (if parsed_request(lines[0]) is Detect {
            1nat
        } else {
            0nat
        }) + detect_count(lines.drop_first().push(l)));
        assert(detect_count(lines) == (if parsed_request(lines[0]) is Detect {
            1nat
        } else {
            0nat
        }) + detect_count(lines.drop_first()));
    }
}

#[verifier::rlimit(80)]
pub proof fn lemma_callee_output_snoc(lines: Seq<Seq<u8>>, ds: Seq<bool>, l: Seq<u8>, d: bool)
    requires
        ds.len() == detect_count(lines),
    ensures
        parsed_request(l) is Detect ==> callee_output(lines.push(l), ds.push(d))
            == callee_output(lines, ds) + response_for(parsed_request(l), d) + seq![10u8],
        !(parsed_request(l) is Detect) ==> callee_output(lines.push(l), ds) == callee_output(
            lines,
            ds,
        ) + response_for(parsed_request(l), false) + seq![10u8],
    decreases lines.len(),
{
    if lines.len() == 0 {
        assert(lines.push(l)[0] == l);
        assert(lines.push(l).drop_first() =~~= Seq::<Seq<u8>>::empty());
        assert(callee_output(lines, ds) =~= Seq::<u8>::empty());
        if parsed_request(l) is Detect {
            assert(ds.push(d)[0] == d);
            assert(callee_output(lines.push(l), ds.push(d)) == response_for(
                parsed_request(l),
                d,
            ) + seq![10u8] + callee_output(lines.push(l).drop_first(), ds.push(d).drop_first()));
            assert(callee_output(lines.push(l).drop_first(), ds.push(d).drop_first())
                =~= Seq::<u8>::empty());
            assert(callee_output(lines.push(l), ds.push(d)) =~= callee_output(lines, ds)
                + response_for(parsed_request(l), d) + seq![10u8]);
        } else {
            assert(callee_output(lines.push(l), ds) == response_for(parsed_request(l), false)
                + seq![10u8] + callee_output(lines.push(l).drop_first(), ds));
            assert(callee_output(lines.push(l).drop_first(), ds) =~= Seq::<u8>::empty());
            assert(callee_output(lines.push(l), ds) =~= callee_output(lines, ds) + response_for(
                parsed_request(l),
                false,
            ) + seq![10u8]);
        }
    } else {
        assert(lines.push(l)[0] == lines[0]);
        assert(lines.push(l).drop_first() =~~= lines.drop_first().push(l));
        if parsed_request(lines[0]) is Detect {
            lemma_callee_output_snoc(lines.drop_first(), ds.drop_first(), l, d);
            let head = response_for(parsed_request(lines[0]), ds[0]) + seq![10u8];
            if parsed_request(l) is Detect {
                assert(ds.push(d)[0] == ds[0]);
                assert(ds.push(d).drop_first() =~= ds.drop_first().push(d));
                assert(callee_output(lines.push(l), ds.push(d)) == head + callee_output(
                    lines.drop_first().push(l),
                    ds.drop_first().push(d),
                ));
                assert(callee_output(lines.push(l), ds.push(d)) =~= callee_output(lines, ds)
                    + response_for(parsed_request(l), d) + seq![10u8]);
            } else {
                assert(callee_output(lines.push(l), ds) == head + callee_output(
                    lines.drop_first().push(l),
                    ds.drop_first(),
                ));
                assert(callee_output(lines.push(l), ds) =~= callee_output(lines, ds)
                    + response_for(parsed_request(l), false) + seq![10u8]);
            }
        } else {
            lemma_callee_output_snoc(lines.drop_first(), ds, l, d);
            let head = response_for(parsed_request(lines[0]), false) + seq![10u8];
            if parsed_request(l) is Detect {
                assert(callee_output(lines.push(l), ds.push(d)) == head + callee_output(
                    lines.drop_first().push(l),
                    ds.push(d),
                ));
                assert(callee_output(lines.push(l), ds.push(d)) =~= callee_output(lines, ds)
                    + response_for(parsed_request(l), d) + seq![10u8]);
            } else {
                assert(callee_output(lines.push(l), ds) == head + callee_output(
                    lines.drop_first().push(l),
                    ds,
                ));
                assert(callee_output(lines.push(l), ds) =~= callee_output(lines, ds)
                    + response_for(parsed_request(l), false) + seq![10u8]);
            }
        }
    }
}

/// Appends one response line, newline included.
fn append_response(out: &mut Vec<u8>, req: &Request, d: bool)
    ensures
        final(out)@ == old(out)@ + response_for(req@, d) + seq![10u8],
{
    let ghost pre = out@;
    match req {
        Request::Handshake => {
            push_handshake(out, true);
            proof {
                assert(out@ =~= pre + response_for(req@, d));
            }
        },
        Request::Detect { .. } => {
            push_verb(out, Verb::Detect);
            out.push(101);
            out.push(100);
            out.push(32);
            if d {
                out.push(112);
                out.push(114);
                out.push(101);
                out.push(115);
                out.push(101);
                out.push(110);
                out.push(116);
            } else {
                out.push(97);
                out.push(98);
                out.push(115);
                out.push(101);
                out.push(110);
                out.push(116);
            }
            proof {
                assert(out@ =~= pre + response_for(req@, d));
            }
        },
        Request::Gather { raw_path, raw_root, .. } => {
            push_verb(out, Verb::Gather);
            out.push(101);
            out.push(100);
            out.push(32);
            append_vec(out, raw_path);
            out.push(32);
            append_vec(out, raw_root);
            proof {
                assert(out@ =~= pre + response_for(req@, d));
            }
        },
        Request::Affect { raw_path, raw_root, .. } => {
            push_verb(out, Verb::Affect);
            out.push(101);
            out.push(100);
            out.push(32);
            append_vec(out, raw_path);
            out.push(32);
            append_vec(out, raw_root);
            proof {
                assert(out@ =~= pre + response_for(req@, d));
            }
        },
    }
    out.push(10);
    proof {
        assert(out@ =~= pre + response_for(req@, d) + seq![10u8]);
    }
}

/// Reads a request stream line by line, dispatches each request to the
/// handler, and collects the response stream.  On success every input line
/// was a well-formed request, the handler received exactly the calls the
/// stream demands, in order, and the output is one response line per
/// request, its detect answers being exactly the answers the handler gave.
/// The first protocol or handler error stops the loop: only a line that does
/// not parse raises the former, and only a line that reaches the handler the
/// latter.
pub fn parse_and_dispatch<H: Handler>(input: &Vec<u8>, handler: &mut H) -> (r: Result<
    Vec<u8>,
    CalleeError,
>)
    ensures
        r matches Ok(out) ==> {
            &&& forall|k: int|
                0 <= k < lines_of(input@).len() ==> spec_parse_request(
                    #[trigger] lines_of(input@)[k],
                ) is Ok
            &&& final(handler).calls() == old(handler).calls() + calls_of_lines(
                lines_of(input@),
            )
            &&& final(handler).answers().len() == old(handler).answers().len() + detect_count(
                lines_of(input@),
            )
            &&& final(handler).answers().take(old(handler).answers().len() as int) == old(
                handler,
            ).answers()
            &&& out@ == callee_output(
                lines_of(input@),
                final(handler).answers().skip(old(handler).answers().len() as int),
            )
        },
        r matches Err(e) && e is Protocol ==> exists|k: int|
            0 <= k < lines_of(input@).len() && spec_parse_request(#[trigger] lines_of(input@)[k])
                is Err,
        r matches Err(e) && e is Handler ==> exists|k: int|
            0 <= k < lines_of(input@).len() && (#[trigger] spec_parse_request(
                lines_of(input@)[k],
            ) matches Ok(m) && !(m is Handshake)),
{
    let lines = split_lines(input);
    let ghost lv = lines.deep_view();
    let ghost pre_calls = handler.calls();
    let ghost pre_answers = handler.answers();
    let mut out: Vec<u8> = Vec::new();
    let mut idx: usize = 0;
    let ghost mut ds: Seq<bool> = Seq::empty();
    proof {
        assert(lv.take(0) =~~= Seq::<Seq<u8>>::empty());
        assert(out@ =~= callee_output(lv.take(0), ds));
        assert(handler.calls() =~= pre_calls + calls_of_lines(lv.take(0)));
        assert(handler.answers() =~= pre_answers + ds);
    }
    while idx < lines.len()
        invariant
            pre_calls == old(handler).calls(),
            pre_answers == old(handler).answers(),
            lv == lines_of(input@),
            lv == lines.deep_view(),
            lines@.len() == lv.len(),
            idx <= lv.len(),
            ds.len() == detect_count(lv.take(idx as int)),
            forall|k: int| 0 <= k < idx ==> spec_parse_request(#[trigger] lv[k]) is Ok,
            handler.calls() == pre_calls + calls_of_lines(lv.take(idx as int)),
            handler.answers() == pre_answers + ds,
            out@ == callee_output(lv.take(idx as int), ds),
        decreases lv.len() - idx,
    {
        let line = &lines[idx];
        proof {
            assert(lines@[idx as int].deep_view() =~= lines@[idx as int]@);
            assert(lv[idx as int] == line@);
        }
        let req = match parse_request(line) {
            Ok(req) => req,
            Err(e) => {
                return Err(CalleeError::Protocol(e));
            },
        };
        let ghost hc_pre = handler.calls();
        let ghost ha_pre = handler.answers();
        let d: bool = match &req {
            Request::Handshake => false,
            Request::Detect { raw_path, path } => match handler.detect(path) {
                Ok(b) => {
                    proof {
                        assert(req@ == ReqModel::Detect { raw: raw_path@, path: path@ });
                        assert(handler.calls() == hc_pre.push(
                            HandlerCall::Detect { path: path@ },
                        ));
                        assert(handler.answers() == ha_pre.push(b));
                    }
                    b
                },
                Err(he) => {
                    proof {
                        assert(spec_parse_request(lv[idx as int]) matches Ok(m) && !(m
                            is Handshake));
                    }
                    return Err(CalleeError::Handler(he));
                },
            },
            Request::Gather { raw_path, path, raw_root, root } => match handler.gather(
                path,
                root,
            ) {
                Ok(_) => {
                    proof {
                        assert(req@ == ReqModel::Gather {
                            raw1: raw_path@,
                            path: path@,
                            raw2: raw_root@,
                            root: root@,
                        });
                        assert(handler.calls() == hc_pre.push(
                            HandlerCall::Gather { path: path@, root: root@ },
                        ));
                        assert(handler.answers() == ha_pre);
                    }
                    false
                },
                Err(he) => {
                    proof {
                        assert(spec_parse_request(lv[idx as int]) matches Ok(m) && !(m
                            is Handshake));
                    }
                    return Err(CalleeError::Handler(he));
                },
            },
            Request::Affect { raw_path, path, raw_root, root } => match handler.affect(
                path,
                root,
            ) {
                Ok(_) => {
                    proof {
                        assert(req@ == ReqModel::Affect {
                            raw1: raw_path@,
                            path: path@,
                            raw2: raw_root@,
                            root: root@,
                        });
                        assert(handler.calls() == hc_pre.push(
                            HandlerCall::Affect { path: path@, root: root@ },
                        ));
                        assert(handler.answers() == ha_pre);
                    }
                    false
                },
                Err(he) => {
                    proof {
                        assert(spec_parse_request(lv[idx as int]) matches Ok(m) && !(m
                            is Handshake));
                    }
                    return Err(CalleeError::Handler(he));
                },
            },
        };
        let ghost ds_pre = ds;
        append_response(&mut out, &req, d);
        proof {
            lemma_calls_of_lines_snoc(lv.take(idx as int), lv[idx as int]);
            assert(lv.take(idx as int).push(lv[idx as int]) =~~= lv.take(idx as int + 1));
            assert(parsed_request(lv[idx as int]) == req@);
            if req@ is Detect {
                ds = ds_pre.push(d);
                lemma_callee_output_snoc(lv.take(idx as int), ds_pre, lv[idx as int], d);
                assert(handler.answers() =~= pre_answers + ds);
            } else {
                lemma_callee_output_snoc(lv.take(idx as int), ds_pre, lv[idx as int], false);
            }
            assert(handler.calls() =~= pre_calls + calls_of_lines(lv.take(idx as int + 1)));
            assert(out@ =~= callee_output(lv.take(idx as int + 1), ds));
        }
        idx = idx + 1;
    }
    proof {
        assert(lv.take(lv.len() as int) =~~= lv);
        assert(handler.answers().take(pre_answers.len() as int) =~= pre_answers);
        assert(handler.answers().skip(pre_answers.len() as int) =~= ds);
    }
    Ok(out)
}

// ---------------------------------------------------------------------------
// The in-process handler realization: answers detects from a fixed list and
// records every call; tests drive the dispatch loop with it.
// ---------------------------------------------------------------------------

/// One recorded handler call.
pub enum CallRecord {
    Detect { path: String },
    Gather { path: String, root: String },
    Affect { path: String, root: String },
}

impl DeepView for CallRecord {
    type V = HandlerCall;

    open spec fn deep_view(&self) -> HandlerCall {
        match self {
            CallRecord::Detect { path } => HandlerCall::Detect { path: path@ },
            CallRecord::Gather { path, root } => HandlerCall::Gather {
                path: path@,
                root: root@,
            },
            CallRecord::Affect { path, root } => HandlerCall::Affect {
                path: path@,
                root: root@,
            },
        }
    }
}

pub struct ScriptedHandler {
    pub detect_replies: Vec<bool>,
    pub next: usize,
    pub log: Vec<CallRecord>,
}

impl ScriptedHandler {
    pub fn new(detect_replies: Vec<bool>) -> (r: ScriptedHandler)
        ensures
            r.detect_replies == detect_replies,
            r.next == 0,
            r.log@.len() == 0,
    {
        ScriptedHandler { detect_replies, next: 0, log: Vec::new() }
    }
}

impl Handler for ScriptedHandler {
    open spec fn calls(&self) -> Seq<HandlerCall> {
        self.log.deep_view()
    }

    open spec fn answers(&self) -> Seq<bool> {
        self.detect_replies@.take(self.next as int)
    }

    fn detect(&mut self, path: &String) -> (r: Result<bool, HandlerError>) {
        let ghost pre = self.log.deep_view();
        self.log.push(CallRecord::Detect { path: path.clone() });
        proof {
            assert(self.log.deep_view() =~~= pre.push(HandlerCall::Detect { path: path@ }));
        }
        if self.next < self.detect_replies.len() {
            let ghost pre_a = self.detect_replies@.take(self.next as int);
            let b = self.detect_replies[self.next];
            self.next = self.next + 1;
            proof {
                assert(self.detect_replies@.take(self.next as int) =~= pre_a.push(b));
            }
            Ok(b)
        } else {
            Err(HandlerError { message: "no answer scripted".to_owned() })
        }
    }

    fn gather(&mut self, path: &String, shadow_root: &String) -> (r: Result<(), HandlerError>) {
        let ghost pre = self.log.deep_view();
        self.log.push(CallRecord::Gather { path: path.clone(), root: shadow_root.clone() });
        proof {
            assert(self.log.deep_view() =~~= pre.push(
                HandlerCall::Gather { path: path@, root: shadow_root@ },
            ));
        }
        Ok(())
    }

    fn affect(&mut self, path: &String, shadow_root: &String) -> (r: Result<(), HandlerError>) {
        let ghost pre = self.log.deep_view();
        self.log.push(CallRecord::Affect { path: path.clone(), root: shadow_root.clone() });
        proof {
            assert(self.log.deep_view() =~~= pre.push(
                HandlerCall::Affect { path: path@, root: shadow_root@ },
            ));
        }
        Ok(())
    }
}

// ---------------------------------------------------------------------------
// The caller side: building request lines and reading response lines.
// ---------------------------------------------------------------------------

/// A request line with one argument: the verb, a space, the encoded argument.
pub open spec fn request_line_one(v: Verb, p: Seq<u8>) -> Seq<u8> {
    verb_prefix(v) + percent_encoded(p)
}

/// A request line with two arguments.
pub open spec fn request_line_two(v: Verb, p: Seq<u8>, q: Seq<u8>) -> Seq<u8> {
    verb_prefix(v) + percent_encoded(p) + seq![32u8] + percent_encoded(q)
}

pub fn build_request_line_one(v: Verb, path: &str) -> (r: Vec<u8>)
    ensures
        r@ == request_line_one(v, encode_utf8(path@)),
{
    let mut r: Vec<u8> = Vec::new();
    push_verb(&mut r, v);
    r.push(32);
    let pb = path.as_bytes_vec();
    let enc = percent_encode(&pb);
    append_vec(&mut r, &enc);
    proof {
        assert(r@ =~= request_line_one(v, encode_utf8(path@)));
    }
    r
}

pub fn build_request_line_two(v: Verb, path: &str, root: &str) -> (r: Vec<u8>)
    ensures
        r@ == request_line_two(v, encode_utf8(path@), encode_utf8(root@)),
{
    let mut r: Vec<u8> = Vec::new();
    push_verb(&mut r, v);
    r.push(32);
    let pb = path.as_bytes_vec();
    let enc = percent_encode(&pb);
    append_vec(&mut r, &enc);
    r.push(32);
    let rb = root.as_bytes_vec();
    let encr = percent_encode(&rb);
    append_vec(&mut r, &encr);
    proof {
        assert(r@ =~= request_line_two(
            v,
            encode_utf8(path@),
            encode_utf8(root@),
        ));
    }
    r
}

/// What a response line means to a caller that sent `v`: the suffix after the
/// expected prefix, or a bad-response error.
pub open spec fn spec_parse_response(v: Verb, line: Seq<u8>) -> Result<Seq<u8>, ProtocolError> {
    if starts_with(line, verb_done_prefix(v)) {
        Ok(line.skip(9))
    } else {
        Err(ProtocolError::BadResponse)
    }
}

pub fn parse_response(v: Verb, line: &Vec<u8>) -> (r: Result<Vec<u8>, ProtocolError>)
    ensures
        spec_parse_response(v, line@) matches Ok(s) ==> (r matches Ok(sv) && sv@ == s),
        spec_parse_response(v, line@) matches Err(e) ==> r == Err::<Vec<u8>, ProtocolError>(e),
{
    let mut p: Vec<u8> = Vec::new();
    push_verb(&mut p, v);
    p.push(101);
    p.push(100);
    p.push(32);
    proof {
        assert(p@ =~= verb_done_prefix(v));
    }
    match strip_prefix_vec(line, &p) {
        Some(suffix) => Ok(suffix),
        None => Err(ProtocolError::BadResponse),
    }
}

/// "present" as owned bytes.
pub fn present_vec() -> (r: Vec<u8>)
    ensures
        r@ == present_bytes(),
{
    let mut r: Vec<u8> = Vec::new();
    r.push(112);
    r.push(114);
    r.push(101);
    r.push(115);
    r.push(101);
    r.push(110);
    r.push(116);
    proof {
        assert(r@ =~= present_bytes());
    }
    r
}

/// Request lines never hold a newline, so each one travels as a single frame.
pub proof fn lemma_request_line_no_newline(v: Verb, p: Seq<u8>, q: Seq<u8>)
    ensures
        forall|i: int|
            0 <= i < request_line_one(v, p).len() ==> request_line_one(v, p)[i] != 10,
        forall|i: int|
            0 <= i < request_line_two(v, p, q).len() ==> request_line_two(v, p, q)[i] != 10,
{
    lemma_percent_encoded_wire_safe(p);
    lemma_percent_encoded_wire_safe(q);
    assert forall|i: int|
        0 <= i < request_line_one(v, p).len() implies request_line_one(v, p)[i] != 10 by {
        let l = request_line_one(v, p);
        if i < 7 {
            assert(l[i] == verb_prefix(v)[i]);
        } else {
            assert(l[i] == percent_encoded(p)[i - 7]);
        }
    }
    assert forall|i: int|
        0 <= i < request_line_two(v, p, q).len() implies request_line_two(v, p, q)[i] != 10 by {
        let l = request_line_two(v, p, q);
        let ep = percent_encoded(p);
        let eq = percent_encoded(q);
        if i < 7 {
            assert(l[i] == verb_prefix(v)[i]);
        } else if i < 7 + ep.len() {
            assert(l[i] == ep[i - 7]);
        } else if i == 7 + ep.len() {
            assert(l[i] == 32);
        } else {
            assert(l[i] == eq[i - 8 - ep.len()]);
        }
    }
}

/// A response the callee owes to a request is accepted by the caller that
/// sent the matching verb: the detect answer names presence or absence, and
/// an ack's suffix echoes the raw arguments verbatim.
pub proof fn lemma_response_round_trip(m: ReqModel, d: bool)
    ensures
        m is Detect ==> spec_parse_response(Verb::Detect, response_for(m, d)) == Ok::<
            Seq<u8>,
            ProtocolError,
        >(if d {
            present_bytes()
        } else {
            absent_bytes()
        }),
        m matches ReqModel::Gather { raw1, raw2, .. } ==> spec_parse_response(
            Verb::Gather,
            response_for(m, d),
        ) == Ok::<Seq<u8>, ProtocolError>(raw1 + seq![32u8] + raw2),
        m matches ReqModel::Affect { raw1, raw2, .. } ==> spec_parse_response(
            Verb::Affect,
            response_for(m, d),
        ) == Ok::<Seq<u8>, ProtocolError>(raw1 + seq![32u8] + raw2),
{
    match m {
        ReqModel::Handshake => {},
        ReqModel::Detect { .. } => {
            let r = response_for(m, d);
            assert(r.subrange(0, 9) =~= verb_done_prefix(Verb::Detect));
            if d {
                assert(r.skip(9) =~= present_bytes());
            } else {
                assert(r.skip(9) =~= absent_bytes());
            }
        },
        ReqModel::Gather { raw1, raw2, .. } => {
            let r = response_for(m, d);
            assert(r.subrange(0, 9) =~= verb_done_prefix(Verb::Gather));
            assert(r.skip(9) =~= raw1 + seq![32u8] + raw2);
        },
        ReqModel::Affect { raw1, raw2, .. } => {
            let r = response_for(m, d);
            assert(r.subrange(0, 9) =~= verb_done_prefix(Verb::Affect));
            assert(r.skip(9) =~= raw1 + seq![32u8] + raw2);
        },
    }
}

/// Round trip for a one-argument request: the callee reads back exactly the
/// verb and path the caller encoded.
pub proof fn lemma_request_round_trip_one(p: Seq<u8>)
    requires
        valid_utf8(p),
    ensures
        spec_parse_request(request_line_one(Verb::Detect, p)) == Ok::<ReqModel, ProtocolError>(
            ReqModel::Detect { raw: percent_encoded(p), path: decode_utf8(p) },
        ),
{
    let l = request_line_one(Verb::Detect, p);
    lemma_percent_round_trip(p);
    lemma_percent_encoded_wire_safe(p);
    assert(l[0] == 100);
    assert(l != handshake_rq());
    assert(l.subrange(0, 7) =~= verb_prefix(Verb::Detect));
    assert(starts_with(l, verb_prefix(Verb::Detect)));
    assert(l.skip(7) =~= percent_encoded(p));
}

/// Round trip for a two-argument request.
#[verifier::rlimit(60)]
pub proof fn lemma_request_round_trip_two(v: Verb, p: Seq<u8>, q: Seq<u8>)
    requires
        valid_utf8(p),
        valid_utf8(q),
        v != Verb::Detect,
    ensures
        v == Verb::Gather ==> spec_parse_request(request_line_two(v, p, q)) == Ok::<
            ReqModel,
            ProtocolError,
        >(
            ReqModel::Gather {
                raw1: percent_encoded(p),
                path: decode_utf8(p),
                raw2: percent_encoded(q),
                root: decode_utf8(q),
            },
        ),
        v == Verb::Affect ==> spec_parse_request(request_line_two(v, p, q)) == Ok::<
            ReqModel,
            ProtocolError,
        >(
            ReqModel::Affect {
                raw1: percent_encoded(p),
                path: decode_utf8(p),
                raw2: percent_encoded(q),
                root: decode_utf8(q),
            },
        ),
{
    let l = request_line_two(v, p, q);
    let ep = percent_encoded(p);
    let eq = percent_encoded(q);
    lemma_percent_round_trip(p);
    lemma_percent_round_trip(q);
    lemma_percent_encoded_wire_safe(p);
    lemma_percent_encoded_wire_safe(q);
    if v == Verb::Gather {
        assert(l[0] == 103);
    } else {
        assert(l[0] == 97);
    }
    assert(l != handshake_rq());
    assert(l.subrange(0, 7)[0] == l[0]);
    assert(!starts_with(l, verb_prefix(Verb::Detect)));
    if v == Verb::Affect {
        assert(!starts_with(l, verb_prefix(Verb::Gather)));
    }
    assert(l.subrange(0, 7) =~= verb_prefix(v));
    assert(starts_with(l, verb_prefix(v)));
    let rest = l.skip(7);
    assert(rest =~= ep + seq![32u8] + eq);
    let jj = ep.len() as int;
    assert(rest.subrange(0, jj) =~= ep);
    assert(rest.skip(jj + 1) =~= eq);
    assert(rest[jj] == 32);
    assert(valid_arg_split(rest, jj));
    let jc = choose|k: int| valid_arg_split(rest, k);
    lemma_arg_split_unique(rest, jc, jj);
}

} // verus!
