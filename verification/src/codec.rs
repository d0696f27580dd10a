//! Wire codec: length-prefixed request frames and tagged reply bodies.
//!
//! A request frame is a little-endian `u32` length followed by that many
//! payload bytes.  A reply frame is a little-endian `u32` total length
//! followed by a tagged body; the body starts with a `u32` tag (0 = NIL,
//! 1 = ERR, 2 = STR, 3 = ARR) and continues with the fields of that shape.
//! All integers are little-endian; all string fields travel as their
//! UTF-8 bytes.
use crate::K_MAX_MSG;
use vstd::bytes::{spec_u32_from_le_bytes, spec_u32_to_le_bytes, u32_from_le_bytes, u32_to_le_bytes};
use vstd::prelude::*;
use vstd::string::StringSliceAdditionalSpecFns;
use vstd::utf8::{decode_utf8, encode_utf8, valid_utf8};

verus! {

broadcast use vstd::slice::group_slice_axioms;

/// The four shapes a reply body can take.
#[derive(Debug)]
pub enum ResType {
    NIL,
    ERR,
    STR,
    ARR,
}

impl ResType {
    /// The tag that announces this shape on the wire.
    pub open spec fn tag_spec(self) -> u32 {
        match self {
            ResType::NIL => 0,
            ResType::ERR => 1,
            ResType::STR => 2,
            ResType::ARR => 3,
        }
    }

    /// The tag that announces this shape on the wire.
    pub fn tag(&self) -> (t: u32)
        ensures
            t == self.tag_spec(),
    {
        match self {
            ResType::NIL => 0,
            ResType::ERR => 1,
            ResType::STR => 2,
            ResType::ARR => 3,
        }
    }

    /// The shape's name, for display.
    pub fn as_str(&self) -> (s: String)
        ensures
            s@ == match self {
                ResType::NIL => "NIL"@,
                ResType::ERR => "ERR"@,
                ResType::STR => "STR"@,
                ResType::ARR => "ARR"@,
            },
    {
        match self {
            ResType::NIL => "NIL".to_owned(),
            ResType::ERR => "ERR".to_owned(),
            ResType::STR => "STR".to_owned(),
            ResType::ARR => "ARR".to_owned(),
        }
    }

    /// The shape a wire tag announces.  Tags above 3 name no shape.
    pub fn from_u32(value: u32) -> (r: ResType)
        requires
            value < 4,
        ensures
            r.tag_spec() == value,
    {
        match value {
            0 => ResType::NIL,
            1 => ResType::ERR,
            2 => ResType::STR,
            _ => ResType::ARR,
        }
    }
}

/// A reply value: the closed sum the server answers with.
#[derive(Debug)]
pub enum Reply {
    Nil,
    Error { code: u32, message: String },
    Str { value: String },
    Arr { values: Vec<String> },
}

/// The mathematical shadow of a [`Reply`]: the same sum over character
/// sequences.
pub ghost enum ReplyAbs {
    Nil,
    Error { code: u32, message: Seq<char> },
    Str { value: Seq<char> },
    Arr { values: Seq<Seq<char>> },
}

impl Reply {
    /// The abstract value this reply denotes.
    pub open spec fn abs(self) -> ReplyAbs {
        match self {
            Reply::Nil => ReplyAbs::Nil,
            Reply::Error { code, message } => ReplyAbs::Error { code, message: message@ },
            Reply::Str { value } => ReplyAbs::Str { value: value@ },
            Reply::Arr { values } => ReplyAbs::Arr {
                values: values@.map_values(|s: String| s@),
            },
        }
    }
}

/// The STR body that one string encodes to.
pub open spec fn spec_str_body(s: Seq<char>) -> Seq<u8> {
    spec_u32_to_le_bytes(2) + spec_u32_to_le_bytes(encode_utf8(s).len() as u32) + encode_utf8(s)
}

/// The concatenation of the STR bodies of `elems`, in order.
pub open spec fn spec_str_bodies(elems: Seq<Seq<char>>) -> Seq<u8>
    decreases elems.len(),
{
    if elems.len() == 0 {
        Seq::empty()
    } else {
        spec_str_body(elems.first()) + spec_str_bodies(elems.drop_first())
    }
}

/// The body bytes a reply encodes to.
pub open spec fn spec_body(a: ReplyAbs) -> Seq<u8> {
    match a {
        ReplyAbs::Nil => spec_u32_to_le_bytes(0),
        ReplyAbs::Error { code, message } => spec_u32_to_le_bytes(1) + spec_u32_to_le_bytes(code)
            + spec_u32_to_le_bytes(encode_utf8(message).len() as u32) + encode_utf8(message),
        ReplyAbs::Str { value } => spec_str_body(value),
        ReplyAbs::Arr { values } => spec_u32_to_le_bytes(3) + spec_u32_to_le_bytes(
            values.len() as u32,
        ) + spec_str_bodies(values),
    }
}

/// The complete frame that carries `body`: its length, then the body.
pub open spec fn spec_frame(body: Seq<u8>) -> Seq<u8> {
    spec_u32_to_le_bytes(body.len() as u32) + body
}

/// The NIL body.
pub fn out_nil() -> (r: Vec<u8>)
    ensures
        r@ == spec_body(ReplyAbs::Nil),
        r@.len() == 4,
{
    u32_to_le_bytes(0)
}

/// The STR body carrying `val`.
pub fn out_str(val: &str) -> (r: Vec<u8>)
    requires
        val.spec_bytes().len() <= u32::MAX,
    ensures
        r@ == spec_str_body(val@),
        r@.len() == 8 + encode_utf8(val@).len(),
{
    let bytes = val.as_bytes();
    let mut out = u32_to_le_bytes(2);
    let mut len_bytes = u32_to_le_bytes(bytes.len() as u32);
    out.append(&mut len_bytes);
    out.extend_from_slice(bytes);
    out
}

/// The ERR body carrying `code` and `message`.
pub fn out_err(code: u32, message: &str) -> (r: Vec<u8>)
    requires
        message.spec_bytes().len() <= u32::MAX,
    ensures
        r@ == spec_body(ReplyAbs::Error { code, message: message@ }),
        r@.len() == 12 + encode_utf8(message@).len(),
{
    let bytes = message.as_bytes();
    let mut out = u32_to_le_bytes(1);
    let mut code_bytes = u32_to_le_bytes(code);
    out.append(&mut code_bytes);
    let mut len_bytes = u32_to_le_bytes(bytes.len() as u32);
    out.append(&mut len_bytes);
    out.extend_from_slice(bytes);
    out
}

/// The ARR body carrying `values`, each as a full STR body.
pub fn out_arr(values: &Vec<String>) -> (r: Vec<u8>)
    requires
        values@.len() <= u32::MAX,
        forall|i: int|
            0 <= i < values@.len() ==> encode_utf8((#[trigger] values@[i])@).len() <= u32::MAX,
    ensures
        r@ == spec_body(ReplyAbs::Arr { values: values@.map_values(|s: String| s@) }),
{
    let ghost elems = values@.map_values(|s: String| s@);
    let mut out = u32_to_le_bytes(3);
    let mut count_bytes = u32_to_le_bytes(values.len() as u32);
    out.append(&mut count_bytes);
    let n = values.len();
    let mut i: usize = 0;
    while i < n
        invariant
            n == values@.len(),
            n <= u32::MAX,
            i <= n,
            elems == values@.map_values(|s: String| s@),
            forall|j: int|
                0 <= j < values@.len() ==> encode_utf8((#[trigger] values@[j])@).len()
                    <= u32::MAX,
            out@ == spec_u32_to_le_bytes(3) + spec_u32_to_le_bytes(n as u32) + spec_str_bodies(
                elems.take(i as int),
            ),
        decreases n - i,
    {
        let v: &String = &values[i];
        let mut body = out_str(v.as_str());
        out.append(&mut body);
        proof {
            lemma_str_bodies_push(elems.take(i as int), elems[i as int]);
            assert(elems.take(i + 1) =~= elems.take(i as int).push(elems[i as int]));
        }
        i = i + 1;
    }
    proof {
        assert(elems.take(n as int) =~= elems);
    }
    out
}

/// Concatenated bodies split as the sequences do.
proof fn lemma_str_bodies_concat(a: Seq<Seq<char>>, b: Seq<Seq<char>>)
    ensures
        spec_str_bodies(a + b) == spec_str_bodies(a) + spec_str_bodies(b),
    decreases a.len(),
{
    if a.len() == 0 {
        assert(a + b =~= b);
        assert(spec_str_bodies(a) =~= Seq::<u8>::empty());
        assert(spec_str_bodies(a) + spec_str_bodies(b) =~= spec_str_bodies(b));
    } else {
        assert((a + b).first() == a.first());
        assert((a + b).drop_first() =~= a.drop_first() + b);
        lemma_str_bodies_concat(a.drop_first(), b);
        assert(spec_str_body(a.first()) + (spec_str_bodies(a.drop_first()) + spec_str_bodies(b))
            =~= (spec_str_body(a.first()) + spec_str_bodies(a.drop_first())) + spec_str_bodies(b));
    }
}

/// Every element contributes its full STR body to the concatenation.
proof fn lemma_str_bodies_elem(elems: Seq<Seq<char>>, j: int)
    requires
        0 <= j < elems.len(),
    ensures
        spec_str_bodies(elems).len() >= 8 + encode_utf8(elems[j]).len(),
{
    vstd::bytes::lemma_auto_spec_u32_to_from_le_bytes();
    assert(elems =~= elems.take(j) + elems.skip(j));
    lemma_str_bodies_concat(elems.take(j), elems.skip(j));
    assert(elems.skip(j).first() == elems[j]);
}

/// The concatenation spends at least eight bytes per element.
proof fn lemma_str_bodies_count(elems: Seq<Seq<char>>)
    ensures
        spec_str_bodies(elems).len() >= 8 * elems.len(),
    decreases elems.len(),
{
    vstd::bytes::lemma_auto_spec_u32_to_from_le_bytes();
    if elems.len() > 0 {
        lemma_str_bodies_count(elems.drop_first());
    }
}

/// Prefix a body with its length to make a complete frame.
fn frame(mut body: Vec<u8>) -> (f: Vec<u8>)
    requires
        body@.len() <= K_MAX_MSG,
    ensures
        f@ == spec_frame(body@),
        f@.len() == 4 + body@.len(),
{
    proof {
        vstd::bytes::lemma_auto_spec_u32_to_from_le_bytes();
    }
    let mut f = u32_to_le_bytes(body.len() as u32);
    f.append(&mut body);
    f
}

/// The complete request frame that carries `payload`.
pub fn encode_request(payload: &[u8]) -> (f: Vec<u8>)
    requires
        payload@.len() <= K_MAX_MSG,
    ensures
        f@ == spec_frame(payload@),
        f@.len() == 4 + payload@.len(),
{
    proof {
        vstd::bytes::lemma_auto_spec_u32_to_from_le_bytes();
    }
    let mut f = u32_to_le_bytes(payload.len() as u32);
    f.extend_from_slice(payload);
    f
}

/// The complete reply frame carrying `rep`, or `None` when its body
/// would not fit in a frame.
pub fn frame_reply(rep: &Reply) -> (r: Option<Vec<u8>>)
    ensures
        match r {
            Some(f) => {
                &&& spec_body(rep.abs()).len() <= K_MAX_MSG
                &&& f@ == spec_frame(spec_body(rep.abs()))
                &&& f@.len() == 4 + spec_body(rep.abs()).len()
            },
            None => spec_body(rep.abs()).len() > K_MAX_MSG,
        },
{
    proof {
        vstd::bytes::lemma_auto_spec_u32_to_from_le_bytes();
    }
    match rep {
        Reply::Nil => Some(frame(out_nil())),
        Reply::Error { code, message } => {
            if message.as_str().as_bytes().len() > K_MAX_MSG - 12 {
                None
            } else {
                Some(frame(out_err(*code, message.as_str())))
            }
        },
        Reply::Str { value } => {
            if value.as_str().as_bytes().len() > K_MAX_MSG - 8 {
                None
            } else {
                Some(frame(out_str(value.as_str())))
            }
        },
        Reply::Arr { values } => {
            let ghost elems = values@.map_values(|s: String| s@);
            proof {
                match rep.abs() {
                    ReplyAbs::Arr { values: vs } => {
                        assert(vs =~= elems);
                    },
                    _ => {
                        assert(false);
                    },
                }
            }
            let n = values.len();
            let mut total: usize = 8;
            let mut i: usize = 0;
            while i < n
                invariant
                    n == values@.len(),
                    i <= n,
                    elems == values@.map_values(|s: String| s@),
                    rep.abs() == (ReplyAbs::Arr { values: elems }),
                    total == 8 + spec_str_bodies(elems.take(i as int)).len(),
                    total <= K_MAX_MSG,
                decreases n - i,
            {
                let v: &String = &values[i];
                let vlen = v.as_str().as_bytes().len();
                proof {
                    vstd::bytes::lemma_auto_spec_u32_to_from_le_bytes();
                    assert(elems[i as int] == values@[i as int]@);
                    lemma_str_bodies_push(elems.take(i as int), elems[i as int]);
                    assert(elems.take(i + 1) =~= elems.take(i as int).push(elems[i as int]));
                    assert(elems =~= elems.take(i + 1) + elems.skip(i + 1));
                    lemma_str_bodies_concat(elems.take(i + 1), elems.skip(i + 1));
                }
                if vlen > K_MAX_MSG || total + (8 + vlen) > K_MAX_MSG {
                    return None;
                }
                total = total + (8 + vlen);
                i = i + 1;
            }
            proof {
                assert(elems.take(n as int) =~= elems);
                assert forall|j: int| 0 <= j < elems.len() implies encode_utf8(
                    (#[trigger] values@[j])@,
                ).len() <= u32::MAX by {
                    lemma_str_bodies_elem(elems, j);
                }
                lemma_str_bodies_count(elems);
            }
            Some(frame(out_arr(values)))
        },
    }
}

/// A reply whose length fields fit their `u32` slots on the wire.
pub open spec fn wf_reply(a: ReplyAbs) -> bool {
    match a {
        ReplyAbs::Nil => true,
        ReplyAbs::Error { code, message } => encode_utf8(message).len() <= u32::MAX,
        ReplyAbs::Str { value } => encode_utf8(value).len() <= u32::MAX,
        ReplyAbs::Arr { values } => values.len() <= u32::MAX && forall|i: int|
            0 <= i < values.len() ==> encode_utf8(#[trigger] values[i]).len() <= u32::MAX,
    }
}

/// The elements that `n` consecutive STR bodies decode to, if `b` is
/// exactly that.
pub open spec fn spec_decode_str_elems(b: Seq<u8>, n: nat) -> Option<Seq<Seq<char>>>
    decreases n,
{
    if n == 0 {
        if b.len() == 0 {
            Some(Seq::empty())
        } else {
            None
        }
    } else if b.len() < 8 {
        None
    } else {
        let tag = spec_u32_from_le_bytes(b.subrange(0, 4));
        let len = spec_u32_from_le_bytes(b.subrange(4, 8)) as int;
        if tag != 2 || b.len() < 8 + len {
            None
        } else if !valid_utf8(b.subrange(8, 8 + len)) {
            None
        } else {
            match spec_decode_str_elems(b.skip(8 + len), (n - 1) as nat) {
                Some(rest) => Some(seq![decode_utf8(b.subrange(8, 8 + len))] + rest),
                None => None,
            }
        }
    }
}

/// The reply a body decodes to, if it is a well-formed encoding.
pub open spec fn spec_decode_body(b: Seq<u8>) -> Option<ReplyAbs> {
    if b.len() < 4 {
        None
    } else {
        let tag = spec_u32_from_le_bytes(b.subrange(0, 4));
        if tag == 0 {
            if b.len() == 4 {
                Some(ReplyAbs::Nil)
            } else {
                None
            }
        } else if tag == 1 {
            if b.len() < 12 {
                None
            } else {
                let code = spec_u32_from_le_bytes(b.subrange(4, 8));
                let mlen = spec_u32_from_le_bytes(b.subrange(8, 12)) as int;
                if b.len() != 12 + mlen || !valid_utf8(b.skip(12)) {
                    None
                } else {
                    Some(ReplyAbs::Error { code, message: decode_utf8(b.skip(12)) })
                }
            }
        } else if tag == 2 {
            if b.len() < 8 {
                None
            } else {
                let vlen = spec_u32_from_le_bytes(b.subrange(4, 8)) as int;
                if b.len() != 8 + vlen || !valid_utf8(b.skip(8)) {
                    None
                } else {
                    Some(ReplyAbs::Str { value: decode_utf8(b.skip(8)) })
                }
            }
        } else if tag == 3 {
            if b.len() < 8 {
                None
            } else {
                let count = spec_u32_from_le_bytes(b.subrange(4, 8));
                match spec_decode_str_elems(b.skip(8), count as nat) {
                    Some(es) => Some(ReplyAbs::Arr { values: es }),
                    None => None,
                }
            }
        } else {
            None
        }
    }
}

/// A run of STR bodies decodes back to the strings it encoded.
proof fn lemma_str_elems_round_trip(es: Seq<Seq<char>>)
    requires
        forall|i: int| 0 <= i < es.len() ==> encode_utf8(#[trigger] es[i]).len() <= u32::MAX,
    ensures
        spec_decode_str_elems(spec_str_bodies(es), es.len()) == Some(es),
    decreases es.len(),
{
    broadcast use vstd::utf8::encode_utf8_valid_utf8, vstd::utf8::encode_utf8_decode_utf8;

    vstd::bytes::lemma_auto_spec_u32_to_from_le_bytes();
    if es.len() == 0 {
        assert(spec_str_bodies(es).len() == 0);
        assert(Some(Seq::<Seq<char>>::empty()) == Some(es)) by {
            assert(Seq::<Seq<char>>::empty() =~= es);
        }
    } else {
        let first = es.first();
        let enc0 = encode_utf8(first);
        let l = enc0.len() as int;
        let b = spec_str_bodies(es);
        assert(es[0] == first);
        assert(b == spec_str_body(first) + spec_str_bodies(es.drop_first()));
        assert(b.subrange(0, 4) =~= spec_u32_to_le_bytes(2));
        assert(b.subrange(4, 8) =~= spec_u32_to_le_bytes(l as u32));
        assert(b.subrange(8, 8 + l) =~= enc0);
        assert(b.skip(8 + l) =~= spec_str_bodies(es.drop_first()));
        assert(forall|i: int|
            0 <= i < es.drop_first().len() ==> encode_utf8(#[trigger] es.drop_first()[i]).len()
                <= u32::MAX) by {
            assert(forall|i: int|
                0 <= i < es.drop_first().len() ==> (#[trigger] es.drop_first()[i]) == es[i + 1]);
        }
        lemma_str_elems_round_trip(es.drop_first());
        assert(seq![decode_utf8(enc0)] + es.drop_first() =~= es);
    }
}

/// Decoding a reply frame's body with the same codec yields the same tag
/// and the same fields as the reply that was encoded.
pub proof fn lemma_reply_round_trip(a: ReplyAbs)
    requires
        wf_reply(a),
    ensures
        spec_decode_body(spec_body(a)) == Some(a),
{
    broadcast use vstd::utf8::encode_utf8_valid_utf8, vstd::utf8::encode_utf8_decode_utf8;

    vstd::bytes::lemma_auto_spec_u32_to_from_le_bytes();
    let b = spec_body(a);
    match a {
        ReplyAbs::Nil => {
            assert(b.subrange(0, 4) =~= spec_u32_to_le_bytes(0));
        },
        ReplyAbs::Error { code, message } => {
            let enc = encode_utf8(message);
            assert(b.subrange(0, 4) =~= spec_u32_to_le_bytes(1));
            assert(b.subrange(4, 8) =~= spec_u32_to_le_bytes(code));
            assert(b.subrange(8, 12) =~= spec_u32_to_le_bytes(enc.len() as u32));
            assert(b.skip(12) =~= enc);
        },
        ReplyAbs::Str { value } => {
            let enc = encode_utf8(value);
            assert(b.subrange(0, 4) =~= spec_u32_to_le_bytes(2));
            assert(b.subrange(4, 8) =~= spec_u32_to_le_bytes(enc.len() as u32));
            assert(b.skip(8) =~= enc);
        },
        ReplyAbs::Arr { values } => {
            assert(b.subrange(0, 4) =~= spec_u32_to_le_bytes(3));
            assert(b.subrange(4, 8) =~= spec_u32_to_le_bytes(values.len() as u32));
            assert(b.skip(8) =~= spec_str_bodies(values));
            lemma_str_elems_round_trip(values);
        },
    }
}

/// Relies on `String::from_utf8`: it succeeds exactly on valid UTF-8 and
/// the returned string's bytes are the given ones.
#[verifier::external_body]
fn string_from_utf8(v: Vec<u8>) -> (r: Option<String>)
    ensures
        r is Some <==> valid_utf8(v@),
        r is Some ==> encode_utf8(r.unwrap()@) == v@,
{
    match String::from_utf8(v) {
        Ok(s) => Some(s),
        Err(_) => None,
    }
}

/// Turn bytes into the string they spell, if they are valid UTF-8.
pub fn bytes_to_string(v: Vec<u8>) -> (r: Option<String>)
    ensures
        r is Some <==> valid_utf8(v@),
        r is Some ==> encode_utf8(r.unwrap()@) == v@ && r.unwrap()@ == decode_utf8(v@),
{
    broadcast use vstd::utf8::encode_utf8_decode_utf8;

    string_from_utf8(v)
}

/// A decoded reply as the convenience client hands it out: the shape,
/// the error code if any, and the single string field if any.
#[derive(Debug)]
pub struct FerdisResponse {
    pub res_type: ResType,
    pub res_code: u32,
    pub message: Option<String>,
}

/// The first four bytes of `rbuf`, read as a little-endian `u32`.
pub fn deserialize_u32(rbuf: &[u8]) -> (v: u32)
    requires
        rbuf@.len() >= 4,
    ensures
        v == spec_u32_from_le_bytes(rbuf@.subrange(0, 4)),
{
    let sub = vstd::slice::slice_subrange(rbuf, 0, 4);
    u32_from_le_bytes(sub)
}

/// The first `length` bytes of `rbuf`, read as a UTF-8 string.
pub fn deserialize_string(rbuf: &[u8], length: usize) -> (s: String)
    requires
        length <= rbuf@.len(),
        valid_utf8(rbuf@.subrange(0, length as int)),
    ensures
        s@ == decode_utf8(rbuf@.subrange(0, length as int)),
        encode_utf8(s@) == rbuf@.subrange(0, length as int),
{
    let sub = vstd::slice::slice_subrange(rbuf, 0, length);
    let v = vstd::slice::slice_to_vec(sub);
    match bytes_to_string(v) {
        Some(s) => s,
        None => {
            proof {
                assert(false);
            }
            String::new()
        },
    }
}

/// Decode a NIL, ERR or STR reply body, as the convenience client does.
/// ARR bodies are outside this helper's domain.
pub fn deserialize_response(rbuf: &[u8]) -> (r: FerdisResponse)
    requires
        spec_decode_body(rbuf@) is Some,
        !(spec_decode_body(rbuf@).unwrap() is Arr),
    ensures
        match spec_decode_body(rbuf@).unwrap() {
            ReplyAbs::Nil => r.res_type is NIL && r.res_code == 0 && r.message is None,
            ReplyAbs::Error { code, message } => r.res_type is ERR && r.res_code == code
                && r.message is Some && r.message.unwrap()@ == message,
            ReplyAbs::Str { value } => r.res_type is STR && r.res_code == 0 && r.message is Some
                && r.message.unwrap()@ == value,
            ReplyAbs::Arr { values } => false,
        },
{
    let res_type_u32 = deserialize_u32(rbuf);
    let res_type = ResType::from_u32(res_type_u32);
    match res_type {
        ResType::NIL => FerdisResponse { res_type, res_code: 0, message: None },
        ResType::ERR => {
            let err_code = deserialize_u32(vstd::slice::slice_subrange(rbuf, 4, rbuf.len()));
            let message_length = deserialize_u32(
                vstd::slice::slice_subrange(rbuf, 8, rbuf.len()),
            );
            proof {
                assert(rbuf@.subrange(4, rbuf@.len() as int).subrange(0, 4) =~= rbuf@.subrange(
                    4,
                    8,
                ));
                assert(rbuf@.subrange(8, rbuf@.len() as int).subrange(0, 4) =~= rbuf@.subrange(
                    8,
                    12,
                ));
                assert(rbuf@.subrange(12, rbuf@.len() as int).subrange(
                    0,
                    rbuf@.len() - 12,
                ) =~= rbuf@.skip(12));
            }
            let message = deserialize_string(
                vstd::slice::slice_subrange(rbuf, 12, rbuf.len()),
                rbuf.len() - 12,
            );
            FerdisResponse { res_type, res_code: err_code, message: Some(message) }
        },
        ResType::STR => {
            let message_length = deserialize_u32(
                vstd::slice::slice_subrange(rbuf, 4, rbuf.len()),
            );
            proof {
                assert(rbuf@.subrange(4, rbuf@.len() as int).subrange(0, 4) =~= rbuf@.subrange(
                    4,
                    8,
                ));
                assert(rbuf@.subrange(8, rbuf@.len() as int).subrange(
                    0,
                    rbuf@.len() - 8,
                ) =~= rbuf@.skip(8));
            }
            let message = deserialize_string(
                vstd::slice::slice_subrange(rbuf, 8, rbuf.len()),
                rbuf.len() - 8,
            );
            FerdisResponse { res_type, res_code: 0, message: Some(message) }
        },
        ResType::ARR => {
            proof {
                assert(false);
            }
            FerdisResponse { res_type, res_code: 0, message: None }
        },
    }
}

/// Decode a complete reply body of any shape: read the tag, then the
/// fields of that shape.  `None` means the bytes are not a well-formed
/// encoding.
pub fn decode_reply(body: &[u8]) -> (r: Option<Reply>)
    ensures
        match r {
            Some(rep) => spec_decode_body(body@) == Some(rep.abs()),
            None => spec_decode_body(body@) is None,
        },
{
    if body.len() < 4 {
        return None;
    }
    let tag = u32_from_le_bytes(vstd::slice::slice_subrange(body, 0, 4));
    if tag == 0 {
        if body.len() == 4 {
            Some(Reply::Nil)
        } else {
            None
        }
    } else if tag == 1 {
        if body.len() < 12 {
            return None;
        }
        let code = u32_from_le_bytes(vstd::slice::slice_subrange(body, 4, 8));
        let mlen = u32_from_le_bytes(vstd::slice::slice_subrange(body, 8, 12)) as usize;
        if body.len() - 12 != mlen {
            return None;
        }
        let v = vstd::slice::slice_to_vec(vstd::slice::slice_subrange(body, 12, body.len()));
        proof {
            assert(v@ =~= body@.skip(12));
        }
        match bytes_to_string(v) {
            None => None,
            Some(s) => Some(Reply::Error { code, message: s }),
        }
    } else if tag == 2 {
        if body.len() < 8 {
            return None;
        }
        let vlen = u32_from_le_bytes(vstd::slice::slice_subrange(body, 4, 8)) as usize;
        if body.len() - 8 != vlen {
            return None;
        }
        let v = vstd::slice::slice_to_vec(vstd::slice::slice_subrange(body, 8, body.len()));
        proof {
            assert(v@ =~= body@.skip(8));
        }
        match bytes_to_string(v) {
            None => None,
            Some(s) => Some(Reply::Str { value: s }),
        }
    } else if tag == 3 {
        if body.len() < 8 {
            return None;
        }
        let count = u32_from_le_bytes(vstd::slice::slice_subrange(body, 4, 8));
        decode_arr_elems(body, count)
    } else {
        None
    }
}

/// Decode the `count` STR bodies that follow an ARR header, expecting
/// them to fill `body` exactly.
fn decode_arr_elems(body: &[u8], count: u32) -> (r: Option<Reply>)
    requires
        body@.len() >= 8,
        spec_u32_from_le_bytes(body@.subrange(0, 4)) == 3,
        count == spec_u32_from_le_bytes(body@.subrange(4, 8)),
    ensures
        match r {
            Some(rep) => spec_decode_body(body@) == Some(rep.abs()),
            None => spec_decode_body(body@) is None,
        },
{
    let total = body.len();
    let mut values: Vec<String> = Vec::new();
    let mut off: usize = 8;
    let mut remaining = count;
    proof {
        assert(values@.map_values(|s: String| s@) =~= Seq::<Seq<char>>::empty());
        assert(forall|rest: Seq<Seq<char>>|
            Seq::<Seq<char>>::empty() + rest =~= #[trigger] (Seq::<Seq<char>>::empty() + rest));
    }
    while remaining > 0
        invariant
            total == body@.len(),
            total >= 8,
            8 <= off <= total,
            remaining <= count,
            spec_u32_from_le_bytes(body@.subrange(0, 4)) == 3,
            count == spec_u32_from_le_bytes(body@.subrange(4, 8)),
            values@.len() == count - remaining,
            spec_decode_str_elems(body@.skip(8), count as nat) == (match spec_decode_str_elems(
                body@.skip(off as int),
                remaining as nat,
            ) {
                Some(rest) => Some(values@.map_values(|s: String| s@) + rest),
                None => None::<Seq<Seq<char>>>,
            }),
        decreases remaining,
    {
        let ghost restb = body@.skip(off as int);
        if total - off < 8 {
            return None;
        }
        let etag = u32_from_le_bytes(vstd::slice::slice_subrange(body, off, off + 4));
        proof {
            assert(body@.subrange(off as int, off + 4) =~= restb.subrange(0, 4));
        }
        if etag != 2 {
            return None;
        }
        let elen = u32_from_le_bytes(vstd::slice::slice_subrange(body, off + 4, off + 8))
            as usize;
        proof {
            assert(body@.subrange(off + 4, off + 8) =~= restb.subrange(4, 8));
        }
        if total - off - 8 < elen {
            return None;
        }
        let v = vstd::slice::slice_to_vec(
            vstd::slice::slice_subrange(body, off + 8, off + 8 + elen),
        );
        proof {
            assert(v@ =~= restb.subrange(8, 8 + elen));
        }
        let s = match bytes_to_string(v) {
            None => {
                return None;
            },
            Some(s) => s,
        };
        let ghost done = values@.map_values(|t: String| t@);
        proof {
            let d = decode_utf8(restb.subrange(8, 8 + elen));
            assert(s@ == d);
            assert(body@.skip(off + 8 + elen) =~= restb.skip(8 + elen));
            match spec_decode_str_elems(restb.skip(8 + elen), (remaining - 1) as nat) {
                Some(rest2) => {
                    assert(spec_decode_str_elems(restb, remaining as nat) == Some(
                        seq![d] + rest2,
                    ));
                    assert(done + (seq![d] + rest2) =~= done.push(d) + rest2);
                },
                None => {
                    assert(spec_decode_str_elems(restb, remaining as nat) is None);
                },
            }
        }
        values.push(s);
        proof {
            assert(values@.map_values(|t: String| t@) =~= done.push(s@));
        }
        off = off + 8 + elen;
        remaining = remaining - 1;
    }
    if off != total {
        proof {
            assert(body@.skip(off as int).len() > 0);
        }
        return None;
    }
    proof {
        assert(body@.skip(off as int) =~= Seq::<u8>::empty());
        let done = values@.map_values(|t: String| t@);
        assert(done + Seq::<Seq<char>>::empty() =~= done);
    }
    let rep = Reply::Arr { values };
    proof {
        match rep.abs() {
            ReplyAbs::Arr { values: vs } => {
                assert(vs =~= rep->Arr_values@.map_values(|t: String| t@));
            },
            _ => {
                assert(false);
            },
        }
    }
    Some(rep)
}

/// Appending one element to a sequence appends its STR body to the
/// concatenated bodies.
proof fn lemma_str_bodies_push(elems: Seq<Seq<char>>, x: Seq<char>)
    ensures
        spec_str_bodies(elems.push(x)) == spec_str_bodies(elems) + spec_str_body(x),
    decreases elems.len(),
{
    let p = elems.push(x);
    if elems.len() == 0 {
        assert(p.first() == x);
        assert(p.drop_first() =~= Seq::<Seq<char>>::empty());
        assert(spec_str_bodies(p.drop_first()) =~= Seq::<u8>::empty());
        assert(spec_str_bodies(p) =~= spec_str_body(x));
        assert(spec_str_bodies(elems) + spec_str_body(x) =~= spec_str_body(x));
    } else {
        assert(p.first() == elems.first());
        assert(p.drop_first() =~= elems.drop_first().push(x));
        lemma_str_bodies_push(elems.drop_first(), x);
        assert(spec_str_bodies(p) == spec_str_body(elems.first()) + (spec_str_bodies(
            elems.drop_first(),
        ) + spec_str_body(x)));
        assert(spec_str_body(elems.first()) + (spec_str_bodies(elems.drop_first())
            + spec_str_body(x)) =~= (spec_str_body(elems.first()) + spec_str_bodies(
            elems.drop_first(),
        )) + spec_str_body(x));
    }
}

} // verus!
