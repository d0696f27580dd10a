//! Per-connection state machine.
//!
//! A connection reads request frames into a fixed read buffer, answers
//! each with one reply frame staged in a fixed write buffer, and moves
//! between three states: reading a request, writing the response, and
//! closed.  Partial reads and writes only move the watermarks; a
//! protocol violation closes the connection.
use crate::codec::{spec_body, spec_frame};
use crate::engine::{cmd_map_after, cmd_reply, spec_split_spaces};
use crate::oa_map::{OAMap, K_LEN_LIMIT};
use crate::K_MAX_MSG;
use vstd::bytes::{spec_u32_from_le_bytes, u32_from_le_bytes};
use vstd::prelude::*;
use vstd::utf8::{decode_utf8, valid_utf8};

verus! {

/// The three states of a connection.
pub enum ConnState {
    REQ,
    RES,
    END,
}

/// One live connection: its descriptor, state tag, and the two buffers
/// with their watermarks.
pub struct Conn {
    pub fd: i32,
    pub state: ConnState,
    pub rbuf: Vec<u8>,
    pub rbuf_size: usize,
    pub wbuf: Vec<u8>,
    pub wbuf_size: usize,
    pub wbuf_sent: usize,
}

impl Conn {
    /// Buffer sizes and watermarks are in bounds, and the state tag
    /// agrees with the write watermarks.
    pub open spec fn wf(self) -> bool {
        &&& self.rbuf@.len() == 4 + K_MAX_MSG
        &&& self.wbuf@.len() == 4 + K_MAX_MSG
        &&& self.rbuf_size <= 4 + K_MAX_MSG
        &&& self.wbuf_sent <= self.wbuf_size <= 4 + K_MAX_MSG
        &&& (self.state is REQ ==> self.wbuf_sent == self.wbuf_size)
        &&& (self.state is RES ==> self.wbuf_size > 0)
    }

    /// The bytes read from the peer and not yet consumed.
    pub open spec fn pending_input(self) -> Seq<u8> {
        self.rbuf@.take(self.rbuf_size as int)
    }

    /// The bytes staged for the peer and not yet written.
    pub open spec fn pending_output(self) -> Seq<u8> {
        self.wbuf@.subrange(self.wbuf_sent as int, self.wbuf_size as int)
    }

    /// A fresh connection on descriptor `fd`, ready to read.
    pub fn new(fd: i32) -> (c: Conn)
        ensures
            c.wf(),
            c.fd == fd,
            c.state is REQ,
            c.rbuf_size == 0,
            c.wbuf_size == 0,
            c.wbuf_sent == 0,
            c.pending_input() == Seq::<u8>::empty(),
            c.pending_output() == Seq::<u8>::empty(),
    {
        let c = Conn {
            fd,
            state: ConnState::REQ,
            rbuf: zero_buf(),
            rbuf_size: 0,
            wbuf: zero_buf(),
            wbuf_size: 0,
            wbuf_sent: 0,
        };
        proof {
            assert(c.pending_input() =~= Seq::<u8>::empty());
            assert(c.pending_output() =~= Seq::<u8>::empty());
        }
        c
    }

    /// Room left in the read buffer.
    pub fn read_space(&self) -> (n: usize)
        requires
            self.wf(),
        ensures
            n == 4 + K_MAX_MSG - self.rbuf_size,
    {
        4 + K_MAX_MSG - self.rbuf_size
    }

    /// The connection wants the peer's bytes only while reading.
    pub fn wants_read(&self) -> (r: bool)
        ensures
            r == (self.state is REQ),
    {
        matches!(self.state, ConnState::REQ)
    }

    /// The connection wants to send only while writing a response.
    pub fn wants_write(&self) -> (r: bool)
        ensures
            r == (self.state is RES),
    {
        matches!(self.state, ConnState::RES)
    }

    /// The connection is closed and may be dropped.
    pub fn is_closed(&self) -> (r: bool)
        ensures
            r == (self.state is END),
    {
        matches!(self.state, ConnState::END)
    }

    /// Take `data`, freshly read from the peer, into the read buffer.
    pub fn absorb(&mut self, data: &[u8])
        requires
            old(self).wf(),
            data@.len() <= 4 + K_MAX_MSG - old(self).rbuf_size,
        ensures
            final(self).wf(),
            final(self).fd == old(self).fd,
            final(self).state == old(self).state,
            final(self).wbuf == old(self).wbuf,
            final(self).wbuf_size == old(self).wbuf_size,
            final(self).wbuf_sent == old(self).wbuf_sent,
            final(self).rbuf_size == old(self).rbuf_size + data@.len(),
            final(self).pending_input() == old(self).pending_input() + data@,
    {
        let offset = self.rbuf_size;
        copy_into(&mut self.rbuf, offset, data);
        self.rbuf_size = self.rbuf_size + data.len();
        proof {
            assert(self.pending_input() =~= old(self).pending_input() + data@);
        }
    }

    /// Close the connection: peer EOF, an I/O error, or a protocol
    /// violation.
    pub fn close(&mut self)
        ensures
            *final(self) == (Conn { state: ConnState::END, ..*old(self) }),
    {
        self.state = ConnState::END;
    }

    /// Account for `n` bytes of the staged reply written to the peer.
    /// When the reply is fully out, the watermarks reset and the
    /// connection returns to reading.
    pub fn advance_write(&mut self, n: usize)
        requires
            old(self).wf(),
            old(self).state is RES,
            n <= old(self).wbuf_size - old(self).wbuf_sent,
        ensures
            final(self).wf(),
            final(self).fd == old(self).fd,
            final(self).rbuf == old(self).rbuf,
            final(self).rbuf_size == old(self).rbuf_size,
            final(self).pending_input() == old(self).pending_input(),
            final(self).pending_output() == old(self).pending_output().skip(n as int),
            if old(self).wbuf_sent + n == old(self).wbuf_size {
                &&& final(self).state is REQ
                &&& final(self).wbuf_size == 0
                &&& final(self).wbuf_sent == 0
            } else {
                &&& final(self).state is RES
                &&& final(self).wbuf_sent == old(self).wbuf_sent + n
                &&& final(self).wbuf_size == old(self).wbuf_size
            },
    {
        self.wbuf_sent = self.wbuf_sent + n;
        if self.wbuf_sent == self.wbuf_size {
            self.state = ConnState::REQ;
            self.wbuf_size = 0;
            self.wbuf_sent = 0;
        }
        proof {
            assert(self.pending_output() =~= old(self).pending_output().skip(n as int));
            assert(self.pending_input() =~= old(self).pending_input());
        }
    }
}

/// The length a frame at the head of `inp` declares.
pub open spec fn declared_len(inp: Seq<u8>) -> int {
    spec_u32_from_le_bytes(inp.subrange(0, 4)) as int
}

/// The head of `inp` holds one complete frame within the size limit.
pub open spec fn frame_complete(inp: Seq<u8>) -> bool {
    &&& inp.len() >= 4
    &&& declared_len(inp) <= K_MAX_MSG
    &&& inp.len() >= 4 + declared_len(inp)
}

/// The payload of the complete frame at the head of `inp`.
pub open spec fn frame_payload(inp: Seq<u8>) -> Seq<u8> {
    inp.subrange(4, 4 + declared_len(inp))
}

/// How one call of [`try_one_request`] relates the connection and the
/// dictionary before (`c0`, `t0`) and after (`c1`, `t1`): too little
/// input changes nothing; an oversize declared length closes the
/// connection and leaves the dictionary alone; a complete frame is
/// consumed, answered from the dictionary, and its reply frame staged.
pub open spec fn req_step(c0: Conn, t0: OAMap, c1: Conn, t1: OAMap, progress: bool) -> bool {
    let inp = c0.pending_input();
    if inp.len() < 4 {
        c1 == c0 && t1 == t0 && !progress
    } else if declared_len(inp) > K_MAX_MSG {
        c1 == (Conn { state: ConnState::END, ..c0 }) && t1 == t0 && !progress
    } else if inp.len() < 4 + declared_len(inp) {
        c1 == c0 && t1 == t0 && !progress
    } else if !valid_utf8(frame_payload(inp)) {
        c1 == (Conn { state: ConnState::END, ..c0 }) && t1 == t0 && !progress
    } else {
        let argv = spec_split_spaces(decode_utf8(frame_payload(inp)));
        let rep = cmd_reply(t0, argv);
        &&& t1@ == cmd_map_after(t0@, argv)
        &&& if spec_body(rep).len() > K_MAX_MSG {
            c1.state is END && c1.fd == c0.fd && !progress
        } else {
            &&& c1.state is RES
            &&& c1.fd == c0.fd
            &&& progress
            &&& c1.pending_input() == inp.skip(4 + declared_len(inp))
            &&& c1.pending_output() == spec_frame(spec_body(rep))
            &&& c1.wbuf_sent == 0
        }
    }
}

/// Consume one complete request frame, if the buffer holds one: run the
/// command, stage the reply frame, and drop the frame's bytes from the
/// read buffer.  Returns whether a frame was consumed and its reply
/// staged.
pub fn try_one_request(conn: &mut Conn, storage: &mut OAMap) -> (progress: bool)
    requires
        old(conn).wf(),
        old(conn).state is REQ,
        old(storage).wf(),
        old(storage).spec_len() < K_LEN_LIMIT,
    ensures
        final(conn).wf(),
        final(storage).wf(),
        final(storage).spec_len() <= old(storage).spec_len() + 1,
        req_step(*old(conn), *old(storage), *final(conn), *final(storage), progress),
{
    let ghost inp = old(conn).pending_input();
    if conn.rbuf_size < 4 {
        return false;
    }
    let len_slice = vstd::slice::slice_subrange(conn.rbuf.as_slice(), 0, 4);
    proof {
        assert(len_slice@ =~= inp.subrange(0, 4));
    }
    let length32 = u32_from_le_bytes(len_slice);
    if length32 > K_MAX_MSG as u32 {
        conn.state = ConnState::END;
        return false;
    }
    let length = length32 as usize;
    if 4 + length > conn.rbuf_size {
        return false;
    }
    let payload = vstd::slice::slice_subrange(conn.rbuf.as_slice(), 4, 4 + length);
    proof {
        assert(payload@ =~= frame_payload(inp));
    }
    let rep = match crate::engine::do_request(payload, storage) {
        None => {
            conn.state = ConnState::END;
            return false;
        },
        Some(rep) => rep,
    };
    let f = match crate::codec::frame_reply(&rep) {
        None => {
            conn.state = ConnState::END;
            return false;
        },
        Some(f) => f,
    };
    copy_into(&mut conn.wbuf, 0, f.as_slice());
    conn.wbuf_size = f.len();
    conn.wbuf_sent = 0;
    let ghost mid = *conn;
    let remain = conn.rbuf_size - 4 - length;
    let mut j: usize = 0;
    while j < remain
        invariant
            length <= K_MAX_MSG,
            remain == mid.rbuf_size - 4 - length,
            4 + length + remain <= conn.rbuf@.len(),
            conn.rbuf@.len() == 4 + K_MAX_MSG,
            j <= remain,
            conn.fd == mid.fd,
            conn.state == mid.state,
            conn.rbuf_size == mid.rbuf_size,
            conn.wbuf == mid.wbuf,
            conn.wbuf_size == mid.wbuf_size,
            conn.wbuf_sent == mid.wbuf_sent,
            conn.rbuf@.len() == mid.rbuf@.len(),
            forall|q: int| 0 <= q < j ==> conn.rbuf@[q] == mid.rbuf@[4 + length + q],
            forall|q: int| j <= q < conn.rbuf@.len() ==> conn.rbuf@[q] == mid.rbuf@[q],
        decreases remain - j,
    {
        let b = conn.rbuf[4 + length + j];
        conn.rbuf[j] = b;
        j = j + 1;
    }
    conn.rbuf_size = remain;
    conn.state = ConnState::RES;
    proof {
        assert(conn.pending_input() =~= inp.skip(4 + declared_len(inp)));
        assert(conn.pending_output() =~= f@);
    }
    true
}

/// A request whose declared length exceeds the limit closes its own
/// connection and touches nothing else: the dictionary, and with it
/// every other connection's replies, stay as they were.
pub proof fn lemma_oversize_closes(c0: Conn, t0: OAMap, c1: Conn, t1: OAMap, progress: bool)
    requires
        req_step(c0, t0, c1, t1, progress),
        c0.pending_input().len() >= 4,
        declared_len(c0.pending_input()) > K_MAX_MSG,
    ensures
        c1.state is END,
        t1 == t0,
        !progress,
{
}

/// Two request frames concatenated in one read are answered by two
/// reply frames in order: the first against the dictionary as it was,
/// the second against the dictionary the first left behind.
pub proof fn lemma_pipelining(
    c0: Conn,
    t0: OAMap,
    c1: Conn,
    t1: OAMap,
    c2: Conn,
    c3: Conn,
    t3: OAMap,
    p1: Seq<u8>,
    p2: Seq<u8>,
)
    requires
        c0.pending_input() == spec_frame(p1) + spec_frame(p2),
        p1.len() <= K_MAX_MSG,
        p2.len() <= K_MAX_MSG,
        req_step(c0, t0, c1, t1, true),
        c2 == (Conn { state: ConnState::REQ, wbuf_size: 0, wbuf_sent: 0, ..c1 }),
        req_step(c2, t1, c3, t3, true),
    ensures
        c1.pending_output() == spec_frame(
            spec_body(cmd_reply(t0, spec_split_spaces(decode_utf8(p1)))),
        ),
        c3.pending_output() == spec_frame(
            spec_body(cmd_reply(t1, spec_split_spaces(decode_utf8(p2)))),
        ),
        t1@ == cmd_map_after(t0@, spec_split_spaces(decode_utf8(p1))),
        t3@ == cmd_map_after(t1@, spec_split_spaces(decode_utf8(p2))),
{
    vstd::bytes::lemma_auto_spec_u32_to_from_le_bytes();
    let inp = c0.pending_input();
    assert(inp.subrange(0, 4) =~= vstd::bytes::spec_u32_to_le_bytes(p1.len() as u32));
    assert(declared_len(inp) == p1.len());
    assert(frame_payload(inp) =~= p1);
    assert(inp.skip(4 + declared_len(inp)) =~= spec_frame(p2));
    assert(c2.pending_input() == c1.pending_input());
    let inp2 = c2.pending_input();
    assert(inp2.subrange(0, 4) =~= vstd::bytes::spec_u32_to_le_bytes(p2.len() as u32));
    assert(declared_len(inp2) == p2.len());
    assert(frame_payload(inp2) =~= p2);
}

/// A buffer of zeroes, one frame header plus one maximal message long.
fn zero_buf() -> (v: Vec<u8>)
    ensures
        v@.len() == 4 + K_MAX_MSG,
{
    let mut v: Vec<u8> = Vec::new();
    let mut i: usize = 0;
    while i < 4 + K_MAX_MSG
        invariant
            v@.len() == i,
            i <= 4 + K_MAX_MSG,
        decreases 4 + K_MAX_MSG - i,
    {
        v.push(0);
        i = i + 1;
    }
    v
}

/// Copy `src` over `dst[offset ..]`, leaving the rest of `dst` alone.
fn copy_into(dst: &mut Vec<u8>, offset: usize, src: &[u8])
    requires
        offset + src@.len() <= old(dst)@.len(),
    ensures
        final(dst)@.len() == old(dst)@.len(),
        forall|q: int| 0 <= q < offset ==> final(dst)@[q] == old(dst)@[q],
        forall|q: int| 0 <= q < src@.len() ==> final(dst)@[offset + q] == src@[q],
        forall|q: int|
            offset + src@.len() <= q < old(dst)@.len() ==> final(dst)@[q] == old(dst)@[q],
{
    let n = src.len();
    let dlen = dst.len();
    let mut i: usize = 0;
    while i < n
        invariant
            n == src@.len(),
            i <= n,
            dlen == dst@.len(),
            offset + n <= dlen,
            dst@.len() == old(dst)@.len(),
            forall|q: int| 0 <= q < offset ==> dst@[q] == old(dst)@[q],
            forall|q: int| 0 <= q < i ==> dst@[offset + q] == src@[q],
            forall|q: int| offset + i <= q < dst@.len() ==> dst@[q] == old(dst)@[q],
        decreases n - i,
    {
        let b = *vstd::slice::slice_index_get(src, i);
        dst[offset + i] = b;
        i = i + 1;
    }
}

} // verus!
