//! The buffering state of a connection: what was read and not yet decoded,
//! the bytes of the command being written, and the commands waiting their
//! turn. The caller performs the reads and writes on the stream and reports
//! what happened; the decisions are made here.
use vstd::prelude::*;
use crate::cmd::{packed, Cmd, CmdView};
use crate::parser::{decode, parse, Decoded, Parse};
use crate::value::Value;

verus! {

broadcast use vstd::std_specs::vec::group_vec_axioms;

/// The bytes that a command is sent as.
pub open spec fn packed_cmd(c: CmdView) -> Seq<u8> {
    packed(
        c.args,
        match c.cursor {
            Some(v) => v,
            None => 0,
        },
    )
}

/// The bytes of the commands `cmds`, one after the other.
pub open spec fn packed_all(cmds: Seq<CmdView>) -> Seq<u8>
    decreases cmds.len(),
{
    if cmds.len() == 0 {
        Seq::empty()
    } else {
        packed_cmd(cmds[0]) + packed_all(cmds.skip(1))
    }
}

/// The abstract state of a transport.
pub struct TransportView {
    /// The stream reported its end.
    pub done: bool,
    /// The bytes read and not yet decoded.
    pub rd: Seq<u8>,
    /// The bytes of the command being written.
    pub wr: Seq<u8>,
    /// How many of them the stream has accepted.
    pub wr_pos: nat,
    /// The commands waiting their turn, oldest first.
    pub cmds: Seq<CmdView>,
}

impl TransportView {
    /// Every byte that is still to be written, in the order it goes out.
    pub open spec fn outgoing(self) -> Seq<u8> {
        self.wr.skip(self.wr_pos as int) + packed_all(self.cmds)
    }
}

/// What one attempt to produce a reply gives.
#[derive(Debug, PartialEq, Eq)]
pub enum Polled {
    /// A reply was decoded and its bytes dropped from the read buffer.
    Ready(Value),
    /// The buffered bytes do not hold a whole reply yet.
    NotReady,
    /// The stream ended and no further reply can be decoded.
    End,
    /// The bytes break the protocol; the connection cannot be used further.
    Broken,
}

/// The buffering state of one connection.
pub struct RedisTransport {
    done: bool,
    rd: Vec<u8>,
    wr: Vec<u8>,
    wr_pos: usize,
    cmds: Vec<Cmd>,
}

impl View for RedisTransport {
    type V = TransportView;

    closed spec fn view(&self) -> TransportView {
        TransportView {
            done: self.done,
            rd: self.rd@,
            wr: self.wr@,
            wr_pos: self.wr_pos as nat,
            cmds: self.cmds@.map_values(|c: Cmd| c@),
        }
    }
}

impl RedisTransport {
    /// The write position stays within the current buffer.
    pub open spec fn wf(&self) -> bool {
        self@.wr_pos <= self@.wr.len()
    }

    /// A transport with empty buffers and no queued command.
    pub fn new() -> (r: RedisTransport)
        ensures
            r.wf(),
            !r@.done,
            r@.rd == Seq::<u8>::empty(),
            r@.wr == Seq::<u8>::empty(),
            r@.wr_pos == 0,
            r@.cmds == Seq::<CmdView>::empty(),
    {
        let r = RedisTransport {
            done: false,
            rd: Vec::new(),
            wr: Vec::new(),
            wr_pos: 0,
            cmds: Vec::new(),
        };
        assert(r@.cmds =~= Seq::<CmdView>::empty());
        r
    }

    pub fn wr_is_empty(&self) -> (r: bool)
        requires
            self.wf(),
        ensures
            r == (self@.wr_pos == self@.wr.len()),
    {
        self.wr_remaining() == 0
    }

    pub fn wr_remaining(&self) -> (r: usize)
        requires
            self.wf(),
        ensures
            r == self@.wr.len() - self@.wr_pos,
    {
        self.wr.len() - self.wr_pos
    }

    pub fn wr_pos(&self) -> (r: usize)
        ensures
            r == self@.wr_pos,
    {
        self.wr_pos
    }

    /// The bytes of the current command that the stream has not accepted yet.
    pub fn pending(&self) -> (r: &[u8])
        requires
            self.wf(),
        ensures
            r@ == self@.wr.skip(self@.wr_pos as int),
    {
        let r = vstd::slice::slice_subrange(self.wr.as_slice(), self.wr_pos, self.wr.len());
        assert(r@ =~= self@.wr.skip(self@.wr_pos as int));
        r
    }

    /// Queues a command behind those already queued; the transport always
    /// accepts more.
    pub fn start_send(&mut self, cmd: Cmd)
        requires
            old(self).wf(),
        ensures
            final(self).wf(),
            final(self)@ == (TransportView {
                cmds: old(self)@.cmds.push(cmd@),
                ..old(self)@
            }),
            final(self)@.outgoing() == old(self)@.outgoing() + packed_cmd(cmd@),
    {
        let ghost before = self@;
        self.cmds.push(cmd);
        assert(self@.cmds =~= before.cmds.push(cmd@));
        proof {
            lemma_packed_all_push(before.cmds, cmd@);
        }
        assert(self@.outgoing() =~= before.outgoing() + packed_cmd(cmd@));
    }

    /// Makes the next bytes ready to write: where the current command has
    /// been written whole, the oldest queued command is packed in its place.
    /// Returns false when nothing is left to write.
    pub fn next_write(&mut self) -> (r: bool)
        requires
            old(self).wf(),
        ensures
            final(self).wf(),
            final(self)@.outgoing() == old(self)@.outgoing(),
            final(self)@.done == old(self)@.done,
            final(self)@.rd == old(self)@.rd,
            r == (final(self)@.wr_pos < final(self)@.wr.len()),
            !r ==> final(self)@.cmds.len() == 0,
            old(self)@.wr_pos < old(self)@.wr.len() ==> final(self)@ == old(self)@,
    {
        if !self.wr_is_empty() {
            return true;
        }
        if self.cmds.len() == 0 {
            return false;
        }
        let ghost before = self@;
        let cmd = self.cmds.remove(0);
        self.wr = cmd.get_packed_command();
        self.wr_pos = 0;
        proof {
            assert(self@.cmds =~= before.cmds.skip(1));
            assert(before.wr.skip(before.wr_pos as int) =~= Seq::<u8>::empty());
            assert(self@.wr.skip(0) =~= self@.wr);
            assert(before.outgoing() =~= self@.outgoing());
            lemma_packed_nonempty(cmd@);
        }
        true
    }

    /// Records the outcome of one write of `pending()`: `Some(n)` when the
    /// stream accepted `n` bytes, `None` when it would block. Returns true
    /// when the flush can go on.
    pub fn wr_flush(&mut self, written: Option<usize>) -> (r: bool)
        requires
            old(self).wf(),
            written matches Some(n) ==> n <= old(self)@.wr.len() - old(self)@.wr_pos,
        ensures
            final(self).wf(),
            r == written is Some,
            match written {
                Some(n) => final(self)@.outgoing() == old(self)@.outgoing().skip(n as int)
                    && final(self)@ == (TransportView {
                    wr_pos: (old(self)@.wr_pos + n) as nat,
                    ..old(self)@
                }),
                None => final(self)@ == old(self)@,
            },
    {
        match written {
            Some(n) => {
                let ghost before = self@;
                let _ = self.wr.len();
                self.wr_pos = self.wr_pos + n;
                assert(self@.wr.skip(self@.wr_pos as int) =~= before.wr.skip(
                    before.wr_pos as int,
                ).skip(n as int));
                assert(self@.outgoing() =~= before.outgoing().skip(n as int));
                true
            },
            None => false,
        }
    }

    /// Appends bytes that were read from the stream.
    pub fn fill(&mut self, bytes: &[u8])
        requires
            old(self).wf(),
        ensures
            final(self).wf(),
            final(self)@ == (TransportView { rd: old(self)@.rd + bytes@, ..old(self)@ }),
    {
        let ghost start = self.rd@;
        let mut i: usize = 0;
        while i < bytes.len()
            invariant
                i <= bytes@.len(),
                self.wr_pos <= self.wr@.len(),
                self.rd@ == start + bytes@.take(i as int),
                self@ == (TransportView { rd: self.rd@, ..old(self)@ }),
            decreases bytes@.len() - i,
        {
            self.rd.push(bytes[i]);
            i += 1;
            assert(self.rd@ =~= start + bytes@.take(i as int));
        }
        assert(bytes@.take(i as int) =~= bytes@);
    }

    /// Records that the stream reported its end; no further read is tried.
    pub fn set_done(&mut self)
        requires
            old(self).wf(),
        ensures
            final(self).wf(),
            final(self)@ == (TransportView { done: true, ..old(self)@ }),
    {
        self.done = true;
    }

    /// True once the stream has reported its end.
    pub fn is_done(&self) -> (r: bool)
        ensures
            r == self@.done,
    {
        self.done
    }

    /// Tries to decode one reply from the start of the read buffer. A
    /// decoded reply's bytes are dropped from the buffer; otherwise the
    /// buffer is left as it is.
    pub fn poll_value(&mut self) -> (r: Polled)
        requires
            old(self).wf(),
        ensures
            final(self).wf(),
            match parse(old(self)@.rd, 0) {
                Parse::Complete(reply, end) => r matches Polled::Ready(v) && v@ == reply
                    && final(self)@ == (TransportView {
                    rd: old(self)@.rd.skip(end),
                    ..old(self)@
                }),
                Parse::Incomplete => r == (if old(self)@.done {
                    Polled::End
                } else {
                    Polled::NotReady
                }) && final(self)@ == old(self)@,
                Parse::Malformed => r is Broken && final(self)@ == old(self)@,
            },
    {
        let mut pos: usize = 0;
        let d = decode(self.rd.as_slice(), &mut pos);
        match d {
            Decoded::Complete(v) => {
                let ghost before = self@;
                let tail = self.rd.split_off(pos);
                self.rd = tail;
                assert(self@ == (TransportView { rd: before.rd.skip(pos as int), ..before }));
                Polled::Ready(v)
            },
            Decoded::Incomplete => {
                if self.done {
                    Polled::End
                } else {
                    Polled::NotReady
                }
            },
            Decoded::Malformed => Polled::Broken,
        }
    }
}

proof fn lemma_packed_all_push(cmds: Seq<CmdView>, c: CmdView)
    ensures
        packed_all(cmds.push(c)) == packed_all(cmds) + packed_cmd(c),
    decreases cmds.len(),
{
    if cmds.len() == 0 {
        assert(cmds.push(c).skip(1) =~= Seq::<CmdView>::empty());
        assert(packed_all(Seq::<CmdView>::empty()) == Seq::<u8>::empty());
        assert(packed_all(cmds) == Seq::<u8>::empty());
        assert(cmds.push(c)[0] == c);
        assert(packed_all(cmds.push(c)) =~= packed_all(cmds) + packed_cmd(c));
    } else {
        lemma_packed_all_push(cmds.skip(1), c);
        assert(cmds.push(c).skip(1) =~= cmds.skip(1).push(c));
        assert(cmds.push(c)[0] == cmds[0]);
        assert(packed_all(cmds.push(c)) =~= packed_all(cmds) + packed_cmd(c));
    }
}

proof fn lemma_packed_nonempty(c: CmdView)
    ensures
        packed_cmd(c).len() > 0,
{
}

/// Writes keep queue order across a short write: with two commands queued
/// on an idle transport, everything to be written is the first command and
/// then the second; once the first is being written and the stream has
/// accepted `n` of its bytes, what is left is the rest of the first command
/// and then the whole second one.
pub proof fn lemma_short_write_keeps_order(t: TransportView, a: CmdView, b: CmdView, n: nat)
    requires
        t.wr_pos == t.wr.len(),
        t.cmds == seq![a, b],
        n <= packed_cmd(a).len(),
    ensures
        t.outgoing() == packed_cmd(a) + packed_cmd(b),
        (TransportView { wr: packed_cmd(a), wr_pos: n, cmds: seq![b], ..t }).outgoing()
            == packed_cmd(a).skip(n as int) + packed_cmd(b),
{
    lemma_packed_all_push(seq![a], b);
    lemma_packed_all_push(Seq::<CmdView>::empty(), a);
    lemma_packed_all_push(Seq::<CmdView>::empty(), b);
    assert(seq![a].push(b) =~= seq![a, b]);
    assert(Seq::<CmdView>::empty().push(a) =~= seq![a]);
    assert(Seq::<CmdView>::empty().push(b) =~= seq![b]);
    assert(packed_all(Seq::<CmdView>::empty()) == Seq::<u8>::empty());
    assert(t.wr.skip(t.wr_pos as int) =~= Seq::<u8>::empty());
    assert(t.outgoing() =~= packed_cmd(a) + packed_cmd(b));
    let u = TransportView { wr: packed_cmd(a), wr_pos: n, cmds: seq![b], ..t };
    assert(u.outgoing() =~= packed_cmd(a).skip(n as int) + packed_cmd(b));
}

} // verus!
