//! The relay core: the connection table, the per-connection registration
//! state machine, the broadcast router, and the write-path bookkeeping.
//!
//! All state is plain bytes and integers, so the whole protocol is verified
//! against the spec-level transition functions [`step_line`], [`step_lines`]
//! and [`read_step`]. The surrounding event loop only moves bytes between
//! sockets and this table: it hands each read delivery to
//! [`Server::client_read`], reports flushed bytes through
//! [`Server::client_wrote`], and reports closed sockets through
//! [`Server::client_closed`].

use vstd::prelude::*;
use vstd::pervasive::VecAdditionalExecFns;
use vstd::utf8::valid_utf8;
use crate::framing::{NEWLINE, no_newline, split_frames, drain_frames};

verus! {

/// The byte that separates a sender's name from the message text.
pub const COLON: u8 = 58;

/// The blank after the separator in a broadcast frame.
pub const SPACE: u8 = 32;

/// The mathematical state of one connection.
#[verifier::ext_equal]
pub struct ConnView {
    /// The connection's identifier, unique in the table.
    pub id: u64,
    /// The registered name; absent until the handshake line arrives.
    pub name: Option<Seq<u8>>,
    /// Bytes received but not yet resolved into complete lines.
    pub inbound: Seq<u8>,
    /// Bytes queued for transmission but not yet written.
    pub outbound: Seq<u8>,
}

/// One peer: its identifier, registration state, and byte queues.
pub struct Connection {
    /// The connection's identifier, unique in the table.
    pub id: u64,
    /// The registered name; absent until the handshake line arrives.
    pub name: Option<Vec<u8>>,
    /// Bytes received but not yet resolved into complete lines.
    pub inbound: Vec<u8>,
    /// Bytes queued for transmission but not yet written.
    pub outbound: Vec<u8>,
}

impl View for Connection {
    type V = ConnView;

    open spec fn view(&self) -> ConnView {
        ConnView {
            id: self.id,
            name: match self.name {
                Some(n) => Some(n@),
                None => None,
            },
            inbound: self.inbound@,
            outbound: self.outbound@,
        }
    }
}

/// Some connection in the table carries this identifier.
pub open spec fn has_id(conns: Seq<ConnView>, id: u64) -> bool {
    exists|i: int| 0 <= i < conns.len() && #[trigger] conns[i].id == id
}

/// The index of the connection carrying this identifier.
pub open spec fn idx_of(conns: Seq<ConnView>, id: u64) -> int {
    choose|i: int| 0 <= i < conns.len() && #[trigger] conns[i].id == id
}

/// No two connections share an identifier.
pub open spec fn ids_distinct(conns: Seq<ConnView>) -> bool {
    forall|i: int, j: int|
        0 <= i < j < conns.len() ==> #[trigger] conns[i].id != #[trigger] conns[j].id
}

/// Every identifier in the table lies below the counter.
pub open spec fn ids_below(conns: Seq<ConnView>, bound: u64) -> bool {
    forall|i: int| 0 <= i < conns.len() ==> #[trigger] conns[i].id < bound
}

/// No inbound buffer holds a delimiter: complete lines never linger.
pub open spec fn inbounds_clean(conns: Seq<ConnView>) -> bool {
    forall|i: int| 0 <= i < conns.len() ==> no_newline(#[trigger] conns[i].inbound)
}

/// With distinct identifiers the index of an identifier is the only one.
pub proof fn lemma_idx_unique(conns: Seq<ConnView>, i: int, id: u64)
    requires
        ids_distinct(conns),
        0 <= i < conns.len(),
        conns[i].id == id,
    ensures
        has_id(conns, id),
        idx_of(conns, id) == i,
{
    assert(has_id(conns, id));
    let j = idx_of(conns, id);
    if j < i {
        assert(conns[j].id != conns[i].id);
    }
    if i < j {
        assert(conns[i].id != conns[j].id);
    }
}

/// The broadcast frame for one chat message: the sender's name, the
/// separator, the message text, and the line delimiter.
pub open spec fn frame_for(name: Seq<u8>, text: Seq<u8>) -> Seq<u8> {
    name + seq![COLON, SPACE] + text + seq![NEWLINE]
}

/// Fan-out: every connection but the origin gets the frame appended to its
/// outbound queue; the origin and all other fields are untouched.
pub open spec fn fan_out(conns: Seq<ConnView>, origin: int, frame: Seq<u8>) -> Seq<ConnView> {
    Seq::new(
        conns.len(),
        |j: int|
            if j == origin {
                conns[j]
            } else {
                ConnView { outbound: conns[j].outbound + frame, ..conns[j] }
            },
    )
}

/// One complete line from the connection at `origin`, dispatched to the
/// registration state machine or the broadcast router: a line that is not
/// valid text is discarded; the first valid line of an unregistered
/// connection becomes its name if the length fits the bounds, and closes the
/// connection otherwise; every later line is broadcast to all other
/// connections.
pub open spec fn step_line(
    conns: Seq<ConnView>,
    origin: int,
    line: Seq<u8>,
    min_name: nat,
    max_name: nat,
) -> Seq<ConnView> {
    if !valid_utf8(line) {
        conns
    } else if conns[origin].name is None {
        if min_name <= line.len() <= max_name {
            conns.update(origin, ConnView { name: Some(line), ..conns[origin] })
        } else {
            conns.remove(origin)
        }
    } else {
        fan_out(conns, origin, frame_for(conns[origin].name->Some_0, line))
    }
}

/// A batch of complete lines from one connection, processed in order;
/// processing stops when the origin has left the table.
pub open spec fn step_lines(
    conns: Seq<ConnView>,
    id: u64,
    lines: Seq<Seq<u8>>,
    min_name: nat,
    max_name: nat,
) -> Seq<ConnView>
    decreases lines.len(),
{
    if lines.len() == 0 {
        conns
    } else if !has_id(conns, id) {
        conns
    } else {
        step_lines(
            step_line(conns, idx_of(conns, id), lines[0], min_name, max_name),
            id,
            lines.skip(1),
            min_name,
            max_name,
        )
    }
}

/// One read delivery: the bytes join the origin's inbound buffer, the
/// complete lines come off the front, and each line is dispatched in order.
pub open spec fn read_step(
    conns: Seq<ConnView>,
    id: u64,
    data: Seq<u8>,
    min_name: nat,
    max_name: nat,
) -> Seq<ConnView> {
    if !has_id(conns, id) {
        conns
    } else {
        let i = idx_of(conns, id);
        let parts = split_frames(conns[i].inbound + data);
        let started = conns.update(i, ConnView { inbound: parts.1, ..conns[i] });
        step_lines(started, id, parts.0, min_name, max_name)
    }
}

/// No self-delivery: whatever line a registered connection sends, its own
/// entry — its outbound queue above all — is untouched: a sender never
/// receives its own message back.
pub proof fn lemma_no_self_delivery(
    conns: Seq<ConnView>,
    origin: int,
    line: Seq<u8>,
    min_name: nat,
    max_name: nat,
)
    requires
        0 <= origin < conns.len(),
        conns[origin].name is Some,
    ensures
        step_line(conns, origin, line, min_name, max_name).len() == conns.len(),
        step_line(conns, origin, line, min_name, max_name)[origin] == conns[origin],
{
}

/// Fan-out completeness: a chat line from a registered connection is
/// appended, as the single frame `name: text` plus the delimiter, to every
/// other connection's outbound queue, after whatever was already queued;
/// nothing else about any connection changes.
pub proof fn lemma_fan_out_delivery(
    conns: Seq<ConnView>,
    origin: int,
    line: Seq<u8>,
    min_name: nat,
    max_name: nat,
)
    requires
        0 <= origin < conns.len(),
        conns[origin].name is Some,
        valid_utf8(line),
    ensures
        step_line(conns, origin, line, min_name, max_name).len() == conns.len(),
        forall|j: int|
            0 <= j < conns.len() && j != origin ==> #[trigger] step_line(
                conns,
                origin,
                line,
                min_name,
                max_name,
            )[j] == (ConnView {
                outbound: conns[j].outbound + frame_for(conns[origin].name->Some_0, line),
                ..conns[j]
            }),
{
}

/// Delivery order: two chat lines sent by the same registered connection
/// reach every other connection as two whole frames, in the order they were
/// sent, at the end of its queue.
pub proof fn lemma_fan_out_order(
    conns: Seq<ConnView>,
    origin: int,
    first: Seq<u8>,
    second: Seq<u8>,
    min_name: nat,
    max_name: nat,
)
    requires
        0 <= origin < conns.len(),
        conns[origin].name is Some,
        valid_utf8(first),
        valid_utf8(second),
    ensures
        ({
            let name = conns[origin].name->Some_0;
            let once = step_line(conns, origin, first, min_name, max_name);
            let twice = step_line(once, origin, second, min_name, max_name);
            &&& twice.len() == conns.len()
            &&& forall|j: int|
                0 <= j < conns.len() && j != origin ==> #[trigger] twice[j].outbound
                    == conns[j].outbound + frame_for(name, first) + frame_for(name, second)
        }),
{
    let once = step_line(conns, origin, first, min_name, max_name);
    lemma_no_self_delivery(conns, origin, first, min_name, max_name);
    lemma_fan_out_delivery(conns, origin, first, min_name, max_name);
    lemma_fan_out_delivery(once, origin, second, min_name, max_name);
}

/// The frames for a batch of chat messages from one sender, concatenated in
/// send order.
pub open spec fn frames_of(name: Seq<u8>, lines: Seq<Seq<u8>>) -> Seq<u8>
    decreases lines.len(),
{
    if lines.len() == 0 {
        Seq::<u8>::empty()
    } else {
        frame_for(name, lines[0]) + frames_of(name, lines.skip(1))
    }
}

/// Fan-out completeness over a whole batch: every valid chat line a
/// registered connection sends reaches every other connection, as whole
/// frames concatenated in the order they were sent, at the end of that
/// connection's queue; the sender's own entry is untouched.
pub proof fn lemma_batch_delivery(
    conns: Seq<ConnView>,
    id: u64,
    lines: Seq<Seq<u8>>,
    min_name: nat,
    max_name: nat,
)
    requires
        ids_distinct(conns),
        has_id(conns, id),
        conns[idx_of(conns, id)].name is Some,
        forall|k: int| 0 <= k < lines.len() ==> valid_utf8(#[trigger] lines[k]),
    ensures
        ({
            let origin = idx_of(conns, id);
            let name = conns[origin].name->Some_0;
            let after = step_lines(conns, id, lines, min_name, max_name);
            &&& after.len() == conns.len()
            &&& after[origin] == conns[origin]
            &&& forall|j: int|
                0 <= j < conns.len() && j != origin ==> #[trigger] after[j] == (ConnView {
                    outbound: conns[j].outbound + frames_of(name, lines),
                    ..conns[j]
                })
        }),
    decreases lines.len(),
{
    let origin = idx_of(conns, id);
    let name = conns[origin].name->Some_0;
    let after = step_lines(conns, id, lines, min_name, max_name);
    if lines.len() == 0 {
        assert forall|j: int| 0 <= j < conns.len() && j != origin implies #[trigger] after[j]
            == (ConnView { outbound: conns[j].outbound + frames_of(name, lines), ..conns[j] }) by {
            assert(conns[j].outbound + Seq::<u8>::empty() =~= conns[j].outbound);
            assert(after[j] =~~= ConnView {
                outbound: conns[j].outbound + frames_of(name, lines),
                ..conns[j]
            });
        }
    } else {
        let mid = step_line(conns, origin, lines[0], min_name, max_name);
        lemma_fan_out_delivery(conns, origin, lines[0], min_name, max_name);
        lemma_no_self_delivery(conns, origin, lines[0], min_name, max_name);
        assert(forall|t: int| 0 <= t < mid.len() ==> #[trigger] mid[t].id == conns[t].id);
        assert(ids_distinct(mid));
        lemma_idx_unique(mid, origin, id);
        assert(forall|k: int|
            0 <= k < lines.skip(1).len() ==> valid_utf8(#[trigger] lines.skip(1)[k]));
        lemma_batch_delivery(mid, id, lines.skip(1), min_name, max_name);
        let rest = frames_of(name, lines.skip(1));
        assert forall|j: int| 0 <= j < conns.len() && j != origin implies #[trigger] after[j]
            == (ConnView { outbound: conns[j].outbound + frames_of(name, lines), ..conns[j] }) by {
            assert(mid[j] == ConnView {
                outbound: conns[j].outbound + frame_for(name, lines[0]),
                ..conns[j]
            });
            assert(after[j] == ConnView { outbound: mid[j].outbound + rest, ..mid[j] });
            assert((conns[j].outbound + frame_for(name, lines[0])) + rest =~= conns[j].outbound
                + (frame_for(name, lines[0]) + rest));
            assert(after[j] =~~= ConnView {
                outbound: conns[j].outbound + frames_of(name, lines),
                ..conns[j]
            });
        }
    }
}

/// Registration gating: a line from a connection that has not yet
/// registered a name produces no broadcast frame. Whether the line is
/// discarded, becomes the name, or closes the connection, every other
/// connection keeps its exact state, and the origin's own queue does not
/// change either.
pub proof fn lemma_registration_gating(
    conns: Seq<ConnView>,
    origin: int,
    line: Seq<u8>,
    min_name: nat,
    max_name: nat,
)
    requires
        ids_distinct(conns),
        0 <= origin < conns.len(),
        conns[origin].name is None,
    ensures
        ({
            let after = step_line(conns, origin, line, min_name, max_name);
            &&& forall|peer: u64|
                peer != conns[origin].id && has_id(conns, peer) ==> has_id(after, peer)
                    && after[idx_of(after, peer)] == conns[#[trigger] idx_of(conns, peer)]
            &&& has_id(after, conns[origin].id) ==> after[idx_of(after, conns[origin].id)].outbound
                == conns[origin].outbound
        }),
{
    let after = step_line(conns, origin, line, min_name, max_name);
    if !valid_utf8(line) {
        assert forall|peer: u64| peer != conns[origin].id && has_id(conns, peer) implies has_id(
            after,
            peer,
        ) && after[idx_of(after, peer)] == conns[idx_of(conns, peer)] by {}
        if has_id(after, conns[origin].id) {
            lemma_idx_unique(conns, origin, conns[origin].id);
        }
    } else if min_name <= line.len() <= max_name {
        assert(after == conns.update(origin, ConnView { name: Some(line), ..conns[origin] }));
        assert(forall|t: int| 0 <= t < after.len() ==> #[trigger] after[t].id == conns[t].id);
        assert(ids_distinct(after));
        assert forall|peer: u64| peer != conns[origin].id && has_id(conns, peer) implies has_id(
            after,
            peer,
        ) && after[idx_of(after, peer)] == conns[idx_of(conns, peer)] by {
            let t = idx_of(conns, peer);
            assert(0 <= t < conns.len() && conns[t].id == peer);
            assert(t != origin);
            assert(after[t] == conns[t]);
            lemma_idx_unique(after, t, peer);
        }
        lemma_idx_unique(after, origin, conns[origin].id);
    } else {
        assert(after == conns.remove(origin));
        assert(ids_distinct(after)) by {
            assert forall|a: int, b: int| 0 <= a < b < after.len() implies #[trigger] after[a].id
                != #[trigger] after[b].id by {
                let a0 = if a < origin {
                    a
                } else {
                    a + 1
                };
                let b0 = if b < origin {
                    b
                } else {
                    b + 1
                };
                assert(after[a] == conns[a0]);
                assert(after[b] == conns[b0]);
            }
        }
        assert forall|peer: u64| peer != conns[origin].id && has_id(conns, peer) implies has_id(
            after,
            peer,
        ) && after[idx_of(after, peer)] == conns[idx_of(conns, peer)] by {
            let t = idx_of(conns, peer);
            assert(0 <= t < conns.len() && conns[t].id == peer);
            assert(t != origin);
            let t2 = if t < origin {
                t
            } else {
                t - 1
            };
            assert(after[t2] == conns[t]);
            lemma_idx_unique(after, t2, peer);
        }
        let oid = conns[origin].id;
        assert forall|t: int| 0 <= t < after.len() implies #[trigger] after[t].id != oid by {
            if t < origin {
                assert(after[t] == conns[t]);
            } else {
                assert(after[t] == conns[t + 1]);
            }
        }
    }
}

/// Disconnect cleanup: once an identifier has left the table, processing
/// lines from any connection never brings it back — no broadcast is ever
/// queued for a closed connection.
pub proof fn lemma_absent_stays_absent(
    conns: Seq<ConnView>,
    id: u64,
    peer: u64,
    lines: Seq<Seq<u8>>,
    min_name: nat,
    max_name: nat,
)
    requires
        !has_id(conns, peer),
    ensures
        !has_id(step_lines(conns, id, lines, min_name, max_name), peer),
    decreases lines.len(),
{
    if lines.len() == 0 || !has_id(conns, id) {
    } else {
        let origin = idx_of(conns, id);
        assert(0 <= origin < conns.len() && conns[origin].id == id);
        let after = step_line(conns, origin, lines[0], min_name, max_name);
        assert(!has_id(after, peer)) by {
            if !valid_utf8(lines[0]) {
            } else if conns[origin].name is None {
                if min_name <= lines[0].len() <= max_name {
                    assert forall|t: int| 0 <= t < after.len() implies #[trigger] after[t].id
                        != peer by {
                        assert(after[t].id == conns[t].id);
                    }
                } else {
                    assert forall|t: int| 0 <= t < after.len() implies #[trigger] after[t].id
                        != peer by {
                        if t < origin {
                            assert(after[t] == conns[t]);
                        } else {
                            assert(after[t] == conns[t + 1]);
                        }
                    }
                }
            } else {
                assert forall|t: int| 0 <= t < after.len() implies #[trigger] after[t].id
                    != peer by {
                    assert(after[t].id == conns[t].id);
                }
            }
        }
        lemma_absent_stays_absent(after, id, peer, lines.skip(1), min_name, max_name);
    }
}

/// Disconnect cleanup across a whole read delivery: an identifier absent
/// from the table before the delivery is still absent afterwards.
pub proof fn lemma_read_never_revives(
    conns: Seq<ConnView>,
    id: u64,
    peer: u64,
    data: Seq<u8>,
    min_name: nat,
    max_name: nat,
)
    requires
        !has_id(conns, peer),
    ensures
        !has_id(read_step(conns, id, data, min_name, max_name), peer),
{
    if has_id(conns, id) {
        let i = idx_of(conns, id);
        let parts = split_frames(conns[i].inbound + data);
        let started = conns.update(i, ConnView { inbound: parts.1, ..conns[i] });
        assert(!has_id(started, peer)) by {
            assert forall|t: int| 0 <= t < started.len() implies #[trigger] started[t].id
                != peer by {
                assert(started[t].id == conns[t].id);
            }
        }
        lemma_absent_stays_absent(started, id, peer, parts.0, min_name, max_name);
    }
}

/// Relies on str::from_utf8, which returns `Ok` exactly when the bytes are
/// a valid UTF-8 encoding — the property vstd's `valid_utf8` states.
#[verifier::external_body]
fn utf8_ok(bytes: &Vec<u8>) -> (r: bool)
    ensures
        r == valid_utf8(bytes@),
{
    core::str::from_utf8(bytes.as_slice()).is_ok()
}

/// Builds the broadcast frame for one chat message.
fn build_frame(name: &Vec<u8>, text: &Vec<u8>) -> (frame: Vec<u8>)
    ensures
        frame@ == frame_for(name@, text@),
{
    let mut frame: Vec<u8> = Vec::new();
    frame.extend_from_slice(name.as_slice());
    frame.push(COLON);
    frame.push(SPACE);
    frame.extend_from_slice(text.as_slice());
    frame.push(NEWLINE);
    proof {
        assert(frame@ =~= frame_for(name@, text@));
    }
    frame
}

/// The relay: the connection table, the identifier counter, and the
/// configured policy bounds.
pub struct Server {
    /// All currently open connections, one entry per socket.
    pub connections: Vec<Connection>,
    /// The identifier the next admitted connection will get; never reused.
    pub next_id: u64,
    /// The most connections the table may hold at once.
    pub capacity: usize,
    /// The fewest bytes an acceptable name may have.
    pub min_name: usize,
    /// The most bytes an acceptable name may have.
    pub max_name: usize,
}

impl Server {
    /// The abstract connection table.
    pub open spec fn conns(self) -> Seq<ConnView> {
        self.connections@.map_values(|c: Connection| c@)
    }

    /// The table's invariant: identifiers are distinct and below the
    /// counter, no inbound buffer holds a delimiter, and the name bounds are
    /// ordered.
    pub open spec fn wf(self) -> bool {
        &&& ids_distinct(self.conns())
        &&& ids_below(self.conns(), self.next_id)
        &&& inbounds_clean(self.conns())
        &&& self.min_name <= self.max_name
    }

    /// A fresh relay with no connections. Identifiers start at 1 so that the
    /// event loop can keep slot 0 for its listening socket.
    pub fn new(capacity: usize, min_name: usize, max_name: usize) -> (s: Server)
        requires
            min_name <= max_name,
        ensures
            s.wf(),
            s.conns() == Seq::<ConnView>::empty(),
            s.next_id == 1,
            s.capacity == capacity,
            s.min_name == min_name,
            s.max_name == max_name,
    {
        let s = Server { connections: Vec::new(), next_id: 1, capacity, min_name, max_name };
        proof {
            assert(s.conns() =~= Seq::<ConnView>::empty());
        }
        s
    }

    /// The number of connections now in the table.
    pub fn connection_count(&self) -> (n: usize)
        ensures
            n == self.conns().len(),
    {
        self.connections.len()
    }

    /// Looks a connection up by identifier.
    fn find_index(&self, id: u64) -> (r: Option<usize>)
        ensures
            match r {
                Some(i) => i < self.conns().len() && self.conns()[i as int].id == id,
                None => !has_id(self.conns(), id),
            },
    {
        let mut i: usize = 0;
        while i < self.connections.len()
            invariant
                i <= self.conns().len(),
                forall|j: int| 0 <= j < i ==> #[trigger] self.conns()[j].id != id,
            decreases self.conns().len() - i,
        {
            if self.connections[i].id == id {
                return Some(i);
            }
            i += 1;
        }
        None
    }

    /// Admits a pending connection if the table has room: it gets the next
    /// identifier — one no current or past connection carries — and starts
    /// unregistered with empty buffers. At capacity the attempt is refused
    /// and nothing changes.
    pub fn client_incoming(&mut self) -> (r: Option<u64>)
        requires
            old(self).wf(),
            old(self).next_id < u64::MAX,
        ensures
            final(self).wf(),
            final(self).capacity == old(self).capacity,
            final(self).min_name == old(self).min_name,
            final(self).max_name == old(self).max_name,
            old(self).conns().len() >= old(self).capacity ==> r is None && final(self).conns()
                == old(self).conns() && final(self).next_id == old(self).next_id,
            old(self).conns().len() < old(self).capacity ==> {
                &&& r == Some(old(self).next_id)
                &&& !has_id(old(self).conns(), old(self).next_id)
                &&& final(self).conns() == old(self).conns().push(
                    ConnView {
                        id: old(self).next_id,
                        name: None,
                        inbound: Seq::<u8>::empty(),
                        outbound: Seq::<u8>::empty(),
                    },
                )
                &&& final(self).next_id == old(self).next_id + 1
            },
    {
        if self.connections.len() >= self.capacity {
            return None;
        }
        let id = self.next_id;
        self.next_id = self.next_id + 1;
        self.connections.push(
            Connection { id, name: None, inbound: Vec::new(), outbound: Vec::new() },
        );
        proof {
            let oldc = old(self).conns();
            let cv = ConnView {
                id,
                name: None,
                inbound: Seq::<u8>::empty(),
                outbound: Seq::<u8>::empty(),
            };
            assert(self.conns() =~= oldc.push(cv));
            assert(forall|i: int| 0 <= i < oldc.len() ==> #[trigger] oldc[i].id != id);
            assert(ids_distinct(self.conns()));
            assert(ids_below(self.conns(), self.next_id));
            assert(inbounds_clean(self.conns()));
        }
        Some(id)
    }

    /// Removes a connection: on peer close, a fatal transport error, or a
    /// policy rejection its entry leaves the table, and every other
    /// connection is untouched. An identifier not in the table is ignored.
    pub fn client_closed(&mut self, id: u64)
        requires
            old(self).wf(),
        ensures
            final(self).wf(),
            final(self).next_id == old(self).next_id,
            final(self).capacity == old(self).capacity,
            final(self).min_name == old(self).min_name,
            final(self).max_name == old(self).max_name,
            !has_id(old(self).conns(), id) ==> final(self).conns() == old(self).conns(),
            has_id(old(self).conns(), id) ==> final(self).conns() == old(self).conns().remove(
                idx_of(old(self).conns(), id),
            ),
            !has_id(final(self).conns(), id),
    {
        let r = self.find_index(id);
        match r {
            None => {},
            Some(i) => {
                self.connections.remove(i);
                proof {
                    let oldc = old(self).conns();
                    lemma_idx_unique(oldc, i as int, id);
                    assert(self.conns() =~= oldc.remove(i as int));
                    let newc = self.conns();
                    assert forall|t: int| 0 <= t < newc.len() implies #[trigger] newc[t].id
                        != id by {
                        if t < i {
                            assert(newc[t] == oldc[t]);
                        } else {
                            assert(newc[t] == oldc[t + 1]);
                        }
                    }
                    assert(ids_distinct(newc)) by {
                        assert forall|a: int, b: int|
                            0 <= a < b < newc.len() implies #[trigger] newc[a].id
                            != #[trigger] newc[b].id by {
                            let a0 = if a < i {
                                a
                            } else {
                                a + 1
                            };
                            let b0 = if b < i {
                                b
                            } else {
                                b + 1
                            };
                            assert(newc[a] == oldc[a0]);
                            assert(newc[b] == oldc[b0]);
                        }
                    }
                    assert(ids_below(newc, self.next_id));
                    assert(inbounds_clean(newc));
                }
            },
        }
    }

    /// One read delivery from a connection: `data` is what the transport
    /// handed over this readiness cycle. The bytes join the connection's
    /// inbound buffer; every complete line is extracted and dispatched in
    /// order — an invalid-text line is discarded, the first valid line of an
    /// unregistered connection becomes its name or, out of bounds, closes
    /// it, and each later valid line is broadcast to every other connection
    /// — and the trailing fragment stays buffered. A delivery for an
    /// identifier not in the table is ignored.
    pub fn client_read(&mut self, id: u64, data: &[u8])
        requires
            old(self).wf(),
        ensures
            final(self).wf(),
            final(self).next_id == old(self).next_id,
            final(self).capacity == old(self).capacity,
            final(self).min_name == old(self).min_name,
            final(self).max_name == old(self).max_name,
            final(self).conns() == read_step(
                old(self).conns(),
                id,
                data@,
                old(self).min_name as nat,
                old(self).max_name as nat,
            ),
    {
        let ghost oldc = old(self).conns();
        let ghost min = old(self).min_name as nat;
        let ghost max = old(self).max_name as nat;
        let r = self.find_index(id);
        let i: usize = match r {
            None => {
                return
            },
            Some(i) => i,
        };
        proof {
            lemma_idx_unique(oldc, i as int, id);
        }
        let c = &mut self.connections[i];
        let lines = drain_frames(&mut c.inbound, data);
        let ghost parts = split_frames(oldc[i as int].inbound + data@);
        let ghost conns1 = oldc.update(i as int, ConnView { inbound: parts.1, ..oldc[i as int] });
        let ghost all_lines = lines.deep_view();
        proof {
            assert(self.conns() =~~= conns1);
            assert(all_lines == parts.0);
            assert(ids_distinct(conns1));
            assert(ids_below(conns1, self.next_id));
            assert(inbounds_clean(conns1));
            assert(all_lines.skip(0) =~~= all_lines);
        }
        let mut k: usize = 0;
        let mut open = true;
        while open && k < lines.len()
            invariant
                old(self).wf(),
                i < conns1.len(),
                k <= all_lines.len(),
                all_lines == lines.deep_view(),
                min == old(self).min_name as nat,
                max == old(self).max_name as nat,
                self.next_id == old(self).next_id,
                self.capacity == old(self).capacity,
                self.min_name == old(self).min_name,
                self.max_name == old(self).max_name,
                ids_distinct(self.conns()),
                ids_below(self.conns(), self.next_id),
                inbounds_clean(self.conns()),
                open ==> i < self.conns().len() && self.conns()[i as int].id == id,
                !open ==> !has_id(self.conns(), id),
                step_lines(conns1, id, all_lines, min, max) == step_lines(
                    self.conns(),
                    id,
                    all_lines.skip(k as int),
                    min,
                    max,
                ),
            decreases all_lines.len() - k,
        {
            let line = lines[k].clone();
            proof {
                assert(lines.deep_view()[k as int] == lines@[k as int]@);
                assert(line@ =~= lines@[k as int]@);
                assert(line@ == all_lines[k as int]);
            }
            let ghost cur = self.conns();
            let ghost lv = line@;
            proof {
                lemma_idx_unique(cur, i as int, id);
                assert(all_lines.skip(k as int).len() > 0);
                assert(all_lines.skip(k as int)[0] == all_lines[k as int]);
                assert(all_lines.skip(k as int).skip(1) =~~= all_lines.skip(k as int + 1));
                assert(step_lines(cur, id, all_lines.skip(k as int), min, max) == step_lines(
                    step_line(cur, i as int, lv, min, max),
                    id,
                    all_lines.skip(k as int + 1),
                    min,
                    max,
                ));
            }
            let ok = utf8_ok(&line);
            if !ok {
                proof {
                    assert(step_line(cur, i as int, lv, min, max) == cur);
                }
            } else if self.connections[i].name.is_none() {
                if self.min_name <= line.len() && line.len() <= self.max_name {
                    let c = &mut self.connections[i];
                    c.name = Some(line);
                    proof {
                        assert(cur[i as int].name is None);
                        assert(self.conns() =~= cur.update(
                            i as int,
                            ConnView { name: Some(lv), ..cur[i as int] },
                        ));
                        assert(self.conns() == step_line(cur, i as int, lv, min, max));
                        assert(ids_distinct(self.conns()));
                        assert(ids_below(self.conns(), self.next_id));
                        assert(inbounds_clean(self.conns()));
                    }
                } else {
                    self.connections.remove(i);
                    open = false;
                    proof {
                        assert(cur[i as int].name is None);
                        assert(self.conns() =~= cur.remove(i as int));
                        assert(self.conns() == step_line(cur, i as int, lv, min, max));
                        let newc = self.conns();
                        assert forall|t: int| 0 <= t < newc.len() implies #[trigger] newc[t].id
                            != id by {
                            if t < i {
                                assert(newc[t] == cur[t]);
                            } else {
                                assert(newc[t] == cur[t + 1]);
                            }
                        }
                        assert(!has_id(newc, id));
                        assert(ids_distinct(newc)) by {
                            assert forall|a: int, b: int|
                                0 <= a < b < newc.len() implies #[trigger] newc[a].id
                                != #[trigger] newc[b].id by {
                                let a0 = if a < i {
                                    a
                                } else {
                                    a + 1
                                };
                                let b0 = if b < i {
                                    b
                                } else {
                                    b + 1
                                };
                                assert(newc[a] == cur[a0]);
                                assert(newc[b] == cur[b0]);
                            }
                        }
                        assert(ids_below(newc, self.next_id));
                        assert(inbounds_clean(newc));
                    }
                }
            } else {
                let name_clone = match &self.connections[i].name {
                    Some(n) => n.clone(),
                    None => Vec::new(),
                };
                proof {
                    assert(name_clone@ =~= cur[i as int].name->Some_0);
                }
                let frame = build_frame(&name_clone, &line);
                let ghost fr = frame_for(cur[i as int].name->Some_0, lv);
                let count = self.connections.len();
                let mut j: usize = 0;
                while j < count
                    invariant
                        count == cur.len(),
                        i < cur.len(),
                        j <= count,
                        frame@ == fr,
                        self.next_id == old(self).next_id,
                        self.capacity == old(self).capacity,
                        self.min_name == old(self).min_name,
                        self.max_name == old(self).max_name,
                        self.conns().len() == cur.len(),
                        forall|t: int|
                            0 <= t < cur.len() ==> #[trigger] self.conns()[t] == (if t < j && t
                                != i {
                                ConnView { outbound: cur[t].outbound + fr, ..cur[t] }
                            } else {
                                cur[t]
                            }),
                    decreases count - j,
                {
                    if j != i {
                        let ghost pre = self.conns();
                        let mut tmp = Connection {
                            id: 0,
                            name: None,
                            inbound: Vec::new(),
                            outbound: Vec::new(),
                        };
                        self.connections.set_and_swap(j, &mut tmp);
                        proof {
                            assert(tmp@ == pre[j as int]);
                        }
                        tmp.outbound.extend_from_slice(frame.as_slice());
                        proof {
                            assert(tmp@.id == pre[j as int].id);
                            assert(tmp@.outbound =~= pre[j as int].outbound + fr);
                        }
                        self.connections.set_and_swap(j, &mut tmp);
                        proof {
                            assert(self.conns().len() == pre.len());
                            assert(forall|t: int|
                                0 <= t < pre.len() && t != j ==> #[trigger] self.conns()[t]
                                    == pre[t]);
                            assert(self.conns()[j as int].id == cur[j as int].id);
                            assert(self.conns()[j as int].name == cur[j as int].name);
                            assert(self.conns()[j as int].inbound == cur[j as int].inbound);
                            assert(self.conns()[j as int].outbound =~= cur[j as int].outbound
                                + fr);
                            assert(self.conns() =~~= pre.update(
                                j as int,
                                ConnView {
                                    outbound: cur[j as int].outbound + fr,
                                    ..cur[j as int]
                                },
                            ));
                        }
                    }
                    j += 1;
                }
                proof {
                    assert(self.conns() =~~= fan_out(cur, i as int, fr));
                    assert(cur[i as int].name is Some);
                    assert(self.conns() == step_line(cur, i as int, lv, min, max));
                    assert(ids_distinct(self.conns())) by {
                        assert(forall|t: int|
                            0 <= t < cur.len() ==> #[trigger] self.conns()[t].id == cur[t].id);
                    }
                    assert(ids_below(self.conns(), self.next_id)) by {
                        assert(forall|t: int|
                            0 <= t < cur.len() ==> #[trigger] self.conns()[t].id == cur[t].id);
                    }
                    assert(inbounds_clean(self.conns())) by {
                        assert(forall|t: int|
                            0 <= t < cur.len() ==> #[trigger] self.conns()[t].inbound
                                == cur[t].inbound);
                    }
                }
            }
            k += 1;
        }
        proof {
            if open {
                assert(k == all_lines.len());
                assert(all_lines.skip(k as int) =~~= Seq::<Seq<u8>>::empty());
                assert(step_lines(self.conns(), id, all_lines.skip(k as int), min, max)
                    == self.conns());
            } else {
                assert(step_lines(self.conns(), id, all_lines.skip(k as int), min, max)
                    == self.conns());
            }
            assert(self.conns() == step_lines(conns1, id, all_lines, min, max));
            assert(self.conns() == read_step(oldc, id, data@, min, max));
        }
    }

    /// Records that the transport accepted `n` bytes from the front of a
    /// connection's outbound queue: the written prefix leaves the queue, the
    /// rest stays, and nothing else changes.
    pub fn client_wrote(&mut self, id: u64, n: usize)
        requires
            old(self).wf(),
            has_id(old(self).conns(), id),
            n <= old(self).conns()[idx_of(old(self).conns(), id)].outbound.len(),
        ensures
            final(self).wf(),
            final(self).next_id == old(self).next_id,
            final(self).capacity == old(self).capacity,
            final(self).min_name == old(self).min_name,
            final(self).max_name == old(self).max_name,
            final(self).conns() == old(self).conns().update(
                idx_of(old(self).conns(), id),
                ConnView {
                    outbound: old(self).conns()[idx_of(old(self).conns(), id)].outbound.skip(
                        n as int,
                    ),
                    ..old(self).conns()[idx_of(old(self).conns(), id)]
                },
            ),
    {
        let r = self.find_index(id);
        match r {
            None => {
                proof {
                    assert(false);
                }
            },
            Some(i) => {
                proof {
                    lemma_idx_unique(old(self).conns(), i as int, id);
                }
                let c = &mut self.connections[i];
                let rest = c.outbound.split_off(n);
                c.outbound = rest;
                proof {
                    let oldc = old(self).conns();
                    let k = i as int;
                    assert(self.conns() =~= oldc.update(
                        k,
                        ConnView { outbound: oldc[k].outbound.skip(n as int), ..oldc[k] },
                    ));
                    assert(ids_distinct(self.conns()));
                    assert(ids_below(self.conns(), self.next_id));
                    assert(inbounds_clean(self.conns()));
                }
            },
        }
    }

    /// A copy of the bytes now queued for a connection, for the write path
    /// to hand to the transport; an absent identifier yields no bytes.
    pub fn outbound_of(&self, id: u64) -> (r: Vec<u8>)
        requires
            self.wf(),
        ensures
            has_id(self.conns(), id) ==> r@ == self.conns()[idx_of(self.conns(), id)].outbound,
            !has_id(self.conns(), id) ==> r@ == Seq::<u8>::empty(),
    {
        let found = self.find_index(id);
        match found {
            None => {
                let r: Vec<u8> = Vec::new();
                proof {
                    assert(r@ =~= Seq::<u8>::empty());
                }
                r
            },
            Some(i) => {
                proof {
                    lemma_idx_unique(self.conns(), i as int, id);
                }
                let r = self.connections[i].outbound.clone();
                proof {
                    assert(r@ =~= self.conns()[idx_of(self.conns(), id)].outbound);
                }
                r
            },
        }
    }

    /// True when the connection has bytes queued and so needs writable
    /// interest; an absent identifier has none.
    pub fn wants_write(&self, id: u64) -> (r: bool)
        requires
            self.wf(),
        ensures
            r == (has_id(self.conns(), id) && self.conns()[idx_of(self.conns(), id)].outbound.len()
                > 0),
    {
        let r = self.find_index(id);
        match r {
            None => false,
            Some(i) => {
                proof {
                    lemma_idx_unique(self.conns(), i as int, id);
                }
                self.connections[i].outbound.len() > 0
            },
        }
    }
}

} // verus!
