//! CAN messages and the schedule of periodic transmissions.
//!
//! Time is counted in milliseconds on a monotonic clock chosen by the caller. A
//! periodic message is sent when the clock reaches its next send time, which then moves
//! one period ahead.

use socketcan::{CanFrame, EmbeddedFrame, StandardId};
use vstd::prelude::*;

verus! {

/// The 11-bit identifier of a CAN 2.0 frame (embedded-can's type, re-exported by
/// socketcan).
#[verifier::external_type_specification]
#[verifier::external_body]
pub struct ExStandardId(StandardId);

/// A classic CAN frame of socketcan.
#[verifier::external_type_specification]
#[verifier::external_body]
pub struct ExCanFrame(CanFrame);

/// Why a message cannot be put in a classic CAN frame.
#[derive(Debug, Clone, Copy, PartialEq, Eq, Structural)]
pub enum FrameFault {
    /// The identifier, taken to 16 bits, does not fit in 11 bits.
    InvalidId,
    /// The payload is longer than 8 bytes.
    TooMuchData,
}

/// The identifier that `StandardId::new` builds from `raw`.
pub uninterp spec fn standard_id_of(raw: u16) -> StandardId;

/// The data frame that `CanFrame::new` builds from an identifier and a payload.
pub uninterp spec fn data_frame_of(id: StandardId, data: Seq<u8>) -> CanFrame;

/// `StandardId::new` of embedded-can: an identifier exactly when `raw` is at most
/// `0x7FF`, and then the identifier built from `raw` alone (`standard_id_of`).
#[verifier::external_body]
fn standard_id(raw: u16) -> (id: Option<StandardId>)
    ensures
        id is Some <==> raw <= 0x7FF,
        id matches Some(s) ==> s == standard_id_of(raw),
{
    StandardId::new(raw)
}

/// `CanFrame::new` of socketcan (through `EmbeddedFrame`): a data frame exactly when the
/// payload has at most 8 bytes (`CAN_MAX_DLEN`), and then the frame built from `id` and
/// `data` alone (`data_frame_of`).
#[verifier::external_body]
fn data_frame(id: StandardId, data: &[u8]) -> (frame: Option<CanFrame>)
    ensures
        frame is Some <==> data@.len() <= 8,
        frame matches Some(f) ==> f == data_frame_of(id, data@),
{
    CanFrame::new(id, data)
}

/// The classic data frame that carries a message with identifier `id` and payload
/// `data`. The identifier is taken to its low 16 bits, which must fit in 11 bits; the
/// payload must have at most 8 bytes.
pub fn message_frame(id: u32, data: &[u8]) -> (r: Result<CanFrame, FrameFault>)
    ensures
        r matches Ok(f) ==> f == data_frame_of(standard_id_of(id as u16), data@),
        r is Ok <==> (id as u16) <= 0x7FF && data@.len() <= 8,
        r == Err::<CanFrame, FrameFault>(FrameFault::InvalidId) <==> (id as u16) > 0x7FF,
        r == Err::<CanFrame, FrameFault>(FrameFault::TooMuchData) <==> (id as u16) <= 0x7FF
            && data@.len() > 8,
{
    let raw = id as u16;
    match standard_id(raw) {
        None => Err(FrameFault::InvalidId),
        Some(sid) => match data_frame(sid, data) {
            None => Err(FrameFault::TooMuchData),
            Some(frame) => Ok(frame),
        },
    }
}

/// A CAN message: identifier, payload and transmission period (`-1` for a message sent
/// once).
#[derive(Debug, Clone)]
pub struct CanMessage {
    /// Identifier (11-bit standard frame).
    pub id: u32,
    /// Payload.
    pub data: Vec<u8>,
    /// Transmission period in milliseconds; not positive for a one-shot message.
    pub period_ms: i64,
    /// Whether the message is sent as a CAN FD frame.
    pub is_fd: bool,
    /// When the message is next due, once it is scheduled.
    pub next_send_time: Option<u64>,
}

/// The abstract content of a message.
pub struct MessageState {
    pub id: u32,
    pub data: Seq<u8>,
    pub period_ms: i64,
    pub is_fd: bool,
    pub next_send_time: Option<u64>,
}

impl View for CanMessage {
    type V = MessageState;

    open spec fn view(&self) -> MessageState {
        MessageState {
            id: self.id,
            data: self.data@,
            period_ms: self.period_ms,
            is_fd: self.is_fd,
            next_send_time: self.next_send_time,
        }
    }
}

/// A scheduled message is due at `now` when it is periodic and its send time has come
/// (a message without a send time is due at once).
pub open spec fn is_due(m: MessageState, now: u64) -> bool {
    m.period_ms > 0 && match m.next_send_time {
        Some(t) => now >= t,
        None => true,
    }
}

/// No identifier occurs twice.
pub open spec fn distinct_ids(ms: Seq<MessageState>) -> bool {
    forall|i: int, j: int| 0 <= i < j < ms.len() ==> ms[i].id != ms[j].id
}

/// Position of the message with identifier `id`.
pub open spec fn message_index(ms: Seq<MessageState>, id: u32) -> Option<int>
    decreases ms.len(),
{
    if ms.len() == 0 {
        None
    } else {
        match message_index(ms.drop_last(), id) {
            Some(i) => Some(i),
            None => if ms.last().id == id {
                Some(ms.len() - 1)
            } else {
                None
            },
        }
    }
}

/// The table after `m` is stored under its identifier: in place of the message with the
/// same identifier, or at the end.
pub open spec fn upsert(ms: Seq<MessageState>, m: MessageState) -> Seq<MessageState> {
    match message_index(ms, m.id) {
        Some(k) => ms.update(k, m),
        None => ms.push(m),
    }
}

/// A message after it has been sent at `now`: due again one period later.
pub open spec fn after_send(m: MessageState, now: u64) -> MessageState {
    MessageState { next_send_time: Some((now + m.period_ms) as u64), ..m }
}

/// The table after a tick at `now`: every due message is sent and rescheduled.
pub open spec fn tick_spec(ms: Seq<MessageState>, now: u64) -> Seq<MessageState> {
    Seq::new(ms.len(), |i: int| if is_due(ms[i], now) { after_send(ms[i], now) } else { ms[i] })
}

/// The transmissions of a tick at `now`: identifier and payload of each due message,
/// in table order.
pub open spec fn sends_spec(ms: Seq<MessageState>, now: u64) -> Seq<(u32, Seq<u8>)>
    decreases ms.len(),
{
    if ms.len() == 0 {
        seq![]
    } else if is_due(ms.last(), now) {
        sends_spec(ms.drop_last(), now).push((ms.last().id, ms.last().data))
    } else {
        sends_spec(ms.drop_last(), now)
    }
}

/// What a list of messages stands for.
pub open spec fn table_view(v: Seq<CanMessage>) -> Seq<MessageState> {
    v.map_values(|m: CanMessage| m@)
}

/// The periodic messages of a CAN bus, at most one per identifier.
pub struct PeriodicTable {
    messages: Vec<CanMessage>,
}

impl PeriodicTable {
    /// No identifier occurs twice in the table.
    #[verifier::type_invariant]
    spec fn ids_distinct(&self) -> bool {
        distinct_ids(table_view(self.messages@))
    }
}

impl View for PeriodicTable {
    type V = Seq<MessageState>;

    closed spec fn view(&self) -> Seq<MessageState> {
        table_view(self.messages@)
    }
}

/// The first message found with an identifier carries it.
proof fn lemma_message_index_hit(ms: Seq<MessageState>, id: u32)
    ensures
        message_index(ms, id) matches Some(k) ==> 0 <= k < ms.len() && ms[k].id == id,
        message_index(ms, id) is None ==> forall|i: int| 0 <= i < ms.len() ==> ms[i].id != id,
    decreases ms.len(),
{
    if ms.len() > 0 {
        lemma_message_index_hit(ms.drop_last(), id);
        assert(forall|i: int| 0 <= i < ms.len() - 1 ==> ms.drop_last()[i] == ms[i]);
    }
}

impl PeriodicTable {
    /// An empty table.
    pub fn new() -> (t: Self)
        ensures
            t@ == Seq::<MessageState>::empty(),
    {
        let t = PeriodicTable { messages: Vec::new() };
        proof {
            assert(t@ =~= Seq::<MessageState>::empty());
        }
        t
    }

    /// Number of scheduled messages.
    pub fn len(&self) -> (n: usize)
        ensures
            n == self@.len(),
    {
        self.messages.len()
    }

    /// Schedules a periodic message, first due at `now`, replacing any message with the
    /// same identifier; a message whose period is not positive is ignored.
    pub fn add_periodic_message(&mut self, msg: CanMessage, now: u64)
        ensures
            distinct_ids(final(self)@),
            msg.period_ms > 0 ==> final(self)@ == upsert(
                old(self)@,
                MessageState { next_send_time: Some(now), ..msg@ },
            ),
            msg.period_ms <= 0 ==> final(self)@ == old(self)@,
    {
        proof {
            use_type_invariant(&*self);
        }
        if msg.period_ms > 0 {
            let mut msg = msg;
            msg.next_send_time = Some(now);
            let ghost mv = msg@;
            let ghost before = self@;
            let mut msgs: Vec<CanMessage> = Vec::new();
            std::mem::swap(&mut msgs, &mut self.messages);
            assert(table_view(msgs@) == before);
            let id = msg.id;
            let n = msgs.len();
            let mut k: usize = 0;
            while k < n && msgs[k].id != id
                invariant
                    n == msgs@.len(),
                    k <= n,
                    before == table_view(msgs@),
                    forall|i: int| 0 <= i < k ==> before[i].id != id,
                decreases n - k,
            {
                k = k + 1;
            }
            proof {
                lemma_message_index_hit(before, id);
                lemma_message_index_first(before, id, k as int);
            }
            if k < n {
                msgs.set(k, msg);
                proof {
                    assert(table_view(msgs@) =~= before.update(k as int, mv));
                }
            } else {
                msgs.push(msg);
                proof {
                    assert(table_view(msgs@) =~= before.push(mv));
                }
            }
            assert(distinct_ids(table_view(msgs@)));
            self.messages = msgs;
        }
    }

    /// Whether a tick at `now` keeps every due message's next send time within range.
    pub fn tick_in_range(&self, now: u64) -> (ok: bool)
        ensures
            ok == forall|i: int|
                0 <= i < self@.len() && is_due(self@[i], now) ==> now + self@[i].period_ms <= u64::MAX,
    {
        let n = self.messages.len();
        for i in 0..n
            invariant
                n == self@.len(),
                forall|j: int|
                    0 <= j < i && is_due(self@[j], now) ==> now + self@[j].period_ms <= u64::MAX,
        {
            let m = &self.messages[i];
            assert(self@[i as int] == m@);
            let due = m.period_ms > 0 && match m.next_send_time {
                Some(t) => now >= t,
                None => true,
            };
            if due && m.period_ms as u64 > u64::MAX - now {
                return false;
            }
        }
        true
    }

    /// Sends, at `now`, every due message: returns the identifier and payload of each, in
    /// table order, and moves its next send time one period ahead.
    pub fn due_messages(&mut self, now: u64) -> (sent: Vec<(u32, Vec<u8>)>)
        requires
            forall|i: int|
                0 <= i < old(self)@.len() && is_due(old(self)@[i], now) ==> now + old(self)@[i].period_ms
                    <= u64::MAX,
        ensures
            final(self)@ == tick_spec(old(self)@, now),
            sent@.map_values(|s: (u32, Vec<u8>)| (s.0, s.1@)) == sends_spec(old(self)@, now),
    {
        proof {
            use_type_invariant(&*self);
        }
        let ghost before = self@;
        let mut msgs: Vec<CanMessage> = Vec::new();
        std::mem::swap(&mut msgs, &mut self.messages);
        assert(table_view(msgs@) == before);
        let mut sent: Vec<(u32, Vec<u8>)> = Vec::new();
        let n = msgs.len();
        proof {
            assert(before.take(0) =~= Seq::<MessageState>::empty());
        }
        for i in 0..n
            invariant
                n == msgs@.len(),
                before.len() == n,
                forall|j: int|
                    0 <= j < before.len() && is_due(before[j], now) ==> now + before[j].period_ms
                        <= u64::MAX,
                forall|j: int| 0 <= j < i ==> #[trigger] table_view(msgs@)[j] == tick_spec(before, now)[j],
                forall|j: int| i <= j < n ==> #[trigger] table_view(msgs@)[j] == before[j],
                sent@.map_values(|s: (u32, Vec<u8>)| (s.0, s.1@)) == sends_spec(before.take(i as int), now),
        {
            proof {
                assert(before.take(i + 1).drop_last() =~= before.take(i as int));
                assert(before.take(i + 1).last() == before[i as int]);
            }
            let ghost prior = sent@.map_values(|s: (u32, Vec<u8>)| (s.0, s.1@));
            assert(table_view(msgs@)[i as int] == before[i as int]);
            assert(msgs@[i as int]@ == table_view(msgs@)[i as int]);
            let due = msgs[i].period_ms > 0 && match msgs[i].next_send_time {
                Some(t) => now >= t,
                None => true,
            };
            assert(due == is_due(before[i as int], now));
            if due {
                let id = msgs[i].id;
                let data = msgs[i].data.clone();
                sent.push((id, data));
                let next = now + msgs[i].period_ms as u64;
                let ghost old_msgs = msgs@;
                let ghost old_view = table_view(msgs@);
                assert(forall|j: int| i <= j < n ==> old_view[j] == before[j]);
                msgs[i].next_send_time = Some(next);
                proof {
                    assert(msgs@.len() == old_msgs.len());
                    assert(forall|j: int| 0 <= j < n && j != i ==> msgs@[j] == old_msgs[j]);
                    assert(msgs@[i as int]@ == after_send(before[i as int], now));
                    assert(forall|j: int| 0 <= j < n && j != i ==> table_view(msgs@)[j] == old_view[j]);
                    assert(table_view(msgs@)[i as int] == tick_spec(before, now)[i as int]);
                    assert(sent@.map_values(|s: (u32, Vec<u8>)| (s.0, s.1@)) =~= prior.push(
                        (before[i as int].id, before[i as int].data),
                    ));
                }
            }
        }
        proof {
            assert(before.take(n as int) =~= before);
            assert(table_view(msgs@) =~= tick_spec(before, now));
            assert(distinct_ids(tick_spec(before, now)));
        }
        self.messages = msgs;
        sent
    }
}

/// When the search for an identifier stops at `k`, `k` is the first position with it.
proof fn lemma_message_index_first(ms: Seq<MessageState>, id: u32, k: int)
    requires
        0 <= k <= ms.len(),
        forall|i: int| 0 <= i < k ==> ms[i].id != id,
        k < ms.len() ==> ms[k].id == id,
    ensures
        k < ms.len() ==> message_index(ms, id) == Some(k),
        k == ms.len() ==> message_index(ms, id) is None,
    decreases ms.len(),
{
    if ms.len() > 0 {
        if k < ms.len() - 1 {
            lemma_message_index_first(ms.drop_last(), id, k);
        } else if k == ms.len() - 1 {
            lemma_message_index_first(ms.drop_last(), id, k);
        } else {
            lemma_message_index_first(ms.drop_last(), id, k - 1);
        }
    }
}

/// A tick sends each due message once and makes it wait one period: right after a tick
/// at `now` no message is due at `now` any more, each sent message is next due one
/// period later, and every message that was not due is left as it was.
pub proof fn law_tick_reschedules(ms: Seq<MessageState>, now: u64)
    requires
        forall|i: int| 0 <= i < ms.len() && is_due(ms[i], now) ==> now + ms[i].period_ms <= u64::MAX,
    ensures
        tick_spec(ms, now).len() == ms.len(),
        forall|i: int|
            0 <= i < ms.len() ==> !is_due(#[trigger] tick_spec(ms, now)[i], now),
        forall|i: int|
            0 <= i < ms.len() && is_due(ms[i], now) ==> #[trigger] tick_spec(ms, now)[i].next_send_time
                == Some((now + ms[i].period_ms) as u64),
        forall|i: int|
            0 <= i < ms.len() && !is_due(ms[i], now) ==> #[trigger] tick_spec(ms, now)[i] == ms[i],
{
    assert forall|i: int| 0 <= i < ms.len() implies !is_due(#[trigger] tick_spec(ms, now)[i], now) by {
        if is_due(ms[i], now) {
            assert(ms[i].period_ms > 0);
        }
    }
}

/// A message added with a positive period is stored under its identifier and is due at
/// once.
pub proof fn law_added_message_due_at_once(ms: Seq<MessageState>, m: MessageState, now: u64)
    requires
        m.period_ms > 0,
    ensures
        ({
            let t = upsert(ms, MessageState { next_send_time: Some(now), ..m });
            message_index(t, m.id) matches Some(k) && t[k] == MessageState {
                next_send_time: Some(now),
                ..m
            } && is_due(t[k], now)
        }),
{
    let mm = MessageState { next_send_time: Some(now), ..m };
    lemma_message_index_hit(ms, m.id);
    match message_index(ms, m.id) {
        Some(k) => {
            lemma_message_index_update(ms, m.id, k, mm);
        },
        None => {
            lemma_message_index_push(ms, mm);
        },
    }
}

/// Replacing the first message with an identifier keeps it the first one.
proof fn lemma_message_index_update(ms: Seq<MessageState>, id: u32, k: int, m: MessageState)
    requires
        message_index(ms, id) == Some(k),
        m.id == id,
    ensures
        message_index(ms.update(k, m), id) == Some(k),
    decreases ms.len(),
{
    lemma_message_index_hit(ms, id);
    if k < ms.len() - 1 {
        lemma_message_index_update(ms.drop_last(), id, k, m);
        assert(ms.update(k, m).drop_last() =~= ms.drop_last().update(k, m));
    } else {
        assert(ms.update(k, m).drop_last() =~= ms.drop_last());
    }
}

/// A message appended after all others with other identifiers is found at the end.
proof fn lemma_message_index_push(ms: Seq<MessageState>, m: MessageState)
    requires
        message_index(ms, m.id) is None,
    ensures
        message_index(ms.push(m), m.id) == Some(ms.len() as int),
{
    assert(ms.push(m).drop_last() =~= ms);
}


/// `e` is the identifier and stored payload of a message of the table that is due at
/// `now`.
pub open spec fn due_payload(ms: Seq<MessageState>, now: u64, e: (u32, Seq<u8>)) -> bool {
    exists|i: int| 0 <= i < ms.len() && is_due(ms[i], now) && e.0 == (#[trigger] ms[i]).id && e.1 == ms[i].data
}

/// `e` is one of the transmissions.
pub open spec fn is_sent(sends: Seq<(u32, Seq<u8>)>, e: (u32, Seq<u8>)) -> bool {
    exists|t: int| 0 <= t < sends.len() && #[trigger] sends[t] == e
}

/// A tick sends exactly the due messages, each with its identifier and its whole stored
/// payload: every transmission is the identifier and payload of a due message, every due
/// message is transmitted with its identifier and payload, and there are no more
/// transmissions than messages.
pub proof fn law_tick_sends_stored_payloads(ms: Seq<MessageState>, now: u64)
    ensures
        forall|t: int|
            0 <= t < sends_spec(ms, now).len() ==> due_payload(ms, now, #[trigger] sends_spec(ms, now)[t]),
        forall|i: int|
            0 <= i < ms.len() && #[trigger] is_due(ms[i], now) ==> is_sent(sends_spec(ms, now), (ms[i].id, ms[i].data)),
        sends_spec(ms, now).len() <= ms.len(),
    decreases ms.len(),
{
    if ms.len() > 0 {
        let init = ms.drop_last();
        law_tick_sends_stored_payloads(init, now);
        assert(forall|j: int| 0 <= j < init.len() ==> init[j] == ms[j]);
        let s0 = sends_spec(init, now);
        let s = sends_spec(ms, now);
        let n = ms.len() - 1;
        assert(ms[n] == ms.last());
        if is_due(ms.last(), now) {
            assert(s == s0.push((ms.last().id, ms.last().data)));
        } else {
            assert(s == s0);
        }
        assert forall|t: int| 0 <= t < s.len() implies due_payload(ms, now, #[trigger] s[t]) by {
            if t < s0.len() {
                assert(s[t] == s0[t]);
                assert(due_payload(init, now, s0[t]));
                let i = choose|i: int| 0 <= i < init.len() && is_due(init[i], now) && s0[t].0 == (#[trigger] init[i]).id
                    && s0[t].1 == init[i].data;
                assert(ms[i] == init[i]);
            } else {
                assert(s[t] == (ms[n].id, ms[n].data));
            }
        }
        assert forall|i: int| 0 <= i < ms.len() && #[trigger] is_due(ms[i], now) implies is_sent(s, (ms[i].id, ms[i].data)) by {
            if i < n {
                assert(init[i] == ms[i]);
                assert(is_due(init[i], now));
                assert(is_sent(s0, (init[i].id, init[i].data)));
                let t = choose|t: int| 0 <= t < s0.len() && #[trigger] s0[t] == (init[i].id, init[i].data);
                assert(s[t] == s0[t]);
            } else {
                assert(s[s0.len() as int] == (ms[n].id, ms[n].data));
            }
        }
    }
}

} // verus!
