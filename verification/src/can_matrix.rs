//! The CAN matrix: clusters of frames, and the conversion between signal values and
//! CAN messages through it.

use crate::arxml_bean::{Frame, Signal};
use crate::can_module::{CanMessage, MessageState};
use crate::codec::{decode_spec, decoded_view, Entry, Fault};
use crate::encoder::{encode_spec, values_view, SignalValue};
use std::collections::HashMap;
use vstd::prelude::*;

verus! {

broadcast use vstd::std_specs::hash::group_hash_axioms;

/// A cluster: a named bus and its frames, by frame id.
pub struct Cluster {
    pub name: String,
    pub frame_by_id: HashMap<i32, Frame>,
}

/// Frames indexed by id: a later frame with the same id replaces an earlier one, and
/// a frame without an id is not indexed.
pub open spec fn index_frames(frames: Seq<Frame>) -> Map<i32, Frame>
    decreases frames.len(),
{
    if frames.len() == 0 {
        Map::empty()
    } else {
        let m = index_frames(frames.drop_last());
        match frames.last().id {
            Some(id) => m.insert(id, frames.last()),
            None => m,
        }
    }
}

impl Cluster {
    /// A cluster named `name` holding `frames`, indexed by frame id.
    pub fn new(name: String, frames: Vec<Frame>) -> (c: Cluster)
        ensures
            c.name@ == name@,
            c.frame_by_id@ == index_frames(frames@),
    {
        let mut frame_by_id: HashMap<i32, Frame> = HashMap::new();
        let ghost all = frames@;
        let mut rest = frames;
        let ghost mut i: int = 0;
        proof {
            assert(all.take(0) =~= Seq::<Frame>::empty());
            assert(all.skip(0) =~= all);
        }
        while rest.len() > 0
            invariant
                0 <= i <= all.len(),
                rest@ == all.skip(i),
                frame_by_id@ == index_frames(all.take(i)),
            decreases rest@.len(),
        {
            let f = rest.remove(0);
            proof {
                assert(all.take(i + 1).drop_last() =~= all.take(i));
                assert(all.take(i + 1).last() == f);
                assert(rest@ =~= all.skip(i + 1));
            }
            match f.id {
                Some(id) => {
                    frame_by_id.insert(id, f);
                },
                None => {},
            }
            proof {
                i = i + 1;
            }
        }
        proof {
            assert(all.take(i) =~= all);
        }
        Cluster { name, frame_by_id }
    }
}

/// The clusters of a CAN bus and the signals of the matrix.
pub struct CanMatrix {
    pub clusters: Vec<Cluster>,
    pub signals: Vec<Signal>,
}

/// Position of the cluster named `name`.
pub open spec fn cluster_index(cs: Seq<Cluster>, name: Seq<char>) -> Option<int>
    decreases cs.len(),
{
    if cs.len() == 0 {
        None
    } else {
        match cluster_index(cs.drop_last(), name) {
            Some(i) => Some(i),
            None => if cs.last().name@ == name {
                Some(cs.len() - 1)
            } else {
                None
            },
        }
    }
}

/// No two clusters share a name.
pub open spec fn distinct_cluster_names(cs: Seq<Cluster>) -> bool {
    forall|i: int, j: int| 0 <= i < j < cs.len() ==> cs[i].name@ != cs[j].name@
}

/// No two listed clusters share a name.
pub open spec fn distinct_names<T>(v: Seq<(String, T)>) -> bool {
    forall|i: int, j: int| 0 <= i < j < v.len() ==> v[i].0@ != v[j].0@
}

/// The frame with id `frame_id` in the cluster named `cluster_name`.
pub open spec fn frame_for(m: CanMatrix, cluster_name: Seq<char>, frame_id: i32) -> Option<Frame> {
    match cluster_index(m.clusters@, cluster_name) {
        None => None,
        Some(k) => if m.clusters@[k].frame_by_id@.contains_key(frame_id) {
            Some(m.clusters@[k].frame_by_id@[frame_id])
        } else {
            None
        },
    }
}

/// Decoding a message of frame `frame_id` in cluster `cluster_name`; an unknown
/// cluster or frame is a fault.
pub open spec fn signals_by_message_spec(
    m: CanMatrix,
    cluster_name: Seq<char>,
    frame_id: i32,
    data: Seq<u8>,
) -> Result<Option<Seq<(Seq<char>, i32)>>, Fault> {
    match frame_for(m, cluster_name, frame_id) {
        None => Err(Fault),
        Some(f) => decode_spec(f, data),
    }
}

/// The payload of a message of a frame: the encoded bytes, zero-padded up to the frame's
/// length.
pub open spec fn padded_payload(bytes: Seq<u8>, l: i32) -> Result<Seq<u8>, Fault> {
    if bytes.len() < (l as usize) {
        if l < 0 {
            Err(Fault)
        } else {
            Ok(bytes + Seq::new((l - bytes.len()) as nat, |i: int| 0u8))
        }
    } else {
        Ok(bytes)
    }
}

/// Building the message of frame `frame_id` in cluster `cluster_name` from signal
/// values: the frame's encoding of the values, zero-padded to the frame's length, sent
/// with the frame's cycle time; `Ok(None)` when the frame does not say whether it is a
/// CAN FD frame. An unknown cluster or frame, a frame that yields no payload, or a frame
/// without a length or a cycle time is a fault.
pub open spec fn message_by_signals_spec(
    m: CanMatrix,
    cluster_name: Seq<char>,
    frame_id: i32,
    values: Seq<(Seq<char>, u64)>,
) -> Result<Option<MessageState>, Fault> {
    match frame_for(m, cluster_name, frame_id) {
        None => Err(Fault),
        Some(f) => match encode_spec(f, values) {
            Err(e) => Err(e),
            Ok(None) => Err(Fault),
            Ok(Some(bytes)) => match f.length {
                None => Err(Fault),
                Some(l) => match padded_payload(bytes, l) {
                    Err(e) => Err(e),
                    Ok(data) => match f.cycle_time {
                        None => Err(Fault),
                        Some(c) => match f.is_fd {
                            None => Ok(None),
                            Some(fd) => Ok(
                                Some(
                                    MessageState {
                                        id: frame_id as u32,
                                        data,
                                        period_ms: c as i64,
                                        is_fd: fd,
                                        next_send_time: None,
                                    },
                                ),
                            ),
                        },
                    },
                },
            },
        },
    }
}

/// The first cluster with a name lies in every prefix that reaches past it.
proof fn lemma_cluster_index_prefix(cs: Seq<Cluster>, name: Seq<char>, k: int)
    requires
        0 <= k <= cs.len(),
        cluster_index(cs.take(k), name) is Some,
    ensures
        cluster_index(cs, name) == cluster_index(cs.take(k), name),
    decreases cs.len() - k,
{
    if k < cs.len() {
        assert(cs.take(k + 1).drop_last() =~= cs.take(k));
        lemma_cluster_index_prefix(cs, name, k + 1);
    } else {
        assert(cs.take(k) =~= cs);
    }
}


/// The cluster at `k` is the first one named `name`.
pub open spec fn first_named(cs: Seq<Cluster>, name: Seq<char>, k: int) -> bool {
    0 <= k < cs.len() && cs[k].name@ == name && forall|j: int| 0 <= j < k ==> (#[trigger] cs[j]).name@ != name
}

/// Looking a cluster up by name finds the first cluster with that name, and nothing when
/// no cluster has it.
proof fn lemma_cluster_index_first(cs: Seq<Cluster>, name: Seq<char>)
    ensures
        forall|k: int| first_named(cs, name, k) ==> cluster_index(cs, name) == Some(k),
        (forall|j: int| 0 <= j < cs.len() ==> (#[trigger] cs[j]).name@ != name) ==> cluster_index(cs, name) is None,
    decreases cs.len(),
{
    if cs.len() > 0 {
        let init = cs.drop_last();
        lemma_cluster_index_first(init, name);
        assert(forall|j: int| 0 <= j < init.len() ==> init[j] == cs[j]);
        assert forall|k: int| first_named(cs, name, k) implies cluster_index(cs, name) == Some(k) by {
            if k < cs.len() - 1 {
                assert(first_named(init, name, k));
            } else {
                assert(forall|j: int| 0 <= j < init.len() ==> (#[trigger] init[j]).name@ != name);
            }
        }
        if forall|j: int| 0 <= j < cs.len() ==> (#[trigger] cs[j]).name@ != name {
            assert(forall|j: int| 0 <= j < init.len() ==> (#[trigger] init[j]).name@ != name);
            assert(cs[cs.len() - 1].name@ != name);
        }
    }
}

/// Frames are found by their id: a frame whose id no later frame repeats is found under
/// that id, and every id found belongs to a frame that is found under it.
pub proof fn law_frames_indexed_by_id(frames: Seq<Frame>)
    ensures
        forall|i: int|
            #![trigger frames[i]]
            0 <= i < frames.len() && frames[i].id is Some && (forall|j: int|
                i < j < frames.len() ==> (#[trigger] frames[j]).id != frames[i].id) ==> index_frames(frames).contains_key(
                frames[i].id.unwrap(),
            ) && index_frames(frames)[frames[i].id.unwrap()] == frames[i],
        forall|x: i32|
            #[trigger] index_frames(frames).contains_key(x) ==> exists|i: int|
                0 <= i < frames.len() && #[trigger] frames[i].id == Some(x) && index_frames(frames)[x] == frames[i],
    decreases frames.len(),
{
    if frames.len() > 0 {
        let init = frames.drop_last();
        law_frames_indexed_by_id(init);
        let last = frames.last();
        let n = frames.len() - 1;
        assert(frames[n] == last);
        assert(forall|j: int| 0 <= j < init.len() ==> init[j] == frames[j]);
        let m0 = index_frames(init);
        let m = index_frames(frames);
        assert forall|i: int|
            #![trigger frames[i]]
            0 <= i < frames.len() && frames[i].id is Some && (forall|j: int|
                i < j < frames.len() ==> (#[trigger] frames[j]).id != frames[i].id) implies m.contains_key(
                frames[i].id.unwrap(),
            ) && m[frames[i].id.unwrap()] == frames[i] by {
            if i < n {
                assert(init[i] == frames[i]);
                assert(frames[n].id != frames[i].id);
                assert forall|j: int| i < j < init.len() implies (#[trigger] init[j]).id != init[i].id by {
                    assert(frames[j].id != frames[i].id);
                }
            }
        }
        assert forall|x: i32| #[trigger] m.contains_key(x) implies exists|i: int|
            0 <= i < frames.len() && #[trigger] frames[i].id == Some(x) && m[x] == frames[i] by {
            if last.id == Some(x) {
                assert(frames[n].id == Some(x));
            } else {
                assert(m0.contains_key(x));
                let i = choose|i: int| 0 <= i < init.len() && #[trigger] init[i].id == Some(x) && m0[x] == init[i];
                assert(frames[i].id == Some(x));
            }
        }
    }
}

/// Decoding a message goes by the named cluster: with the first cluster of that name
/// holding a frame of that id, the result is that frame's decoding of the data; with no
/// cluster of that name, or no such frame in it, it is a fault.
pub proof fn law_signals_by_named_cluster(m: CanMatrix, name: Seq<char>, frame_id: i32, data: Seq<u8>)
    ensures
        forall|k: int|
            #[trigger] first_named(m.clusters@, name, k) ==> signals_by_message_spec(m, name, frame_id, data) == if m.clusters@[k].frame_by_id@.contains_key(frame_id) {
                decode_spec(m.clusters@[k].frame_by_id@[frame_id], data)
            } else {
                Err(Fault)
            },
        (forall|j: int| 0 <= j < m.clusters@.len() ==> (#[trigger] m.clusters@[j]).name@ != name) ==> signals_by_message_spec(
            m,
            name,
            frame_id,
            data,
        ) is Err,
{
    lemma_cluster_index_first(m.clusters@, name);
}

/// A built message is the frame's payload padded to the frame's length: for the first
/// cluster of that name holding a frame of that id, with a non-negative length, a cycle
/// time, a CAN FD flag, and values it encodes, the message is built; it carries the
/// frame's id, cycle time and CAN FD flag, and a payload of the larger of the encoded
/// length and the frame's length that begins with the encoded bytes and is zero after
/// them. With no cluster of that name no message is built.
pub proof fn law_message_padded_to_frame(
    m: CanMatrix,
    name: Seq<char>,
    frame_id: i32,
    values: Seq<(Seq<char>, u64)>,
    k: int,
)
    requires
        first_named(m.clusters@, name, k),
        m.clusters@[k].frame_by_id@.contains_key(frame_id),
        ({
            let f = m.clusters@[k].frame_by_id@[frame_id];
            &&& f.length matches Some(l) && l >= 0
            &&& encode_spec(f, values) matches Ok(Some(bytes))
            &&& f.cycle_time is Some
            &&& f.is_fd is Some
        }),
    ensures
        ({
            let f = m.clusters@[k].frame_by_id@[frame_id];
            let bytes = encode_spec(f, values)->Ok_0.unwrap();
            let l = f.length.unwrap();
            message_by_signals_spec(m, name, frame_id, values) matches Ok(Some(msg)) && {
                &&& msg.data.len() == if bytes.len() >= l { bytes.len() as int } else { l as int }
                &&& msg.data.subrange(0, bytes.len() as int) == bytes
                &&& forall|i: int| bytes.len() <= i < msg.data.len() ==> msg.data[i] == 0
                &&& msg.is_fd == f.is_fd.unwrap()
                &&& msg.period_ms == f.cycle_time.unwrap()
                &&& msg.id == frame_id as u32
                &&& msg.next_send_time is None
            }
        }),
{
    lemma_cluster_index_first(m.clusters@, name);
    let f = m.clusters@[k].frame_by_id@[frame_id];
    let bytes = encode_spec(f, values)->Ok_0.unwrap();
    let l = f.length.unwrap();
    assert((l as usize) == l);
    let msg = message_by_signals_spec(m, name, frame_id, values)->Ok_0.unwrap();
    if bytes.len() < l {
        assert(msg.data == bytes + Seq::new((l - bytes.len()) as nat, |i: int| 0u8));
        assert(msg.data.subrange(0, bytes.len() as int) =~= bytes);
    } else {
        assert(msg.data == bytes);
        assert(msg.data.subrange(0, bytes.len() as int) =~= bytes);
    }
}

/// No message is built for a cluster name that no cluster has.
pub proof fn law_message_needs_named_cluster(
    m: CanMatrix,
    name: Seq<char>,
    frame_id: i32,
    values: Seq<(Seq<char>, u64)>,
)
    requires
        forall|j: int| 0 <= j < m.clusters@.len() ==> (#[trigger] m.clusters@[j]).name@ != name,
    ensures
        message_by_signals_spec(m, name, frame_id, values) is Err,
{
    lemma_cluster_index_first(m.clusters@, name);
}

impl CanMatrix {
    /// An empty matrix.
    pub fn new() -> (m: Self)
        ensures
            m.clusters@.len() == 0,
            m.signals@.len() == 0,
    {
        CanMatrix { clusters: Vec::new(), signals: Vec::new() }
    }

    /// Replaces the clusters with the given ones, each a name and its frames.
    pub fn load_clusters(&mut self, clusters: Vec<(String, Vec<Frame>)>)
        requires
            distinct_names(clusters@),
        ensures
            final(self).signals == old(self).signals,
            final(self).clusters@.len() == clusters@.len(),
            forall|i: int|
                0 <= i < clusters@.len() ==> (#[trigger] final(self).clusters@[i]).name@ == clusters@[i].0@
                    && final(self).clusters@[i].frame_by_id@ == index_frames(clusters@[i].1@),
            distinct_cluster_names(final(self).clusters@),
    {
        let ghost all = clusters@;
        let mut built: Vec<Cluster> = Vec::new();
        let mut rest = clusters;
        let ghost mut i: int = 0;
        proof {
            assert(all.skip(0) =~= all);
        }
        while rest.len() > 0
            invariant
                0 <= i <= all.len(),
                rest@ == all.skip(i),
                built@.len() == i,
                forall|j: int|
                    0 <= j < i ==> (#[trigger] built@[j]).name@ == all[j].0@
                        && built@[j].frame_by_id@ == index_frames(all[j].1@),
            decreases rest@.len(),
        {
            let (name, frames) = rest.remove(0);
            proof {
                assert(rest@ =~= all.skip(i + 1));
            }
            built.push(Cluster::new(name, frames));
            proof {
                i = i + 1;
            }
        }
        self.clusters = built;
        assert(distinct_names(all));
    }

    /// Position of the cluster named `name`.
    fn find_cluster(&self, name: &String) -> (r: Option<usize>)
        ensures
            match r {
                Some(k) => cluster_index(self.clusters@, name@) == Some(k as int) && k < self.clusters@.len(),
                None => cluster_index(self.clusters@, name@) is None,
            },
    {
        let n = self.clusters.len();
        proof {
            assert(self.clusters@.take(0) =~= Seq::<Cluster>::empty());
        }
        for i in 0..n
            invariant
                n == self.clusters@.len(),
                cluster_index(self.clusters@.take(i as int), name@) is None,
        {
            proof {
                assert(self.clusters@.take(i + 1).drop_last() =~= self.clusters@.take(i as int));
            }
            if self.clusters[i].name == *name {
                proof {
                    lemma_cluster_index_prefix(self.clusters@, name@, i + 1);
                }
                return Some(i);
            }
        }
        proof {
            assert(self.clusters@.take(n as int) =~= self.clusters@);
        }
        None
    }

    /// The frame with id `frame_id` in the cluster named `cluster_name`.
    fn find_frame(&self, cluster_name: &String, frame_id: i32) -> (r: Option<&Frame>)
        ensures
            match frame_for(*self, cluster_name@, frame_id) {
                Some(f) => r matches Some(g) && *g == f,
                None => r is None,
            },
    {
        match self.find_cluster(cluster_name) {
            None => None,
            Some(k) => self.clusters[k].frame_by_id.get(&frame_id),
        }
    }

    /// Decodes a message of frame `frame_id` in cluster `cluster_name`, reporting a fault
    /// where decoding cannot proceed.
    pub fn try_get_signals_by_message(&self, cluster_name: String, frame_id: i32, data: &[u8]) -> (r: Result<
        Option<Vec<Entry>>,
        Fault,
    >)
        ensures
            decoded_view(r) == signals_by_message_spec(*self, cluster_name@, frame_id, data@),
    {
        match self.find_frame(&cluster_name, frame_id) {
            None => Err(Fault),
            Some(f) => f.try_decode(data),
        }
    }

    /// Decodes a message of frame `frame_id` in cluster `cluster_name` into signal values.
    pub fn get_signals_by_message(&self, cluster_name: String, frame_id: i32, data: &[u8]) -> (r: Option<
        Vec<Entry>,
    >)
        requires
            signals_by_message_spec(*self, cluster_name@, frame_id, data@) is Ok,
        ensures
            decoded_view(Ok(r)) == signals_by_message_spec(*self, cluster_name@, frame_id, data@),
    {
        match self.try_get_signals_by_message(cluster_name, frame_id, data) {
            Ok(r) => r,
            Err(_) => None,
        }
    }

    /// Builds the message of frame `frame_id` in cluster `cluster_name` from signal
    /// values, reporting a fault where it cannot be built.
    pub fn try_get_message_by_signals(
        &self,
        cluster_name: String,
        frame_id: i32,
        signals: Vec<SignalValue>,
    ) -> (r: Result<Option<CanMessage>, Fault>)
        ensures
            match r {
                Ok(Some(msg)) => message_by_signals_spec(*self, cluster_name@, frame_id, values_view(signals@))
                    == Ok::<_, Fault>(Some(msg@)),
                Ok(None) => message_by_signals_spec(*self, cluster_name@, frame_id, values_view(signals@))
                    == Ok::<_, Fault>(None::<MessageState>),
                Err(_) => message_by_signals_spec(*self, cluster_name@, frame_id, values_view(signals@)) is Err,
            },
    {
        let frame = match self.find_frame(&cluster_name, frame_id) {
            None => return Err(Fault),
            Some(f) => f,
        };
        let mut data = match frame.try_encode(signals) {
            Err(e) => return Err(e),
            Ok(None) => return Err(Fault),
            Ok(Some(d)) => d,
        };
        let l = match frame.length {
            None => return Err(Fault),
            Some(l) => l,
        };
        let target = #[verifier::truncate] (l as usize);
        if data.len() < target {
            if l < 0 {
                return Err(Fault);
            }
            let ghost start = data@;
            while data.len() < target
                invariant
                    start.len() <= data@.len() <= target,
                    data@ =~= start + Seq::new((data@.len() - start.len()) as nat, |i: int| 0u8),
                decreases target - data@.len(),
            {
                data.push(0u8);
            }
            assert(target == l);
        }
        let c = match frame.cycle_time {
            None => return Err(Fault),
            Some(c) => c,
        };
        let fd = match frame.is_fd {
            None => return Ok(None),
            Some(fd) => fd,
        };
        Ok(
            Some(
                CanMessage {
                    id: #[verifier::truncate] (frame_id as u32),
                    data,
                    period_ms: c as i64,
                    is_fd: fd,
                    next_send_time: None,
                },
            ),
        )
    }

    /// Builds the message of frame `frame_id` in cluster `cluster_name` from signal
    /// values: the frame's payload, zero-padded to its length, with its cycle time as the
    /// period; `None` when the frame does not say whether it is a CAN FD frame.
    pub fn get_message_by_signals(&self, cluster_name: String, frame_id: i32, signals: Vec<SignalValue>) -> (r: Option<
        CanMessage,
    >)
        requires
            message_by_signals_spec(*self, cluster_name@, frame_id, values_view(signals@)) is Ok,
        ensures
            match r {
                Some(msg) => message_by_signals_spec(*self, cluster_name@, frame_id, values_view(signals@))
                    == Ok::<_, Fault>(Some(msg@)),
                None => message_by_signals_spec(*self, cluster_name@, frame_id, values_view(signals@))
                    == Ok::<_, Fault>(None::<MessageState>),
            },
    {
        let ghost sv = values_view(signals@);
        match self.try_get_message_by_signals(cluster_name, frame_id, signals) {
            Ok(r) => r,
            Err(_) => None,
        }
    }
}

} // verus!
