//! The state shared by the `/cloud_registered` and `/Laser_map` subscribers,
//! and the steps each of them takes on it.

use vstd::prelude::*;

verus! {

/// The latest results of both subscribers and the flags that say what the
/// next packet carries.
#[derive(Clone, Debug)]
pub struct GottenData<P> {
    pub count: usize,
    pub is_cr: bool,
    pub cr_points_num: usize,
    pub cr_points: Vec<P>,
    pub is_lm: bool,
    pub should_send_lm: bool,
    pub lm_points_num: usize,
    pub lm_points: Vec<P>,
}

impl<P> GottenData<P> {
    /// The state at the start of a `/cloud_registered` message.
    pub open spec fn cloud_registered_begun(self) -> Self {
        GottenData { is_cr: false, ..self }
    }

    /// The state once a downsampled `/cloud_registered` cloud is stored.
    pub open spec fn cloud_registered_recorded(self, points: Vec<P>) -> Self {
        GottenData {
            count: (self.count + 1) as usize,
            is_cr: true,
            cr_points_num: points.len(),
            cr_points: points,
            ..self
        }
    }

    /// The state once the packet of a `/cloud_registered` message is handed
    /// on: no result is fresh any more.
    pub open spec fn cloud_registered_finished(self) -> Self {
        GottenData { is_cr: false, is_lm: false, should_send_lm: false, ..self }
    }

    /// The state at the start of a `/Laser_map` message that is processed.
    pub open spec fn laser_map_begun(self) -> Self {
        GottenData { is_lm: false, should_send_lm: false, ..self }
    }

    /// The state once a processed `/Laser_map` cloud is stored.
    pub open spec fn laser_map_recorded(self, points: Vec<P>) -> Self {
        GottenData {
            is_lm: true,
            should_send_lm: true,
            lm_points_num: points.len(),
            lm_points: points,
            ..self
        }
    }

    /// The empty state: nothing received yet.
    pub fn new() -> (r: Self)
        ensures
            r.count == 0,
            !r.is_cr,
            r.cr_points_num == 0,
            r.cr_points@.len() == 0,
            !r.is_lm,
            !r.should_send_lm,
            r.lm_points_num == 0,
            r.lm_points@.len() == 0,
    {
        GottenData {
            count: 0,
            is_cr: false,
            cr_points_num: 0,
            cr_points: Vec::new(),
            is_lm: false,
            should_send_lm: false,
            lm_points_num: 0,
            lm_points: Vec::new(),
        }
    }

    /// A `/cloud_registered` message arrives: its result is not fresh yet.
    pub fn begin_cloud_registered(&mut self)
        ensures
            *final(self) == old(self).cloud_registered_begun(),
    {
        self.is_cr = false;
    }

    /// Stores the downsampled cloud of a `/cloud_registered` message and
    /// counts the message.
    pub fn record_cloud_registered(&mut self, points: Vec<P>)
        requires
            old(self).count < usize::MAX,
        ensures
            *final(self) == old(self).cloud_registered_recorded(points),
    {
        self.count = self.count + 1;
        self.is_cr = true;
        self.cr_points_num = points.len();
        self.cr_points = points;
    }

    /// The packet of a `/cloud_registered` message has been handed on.
    pub fn finish_cloud_registered(&mut self)
        ensures
            *final(self) == old(self).cloud_registered_finished(),
    {
        self.is_cr = false;
        self.is_lm = false;
        self.should_send_lm = false;
    }

    /// A `/Laser_map` message is about to be processed.
    pub fn begin_laser_map(&mut self)
        ensures
            *final(self) == old(self).laser_map_begun(),
    {
        self.is_lm = false;
        self.should_send_lm = false;
    }

    /// Stores the processed cloud of a `/Laser_map` message, to be carried
    /// by the next packet.
    pub fn record_laser_map(&mut self, points: Vec<P>)
        ensures
            *final(self) == old(self).laser_map_recorded(points),
    {
        self.is_lm = true;
        self.should_send_lm = true;
        self.lm_points_num = points.len();
        self.lm_points = points;
    }
}

/// One step the subscribers take on the shared state, each a call of the
/// method of the same name.
pub enum SubscriberEvent<P> {
    CloudRegisteredBegun,
    CloudRegisteredRecorded(Vec<P>),
    CloudRegisteredFinished,
    LaserMapBegun,
    LaserMapRecorded(Vec<P>),
}

impl<P> GottenData<P> {
    /// The state after the step `e`.
    pub open spec fn after(self, e: SubscriberEvent<P>) -> Self {
        match e {
            SubscriberEvent::CloudRegisteredBegun => self.cloud_registered_begun(),
            SubscriberEvent::CloudRegisteredRecorded(points) => self.cloud_registered_recorded(points),
            SubscriberEvent::CloudRegisteredFinished => self.cloud_registered_finished(),
            SubscriberEvent::LaserMapBegun => self.laser_map_begun(),
            SubscriberEvent::LaserMapRecorded(points) => self.laser_map_recorded(points),
        }
    }
}

/// The state after the steps `es`, in order, from `d`; the steps of both
/// subscribers may come interleaved in any way.
pub open spec fn state_after<P>(d: GottenData<P>, es: Seq<SubscriberEvent<P>>) -> GottenData<P>
    decreases es.len(),
{
    if es.len() == 0 {
        d
    } else {
        state_after(d, es.drop_last()).after(es.last())
    }
}

/// Which `/Laser_map` messages are processed: the subscriber counts the
/// messages it sees and remembers the size of the last processed one.
#[derive(Clone, Copy, Debug)]
pub struct LaserMapGate {
    pub msg_count: usize,
    pub points_num_prev: usize,
}

impl LaserMapGate {
    /// Whether a message of `points_num` points that passed
    /// `skip_before_size` is processed: it is unless its count is not a
    /// multiple of 5 and it holds no more points than the last processed one.
    pub open spec fn accepts(self, points_num: usize) -> bool {
        !(self.msg_count % 5 != 0 && points_num <= self.points_num_prev)
    }

    /// No message seen yet.
    pub fn new() -> (r: Self)
        ensures
            r.msg_count == 0,
            r.points_num_prev == 0,
    {
        LaserMapGate { msg_count: 0, points_num_prev: 0 }
    }

    /// A `/Laser_map` message arrives: it is skipped, and counted, unless it
    /// is the message counted 5, the sixth.
    pub fn skip_before_size(&mut self) -> (skipped: bool)
        requires
            old(self).msg_count < usize::MAX,
        ensures
            skipped == (old(self).msg_count != 5),
            final(self).msg_count == (if skipped {
                old(self).msg_count + 1
            } else {
                old(self).msg_count as int
            }),
            final(self).points_num_prev == old(self).points_num_prev,
            skipped ==> forall|n: usize| *final(self) == #[trigger] gate_after(*old(self), n),
    {
        if self.msg_count != 5 {
            self.msg_count = self.msg_count + 1;
            return true;
        }
        false
    }

    /// The size of a message that was not skipped is known: whether it is
    /// processed. The message is counted; a processed one's size is
    /// remembered.
    pub fn accept_size(&mut self, points_num: usize) -> (process: bool)
        requires
            old(self).msg_count < usize::MAX,
        ensures
            process == old(self).accepts(points_num),
            final(self).msg_count == old(self).msg_count + 1,
            final(self).points_num_prev == (if process {
                points_num
            } else {
                old(self).points_num_prev
            }),
            old(self).msg_count == 5 ==> *final(self) == gate_after(*old(self), points_num) && process
                == gate_processes(*old(self), points_num),
    {
        if self.msg_count % 5 != 0 && points_num <= self.points_num_prev {
            self.msg_count = self.msg_count + 1;
            return false;
        }
        self.points_num_prev = points_num;
        self.msg_count = self.msg_count + 1;
        true
    }
}

/// A message that is not skipped before its size is known is always
/// processed, whatever its size: only the sixth `/Laser_map` message is ever
/// processed.
pub proof fn lemma_only_sixth_laser_map_processed(g: LaserMapGate, points_num: usize)
    requires
        g.msg_count == 5,
    ensures
        g.accepts(points_num),
{
}

/// Whether a `/Laser_map` message of `points_num` points is processed by a
/// gate in state `g`: it passes `skip_before_size` and `accept_size` accepts
/// it.
pub open spec fn gate_processes(g: LaserMapGate, points_num: usize) -> bool {
    g.msg_count == 5 && g.accepts(points_num)
}

/// Where `skip_before_size`, then `accept_size` when nothing was skipped,
/// leave `g` for a message with `points_num` points: its message count is
/// one higher, and a processed message's size replaces the remembered one.
pub open spec fn gate_after(g: LaserMapGate, points_num: usize) -> LaserMapGate {
    LaserMapGate {
        msg_count: (g.msg_count + 1) as usize,
        points_num_prev: if gate_processes(g, points_num) {
            points_num
        } else {
            g.points_num_prev
        },
    }
}

/// How many of the messages of sizes `sizes`, arriving in order at a gate
/// in state `g`, are processed.
pub open spec fn processed_messages(g: LaserMapGate, sizes: Seq<usize>) -> nat
    decreases sizes.len(),
{
    if sizes.len() == 0 {
        0
    } else {
        (if gate_processes(g, sizes[0]) {
            1nat
        } else {
            0nat
        }) + processed_messages(gate_after(g, sizes[0]), sizes.drop_first())
    }
}

proof fn lemma_no_message_processed_after_sixth(g: LaserMapGate, sizes: Seq<usize>)
    requires
        g.msg_count > 5,
        g.msg_count + sizes.len() <= usize::MAX,
    ensures
        processed_messages(g, sizes) == 0,
    decreases sizes.len(),
{
    if sizes.len() > 0 {
        lemma_no_message_processed_after_sixth(gate_after(g, sizes[0]), sizes.drop_first());
    }
}

/// A gate that has not yet passed the sixth message processes at most one
/// of the messages that follow: over a whole run from `LaserMapGate::new()`
/// at most one `/Laser_map` message is processed.
pub proof fn lemma_gate_processes_at_most_one(g: LaserMapGate, sizes: Seq<usize>)
    requires
        g.msg_count <= 5,
        g.msg_count + sizes.len() <= usize::MAX,
    ensures
        processed_messages(g, sizes) <= 1,
    decreases sizes.len(),
{
    if sizes.len() > 0 {
        let next = gate_after(g, sizes[0]);
        if g.msg_count == 5 {
            lemma_no_message_processed_after_sixth(next, sizes.drop_first());
        } else {
            lemma_gate_processes_at_most_one(next, sizes.drop_first());
        }
    }
}

} // verus!
