//! The packet sent to the server after each `/cloud_registered` message.

use vstd::prelude::*;
use crate::types::GottenData;

verus! {

/// What the server receives: the latest downsampled `/cloud_registered`
/// cloud and, when a fresh one is waiting, the latest `/Laser_map` cloud.
#[derive(Clone, Debug)]
pub struct PointCloudPacket<P> {
    pub count: usize,
    pub is_cr: bool,
    pub cr_points_num: usize,
    pub cr_points: Vec<P>,
    pub is_lm: bool,
    pub lm_points_num: usize,
    pub lm_points: Vec<P>,
}

/// The `/Laser_map` points a packet built from `d` carries.
pub open spec fn packet_lm_points<P>(d: GottenData<P>) -> Seq<P> {
    if d.should_send_lm {
        d.lm_points@
    } else {
        Seq::empty()
    }
}

fn copy_points<P: Copy>(v: &Vec<P>) -> (r: Vec<P>)
    ensures
        r@ == v@,
{
    let mut out: Vec<P> = Vec::new();
    let mut i: usize = 0;
    while i < v.len()
        invariant
            0 <= i <= v.len(),
            out@ == v@.take(i as int),
        decreases v.len() - i,
    {
        let p = v[i];
        out.push(p);
        assert(v@.take(i + 1) == v@.take(i as int).push(p));
        i = i + 1;
    }
    assert(v@.take(v.len() as int) == v@);
    out
}

impl<P: Copy> PointCloudPacket<P> {
    /// The packet for the state `data`: its counter, flags and
    /// `/cloud_registered` cloud, and its `/Laser_map` cloud only when that
    /// is waiting to be sent; the point counts are the lengths of the clouds
    /// carried.
    pub fn from_gotten_data(data: &GottenData<P>) -> (r: Self)
        ensures
            r.count == data.count,
            r.is_cr == data.is_cr,
            r.is_lm == data.is_lm,
            r.cr_points@ == data.cr_points@,
            r.cr_points_num == data.cr_points.len(),
            r.lm_points@ == packet_lm_points(*data),
            r.lm_points_num == packet_lm_points(*data).len(),
    {
        let mut packet = PointCloudPacket {
            count: data.count,
            is_cr: data.is_cr,
            cr_points_num: data.cr_points.len(),
            cr_points: copy_points(&data.cr_points),
            is_lm: data.is_lm,
            lm_points_num: 0,
            lm_points: Vec::new(),
        };
        if data.should_send_lm {
            packet = PointCloudPacket {
                count: data.count,
                is_cr: data.is_cr,
                cr_points_num: data.cr_points.len(),
                cr_points: copy_points(&data.cr_points),
                is_lm: data.is_lm,
                lm_points_num: data.lm_points.len(),
                lm_points: copy_points(&data.lm_points),
            };
        }
        packet
    }
}

/// A `/Laser_map` cloud travels in exactly one packet: the packet of the
/// next `/cloud_registered` message carries it together with that message's
/// cloud and the incremented counter, and once that packet has been handed
/// on, the packets built afterwards carry no `/Laser_map` points.
pub proof fn lemma_laser_map_carried_once<P>(d: GottenData<P>, lm: Vec<P>, cr: Vec<P>)
    requires
        d.count < usize::MAX,
    ensures
        ({
            let s = d.laser_map_begun().laser_map_recorded(lm).cloud_registered_begun().cloud_registered_recorded(cr);
            &&& packet_lm_points(s) == lm@
            &&& s.cr_points@ == cr@
            &&& s.count == d.count + 1
            &&& packet_lm_points(s.cloud_registered_finished()) == Seq::<P>::empty()
            &&& packet_lm_points(s.cloud_registered_finished().cloud_registered_begun().cloud_registered_recorded(cr)) == Seq::<P>::empty()
        }),
{
}

/// The state after the first `i` steps of `es`.
pub open spec fn state_at<P>(d: GottenData<P>, es: Seq<crate::types::SubscriberEvent<P>>, i: int) -> GottenData<P> {
    crate::types::state_after(d, es.take(i))
}

/// No `/cloud_registered` cloud is recorded while the counter is at its
/// largest value (where the count would overflow).
pub open spec fn counter_stays_in_range<P>(d: GottenData<P>, es: Seq<crate::types::SubscriberEvent<P>>) -> bool {
    forall|i: int|
        0 <= i < es.len() && #[trigger] es[i] is CloudRegisteredRecorded ==> state_at(d, es, i).count
            < usize::MAX
}

/// The `/cloud_registered` subscriber hands on each message's packet, and so
/// finishes the message, before it records the next one.
pub open spec fn cloud_registered_messages_finished<P>(es: Seq<crate::types::SubscriberEvent<P>>) -> bool {
    forall|i: int, j: int|
        0 <= i < j < es.len() && #[trigger] es[i] is CloudRegisteredRecorded
            && #[trigger] es[j] is CloudRegisteredRecorded ==> exists|k: int|
            i < k < j && #[trigger] es[k] is CloudRegisteredFinished
}

proof fn lemma_state_step<P>(d: GottenData<P>, es: Seq<crate::types::SubscriberEvent<P>>, i: int)
    requires
        0 <= i < es.len(),
    ensures
        state_at(d, es, i + 1) == state_at(d, es, i).after(es[i]),
{
    assert(es.take(i + 1).drop_last() =~= es.take(i));
    assert(es.take(i + 1).last() == es[i]);
}

proof fn lemma_flags_agree<P>(d: GottenData<P>, es: Seq<crate::types::SubscriberEvent<P>>, i: int)
    requires
        d.is_lm == d.should_send_lm,
        0 <= i <= es.len(),
    ensures
        state_at(d, es, i).is_lm == state_at(d, es, i).should_send_lm,
    decreases i,
{
    if i == 0 {
        assert(es.take(0) =~= Seq::<crate::types::SubscriberEvent<P>>::empty());
    } else {
        lemma_flags_agree(d, es, i - 1);
        lemma_state_step(d, es, i - 1);
    }
}

proof fn lemma_count_step<P>(d: GottenData<P>, es: Seq<crate::types::SubscriberEvent<P>>, i: int)
    requires
        counter_stays_in_range(d, es),
        0 <= i < es.len(),
    ensures
        state_at(d, es, i + 1).count == state_at(d, es, i).count + (if es[i] is CloudRegisteredRecorded {
            1int
        } else {
            0int
        }),
{
    lemma_state_step(d, es, i);
    if es[i] is CloudRegisteredRecorded {
        assert(state_at(d, es, i).count < usize::MAX);
    }
}

proof fn lemma_count_monotone<P>(d: GottenData<P>, es: Seq<crate::types::SubscriberEvent<P>>, i: int, j: int)
    requires
        counter_stays_in_range(d, es),
        0 <= i <= j <= es.len(),
    ensures
        state_at(d, es, i).count <= state_at(d, es, j).count,
    decreases j - i,
{
    if i < j {
        lemma_count_monotone(d, es, i, j - 1);
        lemma_count_step(d, es, j - 1);
    }
}

proof fn lemma_send_flag_set_by_laser_map<P>(d: GottenData<P>, es: Seq<crate::types::SubscriberEvent<P>>, k: int, j: int)
    requires
        0 <= k <= j <= es.len(),
        !state_at(d, es, k).should_send_lm,
        state_at(d, es, j).should_send_lm,
    ensures
        exists|m: int| k <= m < j && #[trigger] es[m] is LaserMapRecorded,
    decreases j - k,
{
    lemma_state_step(d, es, j - 1);
    if es[j - 1] is LaserMapRecorded {
        assert(es[j - 1] is LaserMapRecorded);
    } else {
        assert(state_at(d, es, j - 1).should_send_lm);
        lemma_send_flag_set_by_laser_map(d, es, k, j - 1);
        let m = choose|m: int| k <= m < j - 1 && #[trigger] es[m] is LaserMapRecorded;
        assert(es[m] is LaserMapRecorded);
    }
}

/// What every interleaving of the subscribers' steps keeps, starting from a
/// state whose two Laser_map flags agree (such as `GottenData::new()`):
/// - at every step the state's `is_lm` and `should_send_lm` agree, so a
///   packet carries Laser_map points only with `is_lm` set;
/// - the counter never decreases;
/// - the state a packet is built from, right after a `/cloud_registered`
///   cloud is recorded, has `is_cr` set and the counter one higher than
///   before, so packets come with strictly increasing counters;
/// - when the `/cloud_registered` subscriber finishes each message before
///   recording the next, two packets that both carry Laser_map points carry
///   clouds of two different recordings: a recorded Laser_map cloud reaches
///   at most one packet.
pub proof fn lemma_subscriber_steps<P>(d: GottenData<P>, es: Seq<crate::types::SubscriberEvent<P>>)
    requires
        d.is_lm == d.should_send_lm,
        counter_stays_in_range(d, es),
    ensures
        forall|i: int|
            0 <= i <= es.len() ==> (#[trigger] state_at(d, es, i)).is_lm == state_at(d, es, i).should_send_lm,
        forall|i: int|
            0 <= i <= es.len() && #[trigger] packet_lm_points(state_at(d, es, i)).len() > 0
                ==> state_at(d, es, i).is_lm,
        forall|i: int, j: int|
            0 <= i <= j <= es.len() ==> #[trigger] state_at(d, es, i).count
                <= #[trigger] state_at(d, es, j).count,
        forall|i: int|
            0 <= i < es.len() && #[trigger] es[i] is CloudRegisteredRecorded ==> state_at(d, es, i + 1).is_cr
                && state_at(d, es, i + 1).count == state_at(d, es, i).count + 1,
        forall|i: int, j: int|
            0 <= i < j < es.len() && #[trigger] es[i] is CloudRegisteredRecorded
                && #[trigger] es[j] is CloudRegisteredRecorded ==> state_at(d, es, i + 1).count
                < state_at(d, es, j + 1).count,
        cloud_registered_messages_finished(es) ==> forall|i: int, j: int|
            0 <= i < j < es.len() && #[trigger] es[i] is CloudRegisteredRecorded
                && #[trigger] es[j] is CloudRegisteredRecorded && packet_lm_points(
                state_at(d, es, i + 1),
            ).len() > 0 && packet_lm_points(state_at(d, es, j + 1)).len() > 0 ==> exists|m: int|
                i < m < j && #[trigger] es[m] is LaserMapRecorded,
{
    assert forall|i: int| 0 <= i <= es.len() implies (#[trigger] state_at(d, es, i)).is_lm
        == state_at(d, es, i).should_send_lm by {
        lemma_flags_agree(d, es, i);
    }
    assert forall|i: int|
        0 <= i <= es.len() && #[trigger] packet_lm_points(state_at(d, es, i)).len() > 0 implies state_at(
        d,
        es,
        i,
    ).is_lm by {
        lemma_flags_agree(d, es, i);
    }
    assert forall|i: int, j: int| 0 <= i <= j <= es.len() implies #[trigger] state_at(d, es, i).count
        <= #[trigger] state_at(d, es, j).count by {
        lemma_count_monotone(d, es, i, j);
    }
    assert forall|i: int| 0 <= i < es.len() && #[trigger] es[i] is CloudRegisteredRecorded implies state_at(
        d,
        es,
        i + 1,
    ).is_cr && state_at(d, es, i + 1).count == state_at(d, es, i).count + 1 by {
        lemma_state_step(d, es, i);
        lemma_count_step(d, es, i);
    }
    assert forall|i: int, j: int|
        0 <= i < j < es.len() && #[trigger] es[i] is CloudRegisteredRecorded
            && #[trigger] es[j] is CloudRegisteredRecorded implies state_at(d, es, i + 1).count
        < state_at(d, es, j + 1).count by {
        lemma_count_monotone(d, es, i + 1, j);
        lemma_count_step(d, es, j);
    }
    if cloud_registered_messages_finished(es) {
        assert forall|i: int, j: int|
            0 <= i < j < es.len() && #[trigger] es[i] is CloudRegisteredRecorded
                && #[trigger] es[j] is CloudRegisteredRecorded && packet_lm_points(
                state_at(d, es, i + 1),
            ).len() > 0 && packet_lm_points(state_at(d, es, j + 1)).len() > 0 implies exists|m: int|
            i < m < j && #[trigger] es[m] is LaserMapRecorded by {
            let k = choose|k: int| i < k < j && #[trigger] es[k] is CloudRegisteredFinished;
            lemma_state_step(d, es, k);
            lemma_state_step(d, es, j);
            assert(!state_at(d, es, k + 1).should_send_lm);
            assert(state_at(d, es, j + 1).should_send_lm);
            lemma_send_flag_set_by_laser_map(d, es, k + 1, j + 1);
            let m = choose|m: int| k + 1 <= m < j + 1 && #[trigger] es[m] is LaserMapRecorded;
            assert(m != j);
            assert(es[m] is LaserMapRecorded);
        }
    }
}

/// How many `/Laser_map` clouds the steps `es` record.
pub open spec fn laser_map_recordings<P>(es: Seq<crate::types::SubscriberEvent<P>>) -> nat
    decreases es.len(),
{
    if es.len() == 0 {
        0
    } else {
        laser_map_recordings(es.drop_last()) + (if es.last() is LaserMapRecorded {
            1nat
        } else {
            0nat
        })
    }
}

proof fn lemma_recordings_grow<P>(es: Seq<crate::types::SubscriberEvent<P>>, a: int, b: int)
    requires
        0 <= a <= b <= es.len(),
    ensures
        laser_map_recordings(es.take(a)) <= laser_map_recordings(es.take(b)),
        a < b && es[a] is LaserMapRecorded ==> laser_map_recordings(es.take(a)) + 1
            <= laser_map_recordings(es.take(b)),
    decreases b - a,
{
    if a < b {
        lemma_recordings_grow(es, a, b - 1);
        assert(es.take(b).drop_last() =~= es.take(b - 1));
        assert(es.take(b).last() == es[b - 1]);
    }
}

/// At most one packet ever carries `/Laser_map` points. The `/Laser_map`
/// subscriber records a cloud only for a message its gate processes, and a
/// gate run from `LaserMapGate::new()` over the sizes `sizes` of the
/// messages it sees processes at most one; so at most one cloud is ever
/// recorded. Starting from the state of `GottenData::new()`, and with the
/// `/cloud_registered` subscriber finishing each message before recording
/// the next, no two packets carry `/Laser_map` points.
pub proof fn lemma_at_most_one_laser_map_packet<P>(
    d: GottenData<P>,
    es: Seq<crate::types::SubscriberEvent<P>>,
    sizes: Seq<usize>,
)
    requires
        !d.is_lm,
        !d.should_send_lm,
        counter_stays_in_range(d, es),
        cloud_registered_messages_finished(es),
        sizes.len() <= usize::MAX,
        laser_map_recordings(es) <= crate::types::processed_messages(
            crate::types::LaserMapGate { msg_count: 0, points_num_prev: 0 },
            sizes,
        ),
    ensures
        laser_map_recordings(es) <= 1,
        forall|i: int, j: int|
            0 <= i < j < es.len() && #[trigger] es[i] is CloudRegisteredRecorded
                && #[trigger] es[j] is CloudRegisteredRecorded ==> !(packet_lm_points(
                state_at(d, es, i + 1),
            ).len() > 0 && packet_lm_points(state_at(d, es, j + 1)).len() > 0),
{
    crate::types::lemma_gate_processes_at_most_one(
        crate::types::LaserMapGate { msg_count: 0, points_num_prev: 0 },
        sizes,
    );
    lemma_subscriber_steps(d, es);
    assert forall|i: int, j: int|
        0 <= i < j < es.len() && #[trigger] es[i] is CloudRegisteredRecorded
            && #[trigger] es[j] is CloudRegisteredRecorded implies !(packet_lm_points(
        state_at(d, es, i + 1),
    ).len() > 0 && packet_lm_points(state_at(d, es, j + 1)).len() > 0) by {
        if packet_lm_points(state_at(d, es, i + 1)).len() > 0 && packet_lm_points(
            state_at(d, es, j + 1),
        ).len() > 0 {
            let m2 = choose|m: int| i < m < j && #[trigger] es[m] is LaserMapRecorded;
            assert(es.take(0) =~= Seq::<crate::types::SubscriberEvent<P>>::empty());
            assert(state_at(d, es, i + 1).should_send_lm);
            lemma_send_flag_set_by_laser_map(d, es, 0, i + 1);
            let m1 = choose|m: int| 0 <= m < i + 1 && #[trigger] es[m] is LaserMapRecorded;
            assert(m1 != i);
            lemma_recordings_grow(es, 0, m1);
            lemma_recordings_grow(es, m1, m2);
            lemma_recordings_grow(es, m2, es.len() as int);
            assert(es.take(es.len() as int) =~= es);
            assert(false);
        }
    }
}

} // verus!
