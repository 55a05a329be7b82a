//! The queue of messages that a gateway polls.
use crate::types::{messages_view, CanisterOutputMessage, OutputMessageV, TimestampNs};
use vstd::prelude::*;

verus! {

/// A registered gateway as the contracts see it.
#[verifier::ext_equal]
pub struct GatewayModel {
    /// The queued messages, oldest first.
    pub queue: Seq<OutputMessageV>,
    /// The times at which the queued messages were added, oldest first.
    pub timestamps: Seq<u64>,
    /// The nonce of the next message queued for the gateway.
    pub nonce: u64,
    /// The number of clients connected through the gateway.
    pub clients_count: u64,
}

/// Whether a message added at `t` is older than `max_age_ms` milliseconds at `now`.
pub open spec fn is_expired(t: u64, max_age_ms: u64, now: u64) -> bool {
    now - t > max_age_ms * 1_000_000
}

/// Counting from position `k`, the position of the first timestamp that is not
/// expired, stopping at `n` and at the end.
pub open spec fn expired_prefix_from(ts: Seq<u64>, k: nat, n: nat, max_age_ms: u64, now: u64) -> nat
    decreases n - k,
{
    if k >= n || k >= ts.len() || !is_expired(ts[k as int], max_age_ms, now) {
        k
    } else {
        expired_prefix_from(ts, k + 1, n, max_age_ms, now)
    }
}

/// How many of the oldest messages, at most `n`, are expired, counted until the
/// first one that is not.
pub open spec fn expired_prefix_len(ts: Seq<u64>, n: nat, max_age_ms: u64, now: u64) -> nat {
    expired_prefix_from(ts, 0, n, max_age_ms, now)
}

pub proof fn lemma_expired_prefix_bounds(ts: Seq<u64>, k: nat, n: nat, max_age_ms: u64, now: u64)
    requires
        k <= n,
        k <= ts.len(),
    ensures
        k <= expired_prefix_from(ts, k, n, max_age_ms, now) <= n,
        expired_prefix_from(ts, k, n, max_age_ms, now) <= ts.len(),
    decreases n - k,
{
    if !(k >= n || k >= ts.len() || !is_expired(ts[k as int], max_age_ms, now)) {
        lemma_expired_prefix_bounds(ts, k + 1, n, max_age_ms, now);
    }
}

/// The timestamps that [`expired_prefix_from`] passes over are expired, and it
/// stops before `n` and the end only at one that is not.
pub proof fn lemma_expired_prefix_expired(ts: Seq<u64>, k: nat, n: nat, max_age_ms: u64, now: u64)
    requires
        k <= n,
        k <= ts.len(),
    ensures
        forall|j: int| k <= j < expired_prefix_from(ts, k, n, max_age_ms, now)
            ==> is_expired(#[trigger] ts[j], max_age_ms, now),
        expired_prefix_from(ts, k, n, max_age_ms, now) < n && expired_prefix_from(ts, k, n, max_age_ms, now) < ts.len()
            ==> !is_expired(ts[expired_prefix_from(ts, k, n, max_age_ms, now) as int], max_age_ms, now),
    decreases n - k,
{
    if !(k >= n || k >= ts.len() || !is_expired(ts[k as int], max_age_ms, now)) {
        lemma_expired_prefix_expired(ts, k + 1, n, max_age_ms, now);
    }
}

impl GatewayModel {
    /// The keys of the queued messages, oldest first.
    pub open spec fn keys(self) -> Seq<Seq<char>> {
        self.queue.map_values(|m: OutputMessageV| m.1)
    }

    /// The queue and its timestamps have the same length.
    pub open spec fn wf(self) -> bool {
        self.queue.len() == self.timestamps.len()
    }

    /// A gateway with no message, nonce 0 and no client.
    pub open spec fn fresh() -> GatewayModel {
        GatewayModel { queue: Seq::empty(), timestamps: Seq::empty(), nonce: 0, clients_count: 0 }
    }
}

/// Contains data about a registered WS Gateway.
#[derive(Debug, PartialEq, Eq)]
pub struct RegisteredGateway {
    /// The queue of the messages that the gateway can poll.
    pub messages_queue: Vec<CanisterOutputMessage>,
    /// The times at which the messages in the queue were added.
    pub messages_to_delete: Vec<TimestampNs>,
    /// The nonce of the next message: the gateway uses it to say from which message
    /// to poll, and clients use it in the key of the certified message.
    pub outgoing_message_nonce: u64,
    /// The number of clients connected to this gateway.
    pub connected_clients_count: u64,
}

impl View for RegisteredGateway {
    type V = GatewayModel;

    open spec fn view(&self) -> GatewayModel {
        GatewayModel {
            queue: messages_view(self.messages_queue@),
            timestamps: self.messages_to_delete@,
            nonce: self.outgoing_message_nonce,
            clients_count: self.connected_clients_count,
        }
    }
}

impl RegisteredGateway {
    /// A gateway with an empty queue, the initial nonce and no client.
    pub fn new() -> (g: Self)
        ensures
            g@ == GatewayModel::fresh(),
    {
        let g = RegisteredGateway {
            messages_queue: Vec::new(),
            messages_to_delete: Vec::new(),
            outgoing_message_nonce: crate::INITIAL_OUTGOING_MESSAGE_NONCE,
            connected_clients_count: 0,
        };
        assert(g@ =~= GatewayModel::fresh());
        g
    }

    /// Increments the outgoing message nonce by 1.
    pub fn increment_nonce(&mut self)
        requires
            old(self).outgoing_message_nonce < u64::MAX,
        ensures
            final(self)@ == (GatewayModel { nonce: (old(self)@.nonce + 1) as u64, ..old(self)@ }),
    {
        self.outgoing_message_nonce = self.outgoing_message_nonce + 1;
    }

    /// Increments the connected clients count by 1.
    pub fn increment_clients_count(&mut self)
        requires
            old(self).connected_clients_count < u64::MAX,
        ensures
            final(self)@ == (GatewayModel { clients_count: (old(self)@.clients_count + 1) as u64, ..old(self)@ }),
    {
        self.connected_clients_count = self.connected_clients_count + 1;
    }

    /// Decrements the connected clients count by 1, stopping at 0, and returns the new count.
    pub fn decrement_clients_count(&mut self) -> (count: u64)
        ensures
            count == (if old(self)@.clients_count == 0 { 0 } else { old(self)@.clients_count - 1 }),
            final(self)@ == (GatewayModel { clients_count: count, ..old(self)@ }),
    {
        self.connected_clients_count = self.connected_clients_count.saturating_sub(1);
        self.connected_clients_count
    }

    /// Adds the message to the queue and its time to the timestamps.
    pub fn add_message_to_queue(&mut self, message: CanisterOutputMessage, message_timestamp: TimestampNs)
        ensures
            final(self)@ == (GatewayModel {
                queue: old(self)@.queue.push(message@),
                timestamps: old(self)@.timestamps.push(message_timestamp),
                ..old(self)@
            }),
    {
        self.messages_queue.push(message);
        self.messages_to_delete.push(message_timestamp);
        assert(messages_view(self.messages_queue@) =~= messages_view(old(self).messages_queue@).push(message@));
    }

    /// Deletes the oldest `n` messages, as long as they are older than
    /// `message_max_age_ms`, and returns the deleted messages' keys.
    pub fn delete_old_messages(&mut self, n: usize, message_max_age_ms: u64, now: TimestampNs) -> (deleted_keys: Vec<String>)
        requires
            old(self)@.wf(),
            forall|i: int| 0 <= i < old(self)@.timestamps.len() ==> old(self)@.timestamps[i] <= now,
        ensures
            ({
                let m = expired_prefix_len(old(self)@.timestamps, n as nat, message_max_age_ms, now) as int;
                &&& deleted_keys@.map_values(|k: String| k@) == old(self)@.keys().take(m)
                &&& final(self)@ == (GatewayModel {
                    queue: old(self)@.queue.skip(m),
                    timestamps: old(self)@.timestamps.skip(m),
                    ..old(self)@
                })
            }),
            final(self)@.wf(),
    {
        let ghost q0 = old(self)@.queue;
        let ghost ts0 = old(self)@.timestamps;
        let mut deleted_keys: Vec<String> = Vec::new();
        let mut i: usize = 0;
        let mut done = false;
        while i < n && !done
            invariant
                i <= n,
                i <= q0.len(),
                q0.len() == ts0.len(),
                forall|j: int| 0 <= j < ts0.len() ==> ts0[j] <= now,
                self@ == (GatewayModel { queue: q0.skip(i as int), timestamps: ts0.skip(i as int), ..old(self)@ }),
                deleted_keys@.map_values(|k: String| k@) == old(self)@.keys().take(i as int),
                expired_prefix_from(ts0, 0, n as nat, message_max_age_ms, now)
                    == expired_prefix_from(ts0, i as nat, n as nat, message_max_age_ms, now),
                done ==> expired_prefix_from(ts0, i as nat, n as nat, message_max_age_ms, now) == i,
                q0 == old(self)@.queue,
                ts0 == old(self)@.timestamps,
            decreases n - i, if done { 0int } else { 1int },
        {
            assert(self.messages_queue@.len() == self@.queue.len());
            if self.messages_to_delete.len() == 0 {
                assert(ts0.skip(i as int).len() == 0);
                done = true;
            } else {
                let t = self.messages_to_delete[0];
                assert(t == ts0[i as int]);
                if (now - t) as u128 > (message_max_age_ms as u128) * 1_000_000u128 {
                    let ghost before = self.messages_queue@;
                    let ghost keys_before = deleted_keys@;
                    let deleted_message = self.messages_queue.remove(0);
                    self.messages_to_delete.remove(0);
                    assert(self.messages_queue@ =~= before.subrange(1, before.len() as int));
                    proof {
                        assert(deleted_message@ == q0.skip(i as int)[0]);
                        assert(deleted_message@ == q0[i as int]);
                    }
                    deleted_keys.push(deleted_message.key);
                    i = i + 1;
                    proof {
                        assert forall|j: int| 0 <= j < self@.queue.len() implies self@.queue[j] == q0.skip(i as int)[j] by {
                            assert(self@.queue[j] == self.messages_queue@[j]@);
                            assert(self.messages_queue@[j] == before[j + 1]);
                            assert(messages_view(before) == q0.skip(i - 1));
                            assert(messages_view(before)[j + 1] == before[j + 1]@);
                        }
                        assert(self@.queue =~= q0.skip(i as int));
                        assert(deleted_keys@ == keys_before.push(deleted_message.key));
                        assert(keys_before.map_values(|k: String| k@).len() == i - 1);
                        assert(deleted_keys@.len() == i);
                        assert forall|j: int| 0 <= j < i implies deleted_keys@.map_values(|k: String| k@)[j] == old(self)@.keys().take(i as int)[j] by {
                            if j < i - 1 {
                                assert(keys_before.map_values(|k: String| k@)[j] == old(self)@.keys().take(i - 1)[j]);
                            } else {
                                assert(deleted_keys@[j] == deleted_message.key);
                                assert(deleted_message@ == q0[j]);
                                assert(old(self)@.keys()[j] == q0[j].1);
                            }
                        }
                        assert(self@.timestamps =~= ts0.skip(i as int));
                        assert(deleted_keys@.map_values(|k: String| k@) =~= old(self)@.keys().take(i as int));
                    }
                } else {
                    done = true;
                }
            }
        }
        proof {
            lemma_expired_prefix_bounds(ts0, 0, n as nat, message_max_age_ms, now);
        }
        deleted_keys
    }

    /// Copies of the keys of the queued messages, oldest first.
    pub fn message_keys(&self) -> (keys: Vec<String>)
        ensures
            keys@.map_values(|k: String| k@) == self@.keys(),
    {
        let mut keys: Vec<String> = Vec::new();
        let mut i: usize = 0;
        while i < self.messages_queue.len()
            invariant
                i <= self.messages_queue@.len(),
                keys@.map_values(|k: String| k@) == self@.keys().take(i as int),
            decreases self.messages_queue@.len() - i,
        {
            let ghost before = keys@;
            keys.push(self.messages_queue[i].key.clone());
            proof {
                assert(self@.keys()[i as int] == self.messages_queue@[i as int].key@);
                assert(keys@.map_values(|k: String| k@) =~= before.map_values(|k: String| k@).push(self@.keys()[i as int]));
                assert(self@.keys().take(i + 1) =~= self@.keys().take(i as int).push(self@.keys()[i as int]));
            }
            i = i + 1;
        }
        assert(self@.keys().take(i as int) =~= self@.keys());
        keys
    }
}

} // verus!
