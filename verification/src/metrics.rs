//! Traffic counters.

use vstd::prelude::*;

verus! {

/// Live counters. They wrap.
#[derive(Debug)]
pub struct ClientMetrics {
    /// Messages published, one per logical message.
    pub publishes_sent: u64,
    /// Entries of published batches.
    pub publish_batch_entries: u64,
    /// Publishes that the broker refused.
    pub publish_errors: u64,
    /// Messages handed to subscriptions.
    pub deliveries_received: u64,
    /// Open subscriptions.
    pub active_subscriptions: usize,
    pub acks_sent: u64,
    pub nacks_sent: u64,
    pub manage_requests_sent: u64,
    /// Sessions that came back after a drop.
    pub reconnects: u64,
    /// Last ping round trip; zero before the first.
    pub last_pong_rtt_ns: u64,
    /// Redeliveries recognised and skipped.
    pub dedup_hits: u64,
    /// Acks that found their queue full and were kept for the sweep.
    pub acks_deferred: u64,
    /// Deferred acks confirmed by the broker.
    pub acks_confirmed: u64,
    /// Deferred acks dropped for age.
    pub acks_expired: u64,
    /// Acks recorded in the delivered-set store.
    pub ackstore_records: u64,
    /// Failures of the delivered-set store.
    pub ackstore_errors: u64,
    /// Deferred acks above the broker's high-water mark.
    pub suspicious_seq_over_high: u64,
}

/// The counters at one point in time.
#[derive(Debug, Clone, PartialEq, Eq, Structural)]
pub struct ClientMetricsSnapshot {
    /// Messages published, one per logical message.
    pub publishes_sent: u64,
    /// Entries of published batches.
    pub publish_batch_entries: u64,
    /// Publishes that the broker refused.
    pub publish_errors: u64,
    /// Messages handed to subscriptions.
    pub deliveries_received: u64,
    /// Open subscriptions.
    pub active_subscriptions: usize,
    pub acks_sent: u64,
    pub nacks_sent: u64,
    pub manage_requests_sent: u64,
    /// Sessions that came back after a drop.
    pub reconnects: u64,
    /// Last ping round trip; zero before the first.
    pub last_pong_rtt_ns: u64,
    /// Redeliveries recognised and skipped.
    pub dedup_hits: u64,
    /// Acks that found their queue full and were kept for the sweep.
    pub acks_deferred: u64,
    /// Deferred acks confirmed by the broker.
    pub acks_confirmed: u64,
    /// Deferred acks dropped for age.
    pub acks_expired: u64,
    /// Acks recorded in the delivered-set store.
    pub ackstore_records: u64,
    /// Failures of the delivered-set store.
    pub ackstore_errors: u64,
    /// Deferred acks above the broker's high-water mark.
    pub suspicious_seq_over_high: u64,
}

impl ClientMetrics {
    pub fn new() -> (r: ClientMetrics)
        ensures
            r.publishes_sent == 0,
            r.publish_batch_entries == 0,
            r.publish_errors == 0,
            r.deliveries_received == 0,
            r.active_subscriptions == 0,
            r.acks_sent == 0,
            r.nacks_sent == 0,
            r.manage_requests_sent == 0,
            r.reconnects == 0,
            r.last_pong_rtt_ns == 0,
            r.dedup_hits == 0,
            r.acks_deferred == 0,
            r.acks_confirmed == 0,
            r.acks_expired == 0,
            r.ackstore_records == 0,
            r.ackstore_errors == 0,
            r.suspicious_seq_over_high == 0,
    {
        ClientMetrics {
            publishes_sent: 0,
            publish_batch_entries: 0,
            publish_errors: 0,
            deliveries_received: 0,
            active_subscriptions: 0,
            acks_sent: 0,
            nacks_sent: 0,
            manage_requests_sent: 0,
            reconnects: 0,
            last_pong_rtt_ns: 0,
            dedup_hits: 0,
            acks_deferred: 0,
            acks_confirmed: 0,
            acks_expired: 0,
            ackstore_records: 0,
            ackstore_errors: 0,
            suspicious_seq_over_high: 0,
        }
    }

    /// A copy of every counter.
    pub fn snapshot(&self) -> (r: ClientMetricsSnapshot)
        ensures
            r.publishes_sent == self.publishes_sent,
            r.publish_batch_entries == self.publish_batch_entries,
            r.publish_errors == self.publish_errors,
            r.deliveries_received == self.deliveries_received,
            r.active_subscriptions == self.active_subscriptions,
            r.acks_sent == self.acks_sent,
            r.nacks_sent == self.nacks_sent,
            r.manage_requests_sent == self.manage_requests_sent,
            r.reconnects == self.reconnects,
            r.last_pong_rtt_ns == self.last_pong_rtt_ns,
            r.dedup_hits == self.dedup_hits,
            r.acks_deferred == self.acks_deferred,
            r.acks_confirmed == self.acks_confirmed,
            r.acks_expired == self.acks_expired,
            r.ackstore_records == self.ackstore_records,
            r.ackstore_errors == self.ackstore_errors,
            r.suspicious_seq_over_high == self.suspicious_seq_over_high,
    {
        ClientMetricsSnapshot {
            publishes_sent: self.publishes_sent,
            publish_batch_entries: self.publish_batch_entries,
            publish_errors: self.publish_errors,
            deliveries_received: self.deliveries_received,
            active_subscriptions: self.active_subscriptions,
            acks_sent: self.acks_sent,
            nacks_sent: self.nacks_sent,
            manage_requests_sent: self.manage_requests_sent,
            reconnects: self.reconnects,
            last_pong_rtt_ns: self.last_pong_rtt_ns,
            dedup_hits: self.dedup_hits,
            acks_deferred: self.acks_deferred,
            acks_confirmed: self.acks_confirmed,
            acks_expired: self.acks_expired,
            ackstore_records: self.ackstore_records,
            ackstore_errors: self.ackstore_errors,
            suspicious_seq_over_high: self.suspicious_seq_over_high,
        }
    }
}

impl Default for ClientMetrics {
    fn default() -> (r: ClientMetrics)
        ensures
            r.publishes_sent == 0,
            r.publish_batch_entries == 0,
            r.publish_errors == 0,
            r.deliveries_received == 0,
            r.active_subscriptions == 0,
            r.acks_sent == 0,
            r.nacks_sent == 0,
            r.manage_requests_sent == 0,
            r.reconnects == 0,
            r.last_pong_rtt_ns == 0,
            r.dedup_hits == 0,
            r.acks_deferred == 0,
            r.acks_confirmed == 0,
            r.acks_expired == 0,
            r.ackstore_records == 0,
            r.ackstore_errors == 0,
            r.suspicious_seq_over_high == 0,
    {
        ClientMetrics::new()
    }
}

impl Default for ClientMetricsSnapshot {
    fn default() -> (r: ClientMetricsSnapshot)
        ensures
            r.publishes_sent == 0,
            r.publish_batch_entries == 0,
            r.publish_errors == 0,
            r.deliveries_received == 0,
            r.active_subscriptions == 0,
            r.acks_sent == 0,
            r.nacks_sent == 0,
            r.manage_requests_sent == 0,
            r.reconnects == 0,
            r.last_pong_rtt_ns == 0,
            r.dedup_hits == 0,
            r.acks_deferred == 0,
            r.acks_confirmed == 0,
            r.acks_expired == 0,
            r.ackstore_records == 0,
            r.ackstore_errors == 0,
            r.suspicious_seq_over_high == 0,
    {
        ClientMetricsSnapshot {
            publishes_sent: 0,
            publish_batch_entries: 0,
            publish_errors: 0,
            deliveries_received: 0,
            active_subscriptions: 0,
            acks_sent: 0,
            nacks_sent: 0,
            manage_requests_sent: 0,
            reconnects: 0,
            last_pong_rtt_ns: 0,
            dedup_hits: 0,
            acks_deferred: 0,
            acks_confirmed: 0,
            acks_expired: 0,
            ackstore_records: 0,
            ackstore_errors: 0,
            suspicious_seq_over_high: 0,
        }
    }
}

} // verus!
