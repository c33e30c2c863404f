//! The traffic counts a socket keeps: bytes and packets, each way, wrapping.
use vstd::prelude::*;

verus! {

/// Bytes and packets sent and received, each count wrapping at `2^64`.
pub struct IoCounters {
    bytes_tx: u64,
    bytes_rx: u64,
    pkt_tx_count: u64,
    pkt_rx_count: u64,
}

impl IoCounters {
    /// Bytes sent.
    pub closed spec fn sent_bytes(&self) -> u64 {
        self.bytes_tx
    }

    /// Bytes received.
    pub closed spec fn received_bytes(&self) -> u64 {
        self.bytes_rx
    }

    /// Packets sent.
    pub closed spec fn sent_packets(&self) -> u64 {
        self.pkt_tx_count
    }

    /// Packets received.
    pub closed spec fn received_packets(&self) -> u64 {
        self.pkt_rx_count
    }

    /// Nothing counted yet.
    pub fn new() -> (r: Self)
        ensures
            r.sent_bytes() == 0 && r.received_bytes() == 0,
            r.sent_packets() == 0 && r.received_packets() == 0,
    {
        IoCounters { bytes_tx: 0, bytes_rx: 0, pkt_tx_count: 0, pkt_rx_count: 0 }
    }

    /// Counts one packet of `len` bytes sent.
    pub fn record_sent(&mut self, len: usize)
        ensures
            final(self).sent_bytes() == (old(self).sent_bytes() + len) % 0x1_0000_0000_0000_0000,
            final(self).sent_packets() == (old(self).sent_packets() + 1) % 0x1_0000_0000_0000_0000,
            final(self).received_bytes() == old(self).received_bytes(),
            final(self).received_packets() == old(self).received_packets(),
    {
        self.bytes_tx = self.bytes_tx.wrapping_add(len as u64);
        self.pkt_tx_count = self.pkt_tx_count.wrapping_add(1);
    }

    /// Counts one packet of `len` bytes received.
    pub fn record_received(&mut self, len: usize)
        ensures
            final(self).received_bytes() == (old(self).received_bytes() + len) % 0x1_0000_0000_0000_0000,
            final(self).received_packets() == (old(self).received_packets() + 1) % 0x1_0000_0000_0000_0000,
            final(self).sent_bytes() == old(self).sent_bytes(),
            final(self).sent_packets() == old(self).sent_packets(),
    {
        self.bytes_rx = self.bytes_rx.wrapping_add(len as u64);
        self.pkt_rx_count = self.pkt_rx_count.wrapping_add(1);
    }

    /// Bytes received.
    pub fn bytes_rx(&self) -> (r: u64)
        ensures
            r == self.received_bytes(),
    {
        self.bytes_rx
    }

    /// Bytes sent.
    pub fn bytes_tx(&self) -> (r: u64)
        ensures
            r == self.sent_bytes(),
    {
        self.bytes_tx
    }

    /// Packets received.
    pub fn pkt_rx_count(&self) -> (r: u64)
        ensures
            r == self.received_packets(),
    {
        self.pkt_rx_count
    }

    /// Packets sent.
    pub fn pkt_tx_count(&self) -> (r: u64)
        ensures
            r == self.sent_packets(),
    {
        self.pkt_tx_count
    }
}

} // verus!
