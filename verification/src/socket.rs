//! What the library keeps of a UDP socket: its error kinds and its counters. The socket
//! itself does I/O and lives with the program.
use vstd::prelude::*;

verus! {

/// An I/O error, carried through unread.
#[verifier::external_type_specification]
#[verifier::external_body]
pub struct ExIoError(std::io::Error);

/// Why a socket operation failed.
#[derive(Debug)]
pub enum SocketError {
    Io(std::io::Error),
    InvalidAddress,
    SocketClosed,
    /// Nothing to receive right now.
    WouldBlock,
}

/// Counters of a socket; times are in milliseconds.
#[derive(Debug, Clone, Copy, PartialEq, Eq, Structural)]
pub struct SocketStats {
    pub packets_sent: u64,
    pub packets_received: u64,
    pub bytes_sent: u64,
    pub bytes_received: u64,
    pub last_receive_time: Option<u64>,
    pub last_send_time: Option<u64>,
}

impl Default for SocketStats {
    /// Zero counters, nothing sent or received yet.
    fn default() -> (r: Self)
        ensures
            r == (SocketStats {
                packets_sent: 0,
                packets_received: 0,
                bytes_sent: 0,
                bytes_received: 0,
                last_receive_time: None,
                last_send_time: None,
            }),
    {
        SocketStats {
            packets_sent: 0,
            packets_received: 0,
            bytes_sent: 0,
            bytes_received: 0,
            last_receive_time: None,
            last_send_time: None,
        }
    }
}

impl SocketStats {
    /// Counts a datagram of `bytes` bytes sent at `now`.
    pub fn record_send(&mut self, bytes: usize, now: u64)
        requires
            old(self).packets_sent < u64::MAX,
            old(self).bytes_sent + bytes <= u64::MAX,
        ensures
            *final(self) == (SocketStats {
                packets_sent: (old(self).packets_sent + 1) as u64,
                bytes_sent: (old(self).bytes_sent + bytes) as u64,
                last_send_time: Some(now),
                ..*old(self)
            }),
    {
        self.bytes_sent = self.bytes_sent + bytes as u64;
        self.packets_sent = self.packets_sent + 1;
        self.last_send_time = Some(now);
    }

    /// Counts a datagram of `bytes` bytes received at `now`.
    pub fn record_receive(&mut self, bytes: usize, now: u64)
        requires
            old(self).packets_received < u64::MAX,
            old(self).bytes_received + bytes <= u64::MAX,
        ensures
            *final(self) == (SocketStats {
                packets_received: (old(self).packets_received + 1) as u64,
                bytes_received: (old(self).bytes_received + bytes) as u64,
                last_receive_time: Some(now),
                ..*old(self)
            }),
    {
        self.bytes_received = self.bytes_received + bytes as u64;
        self.packets_received = self.packets_received + 1;
        self.last_receive_time = Some(now);
    }
}

} // verus!
