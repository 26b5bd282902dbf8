//! What the command-line client and the daemon say to each other, and what
//! the daemon says to the sessions it runs.

use vstd::prelude::*;

verus! {

/// A command for the daemon.
#[derive(Debug, Clone)]
pub enum DaemonMsg {
    /// Download the torrent of this metainfo file.
    AddTorrent(String),
}

/// The daemon's answer to a command.
#[derive(Debug, Clone)]
pub enum DaemonResponse {
    /// The command was carried out; the text says what was done.
    Success(String),
}

/// A command for the session of one torrent.
#[derive(Debug, Clone, Copy, PartialEq, Eq, Structural)]
pub enum TorrentSessionMsg {
    Pause,
    Resume,
}

/// Why a command for a session failed.
#[derive(Debug, Clone, Copy, PartialEq, Eq, Structural)]
pub enum TorrentSessionError {
    Example,
}

/// The size of a frame as it is announced in front of the frame: four bytes,
/// most significant first.
pub fn frame_prefix(len: u32) -> (prefix: [u8; 4])
    ensures
        prefix@ == crate::buffer::be_bytes(len),
{
    let prefix: [u8; 4] = [
        (len / 0x100_0000) as u8,
        (len / 0x1_0000 % 0x100) as u8,
        (len / 0x100 % 0x100) as u8,
        (len % 0x100) as u8,
    ];
    assert(prefix@ =~= crate::buffer::be_bytes(len));
    prefix
}

/// The size that the four bytes in front of a frame announce. It is the
/// size that `frame_prefix` wrote there.
pub fn frame_size(prefix: [u8; 4]) -> (len: u32)
    ensures
        len == crate::buffer::be_value(prefix@[0], prefix@[1], prefix@[2], prefix@[3]),
        forall|n: u32| prefix@ == crate::buffer::be_bytes(n) ==> len == n,
{
    prefix[0] as u32 * 0x100_0000 + prefix[1] as u32 * 0x1_0000 + prefix[2] as u32 * 0x100
        + prefix[3] as u32
}

} // verus!
