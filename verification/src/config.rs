//! Settings of the daemon and their defaults.

use vstd::prelude::*;

verus! {

/// What the daemon is configured with.
#[derive(Debug, Clone)]
pub struct Settings {
    /// Port on which peers may connect.
    pub listen_port: u16,
    /// Directory into which downloads are saved.
    pub save_directory: String,
    /// Path of the socket on which the daemon takes commands.
    pub socket_path: String,
    /// Most peers connected for one torrent.
    pub max_peer_connections_per_torrent: usize,
}

/// The port on which peers may connect, unless configured.
pub fn default_listen_port() -> (port: u16)
    ensures
        port == 6881,
{
    6881
}

/// The directory into which downloads are saved, unless configured.
pub fn default_save_directory() -> (dir: String)
    ensures
        dir@ == "/tmp/bittorrent_downloads"@,
{
    "/tmp/bittorrent_downloads".to_owned()
}

/// The path of the command socket, unless configured.
pub fn default_socket_path() -> (path: String)
    ensures
        path@ == "/tmp/bittorent-protocol.tmp"@,
{
    "/tmp/bittorent-protocol.tmp".to_owned()
}

/// The most peers connected for one torrent, unless configured.
pub fn default_max_peers() -> (n: usize)
    ensures
        n == 50,
{
    50
}

impl Settings {
    /// The settings in which nothing is configured: every field at its default.
    pub fn defaults() -> (settings: Self)
        ensures
            settings.listen_port == 6881,
            settings.save_directory@ == "/tmp/bittorrent_downloads"@,
            settings.socket_path@ == "/tmp/bittorent-protocol.tmp"@,
            settings.max_peer_connections_per_torrent == 50,
    {
        Settings {
            listen_port: default_listen_port(),
            save_directory: default_save_directory(),
            socket_path: default_socket_path(),
            max_peer_connections_per_torrent: default_max_peers(),
        }
    }
}

} // verus!
