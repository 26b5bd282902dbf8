//! From the bytes of a metainfo file to the torrent they describe.

use crate::bencode::{decoding, Bencode, BencodeError};
use crate::metainfo::{torrent_fault, torrent_matches, TorrentError, TorrentInfo};
use vstd::prelude::*;

verus! {

/// Reader of metainfo files.
pub struct TorrentParser;

/// Why the bytes of a file describe no torrent.
#[derive(Debug, PartialEq, Eq)]
pub enum ParseError {
    /// The bytes are no bencoded value.
    BencodeError(BencodeError),
    /// The value is no metainfo.
    TorrentError(TorrentError),
}

impl TorrentParser {
    /// Reads the bytes of a metainfo file: they must be one bencoded value,
    /// and that value a metainfo dictionary.
    pub fn parse(data: &[u8]) -> (r: Result<TorrentInfo, ParseError>)
        ensures
            match decoding(data@) {
                Err(e) => r is Err && r->Err_0 == ParseError::BencodeError(e),
                Ok(value) => match torrent_fault(value) {
                    Some(e) => r is Err && r->Err_0 == ParseError::TorrentError(e),
                    None => r is Ok && torrent_matches(r->Ok_0, value),
                },
            },
    {
        let bencoded_data: Bencode = match Bencode::decode(data) {
            Ok(value) => value,
            Err(e) => {
                return Err(ParseError::BencodeError(e));
            },
        };
        match TorrentInfo::try_from(&bencoded_data) {
            Ok(torrent) => Ok(torrent),
            Err(e) => Err(ParseError::TorrentError(e)),
        }
    }
}

} // verus!
