use vstd::prelude::*;

verus! {

/// Why a peer session, the tracker exchange or the whole download ended.
#[derive(Debug, Copy, Clone, PartialEq, Eq, Structural)]
pub enum Error {
    /// A frame from a peer could not be decoded.
    MalformedFrame,
    /// The peer's handshake is not the one of this protocol and torrent.
    ProtocolMismatch,
    /// The peer sent a well-formed message that the protocol forbids here.
    ProtocolViolation,
    /// The connection to the peer was lost.
    PeerDisconnected,
    /// The peer sent nothing for too long.
    PeerTimeout,
    /// An output file could not be written.
    WriteFailed,
    /// Every peer session ended before the payload was complete.
    DownloadIncomplete,
    /// The tracker's answer is too short to hold what it announces.
    TrackerResponse,
    /// The tracker knows no peer that has the payload.
    NoPeers,
}

impl Error {
    /// The cause in one line, for a report to the user.
    pub open spec fn cause(self) -> Seq<char> {
        match self {
            Error::MalformedFrame => "malformed frame from peer"@,
            Error::ProtocolMismatch => "peer does not speak this protocol for this torrent"@,
            Error::ProtocolViolation => "peer violated the protocol"@,
            Error::PeerDisconnected => "peer connection closed"@,
            Error::PeerTimeout => "peer timed out"@,
            Error::WriteFailed => "could not write an output file"@,
            Error::DownloadIncomplete => "all peers were exhausted before the download was complete"@,
            Error::TrackerResponse => "not able to announce to tracker"@,
            Error::NoPeers => "no peers at the moment"@,
        }
    }

    /// The cause in one line, for a report to the user.
    pub fn describe(&self) -> (text: String)
        ensures
            text@ == self.cause(),
    {
        match self {
            Error::MalformedFrame => "malformed frame from peer".to_owned(),
            Error::ProtocolMismatch => "peer does not speak this protocol for this torrent".to_owned(),
            Error::ProtocolViolation => "peer violated the protocol".to_owned(),
            Error::PeerDisconnected => "peer connection closed".to_owned(),
            Error::PeerTimeout => "peer timed out".to_owned(),
            Error::WriteFailed => "could not write an output file".to_owned(),
            Error::DownloadIncomplete => "all peers were exhausted before the download was complete".to_owned(),
            Error::TrackerResponse => "not able to announce to tracker".to_owned(),
            Error::NoPeers => "no peers at the moment".to_owned(),
        }
    }
}

} // verus!
