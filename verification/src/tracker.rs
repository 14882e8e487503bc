use crate::errors::Error;
use crate::utils::{AnnounceResp, Peer};
use url::Url;
use vstd::prelude::*;

verus! {

/// The UDP port on which this client listens.
pub const PORT: i16 = 6682;

/// What the `url` crate reads in a string, as far as this client looks at
/// it: nothing where the string is no absolute URL, else the host that the
/// URL has and the port that it names, each if it is there.
pub uninterp spec fn url_host_port(input: Seq<char>) -> Option<(Option<Seq<char>>, Option<u16>)>;

/// The characters of what was read in a URL.
pub open spec fn parts_view(parts: Option<(Option<String>, Option<u16>)>) -> Option<
    (Option<Seq<char>>, Option<u16>),
> {
    match parts {
        Some((Some(host), port)) => Some((Some(host@), port)),
        Some((None, port)) => Some((None, port)),
        None => None,
    }
}

/// Parses a string with `Url::parse` and reads the result with
/// `Url::host_str` and `Url::port`. The three depend on the string alone, so
/// what they give has a name; nothing is stated of which strings are URLs,
/// nor of which host and port one has.
#[verifier::external_body]
fn read_host_port(input: &str) -> (parts: Option<(Option<String>, Option<u16>)>)
    ensures
        parts_view(parts) == url_host_port(input@),
{
    match Url::parse(input) {
        Ok(url) => Some((url.host_str().map(str::to_owned), url.port())),
        Err(_) => None,
    }
}

/// The address that the parts of a URL give: host and port, where the
/// string was a URL and has both.
pub open spec fn endpoint(parts: Option<(Option<Seq<char>>, Option<u16>)>) -> Option<
    (Seq<char>, u16),
> {
    match parts {
        Some((Some(host), Some(port))) => Some((host, port)),
        _ => None,
    }
}

/// The tracker's address from the host and the port of its URL: both must
/// be there.
pub fn endpoint_of(host: Option<&str>, port: Option<u16>) -> (r: Option<(String, u16)>)
    ensures
        r is Some <==> host is Some && port is Some,
        r matches Some(e) ==> e.0@ == host->0@ && e.1 == port->0,
{
    match (host, port) {
        (Some(h), Some(p)) => Some((h.to_owned(), p)),
        _ => None,
    }
}

/// The tracker's address from its announce URL: the host and the port that
/// the URL names. `None` where the string is no URL, or a URL without a host
/// or without a port.
pub fn tracker_endpoint(announce: &str) -> (r: Option<(String, u16)>)
    ensures
        r is Some <==> endpoint(url_host_port(announce@)) is Some,
        r matches Some(e) ==> (e.0@, e.1) == endpoint(url_host_port(announce@))->0,
{
    match read_host_port(announce) {
        Some((host, port)) => match &host {
            Some(h) => endpoint_of(Some(h.as_str()), port),
            None => endpoint_of(None, port),
        },
        None => None,
    }
}

/// The peers of an announce answer: there are none to be had while the
/// tracker counts no seeder.
pub fn get_torrent_peers(announce_resp: AnnounceResp) -> (r: Result<Vec<Peer>, Error>)
    ensures
        announce_resp.seeders == 0 ==> r == Err::<Vec<Peer>, Error>(Error::NoPeers),
        announce_resp.seeders != 0 ==> r == Ok::<Vec<Peer>, Error>(announce_resp.peers),
{
    if announce_resp.seeders == 0 {
        Err(Error::NoPeers)
    } else {
        Ok(announce_resp.peers)
    }
}

} // verus!
