//! Tracker communication.
//!
//! A tracker tells us which peers are sharing a torrent. Both transports a `.torrent` may
//! reference are supported:
//!
//! * `http://` / `https://`: bencoded request/response ([`http`]).
//! * `udp://`: binary connect+announce protocol, BEP 15 ([`udp`]).
//!
//! [`transport`] tells from the announce URL which one to use.

pub mod address;
pub mod http;
pub mod search;
pub mod udp;

use vstd::prelude::*;
use vstd::utf8::encode_utf8;
use crate::bencode::{
    bencode_parse, entries_view, lemma_list_view, list_view, lookup, parse, Bencode, BencodeView,
};
use crate::bigendian::{
    be_bytes, be_value, lemma_be_limits, lemma_be_value_of_bytes, read_u128, read_u16, read_u32,
};
use crate::decode::Entries;
use crate::error::{outcome, BencodeError, BencodeFault, Error, Fault, Result};
use crate::keyed::entry_map;
use crate::metainfo::InfoHash;
use crate::peer::PeerId;
use crate::text::{decimal, lossy, lossy_text, push_decimal};
use crate::tracker::address::{ip_of, parse_ip, Ip};

verus! {

/// Width in bytes of one compact IPv4 peer entry: 4 (addr) + 2 (port).
pub const COMPACT_PEER_V4_LEN: usize = 6;

/// Width in bytes of one compact IPv6 peer entry: 16 (addr) + 2 (port).
pub const COMPACT_PEER_V6_LEN: usize = 18;

/// The announce "event", reported to the tracker to mark download lifecycle transitions. `Routine`
/// means a periodic re-announce (no special event).
#[derive(Debug, Clone, Copy, PartialEq, Eq, Structural)]
pub enum Event {
    /// First announce for this torrent in this session.
    Started,
    /// Graceful shutdown / leaving the swarm.
    Stopped,
    /// We just finished downloading (sent once).
    Completed,
    /// A routine periodic re-announce.
    Routine,
}

impl Event {
    /// The text form used in HTTP query strings.
    pub open spec fn http_text(self) -> Seq<char> {
        match self {
            Event::Started => "started"@,
            Event::Stopped => "stopped"@,
            Event::Completed => "completed"@,
            Event::Routine => ""@,
        }
    }

    /// The numeric code used in the UDP announce packet.
    pub open spec fn udp_code(self) -> u32 {
        match self {
            Event::Routine => 0,
            Event::Completed => 1,
            Event::Started => 2,
            Event::Stopped => 3,
        }
    }

    /// The string form used in HTTP query strings (empty = omit the param).
    pub fn as_http_str(self) -> (text: &'static str)
        ensures
            text@ == self.http_text(),
    {
        match self {
            Event::Started => "started",
            Event::Stopped => "stopped",
            Event::Completed => "completed",
            Event::Routine => "",
        }
    }

    /// The numeric code used in the UDP announce packet (BEP 15).
    pub fn as_udp_code(self) -> (code: u32)
        ensures
            code == self.udp_code(),
    {
        match self {
            Event::Routine => 0,
            Event::Completed => 1,
            Event::Started => 2,
            Event::Stopped => 3,
        }
    }
}

/// Everything needed to issue an announce, independent of transport.
#[derive(Debug, Clone, Copy)]
pub struct AnnounceParams {
    /// Identifies the torrent.
    pub info_hash: InfoHash,
    /// Identifies us in the swarm.
    pub peer_id: PeerId,
    /// TCP port we listen on for incoming peer connections.
    pub port: u16,
    /// Total bytes uploaded so far this session.
    pub uploaded: u64,
    /// Total bytes downloaded so far this session.
    pub downloaded: u64,
    /// Bytes still needed to complete the torrent.
    pub left: u64,
    /// Lifecycle event for this announce.
    pub event: Event,
    /// Request the compact peer list (always preferred; we parse both forms).
    pub compact: bool,
    /// How many peers to request; `None` lets the tracker decide.
    pub numwant: Option<u32>,
}

/// The socket address of a peer.
#[derive(Debug, Clone, Copy, PartialEq, Eq, Hash, Structural)]
pub enum PeerAddr {
    V4 { ip: u32, port: u16 },
    V6 { ip6: u128, port: u16 },
}

/// A transport-agnostic parsed tracker response.
#[derive(Debug, PartialEq, Eq)]
pub struct AnnounceResponse {
    /// Seconds the client should wait before re-announcing.
    pub interval: u64,
    /// Peer socket addresses to attempt connections to.
    pub peers: Vec<PeerAddr>,
    /// Number of seeders, if the tracker reported it.
    pub seeders: Option<u32>,
    /// Number of leechers, if the tracker reported it.
    pub leechers: Option<u32>,
}

/// An [`AnnounceResponse`] over plain values.
#[verifier::ext_equal]
pub struct ResponseView {
    pub interval: u64,
    pub peers: Seq<PeerAddr>,
    pub seeders: Option<u32>,
    pub leechers: Option<u32>,
}

impl View for AnnounceResponse {
    type V = ResponseView;

    open spec fn view(&self) -> ResponseView {
        ResponseView {
            interval: self.interval,
            peers: self.peers@,
            seeders: self.seeders,
            leechers: self.leechers,
        }
    }
}

impl Clone for AnnounceResponse {
    fn clone(&self) -> (copy: Self)
        ensures
            copy@ == self@,
    {
        let peers: Vec<PeerAddr> = self.peers.clone();
        assert(peers@ =~= self.peers@);
        AnnounceResponse {
            interval: self.interval,
            peers,
            seeders: self.seeders,
            leechers: self.leechers,
        }
    }
}

/// The peer that six bytes denote.
pub open spec fn compact_v4(bytes: Seq<u8>) -> PeerAddr {
    PeerAddr::V4 {
        ip: be_value(bytes.subrange(0, 4)) as u32,
        port: be_value(bytes.subrange(4, 6)) as u16,
    }
}

/// The peer that eighteen bytes denote.
pub open spec fn compact_v6(bytes: Seq<u8>) -> PeerAddr {
    PeerAddr::V6 {
        ip6: be_value(bytes.subrange(0, 16)) as u128,
        port: be_value(bytes.subrange(16, 18)) as u16,
    }
}

/// The peers of a flat blob of six-byte entries.
pub open spec fn compact_peers_v4(bytes: Seq<u8>) -> std::result::Result<
    Seq<PeerAddr>,
    Fault,
> {
    if bytes.len() % 6 != 0 {
        Err(Fault::InvalidPeersData(bytes.len(), 6))
    } else {
        Ok(Seq::new(bytes.len() / 6, |i: int| compact_v4(bytes.subrange(6 * i, 6 * i + 6))))
    }
}

/// The peers of a flat blob of eighteen-byte entries.
pub open spec fn compact_peers_v6(bytes: Seq<u8>) -> std::result::Result<
    Seq<PeerAddr>,
    Fault,
> {
    if bytes.len() % 18 != 0 {
        Err(Fault::InvalidPeersData(bytes.len(), 18))
    } else {
        Ok(Seq::new(bytes.len() / 18, |i: int| compact_v6(bytes.subrange(18 * i, 18 * i + 18))))
    }
}

/// The value under `key`, if there is one.
pub open spec fn value_under(map: Entries, key: Seq<char>) -> Option<BencodeView> {
    if map.dom().contains(encode_utf8(key)) {
        Some(map[encode_utf8(key)])
    } else {
        None
    }
}

/// The number under `key`, if there is one.
pub open spec fn int_under(map: Entries, key: Seq<char>) -> Option<i64> {
    match value_under(map, key) {
        Some(BencodeView::Int(n)) => Some(n),
        _ => None,
    }
}

/// The byte string under `key`, if there is one.
pub open spec fn bytes_under(map: Entries, key: Seq<char>) -> Option<Seq<u8>> {
    match value_under(map, key) {
        Some(BencodeView::Str(bytes)) => Some(bytes),
        _ => None,
    }
}

/// The peer at an IP address given as text, by the low 16 bits of its port; `None` where the text
/// is no IP address.
pub open spec fn literal_peer(ip: Seq<char>, port: i64) -> Option<PeerAddr> {
    match ip_of(encode_utf8(ip)) {
        Some(Ip::V4(ip)) => Some(PeerAddr::V4 { ip, port: port as u16 }),
        Some(Ip::V6(ip6)) => Some(PeerAddr::V6 { ip6, port: port as u16 }),
        None => None,
    }
}

/// The peer that an entry of the dictionary model denotes; `None` where the entry is no
/// dictionary with a byte string `ip` and a number `port`, or the `ip` is no IP address.
pub open spec fn dict_peer(value: BencodeView) -> Option<PeerAddr> {
    match value {
        BencodeView::Dict(map) => match (bytes_under(map, "ip"@), int_under(map, "port"@)) {
            (Some(ip), Some(port)) => literal_peer(lossy_text(ip), port),
            _ => None,
        },
        _ => None,
    }
}

/// The peers of the dictionary model; entries that denote none are passed over.
pub open spec fn dict_peers(items: Seq<BencodeView>) -> Seq<PeerAddr>
    decreases items.len(),
{
    if items.len() == 0 {
        Seq::empty()
    } else {
        let before = dict_peers(items.drop_last());
        match dict_peer(items.last()) {
            Some(peer) => before.push(peer),
            None => before,
        }
    }
}

/// A count that must not be negative, by its low 32 bits.
pub open spec fn count_of(n: i64) -> u32 {
    if n < 0 {
        0
    } else {
        (n % 0x1_0000_0000) as u32
    }
}

/// The count under `key`, if there is one.
pub open spec fn count_under(map: Entries, key: Seq<char>) -> Option<u32> {
    match int_under(map, key) {
        Some(n) => Some(count_of(n)),
        None => None,
    }
}

/// The peers under `peers`, in whichever of the two forms they come.
pub open spec fn main_peers(map: Entries) -> std::result::Result<Seq<PeerAddr>, Fault> {
    match value_under(map, "peers"@) {
        Some(BencodeView::Str(bytes)) => compact_peers_v4(bytes),
        Some(BencodeView::List(items)) => Ok(dict_peers(items)),
        _ => Ok(Seq::empty()),
    }
}

/// The peers under `peers6`.
pub open spec fn more_peers(map: Entries) -> std::result::Result<Seq<PeerAddr>, Fault> {
    match bytes_under(map, "peers6"@) {
        Some(bytes) => compact_peers_v6(bytes),
        None => Ok(Seq::empty()),
    }
}

/// The response that a bencoded value holds, or what the tracker complains of.
pub open spec fn response_of(value: BencodeView) -> std::result::Result<ResponseView, Fault> {
    match value {
        BencodeView::Dict(map) => match bytes_under(map, "failure reason"@) {
            Some(reason) => Err(Fault::TrackerFailure(lossy_text(reason))),
            None => match main_peers(map) {
                Err(fault) => Err(fault),
                Ok(main) => match more_peers(map) {
                    Err(fault) => Err(fault),
                    Ok(more) => Ok(
                        ResponseView {
                            interval: match int_under(map, "interval"@) {
                                Some(n) => if n < 0 {
                                    0
                                } else {
                                    n as u64
                                },
                                None => 0,
                            },
                            peers: main + more,
                            seeders: count_under(map, "complete"@),
                            leechers: count_under(map, "incomplete"@),
                        },
                    ),
                },
            },
        },
        _ => Err(Fault::TrackerFailure("response was not a bencode dictionary"@)),
    }
}

/// The response in the body of an HTTP reply, where `parsed` is the value at its front.
pub open spec fn http_response(parsed: Option<BencodeView>) -> std::result::Result<
    ResponseView,
    Fault,
> {
    match parsed {
        None => Err(Fault::BencodeDecode(BencodeFault::Syntax)),
        Some(value) => response_of(value),
    }
}

/// What a list of peers gives, over plain values.
pub open spec fn peers_outcome(result: Result<Vec<PeerAddr>>) -> std::result::Result<
    Seq<PeerAddr>,
    Fault,
> {
    match result {
        Ok(peers) => Ok(peers@),
        Err(error) => Err(error@),
    }
}

/// Parse a flat compact peer blob (`n * COMPACT_PEER_V4_LEN` bytes).
pub fn parse_compact_peers_v4(bytes: &[u8]) -> (result: Result<Vec<PeerAddr>>)
    ensures
        peers_outcome(result) == compact_peers_v4(bytes@),
{
    if bytes.len() % COMPACT_PEER_V4_LEN != 0 {
        return Err(Error::InvalidPeersData(bytes.len(), COMPACT_PEER_V4_LEN));
    }
    let n: usize = bytes.len() / COMPACT_PEER_V4_LEN;
    let mut peers: Vec<PeerAddr> = Vec::new();
    let mut i: usize = 0;
    while i < n
        invariant
            i <= n,
            6 * n == bytes.len(),
            peers@.len() == i,
            forall|k: int|
                0 <= k < i ==> #[trigger] peers@[k] == compact_v4(
                    bytes@.subrange(6 * k, 6 * k + 6),
                ),
        decreases n - i,
    {
        let ip: u32 = read_u32(bytes, 6 * i);
        let port: u16 = read_u16(bytes, 6 * i + 4);
        peers.push(PeerAddr::V4 { ip, port });
        proof {
            let chunk = bytes@.subrange(6 * i as int, 6 * i + 6);
            assert(chunk.subrange(0, 4) =~= bytes@.subrange(6 * i as int, 6 * i + 4));
            assert(chunk.subrange(4, 6) =~= bytes@.subrange(6 * i + 4, 6 * i + 6));
        }
        i += 1;
    }
    assert(peers@ =~= compact_peers_v4(bytes@)->Ok_0);
    Ok(peers)
}

/// Parse a flat compact IPv6 peer blob (`n * COMPACT_PEER_V6_LEN` bytes).
pub fn parse_compact_peers_v6(bytes: &[u8]) -> (result: Result<Vec<PeerAddr>>)
    ensures
        peers_outcome(result) == compact_peers_v6(bytes@),
{
    if bytes.len() % COMPACT_PEER_V6_LEN != 0 {
        return Err(Error::InvalidPeersData(bytes.len(), COMPACT_PEER_V6_LEN));
    }
    let n: usize = bytes.len() / COMPACT_PEER_V6_LEN;
    let mut peers: Vec<PeerAddr> = Vec::new();
    let mut i: usize = 0;
    while i < n
        invariant
            i <= n,
            18 * n == bytes.len(),
            peers@.len() == i,
            forall|k: int|
                0 <= k < i ==> #[trigger] peers@[k] == compact_v6(
                    bytes@.subrange(18 * k, 18 * k + 18),
                ),
        decreases n - i,
    {
        let ip6: u128 = read_u128(bytes, 18 * i);
        let port: u16 = read_u16(bytes, 18 * i + 16);
        peers.push(PeerAddr::V6 { ip6, port });
        proof {
            let chunk = bytes@.subrange(18 * i as int, 18 * i + 18);
            assert(chunk.subrange(0, 16) =~= bytes@.subrange(18 * i as int, 18 * i + 16));
            assert(chunk.subrange(16, 18) =~= bytes@.subrange(18 * i + 16, 18 * i + 18));
        }
        i += 1;
    }
    assert(peers@ =~= compact_peers_v6(bytes@)->Ok_0);
    Ok(peers)
}

/// Parse the non-compact (dictionary-model) peer list: a list of dicts each with `ip` (a string)
/// and `port` (an integer).
pub fn parse_peer_dicts(list: &Vec<Bencode>) -> (peers: Vec<PeerAddr>)
    ensures
        peers@ == dict_peers(list_view(list@)),
{
    let ghost views = list_view(list@);
    proof {
        lemma_list_view(list@);
    }
    let mut peers: Vec<PeerAddr> = Vec::new();
    let mut i: usize = 0;
    assert(peers@ =~= dict_peers(views.take(0)));
    while i < list.len()
        invariant
            i <= list@.len(),
            views.len() == list@.len(),
            forall|k: int| 0 <= k < views.len() ==> views[k] == #[trigger] list@[k].view(),
            peers@ == dict_peers(views.take(i as int)),
        decreases list@.len() - i,
    {
        assert(views.take(i + 1).drop_last() =~= views.take(i as int));
        assert(views.take(i + 1).last() == list@[i as int].view());
        match &list[i] {
            Bencode::Dict(entries) => match (lookup(entries, "ip"), lookup(entries, "port")) {
                (Some(Bencode::Str(ip)), Some(Bencode::Int(port))) => {
                    // `ip` may be a hostname or a literal address; only keep parseable IPs.
                    match parse_ip(lossy(ip.as_slice()).as_str()) {
                        Some(Ip::V4(ip)) => peers.push(PeerAddr::V4 { ip, port: *port as u16 }),
                        Some(Ip::V6(ip6)) => peers.push(PeerAddr::V6 { ip6, port: *port as u16 }),
                        None => {},
                    }
                },
                _ => {},
            },
            _ => {},
        }
        i += 1;
    }
    assert(views.take(i as int) =~= views);
    peers
}

/// Look up an integer field in a bencode dictionary.
pub fn dict_int(entries: &Vec<(Vec<u8>, Bencode)>, key: &str) -> (number: Option<i64>)
    ensures
        number == int_under(entry_map(entries_view(entries@)), key@),
{
    match lookup(entries, key) {
        Some(Bencode::Int(n)) => Some(*n),
        _ => None,
    }
}

/// A count that must not be negative.
fn dict_count(entries: &Vec<(Vec<u8>, Bencode)>, key: &str) -> (count: Option<u32>)
    ensures
        count == count_under(entry_map(entries_view(entries@)), key@),
{
    match dict_int(entries, key) {
        Some(n) => {
            if n < 0 {
                Some(0)
            } else {
                let low: u64 = n as u64 % 0x1_0000_0000;
                Some(low as u32)
            }
        },
        None => None,
    }
}

/// Parse a bencoded HTTP tracker response body into an [`AnnounceResponse`].
pub fn parse_http_response(body: &[u8]) -> (result: Result<AnnounceResponse>)
    ensures
        outcome(result) == http_response(bencode_parse(body@)),
{
    match parse(body) {
        Err(text) => Err(Error::BencodeDecode(BencodeError::Syntax(text))),
        Ok(value) => read_response(&value),
    }
}

/// The response that a bencoded value holds.
pub fn read_response(value: &Bencode) -> (result: Result<AnnounceResponse>)
    ensures
        outcome(result) == response_of(value.view()),
{
    let entries: &Vec<(Vec<u8>, Bencode)> = match value {
        Bencode::Dict(entries) => entries,
        _ => return Err(
            Error::TrackerFailure("response was not a bencode dictionary".to_owned()),
        ),
    };
    let ghost map = entry_map(entries_view(entries@));
    match lookup(entries, "failure reason") {
        Some(Bencode::Str(reason)) => return Err(Error::TrackerFailure(lossy(reason.as_slice()))),
        _ => {},
    }
    let interval: u64 = match dict_int(entries, "interval") {
        Some(n) => {
            if n < 0 {
                0
            } else {
                n as u64
            }
        },
        None => 0,
    };
    let seeders: Option<u32> = dict_count(entries, "complete");
    let leechers: Option<u32> = dict_count(entries, "incomplete");
    let mut peers: Vec<PeerAddr> = match lookup(entries, "peers") {
        Some(Bencode::Str(bytes)) => match parse_compact_peers_v4(bytes.as_slice()) {
            Err(error) => return Err(error),
            Ok(peers) => peers,
        },
        Some(Bencode::List(list)) => parse_peer_dicts(list),
        _ => {
            let none: Vec<PeerAddr> = Vec::new();
            assert(none@ =~= Seq::<PeerAddr>::empty());
            none
        },
    };
    let ghost main = peers@;
    let mut more: Vec<PeerAddr> = match lookup(entries, "peers6") {
        Some(Bencode::Str(bytes)) => match parse_compact_peers_v6(bytes.as_slice()) {
            Err(error) => return Err(error),
            Ok(peers) => peers,
        },
        _ => {
            let none: Vec<PeerAddr> = Vec::new();
            assert(none@ =~= Seq::<PeerAddr>::empty());
            none
        },
    };
    let ghost rest = more@;
    peers.append(&mut more);
    assert(peers@ =~= main + rest);
    Ok(AnnounceResponse { interval, peers, seeders, leechers })
}

/// The parts of a URL that decide how to announce.
#[derive(Debug, PartialEq, Eq)]
pub struct UrlParts {
    pub scheme: String,
    pub host: Option<String>,
    pub port: Option<u16>,
}

/// [`UrlParts`] over plain values.
#[verifier::ext_equal]
pub struct UrlPartsView {
    pub scheme: Seq<char>,
    pub host: Option<Seq<char>>,
    pub port: Option<u16>,
}

impl View for UrlParts {
    type V = UrlPartsView;

    open spec fn view(&self) -> UrlPartsView {
        UrlPartsView {
            scheme: self.scheme@,
            host: match self.host {
                Some(host) => Some(host@),
                None => None,
            },
            port: self.port,
        }
    }
}

/// The scheme, host and port that `url::Url::parse` finds in a URL; `None` where it finds that
/// the text is no URL.
pub uninterp spec fn url_parse(url: Seq<char>) -> Option<UrlPartsView>;

/// `url::Url::parse`, with `scheme`, `host_str` and `port` of the URL that it gives. What they
/// are on a given text is left to the crate.
#[verifier::external_body]
fn parse_url(url: &str) -> (result: std::result::Result<UrlParts, url::ParseError>)
    ensures
        match result {
            Ok(parts) => url_parse(url@) == Some(parts@),
            Err(_) => url_parse(url@) is None,
        },
{
    url::Url::parse(url).map(
        |url| UrlParts {
            scheme: url.scheme().to_string(),
            host: url.host_str().map(|host| host.to_string()),
            port: url.port(),
        },
    )
}

/// How to reach a tracker.
#[derive(Debug, PartialEq, Eq)]
pub enum Transport {
    /// By an HTTP(S) request.
    Http,
    /// By UDP packets to this host and port.
    Udp { host: String, port: u16 },
}

/// A [`Transport`] over plain values.
#[verifier::ext_equal]
pub enum TransportView {
    Http,
    Udp { host: Seq<char>, port: u16 },
}

impl View for Transport {
    type V = TransportView;

    open spec fn view(&self) -> TransportView {
        match self {
            Transport::Http => TransportView::Http,
            Transport::Udp { host, port } => TransportView::Udp { host: host@, port: *port },
        }
    }
}

/// The transport for the parts of a URL; a UDP tracker needs a host and a port.
pub open spec fn transport_of(parts: UrlPartsView) -> std::result::Result<TransportView, Fault> {
    if parts.scheme == "http"@ || parts.scheme == "https"@ {
        Ok(TransportView::Http)
    } else if parts.scheme == "udp"@ {
        match (parts.host, parts.port) {
            (None, _) => Err(Fault::UdpProtocol("udp tracker URL has no host"@)),
            (Some(_), None) => Err(Fault::UdpProtocol("udp tracker URL has no port"@)),
            (Some(host), Some(port)) => Ok(TransportView::Udp { host, port }),
        }
    } else {
        Err(Fault::UnsupportedScheme(parts.scheme))
    }
}

/// How to announce to the tracker at `url`, by the URL's scheme.
pub fn transport(url: &str) -> (result: Result<Transport>)
    ensures
        outcome(result) == match url_parse(url@) {
            None => Err::<TransportView, Fault>(Fault::UrlParse),
            Some(parts) => transport_of(parts),
        },
{
    match parse_url(url) {
        Err(error) => Err(Error::UrlParse(error)),
        Ok(parts) => transport_for(parts),
    }
}

/// How to announce to a tracker whose URL has the given parts.
pub fn transport_for(parts: UrlParts) -> (result: Result<Transport>)
    ensures
        outcome(result) == transport_of(parts@),
{
    if parts.scheme == "http".to_owned() || parts.scheme == "https".to_owned() {
        Ok(Transport::Http)
    } else if parts.scheme == "udp".to_owned() {
        match (parts.host, parts.port) {
            (None, _) => Err(Error::UdpProtocol("udp tracker URL has no host".to_owned())),
            (Some(_), None) => Err(Error::UdpProtocol("udp tracker URL has no port".to_owned())),
            (Some(host), Some(port)) => Ok(Transport::Udp { host, port }),
        }
    } else {
        Err(Error::UnsupportedScheme(parts.scheme))
    }
}

/// The complaint about a tracker host that has no address.
pub open spec fn unresolved_text(host: Seq<char>, port: u16) -> Seq<char> {
    "could not resolve "@ + host + ":"@ + decimal(port as nat)
}

/// The error for a tracker host that has no address.
pub fn unresolved(host: &str, port: u16) -> (error: Error)
    ensures
        error@ == Fault::UdpProtocol(unresolved_text(host@, port)),
{
    let mut text = "could not resolve ".to_owned();
    text.append(host);
    text.append(":");
    push_decimal(&mut text, port as u64);
    Error::UdpProtocol(text)
}

/// The six bytes of a peer.
pub open spec fn compact_v4_bytes(ip: u32, port: u16) -> Seq<u8> {
    be_bytes(ip as nat, 4) + be_bytes(port as nat, 2)
}

/// The blob of six-byte entries for the given addresses and ports.
pub open spec fn compact_blob(peers: Seq<(u32, u16)>) -> Seq<u8>
    decreases peers.len(),
{
    if peers.len() == 0 {
        Seq::empty()
    } else {
        compact_blob(peers.drop_last()) + compact_v4_bytes(peers.last().0, peers.last().1)
    }
}

/// A compact peer list is read back peer by peer, in order.
pub proof fn law_compact_peers_round_trip(peers: Seq<(u32, u16)>)
    ensures
        compact_blob(peers).len() == 6 * peers.len(),
        compact_peers_v4(compact_blob(peers)) == Ok::<Seq<PeerAddr>, Fault>(
            Seq::new(
                peers.len(),
                |i: int| (PeerAddr::V4 { ip: peers[i].0, port: peers[i].1 }),
            ),
        ),
    decreases peers.len(),
{
    let blob = compact_blob(peers);
    let expected = Seq::new(
        peers.len(),
        |i: int| (PeerAddr::V4 { ip: peers[i].0, port: peers[i].1 }),
    );
    if peers.len() == 0 {
        assert(compact_peers_v4(blob)->Ok_0 =~= expected);
    } else {
        let front = peers.drop_last();
        let (ip, port) = peers.last();
        law_compact_peers_round_trip(front);
        lemma_be_limits();
        lemma_be_value_of_bytes(ip as nat, 4);
        lemma_be_value_of_bytes(port as nat, 2);
        let before = compact_blob(front);
        let found = compact_peers_v4(blob)->Ok_0;
        assert(blob.len() / 6 == peers.len());
        assert forall|i: int| 0 <= i < peers.len() implies found[i] == expected[i] by {
            let chunk = blob.subrange(6 * i, 6 * i + 6);
            assert(found[i] == compact_v4(chunk));
            if i < front.len() {
                assert(chunk =~= before.subrange(6 * i, 6 * i + 6));
                assert(compact_peers_v4(before)->Ok_0[i] == compact_v4(chunk));
                assert(front[i] == peers[i]);
            } else {
                assert(chunk.subrange(0, 4) =~= be_bytes(ip as nat, 4));
                assert(chunk.subrange(4, 6) =~= be_bytes(port as nat, 2));
            }
        }
        assert(found =~= expected);
    }
}

/// The eighteen bytes of a peer.
pub open spec fn compact_v6_bytes(ip6: u128, port: u16) -> Seq<u8> {
    be_bytes(ip6 as nat, 16) + be_bytes(port as nat, 2)
}

/// The blob of eighteen-byte entries for the given addresses and ports.
pub open spec fn compact_blob_v6(peers: Seq<(u128, u16)>) -> Seq<u8>
    decreases peers.len(),
{
    if peers.len() == 0 {
        Seq::empty()
    } else {
        compact_blob_v6(peers.drop_last()) + compact_v6_bytes(peers.last().0, peers.last().1)
    }
}

/// The eighteen bytes of a peer denote that peer.
proof fn lemma_compact_v6_bytes(ip6: u128, port: u16)
    ensures
        compact_v6_bytes(ip6, port).len() == 18,
        compact_v6(compact_v6_bytes(ip6, port)) == (PeerAddr::V6 { ip6, port }),
{
    lemma_be_limits();
    lemma_be_value_of_bytes(ip6 as nat, 16);
    lemma_be_value_of_bytes(port as nat, 2);
    let entry = compact_v6_bytes(ip6, port);
    assert(entry.subrange(0, 16) =~= be_bytes(ip6 as nat, 16));
    assert(entry.subrange(16, 18) =~= be_bytes(port as nat, 2));
}

/// A compact IPv6 peer list is read back peer by peer, in order.
pub proof fn law_compact_peers_v6_round_trip(peers: Seq<(u128, u16)>)
    ensures
        compact_blob_v6(peers).len() == 18 * peers.len(),
        compact_peers_v6(compact_blob_v6(peers)) == Ok::<Seq<PeerAddr>, Fault>(
            Seq::new(
                peers.len(),
                |i: int| (PeerAddr::V6 { ip6: peers[i].0, port: peers[i].1 }),
            ),
        ),
    decreases peers.len(),
{
    let blob = compact_blob_v6(peers);
    let expected = Seq::new(
        peers.len(),
        |i: int| (PeerAddr::V6 { ip6: peers[i].0, port: peers[i].1 }),
    );
    if peers.len() == 0 {
        assert(compact_peers_v6(blob)->Ok_0 =~= expected);
    } else {
        let front = peers.drop_last();
        let (ip6, port) = peers.last();
        law_compact_peers_v6_round_trip(front);
        lemma_compact_v6_bytes(ip6, port);
        let before = compact_blob_v6(front);
        let found = compact_peers_v6(blob)->Ok_0;
        assert(blob.len() / 18 == peers.len());
        assert forall|i: int| 0 <= i < peers.len() implies found[i] == expected[i] by {
            let chunk = blob.subrange(18 * i, 18 * i + 18);
            assert(found[i] == compact_v6(chunk));
            if i < front.len() {
                assert(chunk =~= before.subrange(18 * i, 18 * i + 18));
                assert(compact_peers_v6(before)->Ok_0[i] == compact_v6(chunk));
                assert(front[i] == peers[i]);
            } else {
                assert(chunk =~= compact_v6_bytes(ip6, port));
            }
        }
        assert(found =~= expected);
    }
}

} // verus!
