use vstd::prelude::*;
use vstd::string::StringSliceAdditionalSpecFns;
use crate::chunks::record;
use crate::decoding::{decode_all, truncated, whole_term, MAX_DEPTH};
use crate::encoding::{decimal, int_text, lemma_decimal_digits, push_all, push_decimal, push_int};
use crate::error::TorrentError;
use crate::metainfo::{bytes_at, bytes_field, int_at, int_field, Torrent};
use crate::text::{ascii_chars, is_ascii_bytes, text_of, utf8_decode};
use crate::value::{Bencode, BencodeValue};

verus! {

/// Size of one compact peer record.
pub const PEER_LEN: usize = 6;

/// A peer as a tracker lists it: an IPv4 address and a port.
#[derive(Debug, Clone, Copy, PartialEq, Eq)]
pub struct PeerAddress {
    pub ip: [u8; 4],
    pub port: u16,
}

/// A tracker's reply to an announce.
pub struct TrackerResponse {
    /// Seconds to wait before the next announce.
    pub interval: i64,
    pub peers: Vec<PeerAddress>,
}

/// The peer that a 6-byte record describes: four address bytes, then the
/// port, big-endian.
pub open spec fn peer_from(p: PeerAddress, rec: Seq<u8>) -> bool {
    &&& p.ip@ == rec.subrange(0, 4)
    &&& p.port as int == rec[4] as int * 256 + rec[5] as int
}

/// The peers of a compact peer string, one per record, in order.
pub open spec fn peers_of(peers: Seq<PeerAddress>, raw: Seq<u8>) -> bool {
    &&& peers.len() == raw.len() / 6
    &&& forall|i: int| 0 <= i < peers.len() ==> peer_from(#[trigger] peers[i], record(raw, 6, i))
}

/// Decodes a compact peer string.
pub fn parse_peers(raw: &[u8]) -> (r: Result<Vec<PeerAddress>, TorrentError>)
    ensures
        r is Err <==> raw@.len() % 6 != 0,
        r is Err ==> r == Err::<Vec<PeerAddress>, TorrentError>(TorrentError::InvalidLength),
        r is Ok ==> peers_of(r->Ok_0@, raw@),
{
    if raw.len() % PEER_LEN != 0 {
        return Err(TorrentError::InvalidLength);
    }
    let total: usize = raw.len();
    let mut peers: Vec<PeerAddress> = Vec::new();
    let mut pos: usize = 0;
    assert(peers@.len() * 6 == 0);
    while pos < raw.len()
        invariant
            raw@.len() == total,
            raw@.len() % 6 == 0,
            pos == peers@.len() * 6,
            pos <= raw@.len(),
            forall|i: int| 0 <= i < peers@.len() ==> peer_from(#[trigger] peers@[i], record(raw@, 6, i)),
        decreases raw@.len() - pos,
    {
        let ip: [u8; 4] = [raw[pos], raw[pos + 1], raw[pos + 2], raw[pos + 3]];
        let port: u16 = (raw[pos + 4] as u16) * 256 + raw[pos + 5] as u16;
        let ghost n = peers@.len() as int;
        assert(ip@ =~= record(raw@, 6, n).subrange(0, 4));
        peers.push(PeerAddress { ip, port });
        pos = pos + PEER_LEN;
    }
    Ok(peers)
}

/// What a reply decoded from the term `v` holds.
pub open spec fn response_of(t: TrackerResponse, v: Bencode) -> bool {
    &&& t.interval == int_field(v, "interval".spec_bytes())->Ok_0
    &&& peers_of(t.peers@, bytes_field(v, "peers".spec_bytes())->Ok_0)
}

/// Why a decoded term is not a tracker reply, checked in this order: the
/// kind of the term, `interval`, `peers`, the size of the peer string.
pub open spec fn response_error(v: Bencode) -> Option<TorrentError> {
    if !(v is Dict) {
        Some(TorrentError::MalformedResponse)
    } else if int_field(v, "interval".spec_bytes()) is Err {
        Some(int_field(v, "interval".spec_bytes())->Err_0)
    } else if bytes_field(v, "peers".spec_bytes()) is Err {
        Some(bytes_field(v, "peers".spec_bytes())->Err_0)
    } else if bytes_field(v, "peers".spec_bytes())->Ok_0.len() % 6 != 0 {
        Some(TorrentError::InvalidLength)
    } else {
        None
    }
}

/// Reads a decoded tracker reply.
pub fn response_from_value(v: &BencodeValue) -> (r: Result<TrackerResponse, TorrentError>)
    ensures
        r is Ok <==> response_error(v@) is None,
        r is Err ==> response_error(v@) == Some(r->Err_0),
        r is Ok ==> response_of(r->Ok_0, v@),
{
    match v {
        BencodeValue::Dictionary(_) => {},
        _ => {
            return Err(TorrentError::MalformedResponse);
        },
    }
    let interval = match int_at(v, "interval".as_bytes()) {
        Ok(i) => i,
        Err(e) => {
            return Err(e);
        },
    };
    let raw = match bytes_at(v, "peers".as_bytes()) {
        Ok(b) => b,
        Err(e) => {
            return Err(e);
        },
    };
    match parse_peers(raw.as_slice()) {
        Ok(peers) => Ok(TrackerResponse { interval, peers }),
        Err(e) => Err(e),
    }
}

/// Decodes the body of a tracker's reply.
pub fn parse_response(body: &[u8]) -> (r: Result<TrackerResponse, TorrentError>)
    ensures
        whole_term(body@) is None ==> r is Err,
        whole_term(body@) is None ==> (r->Err_0 == TorrentError::UnexpectedEnd <==> truncated(body@, MAX_DEPTH as nat)),
        whole_term(body@) is None ==> (r->Err_0 == TorrentError::MalformedInput <==> !truncated(body@, MAX_DEPTH as nat)),
        whole_term(body@) matches Some(t) ==> {
            &&& r is Ok <==> response_error(t) is None
            &&& r is Err ==> response_error(t) == Some(r->Err_0)
            &&& r is Ok ==> response_of(r->Ok_0, t)
        },
{
    match decode_all(body) {
        Ok(v) => response_from_value(&v),
        Err(e) => Err(e),
    }
}

/// `a.b.c.d:port`, in ASCII.
pub open spec fn peer_text(p: PeerAddress) -> Seq<u8> {
    decimal(p.ip@[0] as nat) + seq![46u8] + decimal(p.ip@[1] as nat) + seq![46u8]
        + decimal(p.ip@[2] as nat) + seq![46u8] + decimal(p.ip@[3] as nat) + seq![58u8]
        + decimal(p.port as nat)
}

proof fn lemma_peer_text_ascii(p: PeerAddress)
    ensures
        is_ascii_bytes(peer_text(p)),
{
    lemma_decimal_digits(p.ip@[0] as nat);
    lemma_decimal_digits(p.ip@[1] as nat);
    lemma_decimal_digits(p.ip@[2] as nat);
    lemma_decimal_digits(p.ip@[3] as nat);
    lemma_decimal_digits(p.port as nat);
    let t = peer_text(p);
    assert forall|i: int| 0 <= i < t.len() implies #[trigger] t[i] < 128 by {
        let a = decimal(p.ip@[0] as nat);
        let b = decimal(p.ip@[1] as nat);
        let c = decimal(p.ip@[2] as nat);
        let d = decimal(p.ip@[3] as nat);
        let e = decimal(p.port as nat);
        if i < a.len() {
            assert(t[i] == a[i]);
        } else if i < a.len() + 1 {
        } else if i < a.len() + 1 + b.len() {
            assert(t[i] == b[i - a.len() - 1]);
        } else if i < a.len() + 2 + b.len() {
        } else if i < a.len() + 2 + b.len() + c.len() {
            assert(t[i] == c[i - a.len() - 2 - b.len()]);
        } else if i < a.len() + 3 + b.len() + c.len() {
        } else if i < a.len() + 3 + b.len() + c.len() + d.len() {
            assert(t[i] == d[i - a.len() - 3 - b.len() - c.len()]);
        } else if i < a.len() + 4 + b.len() + c.len() + d.len() {
        } else {
            assert(t[i] == e[i - a.len() - 4 - b.len() - c.len() - d.len()]);
        }
    }
}

impl PeerAddress {
    /// The peer as `a.b.c.d:port`.
    pub fn to_text(&self) -> (r: String)
        ensures
            r@ == ascii_chars(peer_text(*self)),
    {
        let mut out: Vec<u8> = Vec::new();
        push_decimal(&mut out, self.ip[0] as u64);
        out.push(46u8);
        push_decimal(&mut out, self.ip[1] as u64);
        out.push(46u8);
        push_decimal(&mut out, self.ip[2] as u64);
        out.push(46u8);
        push_decimal(&mut out, self.ip[3] as u64);
        out.push(58u8);
        push_decimal(&mut out, self.port as u64);
        assert(out@ =~= peer_text(*self));
        proof {
            lemma_peer_text_ascii(*self);
        }
        match text_of(out.as_slice()) {
            Ok(s) => s,
            Err(_) => String::new(),
        }
    }
}

/// Bytes that a URL query carries as they are.
pub open spec fn is_unreserved(c: u8) -> bool {
    (48 <= c <= 57) || (65 <= c <= 90) || (97 <= c <= 122) || c == 45 || c == 46 || c == 95 || c == 126
}

pub open spec fn upper_hex_digit(n: u8) -> u8 {
    if n < 10 {
        (48 + n) as u8
    } else {
        (55 + n) as u8
    }
}

/// Byte-wise percent-encoding: unreserved bytes stay, every other byte
/// becomes `%` and two uppercase hexadecimal digits.
pub open spec fn percent_encoded(b: Seq<u8>) -> Seq<u8>
    decreases b.len(),
{
    if b.len() == 0 {
        Seq::empty()
    } else {
        percent_encoded(b.drop_last()) + if is_unreserved(b.last()) {
            seq![b.last()]
        } else {
            seq![37u8, upper_hex_digit(b.last() / 16), upper_hex_digit(b.last() % 16)]
        }
    }
}

/// Relies on `urlencoding::encode_binary`: unreserved bytes are kept and
/// every other byte becomes `%XX` with uppercase hexadecimal digits.
#[verifier::external_body]
fn escape_binary(b: &[u8]) -> (r: Vec<u8>)
    ensures
        r@ == percent_encoded(b@),
{
    urlencoding::encode_binary(b).into_owned().into_bytes()
}

/// The announce request: the tracker URL with the query that asks for a
/// compact peer list.
pub open spec fn announce_request(
    announce: Seq<u8>,
    info_hash: Seq<u8>,
    peer_id: Seq<u8>,
    port: u16,
    left: int,
) -> Seq<u8> {
    announce + "?info_hash=".spec_bytes() + percent_encoded(info_hash) + "&peer_id=".spec_bytes()
        + percent_encoded(peer_id) + "&port=".spec_bytes() + decimal(port as nat)
        + "&uploaded=0&downloaded=0&left=".spec_bytes() + int_text(left) + "&compact=1".spec_bytes()
}

/// The announce URL for `torrent`, as bytes.
pub fn announce_url_bytes(torrent: &Torrent, peer_id: &[u8], port: u16) -> (r: Vec<u8>)
    ensures
        r@ == announce_request(
            torrent.announce_url@,
            torrent.info.info_hash@,
            peer_id@,
            port,
            torrent.info.length as int,
        ),
{
    let mut out: Vec<u8> = Vec::new();
    push_all(&mut out, torrent.announce_url.as_slice());
    push_all(&mut out, "?info_hash=".as_bytes());
    let hash = escape_binary(torrent.info.info_hash.as_slice());
    push_all(&mut out, hash.as_slice());
    push_all(&mut out, "&peer_id=".as_bytes());
    let id = escape_binary(peer_id);
    push_all(&mut out, id.as_slice());
    push_all(&mut out, "&port=".as_bytes());
    push_decimal(&mut out, port as u64);
    push_all(&mut out, "&uploaded=0&downloaded=0&left=".as_bytes());
    push_int(&mut out, torrent.info.length);
    push_all(&mut out, "&compact=1".as_bytes());
    out
}

/// The announce URL for `torrent` as text; it fails with `InvalidUtf8` when
/// the tracker URL is not UTF-8.
pub fn build_url(torrent: &Torrent, peer_id: &[u8], port: u16) -> (r: Result<String, TorrentError>)
    ensures
        ({
            let req = announce_request(
                torrent.announce_url@,
                torrent.info.info_hash@,
                peer_id@,
                port,
                torrent.info.length as int,
            );
            &&& r is Ok ==> utf8_decode(req) == Some(r->Ok_0@)
            &&& r is Err <==> utf8_decode(req) is None
            &&& r is Err ==> r->Err_0 == TorrentError::InvalidUtf8
        }),
{
    let bytes = announce_url_bytes(torrent, peer_id, port);
    text_of(bytes.as_slice())
}

} // verus!
