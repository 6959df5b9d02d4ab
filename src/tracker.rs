use crate::bencode::{
    bdecode, canonical_nat_text, datums_of, decode_spec, digits_value, is_digit, lemma_datums_of,
    lemma_view_cases, lookup, BencodeParseError, Bencodable, Datum,
};
use percent_encoding::{percent_encode, NON_ALPHANUMERIC};
use rand::distributions::Alphanumeric;
use rand::Rng;
use vstd::prelude::*;
use vstd::slice::slice_to_vec;
use vstd::string::{StringExecFns, StringSliceAdditionalSpecFns};
use vstd::utf8::{is_ascii_chars, is_ascii_chars_encode_utf8};

verus! {

#[derive(Debug, PartialEq, Eq, Clone, Copy)]
pub enum Event {
    Started,
}

/// A peer's network address.
#[derive(Debug, PartialEq, Eq, Clone, Copy)]
pub enum PeerAddr {
    V4 { ip: [u8; 4], port: u16 },
    V6 { segments: [u16; 8], port: u16 },
}

/// A peer to connect to. `id_advertised` tells whether the tracker gave
/// the id or it was made up locally.
#[derive(Debug, PartialEq, Eq)]
pub struct Peer {
    pub socket_addr: PeerAddr,
    pub id: Vec<u8>,
    pub id_advertised: bool,
}

/// A peer as the tracker lists it: with its id, or (compact form) as a
/// bare address.
#[derive(Debug, PartialEq, Eq)]
pub enum TrackerPeer {
    Peer(Peer),
    SocketAddr(PeerAddr),
}

#[derive(Debug, PartialEq, Eq)]
pub enum TrackerResponseError {
    BdecodeFailure(BencodeParseError),
    NoPeerKey,
    UnexpectedBencodable(Bencodable),
    MisalignedPeers,
    NoPeerByteString { original_string: Bencodable },
}

pub struct TrackerRequestParameters {
    pub port: u16,
    pub uploaded: u32,
    pub downloaded: u32,
    pub left: u32,
    pub event: Event,
}

pub open spec fn is_alphanumeric(c: char) -> bool {
    ('0' <= c <= '9') || ('A' <= c <= 'Z') || ('a' <= c <= 'z')
}

/// Relies on rand 0.8: sampling `Alphanumeric` yields bytes from
/// `A-Z a-z 0-9`, and `take(n)` keeps `n` of them.
#[verifier::external_body]
fn sample_alphanumeric(n: usize) -> (r: String)
    ensures
        r@.len() == n,
        forall|i: int| 0 <= i < n ==> is_alphanumeric(#[trigger] r@[i]),
{
    rand::thread_rng().sample_iter(&Alphanumeric).take(n).map(char::from).collect()
}

/// A fresh random peer id: twenty ASCII letters and digits.
pub fn random_string() -> (r: String)
    ensures
        r@.len() == 20,
        forall|i: int| 0 <= i < 20 ==> is_alphanumeric(#[trigger] r@[i]),
{
    sample_alphanumeric(20)
}

/// The upper-case hex digit table.
pub open spec fn upper_hex_digits() -> Seq<char> {
    seq!['0', '1', '2', '3', '4', '5', '6', '7', '8', '9', 'A', 'B', 'C', 'D', 'E', 'F']
}

pub open spec fn is_alphanumeric_byte(b: u8) -> bool {
    (48 <= b <= 57) || (65 <= b <= 90) || (97 <= b <= 122)
}

/// Letters and digits stay; every other byte becomes `%XX`.
pub open spec fn percent_text(data: Seq<u8>) -> Seq<char>
    decreases data.len(),
{
    if data.len() == 0 {
        Seq::empty()
    } else {
        let b = data.last();
        percent_text(data.drop_last()) + if is_alphanumeric_byte(b) {
            seq![b as char]
        } else {
            seq!['%', upper_hex_digits()[(b >> 4u8) as int], upper_hex_digits()[(b & 15u8) as int]]
        }
    }
}

/// Relies on percent_encoding's `percent_encode` with `NON_ALPHANUMERIC`:
/// ASCII letters and digits are kept and every other byte is written as
/// `%` and two upper-case hex digits.
#[verifier::external_body]
fn percent_encoded(data: &[u8]) -> (r: String)
    ensures
        r@ == percent_text(data@),
{
    percent_encode(data, NON_ALPHANUMERIC).to_string()
}

/// The announce URL with the info-hash and peer id in its query.
pub fn tracker_announce_url(announce: &str, info_hash: &[u8], peer_id: &[u8]) -> (r: String)
    ensures
        r@ == announce@ + "?info_hash="@ + percent_text(info_hash@) + "&peer_id="@ + percent_text(
            peer_id@,
        ),
{
    let mut url = String::from_str(announce);
    url.append("?info_hash=");
    let hash = percent_encoded(info_hash);
    url.append(hash.as_str());
    url.append("&peer_id=");
    let id = percent_encoded(peer_id);
    url.append(id.as_str());
    url
}

/// The address in the six bytes at `i`: four octets, then a big-endian port.
pub open spec fn compact_addr(s: Seq<u8>, i: int) -> PeerAddr {
    PeerAddr::V4 {
        ip: [s[i], s[i + 1], s[i + 2], s[i + 3]],
        port: (s[i + 4] as int * 256 + s[i + 5] as int) as u16,
    }
}

/// The compact peer list: six bytes per peer.
pub fn parse_compact_peers(bytes: &[u8]) -> (r: Result<Vec<TrackerPeer>, TrackerResponseError>)
    ensures
        bytes@.len() % 6 != 0 ==> r == Err::<Vec<TrackerPeer>, TrackerResponseError>(
            TrackerResponseError::MisalignedPeers,
        ),
        bytes@.len() % 6 == 0 ==> (r matches Ok(peers) && peers@.len() == bytes@.len() / 6
            && forall|i: int|
            0 <= i < peers@.len() ==> #[trigger] peers@[i] == TrackerPeer::SocketAddr(
                compact_addr(bytes@, 6 * i),
            )),
{
    let total = bytes.len();
    if total % 6 != 0 {
        return Err(TrackerResponseError::MisalignedPeers);
    }
    let mut peers: Vec<TrackerPeer> = Vec::new();
    let mut i: usize = 0;
    while i < total
        invariant
            total == bytes@.len(),
            total % 6 == 0,
            i % 6 == 0,
            i <= total,
            peers@.len() == i / 6,
            forall|m: int|
                0 <= m < peers@.len() ==> #[trigger] peers@[m] == TrackerPeer::SocketAddr(
                    compact_addr(bytes@, 6 * m),
                ),
        decreases total - i,
    {
        let addr = PeerAddr::V4 {
            ip: [bytes[i], bytes[i + 1], bytes[i + 2], bytes[i + 3]],
            port: bytes[i + 4] as u16 * 256 + bytes[i + 5] as u16,
        };
        assert(addr == compact_addr(bytes@, i as int));
        peers.push(TrackerPeer::SocketAddr(addr));
        i = i + 6;
    }
    Ok(peers)
}

/// The end of the run of digits that starts at `i`.
pub open spec fn digits_end(s: Seq<u8>, i: int) -> int
    decreases s.len() - i,
{
    if i < 0 || i >= s.len() || !is_digit(s[i]) {
        i
    } else {
        digits_end(s, i + 1)
    }
}

/// A decimal octet at `i` (one to three digits, no superfluous leading
/// zero, at most 255) and the index after it.
pub open spec fn octet_at(s: Seq<u8>, i: int) -> Option<(u8, int)> {
    let j = digits_end(s, i);
    let t = s.subrange(i, j);
    if canonical_nat_text(t) && t.len() <= 3 && digits_value(t) <= 255 {
        Some((digits_value(t) as u8, j))
    } else {
        None
    }
}

/// Octets `k..4` of a dotted-quad address from `i`, after the octets `acc`.
pub open spec fn ipv4_from(s: Seq<u8>, i: int, k: int, acc: Seq<u8>) -> Option<Seq<u8>>
    decreases 4 - k,
{
    if k < 0 || k > 3 {
        None
    } else {
        match octet_at(s, i) {
            None => None,
            Some((v, j)) => if k == 3 {
                if j == s.len() {
                    Some(acc.push(v))
                } else {
                    None
                }
            } else if j < s.len() && s[j] == 46 {
                ipv4_from(s, j + 1, k + 1, acc.push(v))
            } else {
                None
            },
        }
    }
}

/// The octets of a dotted-quad IPv4 address such as `73.140.205.84`.
pub open spec fn ipv4_of(s: Seq<u8>) -> Option<Seq<u8>> {
    ipv4_from(s, 0, 0, Seq::empty())
}

proof fn lemma_digits_end(s: Seq<u8>, i: int)
    requires
        0 <= i <= s.len(),
    ensures
        i <= digits_end(s, i) <= s.len(),
        forall|m: int| i <= m < digits_end(s, i) ==> is_digit(#[trigger] s[m]),
        digits_end(s, i) < s.len() ==> !is_digit(s[digits_end(s, i)]),
    decreases s.len() - i,
{
    if i < s.len() && is_digit(s[i]) {
        lemma_digits_end(s, i + 1);
    }
}

/// Reads the octet at `i`.
fn read_octet(s: &[u8], i: usize) -> (r: Option<(u8, usize)>)
    requires
        i <= s@.len(),
    ensures
        r is None <==> octet_at(s@, i as int) is None,
        r matches Some((v, j)) ==> octet_at(s@, i as int) == Some((v, j as int)),
{
    proof {
        lemma_digits_end(s@, i as int);
    }
    let mut j = i;
    let mut value: u32 = 0;
    while j < s.len() && s[j] >= 48 && s[j] <= 57 && j - i < 4
        invariant
            i <= j <= s@.len(),
            j - i <= 4,
            j <= digits_end(s@, i as int),
            digits_end(s@, i as int) <= s@.len(),
            forall|m: int| i <= m < digits_end(s@, i as int) ==> is_digit(#[trigger] s@[m]),
            digits_end(s@, i as int) < s@.len() ==> !is_digit(s@[digits_end(s@, i as int)]),
            value == digits_value(s@.subrange(i as int, j as int)),
            j - i == 0 ==> value == 0,
            j - i <= 1 ==> value <= 9,
            j - i <= 2 ==> value <= 99,
            j - i <= 3 ==> value <= 999,
            value <= 9999,
        decreases s@.len() - j,
    {
        assert(s@.subrange(i as int, j + 1).drop_last() =~= s@.subrange(i as int, j as int));
        value = value * 10 + (s[j] - 48) as u32;
        j = j + 1;
    }
    let ghost t = s@.subrange(i as int, digits_end(s@, i as int));
    if j - i >= 4 || j == i {
        proof {
            if j - i >= 4 {
                assert(t.len() >= 4);
            }
        }
        return None;
    }
    assert(j == digits_end(s@, i as int));
    if (j - i > 1 && s[i] == 48) || value > 255 {
        return None;
    }
    assert(canonical_nat_text(t)) by {
        assert forall|k: int| 0 <= k < t.len() implies is_digit(#[trigger] t[k]) by {
            assert(t[k] == s@[i + k]);
        }
    }
    Some((value as u8, j))
}

/// Parses a dotted-quad IPv4 address.
pub fn parse_ipv4(s: &[u8]) -> (r: Option<[u8; 4]>)
    ensures
        match ipv4_of(s@) {
            Some(octets) => r matches Some(ip) && ip@ == octets,
            None => r is None,
        },
{
    let mut octets: Vec<u8> = Vec::new();
    let mut i: usize = 0;
    let mut k: usize = 0;
    while k < 4
        invariant
            k <= 4,
            i <= s@.len(),
            octets@.len() == k,
            k < 4 ==> ipv4_of(s@) == ipv4_from(s@, i as int, k as int, octets@),
            k == 4 ==> ipv4_of(s@) == Some(octets@),
        decreases 4 - k,
    {
        match read_octet(s, i) {
            None => {
                return None;
            },
            Some((v, j)) => {
                let ghost acc = octets@;
                proof {
                    assert(ipv4_from(s@, i as int, k as int, acc) == if k == 3 {
                        if j == s@.len() {
                            Some(acc.push(v))
                        } else {
                            None
                        }
                    } else if j < s@.len() && s@[j as int] == 46 {
                        ipv4_from(s@, j + 1, k + 1, acc.push(v))
                    } else {
                        None
                    });
                }
                octets.push(v);
                if k == 3 {
                    if j != s.len() {
                        return None;
                    }
                } else {
                    if j >= s.len() || s[j] != 46 {
                        return None;
                    }
                    i = j + 1;
                }
                k = k + 1;
            },
        }
    }
    let ip = [octets[0], octets[1], octets[2], octets[3]];
    assert(ip@ =~= octets@);
    Some(ip)
}

/// Whether an entry of the structured peer list is well formed: a
/// dictionary with an `ip` in dotted-quad text, a `port` that fits 16 bits
/// and a `peer id` byte string.
pub open spec fn peer_entry_ok(e: Datum) -> bool {
    &&& e is Dict
    &&& lookup(e->Dict_0, "port".spec_bytes()) matches Some(Datum::Int(n)) && 0 <= n <= 65535
    &&& lookup(e->Dict_0, "ip".spec_bytes()) matches Some(Datum::Bytes(b)) && ipv4_of(b) is Some
    &&& lookup(e->Dict_0, "peer id".spec_bytes()) matches Some(Datum::Bytes(id))
}

/// The peer that a well-formed entry describes.
pub open spec fn peer_entry_matches(p: TrackerPeer, e: Datum) -> bool {
    let d = e->Dict_0;
    p matches TrackerPeer::Peer(peer) && peer.socket_addr matches PeerAddr::V4 { ip, port }
        && ip@ == ipv4_of(lookup(d, "ip".spec_bytes())->Some_0->Bytes_0)->Some_0 && port
        == lookup(d, "port".spec_bytes())->Some_0->Int_0 && peer.id@ == lookup(
        d,
        "peer id".spec_bytes(),
    )->Some_0->Bytes_0 && peer.id_advertised
}

fn peer_entry(e: &Bencodable) -> (r: Option<TrackerPeer>)
    ensures
        r is Some <==> peer_entry_ok(e@),
        r matches Some(p) ==> peer_entry_matches(p, e@),
{
    proof {
        lemma_view_cases(*e);
    }
    let d = match e {
        Bencodable::Dictionary(d) => d,
        _ => {
            return None;
        },
    };
    let port: u16 = match d.get("port".as_bytes()) {
        Some(v) => {
            proof {
                lemma_view_cases(*v);
            }
            match v {
                Bencodable::Integer(n) => {
                    if *n < 0 || *n > 65535 {
                        return None;
                    }
                    *n as u16
                },
                _ => {
                    return None;
                },
            }
        },
        None => {
            return None;
        },
    };
    let ip: [u8; 4] = match d.get("ip".as_bytes()) {
        Some(v) => {
            proof {
                lemma_view_cases(*v);
            }
            match v {
                Bencodable::ByteString(b) => match parse_ipv4(b.as_bytes()) {
                    Some(ip) => ip,
                    None => {
                        return None;
                    },
                },
                _ => {
                    return None;
                },
            }
        },
        None => {
            return None;
        },
    };
    let id: Vec<u8> = match d.get("peer id".as_bytes()) {
        Some(v) => {
            proof {
                lemma_view_cases(*v);
            }
            match v {
                Bencodable::ByteString(b) => slice_to_vec(b.as_bytes()),
                _ => {
                    return None;
                },
            }
        },
        None => {
            return None;
        },
    };
    Some(
        TrackerPeer::Peer(
            Peer { socket_addr: PeerAddr::V4 { ip, port }, id, id_advertised: true },
        ),
    )
}

/// The structured peer list: one dictionary per peer.
pub fn parse_peer_list(list: &Vec<Bencodable>) -> (r: Result<Vec<TrackerPeer>, TrackerResponseError>)
    ensures
        r is Ok <==> forall|i: int| 0 <= i < list@.len() ==> peer_entry_ok(#[trigger] list@[i]@),
        r matches Ok(peers) ==> peers@.len() == list@.len() && forall|i: int|
            0 <= i < list@.len() ==> peer_entry_matches(#[trigger] peers@[i], list@[i]@),
        r matches Err(e) ==> exists|j: int|
            0 <= j < list@.len() && !peer_entry_ok(#[trigger] list@[j]@) && (forall|m: int|
                0 <= m < j ==> peer_entry_ok(#[trigger] list@[m]@)) && (e matches TrackerResponseError::UnexpectedBencodable(b) && b@ == list@[j]@),
{
    let mut peers: Vec<TrackerPeer> = Vec::new();
    let mut i: usize = 0;
    while i < list.len()
        invariant
            i <= list@.len(),
            peers@.len() == i,
            forall|m: int| 0 <= m < i ==> peer_entry_ok(#[trigger] list@[m]@),
            forall|m: int| 0 <= m < i ==> peer_entry_matches(#[trigger] peers@[m], list@[m]@),
        decreases list@.len() - i,
    {
        match peer_entry(&list[i]) {
            Some(p) => {
                peers.push(p);
            },
            None => {
                return Err(TrackerResponseError::UnexpectedBencodable(list[i].duplicate()));
            },
        }
        i = i + 1;
    }
    Ok(peers)
}

/// What reading a structured peer list gives.
pub open spec fn list_outcome(
    r: Result<Vec<TrackerPeer>, TrackerResponseError>,
    entries: Seq<Datum>,
) -> bool {
    &&& (r is Ok) == (forall|i: int| 0 <= i < entries.len() ==> peer_entry_ok(#[trigger] entries[i]))
    &&& r is Ok ==> r->Ok_0@.len() == entries.len()
    &&& r is Ok ==> forall|i: int|
        0 <= i < entries.len() ==> peer_entry_matches(#[trigger] r->Ok_0@[i], entries[i])
}

/// What reading a `peers` value gives.
pub open spec fn peers_outcome(
    r: Result<Vec<TrackerPeer>, TrackerResponseError>,
    peers: Option<Datum>,
) -> bool {
    match peers {
        None => r == Err::<Vec<TrackerPeer>, TrackerResponseError>(TrackerResponseError::NoPeerKey),
        Some(Datum::Bytes(bytes)) => if bytes.len() % 6 != 0 {
            r == Err::<Vec<TrackerPeer>, TrackerResponseError>(
                TrackerResponseError::MisalignedPeers,
            )
        } else {
            r matches Ok(found) && found@.len() == bytes.len() / 6 && forall|i: int|
                0 <= i < found@.len() ==> #[trigger] found@[i] == TrackerPeer::SocketAddr(
                    compact_addr(bytes, 6 * i),
                )
        },
        Some(Datum::List(entries)) => list_outcome(r, entries),
        Some(other) => r matches Err(TrackerResponseError::NoPeerByteString { original_string })
            && original_string@ == other,
    }
}

/// Reads a tracker's response body: a dictionary whose `peers` is either
/// the compact byte string or a list of peer dictionaries.
pub fn parse_tracker_response(body: &[u8]) -> (r: Result<Vec<TrackerPeer>, TrackerResponseError>)
    ensures
        decode_spec(body@) matches Err((t, i)) ==> (r matches Err(
            TrackerResponseError::BdecodeFailure(e),
        ) && e.error_type == t && e.index == i),
        decode_spec(body@) is Ok && !(decode_spec(body@)->Ok_0 is Dict) ==> (r matches Err(
            TrackerResponseError::UnexpectedBencodable(b),
        ) && b@ == decode_spec(body@)->Ok_0),
        decode_spec(body@) is Ok && decode_spec(body@)->Ok_0 is Dict ==> peers_outcome(
            r,
            lookup(decode_spec(body@)->Ok_0->Dict_0, "peers".spec_bytes()),
        ),
{
    let doc = match bdecode(body) {
        Ok(doc) => doc,
        Err(e) => {
            return Err(TrackerResponseError::BdecodeFailure(e));
        },
    };
    proof {
        lemma_view_cases(doc);
    }
    let mut d = match doc {
        Bencodable::Dictionary(d) => d,
        other => {
            return Err(TrackerResponseError::UnexpectedBencodable(other));
        },
    };
    let ghost before = d@;
    let peers = match d.remove("peers".as_bytes()) {
        Some(p) => p,
        None => {
            return Err(TrackerResponseError::NoPeerKey);
        },
    };
    proof {
        lemma_view_cases(peers);
    }
    let ghost pv = peers@;
    assert(lookup(before, "peers".spec_bytes()) == Some(pv));
    match peers {
        Bencodable::ByteString(bs) => {
            parse_compact_peers(bs.as_bytes())
        },
        Bencodable::List(entries) => {
            proof {
                lemma_datums_of(entries@);
            }
            let r = parse_peer_list(&entries);
            proof {
                let ds = datums_of(entries@);
                assert(pv == Datum::List(ds));
                if r is Ok {
                    assert forall|i: int| 0 <= i < ds.len() implies peer_entry_ok(
                        #[trigger] ds[i],
                    ) by {
                        assert(ds[i] == entries@[i]@);
                        assert(peer_entry_ok(entries@[i]@));
                    }
                } else {
                    let j = choose|j: int|
                        0 <= j < entries@.len() && !peer_entry_ok(#[trigger] entries@[j]@);
                    assert(ds[j] == entries@[j]@);
                }
                if r is Ok {
                    let found = r->Ok_0;
                    assert forall|i: int| 0 <= i < ds.len() implies peer_entry_matches(
                        #[trigger] found@[i],
                        ds[i],
                    ) by {
                        assert(ds[i] == entries@[i]@);
                        assert(peer_entry_matches(found@[i], entries@[i]@));
                    }
                }
                assert(list_outcome(r, ds));
            }
            r
        },
        other => {
            Err(TrackerResponseError::NoPeerByteString { original_string: other })
        },
    }
}

impl TrackerPeer {
    /// The peer to connect to; a bare address gets a random twenty-character
    /// id made of letters and digits.
    pub fn into_peer(self) -> (r: Peer)
        ensures
            self matches TrackerPeer::Peer(p) ==> r == p,
            self matches TrackerPeer::SocketAddr(a) ==> r.socket_addr == a && !r.id_advertised
                && r.id@.len() == 20 && forall|i: int|
                0 <= i < 20 ==> is_alphanumeric_byte(#[trigger] r.id@[i]),
    {
        match self {
            TrackerPeer::Peer(p) => p,
            TrackerPeer::SocketAddr(a) => {
                let id = random_string();
                proof {
                    assert(is_ascii_chars(id@));
                    is_ascii_chars_encode_utf8(id@);
                }
                let bytes = slice_to_vec(id.as_str().as_bytes());
                Peer { socket_addr: a, id: bytes, id_advertised: false }
            },
        }
    }
}

/// Whether an address is this process itself: the loopback address with
/// our own port.
pub fn is_self_peer(addr: &PeerAddr, local_port: u16) -> (r: bool)
    ensures
        r <==> (addr matches PeerAddr::V4 { ip, port } && ip@ == seq![127u8, 0u8, 0u8, 1u8]
            && port == local_port),
{
    match addr {
        PeerAddr::V4 { ip, port } => {
            let r = ip[0] == 127 && ip[1] == 0 && ip[2] == 0 && ip[3] == 1 && *port == local_port;
            proof {
                if ip@ == seq![127u8, 0u8, 0u8, 1u8] {
                    assert(ip@[0] == 127u8);
                }
                if r {
                    assert(ip@ =~= seq![127u8, 0u8, 0u8, 1u8]);
                }
            }
            r
        },
        PeerAddr::V6 { .. } => false,
    }
}

} // verus!
