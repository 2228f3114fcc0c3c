//! The advertisement a router sends to its neighbours, and its fixed binary
//! form: the originator's address (4 bytes, most significant first), the
//! number of records (2 bytes, most significant first), then one 6-byte
//! record per route: network address (4 bytes), prefix length, metric.

use vstd::prelude::*;

verus! {

/// One advertised destination: network, prefix length and hop count as
/// seen by the sender.
#[derive(Clone, Copy, Debug, PartialEq, Eq)]
pub struct RouteEntry {
    pub network: u32,
    pub mask: u8,
    pub metric: u8,
}

/// An advertisement: who sent it and what it reaches.
#[derive(Clone, Debug, PartialEq, Eq)]
pub struct RipMessage {
    pub sender: u32,
    pub routes: Vec<RouteEntry>,
}

/// Why a received datagram is not an advertisement.
#[derive(Clone, Copy, Debug, PartialEq, Eq)]
pub enum MalformedDatagram {
    /// Shorter than the 6-byte header.
    TooShort,
    /// The length is not the header plus the declared number of records.
    LengthMismatch,
    /// A record's prefix length is over 32.
    PrefixTooLong,
}

pub const HEADER_LEN: usize = 6;

pub const RECORD_LEN: usize = 6;

pub const MAX_RECORDS: usize = 0xFFFF;

impl RipMessage {
    pub fn new(sender: u32, routes: Vec<RouteEntry>) -> (r: RipMessage)
        ensures
            r.sender == sender,
            r.routes@ == routes@,
    {
        RipMessage { sender, routes }
    }
}

pub open spec fn be32(x: u32) -> Seq<u8> {
    seq![(x >> 24u32) as u8, (x >> 16u32) as u8, (x >> 8u32) as u8, x as u8]
}

pub open spec fn be16(x: u16) -> Seq<u8> {
    seq![(x >> 8u16) as u8, x as u8]
}

pub open spec fn entry_bytes(e: RouteEntry) -> Seq<u8> {
    be32(e.network) + seq![e.mask, e.metric]
}

pub open spec fn entries_bytes(es: Seq<RouteEntry>) -> Seq<u8>
    decreases es.len(),
{
    if es.len() == 0 {
        Seq::empty()
    } else {
        entries_bytes(es.drop_last()) + entry_bytes(es.last())
    }
}

/// The bytes that carry an advertisement from `sender` of `routes`.
pub open spec fn encoding(sender: u32, routes: Seq<RouteEntry>) -> Seq<u8> {
    be32(sender) + be16(routes.len() as u16) + entries_bytes(routes)
}

pub open spec fn read_u32(b: Seq<u8>, at: int) -> u32 {
    ((b[at] as u32) << 24u32) | ((b[at + 1] as u32) << 16u32) | ((b[at + 2] as u32) << 8u32) | (
    b[at + 3] as u32)
}

pub open spec fn read_u16(b: Seq<u8>, at: int) -> u16 {
    ((b[at] as u16) << 8u16) | (b[at + 1] as u16)
}

/// The record count a datagram declares (it has at least 6 bytes).
pub open spec fn declared_count(b: Seq<u8>) -> nat {
    read_u16(b, 4) as nat
}

/// The `k`-th record of a datagram.
pub open spec fn entry_at(b: Seq<u8>, k: int) -> RouteEntry {
    RouteEntry {
        network: read_u32(b, 6 + 6 * k),
        mask: b[6 + 6 * k + 4],
        metric: b[6 + 6 * k + 5],
    }
}

pub open spec fn length_ok(b: Seq<u8>) -> bool {
    b.len() >= 6 && b.len() == 6 + 6 * declared_count(b)
}

pub open spec fn prefixes_ok(b: Seq<u8>) -> bool {
    forall|k: int| 0 <= k < declared_count(b) ==> (#[trigger] entry_at(b, k)).mask <= 32
}

/// A datagram that decodes: full header, exactly the declared records, and
/// every prefix length at most 32.
pub open spec fn is_valid_datagram(b: Seq<u8>) -> bool {
    length_ok(b) && prefixes_ok(b)
}

/// The records of a valid datagram, in order.
pub open spec fn decoded_entries(b: Seq<u8>) -> Seq<RouteEntry> {
    Seq::new(declared_count(b), |k: int| entry_at(b, k))
}

/// What `decode` reports for the bytes `b`.
pub open spec fn decode_result(b: Seq<u8>) -> Result<(u32, Seq<RouteEntry>), MalformedDatagram> {
    if b.len() < 6 {
        Err(MalformedDatagram::TooShort)
    } else if !length_ok(b) {
        Err(MalformedDatagram::LengthMismatch)
    } else if !prefixes_ok(b) {
        Err(MalformedDatagram::PrefixTooLong)
    } else {
        Ok((read_u32(b, 0), decoded_entries(b)))
    }
}

fn push_u32(out: &mut Vec<u8>, x: u32)
    ensures
        final(out)@ == old(out)@ + be32(x),
{
    out.push((x >> 24u32) as u8);
    out.push((x >> 16u32) as u8);
    out.push((x >> 8u32) as u8);
    out.push(x as u8);
    assert(final(out)@ =~= old(out)@ + be32(x));
}

fn read_u32_at(b: &[u8], at: usize) -> (r: u32)
    requires
        at + 4 <= b@.len(),
    ensures
        r == read_u32(b@, at as int),
{
    ((b[at] as u32) << 24u32) | ((b[at + 1] as u32) << 16u32) | ((b[at + 2] as u32) << 8u32) | (
    b[at + 3] as u32)
}

/// Encodes an advertisement; the record count must fit in two bytes.
pub fn encode(msg: &RipMessage) -> (r: Vec<u8>)
    requires
        msg.routes@.len() <= MAX_RECORDS,
    ensures
        r@ == encoding(msg.sender, msg.routes@),
{
    let mut out: Vec<u8> = Vec::new();
    push_u32(&mut out, msg.sender);
    let n = msg.routes.len();
    let count = n as u16;
    out.push((count >> 8u16) as u8);
    out.push(count as u8);
    assert(out@ =~= be32(msg.sender) + be16(count) + entries_bytes(msg.routes@.take(0)));
    let mut i: usize = 0;
    while i < n
        invariant
            n == msg.routes@.len(),
            count == n as u16,
            i <= n,
            out@ == be32(msg.sender) + be16(count) + entries_bytes(msg.routes@.take(i as int)),
        decreases n - i,
    {
        let e = msg.routes[i];
        let ghost before = out@;
        push_u32(&mut out, e.network);
        out.push(e.mask);
        out.push(e.metric);
        proof {
            let t = msg.routes@.take(i as int + 1);
            assert(t.drop_last() =~= msg.routes@.take(i as int));
            assert(t.last() == e);
            assert(out@ =~= before + entry_bytes(e));
            assert(out@ =~= be32(msg.sender) + be16(count) + entries_bytes(t));
        }
        i = i + 1;
    }
    assert(msg.routes@.take(n as int) =~= msg.routes@);
    out
}

/// Decodes a received datagram, or says why it is malformed.
pub fn decode(data: &[u8]) -> (r: Result<RipMessage, MalformedDatagram>)
    ensures
        match (r, decode_result(data@)) {
            (Ok(m), Ok((sender, routes))) => m.sender == sender && m.routes@ == routes,
            (Err(e), Err(f)) => e == f,
            _ => false,
        },
{
    let len = data.len();
    if len < HEADER_LEN {
        return Err(MalformedDatagram::TooShort);
    }
    let sender = read_u32_at(data, 0);
    let count = (((data[4] as u16) << 8u16) | (data[5] as u16)) as usize;
    assert(count == declared_count(data@));
    if len != HEADER_LEN + RECORD_LEN * count {
        return Err(MalformedDatagram::LengthMismatch);
    }
    let mut routes: Vec<RouteEntry> = Vec::new();
    let mut k: usize = 0;
    while k < count
        invariant
            len == data@.len(),
            len == 6 + 6 * count,
            count == declared_count(data@),
            k <= count,
            routes@ == Seq::new(k as nat, |j: int| entry_at(data@, j)),
            forall|j: int| 0 <= j < k ==> (#[trigger] entry_at(data@, j)).mask <= 32,
        decreases count - k,
    {
        let at = HEADER_LEN + RECORD_LEN * k;
        let network = read_u32_at(data, at);
        let mask = data[at + 4];
        let metric = data[at + 5];
        let e = RouteEntry { network, mask, metric };
        assert(e == entry_at(data@, k as int));
        if mask > 32 {
            assert(!prefixes_ok(data@));
            return Err(MalformedDatagram::PrefixTooLong);
        }
        routes.push(e);
        k = k + 1;
        assert(routes@ =~= Seq::new(k as nat, |j: int| entry_at(data@, j)));
    }
    assert(routes@ =~= decoded_entries(data@));
    Ok(RipMessage { sender, routes })
}

proof fn lemma_be32_read(x: u32)
    ensures
        read_u32(be32(x), 0) == x,
{
    let b = be32(x);
    let b0 = (x >> 24u32) as u8;
    let b1 = (x >> 16u32) as u8;
    let b2 = (x >> 8u32) as u8;
    let b3 = x as u8;
    assert(b[0] == b0 && b[1] == b1 && b[2] == b2 && b[3] == b3);
    assert((((b0 as u32) << 24u32) | ((b1 as u32) << 16u32) | ((b2 as u32) << 8u32) | (b3 as u32))
        == x) by (bit_vector)
        requires
            b0 == (x >> 24u32) as u8,
            b1 == (x >> 16u32) as u8,
            b2 == (x >> 8u32) as u8,
            b3 == x as u8,
    ;
}

proof fn lemma_be16_read(x: u16)
    ensures
        read_u16(be16(x), 0) == x,
{
    let b = be16(x);
    let b0 = (x >> 8u16) as u8;
    let b1 = x as u8;
    assert(b[0] == b0 && b[1] == b1);
    assert((((b0 as u16) << 8u16) | (b1 as u16)) == x) by (bit_vector)
        requires
            b0 == (x >> 8u16) as u8,
            b1 == x as u8,
    ;
}

proof fn lemma_entries_bytes(es: Seq<RouteEntry>)
    ensures
        entries_bytes(es).len() == 6 * es.len(),
        forall|k: int, j: int|
            0 <= k < es.len() && 0 <= j < 6 ==> entries_bytes(es)[6 * k + j] == #[trigger] entry_bytes(
                es[k],
            )[j],
    decreases es.len(),
{
    if es.len() > 0 {
        let p = es.drop_last();
        lemma_entries_bytes(p);
        let eb = entries_bytes(es);
        assert(entry_bytes(es.last()).len() == 6);
        assert forall|k: int, j: int| 0 <= k < es.len() && 0 <= j < 6 implies eb[6 * k + j]
            == #[trigger] entry_bytes(es[k])[j] by {
            if k < es.len() - 1 {
                assert(es[k] == p[k]);
                assert(entry_bytes(p[k])[j] == entries_bytes(p)[6 * k + j]);
            }
        }
    }
}

/// Decoding the encoding of an advertisement gives back its sender and its
/// entries, for any advertisement that fits the format.
pub proof fn lemma_decode_encoding(sender: u32, es: Seq<RouteEntry>)
    requires
        es.len() <= MAX_RECORDS,
        forall|k: int| 0 <= k < es.len() ==> (#[trigger] es[k]).mask <= 32,
    ensures
        decode_result(encoding(sender, es)) == Ok::<(u32, Seq<RouteEntry>), MalformedDatagram>(
            (sender, es),
        ),
{
    let b = encoding(sender, es);
    let n = es.len() as u16;
    lemma_entries_bytes(es);
    lemma_be16_read(n);
    lemma_be32_read(sender);
    let h = be32(sender);
    let c = be16(n);
    assert(b[0] == h[0] && b[1] == h[1] && b[2] == h[2] && b[3] == h[3]);
    assert(b[4] == c[0] && b[5] == c[1]);
    assert(read_u32(b, 0) == sender);
    assert(declared_count(b) == es.len());
    assert forall|k: int| 0 <= k < es.len() implies #[trigger] entry_at(b, k) == es[k] by {
        let e = es[k];
        let eb = entry_bytes(e);
        lemma_be32_read(e.network);
        assert(b[6 + 6 * k] == eb[0]);
        assert(b[6 + 6 * k + 1] == eb[1]);
        assert(b[6 + 6 * k + 2] == eb[2]);
        assert(b[6 + 6 * k + 3] == eb[3]);
        assert(b[6 + 6 * k + 4] == eb[4]);
        assert(b[6 + 6 * k + 5] == eb[5]);
        assert(read_u32(b, 6 + 6 * k) == read_u32(be32(e.network), 0));
    }
    assert(decoded_entries(b) =~= es);
}

} // verus!
