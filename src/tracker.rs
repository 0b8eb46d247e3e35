//! The UDP tracker protocol: the connect and announce datagrams and the
//! session that drives them.
use vstd::prelude::*;
use crate::wire::{
    lemma_be16_bytes, lemma_be32_bytes, lemma_be64_bytes, be16, be32, be64, push_u16, push_u32, push_u64, read_u16, read_u32, read_u64, u16_bytes,
    u32_bytes, u64_bytes, copy_bytes,
};

verus! {

/// Magic number that opens every connect request.
pub const PROTOCOL_ID: u64 = 0x41727101980;

/// Action code of the connect exchange.
pub const ACTION_CONNECT: u32 = 0;

/// Action code of the announce exchange.
pub const ACTION_ANNOUNCE: u32 = 1;

/// Size of an announce request on the wire.
pub const ANNOUNCE_REQUEST_LEN: usize = 98;

/// Size of the fixed header of an announce response.
pub const ANNOUNCE_HEADER_LEN: usize = 20;

/// Size of a connect request and of a connect response.
pub const CONNECT_LEN: usize = 16;

/// The event that an announce reports.
#[derive(Clone, Copy, Debug, PartialEq, Eq)]
pub enum AnnounceEventType {
    Undefined,
    Completed,
    Started,
    Stopped,
}

/// The wire code of an event.
pub open spec fn event_code(e: AnnounceEventType) -> int {
    match e {
        AnnounceEventType::Undefined => 0,
        AnnounceEventType::Completed => 1,
        AnnounceEventType::Started => 2,
        AnnounceEventType::Stopped => 3,
    }
}

impl AnnounceEventType {
    /// The wire code of this event.
    pub fn code(&self) -> (r: u32)
        ensures
            r as int == event_code(*self),
    {
        match self {
            AnnounceEventType::Undefined => 0,
            AnnounceEventType::Completed => 1,
            AnnounceEventType::Started => 2,
            AnnounceEventType::Stopped => 3,
        }
    }

    /// The event with the given wire code; `None` for an unknown code.
    pub fn from_code(code: u32) -> (r: Option<AnnounceEventType>)
        ensures
            match r {
                Some(e) => event_code(e) == code as int,
                None => code > 3,
            },
    {
        if code == 0 {
            Some(AnnounceEventType::Undefined)
        } else if code == 1 {
            Some(AnnounceEventType::Completed)
        } else if code == 2 {
            Some(AnnounceEventType::Started)
        } else if code == 3 {
            Some(AnnounceEventType::Stopped)
        } else {
            None
        }
    }
}

/// An IPv4 announce request. `num_want` holds the protocol's signed count
/// in two's complement: `0xFFFF_FFFF` asks for the tracker's default.
#[derive(Clone, Copy, Debug, PartialEq, Eq)]
pub struct IpV4AnnounceRequest {
    pub connection_id: u64,
    pub action: u32,
    pub transaction_id: u32,
    pub info_hash: [u8; 20],
    pub peer_id: [u8; 20],
    pub downloaded: u64,
    pub left: u64,
    pub uploaded: u64,
    pub event: AnnounceEventType,
    pub ip_address: u32,
    pub key: u32,
    pub num_want: u32,
    pub port: u16,
}

/// The 98 bytes of an announce request, fields in order, big-endian.
pub open spec fn request_bytes(r: IpV4AnnounceRequest) -> Seq<u8> {
    u64_bytes(r.connection_id as int) + u32_bytes(r.action as int) + u32_bytes(
        r.transaction_id as int,
    ) + r.info_hash@ + r.peer_id@ + u64_bytes(r.downloaded as int) + u64_bytes(r.left as int)
        + u64_bytes(r.uploaded as int) + u32_bytes(event_code(r.event)) + u32_bytes(
        r.ip_address as int,
    ) + u32_bytes(r.key as int) + u32_bytes(r.num_want as int) + u16_bytes(r.port as int)
}

/// Whether `b` holds an announce request at its start: long enough, with a
/// known event code.
pub open spec fn request_readable(b: Seq<u8>) -> bool {
    b.len() >= 98 && be32(b, 80) <= 3
}

/// Copies the 20 bytes at `at`.
fn read_20(b: &[u8], at: usize) -> (r: [u8; 20])
    requires
        at + 20 <= b@.len(),
    ensures
        r@ == b@.subrange(at as int, at + 20),
{
    let n = b.len();
    let mut a: [u8; 20] = [0u8; 20];
    let mut k: usize = 0;
    while k < 20
        invariant
            k <= 20,
            at + 20 <= b@.len(),
            n == b@.len(),
            forall|m: int| 0 <= m < k ==> a@[m] == b@[at + m],
        decreases 20 - k,
    {
        a[k] = b[at + k];
        k = k + 1;
    }
    assert(a@ =~= b@.subrange(at as int, at + 20));
    a
}

/// Appends the 20 bytes of `a`.
fn push_20(out: &mut Vec<u8>, a: &[u8; 20])
    ensures
        final(out)@ == old(out)@ + a@,
{
    let ghost start = out@;
    let mut k: usize = 0;
    while k < 20
        invariant
            k <= 20,
            a@.len() == 20,
            out@ == start + a@.subrange(0, k as int),
        decreases 20 - k,
    {
        out.push(a[k]);
        k = k + 1;
        assert(out@ =~= start + a@.subrange(0, k as int));
    }
    assert(a@.subrange(0, 20) =~= a@);
}

impl IpV4AnnounceRequest {
    /// The request as it goes on the wire.
    pub fn to_bytes(&self) -> (r: Vec<u8>)
        ensures
            r@ == request_bytes(*self),
            r@.len() == 98,
    {
        let mut out: Vec<u8> = Vec::new();
        push_u64(&mut out, self.connection_id);
        push_u32(&mut out, self.action);
        push_u32(&mut out, self.transaction_id);
        push_20(&mut out, &self.info_hash);
        push_20(&mut out, &self.peer_id);
        push_u64(&mut out, self.downloaded);
        push_u64(&mut out, self.left);
        push_u64(&mut out, self.uploaded);
        push_u32(&mut out, self.event.code());
        push_u32(&mut out, self.ip_address);
        push_u32(&mut out, self.key);
        push_u32(&mut out, self.num_want);
        push_u16(&mut out, self.port);
        assert(out@ =~= request_bytes(*self));
        out
    }

    /// Reads a request from the first 98 bytes of `bytes`; `None` when fewer
    /// are given or the event code is unknown.
    pub fn from_bytes(bytes: &[u8]) -> (r: Option<Self>)
        ensures
            r is Some <==> request_readable(bytes@),
            match r {
                Some(q) => {
                    &&& q.connection_id as int == be64(bytes@, 0)
                    &&& q.action as int == be32(bytes@, 8)
                    &&& q.transaction_id as int == be32(bytes@, 12)
                    &&& q.info_hash@ == bytes@.subrange(16, 36)
                    &&& q.peer_id@ == bytes@.subrange(36, 56)
                    &&& q.downloaded as int == be64(bytes@, 56)
                    &&& q.left as int == be64(bytes@, 64)
                    &&& q.uploaded as int == be64(bytes@, 72)
                    &&& event_code(q.event) == be32(bytes@, 80)
                    &&& q.ip_address as int == be32(bytes@, 84)
                    &&& q.key as int == be32(bytes@, 88)
                    &&& q.num_want as int == be32(bytes@, 92)
                    &&& q.port as int == be16(bytes@, 96)
                },
                None => true,
            },
    {
        if bytes.len() < ANNOUNCE_REQUEST_LEN {
            return None;
        }
        let event = match AnnounceEventType::from_code(read_u32(bytes, 80)) {
            Some(e) => e,
            None => return None,
        };
        Some(IpV4AnnounceRequest {
            connection_id: read_u64(bytes, 0),
            action: read_u32(bytes, 8),
            transaction_id: read_u32(bytes, 12),
            info_hash: read_20(bytes, 16),
            peer_id: read_20(bytes, 36),
            downloaded: read_u64(bytes, 56),
            left: read_u64(bytes, 64),
            uploaded: read_u64(bytes, 72),
            event,
            ip_address: read_u32(bytes, 84),
            key: read_u32(bytes, 88),
            num_want: read_u32(bytes, 92),
            port: read_u16(bytes, 96),
        })
    }
}

/// One peer address of an announce response.
#[derive(Clone, Copy, Debug, PartialEq, Eq)]
pub struct IpV4AnnounceAddress {
    pub ip: u32,
    pub port: u16,
}

/// An announce response: the fixed header and the peer addresses after it.
#[derive(Clone, Debug, PartialEq, Eq)]
pub struct IpV4AnnounceResponse {
    pub action: u32,
    pub transaction_id: u32,
    pub interval: u32,
    pub leechers: u32,
    pub seeders: u32,
    pub addresses: Vec<IpV4AnnounceAddress>,
}

/// Whether `b` is a whole announce response: the 20-byte header followed by
/// 6-byte address blocks only.
pub open spec fn response_readable(b: Seq<u8>) -> bool {
    b.len() >= 20 && (b.len() - 20) % 6 == 0
}

/// Whether `r` holds what the bytes `b` of a readable response say, address
/// blocks in their order.
pub open spec fn response_of(r: IpV4AnnounceResponse, b: Seq<u8>) -> bool {
    &&& r.action as int == be32(b, 0)
    &&& r.transaction_id as int == be32(b, 4)
    &&& r.interval as int == be32(b, 8)
    &&& r.leechers as int == be32(b, 12)
    &&& r.seeders as int == be32(b, 16)
    &&& r.addresses@.len() == (b.len() - 20) / 6
    &&& forall|k: int|
        0 <= k < r.addresses@.len() ==> {
            &&& (#[trigger] r.addresses@[k]).ip as int == be32(b, 20 + 6 * k)
            &&& r.addresses@[k].port as int == be16(b, 24 + 6 * k)
        }
}

impl IpV4AnnounceResponse {
    /// Reads a response; `None` when it is shorter than its header or the
    /// bytes after the header are not whole 6-byte address blocks.
    pub fn from_bytes(bytes: &[u8]) -> (r: Option<Self>)
        ensures
            r is Some <==> response_readable(bytes@),
            match r {
                Some(resp) => response_of(resp, bytes@),
                None => true,
            },
    {
        let n = bytes.len();
        if n < ANNOUNCE_HEADER_LEN || (n - ANNOUNCE_HEADER_LEN) % 6 != 0 {
            return None;
        }
        let count: usize = (n - ANNOUNCE_HEADER_LEN) / 6;
        let mut addresses: Vec<IpV4AnnounceAddress> = Vec::new();
        let mut k: usize = 0;
        while k < count
            invariant
                n == bytes@.len(),
                n >= 20,
                count == (n - 20) / 6,
                (n - 20) % 6 == 0,
                k <= count,
                addresses@.len() == k,
                forall|m: int|
                    0 <= m < k ==> {
                        &&& (#[trigger] addresses@[m]).ip as int == be32(bytes@, 20 + 6 * m)
                        &&& addresses@[m].port as int == be16(bytes@, 24 + 6 * m)
                    },
            decreases count - k,
        {
            let at: usize = ANNOUNCE_HEADER_LEN + 6 * k;
            let ip = read_u32(bytes, at);
            let port = read_u16(bytes, at + 4);
            addresses.push(IpV4AnnounceAddress { ip, port });
            k = k + 1;
        }
        Some(IpV4AnnounceResponse {
            action: read_u32(bytes, 0),
            transaction_id: read_u32(bytes, 4),
            interval: read_u32(bytes, 8),
            leechers: read_u32(bytes, 12),
            seeders: read_u32(bytes, 16),
            addresses,
        })
    }
}

/// The 16 bytes of a connect request.
pub open spec fn connect_bytes(transaction_id: u32) -> Seq<u8> {
    u64_bytes(PROTOCOL_ID as int) + u32_bytes(ACTION_CONNECT as int) + u32_bytes(
        transaction_id as int,
    )
}

/// Whether `b` answers the connect request with the given transaction id.
pub open spec fn connect_reply_ok(b: Seq<u8>, transaction_id: u32) -> bool {
    b.len() >= 16 && be32(b, 0) == ACTION_CONNECT as int && be32(b, 4) == transaction_id as int
}

/// Whether `b` answers the announce request with the given transaction id.
pub open spec fn announce_reply_ok(b: Seq<u8>, transaction_id: u32) -> bool {
    b.len() >= 20 && be32(b, 0) == ACTION_ANNOUNCE as int && be32(b, 4) == transaction_id as int
}

/// Builds a connect request.
pub fn connect_request(transaction_id: u32) -> (r: Vec<u8>)
    ensures
        r@ == connect_bytes(transaction_id),
        r@.len() == 16,
{
    let mut out: Vec<u8> = Vec::new();
    push_u64(&mut out, PROTOCOL_ID);
    push_u32(&mut out, ACTION_CONNECT);
    push_u32(&mut out, transaction_id);
    out
}

/// The connection id in a connect response; `None` when the datagram is too
/// short, is not a connect response, or answers another transaction.
pub fn parse_connect_response(bytes: &[u8], transaction_id: u32) -> (r: Option<u64>)
    ensures
        connect_reply_ok(bytes@, transaction_id) ==> r == Some(be64(bytes@, 8) as u64),
        !connect_reply_ok(bytes@, transaction_id) ==> r is None,
{
    if bytes.len() < CONNECT_LEN {
        return None;
    }
    if read_u32(bytes, 0) != ACTION_CONNECT || read_u32(bytes, 4) != transaction_id {
        return None;
    }
    Some(read_u64(bytes, 8))
}

/// The bytes of a request read back as that request: every field is found
/// where it was written, and the event code is a known one.
pub proof fn lemma_request_read_back(r: IpV4AnnounceRequest)
    ensures
        request_readable(request_bytes(r)),
        be64(request_bytes(r), 0) == r.connection_id as int,
        be32(request_bytes(r), 8) == r.action as int,
        be32(request_bytes(r), 12) == r.transaction_id as int,
        request_bytes(r).subrange(16, 36) == r.info_hash@,
        request_bytes(r).subrange(36, 56) == r.peer_id@,
        be64(request_bytes(r), 56) == r.downloaded as int,
        be64(request_bytes(r), 64) == r.left as int,
        be64(request_bytes(r), 72) == r.uploaded as int,
        be32(request_bytes(r), 80) == event_code(r.event),
        be32(request_bytes(r), 84) == r.ip_address as int,
        be32(request_bytes(r), 88) == r.key as int,
        be32(request_bytes(r), 92) == r.num_want as int,
        be16(request_bytes(r), 96) == r.port as int,
{
    let b = request_bytes(r);
    assert(b.len() == 98);
    assert(b.subrange(0, 8) =~= u64_bytes(r.connection_id as int));
    lemma_be64_bytes(b, 0, r.connection_id as int);
    assert(b.subrange(8, 12) =~= u32_bytes(r.action as int));
    lemma_be32_bytes(b, 8, r.action as int);
    assert(b.subrange(12, 16) =~= u32_bytes(r.transaction_id as int));
    lemma_be32_bytes(b, 12, r.transaction_id as int);
    assert(b.subrange(16, 36) =~= r.info_hash@);
    assert(b.subrange(36, 56) =~= r.peer_id@);
    assert(b.subrange(56, 64) =~= u64_bytes(r.downloaded as int));
    lemma_be64_bytes(b, 56, r.downloaded as int);
    assert(b.subrange(64, 72) =~= u64_bytes(r.left as int));
    lemma_be64_bytes(b, 64, r.left as int);
    assert(b.subrange(72, 80) =~= u64_bytes(r.uploaded as int));
    lemma_be64_bytes(b, 72, r.uploaded as int);
    assert(b.subrange(80, 84) =~= u32_bytes(event_code(r.event)));
    lemma_be32_bytes(b, 80, event_code(r.event));
    assert(b.subrange(84, 88) =~= u32_bytes(r.ip_address as int));
    lemma_be32_bytes(b, 84, r.ip_address as int);
    assert(b.subrange(88, 92) =~= u32_bytes(r.key as int));
    lemma_be32_bytes(b, 88, r.key as int);
    assert(b.subrange(92, 96) =~= u32_bytes(r.num_want as int));
    lemma_be32_bytes(b, 92, r.num_want as int);
    assert(b.subrange(96, 98) =~= u16_bytes(r.port as int));
    lemma_be16_bytes(b, 96, r.port as int);
}

} // verus!
