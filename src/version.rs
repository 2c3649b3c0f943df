//! The `version` message that opens a handshake, and the `ping` / `pong` nonces.
use vstd::prelude::*;

use crate::codec::{
    at, enc_bool, enc_i32, enc_i64, enc_u64, enc_u8, enc_var_bytes, lemma_at_join, lemma_at_split,
    lemma_le_bytes_len, read_i32, read_i64, read_u64, read_u8, read_var_bytes, write_bool, write_i32,
    write_i64, write_u64, write_u8, write_var_bytes,
};
use crate::error::ErrorMessage;

verus! {

/// The lowest protocol version whose `version` message carries the relay flag.
pub const RELAY_MIN_VERSION: i32 = 70001;

/// A peer's network address as the `version` message carries it.
#[derive(Debug, Clone, Copy, PartialEq, Eq)]
pub struct NetAddr {
    pub services: u64,
    /// IPv6, or IPv4 mapped into IPv6.
    pub ip: [u8; 16],
    pub port: u16,
}

/// The payload of a `version` message.
#[derive(Debug)]
pub struct VersionMessage {
    pub version: i32,
    pub services: u64,
    /// Seconds since the epoch.
    pub timestamp: i64,
    pub addr_recv: NetAddr,
    pub addr_from: NetAddr,
    pub nonce: u64,
    pub user_agent: Vec<u8>,
    pub start_height: i32,
    /// Carried only from `RELAY_MIN_VERSION` on; read as `false` before it.
    pub relay: bool,
}

/// The 26 bytes of an address: services, then the ip, then the port in network byte order.
pub open spec fn enc_addr(a: NetAddr) -> Seq<u8> {
    enc_u64(a.services) + a.ip@ + seq![(a.port / 256) as u8, (a.port % 256) as u8]
}

pub open spec fn enc_version(m: VersionMessage) -> Seq<u8> {
    enc_i32(m.version) + enc_u64(m.services) + enc_i64(m.timestamp) + enc_addr(m.addr_recv) + enc_addr(
        m.addr_from,
    ) + enc_u64(m.nonce) + enc_var_bytes(m.user_agent@) + enc_i32(m.start_height) + if m.version
        >= RELAY_MIN_VERSION {
        enc_bool(m.relay)
    } else {
        Seq::empty()
    }
}

impl VersionMessage {
    /// The two messages carry the same fields; the relay flag counts only
    /// where the version carries it.
    pub open spec fn same_as(&self, o: VersionMessage) -> bool {
        &&& self.version == o.version
        &&& self.services == o.services
        &&& self.timestamp == o.timestamp
        &&& self.addr_recv == o.addr_recv
        &&& self.addr_from == o.addr_from
        &&& self.nonce == o.nonce
        &&& self.user_agent@ == o.user_agent@
        &&& self.start_height == o.start_height
        &&& (self.version >= RELAY_MIN_VERSION ==> self.relay == o.relay)
    }
}

pub fn write_addr(a: &NetAddr, out: &mut Vec<u8>)
    ensures
        final(out)@ == old(out)@ + enc_addr(*a),
{
    write_u64(a.services, out);
    let mut i: usize = 0;
    let ghost start = out@;
    while i < 16
        invariant
            i <= 16,
            out@ == start + a.ip@.subrange(0, i as int),
        decreases 16 - i,
    {
        out.push(a.ip[i]);
        i = i + 1;
        assert(out@ =~= start + a.ip@.subrange(0, i as int));
    }
    assert(a.ip@.subrange(0, 16) =~= a.ip@);
    out.push((a.port / 256) as u8);
    out.push((a.port % 256) as u8);
    assert(out@ =~= old(out)@ + enc_addr(*a));
}

pub fn read_addr(bytes: &Vec<u8>, pos: usize) -> (r: Result<(NetAddr, usize), ErrorMessage>)
    ensures
        r matches Ok((a, next)) ==> next == pos + 26 && at(enc_addr(a), bytes@, pos as int),
        forall|a: NetAddr| #[trigger]
            at(enc_addr(a), bytes@, pos as int) ==> r == Ok::<(NetAddr, usize), ErrorMessage>(
                (a, (pos + 26) as usize),
            ),
{
    let ghost s = bytes@;
    assert forall|a: NetAddr| #[trigger] at(enc_addr(a), s, pos as int) implies at(
        enc_u64(a.services),
        s,
        pos as int,
    ) && at(a.ip@, s, pos + 8) && at(enc_u8((a.port / 256) as u8), s, pos + 24) && at(
        enc_u8((a.port % 256) as u8),
        s,
        pos + 25,
    ) by {
        lemma_le_bytes_len(a.services as nat, 8);
        let x = enc_u64(a.services);
        let y = a.ip@;
        let z = seq![(a.port / 256) as u8, (a.port % 256) as u8];
        assert(z =~= enc_u8((a.port / 256) as u8) + enc_u8((a.port % 256) as u8));
        lemma_at_split(x + y, z, s, pos as int);
        lemma_at_split(x, y, s, pos as int);
        lemma_at_split(enc_u8((a.port / 256) as u8), enc_u8((a.port % 256) as u8), s, pos + 24);
    }
    let (services, p) = match read_u64(bytes, pos) {
        Ok(x) => x,
        Err(e) => return Err(e),
    };
    if bytes.len() < 18 || p > bytes.len() - 18 {
        assert forall|a: NetAddr| #[trigger] at(enc_addr(a), s, pos as int) implies false by {
            lemma_le_bytes_len(a.services as nat, 8);
        }
        return Err(ErrorMessage::ErrorInDeserialization);
    }
    let mut ip: [u8; 16] = [0u8; 16];
    let mut i: usize = 0;
    while i < 16
        invariant
            i <= 16,
            p + 18 <= bytes.len(),
            forall|j: int| 0 <= j < i ==> ip@[j] == bytes@[p + j],
        decreases 16 - i,
    {
        ip[i] = bytes[p + i];
        i = i + 1;
    }
    assert(ip@ =~= s.subrange(p as int, p + 16));
    let hi = bytes[p + 16];
    let lo = bytes[p + 17];
    let port: u16 = hi as u16 * 256 + lo as u16;
    let a = NetAddr { services, ip, port };
    proof {
        assert((port / 256) as u8 == hi && (port % 256) as u8 == lo);
        let x = enc_u64(services);
        lemma_le_bytes_len(services as nat, 8);
        assert(s.subrange(p + 16, p + 18) =~= seq![hi, lo]);
        lemma_at_join(x, ip@, s, pos as int);
        lemma_at_join(x + ip@, seq![hi, lo], s, pos as int);
        assert(enc_addr(a) =~= x + ip@ + seq![hi, lo]);
        assert forall|b: NetAddr| #[trigger] at(enc_addr(b), s, pos as int) implies b == a by {
            assert(b.services == services);
            assert(s.subrange(p as int, p + 16) =~= b.ip@);
            assert(b.ip =~= ip);
            assert(s.subrange(p + 16, p + 17)[0] == (b.port / 256) as u8);
            assert(s.subrange(p + 17, p + 18)[0] == (b.port % 256) as u8);
            assert(b.port == port);
        }
    }
    Ok((a, p + 18))
}


pub proof fn lemma_addr_len(a: NetAddr)
    ensures
        enc_addr(a).len() == 26,
{
    lemma_le_bytes_len(a.services as nat, 8);
}

/// The encoding without the relay flag.
pub open spec fn enc_version_body(m: VersionMessage) -> Seq<u8> {
    enc_i32(m.version) + enc_u64(m.services) + enc_i64(m.timestamp) + enc_addr(m.addr_recv) + enc_addr(
        m.addr_from,
    ) + enc_u64(m.nonce) + enc_var_bytes(m.user_agent@) + enc_i32(m.start_height)
}

/// Where each field of a `version` payload stands.
pub proof fn lemma_version_parts(m: VersionMessage, s: Seq<u8>, pos: int)
    requires
        at(enc_version_body(m), s, pos),
    ensures
        at(enc_i32(m.version), s, pos),
        at(enc_u64(m.services), s, pos + 4),
        at(enc_i64(m.timestamp), s, pos + 12),
        at(enc_addr(m.addr_recv), s, pos + 20),
        at(enc_addr(m.addr_from), s, pos + 46),
        at(enc_u64(m.nonce), s, pos + 72),
        at(enc_var_bytes(m.user_agent@), s, pos + 80),
        at(enc_i32(m.start_height), s, pos + 80 + enc_var_bytes(m.user_agent@).len()),
        enc_version_body(m).len() == 84 + enc_var_bytes(m.user_agent@).len(),
{
    let a = enc_i32(m.version);
    let b = enc_u64(m.services);
    let c = enc_i64(m.timestamp);
    let d = enc_addr(m.addr_recv);
    let e = enc_addr(m.addr_from);
    let f = enc_u64(m.nonce);
    let g = enc_var_bytes(m.user_agent@);
    let h = enc_i32(m.start_height);
    lemma_le_bytes_len(m.version as u32 as nat, 4);
    lemma_le_bytes_len(m.services as nat, 8);
    lemma_le_bytes_len(m.timestamp as u64 as nat, 8);
    lemma_le_bytes_len(m.nonce as nat, 8);
    lemma_le_bytes_len(m.start_height as u32 as nat, 4);
    lemma_addr_len(m.addr_recv);
    lemma_addr_len(m.addr_from);
    lemma_at_split(a + b + c + d + e + f + g, h, s, pos);
    lemma_at_split(a + b + c + d + e + f, g, s, pos);
    lemma_at_split(a + b + c + d + e, f, s, pos);
    lemma_at_split(a + b + c + d, e, s, pos);
    lemma_at_split(a + b + c, d, s, pos);
    lemma_at_split(a + b, c, s, pos);
    lemma_at_split(a, b, s, pos);
}

/// Appends the `version` payload of `m`.
pub fn write_version(m: &VersionMessage, out: &mut Vec<u8>)
    ensures
        final(out)@ == old(out)@ + enc_version(*m),
{
    write_i32(m.version, out);
    write_u64(m.services, out);
    write_i64(m.timestamp, out);
    write_addr(&m.addr_recv, out);
    write_addr(&m.addr_from, out);
    write_u64(m.nonce, out);
    write_var_bytes(&m.user_agent, out);
    write_i32(m.start_height, out);
    if m.version >= RELAY_MIN_VERSION {
        write_bool(m.relay, out);
    }
    assert(out@ =~= old(out)@ + enc_version(*m));
}

/// Reads a `version` payload; the payload must hold nothing else.
#[verifier::rlimit(60)]
pub fn read_version(bytes: &Vec<u8>) -> (r: Result<VersionMessage, ErrorMessage>)
    ensures
        r matches Ok(m) ==> bytes@ == enc_version(m) && (m.version < RELAY_MIN_VERSION ==> !m.relay),
        forall|m: VersionMessage| #[trigger]
            enc_version(m) == bytes@ ==> (r matches Ok(w) && w.same_as(m)),
{
    let ghost s = bytes@;
    assert forall|m: VersionMessage| #[trigger] enc_version(m) == s implies at(enc_version_body(m), s, 0)
        && at(
        if m.version >= RELAY_MIN_VERSION {
            enc_bool(m.relay)
        } else {
            Seq::empty()
        },
        s,
        enc_version_body(m).len() as int,
    ) by {
        assert(s.subrange(0, s.len() as int) =~= s);
        assert(enc_version(m) =~= enc_version_body(m) + if m.version >= RELAY_MIN_VERSION {
            enc_bool(m.relay)
        } else {
            Seq::empty()
        });
        lemma_at_split(enc_version_body(m), if m.version >= RELAY_MIN_VERSION {
            enc_bool(m.relay)
        } else {
            Seq::empty()
        }, s, 0);
    }
    assert forall|m: VersionMessage| #[trigger] enc_version(m) == s implies at(enc_i32(m.version), s, 0)
        && at(enc_u64(m.services), s, 4) && at(enc_i64(m.timestamp), s, 12) && at(
        enc_addr(m.addr_recv),
        s,
        20,
    ) && at(enc_addr(m.addr_from), s, 46) && at(enc_u64(m.nonce), s, 72) && at(
        enc_var_bytes(m.user_agent@),
        s,
        80,
    ) && at(enc_i32(m.start_height), s, 80 + enc_var_bytes(m.user_agent@).len() as int) by {
        lemma_version_parts(m, s, 0);
    }
    let (version, p) = match read_i32(bytes, 0) {
        Ok(x) => x,
        Err(e) => return Err(e),
    };
    let (services, p) = match read_u64(bytes, p) {
        Ok(x) => x,
        Err(e) => return Err(e),
    };
    let (timestamp, p) = match read_i64(bytes, p) {
        Ok(x) => x,
        Err(e) => return Err(e),
    };
    let (addr_recv, p) = match read_addr(bytes, p) {
        Ok(x) => x,
        Err(e) => return Err(e),
    };
    let (addr_from, p) = match read_addr(bytes, p) {
        Ok(x) => x,
        Err(e) => return Err(e),
    };
    let (nonce, p) = match read_u64(bytes, p) {
        Ok(x) => x,
        Err(e) => return Err(e),
    };
    let (user_agent, p) = match read_var_bytes(bytes, p) {
        Ok(x) => x,
        Err(e) => return Err(e),
    };
    let (start_height, p) = match read_i32(bytes, p) {
        Ok(x) => x,
        Err(e) => return Err(e),
    };
    let ghost body_end = p;
    assert forall|mm: VersionMessage| #[trigger] enc_version(mm) == s implies mm.version == version
        && mm.services == services && mm.timestamp == timestamp && mm.addr_recv == addr_recv
        && mm.addr_from == addr_from && mm.nonce == nonce && mm.user_agent@ == user_agent@
        && mm.start_height == start_height && body_end == enc_version_body(mm).len() && at(
        if mm.version >= RELAY_MIN_VERSION {
            enc_bool(mm.relay)
        } else {
            Seq::empty()
        },
        s,
        body_end as int,
    ) by {
        lemma_version_parts(mm, s, 0);
        lemma_le_bytes_len(mm.start_height as u32 as nat, 4);
    }
    let (relay, p) = if version >= RELAY_MIN_VERSION {
        let (b, q) = match read_u8(bytes, p) {
            Ok(x) => x,
            Err(e) => return Err(e),
        };
        if b > 1 {
            assert forall|mm: VersionMessage| #[trigger] enc_version(mm) == s implies false by {
                assert(enc_bool(mm.relay) =~= enc_u8(if mm.relay { 1u8 } else { 0u8 }));
                assert(s.subrange(p as int, p + 1)[0] == b);
            }
            return Err(ErrorMessage::ErrorInDeserialization);
        }
        proof {
            assert(enc_u8(b) =~= enc_bool(b == 1));
        }
        (b == 1, q)
    } else {
        (false, p)
    };
    assert(version >= RELAY_MIN_VERSION ==> at(enc_bool(relay), s, body_end as int));
    let m = VersionMessage {
        version,
        services,
        timestamp,
        addr_recv,
        addr_from,
        nonce,
        user_agent,
        start_height,
        relay,
    };
    proof {
        lemma_le_bytes_len(version as u32 as nat, 4);
        lemma_le_bytes_len(services as nat, 8);
        lemma_le_bytes_len(timestamp as u64 as nat, 8);
        lemma_le_bytes_len(nonce as nat, 8);
        lemma_le_bytes_len(start_height as u32 as nat, 4);
        lemma_addr_len(addr_recv);
        lemma_addr_len(addr_from);
        let a = enc_i32(m.version);
        let b = enc_u64(m.services);
        let c = enc_i64(m.timestamp);
        let d = enc_addr(m.addr_recv);
        let e = enc_addr(m.addr_from);
        let f = enc_u64(m.nonce);
        let g = enc_var_bytes(m.user_agent@);
        let h = enc_i32(m.start_height);
        lemma_at_join(a, b, s, 0);
        lemma_at_join(a + b, c, s, 0);
        lemma_at_join(a + b + c, d, s, 0);
        lemma_at_join(a + b + c + d, e, s, 0);
        lemma_at_join(a + b + c + d + e, f, s, 0);
        lemma_at_join(a + b + c + d + e + f, g, s, 0);
        lemma_at_join(a + b + c + d + e + f + g, h, s, 0);
        let tail = if m.version >= RELAY_MIN_VERSION {
            enc_bool(m.relay)
        } else {
            Seq::empty()
        };
        if version < RELAY_MIN_VERSION {
            assert(s.subrange(p as int, p as int) =~= tail);
        }
        lemma_at_join(enc_version_body(m), tail, s, 0);
        assert(enc_version(m) =~= enc_version_body(m) + tail);
    }
    if p != bytes.len() {
        assert forall|mm: VersionMessage| #[trigger] enc_version(mm) == s implies false by {
            lemma_version_parts(mm, s, 0);
            if mm.version >= RELAY_MIN_VERSION {
                assert(enc_bool(mm.relay).len() == 1);
            }
        }
        return Err(ErrorMessage::ErrorInDeserialization);
    }
    proof {
        assert(s =~= s.subrange(0, p as int));
        assert(s == enc_version(m));
        assert forall|mm: VersionMessage| #[trigger] enc_version(mm) == s implies m.same_as(mm) by {
            if version >= RELAY_MIN_VERSION {
                assert(s.subrange(body_end as int, body_end + 1) == enc_bool(mm.relay));
                assert(s.subrange(body_end as int, body_end + 1) == enc_bool(relay));
                assert(enc_bool(mm.relay)[0] == enc_bool(relay)[0]);
            }
        }
    }
    Ok(m)
}


/// Relies on `chrono::Utc::now` and `DateTime::timestamp`: the current time
/// in whole seconds since the epoch. It depends on the clock, so nothing is
/// promised of it.
#[verifier::external_body]
fn now_timestamp() -> (r: i64) {
    chrono::Utc::now().timestamp()
}

impl VersionMessage {
    /// A `version` message stamped with the current time.
    pub fn new(
        version: i32,
        services: u64,
        addr_recv: NetAddr,
        addr_from: NetAddr,
        nonce: u64,
        user_agent: Vec<u8>,
        start_height: i32,
        relay: bool,
    ) -> (r: VersionMessage)
        ensures
            r.version == version,
            r.services == services,
            r.addr_recv == addr_recv,
            r.addr_from == addr_from,
            r.nonce == nonce,
            r.user_agent@ == user_agent@,
            r.start_height == start_height,
            r.relay == relay,
    {
        let timestamp = now_timestamp();
        VersionMessage {
            version,
            services,
            timestamp,
            addr_recv,
            addr_from,
            nonce,
            user_agent,
            start_height,
            relay,
        }
    }
}

/// The `pong` payload that answers the `ping` payload `ping`: the same nonce.
pub fn pong_for(ping: &Vec<u8>) -> (r: Result<Vec<u8>, ErrorMessage>)
    ensures
        r is Ok <==> ping@.len() == 8,
        r matches Ok(p) ==> p@ == ping@,
{
    if ping.len() != 8 {
        return Err(ErrorMessage::ErrorInDeserialization);
    }
    let (nonce, _) = match read_u64(ping, 0) {
        Ok(x) => x,
        Err(e) => return Err(e),
    };
    let mut out: Vec<u8> = Vec::new();
    write_u64(nonce, &mut out);
    proof {
        assert(ping@.subrange(0, 8) =~= ping@);
        lemma_le_bytes_len(nonce as nat, 8);
    }
    assert(out@ =~= ping@);
    Ok(out)
}

} // verus!
