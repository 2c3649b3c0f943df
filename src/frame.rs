//! Message framing: magic, command name, length and checksum around a payload.
use vstd::prelude::*;

use crate::codec::{at, enc_u32, lemma_at_join, lemma_at_split, lemma_le_bytes_len, read_bytes, read_u32, write_bytes, write_u32};
use crate::error::ErrorMessage;
use crate::hash::{checksum, checksum_of};

verus! {

/// The largest payload that a frame may declare: 32 MiB.
pub const MAX_PAYLOAD: u32 = 0x200_0000;

/// The most frames that `deserialize_until_found` reads in search of one.
pub const MAX_SKIPPED_FRAMES: usize = 100;

/// The network magic of mainnet.
pub const MAGIC_MAINNET: u32 = 0xD9B4_BEF9;

/// The network magic of testnet.
pub const MAGIC_TESTNET: u32 = 0x0709_110B;

/// The network magic of regtest.
pub const MAGIC_REGTEST: u32 = 0xDAB5_BFFA;

/// The commands that this node speaks.
#[derive(Debug, Clone, Copy, PartialEq, Eq, Structural)]
pub enum CommandName {
    Version,
    VerAck,
    GetHeaders,
    Headers,
    Inv,
    GetData,
    Block,
    Tx,
    Ping,
    Pong,
    SendHeaders,
    SendCmpct,
    FeeFilter,
}

/// The 12 bytes of a command on the wire: its ASCII name, padded with zeros.
pub open spec fn command_bytes(c: CommandName) -> Seq<u8> {
    match c {
        CommandName::Version => seq![0x76, 0x65, 0x72, 0x73, 0x69, 0x6f, 0x6e, 0x00, 0x00, 0x00, 0x00, 0x00],
        CommandName::VerAck => seq![0x76, 0x65, 0x72, 0x61, 0x63, 0x6b, 0x00, 0x00, 0x00, 0x00, 0x00, 0x00],
        CommandName::GetHeaders => seq![0x67, 0x65, 0x74, 0x68, 0x65, 0x61, 0x64, 0x65, 0x72, 0x73, 0x00, 0x00],
        CommandName::Headers => seq![0x68, 0x65, 0x61, 0x64, 0x65, 0x72, 0x73, 0x00, 0x00, 0x00, 0x00, 0x00],
        CommandName::Inv => seq![0x69, 0x6e, 0x76, 0x00, 0x00, 0x00, 0x00, 0x00, 0x00, 0x00, 0x00, 0x00],
        CommandName::GetData => seq![0x67, 0x65, 0x74, 0x64, 0x61, 0x74, 0x61, 0x00, 0x00, 0x00, 0x00, 0x00],
        CommandName::Block => seq![0x62, 0x6c, 0x6f, 0x63, 0x6b, 0x00, 0x00, 0x00, 0x00, 0x00, 0x00, 0x00],
        CommandName::Tx => seq![0x74, 0x78, 0x00, 0x00, 0x00, 0x00, 0x00, 0x00, 0x00, 0x00, 0x00, 0x00],
        CommandName::Ping => seq![0x70, 0x69, 0x6e, 0x67, 0x00, 0x00, 0x00, 0x00, 0x00, 0x00, 0x00, 0x00],
        CommandName::Pong => seq![0x70, 0x6f, 0x6e, 0x67, 0x00, 0x00, 0x00, 0x00, 0x00, 0x00, 0x00, 0x00],
        CommandName::SendHeaders => seq![0x73, 0x65, 0x6e, 0x64, 0x68, 0x65, 0x61, 0x64, 0x65, 0x72, 0x73, 0x00],
        CommandName::SendCmpct => seq![0x73, 0x65, 0x6e, 0x64, 0x63, 0x6d, 0x70, 0x63, 0x74, 0x00, 0x00, 0x00],
        CommandName::FeeFilter => seq![0x66, 0x65, 0x65, 0x66, 0x69, 0x6c, 0x74, 0x65, 0x72, 0x00, 0x00, 0x00],
    }
}

impl CommandName {
    /// The 12 bytes of this command on the wire.
    pub fn to_bytes(&self) -> (r: [u8; 12])
        ensures
            r@ == command_bytes(*self),
    {
        let r: [u8; 12] = match self {
            CommandName::Version => [0x76, 0x65, 0x72, 0x73, 0x69, 0x6f, 0x6e, 0x00, 0x00, 0x00, 0x00, 0x00],
            CommandName::VerAck => [0x76, 0x65, 0x72, 0x61, 0x63, 0x6b, 0x00, 0x00, 0x00, 0x00, 0x00, 0x00],
            CommandName::GetHeaders => [0x67, 0x65, 0x74, 0x68, 0x65, 0x61, 0x64, 0x65, 0x72, 0x73, 0x00, 0x00],
            CommandName::Headers => [0x68, 0x65, 0x61, 0x64, 0x65, 0x72, 0x73, 0x00, 0x00, 0x00, 0x00, 0x00],
            CommandName::Inv => [0x69, 0x6e, 0x76, 0x00, 0x00, 0x00, 0x00, 0x00, 0x00, 0x00, 0x00, 0x00],
            CommandName::GetData => [0x67, 0x65, 0x74, 0x64, 0x61, 0x74, 0x61, 0x00, 0x00, 0x00, 0x00, 0x00],
            CommandName::Block => [0x62, 0x6c, 0x6f, 0x63, 0x6b, 0x00, 0x00, 0x00, 0x00, 0x00, 0x00, 0x00],
            CommandName::Tx => [0x74, 0x78, 0x00, 0x00, 0x00, 0x00, 0x00, 0x00, 0x00, 0x00, 0x00, 0x00],
            CommandName::Ping => [0x70, 0x69, 0x6e, 0x67, 0x00, 0x00, 0x00, 0x00, 0x00, 0x00, 0x00, 0x00],
            CommandName::Pong => [0x70, 0x6f, 0x6e, 0x67, 0x00, 0x00, 0x00, 0x00, 0x00, 0x00, 0x00, 0x00],
            CommandName::SendHeaders => [0x73, 0x65, 0x6e, 0x64, 0x68, 0x65, 0x61, 0x64, 0x65, 0x72, 0x73, 0x00],
            CommandName::SendCmpct => [0x73, 0x65, 0x6e, 0x64, 0x63, 0x6d, 0x70, 0x63, 0x74, 0x00, 0x00, 0x00],
            CommandName::FeeFilter => [0x66, 0x65, 0x65, 0x66, 0x69, 0x6c, 0x74, 0x65, 0x72, 0x00, 0x00, 0x00],
        };
        assert(r@ =~= command_bytes(*self));
        r
    }

    /// The command whose 12 bytes are `b`, if this node knows one.
    pub fn from_bytes(b: &[u8; 12]) -> (r: Option<CommandName>)
        ensures
            r matches Some(c) ==> command_bytes(c) == b@,
            r is None ==> forall|c: CommandName| command_bytes(c) != b@,
    {
        let all: Vec<CommandName> = vec![
        CommandName::Version,
        CommandName::VerAck,
        CommandName::GetHeaders,
        CommandName::Headers,
        CommandName::Inv,
        CommandName::GetData,
        CommandName::Block,
        CommandName::Tx,
        CommandName::Ping,
        CommandName::Pong,
        CommandName::SendHeaders,
        CommandName::SendCmpct,
        CommandName::FeeFilter,
        ];
        let mut i: usize = 0;
        while i < all.len()
            invariant
                i <= all@.len(),
                forall|j: int| 0 <= j < i ==> command_bytes(#[trigger] all@[j]) != b@,
            decreases all@.len() - i,
        {
            let c = all[i];
            let cb = c.to_bytes();
            let mut k: usize = 0;
            let mut same = true;
            while k < 12
                invariant
                    k <= 12,
                    same == (forall|j: int| 0 <= j < k ==> cb@[j] == b@[j]),
                decreases 12 - k,
            {
                if cb[k] != b[k] {
                    same = false;
                }
                k = k + 1;
            }
            if same {
                assert(cb@ =~= b@);
                return Some(c);
            }
            i = i + 1;
        }
        assert forall|c: CommandName| command_bytes(c) != b@ by {
            assert(exists|j: int| 0 <= j < all@.len() && all@[j] == c);
        }
        None
    }
}

/// A frame as read from the wire: its command bytes and its payload.
#[derive(Debug)]
pub struct Frame {
    pub command: [u8; 12],
    pub payload: Vec<u8>,
}

/// The bytes of a frame: magic, command, payload length, checksum, payload.
pub open spec fn enc_frame(magic: u32, command: Seq<u8>, payload: Seq<u8>) -> Seq<u8> {
    enc_u32(magic) + command + enc_u32(payload.len() as u32) + checksum_of(payload) + payload
}

/// A well-formed frame with this command and payload stands at `pos`.
pub open spec fn frame_at(s: Seq<u8>, pos: int, magic: u32, command: Seq<u8>, payload: Seq<u8>) -> bool {
    &&& command.len() == 12
    &&& payload.len() <= MAX_PAYLOAD
    &&& at(enc_frame(magic, command, payload), s, pos)
}

/// The number that the four bytes of `s` at `pos` stand for.
pub open spec fn u32_at(s: Seq<u8>, pos: int) -> nat {
    crate::codec::le_value(s.subrange(pos, pos + 4))
}

/// Appends the frame of `payload` under `command` to `out`.
pub fn write_frame(magic: u32, command: CommandName, payload: &Vec<u8>, out: &mut Vec<u8>)
    requires
        payload@.len() <= MAX_PAYLOAD,
    ensures
        final(out)@ == old(out)@ + enc_frame(magic, command_bytes(command), payload@),
{
    write_u32(magic, out);
    let c = command.to_bytes();
    let mut k: usize = 0;
    while k < 12
        invariant
            k <= 12,
            out@ == old(out)@ + enc_u32(magic) + c@.subrange(0, k as int),
        decreases 12 - k,
    {
        out.push(c[k]);
        k = k + 1;
        assert(out@ =~= old(out)@ + enc_u32(magic) + c@.subrange(0, k as int));
    }
    assert(c@.subrange(0, 12) =~= c@);
    write_u32(payload.len() as u32, out);
    let sum = checksum(payload);
    out.push(sum[0]);
    out.push(sum[1]);
    out.push(sum[2]);
    out.push(sum[3]);
    write_bytes(payload, out);
    assert(out@ =~= old(out)@ + enc_frame(magic, command_bytes(command), payload@));
}


/// The four bytes at `pos` stand for the number `v`.
proof fn lemma_u32_at(s: Seq<u8>, pos: int, v: u32)
    requires
        at(enc_u32(v), s, pos),
    ensures
        u32_at(s, pos) == v,
        pos + 4 <= s.len(),
{
    lemma_le_bytes_len(v as nat, 4);
    crate::codec::lemma_pow256_values();
    crate::codec::lemma_le_value_of_bytes(v as nat, 4);
}

/// Where each part of a frame stands.
proof fn lemma_frame_parts(s: Seq<u8>, pos: int, magic: u32, command: Seq<u8>, payload: Seq<u8>)
    requires
        frame_at(s, pos, magic, command, payload),
    ensures
        at(enc_u32(magic), s, pos),
        at(command, s, pos + 4),
        at(enc_u32(payload.len() as u32), s, pos + 16),
        at(checksum_of(payload), s, pos + 20),
        at(payload, s, pos + 24),
        u32_at(s, pos) == magic,
        u32_at(s, pos + 16) == payload.len(),
        s.subrange(pos + 20, pos + 24) == checksum_of(payload),
        s.subrange(pos + 24, pos + 24 + payload.len()) == payload,
        pos + 24 + payload.len() <= s.len(),
{
    let a = enc_u32(magic);
    let b = command;
    let c = enc_u32(payload.len() as u32);
    let d = checksum_of(payload);
    let e = payload;
    lemma_le_bytes_len(magic as nat, 4);
    lemma_le_bytes_len(payload.len() as nat, 4);
    crate::hash::lemma_checksum_len(payload);
    lemma_at_split(a + b + c + d, e, s, pos);
    lemma_at_split(a + b + c, d, s, pos);
    lemma_at_split(a + b, c, s, pos);
    lemma_at_split(a, b, s, pos);
    lemma_u32_at(s, pos, magic);
    lemma_u32_at(s, pos + 16, payload.len() as u32);
}

/// The frame is cut short somewhere before its payload ends.
pub open spec fn frame_truncated(s: Seq<u8>, pos: int, magic: u32) -> bool {
    ||| pos + 4 > s.len()
    ||| (u32_at(s, pos) == magic && pos + 24 > s.len())
    ||| (u32_at(s, pos) == magic && pos + 24 <= s.len() && u32_at(s, pos + 16) <= MAX_PAYLOAD
        && pos + 24 + u32_at(s, pos + 16) > s.len())
}

/// Reads the frame at `pos`, checking its magic, its length and its checksum.
pub fn read_frame(bytes: &Vec<u8>, pos: usize, magic: u32) -> (r: Result<(Frame, usize), ErrorMessage>)
    ensures
        r matches Ok((f, next)) ==> frame_at(bytes@, pos as int, magic, f.command@, f.payload@) && next
            == pos + 24 + f.payload@.len(),
        forall|command: Seq<u8>, payload: Seq<u8>| #[trigger]
            frame_at(bytes@, pos as int, magic, command, payload) ==> (r matches Ok((f, next)) && f.command@
                == command && f.payload@ == payload && next == pos + 24 + payload.len()),
        r == Err::<(Frame, usize), ErrorMessage>(ErrorMessage::WrongMagic) <==> pos + 4 <= bytes@.len()
            && u32_at(bytes@, pos as int) != magic,
        r == Err::<(Frame, usize), ErrorMessage>(ErrorMessage::OversizedMessage) <==> pos + 24
            <= bytes@.len() && u32_at(bytes@, pos as int) == magic && u32_at(bytes@, pos + 16)
            > MAX_PAYLOAD,
        r == Err::<(Frame, usize), ErrorMessage>(ErrorMessage::CorruptPayload) <==> ({
            let len = u32_at(bytes@, pos + 16);
            &&& pos + 24 <= bytes@.len()
            &&& u32_at(bytes@, pos as int) == magic
            &&& len <= MAX_PAYLOAD
            &&& pos + 24 + len <= bytes@.len()
            &&& bytes@.subrange(pos + 20, pos + 24) != checksum_of(
                bytes@.subrange(pos + 24, pos + 24 + len),
            )
        }),
        r == Err::<(Frame, usize), ErrorMessage>(ErrorMessage::ErrorInDeserialization) <==> frame_truncated(
            bytes@,
            pos as int,
            magic,
        ),
        r matches Err(e) ==> e == frame_error(bytes@, pos as int, magic),
        r is Err ==> r->Err_0 == ErrorMessage::WrongMagic || r->Err_0 == ErrorMessage::OversizedMessage
            || r->Err_0 == ErrorMessage::CorruptPayload || r->Err_0
            == ErrorMessage::ErrorInDeserialization,
{
    let ghost s = bytes@;
    assert forall|command: Seq<u8>, payload: Seq<u8>| #[trigger]
        frame_at(s, pos as int, magic, command, payload) implies at(enc_u32(magic), s, pos as int)
        && at(command, s, pos + 4) && at(enc_u32(payload.len() as u32), s, pos + 16) && u32_at(s, pos as int)
        == magic && u32_at(s, pos + 16) == payload.len() && s.subrange(pos + 20, pos + 24)
        == checksum_of(payload) && s.subrange(pos + 24, pos + 24 + payload.len()) == payload && pos + 24
        + payload.len() <= s.len() by {
        lemma_frame_parts(s, pos as int, magic, command, payload);
    }
    let (m, p) = match read_u32(bytes, pos) {
        Ok(x) => x,
        Err(_) => return Err(ErrorMessage::ErrorInDeserialization),
    };
    proof {
        lemma_u32_at(s, pos as int, m);
    }
    if m != magic {
        return Err(ErrorMessage::WrongMagic);
    }
    if bytes.len() < 24 || p > bytes.len() - 20 {
        return Err(ErrorMessage::ErrorInDeserialization);
    }
    let (cmd, p) = match read_bytes(bytes, p, 12) {
        Ok(x) => x,
        Err(_) => return Err(ErrorMessage::ErrorInDeserialization),
    };
    let (len, p) = match read_u32(bytes, p) {
        Ok(x) => x,
        Err(_) => return Err(ErrorMessage::ErrorInDeserialization),
    };
    proof {
        lemma_u32_at(s, pos + 16, len);
    }
    let (sum, p) = match read_bytes(bytes, p, 4) {
        Ok(x) => x,
        Err(_) => return Err(ErrorMessage::ErrorInDeserialization),
    };
    if len > MAX_PAYLOAD {
        return Err(ErrorMessage::OversizedMessage);
    }
    let (payload, next) = match read_bytes(bytes, p, len as usize) {
        Ok(x) => x,
        Err(_) => return Err(ErrorMessage::ErrorInDeserialization),
    };
    let c = checksum(&payload);
    if c[0] != sum[0] || c[1] != sum[1] || c[2] != sum[2] || c[3] != sum[3] {
        assert(sum@ != c@);
        return Err(ErrorMessage::CorruptPayload);
    }
    assert(sum@ =~= c@);
    let mut command: [u8; 12] = [0u8; 12];
    let mut k: usize = 0;
    while k < 12
        invariant
            k <= 12,
            cmd@.len() == 12,
            forall|j: int| 0 <= j < k ==> command@[j] == cmd@[j],
        decreases 12 - k,
    {
        command[k] = cmd[k];
        k = k + 1;
    }
    assert(command@ =~= cmd@);
    proof {
        let a = enc_u32(magic);
        let b = command@;
        let cc = enc_u32(payload@.len() as u32);
        let d = checksum_of(payload@);
        lemma_le_bytes_len(magic as nat, 4);
        lemma_le_bytes_len(len as nat, 4);
        crate::hash::lemma_checksum_len(payload@);
        assert(at(d, s, pos + 20));
        assert(at(payload@, s, pos + 24));
        lemma_at_join(a, b, s, pos as int);
        lemma_at_join(a + b, cc, s, pos as int);
        lemma_at_join(a + b + cc, d, s, pos as int);
        lemma_at_join(a + b + cc + d, payload@, s, pos as int);
    }
    Ok((Frame { command, payload }, next))
}


/// The error that `read_frame` gives at `pos` when no frame stands there.
pub open spec fn frame_error(s: Seq<u8>, pos: int, magic: u32) -> ErrorMessage {
    if frame_truncated(s, pos, magic) {
        ErrorMessage::ErrorInDeserialization
    } else if u32_at(s, pos) != magic {
        ErrorMessage::WrongMagic
    } else if u32_at(s, pos + 16) > MAX_PAYLOAD {
        ErrorMessage::OversizedMessage
    } else {
        ErrorMessage::CorruptPayload
    }
}

/// The command and payload of the frame at `pos`, or why there is none.
pub open spec fn parsed_frame(s: Seq<u8>, pos: int, magic: u32) -> Result<(Seq<u8>, Seq<u8>), ErrorMessage> {
    if exists|cp: (Seq<u8>, Seq<u8>)| frame_at(s, pos, magic, cp.0, cp.1) {
        Ok(choose|cp: (Seq<u8>, Seq<u8>)| frame_at(s, pos, magic, cp.0, cp.1))
    } else {
        Err(frame_error(s, pos, magic))
    }
}

/// At most one frame stands at a place.
pub proof fn lemma_frame_unique(s: Seq<u8>, pos: int, magic: u32, c1: Seq<u8>, p1: Seq<u8>, c2: Seq<u8>, p2: Seq<u8>)
    requires
        frame_at(s, pos, magic, c1, p1),
        frame_at(s, pos, magic, c2, p2),
    ensures
        c1 == c2,
        p1 == p2,
{
    lemma_frame_parts(s, pos, magic, c1, p1);
    lemma_frame_parts(s, pos, magic, c2, p2);
}

/// What searching from `pos` for a frame of command `command` gives, reading
/// at most `budget` frames: the payload of the first such frame and the
/// position after it; `NodeNotResponding` once `budget` frames of other
/// commands were passed over; or the error of the first frame that does not read.
pub open spec fn frame_search(s: Seq<u8>, pos: int, magic: u32, command: Seq<u8>, budget: nat) -> Result<
    (Seq<u8>, int),
    ErrorMessage,
>
    decreases budget,
{
    if budget == 0 {
        Err(ErrorMessage::NodeNotResponding)
    } else {
        match parsed_frame(s, pos, magic) {
            Err(e) => Err(e),
            Ok((c, p)) => if c == command {
                Ok((p, pos + 24 + p.len()))
            } else {
                frame_search(s, pos + 24 + p.len(), magic, command, (budget - 1) as nat)
            },
        }
    }
}

/// Reads frames from `pos` on, passing over those of other commands, until
/// one of `expected` comes; after `MAX_SKIPPED_FRAMES` frames of other
/// commands it gives up with `NodeNotResponding`.
pub fn deserialize_until_found(bytes: &Vec<u8>, pos: usize, magic: u32, expected: CommandName) -> (r:
    Result<(Vec<u8>, usize), ErrorMessage>)
    ensures
        match frame_search(bytes@, pos as int, magic, command_bytes(expected), MAX_SKIPPED_FRAMES as nat) {
            Ok((payload, next)) => r matches Ok((v, n)) && v@ == payload && n == next,
            Err(e) => r == Err::<(Vec<u8>, usize), ErrorMessage>(e),
        },
{
    let ghost cb = command_bytes(expected);
    let ghost whole = frame_search(bytes@, pos as int, magic, cb, MAX_SKIPPED_FRAMES as nat);
    let mut p: usize = pos;
    let mut read: usize = 0;
    while read < MAX_SKIPPED_FRAMES
        invariant
            read <= MAX_SKIPPED_FRAMES,
            cb == command_bytes(expected),
            whole == frame_search(bytes@, pos as int, magic, cb, MAX_SKIPPED_FRAMES as nat),
            whole == frame_search(bytes@, p as int, magic, cb, (MAX_SKIPPED_FRAMES - read) as nat),
        decreases MAX_SKIPPED_FRAMES - read,
    {
        let ghost rest = frame_search(bytes@, p as int, magic, cb, (MAX_SKIPPED_FRAMES - read) as nat);
        let (frame, next) = match read_frame(bytes, p, magic) {
            Ok(x) => x,
            Err(e) => {
                assert(!exists|cp: (Seq<u8>, Seq<u8>)| frame_at(bytes@, p as int, magic, cp.0, cp.1));
                return Err(e);
            },
        };
        proof {
            let cp = choose|cp: (Seq<u8>, Seq<u8>)| frame_at(bytes@, p as int, magic, cp.0, cp.1);
            assert(frame_at(bytes@, p as int, magic, (frame.command@, frame.payload@).0, (frame.command@, frame.payload@).1));
            lemma_frame_unique(bytes@, p as int, magic, cp.0, cp.1, frame.command@, frame.payload@);
            assert(parsed_frame(bytes@, p as int, magic) == Ok::<(Seq<u8>, Seq<u8>), ErrorMessage>((frame.command@, frame.payload@)));
        }
        let want = expected.to_bytes();
        let mut k: usize = 0;
        let mut same = true;
        while k < 12
            invariant
                k <= 12,
                same == (forall|j: int| 0 <= j < k ==> want@[j] == frame.command@[j]),
            decreases 12 - k,
        {
            if want[k] != frame.command[k] {
                same = false;
            }
            k = k + 1;
        }
        if same {
            assert(want@ =~= frame.command@);
            return Ok((frame.payload, next));
        }
        assert(want@ != frame.command@);
        p = next;
        read = read + 1;
    }
    Err(ErrorMessage::NodeNotResponding)
}

} // verus!
