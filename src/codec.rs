//! Byte-level encoding of the scalars that the wire protocol carries.
use vstd::prelude::*;

use crate::error::ErrorMessage;

verus! {

/// `256^n`.
pub open spec fn pow256(n: nat) -> nat
    decreases n,
{
    if n == 0 {
        1
    } else {
        256 * pow256((n - 1) as nat)
    }
}

/// The `n` least significant bytes of `v`, least significant first.
pub open spec fn le_bytes(v: nat, n: nat) -> Seq<u8>
    decreases n,
{
    if n == 0 {
        Seq::empty()
    } else {
        seq![(v % 256) as u8].add(le_bytes(v / 256, (n - 1) as nat))
    }
}

/// The number that the bytes `s` stand for, least significant first.
pub open spec fn le_value(s: Seq<u8>) -> nat
    decreases s.len(),
{
    if s.len() == 0 {
        0
    } else {
        s[0] as nat + 256 * le_value(s.drop_first())
    }
}

/// The powers of 256 that the fixed-width codecs use.
pub proof fn lemma_pow256_values()
    ensures
        pow256(0) == 1,
        pow256(1) == 0x100,
        pow256(2) == 0x1_0000,
        pow256(3) == 0x100_0000,
        pow256(4) == 0x1_0000_0000,
        pow256(7) == 0x100_0000_0000_0000,
        pow256(8) == 0x1_0000_0000_0000_0000,
        pow256(15) == 0x100_0000_0000_0000_0000_0000_0000_0000,
        pow256(16) == 0x1_0000_0000_0000_0000_0000_0000_0000_0000,
{
    assert(pow256(0) == 1);
    assert(pow256(1) == 0x100);
    assert(pow256(2) == 0x1_0000);
    assert(pow256(3) == 0x100_0000);
    assert(pow256(4) == 0x1_0000_0000);
    assert(pow256(5) == 0x100_0000_0000);
    assert(pow256(6) == 0x1_0000_0000_0000);
    assert(pow256(7) == 0x100_0000_0000_0000);
    assert(pow256(8) == 0x1_0000_0000_0000_0000);
    assert(pow256(9) == 0x100_0000_0000_0000_0000);
    assert(pow256(10) == 0x1_0000_0000_0000_0000_0000);
    assert(pow256(11) == 0x100_0000_0000_0000_0000_0000);
    assert(pow256(12) == 0x1_0000_0000_0000_0000_0000_0000);
    assert(pow256(13) == 0x100_0000_0000_0000_0000_0000_0000);
    assert(pow256(14) == 0x1_0000_0000_0000_0000_0000_0000_0000);
    assert(pow256(15) == 0x100_0000_0000_0000_0000_0000_0000_0000);
    assert(pow256(16) == 0x1_0000_0000_0000_0000_0000_0000_0000_0000);
}

pub proof fn lemma_pow256_positive(n: nat)
    ensures
        pow256(n) >= 1,
    decreases n,
{
    if n > 0 {
        lemma_pow256_positive((n - 1) as nat);
    }
}

pub proof fn lemma_le_bytes_len(v: nat, n: nat)
    ensures
        le_bytes(v, n).len() == n,
    decreases n,
{
    if n > 0 {
        lemma_le_bytes_len(v / 256, (n - 1) as nat);
    }
}

/// A value of fewer than `n` bytes is read back from its `n` bytes.
pub proof fn lemma_le_value_of_bytes(v: nat, n: nat)
    requires
        v < pow256(n),
    ensures
        le_value(le_bytes(v, n)) == v,
    decreases n,
{
    if n > 0 {
        let rest = le_bytes(v / 256, (n - 1) as nat);
        assert(v / 256 < pow256((n - 1) as nat)) by (nonlinear_arith)
            requires
                v < 256 * pow256((n - 1) as nat),
        ;
        lemma_le_value_of_bytes(v / 256, (n - 1) as nat);
        assert(le_bytes(v, n).drop_first() =~= rest);
    }
}

/// Any bytes are written back from the number they stand for.
pub proof fn lemma_le_bytes_of_value(s: Seq<u8>)
    ensures
        le_bytes(le_value(s), s.len()) == s,
        le_value(s) < pow256(s.len()),
    decreases s.len(),
{
    if s.len() > 0 {
        let t = s.drop_first();
        lemma_le_bytes_of_value(t);
        let v = le_value(s);
        assert(v % 256 == s[0] as nat && v / 256 == le_value(t)) by (nonlinear_arith)
            requires
                v == s[0] as nat + 256 * le_value(t),
                s[0] < 256,
        ;
        assert(le_bytes(v, s.len()) =~= s);
        assert(v < pow256(s.len())) by (nonlinear_arith)
            requires
                v == s[0] as nat + 256 * le_value(t),
                s[0] < 256,
                le_value(t) < pow256(t.len()),
                pow256(s.len()) == 256 * pow256(t.len()),
        ;
    }
}

/// Appends the `n` least significant bytes of `v` to `out`, least significant first.
pub fn write_le(v: u64, n: usize, out: &mut Vec<u8>)
    requires
        n <= 8,
    ensures
        final(out)@ == old(out)@ + le_bytes(v as nat, n as nat),
{
    let mut rest: u64 = v;
    let mut i: usize = 0;
    while i < n
        invariant
            i <= n,
            out@ + le_bytes(rest as nat, (n - i) as nat) == old(out)@ + le_bytes(v as nat, n as nat),
        decreases n - i,
    {
        let ghost before = out@;
        out.push((rest % 256) as u8);
        assert(le_bytes(rest as nat, (n - i) as nat) =~= seq![(rest % 256) as u8].add(
            le_bytes((rest / 256) as nat, (n - i - 1) as nat),
        ));
        assert(out@ + le_bytes((rest / 256) as nat, (n - i - 1) as nat) =~= before + le_bytes(
            rest as nat,
            (n - i) as nat,
        ));
        rest = rest / 256;
        i = i + 1;
    }
    assert(out@ + le_bytes(rest as nat, 0) =~= out@);
}

/// Reads the number that `n` bytes of `bytes` from `pos` on stand for.
pub fn read_le(bytes: &Vec<u8>, pos: usize, n: usize) -> (r: u64)
    requires
        n <= 8,
        pos + n <= bytes@.len(),
    ensures
        r as nat == le_value(bytes@.subrange(pos as int, pos + n)),
{
    let mut acc: u64 = 0;
    let mut i: usize = n;
    proof {
        reveal_with_fuel(pow256, 9);
    }
    while i > 0
        invariant
            i <= n <= 8,
            pos + n <= bytes.len(),
            pow256(8) == 0x1_0000_0000_0000_0000,
            acc as nat == le_value(bytes@.subrange(pos + i, pos + n)),
        decreases i,
    {
        let ghost tail = bytes@.subrange(pos + i, pos + n);
        let ghost longer = bytes@.subrange(pos + i - 1, pos + n);
        assert(longer.drop_first() =~= tail);
        proof {
            lemma_le_bytes_of_value(tail);
            lemma_pow_mono(tail.len(), 7);
        }
        let b = bytes[pos + (i - 1)];
        assert(acc as nat * 256 + b < 0x1_0000_0000_0000_0000) by (nonlinear_arith)
            requires
                acc < pow256(tail.len()),
                pow256(tail.len()) <= pow256(7),
                pow256(7) == 0x100_0000_0000_0000,
                b < 256,
        ;
        acc = acc * 256 + b as u64;
        i = i - 1;
    }
    acc
}

pub proof fn lemma_pow_mono(a: nat, b: nat)
    requires
        a <= b,
    ensures
        pow256(a) <= pow256(b),
    decreases b,
{
    if a < b {
        lemma_pow_mono(a, (b - 1) as nat);
        lemma_pow256_positive((b - 1) as nat);
    }
}


/// `e` stands in `s` from `pos` on.
pub open spec fn at(e: Seq<u8>, s: Seq<u8>, pos: int) -> bool {
    0 <= pos && pos + e.len() <= s.len() && s.subrange(pos, pos + e.len()) == e
}

/// Two values of fewer than `n` bytes that stand at one place are equal.
pub proof fn lemma_le_unique(a: nat, b: nat, n: nat, s: Seq<u8>, pos: int)
    requires
        a < pow256(n),
        b < pow256(n),
        at(le_bytes(a, n), s, pos),
        at(le_bytes(b, n), s, pos),
    ensures
        a == b,
{
    lemma_le_bytes_len(a, n);
    lemma_le_bytes_len(b, n);
    lemma_le_value_of_bytes(a, n);
    lemma_le_value_of_bytes(b, n);
}

pub open spec fn enc_u8(v: u8) -> Seq<u8> {
    seq![v]
}

pub open spec fn enc_u16(v: u16) -> Seq<u8> {
    le_bytes(v as nat, 2)
}

pub open spec fn enc_u32(v: u32) -> Seq<u8> {
    le_bytes(v as nat, 4)
}

pub open spec fn enc_i32(v: i32) -> Seq<u8> {
    le_bytes(v as u32 as nat, 4)
}

pub open spec fn enc_u64(v: u64) -> Seq<u8> {
    le_bytes(v as nat, 8)
}

pub open spec fn enc_i64(v: i64) -> Seq<u8> {
    le_bytes(v as u64 as nat, 8)
}

pub open spec fn enc_bool(b: bool) -> Seq<u8> {
    if b {
        seq![1u8]
    } else {
        seq![0u8]
    }
}

/// Bitcoin's CompactSize: one byte below 0xFD, else a marker and 2, 4 or 8 bytes.
pub open spec fn enc_varint(v: u64) -> Seq<u8> {
    if v < 0xFD {
        seq![v as u8]
    } else if v <= 0xFFFF {
        seq![0xFDu8] + le_bytes(v as nat, 2)
    } else if v <= 0xFFFF_FFFF {
        seq![0xFEu8] + le_bytes(v as nat, 4)
    } else {
        seq![0xFFu8] + le_bytes(v as nat, 8)
    }
}

/// Bytes preceded by their count.
pub open spec fn enc_var_bytes(b: Seq<u8>) -> Seq<u8> {
    enc_varint(b.len() as u64) + b
}

/// Reads `n` bytes from `pos` on as a little-endian number.
fn read_fixed(bytes: &Vec<u8>, pos: usize, n: usize) -> (r: Result<(u64, usize), ErrorMessage>)
    requires
        1 <= n <= 8,
    ensures
        r is Err <==> pos + n > bytes@.len(),
        r matches Ok((v, next)) ==> next == pos + n && v < pow256(n as nat) && at(
            le_bytes(v as nat, n as nat),
            bytes@,
            pos as int,
        ),
        forall|w: nat|
            w < pow256(n as nat) && #[trigger] at(le_bytes(w, n as nat), bytes@, pos as int) ==> (
            r matches Ok((v, _)) && v == w),
{
    if n > bytes.len() || pos > bytes.len() - n {
        assert forall|w: nat|
            w < pow256(n as nat) && #[trigger] at(le_bytes(w, n as nat), bytes@, pos as int) implies false by {
            lemma_le_bytes_len(w, n as nat);
        }
        return Err(ErrorMessage::ErrorInDeserialization);
    }
    let v = read_le(bytes, pos, n);
    let ghost sub = bytes@.subrange(pos as int, pos + n);
    proof {
        lemma_le_bytes_of_value(sub);
    }
    assert forall|w: nat|
        w < pow256(n as nat) && #[trigger] at(le_bytes(w, n as nat), bytes@, pos as int) implies w == v by {
        lemma_le_unique(w, v as nat, n as nat, bytes@, pos as int);
    }
    Ok((v, pos + n))
}

pub fn write_u8(v: u8, out: &mut Vec<u8>)
    ensures
        final(out)@ == old(out)@ + enc_u8(v),
{
    out.push(v);
    assert(out@ =~= old(out)@ + enc_u8(v));
}

pub fn write_u16(v: u16, out: &mut Vec<u8>)
    ensures
        final(out)@ == old(out)@ + enc_u16(v),
{
    write_le(v as u64, 2, out);
}

pub fn write_u32(v: u32, out: &mut Vec<u8>)
    ensures
        final(out)@ == old(out)@ + enc_u32(v),
{
    write_le(v as u64, 4, out);
}

pub fn write_i32(v: i32, out: &mut Vec<u8>)
    ensures
        final(out)@ == old(out)@ + enc_i32(v),
{
    write_le(v as u32 as u64, 4, out);
}

pub fn write_u64(v: u64, out: &mut Vec<u8>)
    ensures
        final(out)@ == old(out)@ + enc_u64(v),
{
    write_le(v, 8, out);
}

pub fn write_i64(v: i64, out: &mut Vec<u8>)
    ensures
        final(out)@ == old(out)@ + enc_i64(v),
{
    write_le(v as u64, 8, out);
}

pub fn write_bool(b: bool, out: &mut Vec<u8>)
    ensures
        final(out)@ == old(out)@ + enc_bool(b),
{
    if b {
        out.push(1u8);
    } else {
        out.push(0u8);
    }
    assert(out@ =~= old(out)@ + enc_bool(b));
}

pub fn write_varint(v: u64, out: &mut Vec<u8>)
    ensures
        final(out)@ == old(out)@ + enc_varint(v),
{
    if v < 0xFD {
        out.push(v as u8);
    } else if v <= 0xFFFF {
        out.push(0xFDu8);
        write_le(v, 2, out);
    } else if v <= 0xFFFF_FFFF {
        out.push(0xFEu8);
        write_le(v, 4, out);
    } else {
        out.push(0xFFu8);
        write_le(v, 8, out);
    }
    assert(out@ =~= old(out)@ + enc_varint(v));
}

pub fn write_bytes(b: &Vec<u8>, out: &mut Vec<u8>)
    ensures
        final(out)@ == old(out)@ + b@,
{
    let mut i: usize = 0;
    while i < b.len()
        invariant
            i <= b@.len(),
            out@ == old(out)@ + b@.subrange(0, i as int),
        decreases b@.len() - i,
    {
        out.push(b[i]);
        i = i + 1;
        assert(out@ =~= old(out)@ + b@.subrange(0, i as int));
    }
    assert(b@.subrange(0, i as int) =~= b@);
}

pub fn write_var_bytes(b: &Vec<u8>, out: &mut Vec<u8>)
    ensures
        final(out)@ == old(out)@ + enc_var_bytes(b@),
{
    write_varint(b.len() as u64, out);
    write_bytes(b, out);
    assert(out@ =~= old(out)@ + enc_var_bytes(b@));
}

pub fn read_u8(bytes: &Vec<u8>, pos: usize) -> (r: Result<(u8, usize), ErrorMessage>)
    ensures
        r matches Ok((v, next)) ==> next == pos + 1 && at(enc_u8(v), bytes@, pos as int),
        forall|v: u8| #[trigger] at(enc_u8(v), bytes@, pos as int) ==> r == Ok::<(u8, usize), ErrorMessage>((v, (pos + 1) as usize)),
        r is Err <==> pos >= bytes@.len(),
{
    if pos >= bytes.len() {
        return Err(ErrorMessage::ErrorInDeserialization);
    }
    let v = bytes[pos];
    assert(bytes@.subrange(pos as int, pos + 1) =~= enc_u8(v));
    assert forall|w: u8| #[trigger] at(enc_u8(w), bytes@, pos as int) implies w == v by {
        assert(bytes@.subrange(pos as int, pos + 1)[0] == w);
    }
    Ok((v, pos + 1))
}

pub fn read_u16(bytes: &Vec<u8>, pos: usize) -> (r: Result<(u16, usize), ErrorMessage>)
    ensures
        r matches Ok((v, next)) ==> next == pos + 2 && at(enc_u16(v), bytes@, pos as int),
        forall|v: u16| #[trigger] at(enc_u16(v), bytes@, pos as int) ==> r == Ok::<(u16, usize), ErrorMessage>((v, (pos + 2) as usize)),
        r is Err <==> pos + 2 > bytes@.len(),
{
    proof {
        reveal_with_fuel(pow256, 3);
    }
    let (v, next) = match read_fixed(bytes, pos, 2) {
        Ok(p) => p,
        Err(e) => return Err(e),
    };
    assert forall|w: u16| #[trigger] at(enc_u16(w), bytes@, pos as int) implies w == v as u16 by {
        lemma_le_unique(w as nat, v as nat, 2, bytes@, pos as int);
    }
    Ok((v as u16, next))
}

pub fn read_u32(bytes: &Vec<u8>, pos: usize) -> (r: Result<(u32, usize), ErrorMessage>)
    ensures
        r matches Ok((v, next)) ==> next == pos + 4 && at(enc_u32(v), bytes@, pos as int),
        forall|v: u32| #[trigger] at(enc_u32(v), bytes@, pos as int) ==> r == Ok::<(u32, usize), ErrorMessage>((v, (pos + 4) as usize)),
        r is Err <==> pos + 4 > bytes@.len(),
{
    proof {
        reveal_with_fuel(pow256, 5);
    }
    let (v, next) = match read_fixed(bytes, pos, 4) {
        Ok(p) => p,
        Err(e) => return Err(e),
    };
    assert forall|w: u32| #[trigger] at(enc_u32(w), bytes@, pos as int) implies w == v as u32 by {
        lemma_le_unique(w as nat, v as nat, 4, bytes@, pos as int);
    }
    Ok((v as u32, next))
}

pub fn read_i32(bytes: &Vec<u8>, pos: usize) -> (r: Result<(i32, usize), ErrorMessage>)
    ensures
        r matches Ok((v, next)) ==> next == pos + 4 && at(enc_i32(v), bytes@, pos as int),
        forall|v: i32| #[trigger] at(enc_i32(v), bytes@, pos as int) ==> r == Ok::<(i32, usize), ErrorMessage>((v, (pos + 4) as usize)),
        r is Err <==> pos + 4 > bytes@.len(),
{
    assert forall|w: i32| #[trigger] at(enc_i32(w), bytes@, pos as int) implies at(enc_u32(w as u32), bytes@, pos as int) by {}
    let (u, next) = match read_u32(bytes, pos) {
        Ok(p) => p,
        Err(e) => return Err(e),
    };
    assert(u as i32 as u32 == u) by (bit_vector);
    assert forall|w: i32| #[trigger] at(enc_i32(w), bytes@, pos as int) implies w == u as i32 by {
        assert(at(enc_u32(w as u32), bytes@, pos as int));
        assert(w as u32 as i32 == w) by (bit_vector);
    }
    Ok((u as i32, next))
}

pub fn read_u64(bytes: &Vec<u8>, pos: usize) -> (r: Result<(u64, usize), ErrorMessage>)
    ensures
        r matches Ok((v, next)) ==> next == pos + 8 && at(enc_u64(v), bytes@, pos as int),
        forall|v: u64| #[trigger] at(enc_u64(v), bytes@, pos as int) ==> r == Ok::<(u64, usize), ErrorMessage>((v, (pos + 8) as usize)),
        r is Err <==> pos + 8 > bytes@.len(),
{
    proof {
        reveal_with_fuel(pow256, 9);
    }
    let (v, next) = match read_fixed(bytes, pos, 8) {
        Ok(p) => p,
        Err(e) => return Err(e),
    };
    assert forall|w: u64| #[trigger] at(enc_u64(w), bytes@, pos as int) implies w == v by {
        lemma_le_unique(w as nat, v as nat, 8, bytes@, pos as int);
    }
    Ok((v, next))
}

pub fn read_i64(bytes: &Vec<u8>, pos: usize) -> (r: Result<(i64, usize), ErrorMessage>)
    ensures
        r matches Ok((v, next)) ==> next == pos + 8 && at(enc_i64(v), bytes@, pos as int),
        forall|v: i64| #[trigger] at(enc_i64(v), bytes@, pos as int) ==> r == Ok::<(i64, usize), ErrorMessage>((v, (pos + 8) as usize)),
        r is Err <==> pos + 8 > bytes@.len(),
{
    assert forall|w: i64| #[trigger] at(enc_i64(w), bytes@, pos as int) implies at(enc_u64(w as u64), bytes@, pos as int) by {}
    let (u, next) = match read_u64(bytes, pos) {
        Ok(p) => p,
        Err(e) => return Err(e),
    };
    assert(u as i64 as u64 == u) by (bit_vector);
    assert forall|w: i64| #[trigger] at(enc_i64(w), bytes@, pos as int) implies w == u as i64 by {
        assert(at(enc_u64(w as u64), bytes@, pos as int));
        assert(w as u64 as i64 == w) by (bit_vector);
    }
    Ok((u as i64, next))
}


pub proof fn lemma_at_split(a: Seq<u8>, b: Seq<u8>, s: Seq<u8>, pos: int)
    requires
        at(a + b, s, pos),
    ensures
        at(a, s, pos),
        at(b, s, pos + a.len()),
{
    let whole = s.subrange(pos, pos + (a + b).len());
    assert forall|i: int| 0 <= i < a.len() implies s.subrange(pos, pos + a.len())[i] == a[i] by {
        assert(whole[i] == (a + b)[i]);
    }
    assert(s.subrange(pos, pos + a.len()) =~= a);
    assert forall|i: int| 0 <= i < b.len() implies s.subrange(pos + a.len(), pos + a.len() + b.len())[i]
        == b[i] by {
        assert(whole[a.len() + i] == (a + b)[a.len() + i]);
    }
    assert(s.subrange(pos + a.len(), pos + a.len() + b.len()) =~= b);
}

pub proof fn lemma_at_join(a: Seq<u8>, b: Seq<u8>, s: Seq<u8>, pos: int)
    requires
        at(a, s, pos),
        at(b, s, pos + a.len()),
    ensures
        at(a + b, s, pos),
{
    assert(s.subrange(pos, pos + a.len() + b.len()) =~= a + b);
}

pub fn read_varint(bytes: &Vec<u8>, pos: usize) -> (r: Result<(u64, usize), ErrorMessage>)
    ensures
        r matches Ok((v, next)) ==> next == pos + enc_varint(v).len() && at(
            enc_varint(v),
            bytes@,
            pos as int,
        ),
        forall|v: u64| #[trigger]
            at(enc_varint(v), bytes@, pos as int) ==> r == Ok::<(u64, usize), ErrorMessage>(
                (v, (pos + enc_varint(v).len()) as usize),
            ),
{
    proof {
        reveal_with_fuel(le_bytes, 9);
    }
    assert forall|v: u64| #[trigger] at(enc_varint(v), bytes@, pos as int) implies at(
        enc_u8(enc_varint(v)[0]),
        bytes@,
        pos as int,
    ) && (0xFD <= v <= 0xFFFF ==> at(enc_u16(v as u16), bytes@, pos + 1)) && (0xFFFF < v
        <= 0xFFFF_FFFF ==> at(enc_u32(v as u32), bytes@, pos + 1)) && (0xFFFF_FFFF < v ==> at(
        enc_u64(v),
        bytes@,
        pos + 1,
    )) by {
        let e = enc_varint(v);
        assert(e =~= enc_u8(e[0]) + e.drop_first());
        lemma_at_split(enc_u8(e[0]), e.drop_first(), bytes@, pos as int);
        if 0xFD <= v <= 0xFFFF {
            assert(e.drop_first() =~= enc_u16(v as u16));
        } else if 0xFFFF < v <= 0xFFFF_FFFF {
            assert(e.drop_first() =~= enc_u32(v as u32));
        } else if 0xFFFF_FFFF < v {
            assert(e.drop_first() =~= enc_u64(v));
        }
    }
    let (b, p) = match read_u8(bytes, pos) {
        Ok(x) => x,
        Err(e) => return Err(e),
    };
    if b < 0xFD {
        assert(enc_u8(b) =~= enc_varint(b as u64));
        return Ok((b as u64, p));
    }
    if b == 0xFD {
        let (v, next) = match read_u16(bytes, p) {
            Ok(x) => x,
            Err(e) => return Err(e),
        };
        if v < 0xFD {
            return Err(ErrorMessage::ErrorInDeserialization);
        }
        proof {
            lemma_at_join(enc_u8(b), enc_u16(v), bytes@, pos as int);
            assert(enc_u8(b) + enc_u16(v) =~= enc_varint(v as u64));
        }
        Ok((v as u64, next))
    } else if b == 0xFE {
        let (v, next) = match read_u32(bytes, p) {
            Ok(x) => x,
            Err(e) => return Err(e),
        };
        if v <= 0xFFFF {
            return Err(ErrorMessage::ErrorInDeserialization);
        }
        proof {
            lemma_at_join(enc_u8(b), enc_u32(v), bytes@, pos as int);
            assert(enc_u8(b) + enc_u32(v) =~= enc_varint(v as u64));
        }
        Ok((v as u64, next))
    } else {
        let (v, next) = match read_u64(bytes, p) {
            Ok(x) => x,
            Err(e) => return Err(e),
        };
        if v <= 0xFFFF_FFFF {
            return Err(ErrorMessage::ErrorInDeserialization);
        }
        proof {
            lemma_at_join(enc_u8(b), enc_u64(v), bytes@, pos as int);
            assert(enc_u8(b) + enc_u64(v) =~= enc_varint(v));
        }
        Ok((v, next))
    }
}

/// Reads the `n` bytes that stand from `pos` on.
pub fn read_bytes(bytes: &Vec<u8>, pos: usize, n: usize) -> (r: Result<(Vec<u8>, usize), ErrorMessage>)
    ensures
        r is Err <==> pos + n > bytes@.len(),
        r matches Ok((v, next)) ==> next == pos + n && v@ == bytes@.subrange(pos as int, pos + n),
{
    if n > bytes.len() || pos > bytes.len() - n {
        return Err(ErrorMessage::ErrorInDeserialization);
    }
    let mut v: Vec<u8> = Vec::new();
    let mut i: usize = 0;
    while i < n
        invariant
            i <= n,
            pos + n <= bytes.len(),
            v@ == bytes@.subrange(pos as int, pos + i),
        decreases n - i,
    {
        v.push(bytes[pos + i]);
        i = i + 1;
        assert(v@ =~= bytes@.subrange(pos as int, pos + i));
    }
    Ok((v, pos + n))
}

pub fn read_var_bytes(bytes: &Vec<u8>, pos: usize) -> (r: Result<(Vec<u8>, usize), ErrorMessage>)
    ensures
        r matches Ok((v, next)) ==> next == pos + enc_var_bytes(v@).len() && at(
            enc_var_bytes(v@),
            bytes@,
            pos as int,
        ),
        forall|v: Seq<u8>| #[trigger]
            at(enc_var_bytes(v), bytes@, pos as int) ==> (r matches Ok((w, next)) && w@ == v && next
                == pos + enc_var_bytes(v).len()),
{
    let blen = bytes.len();
    assert forall|v: Seq<u8>| #[trigger] at(enc_var_bytes(v), bytes@, pos as int) implies at(
        enc_varint(v.len() as u64),
        bytes@,
        pos as int,
    ) && at(v, bytes@, pos + enc_varint(v.len() as u64).len()) && v.len() <= u64::MAX by {
        lemma_at_split(enc_varint(v.len() as u64), v, bytes@, pos as int);
    }
    let (n, p) = match read_varint(bytes, pos) {
        Ok(x) => x,
        Err(e) => return Err(e),
    };
    if n > (bytes.len() - p) as u64 {
        return Err(ErrorMessage::ErrorInDeserialization);
    }
    let (v, next) = match read_bytes(bytes, p, n as usize) {
        Ok(x) => x,
        Err(e) => return Err(e),
    };
    proof {
        lemma_at_join(enc_varint(n), v@, bytes@, pos as int);
    }
    Ok((v, next))
}


/// The number of `x + y` is that of `x` plus that of `y` shifted past `x`.
pub proof fn lemma_le_value_append(x: Seq<u8>, y: Seq<u8>)
    ensures
        le_value(x + y) == le_value(x) + pow256(x.len()) * le_value(y),
    decreases x.len(),
{
    if x.len() > 0 {
        lemma_le_value_append(x.drop_first(), y);
        assert((x + y).drop_first() =~= x.drop_first() + y);
        let a = le_value(x.drop_first());
        let b = le_value(y);
        let p = pow256((x.len() - 1) as nat);
        assert(256 * (a + p * b) == 256 * a + (256 * p) * b) by (nonlinear_arith);
        assert((x + y)[0] == x[0]);
        assert(le_value(x + y) == x[0] as nat + 256 * (a + p * b));
        assert(le_value(x) == x[0] as nat + 256 * a);
        assert(pow256(x.len()) == 256 * p);
        assert(pow256(x.len()) * b == (256 * p) * b);
    } else {
        assert(x + y =~= y);
        assert(pow256(0) == 1);
        assert(le_value(x) == 0);
    }
}

/// `n` zero bytes.
pub open spec fn zeros(n: nat) -> Seq<u8> {
    Seq::new(n, |i: int| 0u8)
}

pub proof fn lemma_le_value_zeros(n: nat)
    ensures
        le_value(zeros(n)) == 0,
    decreases n,
{
    if n > 0 {
        assert(zeros(n).drop_first() =~= zeros((n - 1) as nat));
        lemma_le_value_zeros((n - 1) as nat);
    }
}

/// Whether the number of `a` is at most that of `b`, for two 32-byte strings.
pub fn le_value_leq(a: &[u8; 32], b: &[u8; 32]) -> (r: bool)
    ensures
        r == (le_value(a@) <= le_value(b@)),
{
    let mut i: usize = 32;
    while i > 0
        invariant
            i <= 32,
            a@.len() == 32 && b@.len() == 32,
            a@.subrange(i as int, 32) == b@.subrange(i as int, 32),
        decreases i,
    {
        let j = i - 1;
        if a[j] != b[j] {
            proof {
                let lo_a = a@.subrange(0, j as int);
                let lo_b = b@.subrange(0, j as int);
                let hi = a@.subrange(i as int, 32);
                assert(a@ =~= lo_a + (seq![a@[j as int]] + hi));
                assert(b@ =~= lo_b + (seq![b@[j as int]] + hi));
                lemma_le_value_append(lo_a, seq![a@[j as int]] + hi);
                lemma_le_value_append(lo_b, seq![b@[j as int]] + hi);
                lemma_le_value_append(seq![a@[j as int]], hi);
                lemma_le_value_append(seq![b@[j as int]], hi);
                lemma_le_bytes_of_value(lo_a);
                lemma_le_bytes_of_value(lo_b);
                reveal_with_fuel(le_value, 2);
                reveal_with_fuel(pow256, 2);
                let p = pow256(j as nat);
                let h = le_value(hi);
                let x = a@[j as int] as nat;
                let y = b@[j as int] as nat;
                assert(le_value(seq![a@[j as int]]) == x);
                assert(le_value(seq![b@[j as int]]) == y);
                if x < y {
                    assert(le_value(lo_a) + p * (x + 256 * h) < le_value(lo_b) + p * (y + 256 * h))
                        by (nonlinear_arith)
                        requires
                            le_value(lo_a) < p,
                            x < y,
                    ;
                } else {
                    assert(le_value(lo_b) + p * (y + 256 * h) < le_value(lo_a) + p * (x + 256 * h))
                        by (nonlinear_arith)
                        requires
                            le_value(lo_b) < p,
                            y < x,
                    ;
                }
            }
            return a[j] < b[j];
        }
        assert(a@.subrange(j as int, 32) =~= seq![a@[j as int]] + a@.subrange(i as int, 32));
        assert(b@.subrange(j as int, 32) =~= seq![b@[j as int]] + b@.subrange(i as int, 32));
        i = j;
    }
    assert(a@ =~= a@.subrange(0, 32));
    assert(b@ =~= b@.subrange(0, 32));
    true
}

} // verus!
