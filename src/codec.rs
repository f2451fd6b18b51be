//! The wire codec: variable-length integers, big-endian fields and packet frames.

use vstd::prelude::*;
use vstd::utf8::*;

verus! {

/// `128` to the power `k`.
pub open spec fn pow128(k: nat) -> nat
    decreases k,
{
    if k == 0 {
        1
    } else {
        128 * pow128((k - 1) as nat)
    }
}

/// The variable-length encoding of `v`: seven bits per byte, the lowest group
/// first, the high bit set on every byte but the last.
pub open spec fn varint_bytes(v: nat) -> Seq<u8>
    decreases v,
{
    if v < 128 {
        seq![v as u8]
    } else {
        seq![(v % 128 + 128) as u8] + varint_bytes(v / 128)
    }
}

/// Reads at most `k` groups of seven bits from the start of `s`: the value and
/// the number of bytes read, or `None` where no byte without the high bit comes
/// within the first `k`.
pub open spec fn varint_groups(s: Seq<u8>, k: nat) -> Option<(nat, nat)>
    decreases k,
{
    if k == 0 || s.len() == 0 {
        None
    } else if s[0] < 128 {
        Some((s[0] as nat, 1))
    } else {
        match varint_groups(s.drop_first(), (k - 1) as nat) {
            Some((v, n)) => Some((((s[0] - 128) + 128 * v) as nat, n + 1)),
            None => None,
        }
    }
}

/// The varint at the start of `s`: at most five bytes, with a value that fits in
/// 32 bits. Gives the value and the number of bytes it takes.
pub open spec fn varint_prefix(s: Seq<u8>) -> Option<(u32, nat)> {
    match varint_groups(s, 5) {
        Some((v, n)) => if v <= u32::MAX {
            Some((v as u32, n))
        } else {
            None
        },
        None => None,
    }
}

/// A 32-bit varint value read as the signed integer of the same bits.
pub open spec fn signed_of(v: u32) -> i32 {
    (if v <= i32::MAX {
        v as int
    } else {
        v - 0x1_0000_0000
    }) as i32
}

/// The value of `s` read as a big-endian unsigned integer.
pub open spec fn be_value(s: Seq<u8>) -> nat
    decreases s.len(),
{
    if s.len() == 0 {
        0
    } else {
        (be_value(s.drop_last()) * 256 + s.last()) as nat
    }
}

/// The `n` lowest bytes of `v`, most significant first.
pub open spec fn be_bytes(v: nat, n: nat) -> Seq<u8>
    decreases n,
{
    if n == 0 {
        seq![]
    } else {
        be_bytes(v / 256, (n - 1) as nat).push((v % 256) as u8)
    }
}

/// A value of at most `k` groups is below `128^k`, and takes at most `k` bytes.
pub proof fn lemma_varint_groups_bound(s: Seq<u8>, k: nat)
    ensures
        varint_groups(s, k) matches Some((v, n)) ==> v < pow128(k) && 1 <= n <= k && n <= s.len(),
    decreases k,
{
    if k > 0 && s.len() > 0 {
        lemma_pow128_positive((k - 1) as nat);
        if s[0] >= 128 {
            lemma_varint_groups_bound(s.drop_first(), (k - 1) as nat);
        }
    }
}

/// `128^k` is positive.
pub proof fn lemma_pow128_positive(k: nat)
    ensures
        pow128(k) >= 1,
    decreases k,
{
    if k > 0 {
        lemma_pow128_positive((k - 1) as nat);
    }
}

/// A value below `128^k` takes at most `k` bytes.
pub proof fn lemma_varint_bytes_len(v: nat, k: nat)
    requires
        v < pow128(k),
        k >= 1,
    ensures
        1 <= varint_bytes(v).len() <= k,
    decreases v,
{
    reveal_with_fuel(pow128, 2);
    if v >= 128 {
        let p = pow128((k - 1) as nat);
        assert(v < 128 * p);
        assert(v / 128 < p) by (nonlinear_arith)
            requires
                v < 128 * p,
        ;
        lemma_varint_bytes_len(v / 128, (k - 1) as nat);
    }
}

/// Reading back the encoding of `v`, whatever follows it, gives `v` and the
/// length of the encoding.
pub proof fn lemma_varint_round_trip(v: nat, rest: Seq<u8>, k: nat)
    requires
        varint_bytes(v).len() <= k,
    ensures
        varint_groups(varint_bytes(v) + rest, k) == Some((v, varint_bytes(v).len())),
    decreases v,
{
    let s = varint_bytes(v) + rest;
    if v >= 128 {
        lemma_varint_round_trip(v / 128, rest, (k - 1) as nat);
        assert(s.drop_first() =~= varint_bytes(v / 128) + rest);
    }
}

/// The five-byte varint of every 32-bit value reads back.
pub proof fn lemma_varint_prefix_round_trip(v: u32, rest: Seq<u8>)
    ensures
        varint_prefix(varint_bytes(v as nat) + rest) == Some((v, varint_bytes(v as nat).len())),
        varint_bytes(v as nat).len() <= 5,
{
    reveal_with_fuel(pow128, 6);
    lemma_varint_bytes_len(v as nat, 5);
    lemma_varint_round_trip(v as nat, rest, 5);
}

/// Appends the varint of `v` to `out`.
pub fn write_varint(out: &mut Vec<u8>, v: u32)
    ensures
        final(out)@ == old(out)@ + varint_bytes(v as nat),
{
    let mut u: u32 = v;
    while u >= 128
        invariant
            old(out)@ + varint_bytes(v as nat) == out@ + varint_bytes(u as nat),
        decreases u,
    {
        let b: u8 = (u % 128 + 128) as u8;
        assert(out@ + varint_bytes(u as nat) =~= out@.push(b) + varint_bytes((u / 128) as nat));
        out.push(b);
        u = u / 128;
    }
    assert(varint_bytes(u as nat) =~= seq![u as u8]);
    out.push(u as u8);
}

fn read_groups(buf: &[u8], pos: usize, k: usize) -> (r: Option<(u64, usize)>)
    requires
        pos <= buf@.len(),
        k <= 5,
    ensures
        match varint_groups(buf@.skip(pos as int), k as nat) {
            Some((v, n)) => r == Some((v as u64, n as usize)),
            None => r is None,
        },
    decreases k,
{
    if k == 0 || pos >= buf.len() {
        return None;
    }
    let b = buf[pos];
    if b < 128 {
        return Some((b as u64, 1));
    }
    let ghost s = buf@.skip(pos as int);
    proof {
        assert(s.drop_first() =~= buf@.skip(pos + 1));
        lemma_varint_groups_bound(s.drop_first(), (k - 1) as nat);
        reveal_with_fuel(pow128, 5);
    }
    match read_groups(buf, pos + 1, k - 1) {
        Some((v, n)) => Some(((b - 128) as u64 + 128 * v, n + 1)),
        None => None,
    }
}

/// Reads the varint that starts at `pos`: its value and the number of bytes it
/// takes.
pub fn read_varint(buf: &[u8], pos: usize) -> (r: Option<(u32, usize)>)
    requires
        pos <= buf@.len(),
    ensures
        match varint_prefix(buf@.skip(pos as int)) {
            Some((v, n)) => r == Some((v, n as usize)),
            None => r is None,
        },
{
    proof {
        lemma_varint_groups_bound(buf@.skip(pos as int), 5);
        reveal_with_fuel(pow128, 6);
    }
    match read_groups(buf, pos, 5) {
        Some((v, n)) => if v <= u32::MAX as u64 {
            Some((v as u32, n))
        } else {
            None
        },
        None => None,
    }
}

/// `256` to the power `n`.
pub open spec fn pow256(n: nat) -> nat
    decreases n,
{
    if n == 0 {
        1
    } else {
        256 * pow256((n - 1) as nat)
    }
}

/// A big-endian value of `n` bytes is below `256^n`.
pub proof fn lemma_be_value_bound(s: Seq<u8>)
    ensures
        be_value(s) < pow256(s.len()),
    decreases s.len(),
{
    if s.len() > 0 {
        lemma_be_value_bound(s.drop_last());
    }
}

/// `256^a` is at most `256^b` where `a <= b`.
pub proof fn lemma_pow256_monotonic(a: nat, b: nat)
    requires
        a <= b,
    ensures
        pow256(a) <= pow256(b),
    decreases b,
{
    if a < b {
        lemma_pow256_monotonic(a, (b - 1) as nat);
    }
}

/// `be_bytes(v, n)` takes `n` bytes.
pub proof fn lemma_be_bytes_len(v: nat, n: nat)
    ensures
        #[trigger] be_bytes(v, n).len() == n,
    decreases n,
{
    if n > 0 {
        lemma_be_bytes_len(v / 256, (n - 1) as nat);
    }
}

/// Reads `n` bytes at `pos` as a big-endian unsigned integer.
pub fn read_be(buf: &[u8], pos: usize, n: usize) -> (r: u64)
    requires
        pos + n <= buf@.len(),
        n <= 8,
    ensures
        r == be_value(buf@.subrange(pos as int, pos + n)),
{
    let len = buf.len();
    let mut acc: u64 = 0;
    let mut i: usize = 0;
    while i < n
        invariant
            len == buf@.len(),
            i <= n <= 8,
            pos + n <= buf@.len(),
            acc == be_value(buf@.subrange(pos as int, pos + i)),
        decreases n - i,
    {
        proof {
            lemma_be_value_bound(buf@.subrange(pos as int, pos + i));
            lemma_pow256_monotonic(i as nat, 7);
            reveal_with_fuel(pow256, 8);
            assert(buf@.subrange(pos as int, pos + i + 1).drop_last() =~= buf@.subrange(
                pos as int,
                pos + i,
            ));
        }
        acc = acc * 256 + buf[pos + i] as u64;
        i = i + 1;
    }
    acc
}

/// Appends the `n` lowest bytes of `v`, most significant first.
pub fn write_be(out: &mut Vec<u8>, v: u64, n: usize)
    requires
        n <= 8,
    ensures
        final(out)@ == old(out)@ + be_bytes(v as nat, n as nat),
    decreases n,
{
    if n > 0 {
        write_be(out, v / 256, n - 1);
        out.push((v % 256) as u8);
        proof {
            assert(final(out)@ =~= old(out)@ + be_bytes(v as nat, n as nat));
        }
    } else {
        proof {
            assert(out@ =~= old(out)@ + be_bytes(v as nat, n as nat));
        }
    }
}

/// The two bytes of a signed 16-bit field, as its bits.
pub open spec fn i16_bits(a: i16) -> nat {
    (if a >= 0 {
        a as int
    } else {
        a + 0x1_0000
    }) as nat
}

/// A 16-bit field read as a signed value.
pub open spec fn i16_of(w: nat) -> i16 {
    (if w <= i16::MAX {
        w as int
    } else {
        w - 0x1_0000
    }) as i16
}

/// The bytes of a packet: the varint of its id, then its data.
pub open spec fn packet_bytes(id: u32, data: Seq<u8>) -> Seq<u8> {
    varint_bytes(id as nat) + data
}

/// The id and data of the packet that `bytes` holds uncompressed.
pub open spec fn split_packet(bytes: Seq<u8>) -> Option<(u32, Seq<u8>)> {
    match varint_prefix(bytes) {
        Some((id, n)) => Some((id, bytes.skip(n as int))),
        None => None,
    }
}

/// What the zlib decompression of `input` gives, where its output takes at
/// most `max_size` bytes.
pub uninterp spec fn zlib_decompressed(input: Seq<u8>, max_size: usize) -> Option<Seq<u8>>;

/// The zlib stream that compressing `input` at `level` gives.
pub uninterp spec fn zlib_compressed(input: Seq<u8>, level: u8) -> Seq<u8>;

/// The packet that a frame body holds, given the compression threshold of the
/// session. Without a threshold the body is the packet. With one, the body
/// starts with the varint of the packet's length: zero where the packet follows
/// uncompressed, else the length of the packet that the zlib stream after it
/// holds.
pub open spec fn frame_packet(body: Seq<u8>, threshold: Option<i32>) -> Option<(u32, Seq<u8>)> {
    match threshold {
        None => split_packet(body),
        Some(_) => match varint_prefix(body) {
            None => None,
            Some((len, n)) => if len == 0 {
                split_packet(body.skip(n as int))
            } else {
                match zlib_decompressed(body.skip(n as int), len as usize) {
                    Some(inner) => if inner.len() == len {
                        split_packet(inner)
                    } else {
                        None
                    },
                    None => None,
                }
            },
        },
    }
}

/// The zlib level of compressed frames.
pub const COMPRESSION_LEVEL: u8 = 6;

/// The largest packet that a frame of this protocol carries.
pub const MAX_PACKET_LEN: usize = 2097151;

/// The frame body of packet `id` with `data`, for the compression threshold of
/// the session: compressed where a threshold is set and the packet takes at
/// least that many bytes.
pub open spec fn frame_of(id: u32, data: Seq<u8>, threshold: Option<i32>) -> Seq<u8> {
    let inner = packet_bytes(id, data);
    match threshold {
        None => inner,
        Some(t) => if inner.len() >= t {
            varint_bytes(inner.len()) + zlib_compressed(inner, COMPRESSION_LEVEL)
        } else {
            varint_bytes(0) + inner
        },
    }
}

/// Relies on miniz_oxide::inflate::decompress_to_vec_zlib_with_limit: the data of
/// a zlib stream, or an error where the stream is invalid or its data would take
/// more than `max_size` bytes.
#[verifier::external_body]
fn zlib_decompress(input: &[u8], max_size: usize) -> (r: Option<Vec<u8>>)
    ensures
        r is Some == zlib_decompressed(input@, max_size) is Some,
        r matches Some(v) ==> v@ == zlib_decompressed(input@, max_size)->0 && v@.len()
            <= max_size,
{
    miniz_oxide::inflate::decompress_to_vec_zlib_with_limit(input, max_size).ok()
}

/// Relies on miniz_oxide::deflate::compress_to_vec_zlib: the zlib stream of
/// `input` at a compression level.
#[verifier::external_body]
fn zlib_compress(input: &[u8], level: u8) -> (r: Vec<u8>)
    ensures
        r@ == zlib_compressed(input@, level),
{
    miniz_oxide::deflate::compress_to_vec_zlib(input, level)
}

/// A packet taken out of its frame.
pub struct Packet {
    pub id: u32,
    pub data: Vec<u8>,
}

/// The packet of an uncompressed body.
fn split(bytes: &[u8]) -> (r: Option<Packet>)
    ensures
        match split_packet(bytes@) {
            Some((id, data)) => r matches Some(p) && p.id == id && p.data@ == data,
            None => r is None,
        },
{
    match read_varint(bytes, 0) {
        Some((id, n)) => {
            proof {
                assert(bytes@.skip(0) =~= bytes@);
                lemma_varint_groups_bound(bytes@, 5);
            }
            let data = slice_from(bytes, n);
            Some(Packet { id, data })
        },
        None => {
            proof {
                assert(bytes@.skip(0) =~= bytes@);
            }
            None
        },
    }
}

/// The bytes of `s` from `start` on.
fn slice_from(s: &[u8], start: usize) -> (r: Vec<u8>)
    requires
        start <= s@.len(),
    ensures
        r@ == s@.skip(start as int),
{
    copy_range(s, start, s.len())
}

/// Takes the packet out of a frame body, given the compression threshold of the
/// session.
pub fn decode_frame(body: &[u8], threshold: Option<i32>) -> (r: Option<Packet>)
    ensures
        match frame_packet(body@, threshold) {
            Some((id, data)) => r matches Some(p) && p.id == id && p.data@ == data,
            None => r is None,
        },
{
    match threshold {
        None => split(body),
        Some(_) => match read_varint(body, 0) {
            None => {
                proof {
                    assert(body@.skip(0) =~= body@);
                }
                None
            },
            Some((len, n)) => {
                proof {
                    assert(body@.skip(0) =~= body@);
                    lemma_varint_groups_bound(body@, 5);
                }
                let rest = slice_from(body, n);
                if len == 0 {
                    split(rest.as_slice())
                } else {
                    match zlib_decompress(rest.as_slice(), len as usize) {
                        Some(inner) => if inner.len() == len as usize {
                            split(inner.as_slice())
                        } else {
                            None
                        },
                        None => None,
                    }
                }
            },
        },
    }
}

/// The frame body of packet `id` with `data`, for the compression threshold of
/// the session.
pub fn encode_frame(id: u32, data: &[u8], threshold: Option<i32>) -> (r: Vec<u8>)
    requires
        data@.len() <= MAX_PACKET_LEN,
    ensures
        r@ == frame_of(id, data@, threshold),
{
    let mut inner: Vec<u8> = Vec::new();
    write_varint(&mut inner, id);
    proof {
        lemma_varint_prefix_round_trip(id, seq![]);
        assert(varint_bytes(id as nat) + seq![] =~= varint_bytes(id as nat));
    }
    let mut i: usize = 0;
    while i < data.len()
        invariant
            i <= data@.len() <= MAX_PACKET_LEN,
            varint_bytes(id as nat).len() <= 5,
            inner@ == varint_bytes(id as nat) + data@.subrange(0, i as int),
        decreases data@.len() - i,
    {
        inner.push(data[i]);
        i = i + 1;
        proof {
            assert(inner@ =~= varint_bytes(id as nat) + data@.subrange(0, i as int));
        }
    }
    proof {
        assert(data@.subrange(0, data@.len() as int) =~= data@);
    }
    match threshold {
        None => inner,
        Some(t) => {
            let len = inner.len();
            if t <= 0 || len >= t as usize {
                let mut out: Vec<u8> = Vec::new();
                write_varint(&mut out, len as u32);
                let packed = zlib_compress(inner.as_slice(), COMPRESSION_LEVEL);
                out.extend_from_slice(packed.as_slice());
                out
            } else {
                let mut out: Vec<u8> = Vec::new();
                write_varint(&mut out, 0);
                out.extend_from_slice(inner.as_slice());
                out
            }
        },
    }
}

/// The bits of a signed 32-bit value, as the unsigned value a varint carries.
pub open spec fn i32_bits(v: i32) -> nat {
    (if v >= 0 {
        v as int
    } else {
        v + 0x1_0000_0000
    }) as nat
}

/// The bits of a signed byte.
pub open spec fn i8_bits(v: i8) -> nat {
    (if v >= 0 {
        v as int
    } else {
        v + 0x100
    }) as nat
}

/// A byte read as a signed value.
pub open spec fn i8_of(b: u8) -> i8 {
    (if b <= i8::MAX {
        b as int
    } else {
        b - 0x100
    }) as i8
}

/// The unsigned value that carries the bits of `v`.
pub fn bits_of_i32(v: i32) -> (r: u32)
    ensures
        r as nat == i32_bits(v),
{
    if v >= 0 {
        v as u32
    } else {
        (v as i64 + 0x1_0000_0000) as u32
    }
}

/// The byte that carries the bits of `v`.
pub fn bits_of_i8(v: i8) -> (r: u8)
    ensures
        r as nat == i8_bits(v),
{
    if v >= 0 {
        v as u8
    } else {
        (v as i16 + 0x100) as u8
    }
}

/// The two bytes that carry the bits of `v`.
pub fn bits_of_i16(v: i16) -> (r: u16)
    ensures
        r as nat == i16_bits(v),
{
    if v >= 0 {
        v as u16
    } else {
        (v as i32 + 0x1_0000) as u16
    }
}

/// The signed value of 32 bits.
pub fn i32_from_bits(v: u32) -> (r: i32)
    ensures
        r == signed_of(v),
{
    if v <= i32::MAX as u32 {
        v as i32
    } else {
        (v as i64 - 0x1_0000_0000) as i32
    }
}

/// The signed value of 16 bits.
pub fn i16_from_bits(w: u64) -> (r: i16)
    requires
        w <= u16::MAX,
    ensures
        r == i16_of(w as nat),
{
    if w <= i16::MAX as u64 {
        w as i16
    } else {
        (w as i32 - 0x1_0000) as i16
    }
}

/// The signed value of a byte.
pub fn i8_from_bits(b: u8) -> (r: i8)
    ensures
        r == i8_of(b),
{
    if b <= i8::MAX as u8 {
        b as i8
    } else {
        (b as i16 - 0x100) as i8
    }
}

/// The bytes of a protocol string: the varint of its UTF-8 length, then its
/// UTF-8 bytes.
pub open spec fn string_bytes(s: Seq<char>) -> Seq<u8> {
    varint_bytes(encode_utf8(s).len()) + encode_utf8(s)
}

/// The protocol string at the start of `s`, and the number of bytes it takes.
pub open spec fn string_prefix(s: Seq<u8>) -> Option<(Seq<char>, nat)> {
    match varint_prefix(s) {
        Some((len, n)) => if n + len <= s.len() && valid_utf8(s.subrange(n as int, n + len)) {
            Some((decode_utf8(s.subrange(n as int, n + len)), (n + len) as nat))
        } else {
            None
        },
        None => None,
    }
}

/// UTF-8 takes at most four bytes a character.
pub proof fn lemma_utf8_len(s: Seq<char>)
    ensures
        encode_utf8(s).len() <= 4 * s.len(),
    decreases s.len(),
{
    if s.len() > 0 {
        lemma_utf8_len(s.drop_first());
    }
}

/// A protocol string takes at most five bytes more than its text.
pub proof fn lemma_string_bytes_len(s: Seq<char>)
    requires
        encode_utf8(s).len() <= u32::MAX,
    ensures
        string_bytes(s).len() <= encode_utf8(s).len() + 5,
{
    lemma_varint_prefix_round_trip(encode_utf8(s).len() as u32, seq![]);
}

/// Relies on String::from_utf8: the text that well-formed UTF-8 bytes encode,
/// and an error for any other bytes.
#[verifier::external_body]
fn text_of(bytes: Vec<u8>) -> (r: Option<String>)
    ensures
        r is Some == valid_utf8(bytes@),
        r matches Some(s) ==> s@ == decode_utf8(bytes@),
{
    String::from_utf8(bytes).ok()
}

/// The bytes of `s` from `start` up to `end`.
pub fn copy_range(s: &[u8], start: usize, end: usize) -> (r: Vec<u8>)
    requires
        start <= end <= s@.len(),
    ensures
        r@ == s@.subrange(start as int, end as int),
{
    let mut r: Vec<u8> = Vec::new();
    let mut i: usize = start;
    while i < end
        invariant
            start <= i <= end <= s@.len(),
            r@ == s@.subrange(start as int, i as int),
        decreases end - i,
    {
        r.push(s[i]);
        i = i + 1;
        proof {
            assert(r@ =~= s@.subrange(start as int, i as int));
        }
    }
    r
}

/// Appends a protocol string.
pub fn write_string(out: &mut Vec<u8>, s: &str)
    requires
        encode_utf8(s@).len() <= MAX_PACKET_LEN,
    ensures
        final(out)@ == old(out)@ + string_bytes(s@),
{
    let b = s.as_bytes();
    write_varint(out, b.len() as u32);
    out.extend_from_slice(b);
    proof {
        assert(final(out)@ =~= old(out)@ + string_bytes(s@));
    }
}

/// Reads the protocol string that starts at `pos`: its text and the number of
/// bytes it takes.
pub fn read_string(buf: &[u8], pos: usize) -> (r: Option<(String, usize)>)
    requires
        pos <= buf@.len(),
    ensures
        match string_prefix(buf@.skip(pos as int)) {
            Some((t, n)) => r matches Some((s, m)) && s@ == t && m == n,
            None => r is None,
        },
{
    proof {
        lemma_varint_groups_bound(buf@.skip(pos as int), 5);
    }
    match read_varint(buf, pos) {
        None => None,
        Some((len, n)) => {
            if len as usize > buf.len() - pos - n {
                return None;
            }
            let start = pos + n;
            let end = start + len as usize;
            let bytes = copy_range(buf, start, end);
            proof {
                assert(bytes@ =~= buf@.skip(pos as int).subrange(n as int, n + len));
            }
            match text_of(bytes) {
                Some(s) => Some((s, n + len as usize)),
                None => None,
            }
        },
    }
}

/// A frame as it goes on the wire: the varint of its body's length, then the
/// body.
pub fn wire_bytes(body: &[u8]) -> (r: Vec<u8>)
    requires
        body@.len() <= u32::MAX,
    ensures
        r@ == varint_bytes(body@.len()) + body@,
{
    let mut out: Vec<u8> = Vec::new();
    write_varint(&mut out, body.len() as u32);
    out.extend_from_slice(body);
    out
}

/// Where the reading of a frame's length prefix stands.
#[derive(Clone, Copy, PartialEq, Eq, Structural, Debug)]
pub enum LengthPrefix {
    /// The prefix goes on: read another byte.
    Incomplete,
    /// The prefix is complete: the body takes this many bytes.
    Complete(u32),
    /// No varint of the protocol starts this way.
    Invalid,
}

/// Where the prefix `buf`, read so far, stands.
pub open spec fn length_prefix_of(buf: Seq<u8>) -> LengthPrefix {
    match varint_prefix(buf) {
        Some((v, n)) => if n == buf.len() {
            LengthPrefix::Complete(v)
        } else {
            LengthPrefix::Invalid
        },
        None => if buf.len() < 5 && forall|i: int| 0 <= i < buf.len() ==> #[trigger] buf[i] >= 128 {
            LengthPrefix::Incomplete
        } else {
            LengthPrefix::Invalid
        },
    }
}

/// Says where the length prefix of a frame stands, from the bytes read so far.
pub fn length_prefix(buf: &[u8]) -> (r: LengthPrefix)
    ensures
        r == length_prefix_of(buf@),
{
    proof {
        assert(buf@.skip(0) =~= buf@);
        lemma_varint_groups_bound(buf@, 5);
    }
    match read_varint(buf, 0) {
        Some((v, n)) => if n == buf.len() {
            LengthPrefix::Complete(v)
        } else {
            LengthPrefix::Invalid
        },
        None => {
            if buf.len() >= 5 {
                return LengthPrefix::Invalid;
            }
            let mut i: usize = 0;
            while i < buf.len()
                invariant
                    i <= buf@.len() < 5,
                    varint_prefix(buf@) is None,
                    forall|j: int| 0 <= j < i ==> #[trigger] buf@[j] >= 128,
                decreases buf@.len() - i,
            {
                if buf[i] < 128 {
                    assert(!(forall|j: int| 0 <= j < buf@.len() ==> #[trigger] buf@[j] >= 128));
                    return LengthPrefix::Invalid;
                }
                i = i + 1;
            }
            LengthPrefix::Incomplete
        },
    }
}

} // verus!
