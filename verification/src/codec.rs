//! Byte-level building blocks of the record format: little-endian `u32`
//! words and length-prefixed UTF-8 text fields.

use byteorder::{ByteOrder, LittleEndian};
use vstd::bytes::{
    lemma_auto_spec_u32_to_from_le_bytes, lemma_auto_spec_u64_to_from_le_bytes, spec_u32_from_le_bytes,
    spec_u32_to_le_bytes, spec_u64_from_le_bytes, spec_u64_to_le_bytes,
};
use vstd::prelude::*;
use vstd::utf8::{decode_utf8, encode_utf8, valid_utf8};

verus! {

/// byteorder's `LittleEndian::write_u32`: the four bytes of `n`, least
/// significant first.
#[verifier::external_body]
pub(crate) fn le_bytes_of_u32(n: u32) -> (r: [u8; 4])
    ensures
        r@ == spec_u32_to_le_bytes(n),
{
    let mut buf = [0u8; 4];
    LittleEndian::write_u32(&mut buf, n);
    buf
}

/// byteorder's `LittleEndian::read_u32`: the word whose little-endian bytes are
/// the first four bytes of `buf` (it panics on a shorter slice).
#[verifier::external_body]
pub(crate) fn u32_of_le_bytes(buf: &[u8]) -> (r: u32)
    requires
        buf@.len() >= 4,
    ensures
        r == spec_u32_from_le_bytes(buf@.subrange(0, 4)),
{
    LittleEndian::read_u32(buf)
}

/// std's `String::from_utf8`: succeeds exactly on valid UTF-8, and the string
/// it gives back holds those bytes.
#[verifier::external_body]
pub(crate) fn string_from_utf8(bytes: Vec<u8>) -> (r: Option<String>)
    ensures
        r is Some <==> valid_utf8(bytes@),
        r matches Some(s) ==> encode_utf8(s@) == bytes@,
{
    String::from_utf8(bytes).ok()
}

/// The UTF-8 bytes of a text.
pub open spec fn text_bytes(s: Seq<char>) -> Seq<u8> {
    encode_utf8(s)
}

/// A text field as stored: its byte length as a little-endian `u32`
/// (truncated to 32 bits), then its UTF-8 bytes.
pub open spec fn field_bytes(s: Seq<char>) -> Seq<u8> {
    spec_u32_to_le_bytes(text_bytes(s).len() as u32) + text_bytes(s)
}

/// A text fits in a field when its byte length fits in the `u32` prefix.
pub open spec fn fits_field(s: Seq<char>) -> bool {
    text_bytes(s).len() <= u32::MAX
}

/// The little-endian word stored at `pos`, if four bytes are there.
pub open spec fn u32_at(b: Seq<u8>, pos: int) -> Option<u32> {
    if 0 <= pos && pos + 4 <= b.len() {
        Some(spec_u32_from_le_bytes(b.subrange(pos, pos + 4)))
    } else {
        None
    }
}

/// The text field stored at `pos` and the position just after it, if the
/// length prefix, the bytes it announces and their UTF-8 form are all there.
pub open spec fn field_at(b: Seq<u8>, pos: int) -> Option<(Seq<char>, int)> {
    match u32_at(b, pos) {
        Some(n) => {
            let start = pos + 4;
            let end = start + n;
            if end <= b.len() && valid_utf8(b.subrange(start, end)) {
                Some((decode_utf8(b.subrange(start, end)), end))
            } else {
                None
            }
        },
        None => None,
    }
}

/// Appends the little-endian bytes of `n`.
pub fn push_u32_le(out: &mut Vec<u8>, n: u32)
    ensures
        final(out)@ == old(out)@ + spec_u32_to_le_bytes(n),
{
    let b = le_bytes_of_u32(n);
    proof {
        lemma_auto_spec_u32_to_from_le_bytes();
    }
    let ghost start = out@;
    let mut i: usize = 0;
    while i < 4
        invariant
            b@ == spec_u32_to_le_bytes(n),
            b@.len() == 4,
            0 <= i <= 4,
            out@ == start + b@.subrange(0, i as int),
        decreases 4 - i,
    {
        out.push(b[i]);
        i = i + 1;
        assert(out@ == start + b@.subrange(0, i as int));
    }
    assert(b@.subrange(0, 4) == b@);
}

/// Appends `bytes` one by one.
pub fn push_bytes(out: &mut Vec<u8>, bytes: &[u8])
    ensures
        final(out)@ == old(out)@ + bytes@,
{
    let ghost start = out@;
    let mut i: usize = 0;
    while i < bytes.len()
        invariant
            0 <= i <= bytes@.len(),
            out@ == start + bytes@.subrange(0, i as int),
        decreases bytes@.len() - i,
    {
        out.push(bytes[i]);
        i = i + 1;
        assert(out@ == start + bytes@.subrange(0, i as int));
    }
    assert(bytes@.subrange(0, bytes@.len() as int) == bytes@);
}

/// Appends `s` as a text field.
pub fn push_field(out: &mut Vec<u8>, s: &String)
    ensures
        final(out)@ == old(out)@ + field_bytes(s@),
{
    let b = s.as_str().as_bytes();
    push_u32_le(out, b.len() as u32);
    push_bytes(out, b);
    assert(out@ =~= old(out)@ + field_bytes(s@)) by {
        assert(b@ == text_bytes(s@));
    }
}

/// Reads the little-endian word at `pos`, with the position after it.
pub fn read_u32_at(bytes: &[u8], pos: usize) -> (r: Option<(u32, usize)>)
    ensures
        match u32_at(bytes@, pos as int) {
            Some(n) => r == Some((n, (pos + 4) as usize)),
            None => r is None,
        },
{
    if pos <= bytes.len() && 4 <= bytes.len() - pos {
        let window = vstd::slice::slice_subrange(bytes, pos, pos + 4);
        let n = u32_of_le_bytes(window);
        assert(window@.subrange(0, 4) == bytes@.subrange(pos as int, pos + 4));
        Some((n, pos + 4))
    } else {
        None
    }
}

/// Reads the text field at `pos`, with the position after it.
pub fn read_field_at(bytes: &[u8], pos: usize) -> (r: Option<(String, usize)>)
    ensures
        match field_at(bytes@, pos as int) {
            Some((s, end)) => r matches Some((t, e)) && t@ == s && e == end,
            None => r is None,
        },
{
    match read_u32_at(bytes, pos) {
        None => None,
        Some((n, start)) => {
            if (n as usize) <= bytes.len() - start {
                let end = start + n as usize;
                let window = vstd::slice::slice_subrange(bytes, start, end);
                let owned = vstd::slice::slice_to_vec(window);
                match string_from_utf8(owned) {
                    Some(text) => {
                        proof {
                            vstd::utf8::encode_utf8_decode_utf8(text@);
                        }
                        Some((text, end))
                    },
                    None => None,
                }
            } else {
                None
            }
        },
    }
}

/// The word stored as `spec_u32_to_le_bytes(n)` at `pos` reads back as `n`.
pub proof fn lemma_u32_at(b: Seq<u8>, pos: int, n: u32)
    requires
        0 <= pos,
        pos + 4 <= b.len(),
        b.subrange(pos, pos + 4) == spec_u32_to_le_bytes(n),
    ensures
        u32_at(b, pos) == Some(n),
{
    lemma_auto_spec_u32_to_from_le_bytes();
    assert(spec_u32_to_le_bytes(n).len() == 4);
}

/// A field written by `field_bytes(s)` at `pos` reads back as `s`, ending
/// right after its bytes, whatever follows.
pub proof fn lemma_field_at(b: Seq<u8>, pos: int, s: Seq<char>)
    requires
        fits_field(s),
        0 <= pos,
        pos + field_bytes(s).len() <= b.len(),
        b.subrange(pos, pos + field_bytes(s).len()) == field_bytes(s),
    ensures
        field_at(b, pos) == Some((s, pos + field_bytes(s).len())),
{
    lemma_auto_spec_u32_to_from_le_bytes();
    let t = text_bytes(s);
    let n = t.len() as u32;
    assert(spec_u32_to_le_bytes(n).len() == 4);
    assert(b.subrange(pos, pos + 4) == field_bytes(s).subrange(0, 4));
    assert(field_bytes(s).subrange(0, 4) == spec_u32_to_le_bytes(n));
    lemma_u32_at(b, pos, n);
    assert(b.subrange(pos + 4, pos + 4 + n) == field_bytes(s).subrange(4, 4 + t.len() as int));
    assert(field_bytes(s).subrange(4, 4 + t.len() as int) == t);
    vstd::utf8::encode_utf8_valid_utf8(s);
    vstd::utf8::encode_utf8_decode_utf8(s);
}

/// `n` text fields stored one after another from `pos`, with the position
/// after the last one.
pub open spec fn fields_at(b: Seq<u8>, pos: int, n: nat) -> Option<(Seq<Seq<char>>, int)>
    decreases n,
{
    if n == 0 {
        Some((Seq::empty(), pos))
    } else {
        match fields_at(b, pos, (n - 1) as nat) {
            Some((fs, p)) => match field_at(b, p) {
                Some((f, q)) => Some((fs.push(f), q)),
                None => None,
            },
            None => None,
        }
    }
}

/// Texts stored as consecutive fields.
pub open spec fn fields_bytes(fs: Seq<Seq<char>>) -> Seq<u8>
    decreases fs.len(),
{
    if fs.len() == 0 {
        Seq::empty()
    } else {
        fields_bytes(fs.drop_last()) + field_bytes(fs.last())
    }
}

/// Reads `n` consecutive text fields from `pos`.
pub fn read_fields_at(bytes: &[u8], pos: usize, n: usize) -> (r: Option<(Vec<String>, usize)>)
    ensures
        match fields_at(bytes@, pos as int, n as nat) {
            Some((fs, end)) => r matches Some((v, e)) && v@.len() == fs.len()
                && (forall|j: int| 0 <= j < fs.len() ==> #[trigger] v@[j]@ == fs[j])
                && e == end,
            None => r is None,
        },
        r matches Some((v, _)) ==> v@.len() == n,
{
    let mut out: Vec<String> = Vec::new();
    let mut p = pos;
    let mut i: usize = 0;
    while i < n
        invariant
            0 <= i <= n,
            out@.len() == i,
            fields_at(bytes@, pos as int, i as nat) matches Some((fs, end)) && out@.len() == fs.len()
                && (forall|j: int| 0 <= j < fs.len() ==> #[trigger] out@[j]@ == fs[j])
                && p == end,
        decreases n - i,
    {
        match read_field_at(bytes, p) {
            Some((f, q)) => {
                out.push(f);
                p = q;
                i = i + 1;
            },
            None => {
                proof {
                    lemma_fields_at_none_extends(bytes@, pos as int, (i + 1) as nat, n as nat);
                }
                return None;
            },
        }
    }
    Some((out, p))
}

/// Once reading the first `m` fields fails, reading more fails too.
pub proof fn lemma_fields_at_none_extends(b: Seq<u8>, pos: int, m: nat, n: nat)
    requires
        m <= n,
        fields_at(b, pos, m) is None,
    ensures
        fields_at(b, pos, n) is None,
    decreases n - m,
{
    if m < n {
        lemma_fields_at_none_extends(b, pos, m, (n - 1) as nat);
    }
}

/// Consecutive fields written by `fields_bytes(fs)` at `pos` read back as `fs`.
pub proof fn lemma_fields_at(b: Seq<u8>, pos: int, fs: Seq<Seq<char>>)
    requires
        forall|j: int| 0 <= j < fs.len() ==> fits_field(#[trigger] fs[j]),
        0 <= pos,
        pos + fields_bytes(fs).len() <= b.len(),
        b.subrange(pos, pos + fields_bytes(fs).len()) == fields_bytes(fs),
    ensures
        fields_at(b, pos, fs.len()) == Some((fs, pos + fields_bytes(fs).len())),
    decreases fs.len(),
{
    if fs.len() > 0 {
        let init = fs.drop_last();
        let last = fs.last();
        let a = fields_bytes(init);
        let l = field_bytes(last);
        assert(fields_bytes(fs) == a + l);
        assert(b.subrange(pos, pos + a.len()) == (a + l).subrange(0, a.len() as int));
        assert((a + l).subrange(0, a.len() as int) == a);
        assert forall|j: int| 0 <= j < init.len() implies fits_field(#[trigger] init[j]) by {
            assert(init[j] == fs[j]);
        }
        lemma_fields_at(b, pos, init);
        assert(fits_field(fs[fs.len() - 1]));
        assert(b.subrange(pos + a.len(), pos + a.len() + l.len()) == (a + l).subrange(a.len() as int, (a.len() + l.len()) as int));
        assert((a + l).subrange(a.len() as int, (a.len() + l.len()) as int) == l);
        lemma_field_at(b, pos + a.len(), last);
        assert(init.push(last) == fs);
    } else {
        assert(fs == Seq::<Seq<char>>::empty());
    }
}

/// Whether two texts are the same, compared through their UTF-8 bytes.
pub fn text_eq(a: &str, b: &str) -> (r: bool)
    ensures
        r == (a@ == b@),
{
    let x = a.as_bytes();
    let y = b.as_bytes();
    proof {
        vstd::utf8::encode_utf8_decode_utf8(a@);
        vstd::utf8::encode_utf8_decode_utf8(b@);
    }
    if x.len() != y.len() {
        return false;
    }
    let mut i: usize = 0;
    while i < x.len()
        invariant
            x@ == encode_utf8(a@),
            y@ == encode_utf8(b@),
            x@.len() == y@.len(),
            0 <= i <= x@.len(),
            forall|j: int| 0 <= j < i ==> x@[j] == y@[j],
        decreases x@.len() - i,
    {
        if x[i] != y[i] {
            assert(x@ != y@);
            return false;
        }
        i = i + 1;
    }
    assert(x@ =~= y@);
    true
}

/// Whether the machine's byte order, as vstd names it, is little-endian.
pub open spec fn native_little() -> bool {
    vstd::endian::endianness() is Little
}

/// std's `u16::from_ne_bytes` on the bytes 1, 0, read in the machine's byte
/// order: 1 on a little-endian machine, 256 on a big-endian one.
#[verifier::external_body]
pub(crate) fn native_order_probe() -> (r: u16)
    ensures
        r == 1 || r == 256,
        (r == 1) == native_little(),
{
    u16::from_ne_bytes([1, 0])
}

/// Whether this machine stores integers least significant byte first.
pub fn native_is_little() -> (r: bool)
    ensures
        r == native_little(),
{
    native_order_probe() == 1
}

/// Little-endian bytes put in the given byte order.
pub open spec fn in_order(le: Seq<u8>, little: bool) -> Seq<u8> {
    if little {
        le
    } else {
        le.reverse()
    }
}

/// The bytes of a `u32` in the given byte order.
pub open spec fn u32_in(x: u32, little: bool) -> Seq<u8> {
    in_order(spec_u32_to_le_bytes(x), little)
}

/// The bytes of a `u64` in the given byte order.
pub open spec fn u64_in(x: u64, little: bool) -> Seq<u8> {
    in_order(spec_u64_to_le_bytes(x), little)
}

/// The `u32` stored in the given byte order at `pos`, if four bytes are there.
pub open spec fn u32_in_at(b: Seq<u8>, pos: int, little: bool) -> Option<u32> {
    if 0 <= pos && pos + 4 <= b.len() {
        Some(spec_u32_from_le_bytes(in_order(b.subrange(pos, pos + 4), little)))
    } else {
        None
    }
}

/// The `u64` stored in the given byte order at `pos`, if eight bytes are there.
pub open spec fn u64_in_at(b: Seq<u8>, pos: int, little: bool) -> Option<u64> {
    if 0 <= pos && pos + 8 <= b.len() {
        Some(spec_u64_from_le_bytes(in_order(b.subrange(pos, pos + 8), little)))
    } else {
        None
    }
}

/// `v` put in the given byte order.
fn ordered(v: Vec<u8>, little: bool) -> (r: Vec<u8>)
    ensures
        r@ == in_order(v@, little),
{
    if little {
        return v;
    }
    let mut r: Vec<u8> = Vec::new();
    let mut i: usize = v.len();
    while i > 0
        invariant
            i <= v@.len(),
            r@ =~= v@.subrange(i as int, v@.len() as int).reverse(),
        decreases i,
    {
        i = i - 1;
        r.push(v[i]);
    }
    r
}

/// Appends a `u32` in the given byte order.
pub fn push_u32_in(out: &mut Vec<u8>, x: u32, little: bool)
    ensures
        final(out)@ == old(out)@ + u32_in(x, little),
{
    let le = vstd::bytes::u32_to_le_bytes(x);
    let b = ordered(le, little);
    push_bytes(out, b.as_slice());
}

/// Appends a `u64` in the given byte order.
pub fn push_u64_in(out: &mut Vec<u8>, x: u64, little: bool)
    ensures
        final(out)@ == old(out)@ + u64_in(x, little),
{
    let le = vstd::bytes::u64_to_le_bytes(x);
    let b = ordered(le, little);
    push_bytes(out, b.as_slice());
}

/// Reads the `u32` stored in the given byte order at `pos`.
pub fn read_u32_in_at(bytes: &[u8], pos: usize, little: bool) -> (r: Option<u32>)
    ensures
        r == u32_in_at(bytes@, pos as int, little),
{
    if pos <= bytes.len() && 4 <= bytes.len() - pos {
        let window = vstd::slice::slice_subrange(bytes, pos, pos + 4);
        let le = ordered(vstd::slice::slice_to_vec(window), little);
        Some(vstd::bytes::u32_from_le_bytes(le.as_slice()))
    } else {
        None
    }
}

/// Reads the `u64` stored in the given byte order at `pos`.
pub fn read_u64_in_at(bytes: &[u8], pos: usize, little: bool) -> (r: Option<u64>)
    ensures
        r == u64_in_at(bytes@, pos as int, little),
{
    if pos <= bytes.len() && 8 <= bytes.len() - pos {
        let window = vstd::slice::slice_subrange(bytes, pos, pos + 8);
        let le = ordered(vstd::slice::slice_to_vec(window), little);
        Some(vstd::bytes::u64_from_le_bytes(le.as_slice()))
    } else {
        None
    }
}

/// A `u32` written in some byte order reads back in that order.
pub proof fn lemma_u32_in_at(b: Seq<u8>, pos: int, x: u32, little: bool)
    requires
        0 <= pos,
        pos + 4 <= b.len(),
        b.subrange(pos, pos + 4) == u32_in(x, little),
    ensures
        u32_in_at(b, pos, little) == Some(x),
{
    lemma_auto_spec_u32_to_from_le_bytes();
    let le = spec_u32_to_le_bytes(x);
    assert(le.len() == 4);
    assert(le.reverse().reverse() =~= le);
}

/// A `u64` written in some byte order reads back in that order.
pub proof fn lemma_u64_in_at(b: Seq<u8>, pos: int, x: u64, little: bool)
    requires
        0 <= pos,
        pos + 8 <= b.len(),
        b.subrange(pos, pos + 8) == u64_in(x, little),
    ensures
        u64_in_at(b, pos, little) == Some(x),
{
    lemma_auto_spec_u64_to_from_le_bytes();
    let le = spec_u64_to_le_bytes(x);
    assert(le.len() == 8);
    assert(le.reverse().reverse() =~= le);
}

} // verus!
