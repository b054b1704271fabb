//! The length-prefixed binary layout shared by every encoded value.
//!
//! Integers are little-endian and of fixed width. A byte string is framed by
//! its length as a 32-bit integer, followed by the bytes themselves.

use vstd::prelude::*;

verus! {

/// The longest byte string that a frame can carry.
pub const FRAME_MAX: usize = 0xffff_ffff;

/// The number of values that `width` bytes can tell apart.
pub open spec fn span(width: nat) -> nat
    decreases width,
{
    if width == 0 {
        1
    } else {
        256 * span((width - 1) as nat)
    }
}

/// The `width` bytes that stand for `x`, least significant first.
pub open spec fn le_bytes(x: nat, width: nat) -> Seq<u8>
    decreases width,
{
    if width == 0 {
        Seq::empty()
    } else {
        seq![(x % 256) as u8] + le_bytes(x / 256, (width - 1) as nat)
    }
}

/// The number that the bytes of `s` stand for, least significant first.
pub open spec fn le_value(s: Seq<u8>) -> nat
    decreases s.len(),
{
    if s.len() == 0 {
        0
    } else {
        s[0] as nat + 256 * le_value(s.drop_first())
    }
}

/// The four bytes that stand for `x`.
pub open spec fn u32_le(x: u32) -> Seq<u8> {
    le_bytes(x as nat, 4)
}

/// The integer that the first four bytes of `s` stand for.
pub open spec fn u32_of(s: Seq<u8>) -> u32 {
    le_value(s.take(4)) as u32
}

/// The eight bytes that stand for `x`.
pub open spec fn u64_le(x: u64) -> Seq<u8> {
    le_bytes(x as nat, 8)
}

/// The integer that the first eight bytes of `s` stand for.
pub open spec fn u64_of(s: Seq<u8>) -> u64 {
    le_value(s.take(8)) as u64
}

/// A byte string behind its length.
pub open spec fn frame(content: Seq<u8>) -> Seq<u8> {
    u32_le(content.len() as u32) + content
}

/// Splits one byte off the front of `s`.
pub open spec fn parse_u8(s: Seq<u8>) -> Option<(u8, Seq<u8>)> {
    if s.len() >= 1 {
        Some((s[0], s.skip(1)))
    } else {
        None
    }
}

/// Splits a 32-bit integer off the front of `s`.
pub open spec fn parse_u32(s: Seq<u8>) -> Option<(u32, Seq<u8>)> {
    if s.len() >= 4 {
        Some((u32_of(s), s.skip(4)))
    } else {
        None
    }
}

/// Splits a 64-bit integer off the front of `s`.
pub open spec fn parse_u64(s: Seq<u8>) -> Option<(u64, Seq<u8>)> {
    if s.len() >= 8 {
        Some((u64_of(s), s.skip(8)))
    } else {
        None
    }
}

/// Splits a framed byte string off the front of `s`: its content, and what follows it.
pub open spec fn parse_frame(s: Seq<u8>) -> Option<(Seq<u8>, Seq<u8>)> {
    if s.len() >= 4 && s.len() - 4 >= u32_of(s) {
        Some((s.subrange(4, 4 + u32_of(s)), s.skip(4 + u32_of(s))))
    } else {
        None
    }
}

/// The content of `s` where `s` is one frame and nothing else.
pub open spec fn sole_frame(s: Seq<u8>) -> Option<Seq<u8>> {
    match parse_frame(s) {
        Some((content, rest)) => if rest.len() == 0 {
            Some(content)
        } else {
            None
        },
        None => None,
    }
}

/// Four bytes tell apart the values of a `u32`, eight those of a `u64`.
pub proof fn lemma_span_values()
    ensures
        span(4) == 0x1_0000_0000,
        span(8) == 0x1_0000_0000_0000_0000,
{
    reveal_with_fuel(span, 9);
}

/// `width` bytes stand for a number below `span(width)`.
pub proof fn lemma_le_value_bound(s: Seq<u8>)
    ensures
        le_value(s) < span(s.len()),
    decreases s.len(),
{
    if s.len() > 0 {
        lemma_le_value_bound(s.drop_first());
    }
}

/// Decoding the bytes of a number that fits gives the number back.
pub proof fn lemma_le_round_trip(x: nat, width: nat)
    requires
        x < span(width),
    ensures
        le_bytes(x, width).len() == width,
        le_value(le_bytes(x, width)) == x,
    decreases width,
{
    if width > 0 {
        let tail = le_bytes(x / 256, (width - 1) as nat);
        lemma_le_round_trip(x / 256, (width - 1) as nat);
        assert(le_bytes(x, width).drop_first() =~= tail);
    }
}

/// Encoding the number that some bytes stand for gives the bytes back.
pub proof fn lemma_le_bytes_round_trip(s: Seq<u8>)
    ensures
        le_bytes(le_value(s), s.len()) == s,
    decreases s.len(),
{
    if s.len() > 0 {
        lemma_le_bytes_round_trip(s.drop_first());
        assert(le_bytes(le_value(s), s.len()) =~= s);
    } else {
        assert(le_bytes(le_value(s), s.len()) =~= s);
    }
}

/// Decoding the four bytes of an integer gives the integer back.
pub proof fn lemma_u32_round_trip(x: u32)
    ensures
        u32_le(x).len() == 4,
        u32_of(u32_le(x)) == x,
{
    lemma_span_values();
    lemma_le_round_trip(x as nat, 4);
    assert(u32_le(x).take(4) =~= u32_le(x));
}

/// Decoding the eight bytes of an integer gives the integer back.
pub proof fn lemma_u64_round_trip(x: u64)
    ensures
        u64_le(x).len() == 8,
        u64_of(u64_le(x)) == x,
{
    lemma_span_values();
    lemma_le_round_trip(x as nat, 8);
    assert(u64_le(x).take(8) =~= u64_le(x));
}

/// A frame in front of any bytes is split off again as it was put there.
pub proof fn lemma_frame_round_trip(content: Seq<u8>, rest: Seq<u8>)
    requires
        content.len() <= FRAME_MAX,
    ensures
        parse_frame(frame(content) + rest) == Some((content, rest)),
{
    let n = content.len() as u32;
    let s = frame(content) + rest;
    lemma_u32_round_trip(n);
    assert(s.take(4) =~= u32_le(n));
    assert(u32_le(n).take(4) =~= u32_le(n));
    assert(s.subrange(4, 4 + n) =~= content);
    assert(s.skip(4 + n) =~= rest);
}

/// What was split off as a frame is a frame: parsing reads no byte in two ways.
pub proof fn lemma_frame_canonical(s: Seq<u8>, content: Seq<u8>, rest: Seq<u8>)
    requires
        parse_frame(s) == Some((content, rest)),
    ensures
        s == frame(content) + rest,
        content.len() <= FRAME_MAX,
{
    lemma_span_values();
    lemma_le_value_bound(s.take(4));
    lemma_le_bytes_round_trip(s.take(4));
    assert(s =~= frame(content) + rest);
}

/// Appends the low `width` bytes of `x` to `out`.
fn put_le(out: &mut Vec<u8>, x: u64, width: usize)
    ensures
        final(out)@ == old(out)@ + le_bytes(x as nat, width as nat),
{
    let mut cur: u64 = x;
    let mut i: usize = 0;
    assert(out@ + le_bytes(cur as nat, (width - i) as nat) =~= old(out)@ + le_bytes(
        x as nat,
        width as nat,
    ));
    while i < width
        invariant
            i <= width,
            out@ + le_bytes(cur as nat, (width - i) as nat) == old(out)@ + le_bytes(
                x as nat,
                width as nat,
            ),
        decreases width - i,
    {
        let ghost before = out@;
        out.push((cur % 256) as u8);
        proof {
            let tail = le_bytes((cur / 256) as nat, (width - i - 1) as nat);
            assert(out@ + tail =~= before + le_bytes(cur as nat, (width - i) as nat));
        }
        cur = cur / 256;
        i = i + 1;
    }
    assert(out@ + Seq::<u8>::empty() =~= out@);
}

/// Appends the four bytes of `x` to `out`.
pub fn put_u32(out: &mut Vec<u8>, x: u32)
    ensures
        final(out)@ == old(out)@ + u32_le(x),
{
    put_le(out, x as u64, 4);
}

/// Appends the eight bytes of `x` to `out`.
pub fn put_u64(out: &mut Vec<u8>, x: u64)
    ensures
        final(out)@ == old(out)@ + u64_le(x),
{
    put_le(out, x, 8);
}

/// Appends every byte of `bytes` to `out`.
pub fn put_bytes(out: &mut Vec<u8>, bytes: &[u8])
    ensures
        final(out)@ == old(out)@ + bytes@,
{
    let mut i: usize = 0;
    while i < bytes.len()
        invariant
            i <= bytes.len(),
            out@ == old(out)@ + bytes@.take(i as int),
        decreases bytes.len() - i,
    {
        out.push(bytes[i]);
        i = i + 1;
        assert(out@ =~= old(out)@ + bytes@.take(i as int));
    }
    assert(bytes@.take(i as int) =~= bytes@);
}

/// Appends `content` behind its length to `out`, unless it is too long for a
/// frame: then `out` stays as it was and the result is `false`.
pub fn put_frame(out: &mut Vec<u8>, content: &[u8]) -> (fits: bool)
    ensures
        fits == (content@.len() <= FRAME_MAX),
        fits ==> final(out)@ == old(out)@ + frame(content@),
        !fits ==> final(out)@ == old(out)@,
{
    if content.len() > FRAME_MAX {
        return false;
    }
    put_u32(out, content.len() as u32);
    put_bytes(out, content);
    assert(out@ =~= old(out)@ + frame(content@));
    true
}

/// A copy of the bytes of `bytes` from `from` up to `to`.
pub fn copy_range(bytes: &[u8], from: usize, to: usize) -> (out: Vec<u8>)
    requires
        from <= to <= bytes@.len(),
    ensures
        out@ == bytes@.subrange(from as int, to as int),
{
    let mut out: Vec<u8> = Vec::new();
    let mut i: usize = from;
    while i < to
        invariant
            from <= i <= to <= bytes@.len(),
            out@ == bytes@.subrange(from as int, i as int),
        decreases to - i,
    {
        out.push(bytes[i]);
        i = i + 1;
        assert(out@ =~= bytes@.subrange(from as int, i as int));
    }
    out
}

/// The bytes of an array, as a byte string of its own.
pub fn array_bytes<const N: usize>(bytes: &[u8; N]) -> (out: Vec<u8>)
    ensures
        out@ == bytes@,
{
    let mut out: Vec<u8> = Vec::new();
    let mut i: usize = 0;
    while i < N
        invariant
            i <= N,
            out@ == bytes@.take(i as int),
        decreases N - i,
    {
        out.push(bytes[i]);
        i = i + 1;
        assert(out@ =~= bytes@.take(i as int));
    }
    assert(bytes@.take(N as int) =~= bytes@);
    out
}

/// An equal byte string of its own.
pub fn copy_bytes(bytes: &Vec<u8>) -> (out: Vec<u8>)
    ensures
        out@ == bytes@,
{
    let out: Vec<u8> = copy_range(bytes.as_slice(), 0, bytes.len());
    assert(out@ =~= bytes@);
    out
}

/// Whether two byte strings are equal.
pub fn same_bytes(a: &[u8], b: &[u8]) -> (out: bool)
    ensures
        out == (a@ == b@),
{
    if a.len() != b.len() {
        return false;
    }
    let mut i: usize = 0;
    while i < a.len()
        invariant
            i <= a@.len() == b@.len(),
            forall|j: int| 0 <= j < i ==> a@[j] == b@[j],
        decreases a@.len() - i,
    {
        if a[i] != b[i] {
            return false;
        }
        i = i + 1;
    }
    assert(a@ =~= b@);
    true
}

/// The number that the `width` bytes of `bytes` from `at` on stand for.
fn read_le(bytes: &[u8], at: usize, width: usize) -> (v: u64)
    requires
        width <= 8,
        at + width <= bytes@.len(),
    ensures
        v == le_value(bytes@.subrange(at as int, at + width)),
{
    let mut v: u64 = 0;
    let mut i: usize = width;
    let len: usize = bytes.len();
    proof {
        lemma_span_values();
    }
    while i > 0
        invariant
            i <= width <= 8,
            at + width <= bytes@.len() == len,
            v == le_value(bytes@.subrange(at + i, at + width)),
            span(8) == 0x1_0000_0000_0000_0000,
        decreases i,
    {
        let ghost tail = bytes@.subrange(at + i, at + width);
        let ghost whole = bytes@.subrange(at + i - 1, at + width);
        proof {
            lemma_le_value_bound(tail);
            lemma_span_grows(tail.len(), 7);
            assert(whole.drop_first() =~= tail);
        }
        i = i - 1;
        v = v * 256 + bytes[at + i] as u64;
    }
    v
}

/// More bytes tell apart more values.
proof fn lemma_span_grows(a: nat, b: nat)
    requires
        a <= b,
    ensures
        span(a) <= span(b),
    decreases b,
{
    if a < b {
        lemma_span_grows(a, (b - 1) as nat);
    }
}

/// A position in a byte string from which values are read one after another.
pub struct Reader<'a> {
    bytes: &'a [u8],
    at: usize,
}

impl<'a> Reader<'a> {
    /// The position never leaves the bytes.
    #[verifier::type_invariant]
    spec fn in_bounds(self) -> bool {
        self.at <= self.bytes@.len()
    }

    /// The bytes that have not been read yet.
    pub closed spec fn rest(self) -> Seq<u8> {
        self.bytes@.skip(self.at as int)
    }

    /// A reader at the start of `bytes`.
    pub fn new(bytes: &'a [u8]) -> (r: Self)
        ensures
            r.rest() == bytes@,
    {
        assert(bytes@.skip(0) =~= bytes@);
        Reader { bytes, at: 0 }
    }

    /// Whether every byte has been read.
    pub fn is_done(&self) -> (done: bool)
        ensures
            done == (self.rest().len() == 0),
    {
        proof {
            use_type_invariant(self);
        }
        self.at == self.bytes.len()
    }

    /// Reads one byte. Where none is left the reader stays where it is.
    pub fn u8(&mut self) -> (out: Option<u8>)
        ensures
            match parse_u8(old(self).rest()) {
                Some((v, rest)) => out == Some(v) && final(self).rest() == rest,
                None => out is None && final(self).rest() == old(self).rest(),
            },
    {
        proof {
            use_type_invariant(&*self);
        }
        if self.bytes.len() - self.at < 1 {
            return None;
        }
        let v: u8 = self.bytes[self.at];
        let next: usize = self.at + 1;
        assert(self.bytes@.skip(next as int) =~= self.rest().skip(1));
        self.at = next;
        Some(v)
    }

    /// Reads a 32-bit integer. Where fewer than four bytes are left the reader
    /// stays where it is.
    pub fn u32(&mut self) -> (out: Option<u32>)
        ensures
            match parse_u32(old(self).rest()) {
                Some((v, rest)) => out == Some(v) && final(self).rest() == rest,
                None => out is None && final(self).rest() == old(self).rest(),
            },
    {
        proof {
            use_type_invariant(&*self);
        }
        if self.bytes.len() - self.at < 4 {
            return None;
        }
        let at: usize = self.at;
        let wide: u64 = read_le(self.bytes, at, 4);
        proof {
            lemma_span_values();
            lemma_le_value_bound(self.bytes@.subrange(at as int, at + 4));
            assert(self.rest().take(4) =~= self.bytes@.subrange(at as int, at + 4));
            assert(self.bytes@.skip(at + 4) =~= self.rest().skip(4));
        }
        self.at = at + 4;
        Some(wide as u32)
    }

    /// Reads a 64-bit integer. Where fewer than eight bytes are left the reader
    /// stays where it is.
    pub fn u64(&mut self) -> (out: Option<u64>)
        ensures
            match parse_u64(old(self).rest()) {
                Some((v, rest)) => out == Some(v) && final(self).rest() == rest,
                None => out is None && final(self).rest() == old(self).rest(),
            },
    {
        proof {
            use_type_invariant(&*self);
        }
        if self.bytes.len() - self.at < 8 {
            return None;
        }
        let at: usize = self.at;
        let v: u64 = read_le(self.bytes, at, 8);
        proof {
            assert(self.rest().take(8) =~= self.bytes@.subrange(at as int, at + 8));
            assert(self.bytes@.skip(at + 8) =~= self.rest().skip(8));
        }
        self.at = at + 8;
        Some(v)
    }

    /// Reads a framed byte string. Where the length or the content is cut short
    /// the reader stays where it is.
    pub fn frame(&mut self) -> (out: Option<Vec<u8>>)
        ensures
            match parse_frame(old(self).rest()) {
                Some((content, rest)) => out is Some && out->0@ == content && final(self).rest()
                    == rest,
                None => out is None && final(self).rest() == old(self).rest(),
            },
    {
        proof {
            use_type_invariant(&*self);
        }
        if self.bytes.len() - self.at < 4 {
            return None;
        }
        let at: usize = self.at;
        let wide: u64 = read_le(self.bytes, at, 4);
        proof {
            lemma_span_values();
            lemma_le_value_bound(self.bytes@.subrange(at as int, at + 4));
            assert(self.rest().take(4) =~= self.bytes@.subrange(at as int, at + 4));
        }
        let from: usize = at + 4;
        if ((self.bytes.len() - from) as u64) < wide {
            return None;
        }
        let to: usize = from + wide as usize;
        let content: Vec<u8> = copy_range(self.bytes, from, to);
        assert(content@ =~= self.rest().subrange(4, 4 + wide));
        assert(self.bytes@.skip(to as int) =~= self.rest().skip(4 + wide));
        self.at = to;
        Some(content)
    }
}

/// The content of `bytes` where `bytes` are one frame and nothing else.
pub fn read_sole_frame(bytes: &[u8]) -> (out: Option<Vec<u8>>)
    ensures
        match sole_frame(bytes@) {
            Some(content) => out is Some && out->0@ == content,
            None => out is None,
        },
{
    let mut reader = Reader::new(bytes);
    match reader.frame() {
        Some(content) => if reader.is_done() {
            Some(content)
        } else {
            None
        },
        None => None,
    }
}

} // verus!
