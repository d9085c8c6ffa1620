//! Wire primitives: variable-length integers (varints), packed field tags,
//! little-endian fixed-width payloads, and length-delimited byte runs.
//!
//! All integers on the wire are unsigned. A varint stores a `u64` in
//! little-endian base-128 groups: every byte but the last has its high bit
//! set. A tag packs a field number and a wire type into the single varint
//! `field_number << 3 | wire_type`.

use vstd::prelude::*;

verus! {

broadcast use vstd::seq::group_seq_axioms;

/// Why a decode (or tag packing) attempt failed.
#[derive(Clone, Copy, Debug, PartialEq, Eq, Structural)]
pub enum DecodeError {
    /// The stream ended before a complete field could be read.
    Truncated,
    /// A varint would not fit in 64 bits.
    Malformed,
    /// A field number was zero or above the 29-bit limit.
    InvalidFieldNumber,
    /// A group-encoded or reserved wire type was encountered.
    UnsupportedWireType,
    /// A text field held bytes that are not valid UTF-8.
    InvalidUtf8,
}

/// Largest admissible field number: field numbers occupy 29 bits.
pub const MAX_FIELD_NUMBER: u32 = 0x1FFF_FFFF;

/// The shape of a field's payload on the wire.
#[derive(Clone, Copy, Debug, PartialEq, Eq, Structural)]
pub enum WireType {
    /// Wire type 0: a bare varint value.
    Varint,
    /// Wire type 1: eight little-endian bytes.
    Fixed64,
    /// Wire type 2: a varint length followed by that many bytes.
    LengthDelimited,
    /// Wire type 5: four little-endian bytes.
    Fixed32,
}

/// The numeric code a wire type carries in the low three bits of a tag.
pub open spec fn wire_type_code(wt: WireType) -> u64 {
    match wt {
        WireType::Varint => 0,
        WireType::Fixed64 => 1,
        WireType::LengthDelimited => 2,
        WireType::Fixed32 => 5,
    }
}

/// The tag packing a field number with a wire-type code.
pub open spec fn spec_tag(field_number: u32, code: u64) -> u64 {
    ((field_number as int) * 8 + code) as u64
}

/// Packs a field number and wire type into a tag, rejecting field numbers
/// outside 1..=MAX_FIELD_NUMBER.
pub fn pack_tag(field_number: u32, wire_type: WireType) -> (r: Result<u64, DecodeError>)
    ensures
        1 <= field_number <= MAX_FIELD_NUMBER ==> r == Ok::<u64, DecodeError>(
            spec_tag(field_number, wire_type_code(wire_type)),
        ),
        !(1 <= field_number <= MAX_FIELD_NUMBER) ==> r == Err::<u64, DecodeError>(
            DecodeError::InvalidFieldNumber,
        ),
{
    if field_number < 1 || field_number > MAX_FIELD_NUMBER {
        return Err(DecodeError::InvalidFieldNumber);
    }
    let code: u64 = match wire_type {
        WireType::Varint => 0,
        WireType::Fixed64 => 1,
        WireType::LengthDelimited => 2,
        WireType::Fixed32 => 5,
    };
    Ok((field_number as u64) * 8 + code)
}

// ---------------------------------------------------------------------------
// Varints
// ---------------------------------------------------------------------------

/// The canonical little-endian base-128 encoding of `n`.
pub open spec fn varint(n: u64) -> Seq<u8>
    decreases n,
{
    if n < 0x80 {
        seq![n as u8]
    } else {
        seq![((n % 0x80) + 0x80) as u8] + varint(n / 0x80)
    }
}

/// Shape of a canonical varint: one to ten bytes, every byte but the last
/// carrying the continuation bit.
pub proof fn lemma_varint_shape(n: u64)
    ensures
        1 <= varint(n).len() <= 10,
        forall|i: int| 0 <= i < varint(n).len() - 1 ==> varint(n)[i] >= 0x80,
        varint(n)[varint(n).len() - 1] < 0x80,
        n < 0x80 ==> varint(n).len() == 1,
        n >= 0x80 ==> varint(n) == seq![((n % 0x80) + 0x80) as u8] + varint(n / 0x80),
    decreases n,
{
    if n >= 0x80 {
        lemma_varint_shape(n / 0x80);
        lemma_varint_bound_ten();
        lemma_varint_len_bound(n, 10);
    }
}

/// The largest value whose varint fits in `m` bytes under the decoding rule
/// that a tenth byte may hold no more than one data bit.
pub open spec fn varint_bound(m: int) -> int
    decreases m,
{
    if m <= 1 {
        1
    } else {
        0x7f + 0x80 * varint_bound(m - 1)
    }
}

proof fn lemma_varint_bound_pos(m: int)
    ensures
        varint_bound(m) >= 1,
    decreases m,
{
    if m > 1 {
        lemma_varint_bound_pos(m - 1);
    }
}

proof fn lemma_varint_bound_mono(a: int, b: int)
    requires
        a <= b,
    ensures
        varint_bound(a) <= varint_bound(b),
    decreases b,
{
    if a < b && b > 1 {
        lemma_varint_bound_mono(a, b - 1);
        lemma_varint_bound_pos(b - 1);
    }
}

/// Ten bytes cover the whole of `u64`.
pub proof fn lemma_varint_bound_ten()
    ensures
        varint_bound(10) == u64::MAX as int,
{
    reveal_with_fuel(varint_bound, 11);
}

/// A value below the bound for `m` bytes has a canonical varint of at most
/// `m` bytes.
pub proof fn lemma_varint_len_bound(n: u64, m: int)
    requires
        m >= 1,
        n as int <= varint_bound(m),
    ensures
        varint(n).len() <= m,
    decreases m,
{
    if n >= 0x80 {
        assert(varint_bound(m) == 0x7f + 0x80 * varint_bound(m - 1));
        lemma_varint_bound_pos(m - 1);
        lemma_varint_len_bound(n / 0x80, m - 1);
    }
}

/// Appends the canonical varint of `n` to `out`.
pub fn write_varint(out: &mut Vec<u8>, n: u64)
    ensures
        final(out)@ == old(out)@ + varint(n),
{
    let mut x: u64 = n;
    while x >= 0x80
        invariant
            out@ + varint(x) == old(out)@ + varint(n),
        decreases x,
    {
        assert(varint(x) == seq![((x % 0x80) + 0x80) as u8] + varint(x / 0x80));
        out.push((x % 0x80 + 0x80) as u8);
        x = x / 0x80;
        assert(out@ + varint(x) == old(out)@ + varint(n));
    }
    out.push(x as u8);
    assert(final(out)@ == old(out)@ + varint(n));
}

/// Number of bytes in the canonical varint of `n`.
pub fn varint_size(n: u64) -> (r: usize)
    ensures
        r == varint(n).len(),
        1 <= r <= 10,
{
    proof {
        lemma_varint_shape(n);
    }
    let mut x: u64 = n;
    let mut size: usize = 1;
    while x >= 0x80
        invariant
            1 <= size <= 10,
            size + varint(x).len() == varint(n).len() + 1,
            varint(n).len() <= 10,
        decreases x,
    {
        assert(varint(x) == seq![((x % 0x80) + 0x80) as u8] + varint(x / 0x80));
        x = x / 0x80;
        proof {
            lemma_varint_shape(x);
        }
        size = size + 1;
    }
    size
}

/// Decoding a varint from `s` at `pos` with an allowance of `max` further
/// groups: the stream ending first is `Truncated`; running past the
/// allowance, or a tenth byte holding more than one data bit, is
/// `Malformed`.
pub open spec fn spec_take_varint(s: Seq<u8>, pos: int, max: int) -> Result<
    (u64, int),
    DecodeError,
>
    decreases max,
{
    if max <= 0 {
        Err(DecodeError::Malformed)
    } else if !(0 <= pos < s.len()) {
        Err(DecodeError::Truncated)
    } else if s[pos] < 0x80 {
        if max == 1 && s[pos] > 1 {
            Err(DecodeError::Malformed)
        } else {
            Ok((s[pos] as u64, pos + 1))
        }
    } else {
        match spec_take_varint(s, pos + 1, max - 1) {
            Ok((v, end)) => Ok(((((s[pos] - 0x80) as int) + 0x80 * (v as int)) as u64, end)),
            Err(e) => Err(e),
        }
    }
}

/// Decoding a varint from `s` at `pos`: at most ten groups may be consumed.
pub open spec fn spec_read_varint(s: Seq<u8>, pos: int) -> Result<(u64, int), DecodeError> {
    spec_take_varint(s, pos, 10)
}

// ---------------------------------------------------------------------------
// Helpers for reasoning about windows of a byte stream
// ---------------------------------------------------------------------------

/// Splitting a concatenation at the seam recovers both parts.
pub proof fn lemma_concat_parts(a: Seq<u8>, b: Seq<u8>)
    ensures
        (a + b).subrange(0, a.len() as int) == a,
        (a + b).subrange(a.len() as int, (a + b).len() as int) == b,
{
    let c = a + b;
    let p = c.subrange(0, a.len() as int);
    assert forall|i: int| 0 <= i < a.len() implies p[i] == a[i] by {
        assert(p[i] == c[0 + i]);
        assert(c[i] == a[i]);
    }
    assert(p =~= a);
    let q = c.subrange(a.len() as int, c.len() as int);
    assert forall|i: int| 0 <= i < b.len() implies q[i] == b[i] by {
        assert(q[i] == c[a.len() + i]);
        assert(c[a.len() + i] == b[i]);
    }
    assert(q =~= b);
}

/// A prefix of a concatenation that covers all of the first part is the
/// first part followed by a prefix of the second.
pub proof fn lemma_concat_take(a: Seq<u8>, b: Seq<u8>, k: int)
    requires
        a.len() <= k <= (a + b).len(),
    ensures
        (a + b).take(k) == a + b.take(k - a.len()),
{
    let c = a + b;
    let t = c.take(k);
    let u = a + b.take(k - a.len());
    assert(b.take(k - a.len()).len() == k - a.len());
    assert forall|i: int| 0 <= i < k implies t[i] == u[i] by {
        assert(t[i] == c[i]);
        if i < a.len() {
            assert(c[i] == a[i]);
            assert(u[i] == a[i]);
        } else {
            assert(c[i] == b[i - a.len()]);
            assert(u[i] == b.take(k - a.len())[i - a.len()]);
            assert(b.take(k - a.len())[i - a.len()] == b[i - a.len()]);
        }
    }
    assert(t =~= u);
}

/// A prefix of a concatenation that ends within the first part is a prefix
/// of the first part.
pub proof fn lemma_concat_take_short(a: Seq<u8>, b: Seq<u8>, k: int)
    requires
        0 <= k <= a.len(),
    ensures
        (a + b).take(k) == a.take(k),
{
    let c = a + b;
    assert forall|i: int| 0 <= i < k implies c.take(k)[i] == a.take(k)[i] by {
        assert(c.take(k)[i] == c[i]);
        assert(c[i] == a[i]);
        assert(a.take(k)[i] == a[i]);
    }
    assert(c.take(k) =~= a.take(k));
}

/// A window of `s` that holds `a + b` holds `a` first and `b` after it.
pub proof fn lemma_window_split(s: Seq<u8>, pos: int, a: Seq<u8>, b: Seq<u8>)
    requires
        0 <= pos,
        pos + a.len() + b.len() <= s.len(),
        s.subrange(pos, pos + a.len() + b.len()) == a + b,
    ensures
        s.subrange(pos, pos + a.len()) == a,
        s.subrange(pos + a.len(), pos + a.len() + b.len()) == b,
{
    let c = a + b;
    let w = s.subrange(pos, pos + c.len());
    lemma_concat_parts(a, b);
    let p = s.subrange(pos, pos + a.len());
    assert forall|i: int| 0 <= i < a.len() implies p[i] == a[i] by {
        assert(p[i] == s[pos + i]);
        assert(w[i] == s[pos + i]);
        assert(w[i] == c[i]);
        assert(c[i] == a[i]);
    }
    assert(p =~= a);
    let q = s.subrange(pos + a.len(), pos + a.len() + b.len());
    assert forall|i: int| 0 <= i < b.len() implies q[i] == b[i] by {
        assert(q[i] == s[pos + a.len() + i]);
        assert(w[a.len() + i] == s[pos + (a.len() + i)]);
        assert(w[a.len() + i] == c[a.len() + i]);
        assert(c[a.len() + i] == b[i]);
    }
    assert(q =~= b);
}

/// The first byte of a window of `s` that holds `t`.
pub proof fn lemma_window_first(s: Seq<u8>, pos: int, t: Seq<u8>)
    requires
        0 <= pos,
        pos + t.len() <= s.len(),
        s.subrange(pos, pos + t.len()) == t,
        t.len() >= 1,
    ensures
        s[pos] == t[0],
{
    assert(s.subrange(pos, pos + t.len())[0] == s[pos + 0]);
    assert(s[pos + 0] == s[pos]);
}

/// A decoded varint value stays within the bound for its allowance, so the
/// recomposition never overflows 64 bits.
pub proof fn lemma_take_varint_bound(s: Seq<u8>, pos: int, max: int)
    requires
        max <= 10,
    ensures
        spec_take_varint(s, pos, max) matches Ok(r) ==> r.0 as int <= varint_bound(max),
    decreases max,
{
    if max > 0 && 0 <= pos < s.len() && s[pos] < 0x80 {
        if max >= 2 {
            lemma_varint_bound_pos(max - 1);
            assert(varint_bound(max) == 0x7f + 0x80 * varint_bound(max - 1));
        }
    }
    if max > 0 && 0 <= pos < s.len() && s[pos] >= 0x80 {
        lemma_take_varint_bound(s, pos + 1, max - 1);
        match spec_take_varint(s, pos + 1, max - 1) {
            Ok((v, end)) => {
                lemma_varint_bound_mono(max, 10);
                lemma_varint_bound_ten();
                let full: int = ((s[pos] - 0x80) as int) + 0x80 * (v as int);
                assert(varint_bound(max) == 0x7f + 0x80 * varint_bound(max - 1));
                assert(full <= varint_bound(max));
                assert(0 <= full <= u64::MAX as int);
                assert((full as u64) as int == full);
            },
            Err(_) => {},
        }
    }
}

/// A successful varint decode consumes between one and `max` bytes.
pub proof fn lemma_take_varint_range(s: Seq<u8>, pos: int, max: int)
    ensures
        spec_take_varint(s, pos, max) matches Ok(r) ==> pos < r.1 <= s.len() && r.1 <= pos + max,
    decreases max,
{
    if max > 0 && 0 <= pos < s.len() && s[pos] >= 0x80 {
        lemma_take_varint_range(s, pos + 1, max - 1);
    }
}

/// Reading where the buffer holds the canonical varint of `n` yields exactly
/// `n` and consumes exactly that varint.
pub proof fn lemma_take_varint_of_encoding(s: Seq<u8>, pos: int, n: u64, max: int)
    requires
        0 <= pos,
        1 <= max <= 10,
        n as int <= varint_bound(max),
        pos + varint(n).len() <= s.len(),
        s.subrange(pos, pos + varint(n).len()) == varint(n),
    ensures
        spec_take_varint(s, pos, max) == Ok::<(u64, int), DecodeError>(
            (n, pos + varint(n).len()),
        ),
    decreases n,
{
    lemma_varint_shape(n);
    let len = varint(n).len() as int;
    lemma_window_first(s, pos, varint(n));
    if n < 0x80 {
        assert(varint(n) == seq![n as u8]);
        assert(varint(n)[0] == n as u8);
        assert(s[pos] == n as u8);
        if max == 1 {
            assert(n <= 1);
        }
    } else {
        let hd = ((n % 0x80) + 0x80) as u8;
        let rest = n / 0x80;
        assert(varint(n) == seq![hd] + varint(rest));
        assert((seq![hd] + varint(rest))[0] == seq![hd][0]);
        assert(seq![hd][0] == hd);
        assert(s[pos] == hd);
        assert(s[pos] >= 0x80);
        assert(max >= 2) by {
            if max == 1 {
                lemma_varint_bound_pos(1);
            }
        }
        assert(rest as int <= varint_bound(max - 1)) by {
            assert(varint_bound(max) == 0x7f + 0x80 * varint_bound(max - 1));
        }
        assert(seq![hd].len() == 1);
        lemma_window_split(s, pos, seq![hd], varint(rest));
        lemma_take_varint_of_encoding(s, pos + 1, rest, max - 1);
        assert(((s[pos] - 0x80) as int) + 0x80 * (rest as int) == n as int);
    }
}

/// A strict prefix of a canonical varint, at the end of the stream, makes
/// the decode fail with `Truncated`.
pub proof fn lemma_take_varint_truncated(s: Seq<u8>, pos: int, n: u64, k: int, max: int)
    requires
        0 <= pos,
        0 <= k < varint(n).len(),
        k < max <= 10,
        s.len() == pos + k,
        s.subrange(pos, pos + k) == varint(n).take(k),
    ensures
        spec_take_varint(s, pos, max) == Err::<(u64, int), DecodeError>(DecodeError::Truncated),
    decreases k,
{
    lemma_varint_shape(n);
    if k > 0 {
        assert(varint(n).len() >= 2);
        assert(n >= 0x80);
        let hd = ((n % 0x80) + 0x80) as u8;
        let rest = n / 0x80;
        assert(varint(n) == seq![hd] + varint(rest));
        assert(seq![hd].len() == 1);
        lemma_concat_take(seq![hd], varint(rest), k);
        assert(varint(rest).take(k - 1).len() == k - 1);
        lemma_window_split(s, pos, seq![hd], varint(rest).take(k - 1));
        lemma_window_first(s, pos, seq![hd]);
        assert(seq![hd][0] == hd);
        assert(s[pos] >= 0x80);
        lemma_take_varint_truncated(s, pos + 1, rest, k - 1, max - 1);
    }
}

/// Reads a varint from `buf` at `pos` with `max` groups still allowed.
fn read_varint_rec(buf: &[u8], pos: usize, max: usize) -> (r: Result<(u64, usize), DecodeError>)
    requires
        pos <= buf@.len(),
        max <= 10,
    ensures
        r matches Ok(v) ==> spec_take_varint(buf@, pos as int, max as int) == Ok::<
            (u64, int),
            DecodeError,
        >((v.0, v.1 as int)) && pos < v.1 <= buf@.len(),
        r matches Err(e) ==> spec_take_varint(buf@, pos as int, max as int) == Err::<
            (u64, int),
            DecodeError,
        >(e),
    decreases max,
{
    if max == 0 {
        return Err(DecodeError::Malformed);
    }
    if pos == buf.len() {
        return Err(DecodeError::Truncated);
    }
    let b: u8 = buf[pos];
    if b < 0x80 {
        if max == 1 && b > 1 {
            Err(DecodeError::Malformed)
        } else {
            Ok((b as u64, pos + 1))
        }
    } else {
        match read_varint_rec(buf, pos + 1, max - 1) {
            Ok((v, end)) => {
                proof {
                    lemma_take_varint_bound(buf@, pos as int + 1, max as int - 1);
                    lemma_varint_bound_mono(max as int - 1, 9);
                    lemma_varint_bound_mono(max as int, 10);
                    lemma_varint_bound_ten();
                    assert(varint_bound(max as int) == 0x7f + 0x80 * varint_bound(max as int - 1));
                }
                Ok((((b - 0x80) as u64) + 0x80 * v, end))
            },
            Err(e) => Err(e),
        }
    }
}

/// Reads one varint from `buf` at `pos`.
pub fn read_varint(buf: &[u8], pos: usize) -> (r: Result<(u64, usize), DecodeError>)
    requires
        pos <= buf@.len(),
    ensures
        r matches Ok(v) ==> spec_read_varint(buf@, pos as int) == Ok::<(u64, int), DecodeError>(
            (v.0, v.1 as int),
        ) && pos < v.1 <= buf@.len(),
        r matches Err(e) ==> spec_read_varint(buf@, pos as int) == Err::<(u64, int), DecodeError>(
            e,
        ),
{
    read_varint_rec(buf, pos, 10)
}

// ---------------------------------------------------------------------------
// Fixed-width little-endian payloads
// ---------------------------------------------------------------------------

/// The eight little-endian bytes of `n`.
pub open spec fn le_bytes_64(n: u64) -> Seq<u8> {
    seq![
        n as u8,
        (n >> 8) as u8,
        (n >> 16) as u8,
        (n >> 24) as u8,
        (n >> 32) as u8,
        (n >> 40) as u8,
        (n >> 48) as u8,
        (n >> 56) as u8,
    ]
}

/// The four little-endian bytes of `n`.
pub open spec fn le_bytes_32(n: u32) -> Seq<u8> {
    seq![n as u8, (n >> 8) as u8, (n >> 16) as u8, (n >> 24) as u8]
}

/// The value of the eight little-endian bytes of `s` starting at `pos`.
pub open spec fn le_value_64(s: Seq<u8>, pos: int) -> u64 {
    (s[pos] as u64) | ((s[pos + 1] as u64) << 8) | ((s[pos + 2] as u64) << 16) | ((s[pos + 3]
        as u64) << 24) | ((s[pos + 4] as u64) << 32) | ((s[pos + 5] as u64) << 40) | ((s[pos + 6]
        as u64) << 48) | ((s[pos + 7] as u64) << 56)
}

/// The value of the four little-endian bytes of `s` starting at `pos`.
pub open spec fn le_value_32(s: Seq<u8>, pos: int) -> u32 {
    (s[pos] as u32) | ((s[pos + 1] as u32) << 8) | ((s[pos + 2] as u32) << 16) | ((s[pos + 3]
        as u32) << 24)
}

/// Reading back the little-endian bytes of a 64-bit value restores it.
pub proof fn lemma_le_64_round_trip(s: Seq<u8>, pos: int, n: u64)
    requires
        0 <= pos,
        pos + 8 <= s.len(),
        s.subrange(pos, pos + 8) == le_bytes_64(n),
    ensures
        le_value_64(s, pos) == n,
{
    let b0 = s[pos];
    let b1 = s[pos + 1];
    let b2 = s[pos + 2];
    let b3 = s[pos + 3];
    let b4 = s[pos + 4];
    let b5 = s[pos + 5];
    let b6 = s[pos + 6];
    let b7 = s[pos + 7];
    assert(b0 == n as u8 && b1 == (n >> 8) as u8 && b2 == (n >> 16) as u8 && b3 == (n >> 24) as u8
        && b4 == (n >> 32) as u8 && b5 == (n >> 40) as u8 && b6 == (n >> 48) as u8 && b7 == (n
        >> 56) as u8) by {
        assert(s.subrange(pos, pos + 8)[0] == le_bytes_64(n)[0]);
        assert(s.subrange(pos, pos + 8)[1] == le_bytes_64(n)[1]);
        assert(s.subrange(pos, pos + 8)[2] == le_bytes_64(n)[2]);
        assert(s.subrange(pos, pos + 8)[3] == le_bytes_64(n)[3]);
        assert(s.subrange(pos, pos + 8)[4] == le_bytes_64(n)[4]);
        assert(s.subrange(pos, pos + 8)[5] == le_bytes_64(n)[5]);
        assert(s.subrange(pos, pos + 8)[6] == le_bytes_64(n)[6]);
        assert(s.subrange(pos, pos + 8)[7] == le_bytes_64(n)[7]);
    }
    assert((b0 as u64) | ((b1 as u64) << 8) | ((b2 as u64) << 16) | ((b3 as u64) << 24) | ((b4
        as u64) << 32) | ((b5 as u64) << 40) | ((b6 as u64) << 48) | ((b7 as u64) << 56) == n)
        by (bit_vector)
        requires
            b0 == n as u8,
            b1 == (n >> 8) as u8,
            b2 == (n >> 16) as u8,
            b3 == (n >> 24) as u8,
            b4 == (n >> 32) as u8,
            b5 == (n >> 40) as u8,
            b6 == (n >> 48) as u8,
            b7 == (n >> 56) as u8,
    ;
}

/// Reading back the little-endian bytes of a 32-bit value restores it.
pub proof fn lemma_le_32_round_trip(s: Seq<u8>, pos: int, n: u32)
    requires
        0 <= pos,
        pos + 4 <= s.len(),
        s.subrange(pos, pos + 4) == le_bytes_32(n),
    ensures
        le_value_32(s, pos) == n,
{
    let b0 = s[pos];
    let b1 = s[pos + 1];
    let b2 = s[pos + 2];
    let b3 = s[pos + 3];
    assert(b0 == n as u8 && b1 == (n >> 8) as u8 && b2 == (n >> 16) as u8 && b3 == (n >> 24)
        as u8) by {
        assert(s.subrange(pos, pos + 4)[0] == le_bytes_32(n)[0]);
        assert(s.subrange(pos, pos + 4)[1] == le_bytes_32(n)[1]);
        assert(s.subrange(pos, pos + 4)[2] == le_bytes_32(n)[2]);
        assert(s.subrange(pos, pos + 4)[3] == le_bytes_32(n)[3]);
    }
    assert((b0 as u32) | ((b1 as u32) << 8) | ((b2 as u32) << 16) | ((b3 as u32) << 24) == n)
        by (bit_vector)
        requires
            b0 == n as u8,
            b1 == (n >> 8) as u8,
            b2 == (n >> 16) as u8,
            b3 == (n >> 24) as u8,
    ;
}

/// Appends the eight little-endian bytes of `n` to `out`.
pub fn write_fixed_64(out: &mut Vec<u8>, n: u64)
    ensures
        final(out)@ == old(out)@ + le_bytes_64(n),
{
    out.push(n as u8);
    out.push((n >> 8) as u8);
    out.push((n >> 16) as u8);
    out.push((n >> 24) as u8);
    out.push((n >> 32) as u8);
    out.push((n >> 40) as u8);
    out.push((n >> 48) as u8);
    out.push((n >> 56) as u8);
    assert(final(out)@ == old(out)@ + le_bytes_64(n));
}

/// Appends the four little-endian bytes of `n` to `out`.
pub fn write_fixed_32(out: &mut Vec<u8>, n: u32)
    ensures
        final(out)@ == old(out)@ + le_bytes_32(n),
{
    out.push(n as u8);
    out.push((n >> 8) as u8);
    out.push((n >> 16) as u8);
    out.push((n >> 24) as u8);
    assert(final(out)@ == old(out)@ + le_bytes_32(n));
}

/// Reads eight little-endian bytes from `buf` at `pos`.
pub fn read_fixed_64(buf: &[u8], pos: usize) -> (r: u64)
    requires
        pos + 8 <= buf@.len(),
    ensures
        r == le_value_64(buf@, pos as int),
{
    (buf[pos] as u64) | ((buf[pos + 1] as u64) << 8) | ((buf[pos + 2] as u64) << 16) | ((buf[pos
        + 3] as u64) << 24) | ((buf[pos + 4] as u64) << 32) | ((buf[pos + 5] as u64) << 40) | ((
    buf[pos + 6] as u64) << 48) | ((buf[pos + 7] as u64) << 56)
}

/// Reads four little-endian bytes from `buf` at `pos`.
pub fn read_fixed_32(buf: &[u8], pos: usize) -> (r: u32)
    requires
        pos + 4 <= buf@.len(),
    ensures
        r == le_value_32(buf@, pos as int),
{
    (buf[pos] as u32) | ((buf[pos + 1] as u32) << 8) | ((buf[pos + 2] as u32) << 16) | ((buf[pos
        + 3] as u32) << 24)
}

// ---------------------------------------------------------------------------
// Length-delimited byte runs
// ---------------------------------------------------------------------------

/// Decoding a length-delimited run at `pos`: a varint length, then exactly
/// that many bytes; fewer remaining bytes than the length is `Truncated`.
pub open spec fn spec_read_len_delimited(s: Seq<u8>, pos: int) -> Result<
    (Seq<u8>, int),
    DecodeError,
> {
    match spec_read_varint(s, pos) {
        Ok((n, p)) => if p + n <= s.len() {
            Ok((s.subrange(p, p + n), p + n))
        } else {
            Err(DecodeError::Truncated)
        },
        Err(e) => Err(e),
    }
}

/// Copies `count` bytes out of `buf` starting at `pos`.
fn read_bytes(buf: &[u8], pos: usize, count: usize) -> (r: Vec<u8>)
    requires
        pos + count <= buf@.len(),
    ensures
        r@ == buf@.subrange(pos as int, pos as int + count as int),
{
    let blen: usize = buf.len();
    let mut out: Vec<u8> = Vec::with_capacity(count);
    let mut i: usize = 0;
    while i < count
        invariant
            pos + count <= buf@.len(),
            buf@.len() == blen,
            i <= count,
            out@ == buf@.subrange(pos as int, pos as int + i as int),
        decreases count - i,
    {
        out.push(buf[pos + i]);
        i = i + 1;
        assert(out@ =~= buf@.subrange(pos as int, pos as int + i as int));
    }
    out
}

/// Reads one length-delimited byte run from `buf` at `pos`.
pub fn read_len_delimited(buf: &[u8], pos: usize) -> (r: Result<(Vec<u8>, usize), DecodeError>)
    requires
        pos <= buf@.len(),
    ensures
        r matches Ok(v) ==> spec_read_len_delimited(buf@, pos as int) == Ok::<
            (Seq<u8>, int),
            DecodeError,
        >((v.0@, v.1 as int)) && pos < v.1 <= buf@.len(),
        r matches Err(e) ==> spec_read_len_delimited(buf@, pos as int) == Err::<
            (Seq<u8>, int),
            DecodeError,
        >(e),
{
    match read_varint(buf, pos) {
        Ok((n, p)) => {
            if n > (buf.len() - p) as u64 {
                Err(DecodeError::Truncated)
            } else {
                let count: usize = n as usize;
                let payload = read_bytes(buf, p, count);
                Ok((payload, p + count))
            }
        },
        Err(e) => Err(e),
    }
}

} // verus!
