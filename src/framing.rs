//! Reading records back: the frame at a position of a byte stream, and the
//! protobuf fields of a payload, split losslessly.

use vstd::prelude::*;

use crate::wire::RECORD_TAG;

verus! {

/// The longest length prefix a record may have.
pub const MAX_LENGTH_BYTES: usize = 19;

/// Why a stream is not a well-formed sequence of records.
#[derive(Debug, Clone, Copy, PartialEq, Eq, Structural)]
pub enum FrameError {
    /// A record starts with a byte other than the record tag.
    BadTag(u8),
    /// The length prefix has no final byte within its bound.
    UnterminatedLength,
    /// The stream ends inside the length prefix.
    TruncatedLength,
    /// The length does not fit in a machine word.
    LengthTooLarge,
    /// The length is zero.
    ZeroLength,
    /// The stream ends inside the payload.
    TruncatedPayload,
}

/// The value of a varint's bytes: seven bits from each, least significant first.
pub open spec fn varint_value(s: Seq<u8>) -> nat
    decreases s.len(),
{
    if s.len() == 0 {
        0
    } else {
        (s[0] % 128) as nat + 128 * varint_value(s.drop_first())
    }
}

/// The index of the first byte at or after `i` without the continuation bit,
/// or the length.
pub open spec fn varint_last(s: Seq<u8>, i: int) -> int
    decreases s.len() - i,
{
    if i >= s.len() || s[i] < 128 {
        i
    } else {
        varint_last(s, i + 1)
    }
}

/// The record at `p`: `Ok(None)` at the end of the stream, else the start
/// and end of its payload, or why it is malformed.
pub open spec fn frame_at(s: Seq<u8>, p: int) -> Result<Option<(int, int)>, FrameError> {
    let q = varint_last(s, p + 1);
    if p >= s.len() {
        Ok(None)
    } else if s[p] != RECORD_TAG {
        Err(FrameError::BadTag(s[p]))
    } else if q - (p + 1) >= MAX_LENGTH_BYTES {
        Err(FrameError::UnterminatedLength)
    } else if q >= s.len() {
        Err(FrameError::TruncatedLength)
    } else {
        let len = varint_value(s.subrange(p + 1, q + 1));
        if len > u64::MAX {
            Err(FrameError::LengthTooLarge)
        } else if len == 0 {
            Err(FrameError::ZeroLength)
        } else if q + 1 + len > s.len() {
            Err(FrameError::TruncatedPayload)
        } else {
            Ok(Some((q + 1, q + 1 + len)))
        }
    }
}

proof fn lemma_varint_last(s: Seq<u8>, i: int)
    requires
        0 <= i,
    ensures
        i <= varint_last(s, i),
        i <= s.len() ==> varint_last(s, i) <= s.len(),
        varint_last(s, i) < s.len() ==> s[varint_last(s, i)] < 128,
    decreases s.len() - i,
{
    if i < s.len() && s[i] >= 128 {
        lemma_varint_last(s, i + 1);
    }
}

pub proof fn lemma_varint_last_bounds(s: Seq<u8>, i: int)
    requires
        0 <= i,
    ensures
        i <= varint_last(s, i),
        i <= s.len() ==> varint_last(s, i) <= s.len(),
{
    lemma_varint_last(s, i);
}

proof fn lemma_varint_value_step(s: Seq<u8>, i: int, j: int)
    requires
        0 <= i < j <= s.len(),
    ensures
        varint_value(s.subrange(i, j)) == (s[i] % 128) as nat + 128 * varint_value(
            s.subrange(i + 1, j),
        ),
{
    assert(s.subrange(i, j).drop_first() =~= s.subrange(i + 1, j));
}

/// Reads the record at `pos`: `Ok(None)` at the end of the stream, else the
/// start and end of its payload.
pub fn read_frame(input: &[u8], pos: usize) -> (r: Result<Option<(usize, usize)>, FrameError>)
    ensures
        match (r, frame_at(input@, pos as int)) {
            (Ok(None), Ok(None)) => true,
            (Ok(Some((a, b))), Ok(Some((x, y)))) => a == x && b == y,
            (Err(e), Err(f)) => e == f,
            _ => false,
        },
{
    let n = input.len();
    if pos >= n {
        return Ok(None);
    }
    if input[pos] != RECORD_TAG {
        return Err(FrameError::BadTag(input[pos]));
    }
    let ghost s = input@;
    let mut q: usize = pos + 1;
    while q < n && input[q] >= 128 && q - (pos + 1) < MAX_LENGTH_BYTES
        invariant
            s == input@,
            n == s.len(),
            pos < n,
            pos + 1 <= q <= n,
            varint_last(s, pos + 1) == varint_last(s, q as int),
            q - (pos + 1) <= MAX_LENGTH_BYTES,
        decreases n - q,
    {
        q = q + 1;
    }
    proof {
        lemma_varint_last(s, q as int);
    }
    if q - (pos + 1) >= MAX_LENGTH_BYTES {
        return Err(FrameError::UnterminatedLength);
    }
    if q >= n {
        return Err(FrameError::TruncatedLength);
    }
    assert(varint_last(s, q as int) == q);
    let mut v: u64 = 0;
    let mut i: usize = q + 1;
    let ghost hi = q + 1;
    assert(s.subrange(i as int, hi) =~= Seq::<u8>::empty());
    while i > pos + 1
        invariant
            s == input@,
            n == s.len(),
            pos + 1 <= i <= hi,
            hi == q + 1,
            q < n,
            varint_last(s, pos + 1) == q,
            q - (pos + 1) < MAX_LENGTH_BYTES,
            pos < n,
            s[pos as int] == RECORD_TAG,
            v as nat == varint_value(s.subrange(i as int, hi)),
        decreases i,
    {
        let d = (input[i - 1] % 128) as u64;
        proof {
            lemma_varint_value_step(s, i - 1, hi);
        }
        if v > (u64::MAX - d) / 128 {
            assert((d as int) + 128 * (v as int) > u64::MAX) by (nonlinear_arith)
                requires
                    v > (u64::MAX - d) / 128,
                    d < 128,
            ;
            proof {
                lemma_varint_suffix_bound(s, pos + 1, i - 1, hi);
            }
            return Err(FrameError::LengthTooLarge);
        }
        v = v * 128 + d;
        i = i - 1;
    }
    if v == 0 {
        return Err(FrameError::ZeroLength);
    }
    if v > (n - (q + 1)) as u64 {
        return Err(FrameError::TruncatedPayload);
    }
    let len = v as usize;
    Ok(Some((q + 1, q + 1 + len)))
}

/// A longer suffix of a varint's bytes is worth at least as much.
proof fn lemma_varint_suffix_bound(s: Seq<u8>, lo: int, i: int, hi: int)
    requires
        0 <= lo <= i < hi <= s.len(),
    ensures
        varint_value(s.subrange(lo, hi)) >= varint_value(s.subrange(i, hi)),
    decreases i - lo,
{
    if lo < i {
        lemma_varint_suffix_bound(s, lo + 1, i, hi);
        lemma_varint_value_step(s, lo, hi);
    }
}

/// The varint at `p`, if it ends within `max` bytes and its value fits in 64
/// bits: its value and the index after it.
pub open spec fn varint_at(s: Seq<u8>, p: int, max: int) -> Option<(nat, int)> {
    let q = varint_last(s, p);
    if p < 0 || q >= s.len() || q - p >= max || varint_value(s.subrange(p, q + 1)) > u64::MAX {
        None
    } else {
        Some((varint_value(s.subrange(p, q + 1)), q + 1))
    }
}

/// Reads the varint at `p` of at most `max` bytes.
pub fn read_varint(s: &[u8], p: usize, max: usize) -> (r: Option<(u64, usize)>)
    ensures
        match r {
            Some((v, e)) => varint_at(s@, p as int, max as int) == Some((v as nat, e as int)),
            None => varint_at(s@, p as int, max as int) is None,
        },
{
    let n = s.len();
    let mut q: usize = p;
    if q >= n {
        proof {
            lemma_varint_last(s@, p as int);
        }
        return None;
    }
    while q < n && s[q] >= 128 && q - p < max
        invariant
            n == s@.len(),
            p <= q <= n,
            p < n,
            varint_last(s@, p as int) == varint_last(s@, q as int),
            q - p <= max,
        decreases n - q,
    {
        q = q + 1;
    }
    proof {
        lemma_varint_last(s@, q as int);
    }
    if q >= n || q - p >= max {
        return None;
    }
    assert(varint_last(s@, q as int) == q);
    let mut v: u64 = 0;
    let mut i: usize = q + 1;
    let ghost hi = q + 1;
    assert(s@.subrange(i as int, hi) =~= Seq::<u8>::empty());
    while i > p
        invariant
            n == s@.len(),
            p <= i <= hi,
            hi == q + 1,
            q < n,
            varint_last(s@, p as int) == q,
            q - p < max,
            v as nat == varint_value(s@.subrange(i as int, hi)),
        decreases i,
    {
        let d = (s[i - 1] % 128) as u64;
        proof {
            lemma_varint_value_step(s@, i - 1, hi);
        }
        if v > (u64::MAX - d) / 128 {
            assert((d as int) + 128 * (v as int) > u64::MAX) by (nonlinear_arith)
                requires
                    v > (u64::MAX - d) / 128,
                    d < 128,
            ;
            proof {
                lemma_varint_suffix_bound(s@, p as int, i - 1, hi);
            }
            return None;
        }
        v = v * 128 + d;
        i = i - 1;
    }
    Some((v, q + 1))
}

/// The field at `p`: its key, where its value begins (after the length, for a
/// length-delimited field) and where it ends.
pub open spec fn field_at(s: Seq<u8>, p: int) -> Option<(nat, int, int)> {
    match varint_at(s, p, 5) {
        None => None,
        Some((k, b)) => if k / 8 == 0 {
            None
        } else if k % 8 == 0 {
            match varint_at(s, b, 10) {
                Some((_, e)) => Some((k, b, e)),
                None => None,
            }
        } else if k % 8 == 1 {
            if b + 8 <= s.len() {
                Some((k, b, b + 8))
            } else {
                None
            }
        } else if k % 8 == 2 {
            match varint_at(s, b, 10) {
                Some((len, c)) => if c + len <= s.len() {
                    Some((k, c, c + len))
                } else {
                    None
                },
                None => None,
            }
        } else if k % 8 == 5 {
            if b + 4 <= s.len() {
                Some((k, b, b + 4))
            } else {
                None
            }
        } else {
            None
        },
    }
}

proof fn lemma_varint_at(s: Seq<u8>, p: int, max: int)
    ensures
        varint_at(s, p, max) matches Some((_, e)) ==> p < e <= s.len(),
{
    if p >= 0 {
        lemma_varint_last(s, p);
    }
}

pub proof fn lemma_field_at_bounds(s: Seq<u8>, p: int)
    ensures
        field_at(s, p) matches Some((_, b, e)) ==> p < b <= e <= s.len(),
{
    lemma_varint_at(s, p, 5);
    if let Some((k, b)) = varint_at(s, p, 5) {
        lemma_varint_at(s, b, 10);
    }
}

/// One field of a message, by offsets: key, start, start of value, end.
pub open spec fn field_tuple(k: nat, p: int, b: int, e: int) -> (nat, int, int, int) {
    (k, p, b, e)
}

/// The fields from `p` to the end, or `None` if the bytes there are not a
/// sequence of well-formed fields.
pub open spec fn fields_from(s: Seq<u8>, p: int) -> Option<Seq<(nat, int, int, int)>>
    decreases s.len() - p
        via fields_from_decreases
{
    if p < 0 || p >= s.len() {
        Some(Seq::empty())
    } else {
        match field_at(s, p) {
            None => None,
            Some((k, b, e)) => match fields_from(s, e) {
                None => None,
                Some(rest) => Some(seq![field_tuple(k, p, b, e)] + rest),
            },
        }
    }
}

#[via_fn]
proof fn fields_from_decreases(s: Seq<u8>, p: int) {
    lemma_field_at_bounds(s, p);
}

/// A field as offsets into its message.
#[derive(Debug, Clone, Copy, PartialEq, Eq, Structural)]
pub struct RawField {
    pub key: u64,
    pub start: usize,
    pub body: usize,
    pub end: usize,
}

impl View for RawField {
    type V = (nat, int, int, int);

    open spec fn view(&self) -> (nat, int, int, int) {
        (self.key as nat, self.start as int, self.body as int, self.end as int)
    }
}

/// Reads the field at `p`.
pub fn read_field(s: &[u8], p: usize) -> (r: Option<RawField>)
    ensures
        match r {
            Some(f) => field_at(s@, p as int) == Some((f.key as nat, f.body as int, f.end as int))
                && f.start == p,
            None => field_at(s@, p as int) is None,
        },
{
    let n = s.len();
    let (k, b) = match read_varint(s, p, 5) {
        Some(x) => x,
        None => {
            return None;
        },
    };
    proof {
        lemma_varint_at(s@, p as int, 5);
    }
    let wt = k % 8;
    if k / 8 == 0 {
        return None;
    }
    if wt == 0 {
        match read_varint(s, b, 10) {
            Some((_, e)) => Some(RawField { key: k, start: p, body: b, end: e }),
            None => None,
        }
    } else if wt == 1 {
        if b <= n && 8 <= n - b {
            Some(RawField { key: k, start: p, body: b, end: b + 8 })
        } else {
            None
        }
    } else if wt == 2 {
        match read_varint(s, b, 10) {
            Some((len, c)) => {
                proof {
                    lemma_varint_at(s@, b as int, 10);
                }
                if len <= (n - c) as u64 {
                    Some(RawField { key: k, start: p, body: c, end: c + len as usize })
                } else {
                    None
                }
            },
            None => None,
        }
    } else if wt == 5 {
        if b <= n && 4 <= n - b {
            Some(RawField { key: k, start: p, body: b, end: b + 4 })
        } else {
            None
        }
    } else {
        None
    }
}

/// Splits a message into its fields, in order, or `None` if it is not a
/// sequence of well-formed fields.
pub fn split_fields(s: &[u8]) -> (r: Option<Vec<RawField>>)
    ensures
        match r {
            Some(v) => fields_from(s@, 0) == Some(v@.map_values(|f: RawField| f@)),
            None => fields_from(s@, 0) is None,
        },
{
    let n = s.len();
    let mut out: Vec<RawField> = Vec::new();
    let mut p: usize = 0;
    while p < n
        invariant
            n == s@.len(),
            p <= n,
            fields_from(s@, 0) == match fields_from(s@, p as int) {
                Some(rest) => Some(out@.map_values(|f: RawField| f@) + rest),
                None => None::<Seq<(nat, int, int, int)>>,
            },
        decreases n - p,
    {
        match read_field(s, p) {
            Some(f) => {
                proof {
                    lemma_field_at_bounds(s@, p as int);
                }
                let ghost before = out@.map_values(|f: RawField| f@);
                out.push(f);
                assert(out@.map_values(|f: RawField| f@) =~= before + seq![f@]);
                proof {
                    match fields_from(s@, f.end as int) {
                        Some(rest) => {
                            assert(before + (seq![f@] + rest) =~= before + seq![f@] + rest);
                        },
                        None => {},
                    }
                }
                p = f.end;
            },
            None => {
                return None;
            },
        }
    }
    assert(out@.map_values(|f: RawField| f@) + Seq::<(nat, int, int, int)>::empty() =~= out@.map_values(|f: RawField| f@));
    Some(out)
}

/// The bytes that a list of fields covers, concatenated.
pub open spec fn fields_source(s: Seq<u8>, fs: Seq<(nat, int, int, int)>) -> Seq<u8>
    decreases fs.len(),
{
    if fs.len() == 0 {
        Seq::empty()
    } else {
        s.subrange(fs[0].1, fs[0].3) + fields_source(s, fs.drop_first())
    }
}

/// Splitting is lossless: the fields, concatenated, give back the message.
pub proof fn lemma_split_lossless(s: Seq<u8>, p: int)
    requires
        0 <= p <= s.len(),
        fields_from(s, p) is Some,
    ensures
        fields_source(s, fields_from(s, p)->0) == s.subrange(p, s.len() as int),
    decreases s.len() - p,
{
    if p < s.len() {
        lemma_field_at_bounds(s, p);
        let (k, b, e) = field_at(s, p)->0;
        lemma_split_lossless(s, e);
        let fs = fields_from(s, p)->0;
        assert(fs.drop_first() =~= fields_from(s, e)->0);
        assert(s.subrange(p, s.len() as int) =~= s.subrange(p, e) + s.subrange(e, s.len() as int));
    } else {
        assert(s.subrange(p, s.len() as int) =~= Seq::<u8>::empty());
    }
}

} // verus!
