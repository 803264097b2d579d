//! Address keys, the message registry, and the generic scalar decoders that
//! field slots are written through.
use crate::generated::is_talker_id;
use crate::generated::spec_is_talker_id;
use crate::generated::NmeaGllMessage;
use crate::generated::NmeaMessages;
use crate::NmeaError;
use vstd::prelude::*;
use vstd::slice::slice_subrange;
use vstd::slice::slice_to_vec;

verus! {

/// An exact decimal number, the value stored by float-kind field slots:
/// `mantissa / 10^scale`, negated when `neg` is set. A sentence field such
/// as `3751.65` is held as mantissa `375165`, scale `2`.
#[derive(Clone, Copy, Debug, PartialEq, Eq, Structural)]
pub struct Decimal {
    pub neg: bool,
    pub mantissa: u64,
    pub scale: u32,
}

/// An ASCII decimal digit `0`-`9`.
pub open spec fn is_ascii_digit(b: u8) -> bool {
    0x30 <= b && b <= 0x39
}

/// Every byte of `s` is an ASCII decimal digit.
pub open spec fn all_digits(s: Seq<u8>) -> bool {
    forall|k: int| 0 <= k < s.len() ==> is_ascii_digit(s[k])
}

/// Value of a digit string read in base 10; the empty string reads as 0.
pub open spec fn digits_val(s: Seq<u8>) -> int
    decreases s.len(),
{
    if s.len() == 0 {
        0
    } else {
        digits_val(s.drop_last()) * 10 + (s.last() - 0x30)
    }
}

pub open spec fn pow10(n: nat) -> int
    decreases n,
{
    if n == 0 {
        1
    } else {
        10 * pow10((n - 1) as nat)
    }
}

/// Index of the first `.` at or after `i`, or the length when there is none.
pub open spec fn dot_pos_from(s: Seq<u8>, i: int) -> int
    decreases s.len() - i,
{
    if i >= s.len() {
        s.len() as int
    } else if s[i] == 0x2E {
        i
    } else {
        dot_pos_from(s, i + 1)
    }
}

pub open spec fn dot_pos(s: Seq<u8>) -> int {
    dot_pos_from(s, 0)
}

/// An unsigned decimal body: digits with at most one `.` anywhere among
/// them, and at least one digit (`3751.65`, `12`, `3.`, `.5`).
pub open spec fn is_decimal_body(u: Seq<u8>) -> bool {
    let d = dot_pos(u);
    &&& all_digits(u.subrange(0, d))
    &&& (d < u.len() ==> all_digits(u.subrange(d + 1, u.len() as int)))
    &&& decimal_digit_count(u) >= 1
}

/// Number of digit positions of a decimal body (its length less the dot).
pub open spec fn decimal_digit_count(u: Seq<u8>) -> int {
    u.len() - (if dot_pos(u) < u.len() {
        1int
    } else {
        0int
    })
}

/// The digits of a decimal body with the dot removed.
pub open spec fn decimal_digits(u: Seq<u8>) -> Seq<u8> {
    let d = dot_pos(u);
    if d == u.len() {
        u
    } else {
        u.subrange(0, d) + u.subrange(d + 1, u.len() as int)
    }
}

/// Number of digits after the dot of a decimal body.
pub open spec fn decimal_scale(u: Seq<u8>) -> int {
    let d = dot_pos(u);
    if d == u.len() {
        0
    } else {
        u.len() - d - 1
    }
}

/// What parsing a field as a decimal yields: an optional `+`/`-` sign, then
/// a decimal body of at most 18 digits; anything else is no decimal.
pub open spec fn spec_parse_decimal(s: Seq<u8>) -> Option<Decimal> {
    let signed = s.len() > 0 && (s[0] == 0x2B || s[0] == 0x2D);
    let neg = s.len() > 0 && s[0] == 0x2D;
    let u = if signed {
        s.subrange(1, s.len() as int)
    } else {
        s
    };
    if is_decimal_body(u) && decimal_digit_count(u) <= 18 {
        Some(
            Decimal {
                neg,
                mantissa: digits_val(decimal_digits(u)) as u64,
                scale: decimal_scale(u) as u32,
            },
        )
    } else {
        None
    }
}

proof fn lemma_dot_pos_from_bounds(s: Seq<u8>, i: int)
    requires
        0 <= i <= s.len(),
    ensures
        i <= dot_pos_from(s, i) <= s.len(),
        dot_pos_from(s, i) < s.len() ==> s[dot_pos_from(s, i)] == 0x2E,
        forall|k: int| i <= k < dot_pos_from(s, i) ==> s[k] != 0x2E,
    decreases s.len() - i,
{
    if i < s.len() && s[i] != 0x2E {
        lemma_dot_pos_from_bounds(s, i + 1);
    }
}

proof fn lemma_dot_pos_from_first(s: Seq<u8>, i: int, p: int)
    requires
        0 <= i <= p <= s.len(),
        forall|k: int| i <= k < p ==> s[k] != 0x2E,
        p == s.len() || s[p] == 0x2E,
    ensures
        dot_pos_from(s, i) == p,
    decreases p - i,
{
    if i < p {
        lemma_dot_pos_from_first(s, i + 1, p);
    }
}

proof fn lemma_digits_val_bound(s: Seq<u8>)
    requires
        all_digits(s),
    ensures
        0 <= digits_val(s) < pow10(s.len() as nat),
    decreases s.len(),
{
    if s.len() > 0 {
        assert(all_digits(s.drop_last()));
        lemma_digits_val_bound(s.drop_last());
    }
}

/// Parses a field as a signed decimal of at most 18 digits.
#[verifier::rlimit(40)]
pub fn parse_decimal(value: &[u8]) -> (r: Result<Decimal, NmeaError>)
    ensures
        match spec_parse_decimal(value@) {
            Some(d) => r == Ok::<Decimal, NmeaError>(d),
            None => r == Err::<Decimal, NmeaError>(NmeaError::FieldDecodeError),
        },
{
    let n = value.len();
    let mut start: usize = 0;
    let mut neg = false;
    if n > 0 && (value[0] == 0x2B || value[0] == 0x2D) {
        neg = value[0] == 0x2D;
        start = 1;
    }
    let ghost u: Seq<u8> = value@.subrange(start as int, n as int);
    proof {
        assert(u =~= (if value@.len() > 0 && (value@[0] == 0x2B || value@[0] == 0x2D) {
            value@.subrange(1, value@.len() as int)
        } else {
            value@
        }));
    }
    let mut i: usize = start;
    let mut mantissa: u64 = 0;
    let mut scale: u32 = 0;
    let mut ndigits: usize = 0;
    let mut seen_dot = false;
    let ghost mut dot_idx: int = -1;
    let ghost mut digits: Seq<u8> = Seq::empty();
    while i < n
        invariant
            start <= i <= n,
            n == value@.len(),
            start <= 1,
            u == value@.subrange(start as int, n as int),
            u == (if value@.len() > 0 && (value@[0] == 0x2B || value@[0] == 0x2D) {
                value@.subrange(1, value@.len() as int)
            } else {
                value@
            }),
            neg == (value@.len() > 0 && value@[0] == 0x2D),
            seen_dot <==> 0 <= dot_idx < i - start,
            seen_dot ==> u[dot_idx] == 0x2E,
            !seen_dot ==> dot_idx == -1,
            forall|k: int| 0 <= k < i - start && k != dot_idx ==> is_ascii_digit(#[trigger] u[k]),
            digits == (if !seen_dot {
                u.subrange(0, i - start)
            } else {
                u.subrange(0, dot_idx) + u.subrange(dot_idx + 1, i - start)
            }),
            all_digits(digits),
            ndigits == digits.len(),
            ndigits == (i - start) - (if seen_dot {
                1int
            } else {
                0int
            }),
            ndigits <= 18,
            mantissa == digits_val(digits),
            scale == (if seen_dot {
                (i - start) - dot_idx - 1
            } else {
                0int
            }),
        decreases n - i,
    {
        let ghost j = i - start;
        let c = value[i];
        assert(c == u[j]);
        if c == 0x2E {
            if seen_dot {
                proof {
                    lemma_not_decimal_with_two_dots(u, dot_idx, j);
                    lemma_spec_parse_decimal_none(value@, u);
                }
                return Err(NmeaError::FieldDecodeError);
            }
            seen_dot = true;
            proof {
                dot_idx = j;
                assert(digits =~= u.subrange(0, dot_idx) + u.subrange(dot_idx + 1, i + 1 - start));
            }
        } else if 0x30 <= c && c <= 0x39 {
            if ndigits == 18 {
                proof {
                    lemma_too_many_digits(u, dot_idx, j);
                    lemma_spec_parse_decimal_none(value@, u);
                }
                return Err(NmeaError::FieldDecodeError);
            }
            proof {
                lemma_digits_val_bound(digits);
                lemma_pow10_le(digits.len() as nat, 17nat);
                lemma_pow10_17();
            }
            mantissa = mantissa * 10 + (c - 0x30) as u64;
            ndigits = ndigits + 1;
            if seen_dot {
                scale = scale + 1;
            }
            proof {
                let digits0 = digits;
                digits = digits.push(c);
                assert(digits.drop_last() == digits0);
                assert(digits.last() == c);
                if !seen_dot {
                    assert(digits =~= u.subrange(0, i + 1 - start));
                } else {
                    assert(digits =~= u.subrange(0, dot_idx) + u.subrange(
                        dot_idx + 1,
                        i + 1 - start,
                    ));
                }
            }
        } else {
            proof {
                lemma_bad_byte(u, j);
                lemma_spec_parse_decimal_none(value@, u);
            }
            return Err(NmeaError::FieldDecodeError);
        }
        i = i + 1;
    }
    proof {
        if seen_dot {
            assert forall|k: int| 0 <= k < dot_idx implies u[k] != 0x2E by {
                assert(is_ascii_digit(u[k]));
            }
            lemma_dot_pos_from_first(u, 0, dot_idx);
        } else {
            assert forall|k: int| 0 <= k < u.len() implies u[k] != 0x2E by {
                assert(is_ascii_digit(u[k]));
            }
            lemma_dot_pos_from_first(u, 0, u.len() as int);
        }
    }
    if ndigits == 0 {
        // Only a sign, only a dot, or nothing at all: no digit was seen.
        return Err(NmeaError::FieldDecodeError);
    }
    proof {
        let d = dot_pos(u);
        if seen_dot {
            assert(digits =~= decimal_digits(u));
        } else {
            assert(digits =~= u.subrange(0, u.len() as int));
            assert(digits =~= decimal_digits(u));
        }
        assert forall|k: int| 0 <= k < d implies is_ascii_digit(#[trigger] u.subrange(0, d)[k]) by {
            assert(u.subrange(0, d)[k] == u[k]);
        }
        if d < u.len() {
            assert forall|k: int| 0 <= k < u.len() - d - 1 implies is_ascii_digit(
                #[trigger] u.subrange(d + 1, u.len() as int)[k],
            ) by {
                assert(u.subrange(d + 1, u.len() as int)[k] == u[d + 1 + k]);
            }
        }
        assert(is_decimal_body(u));
        lemma_digits_val_bound(digits);
        lemma_pow10_le(digits.len() as nat, 18nat);
        lemma_pow10_18();
    }
    Ok(Decimal { neg, mantissa, scale })
}

/// The unsigned part of `s` is no bounded decimal body, so `s` parses to
/// no decimal at all.
proof fn lemma_spec_parse_decimal_none(s: Seq<u8>, u: Seq<u8>)
    requires
        u == (if s.len() > 0 && (s[0] == 0x2B || s[0] == 0x2D) {
            s.subrange(1, s.len() as int)
        } else {
            s
        }),
        !(is_decimal_body(u) && decimal_digit_count(u) <= 18),
    ensures
        spec_parse_decimal(s) is None,
{
}

/// A second dot at `j` refutes the decimal grammar: the bytes after the
/// first dot must all be digits.
proof fn lemma_not_decimal_with_two_dots(u: Seq<u8>, first: int, j: int)
    requires
        0 <= first < j < u.len(),
        u[first] == 0x2E,
        u[j] == 0x2E,
        forall|k: int| 0 <= k < j && k != first ==> is_ascii_digit(#[trigger] u[k]),
    ensures
        !is_decimal_body(u),
{
    assert forall|k: int| 0 <= k < first implies u[k] != 0x2E by {
        assert(is_ascii_digit(u[k]));
    }
    lemma_dot_pos_from_first(u, 0, first);
    let d = dot_pos(u);
    if is_decimal_body(u) {
        assert(u.subrange(d + 1, u.len() as int)[j - d - 1] == u[j]);
        assert(is_ascii_digit(u.subrange(d + 1, u.len() as int)[j - d - 1]));
        assert(false);
    }
}

/// A 19th digit at `j` refutes the bounded decimal grammar: a body this
/// long holds more than 18 digit positions.
proof fn lemma_too_many_digits(u: Seq<u8>, dot_idx: int, j: int)
    requires
        0 <= j < u.len(),
        is_ascii_digit(u[j]),
        dot_idx == -1 || (0 <= dot_idx < j && u[dot_idx] == 0x2E),
        forall|k: int| 0 <= k < j && k != dot_idx ==> is_ascii_digit(#[trigger] u[k]),
        j - (if 0 <= dot_idx {
            1int
        } else {
            0int
        }) == 18,
    ensures
        !(is_decimal_body(u) && decimal_digit_count(u) <= 18),
{
    lemma_dot_pos_from_bounds(u, 0);
    let d = dot_pos(u);
    if is_decimal_body(u) && decimal_digit_count(u) <= 18 {
        if 0 <= dot_idx {
            assert(d <= dot_idx) by {
                if d > dot_idx {
                    assert(u[dot_idx] != 0x2E);
                }
            }
            if d < dot_idx {
                assert(u.subrange(d + 1, u.len() as int)[dot_idx - d - 1] == u[dot_idx]);
                assert(is_ascii_digit(u[dot_idx]));
            }
            assert(d == dot_idx);
            assert(u.len() >= j + 1);
            assert(decimal_digit_count(u) >= j);
        } else {
            assert(d >= j + 1) by {
                if d <= j {
                    assert(u[d] == 0x2E);
                    assert(is_ascii_digit(u[d]) || d == j);
                }
            }
            assert(u.len() >= j + 1);
            if d < u.len() {
                assert(u.len() >= d + 1);
            }
            assert(decimal_digit_count(u) >= j + 1);
        }
        assert(false);
    }
}

/// A byte that is neither digit nor dot refutes the decimal grammar.
proof fn lemma_bad_byte(u: Seq<u8>, j: int)
    requires
        0 <= j < u.len(),
        !is_ascii_digit(u[j]),
        u[j] != 0x2E,
    ensures
        !is_decimal_body(u),
{
    lemma_dot_pos_from_bounds(u, 0);
    let d = dot_pos(u);
    if is_decimal_body(u) {
        assert(d != j);
        if j < d {
            assert(u.subrange(0, d)[j] == u[j]);
            assert(is_ascii_digit(u.subrange(0, d)[j]));
        } else {
            assert(u.subrange(d + 1, u.len() as int)[j - d - 1] == u[j]);
            assert(is_ascii_digit(u.subrange(d + 1, u.len() as int)[j - d - 1]));
        }
        assert(false);
    }
}

proof fn lemma_pow10_17()
    ensures
        pow10(17nat) == 100_000_000_000_000_000,
{
    reveal_with_fuel(pow10, 19);
}

proof fn lemma_pow10_18()
    ensures
        pow10(18nat) == 1_000_000_000_000_000_000,
{
    reveal_with_fuel(pow10, 20);
}

proof fn lemma_pow10_le(m: nat, n: nat)
    requires
        m <= n,
    ensures
        pow10(m) <= pow10(n),
    decreases n,
{
    if m < n {
        lemma_pow10_le(m, (n - 1) as nat);
        assert(pow10((n - 1) as nat) >= 1) by {
            lemma_pow10_pos((n - 1) as nat);
        }
    }
}

proof fn lemma_pow10_pos(n: nat)
    ensures
        pow10(n) >= 1,
    decreases n,
{
    if n > 0 {
        lemma_pow10_pos((n - 1) as nat);
    }
}

/// Address key of a sentence. `data` is the sentence id with the talker-id
/// prefix stripped (e.g. `GLL` out of `GPGLL`); dispatch identity is defined
/// on `data` alone, never on `talker_id`.
#[derive(Debug)]
pub struct AddrField {
    /// Sentence id bytes (e.g. `GLL` or `RMC`).
    pub data: Vec<u8>,
    /// Talker-id prefix bytes (e.g. `GP`), empty when none was recognized.
    pub talker_id: Vec<u8>,
}

impl AddrField {
    /// Splits an address token: a token longer than 3 bytes whose first two
    /// bytes are in the fixed talker table loses that prefix to `talker_id`;
    /// any other token is kept whole with an empty `talker_id`.
    pub fn new(data: &[u8]) -> (r: AddrField)
        ensures
            (data@.len() > 3 && spec_is_talker_id(data@[0], data@[1])) ==> (r.talker_id@
                == data@.subrange(0, 2) && r.data@ == data@.subrange(2, data@.len() as int)),
            !(data@.len() > 3 && spec_is_talker_id(data@[0], data@[1])) ==> (r.talker_id@ == Seq::<
                u8,
            >::empty() && r.data@ == data@),
    {
        if data.len() > 3 && is_talker_id(slice_subrange(data, 0, 2)) {
            AddrField {
                data: slice_to_vec(slice_subrange(data, 2, data.len())),
                talker_id: slice_to_vec(slice_subrange(data, 0, 2)),
            }
        } else {
            AddrField { data: slice_to_vec(data), talker_id: Vec::new() }
        }
    }
}

/// Decode of a required-string slot: empty fails, anything else is stored
/// verbatim as text.
pub open spec fn spec_decode_string(v: Seq<u8>) -> Result<Seq<u8>, NmeaError> {
    if v.len() == 0 {
        Err(NmeaError::FieldDecodeError)
    } else {
        Ok(v)
    }
}

/// Decode of an optional-string slot: empty is absent.
pub open spec fn spec_decode_opt_string(v: Seq<u8>) -> Result<Option<Seq<u8>>, NmeaError> {
    if v.len() == 0 {
        Ok(None)
    } else {
        Ok(Some(v))
    }
}

/// Decode of a required-float slot: the bytes must form a decimal.
pub open spec fn spec_decode_decimal(v: Seq<u8>) -> Result<Decimal, NmeaError> {
    match spec_parse_decimal(v) {
        Some(d) => Ok(d),
        None => Err(NmeaError::FieldDecodeError),
    }
}

/// Decode of an optional-float slot: empty is absent.
pub open spec fn spec_decode_opt_decimal(v: Seq<u8>) -> Result<Option<Decimal>, NmeaError> {
    if v.len() == 0 {
        Ok(None)
    } else {
        match spec_parse_decimal(v) {
            Some(d) => Ok(Some(d)),
            None => Err(NmeaError::FieldDecodeError),
        }
    }
}

/// Decode of a required-byte slot: exactly one byte.
pub open spec fn spec_decode_byte(v: Seq<u8>) -> Result<u8, NmeaError> {
    if v.len() == 1 {
        Ok(v[0])
    } else {
        Err(NmeaError::FieldDecodeError)
    }
}

/// Decode of an optional-byte slot: empty is absent, one byte is stored,
/// more is no single byte value.
pub open spec fn spec_decode_opt_byte(v: Seq<u8>) -> Result<Option<u8>, NmeaError> {
    if v.len() == 0 {
        Ok(None)
    } else if v.len() == 1 {
        Ok(Some(v[0]))
    } else {
        Err(NmeaError::FieldDecodeError)
    }
}

/// A field slot that can be written from a field's raw bytes, regardless of
/// the message type it belongs to. A decode that fails reports
/// `FieldDecodeError` and leaves the slot unchanged.
pub trait FromSlice: Sized {
    fn set_from_slice(&mut self, value: &[u8]) -> Result<(), NmeaError>;
}

impl FromSlice for Vec<u8> {
    /// Required string slot.
    fn set_from_slice(&mut self, value: &[u8]) -> (r: Result<(), NmeaError>)
        ensures
            match spec_decode_string(value@) {
                Ok(v) => r == Ok::<(), NmeaError>(()) && final(self)@ == v,
                Err(e) => r == Err::<(), NmeaError>(e) && *final(self) == *old(self),
            },
    {
        if value.len() == 0 {
            Err(NmeaError::FieldDecodeError)
        } else {
            *self = slice_to_vec(value);
            Ok(())
        }
    }
}

impl FromSlice for Option<Vec<u8>> {
    /// Optional string slot.
    fn set_from_slice(&mut self, value: &[u8]) -> (r: Result<(), NmeaError>)
        ensures
            r == Ok::<(), NmeaError>(()),
            match spec_decode_opt_string(value@) {
                Ok(Some(v)) => *final(self) is Some && (*final(self))->Some_0@ == v,
                Ok(None) => *final(self) is None,
                Err(_) => false,
            },
    {
        if value.len() == 0 {
            *self = None;
        } else {
            *self = Some(slice_to_vec(value));
        }
        Ok(())
    }
}

impl FromSlice for Decimal {
    /// Required float slot, held as an exact decimal.
    fn set_from_slice(&mut self, value: &[u8]) -> (r: Result<(), NmeaError>)
        ensures
            match spec_decode_decimal(value@) {
                Ok(v) => r == Ok::<(), NmeaError>(()) && *final(self) == v,
                Err(e) => r == Err::<(), NmeaError>(e) && *final(self) == *old(self),
            },
    {
        match parse_decimal(value) {
            Ok(d) => {
                *self = d;
                Ok(())
            },
            Err(e) => Err(e),
        }
    }
}

impl FromSlice for Option<Decimal> {
    /// Optional float slot, held as an exact decimal.
    fn set_from_slice(&mut self, value: &[u8]) -> (r: Result<(), NmeaError>)
        ensures
            match spec_decode_opt_decimal(value@) {
                Ok(v) => r == Ok::<(), NmeaError>(()) && *final(self) == v,
                Err(e) => r == Err::<(), NmeaError>(e) && *final(self) == *old(self),
            },
    {
        if value.len() == 0 {
            *self = None;
            Ok(())
        } else {
            match parse_decimal(value) {
                Ok(d) => {
                    *self = Some(d);
                    Ok(())
                },
                Err(e) => Err(e),
            }
        }
    }
}

impl FromSlice for u8 {
    /// Required byte slot.
    fn set_from_slice(&mut self, value: &[u8]) -> (r: Result<(), NmeaError>)
        ensures
            match spec_decode_byte(value@) {
                Ok(v) => r == Ok::<(), NmeaError>(()) && *final(self) == v,
                Err(e) => r == Err::<(), NmeaError>(e) && *final(self) == *old(self),
            },
    {
        if value.len() == 1 {
            *self = value[0];
            Ok(())
        } else {
            Err(NmeaError::FieldDecodeError)
        }
    }
}

impl FromSlice for Option<u8> {
    /// Optional byte slot.
    fn set_from_slice(&mut self, value: &[u8]) -> (r: Result<(), NmeaError>)
        ensures
            match spec_decode_opt_byte(value@) {
                Ok(v) => r == Ok::<(), NmeaError>(()) && *final(self) == v,
                Err(e) => r == Err::<(), NmeaError>(e) && *final(self) == *old(self),
            },
    {
        if value.len() == 0 {
            *self = None;
            Ok(())
        } else if value.len() == 1 {
            *self = Some(value[0]);
            Ok(())
        } else {
            Err(NmeaError::FieldDecodeError)
        }
    }
}

/// A message with a fixed, ordered set of field slots, writable by position.
/// The slot at `field_count() - 1` is the completion trigger.
pub trait MessageFields: Sized {
    /// Writes the raw bytes of one field into the slot at `idx`.
    fn set_field(&mut self, idx: u8, value: &[u8]) -> Result<(), NmeaError>;

    /// How many fields one sentence of this type carries.
    fn field_count(&self) -> u8;

    /// Resets every slot to absent, erasing the previous occupant.
    fn clear(&mut self);

    /// The address key this message is dispatched under.
    fn get_addr(&self) -> AddrField;

    /// The tag naming this message's kind.
    fn message_type(&self) -> NmeaMessages;
}

/// The address key the GLL decoder is registered under: `GLL` in ASCII.
pub open spec fn gll_addr() -> Seq<u8> {
    seq![0x47u8, 0x4Cu8, 0x4Cu8]
}

/// Registry of one long-lived, in-place-overwritten decoder instance per
/// known sentence address. The known set is closed, so the map is a fixed
/// record: one slot (and registration flag) per sentence kind.
pub struct MessagesMap {
    /// The GLL decoder instance, reused sentence by sentence.
    pub gll: NmeaGllMessage,
    /// Whether the GLL decoder was registered.
    pub gll_registered: bool,
}

impl MessagesMap {
    /// Whether a decoder is registered for the given address key.
    pub open spec fn spec_has_addr(self, addr: Seq<u8>) -> bool {
        self.gll_registered && addr == gll_addr()
    }

    /// An empty registry: nothing is registered yet.
    pub fn new() -> (r: Self)
        ensures
            !r.gll_registered,
    {
        MessagesMap { gll: NmeaGllMessage::new(), gll_registered: false }
    }

    /// Looks the address key up; the talker id takes no part in the lookup.
    pub fn get(&self, addr: &AddrField) -> (r: Option<&NmeaGllMessage>)
        ensures
            match r {
                Some(m) => self.spec_has_addr(addr.data@) && *m == self.gll,
                None => !self.spec_has_addr(addr.data@),
            },
    {
        if self.gll_registered && addr.data.len() == 3 && addr.data[0] == 0x47 && addr.data[1] == 0x4C
            && addr.data[2] == 0x4C {
            proof {
                assert(addr.data@ =~= gll_addr());
            }
            Some(&self.gll)
        } else {
            proof {
                if addr.data@ == gll_addr() {
                    assert(addr.data@.len() == 3);
                }
            }
            None
        }
    }

    /// Looks the address key up for in-place mutation.
    pub fn get_mut(&mut self, addr: &AddrField) -> (r: Option<&mut NmeaGllMessage>)
        ensures
            match r {
                Some(m) => old(self).spec_has_addr(addr.data@) && *m == old(self).gll
                    && final(self).gll == *final(m) && final(self).gll_registered == old(
                    self,
                ).gll_registered,
                None => !old(self).spec_has_addr(addr.data@) && *final(self) == *old(self),
            },
    {
        if self.gll_registered && addr.data.len() == 3 && addr.data[0] == 0x47 && addr.data[1] == 0x4C
            && addr.data[2] == 0x4C {
            proof {
                assert(addr.data@ =~= gll_addr());
            }
            Some(&mut self.gll)
        } else {
            proof {
                if addr.data@ == gll_addr() {
                    assert(addr.data@.len() == 3);
                }
            }
            None
        }
    }
}

} // verus!

