//! Decoder for NMEA 0183 sentences: framing, checksum validation, address
//! splitting, and per-field dispatch to registered message decoders.
use vstd::prelude::*;

pub mod generated;
pub mod messages;
pub mod nmea_parser;

use crate::messages::AddrField;
use vstd::slice::slice_subrange;
use vstd::slice::slice_to_vec;

verus! {

/// ASCII `$`, the sentence start marker.
pub const DOLLAR: u8 = 0x24;

/// ASCII `*`, the checksum delimiter.
pub const ASTERISK: u8 = 0x2A;

/// ASCII `,`, the field separator.
pub const COMMA: u8 = 0x2C;

/// ASCII line feed.
pub const LF: u8 = 0x0A;

/// ASCII carriage return.
pub const CR: u8 = 0x0D;

/// Error kinds a sentence can fail with. Framing and field errors are
/// recoverable per sentence: the driving loop may skip past the next line
/// terminator and resume. A checksum mismatch is not an error; it surfaces
/// as the `crc_ok` flag on the parsed message.
#[derive(Clone, Copy, Debug, PartialEq, Eq)]
pub enum NmeaError {
    /// The buffer does not start with `$`, is shorter than a minimal viable
    /// sentence, or has no comma after the address token.
    FramingError,
    /// Exactly two bytes follow `*` but they are not uppercase hex digits.
    ChecksumFormatError,
    /// No decoder is registered for the resolved address key.
    UnknownAddress,
    /// A field's bytes could not be converted to its slot's scalar kind.
    FieldDecodeError,
}

/// An ASCII digit `0`-`9` or uppercase hex letter `A`-`F`.
pub open spec fn is_hex_digit(b: u8) -> bool {
    (0x30 <= b && b <= 0x39) || (0x41 <= b && b <= 0x46)
}

/// Numeric value of one hex digit.
pub open spec fn hex_digit_val(b: u8) -> int {
    if b <= 0x39 {
        b - 0x30
    } else {
        b - 0x41 + 10
    }
}

/// Value of a two-digit uppercase hex number, high digit first.
pub open spec fn hex_byte_val(hi: u8, lo: u8) -> u8 {
    (hex_digit_val(hi) * 16 + hex_digit_val(lo)) as u8
}

/// Converts a 2-character ASCII uppercase hex value to a byte value.
pub fn hex_chars_to_u8(h: &[u8]) -> (r: Result<u8, NmeaError>)
    requires
        h@.len() == 2,
    ensures
        is_hex_digit(h@[0]) && is_hex_digit(h@[1]) ==> r == Ok::<u8, NmeaError>(
            hex_byte_val(h@[0], h@[1]),
        ),
        !(is_hex_digit(h@[0]) && is_hex_digit(h@[1])) ==> r == Err::<u8, NmeaError>(
            NmeaError::ChecksumFormatError,
        ),
{
    let h0 = h[0];
    let h1 = h[1];
    let d0: u8 = if 0x30 <= h0 && h0 <= 0x39 {
        h0 - 0x30
    } else if 0x41 <= h0 && h0 <= 0x46 {
        h0 - 0x41 + 10
    } else {
        return Err(NmeaError::ChecksumFormatError);
    };
    let d1: u8 = if 0x30 <= h1 && h1 <= 0x39 {
        h1 - 0x30
    } else if 0x41 <= h1 && h1 <= 0x46 {
        h1 - 0x41 + 10
    } else {
        return Err(NmeaError::ChecksumFormatError);
    };
    Ok(16 * d0 + d1)
}

/// Semi-parsed NMEA message: the raw address token (talker id included),
/// the undecoded field blob between the address comma and the `*` or
/// terminator, and whether the declared checksum matched the computed one.
#[derive(Debug)]
pub struct NmeaMessage {
    pub addr_field: Vec<u8>,
    pub fields: Vec<u8>,
    pub crc_ok: bool,
}

/// Callback driven by the framer: called once per field found, in sentence
/// order, with the stripped address key, the zero-based field index, and
/// the field's raw bytes. The handler converts and stores the value; its
/// abstract log of handled fields records each call, so the framer's
/// contract can say exactly which fields it emitted.
pub trait HandleField {
    /// The fields handled so far: address key, field index, field bytes.
    spec fn handled(&self) -> Seq<(Seq<u8>, u8, Seq<u8>)>;

    fn handle(&mut self, addr_field: &AddrField, field_idx: u8, field: &[u8])
        ensures
            final(self).handled() == old(self).handled().push(
                (addr_field.data@, field_idx, field@),
            ),
    ;
}

/// A byte that ends the address token: comma, CR or LF.
pub open spec fn is_addr_delim(b: u8) -> bool {
    b == COMMA || b == CR || b == LF
}

/// A byte that ends the field region: asterisk, CR or LF.
pub open spec fn is_field_end(b: u8) -> bool {
    b == ASTERISK || b == CR || b == LF
}

/// A line-terminator byte.
pub open spec fn is_crlf(b: u8) -> bool {
    b == CR || b == LF
}

/// First position at or after `i` holding an address delimiter, or the
/// length when there is none.
pub open spec fn scan_addr(s: Seq<u8>, i: int) -> int
    decreases s.len() - i,
{
    if i >= s.len() {
        s.len() as int
    } else if is_addr_delim(s[i]) {
        i
    } else {
        scan_addr(s, i + 1)
    }
}

/// Where the address token of a sentence ends: the first delimiter after
/// the leading `$`.
pub open spec fn addr_end(s: Seq<u8>) -> int {
    scan_addr(s, 1)
}

/// First position at or after `i` that ends the field region, or the
/// length when there is none.
pub open spec fn scan_break(s: Seq<u8>, i: int) -> int
    decreases s.len() - i,
{
    if i >= s.len() {
        s.len() as int
    } else if is_field_end(s[i]) {
        i
    } else {
        scan_break(s, i + 1)
    }
}

/// Where the field region of a sentence ends: the first `*`, CR or LF
/// after the address comma, or the end of the buffer.
pub open spec fn break_pos(s: Seq<u8>) -> int {
    scan_break(s, addr_end(s) + 1)
}

/// First position at or after `i` holding CR or LF, or the length.
pub open spec fn scan_crlf(s: Seq<u8>, i: int) -> int
    decreases s.len() - i,
{
    if i >= s.len() {
        s.len() as int
    } else if is_crlf(s[i]) {
        i
    } else {
        scan_crlf(s, i + 1)
    }
}

/// First position at or after `i` holding LF, or the length.
pub open spec fn scan_lf(s: Seq<u8>, i: int) -> int
    decreases s.len() - i,
{
    if i >= s.len() {
        s.len() as int
    } else if s[i] == LF {
        i
    } else {
        scan_lf(s, i + 1)
    }
}

/// Where a sentence's terminator ends: the first LF at or after the end of
/// the field region, or the end of the buffer.
pub open spec fn lf_pos(s: Seq<u8>) -> int {
    scan_lf(s, break_pos(s))
}

/// Running XOR over a byte sequence, seeded at 0.
pub open spec fn xor_seq(s: Seq<u8>) -> u8
    decreases s.len(),
{
    if s.len() == 0 {
        0
    } else {
        xor_seq(s.drop_last()) ^ s.last()
    }
}

/// Number of commas of `s` in positions `[lo, hi)`.
pub open spec fn count_commas(s: Seq<u8>, lo: int, hi: int) -> int
    decreases hi - lo,
{
    if hi <= lo {
        0
    } else {
        count_commas(s, lo, hi - 1) + (if s[hi - 1] == COMMA {
            1int
        } else {
            0int
        })
    }
}

/// What framing one sentence yields, at the specification level.
pub ghost struct FrameSpec {
    /// Bytes the caller must advance past before framing the next sentence.
    pub consume: int,
    /// The raw address token, talker id included.
    pub addr: Seq<u8>,
    /// The field blob: everything between the address comma and the end of
    /// the field region.
    pub fields: Seq<u8>,
    /// Whether a well-formed declared checksum matched the computed XOR.
    pub crc_ok: bool,
}

/// The whole framing function: locates the sentence starting at `s[0]`,
/// computes its checksum over the bytes strictly between `$` and the end of
/// the field region, and reports how far the sliding window must advance.
pub open spec fn spec_get_message_body(s: Seq<u8>) -> Result<FrameSpec, NmeaError> {
    if s.len() <= 10 {
        Err(NmeaError::FramingError)
    } else if s[0] != DOLLAR {
        Err(NmeaError::FramingError)
    } else {
        let ae = addr_end(s);
        if ae >= s.len() || s[ae] != COMMA {
            Err(NmeaError::FramingError)
        } else {
            let bp = break_pos(s);
            let crc = xor_seq(s.subrange(1, bp));
            let consume = if lf_pos(s) < s.len() {
                lf_pos(s) + 1
            } else {
                s.len() as int
            };
            if count_commas(s, ae + 1, bp) + 1 > 256 {
                Err(NmeaError::FramingError)
            } else if bp < s.len() && s[bp] == ASTERISK && scan_crlf(s, bp + 1) == bp + 3 && !(
            is_hex_digit(s[bp + 1]) && is_hex_digit(s[bp + 2])) {
                Err(NmeaError::ChecksumFormatError)
            } else {
                let crc_ok = bp < s.len() && s[bp] == ASTERISK && scan_crlf(s, bp + 1) == bp + 3
                    && hex_byte_val(s[bp + 1], s[bp + 2]) == crc;
                Ok(
                    FrameSpec {
                        consume,
                        addr: s.subrange(1, ae),
                        fields: s.subrange(ae + 1, bp),
                        crc_ok,
                    },
                )
            }
        }
    }
}

/// First position at or after `i` holding a comma, or the length.
pub open spec fn scan_comma(s: Seq<u8>, i: int) -> int
    decreases s.len() - i,
{
    if i >= s.len() {
        s.len() as int
    } else if s[i] == COMMA {
        i
    } else {
        scan_comma(s, i + 1)
    }
}

/// A byte region split on commas: one field per comma-separated run, the
/// empty region giving one empty field.
pub open spec fn split_commas(b: Seq<u8>) -> Seq<Seq<u8>>
    decreases b.len(),
{
    let c = scan_comma(b, 0);
    if c < 0 || c >= b.len() {
        seq![b]
    } else {
        seq![b.subrange(0, c)] + split_commas(b.subrange(c + 1, b.len() as int))
    }
}

/// The address key a sentence's fields are dispatched under: the address
/// token with a recognized 2-byte talker prefix stripped.
pub open spec fn addr_key(s: Seq<u8>) -> Seq<u8> {
    let a = s.subrange(1, addr_end(s));
    if a.len() > 3 && crate::generated::spec_is_talker_id(a[0], a[1]) {
        a.subrange(2, a.len() as int)
    } else {
        a
    }
}

/// The fields of a sentence: its field region split on commas.
pub open spec fn fields_of(s: Seq<u8>) -> Seq<Seq<u8>> {
    split_commas(s.subrange(addr_end(s) + 1, break_pos(s)))
}

/// The dispatch events for a list of fields of one sentence: each field at
/// its zero-based index, under one address key.
pub open spec fn field_events(addr: Seq<u8>, fields: Seq<Seq<u8>>) -> Seq<(Seq<u8>, u8, Seq<u8>)> {
    Seq::new(fields.len(), |i: int| (addr, i as u8, fields[i]))
}

/// The dispatch events of a whole sentence.
pub open spec fn sentence_events(s: Seq<u8>) -> Seq<(Seq<u8>, u8, Seq<u8>)> {
    field_events(addr_key(s), fields_of(s))
}

proof fn lemma_scan_comma_first(s: Seq<u8>, i: int, p: int)
    requires
        0 <= i <= p <= s.len(),
        forall|k: int| i <= k < p ==> #[trigger] s[k] != COMMA,
        p == s.len() || s[p] == COMMA,
    ensures
        scan_comma(s, i) == p,
    decreases p - i,
{
    if i < p {
        lemma_scan_comma_first(s, i + 1, p);
    }
}

/// Splitting a comma-free region yields that one field.
proof fn lemma_split_commas_single(b: Seq<u8>)
    requires
        forall|k: int| 0 <= k < b.len() ==> #[trigger] b[k] != COMMA,
    ensures
        split_commas(b) == seq![b],
{
    lemma_scan_comma_first(b, 0, b.len() as int);
}

/// Splitting a region that starts with a comma-free field and its comma
/// puts that field first.
proof fn lemma_split_commas_step(x: Seq<u8>, t: Seq<u8>)
    requires
        forall|k: int| 0 <= k < x.len() ==> #[trigger] x[k] != COMMA,
    ensures
        split_commas(x + seq![COMMA] + t) == seq![x] + split_commas(t),
{
    let b = x + seq![COMMA] + t;
    assert(b[x.len() as int] == COMMA);
    assert forall|k: int| 0 <= k < x.len() implies #[trigger] b[k] != COMMA by {
        assert(b[k] == x[k]);
    }
    lemma_scan_comma_first(b, 0, x.len() as int);
    assert(b.subrange(0, x.len() as int) =~= x);
    assert(b.subrange(x.len() as int + 1, b.len() as int) =~= t);
}

proof fn lemma_scan_addr_first(s: Seq<u8>, i: int, p: int)
    requires
        0 <= i <= p <= s.len(),
        forall|k: int| i <= k < p ==> !is_addr_delim(#[trigger] s[k]),
        p == s.len() || is_addr_delim(s[p]),
    ensures
        scan_addr(s, i) == p,
    decreases p - i,
{
    if i < p {
        lemma_scan_addr_first(s, i + 1, p);
    }
}

proof fn lemma_scan_break_first(s: Seq<u8>, i: int, p: int)
    requires
        0 <= i <= p <= s.len(),
        forall|k: int| i <= k < p ==> !is_field_end(#[trigger] s[k]),
        p == s.len() || is_field_end(s[p]),
    ensures
        scan_break(s, i) == p,
    decreases p - i,
{
    if i < p {
        lemma_scan_break_first(s, i + 1, p);
    }
}

proof fn lemma_scan_break_bounds(s: Seq<u8>, i: int)
    requires
        0 <= i <= s.len(),
    ensures
        i <= scan_break(s, i) <= s.len(),
    decreases s.len() - i,
{
    if i < s.len() && !is_field_end(s[i]) {
        lemma_scan_break_bounds(s, i + 1);
    }
}

proof fn lemma_scan_break_ge(s: Seq<u8>, i: int, p: int)
    requires
        0 <= i <= p <= s.len(),
        forall|k: int| i <= k < p ==> !is_field_end(#[trigger] s[k]),
    ensures
        scan_break(s, i) >= p,
    decreases p - i,
{
    if i < p {
        lemma_scan_break_ge(s, i + 1, p);
    } else {
        lemma_scan_break_bounds(s, i);
    }
}

proof fn lemma_scan_crlf_first(s: Seq<u8>, i: int, p: int)
    requires
        0 <= i <= p <= s.len(),
        forall|k: int| i <= k < p ==> !is_crlf(#[trigger] s[k]),
        p == s.len() || is_crlf(s[p]),
    ensures
        scan_crlf(s, i) == p,
    decreases p - i,
{
    if i < p {
        lemma_scan_crlf_first(s, i + 1, p);
    }
}

proof fn lemma_scan_lf_first(s: Seq<u8>, i: int, p: int)
    requires
        0 <= i <= p <= s.len(),
        forall|k: int| i <= k < p ==> s[k] != LF,
        p == s.len() || s[p] == LF,
    ensures
        scan_lf(s, i) == p,
    decreases p - i,
{
    if i < p {
        lemma_scan_lf_first(s, i + 1, p);
    }
}

proof fn lemma_count_commas_mono(s: Seq<u8>, lo: int, m: int, hi: int)
    requires
        lo <= m <= hi,
    ensures
        count_commas(s, lo, hi) >= count_commas(s, lo, m),
    decreases hi - m,
{
    if m < hi {
        lemma_count_commas_mono(s, lo, m, hi - 1);
    }
}

/// Finds the end of the address token, accumulating the checksum of the
/// address bytes.
fn scan_address(buf: &[u8]) -> (r: (usize, u8))
    requires
        buf@.len() >= 1,
    ensures
        r.0 as int == addr_end(buf@),
        1 <= r.0 <= buf@.len(),
        r.1 == xor_seq(buf@.subrange(1, r.0 as int)),
{
    let n = buf.len();
    let mut ae: usize = 1;
    let mut crc: u8 = 0;
    while ae < n && buf[ae] != COMMA && buf[ae] != CR && buf[ae] != LF
        invariant
            1 <= ae <= n,
            n == buf@.len(),
            forall|k: int| 1 <= k < ae ==> !is_addr_delim(#[trigger] buf@[k]),
            crc == xor_seq(buf@.subrange(1, ae as int)),
        decreases n - ae,
    {
        let b = buf[ae];
        proof {
            assert(buf@.subrange(1, ae + 1).drop_last() =~= buf@.subrange(1, ae as int));
            assert(buf@.subrange(1, ae + 1).last() == buf@[ae as int]);
        }
        crc = crc ^ b;
        ae = ae + 1;
    }
    proof {
        lemma_scan_addr_first(buf@, 1, ae as int);
    }
    (ae, crc)
}

/// Finds the first CR or LF at or after `from`.
fn find_crlf(buf: &[u8], from: usize) -> (t: usize)
    requires
        from <= buf@.len(),
    ensures
        t as int == scan_crlf(buf@, from as int),
        from <= t <= buf@.len(),
{
    let n = buf.len();
    let mut t: usize = from;
    while t < n && buf[t] != CR && buf[t] != LF
        invariant
            from <= t <= n,
            n == buf@.len(),
            forall|k: int| from <= k < t ==> !is_crlf(#[trigger] buf@[k]),
        decreases n - t,
    {
        t = t + 1;
    }
    proof {
        lemma_scan_crlf_first(buf@, from as int, t as int);
    }
    t
}

/// Finds the first LF at or after `from`.
pub(crate) fn find_lf(buf: &[u8], from: usize) -> (q: usize)
    requires
        from <= buf@.len(),
    ensures
        q as int == scan_lf(buf@, from as int),
        from <= q <= buf@.len(),
{
    let n = buf.len();
    let mut q: usize = from;
    while q < n && buf[q] != LF
        invariant
            from <= q <= n,
            n == buf@.len(),
            forall|k: int| from <= k < q ==> buf@[k] != LF,
        decreases n - q,
    {
        q = q + 1;
    }
    proof {
        lemma_scan_lf_first(buf@, from as int, q as int);
    }
    q
}

/// Parses a single sentence from the start of `buf`, driving the checksum
/// over every byte strictly between `$` and the end of the field region and
/// handing each field to `field_handler` by position. The returned consume
/// amount counts the sentence's bytes including any trailing CR and LF, so
/// a caller can advance a sliding window across a buffer holding several
/// sentences or a truncated tail. A sentence that does not begin with `$`
/// (or is shorter than a minimal viable sentence, or has no comma after its
/// address) is rejected before any checksum or dispatch work is done.
///
/// Checksum policy: only exactly two bytes between `*` and the terminator
/// count as a declared checksum. A sentence with no checksum field — no
/// `*`, or another number of bytes after it — is accepted with `crc_ok`
/// false; two bytes that are not uppercase hex are a format error.
#[verifier::rlimit(60)]
pub fn get_message_body<H: HandleField>(buf: &[u8], field_handler: &mut H) -> (r: Result<
    (usize, NmeaMessage),
    NmeaError,
>)
    ensures
        match spec_get_message_body(buf@) {
            Ok(f) => {
                &&& r is Ok
                &&& r->Ok_0.0 as int == f.consume
                &&& 0 < r->Ok_0.0 <= buf@.len()
                &&& r->Ok_0.1.addr_field@ == f.addr
                &&& r->Ok_0.1.fields@ == f.fields
                &&& r->Ok_0.1.crc_ok == f.crc_ok
            },
            Err(e) => r is Err && r->Err_0 == e,
        },
        (spec_get_message_body(buf@) is Ok || spec_get_message_body(buf@) == Err::<
            FrameSpec,
            NmeaError,
        >(NmeaError::ChecksumFormatError)) ==> final(field_handler).handled() == old(
            field_handler,
        ).handled() + sentence_events(buf@),
        buf@.len() <= 10 ==> *final(field_handler) == *old(field_handler),
        buf@.len() > 10 && buf@[0] != DOLLAR ==> *final(field_handler) == *old(field_handler),
        buf@.len() > 10 && buf@[0] == DOLLAR && (addr_end(buf@) >= buf@.len() || buf@[addr_end(
            buf@,
        )] != COMMA) ==> *final(field_handler) == *old(field_handler),
{
    let n = buf.len();
    if n <= 10 {
        return Err(NmeaError::FramingError);
    }
    if buf[0] != DOLLAR {
        return Err(NmeaError::FramingError);
    }
    // Find the end of the address token, accumulating its checksum.
    let (ae, addr_crc) = scan_address(buf);
    if ae >= n || buf[ae] != COMMA {
        return Err(NmeaError::FramingError);
    }
    proof {
        assert(buf@.subrange(1, ae + 1).drop_last() =~= buf@.subrange(1, ae as int));
        assert(buf@.subrange(1, ae + 1).last() == buf@[ae as int]);
    }
    let mut crc: u8 = addr_crc ^ COMMA;
    let addr = AddrField::new(slice_subrange(buf, 1, ae));
    proof {
        assert(addr.data@ == addr_key(buf@));
    }
    // Walk the field region, emitting one field at each delimiter.
    let ghost handled0 = field_handler.handled();
    let ghost mut emitted: Seq<Seq<u8>> = Seq::empty();
    let mut p: usize = ae + 1;
    let mut field_start: usize = ae + 1;
    let mut idx: usize = 0;
    loop
        invariant_except_break
            idx == emitted.len(),
            forall|t: Seq<u8>| #[trigger] split_commas(buf@.subrange(ae + 1, p as int) + t)
                == emitted + split_commas(buf@.subrange(field_start as int, p as int) + t),
        invariant
            n == buf@.len(),
            10 < n,
            buf@[0] == DOLLAR,
            ae as int == addr_end(buf@),
            1 <= ae < n,
            buf@[ae as int] == COMMA,
            ae + 1 <= field_start <= p <= n,
            forall|k: int| ae + 1 <= k < p ==> !is_field_end(#[trigger] buf@[k]),
            forall|k: int| field_start <= k < p ==> #[trigger] buf@[k] != COMMA,
            idx == count_commas(buf@, ae + 1, p as int),
            idx <= 256,
            crc == xor_seq(buf@.subrange(1, p as int)),
            addr.data@ == addr_key(buf@),
            field_handler.handled() == handled0 + field_events(addr.data@, emitted),
        ensures
            n == buf@.len(),
            10 < n,
            buf@[0] == DOLLAR,
            ae as int == addr_end(buf@),
            1 <= ae < n,
            buf@[ae as int] == COMMA,
            ae + 1 <= field_start <= p <= n,
            p as int == break_pos(buf@),
            idx <= 255,
            idx == count_commas(buf@, ae + 1, p as int),
            crc == xor_seq(buf@.subrange(1, p as int)),
            field_handler.handled() == handled0 + sentence_events(buf@),
        decreases n - p,
    {
        if p >= n || buf[p] == ASTERISK || buf[p] == CR || buf[p] == LF {
            proof {
                lemma_scan_break_first(buf@, ae + 1, p as int);
            }
            if idx > 255 {
                return Err(NmeaError::FramingError);
            }
            proof {
                let last = buf@.subrange(field_start as int, p as int);
                assert(buf@.subrange(ae + 1, p as int) + Seq::<u8>::empty() =~= buf@.subrange(
                    ae + 1,
                    p as int,
                ));
                assert(last + Seq::<u8>::empty() =~= last);
                assert forall|k: int| 0 <= k < last.len() implies #[trigger] last[k] != COMMA by {
                    assert(last[k] == buf@[field_start + k]);
                }
                assert(split_commas(buf@.subrange(ae + 1, p as int) + Seq::<u8>::empty())
                    == emitted + split_commas(last + Seq::<u8>::empty()));
                lemma_split_commas_single(last);
                assert(emitted + seq![last] =~= emitted.push(last));
                assert(fields_of(buf@) == emitted.push(last));
            }
            field_handler.handle(&addr, idx as u8, slice_subrange(buf, field_start, p));
            proof {
                let last = buf@.subrange(field_start as int, p as int);
                emitted = emitted.push(last);
                assert(field_events(addr.data@, emitted) =~= field_events(
                    addr.data@,
                    emitted.drop_last(),
                ).push((addr.data@, (emitted.len() - 1) as u8, last)));
                assert(emitted.drop_last() =~= emitted.subrange(0, emitted.len() - 1));
                assert(field_handler.handled() == handled0 + field_events(addr.data@, emitted));
                assert(field_handler.handled() == handled0 + sentence_events(buf@));
            }
            break;
        }
        if buf[p] == COMMA {
            if idx > 255 {
                proof {
                    lemma_scan_break_ge(buf@, ae + 1, p as int);
                    lemma_count_commas_mono(buf@, ae + 1, p as int, break_pos(buf@));
                }
                return Err(NmeaError::FramingError);
            }
            field_handler.handle(&addr, idx as u8, slice_subrange(buf, field_start, p));
            proof {
                let x = buf@.subrange(field_start as int, p as int);
                emitted = emitted.push(x);
                assert(field_events(addr.data@, emitted) =~= field_events(
                    addr.data@,
                    emitted.drop_last(),
                ).push((addr.data@, (emitted.len() - 1) as u8, x)));
                assert(emitted.drop_last() =~= emitted.subrange(0, emitted.len() - 1));
                assert forall|k: int| 0 <= k < x.len() implies #[trigger] x[k] != COMMA by {
                    assert(x[k] == buf@[field_start + k]);
                }
                assert forall|t: Seq<u8>|
                    #[trigger] split_commas(buf@.subrange(ae + 1, p + 1) + t) == emitted
                        + split_commas(buf@.subrange(p + 1, p + 1) + t) by {
                    assert(buf@.subrange(ae + 1, p + 1) + t =~= buf@.subrange(ae + 1, p as int) + (
                    seq![COMMA] + t));
                    assert(x + seq![COMMA] + t =~= x + (seq![COMMA] + t));
                    lemma_split_commas_step(x, t);
                    assert(split_commas(buf@.subrange(ae + 1, p as int) + (seq![COMMA] + t))
                        == emitted.drop_last() + split_commas(x + (seq![COMMA] + t)));
                    assert(buf@.subrange(p + 1, p + 1) + t =~= t);
                    assert(emitted.drop_last() + (seq![x] + split_commas(t)) =~= emitted
                        + split_commas(t));
                }
            }
            idx = idx + 1;
            field_start = p + 1;
        }
        let b = buf[p];
        proof {
            assert(buf@.subrange(1, p + 1).drop_last() =~= buf@.subrange(1, p as int));
            assert(buf@.subrange(1, p + 1).last() == buf@[p as int]);
            let fs = if buf@[p as int] == COMMA {
                p + 1
            } else {
                field_start as int
            };
            assert forall|t: Seq<u8>|
                #[trigger] split_commas(buf@.subrange(ae + 1, p + 1) + t) == emitted
                    + split_commas(buf@.subrange(fs, p + 1) + t) by {
                if buf@[p as int] != COMMA {
                    assert(buf@.subrange(ae + 1, p + 1) + t =~= buf@.subrange(ae + 1, p as int) + (
                    seq![buf@[p as int]] + t));
                    assert(buf@.subrange(fs, p + 1) + t =~= buf@.subrange(fs, p as int) + (seq![
                        buf@[p as int],
                    ] + t));
                }
            }
        }
        crc = crc ^ b;
        p = p + 1;
    }
    let bp = p;
    // The field region's checksum is complete; check a declared checksum if
    // exactly two bytes stand between `*` and the terminator.
    let mut crc_ok = false;
    if bp < n && buf[bp] == ASTERISK {
        let t = find_crlf(buf, bp + 1);
        if t - bp == 3 {
            proof {
                assert(buf@.subrange(bp + 1, bp + 3)[0] == buf@[bp + 1]);
                assert(buf@.subrange(bp + 1, bp + 3)[1] == buf@[bp + 2]);
            }
            match hex_chars_to_u8(slice_subrange(buf, bp + 1, bp + 3)) {
                Ok(v) => {
                    crc_ok = v == crc;
                },
                Err(_) => {
                    return Err(NmeaError::ChecksumFormatError);
                },
            }
        }
    }
    // Count the consumed bytes: everything up to and including the LF when
    // one is present, else the whole buffer.
    let q = find_lf(buf, bp);
    let consume_amt = if q < n {
        q + 1
    } else {
        n
    };
    let msg = NmeaMessage {
        addr_field: slice_to_vec(slice_subrange(buf, 1, ae)),
        fields: slice_to_vec(slice_subrange(buf, ae + 1, bp)),
        crc_ok,
    };
    Ok((consume_amt, msg))
}

} // verus!

