//! The tenet trace format: one line per instruction, fields `key=0xvalue` separated by
//! commas; memory fields `mr`, `mw`, `mrw` hold `address:bytes` in hexadecimal.
use vstd::prelude::*;
use vstd::utf8::{decode_utf8, valid_utf8};
use vstd::slice::slice_subrange;
use crate::flat::Time;
use crate::index::drive::{EventSink, TraceParser};
use crate::index::parser::{EventView, MemoryMode, ProgressReporter, RawEvent, TimedRawEvent, raw_view};

verus! {

/// Value of a hexadecimal digit, or -1.
pub open spec fn hex_digit(c: u8) -> int {
    if 48 <= c <= 57 {
        c - 48
    } else if 97 <= c <= 102 {
        c - 87
    } else if 65 <= c <= 70 {
        c - 55
    } else {
        -1
    }
}

/// Value of a hexadecimal digit character, or -1.
pub open spec fn hex_char_digit(c: char) -> int {
    if '0' <= c <= '9' {
        c as int - 48
    } else if 'a' <= c <= 'f' {
        c as int - 87
    } else if 'A' <= c <= 'F' {
        c as int - 55
    } else {
        -1
    }
}

/// The number written by hexadecimal digits.
pub open spec fn hex_number(s: Seq<char>) -> int
    decreases s.len(),
{
    if s.len() == 0 {
        0
    } else {
        hex_number(s.drop_last()) * 16 + hex_char_digit(s.last())
    }
}

/// One or more hexadecimal digits.
pub open spec fn hex_digits(s: Seq<char>) -> bool {
    s.len() >= 1 && forall|i: int| 0 <= i < s.len() ==> hex_char_digit(#[trigger] s[i]) >= 0
}

/// The digits of an unsigned number: after an optional `+`.
pub open spec fn unsigned_digits(s: Seq<char>) -> Seq<char> {
    if s.len() >= 1 && s[0] == '+' {
        s.skip(1)
    } else {
        s
    }
}

/// The number a text holds in base 16, if it holds one that fits in a `u64`.
pub open spec fn parse_hex_u64(s: Seq<char>) -> Option<u64> {
    let d = unsigned_digits(s);
    if hex_digits(d) && hex_number(d) <= u64::MAX {
        Some(hex_number(d) as u64)
    } else {
        None
    }
}

/// Pairs of hexadecimal digits, each pair one byte.
pub open spec fn hex_ok(data: Seq<u8>) -> bool {
    data.len() % 2 == 0 && forall|i: int| 0 <= i < data.len() ==> hex_digit(#[trigger] data[i]) >= 0
}

/// The bytes that pairs of hexadecimal digits stand for.
pub open spec fn hex_bytes(data: Seq<u8>) -> Seq<u8> {
    Seq::new(data.len() / 2, |i: int| (hex_digit(data[2 * i]) * 16 + hex_digit(data[2 * i + 1])) as u8)
}

/// `memchr::memchr3`: the first position of one of the three bytes.
#[verifier::external_body]
fn memchr3(n1: u8, n2: u8, n3: u8, haystack: &[u8]) -> (r: Option<usize>)
    ensures
        r matches Some(i) ==> i < haystack@.len() && (haystack@[i as int] == n1 || haystack@[i as int] == n2
            || haystack@[i as int] == n3) && forall|j: int| 0 <= j < i ==> #[trigger] haystack@[j] != n1 && haystack@[j]
            != n2 && haystack@[j] != n3,
        r is None ==> forall|j: int| 0 <= j < haystack@.len() ==> #[trigger] haystack@[j] != n1 && haystack@[j] != n2
            && haystack@[j] != n3,
{
    memchr::memchr3(n1, n2, n3, haystack)
}

/// `hex::decode_to_slice`: pairs of hexadecimal digits, upper or lower case, decoded into
/// `out`, which must have one byte per pair.
#[verifier::external_body]
fn hex_decode_to_slice(data: &[u8], out: &mut Vec<u8>) -> (r: bool)
    ensures
        final(out)@.len() == old(out)@.len(),
        r <==> hex_ok(data@) && data@.len() / 2 == old(out)@.len(),
        r ==> final(out)@ == hex_bytes(data@),
{
    hex::decode_to_slice(data, out.as_mut_slice()).is_ok()
}

/// `str::from_utf8`: the text that the bytes encode, if they are UTF-8.
#[verifier::external_body]
fn utf8_text(bytes: &[u8]) -> (r: Option<&str>)
    ensures
        r is Some <==> valid_utf8(bytes@),
        r matches Some(s) ==> s@ == decode_utf8(bytes@),
{
    std::str::from_utf8(bytes).ok()
}

/// `u64::from_str_radix` in base 16: an optional `+` then hexadecimal digits, upper or
/// lower case, whose number fits in a `u64`.
#[verifier::external_body]
fn u64_from_hex(s: &str) -> (r: Option<u64>)
    ensures
        r == parse_hex_u64(s@),
{
    u64::from_str_radix(s, 16).ok()
}

/// Why a tenet trace could not be read.
#[derive(Debug, Clone, Copy, PartialEq, Eq)]
pub enum TenetError {
    /// A field without `=0x` before its end.
    Malformed,
    InvalidUtf8,
    InvalidNumber,
    InvalidHex,
    /// More lines than times can count.
    TooManyLines,
}

/// A field of the trace once read.
pub enum FieldSpec {
    Memory { mode: MemoryMode, addr: u64, bytes: Seq<u8> },
    Register { name: Seq<char>, value: u64 },
    Slide(u64),
}

/// The mode of a memory field's key.
pub open spec fn memory_mode(key: Seq<u8>) -> Option<MemoryMode> {
    if key == seq![109u8, 114u8] {
        Some(MemoryMode::Read)
    } else if key == seq![109u8, 119u8] {
        Some(MemoryMode::Write)
    } else if key == seq![109u8, 114u8, 119u8] {
        Some(MemoryMode::ReadWrite)
    } else {
        None
    }
}

/// Position of the first `:`, if any.
pub open spec fn first_colon(s: Seq<u8>) -> Option<int> {
    if exists|c: int| 0 <= c < s.len() && s[c] == 58u8 {
        Some(choose|c: int| 0 <= c < s.len() && s[c] == 58u8 && forall|j: int| 0 <= j < c ==> s[j] != 58u8)
    } else {
        None
    }
}

/// A memory field of mode `mode` and value `value`: `address:bytes`.
pub open spec fn memory_field_spec(mode: MemoryMode, value: Seq<u8>) -> Result<FieldSpec, TenetError> {
    match first_colon(value) {
        None => Err(TenetError::Malformed),
        Some(c) => match parse_hex_u64(decode_utf8(value.take(c))) {
            None => Err(TenetError::InvalidNumber),
            Some(_) if !valid_utf8(value.take(c)) => Err(TenetError::InvalidNumber),
            Some(addr) => if hex_ok(value.skip(c + 1)) {
                Ok(FieldSpec::Memory { mode, addr, bytes: hex_bytes(value.skip(c + 1)) })
            } else {
                Err(TenetError::InvalidHex)
            },
        },
    }
}

/// Any other field: a register write, or the ASLR slide when the key is `slide`.
pub open spec fn other_field_spec(key: Seq<u8>, value: Seq<u8>) -> Result<FieldSpec, TenetError> {
    if !valid_utf8(key) {
        Err(TenetError::InvalidUtf8)
    } else {
        match parse_hex_u64(decode_utf8(value)) {
            None => Err(TenetError::InvalidNumber),
            Some(v) => if key == seq![115u8, 108u8, 105u8, 100u8, 101u8] {
                Ok(FieldSpec::Slide(v))
            } else {
                Ok(FieldSpec::Register { name: decode_utf8(key), value: v })
            },
        }
    }
}

/// The field between `start` and `end`, whose `=` is at `equal`: the key before it, the
/// value after `=0x`.
pub open spec fn field_spec(buffer: Seq<u8>, start: int, equal: int, end: int) -> Result<FieldSpec, TenetError> {
    if !(0 <= start <= equal && equal + 3 <= end <= buffer.len()) {
        Err(TenetError::Malformed)
    } else if !valid_utf8(buffer.subrange(equal + 3, end)) {
        Err(TenetError::InvalidUtf8)
    } else {
        match memory_mode(buffer.subrange(start, equal)) {
            Some(mode) => memory_field_spec(mode, buffer.subrange(equal + 3, end)),
            None => other_field_spec(buffer.subrange(start, equal), buffer.subrange(equal + 3, end)),
        }
    }
}

/// Law: the key of a memory field gives its mode: `mr` a read, `mw` a write, `mrw` a read
/// and write, and no other key a memory access. So of a field between `start` and `end`
/// with its `=` at `equal`, read at `time`, a key `mr` gives a read event, `mw` a write
/// event and `mrw` a read-write event, and any other key no memory event.
pub proof fn law_memory_keys_give_their_modes(buffer: Seq<u8>, start: int, equal: int, end: int, time: Time)
    requires
        0 <= start <= equal <= buffer.len(),
    ensures
        field_spec(buffer, start, equal, end) matches Ok(f) ==> {
            let key = buffer.subrange(start, equal);
            &&& key == seq![109u8, 114u8] ==> (event_of(f, time) matches EventView::Memory { mode, .. }
                && mode == MemoryMode::Read)
            &&& key == seq![109u8, 119u8] ==> (event_of(f, time) matches EventView::Memory { mode, .. }
                && mode == MemoryMode::Write)
            &&& key == seq![109u8, 114u8, 119u8] ==> (event_of(f, time) matches EventView::Memory { mode, .. }
                && mode == MemoryMode::ReadWrite)
            &&& !(key == seq![109u8, 114u8] || key == seq![109u8, 119u8] || key == seq![109u8, 114u8, 119u8])
                ==> !(event_of(f, time) is Memory)
        },
{
    let key = buffer.subrange(start, equal);
    assert(seq![109u8, 114u8] != seq![109u8, 119u8]) by {
        assert(seq![109u8, 114u8][1] != seq![109u8, 119u8][1]);
    }
    assert(seq![109u8, 114u8] != seq![109u8, 114u8, 119u8]) by {
        assert(seq![109u8, 114u8].len() != seq![109u8, 114u8, 119u8].len());
    }
    assert(seq![109u8, 119u8] != seq![109u8, 114u8, 119u8]) by {
        assert(seq![109u8, 119u8].len() != seq![109u8, 114u8, 119u8].len());
    }
    if let Ok(f) = field_spec(buffer, start, equal, end) {
        let value = buffer.subrange(equal + 3, end);
        match memory_mode(key) {
            Some(mode) => {
                assert(memory_field_spec(mode, value) == Ok::<FieldSpec, TenetError>(f));
            },
            None => {
                assert(other_field_spec(key, value) == Ok::<FieldSpec, TenetError>(f));
            },
        }
    }
}

/// A read field matches its statement.
pub open spec fn field_matches(r: Result<Field, TenetError>, s: Result<FieldSpec, TenetError>, hex: Seq<u8>) -> bool {
    match (r, s) {
        (Ok(Field::Memory { mode, addr }), Ok(FieldSpec::Memory { mode: m, addr: a, bytes })) => mode == m && addr == a && hex == bytes,
        (Ok(Field::Register { name, value }), Ok(FieldSpec::Register { name: n, value: v })) => name@ == n && value == v,
        (Ok(Field::Slide(v)), Ok(FieldSpec::Slide(w))) => v == w,
        (Err(e), Err(f)) => e == f,
        _ => false,
    }
}

/// A field once read: a memory access (its bytes are left in the decoding buffer), a
/// register write, or the ASLR slide.
pub enum Field<'a> {
    Memory { mode: MemoryMode, addr: u64 },
    Register { name: &'a str, value: u64 },
    Slide(u64),
}

/// The bytes are those of the text.
fn bytes_eq(a: &[u8], b: &[u8]) -> (r: bool)
    ensures
        r == (a@ == b@),
{
    if a.len() != b.len() {
        return false;
    }
    let mut i: usize = 0;
    while i < a.len()
        invariant
            i <= a@.len() == b@.len(),
            forall|k: int| 0 <= k < i ==> a@[k] == b@[k],
        decreases a@.len() - i,
    {
        if a[i] != b[i] {
            return false;
        }
        i = i + 1;
    }
    assert(a@ =~= b@);
    true
}

/// The mode of a memory field's key.
fn memory_mode_exec(key: &[u8]) -> (r: Option<MemoryMode>)
    ensures
        r == memory_mode(key@),
        key@ == seq![109u8, 114u8] ==> r == Some(MemoryMode::Read),
        key@ == seq![109u8, 119u8] ==> r == Some(MemoryMode::Write),
        key@ == seq![109u8, 114u8, 119u8] ==> r == Some(MemoryMode::ReadWrite),
{
    let mr: [u8; 2] = [109u8, 114u8];
    let mw: [u8; 2] = [109u8, 119u8];
    let mrw: [u8; 3] = [109u8, 114u8, 119u8];
    assert(mr@ =~= seq![109u8, 114u8]);
    assert(mw@ =~= seq![109u8, 119u8]);
    assert(mrw@ =~= seq![109u8, 114u8, 119u8]);
    assert(seq![109u8, 114u8, 119u8].len() != seq![109u8, 114u8].len());
    assert(seq![109u8, 114u8, 119u8].len() != seq![109u8, 119u8].len());
    assert(seq![109u8, 114u8][1] != seq![109u8, 119u8][1]);
    if bytes_eq(key, mr.as_slice()) {
        Some(MemoryMode::Read)
    } else if bytes_eq(key, mw.as_slice()) {
        Some(MemoryMode::Write)
    } else if bytes_eq(key, mrw.as_slice()) {
        Some(MemoryMode::ReadWrite)
    } else {
        None
    }
}

/// Position of the first `:`.
fn find_colon(s: &[u8]) -> (r: Option<usize>)
    ensures
        r matches Some(c) ==> first_colon(s@) == Some(c as int) && c < s@.len() && s@[c as int] == 58u8,
        r is None ==> first_colon(s@) is None,
{
    let mut i: usize = 0;
    while i < s.len()
        invariant
            i <= s@.len(),
            forall|j: int| 0 <= j < i ==> s@[j] != 58u8,
        decreases s@.len() - i,
    {
        if s[i] == 58u8 {
            proof {
                let c = choose|c: int| 0 <= c < s@.len() && s@[c] == 58u8 && forall|j: int| 0 <= j < c ==> s@[j] != 58u8;
                assert(0 <= i < s@.len() && s@[i as int] == 58u8 && forall|j: int| 0 <= j < i ==> s@[j] != 58u8);
                if c < i {
                } else if c > i {
                    assert(s@[i as int] != 58u8);
                }
            }
            return Some(i);
        }
        i = i + 1;
    }
    None
}

/// Read a memory field's value; its bytes go to `hex`.
#[verifier::rlimit(40)]
fn parse_memory(mode: MemoryMode, value: &[u8], hex: &mut Vec<u8>) -> (r: Result<Field<'static>, TenetError>)
    ensures
        field_matches(r, memory_field_spec(mode, value@), final(hex)@),
{
    let c = match find_colon(value) {
        Some(c) => c,
        None => {
            return Err(TenetError::Malformed);
        },
    };
    let addr_bytes = slice_subrange(value, 0, c);
    assert(addr_bytes@ =~= value@.take(c as int));
    let addr = match utf8_text(addr_bytes) {
        Some(t) => match u64_from_hex(t) {
            Some(a) => a,
            None => {
                return Err(TenetError::InvalidNumber);
            },
        },
        None => {
            return Err(TenetError::InvalidNumber);
        },
    };
    let vlen = value.len();
    assert(c < vlen);
    let data = slice_subrange(value, c + 1, vlen);
    assert(data@ =~= value@.skip(c + 1));
    let required = data.len() / 2;
    hex.clear();
    let mut k: usize = 0;
    while k < required
        invariant
            k <= required,
            hex@.len() == k,
        decreases required - k,
    {
        hex.push(0u8);
        k = k + 1;
    }
    if !hex_decode_to_slice(data, hex) {
        return Err(TenetError::InvalidHex);
    }
    Ok(Field::Memory { mode, addr })
}

/// Read any other field: a register write, or the ASLR slide.
fn parse_other<'a>(key: &'a [u8], value: &'a [u8]) -> (r: Result<Field<'a>, TenetError>)
    requires
        valid_utf8(value@),
    ensures
        forall|h: Seq<u8>| field_matches(r, other_field_spec(key@, value@), h),
{
    let name = match utf8_text(key) {
        Some(n) => n,
        None => {
            return Err(TenetError::InvalidUtf8);
        },
    };
    let text = match utf8_text(value) {
        Some(t) => t,
        None => {
            return Err(TenetError::InvalidNumber);
        },
    };
    let v = match u64_from_hex(text) {
        Some(v) => v,
        None => {
            return Err(TenetError::InvalidNumber);
        },
    };
    let slide: [u8; 5] = [115u8, 108u8, 105u8, 100u8, 101u8];
    assert(slide@ =~= seq![115u8, 108u8, 105u8, 100u8, 101u8]);
    if bytes_eq(key, slide.as_slice()) {
        Ok(Field::Slide(v))
    } else {
        Ok(Field::Register { name, value: v })
    }
}

/// Read the field between `start` and `end`, whose `=` is at `equal`; the bytes of a
/// memory field go to `hex`.
pub fn parse_field<'a>(buffer: &'a [u8], start: usize, equal: usize, end: usize, hex: &mut Vec<u8>) -> (r: Result<Field<'a>, TenetError>)
    ensures
        field_matches(r, field_spec(buffer@, start as int, equal as int, end as int), final(hex)@),
        start <= equal <= buffer@.len() && buffer@.subrange(start as int, equal as int) == seq![109u8, 114u8] ==> (
        r matches Ok(f) ==> (f matches Field::Memory { mode, .. } && mode == MemoryMode::Read)),
        start <= equal <= buffer@.len() && buffer@.subrange(start as int, equal as int) == seq![109u8, 119u8] ==> (
        r matches Ok(f) ==> (f matches Field::Memory { mode, .. } && mode == MemoryMode::Write)),
        start <= equal <= buffer@.len() && buffer@.subrange(start as int, equal as int) == seq![109u8, 114u8, 119u8]
            ==> (r matches Ok(f) ==> (f matches Field::Memory { mode, .. } && mode == MemoryMode::ReadWrite)),
{
    if !(start <= equal && equal <= end && end - equal >= 3 && end <= buffer.len()) {
        return Err(TenetError::Malformed);
    }
    let key = slice_subrange(buffer, start, equal);
    let value = slice_subrange(buffer, equal + 3, end);
    if utf8_text(value).is_none() {
        return Err(TenetError::InvalidUtf8);
    }
    match memory_mode_exec(key) {
        Some(mode) => parse_memory(mode, value, hex),
        None => parse_other(key, value),
    }
}

/// A field delimiter: end of line, `=`, or `,`.
pub open spec fn is_delimiter(b: u8) -> bool {
    b == 10u8 || b == 61u8 || b == 44u8
}

/// Position of the first delimiter at or after `pos`.
pub open spec fn next_delimiter(buf: Seq<u8>, pos: int) -> Option<int>
    decreases buf.len() - pos,
{
    if pos < 0 || pos >= buf.len() {
        None
    } else if is_delimiter(buf[pos]) {
        Some(pos)
    } else {
        next_delimiter(buf, pos + 1)
    }
}

/// The event a field stands for, at `time`.
pub open spec fn event_of(f: FieldSpec, time: Time) -> EventView {
    match f {
        FieldSpec::Memory { mode, addr, bytes } => EventView::Memory { time, addr, bytes, mode },
        FieldSpec::Register { name, value } => EventView::Register { time, name, value },
        FieldSpec::Slide(v) => EventView::Slide(v),
    }
}

/// The events of the trace from `pos` on, the current field starting at `start` with its
/// `=` at `equal`, at `time`; and the error that stops the trace, if any. A field ends at
/// a comma or at the end of a line, which adds one to the time first.
pub open spec fn tenet_scan(buf: Seq<u8>, pos: int, start: int, equal: int, time: int) -> (Seq<EventView>, Option<TenetError>)
    decreases buf.len() - pos,
{
    match next_delimiter(buf, pos) {
        None => (Seq::empty(), None),
        Some(idx) => if idx < pos || idx >= buf.len() {
            (Seq::empty(), None)
        } else if buf[idx] == 61u8 {
            tenet_scan(buf, idx + 1, start, idx, time)
        } else {
            let t = if buf[idx] == 10u8 { time + 1 } else { time };
            if t > u32::MAX {
                (Seq::empty(), Some(TenetError::TooManyLines))
            } else {
                match field_spec(buf, start, equal, idx) {
                    Err(e) => (Seq::empty(), Some(e)),
                    Ok(f) => {
                        let rest = tenet_scan(buf, idx + 1, idx + 1, equal, t);
                        (seq![event_of(f, t as u32)] + rest.0, rest.1)
                    },
                }
            }
        },
    }
}

/// The events of the whole trace, and the error that stops it, if any.
pub open spec fn tenet_events(buf: Seq<u8>) -> (Seq<EventView>, Option<TenetError>) {
    tenet_scan(buf, 0, 0, usize::MAX as int, 0)
}

/// The first delimiter found from `pos` is the next one.
proof fn lemma_next_delimiter(buf: Seq<u8>, pos: int, k: int)
    requires
        0 <= pos <= k < buf.len(),
        is_delimiter(buf[k]),
        forall|j: int| pos <= j < k ==> !is_delimiter(#[trigger] buf[j]),
    ensures
        next_delimiter(buf, pos) == Some(k),
    decreases k - pos,
{
    if pos < k {
        lemma_next_delimiter(buf, pos + 1, k);
    }
}

/// No delimiter from `pos` on.
proof fn lemma_no_delimiter(buf: Seq<u8>, pos: int)
    requires
        0 <= pos,
        forall|j: int| pos <= j < buf.len() ==> !is_delimiter(#[trigger] buf[j]),
    ensures
        next_delimiter(buf, pos) is None,
    decreases buf.len() - pos,
{
    if pos < buf.len() {
        lemma_no_delimiter(buf, pos + 1);
    }
}

/// Hand a field to the sink as the event it stands for.
fn emit_field<E: EventSink>(sink: &mut E, field: Field<'_>, time: Time, hex: &Vec<u8>, Ghost(f): Ghost<FieldSpec>)
    requires
        old(sink).inv(),
        field_matches(Ok(field), Ok(f), hex@),
    ensures
        final(sink).inv(),
        final(sink).received() == old(sink).received().push(event_of(f, time)),
        final(sink).origin() == old(sink).origin(),
{
    match field {
        Field::Memory { mode, addr } => {
            let event = RawEvent::TimedEvent { time, event: TimedRawEvent::Memory { addr, bytes: hex.as_slice(), mode } };
            assert(raw_view(event) == event_of(f, time));
            sink.emit(event);
        },
        Field::Register { name, value } => {
            let event = RawEvent::TimedEvent { time, event: TimedRawEvent::Register { name, value } };
            assert(raw_view(event) == event_of(f, time));
            sink.emit(event);
        },
        Field::Slide(value) => {
            let event = RawEvent::AslrSlide(value);
            assert(raw_view(event) == event_of(f, time));
            sink.emit(event);
        },
    }
}

/// A trace in the tenet format, held in memory.
pub struct TenetParser<'a> {
    pub buffer: &'a [u8],
    /// Why the last parse stopped early, if it did.
    pub error: Option<TenetError>,
}

impl<'a> TenetParser<'a> {
    pub fn new(buffer: &'a [u8]) -> (r: Self)
        ensures
            r.buffer@ == buffer@,
            r.error is None,
    {
        TenetParser { buffer, error: None }
    }
}

impl<'a> TraceParser for TenetParser<'a> {
    open spec fn events(&self) -> Seq<EventView> {
        tenet_events(self.buffer@).0
    }

    /// Every field ends at a comma or at the end of its line, which is one instruction
    /// more: the time of the fields that follow, and of the field that ends the line.
    /// The first field that cannot be read stops the parse, and is kept in `error`.
    #[verifier::rlimit(60)]
    #[verifier::spinoff_prover]
    fn parse<E: EventSink, P: ProgressReporter>(&mut self, progress: &mut P, sink: &mut E)
        ensures
            final(self).buffer == old(self).buffer,
            final(sink).received() == old(sink).received() + tenet_events(old(self).buffer@).0,
            final(self).error == tenet_events(old(self).buffer@).1,
    {
        self.error = None;
        let buffer = self.buffer;
        let ghost buf = buffer@;
        let ghost r0 = sink.received();
        let ghost mut emitted: Seq<EventView> = Seq::empty();
        progress.total(buffer.len());
        let mut time: Time = 0;
        let mut hex: Vec<u8> = Vec::new();
        let mut event_start: usize = 0;
        let mut equal: usize = usize::MAX;
        let mut pos: usize = 0;
        while pos < buffer.len()
            invariant_except_break
                pos <= buffer@.len(),
            invariant
                buf == buffer@,
                buffer == old(self).buffer,
                self.buffer == old(self).buffer,
                self.error is None,
                sink.inv(),
                sink.origin() == old(sink).origin(),
                r0 == old(sink).received(),
                sink.received() == r0 + emitted,
                tenet_events(buf) == (
                    emitted + tenet_scan(buf, pos as int, event_start as int, equal as int, time as int).0,
                    tenet_scan(buf, pos as int, event_start as int, equal as int, time as int).1,
                ),
            ensures
                tenet_scan(buf, pos as int, event_start as int, equal as int, time as int) == (Seq::<EventView>::empty(), None::<TenetError>),
            decreases buffer@.len() - pos,
        {
            let ghost state = tenet_scan(buf, pos as int, event_start as int, equal as int, time as int);
            let rest = slice_subrange(buffer, pos, buffer.len());
            let found = memchr3(10u8, 61u8, 44u8, rest);
            if found.is_none() {
                proof {
                    assert forall|j: int| pos <= j < buf.len() implies !is_delimiter(#[trigger] buf[j]) by {
                        assert(rest@[j - pos] == buf[j]);
                    }
                    lemma_no_delimiter(buf, pos as int);
                }
                break;
            }
            let idx = pos + found.unwrap();
            proof {
                assert forall|j: int| pos <= j < idx implies !is_delimiter(#[trigger] buf[j]) by {
                    assert(rest@[j - pos] == buf[j]);
                }
                assert(rest@[idx - pos] == buf[idx as int]);
                lemma_next_delimiter(buf, pos as int, idx as int);
            }
            let c = buffer[idx];
            if c == 61u8 {
                equal = idx;
            } else {
                if c == 10u8 {
                    time = match time.checked_add(1) {
                        Some(t) => t,
                        None => {
                            self.error = Some(TenetError::TooManyLines);
                            proof {
                                assert(state == (Seq::<EventView>::empty(), Some(TenetError::TooManyLines)));
                                assert(emitted + Seq::<EventView>::empty() =~= emitted);
                            }
                            return;
                        },
                    };
                    if time % 1024 == 0 {
                        progress.current(idx);
                    }
                }
                let ghost spec_field = field_spec(buf, event_start as int, equal as int, idx as int);
                match parse_field(buffer, event_start, equal, idx, &mut hex) {
                    Err(e) => {
                        self.error = Some(e);
                        proof {
                            assert(spec_field == Err::<FieldSpec, TenetError>(e));
                            assert(state == (Seq::<EventView>::empty(), Some(e)));
                            assert(emitted + Seq::<EventView>::empty() =~= emitted);
                        }
                        return;
                    },
                    Ok(field) => {
                        emit_field(sink, field, time, &hex, Ghost(spec_field->Ok_0));
                        proof {
                            emitted = emitted.push(event_of(spec_field->Ok_0, time));
                        }
                    },
                }
                proof {
                    let next = tenet_scan(buf, idx + 1, idx + 1, equal as int, time as int);
                    assert(state == (seq![emitted.last()] + next.0, next.1));
                    assert(emitted.drop_last() + state.0 =~= emitted + next.0);
                }
                event_start = idx + 1;
            }
            pos = idx + 1;
        }
        proof {
            assert(emitted + Seq::<EventView>::empty() =~= emitted);
        }
    }
}

} // verus!
