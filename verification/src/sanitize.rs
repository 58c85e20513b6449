//! Cleaning of terminal output before it is stored as a log line.
//!
//! A raw line loses its line ending, is cut down to the text after its last
//! carriage return, and has escape sequences and control bytes removed.
use vstd::prelude::*;
use vstd::string::StringSliceAdditionalSpecFns;
use vstd::utf8::*;

verus! {

/// The escape byte, which starts every escape sequence.
pub const ESC: u8 = 0x1b;

/// The bell byte, which ends an operating-system command.
pub const BEL: u8 = 0x07;

/// The one control byte that cleaning keeps.
pub const TAB: u8 = 0x09;

/// The line feed, which ends a line.
pub const LF: u8 = 0x0a;

/// The carriage return, which takes the cursor back to the start of the line.
pub const CR: u8 = 0x0d;

/// An ASCII control byte other than TAB. No such byte survives cleaning.
pub open spec fn is_stripped_control(b: u8) -> bool {
    (b < 0x20 || b == 0x7f) && b != TAB
}

/// Whether `s[i]` and `s[i + 1]` are the string terminator `ESC \`.
pub open spec fn string_terminator_at(s: Seq<u8>, i: int) -> bool {
    0 <= i && i + 1 < s.len() && s[i] == ESC && s[i + 1] == 0x5c
}

/// Index just past a control sequence whose parameters start at `i` (after
/// `ESC [`): it runs up to and including the first byte in `0x40..=0x7e`, or
/// to the end of input.
pub open spec fn csi_end(s: Seq<u8>, i: int) -> int
    decreases s.len() - i,
{
    if i < 0 || i >= s.len() {
        s.len() as int
    } else if 0x40 <= s[i] <= 0x7e {
        i + 1
    } else {
        csi_end(s, i + 1)
    }
}

/// Index just past an operating-system command whose payload starts at `i`
/// (after `ESC ]`): it ends with BEL or with `ESC \`, or at the end of input.
pub open spec fn osc_end(s: Seq<u8>, i: int) -> int
    decreases s.len() - i,
{
    if i < 0 || i >= s.len() {
        s.len() as int
    } else if s[i] == BEL {
        i + 1
    } else if string_terminator_at(s, i) {
        i + 2
    } else {
        osc_end(s, i + 1)
    }
}

/// Index just past a device-control, start-of-string, privacy or application
/// string whose payload starts at `i`: it ends with `ESC \`, or at the end of
/// input.
pub open spec fn st_end(s: Seq<u8>, i: int) -> int
    decreases s.len() - i,
{
    if i < 0 || i >= s.len() {
        s.len() as int
    } else if string_terminator_at(s, i) {
        i + 2
    } else {
        st_end(s, i + 1)
    }
}

/// Index just past the escape sequence that starts with the ESC at `i`.
pub open spec fn escape_end(s: Seq<u8>, i: int) -> int {
    if i + 1 >= s.len() {
        s.len() as int
    } else if s[i + 1] == 0x5b {
        csi_end(s, i + 2)
    } else if s[i + 1] == 0x5d {
        osc_end(s, i + 2)
    } else if s[i + 1] == 0x50 || s[i + 1] == 0x58 || s[i + 1] == 0x5e || s[i + 1] == 0x5f {
        st_end(s, i + 2)
    } else {
        i + 2
    }
}

/// What is left of `s[i..]` once escape sequences and control bytes are gone.
pub open spec fn strip_from(s: Seq<u8>, i: int) -> Seq<u8>
    decreases s.len() - i,
{
    if i < 0 || i >= s.len() {
        Seq::empty()
    } else if s[i] == ESC {
        if i < escape_end(s, i) <= s.len() {
            strip_from(s, escape_end(s, i))
        } else {
            Seq::empty()
        }
    } else if is_stripped_control(s[i]) {
        strip_from(s, i + 1)
    } else {
        seq![s[i]] + strip_from(s, i + 1)
    }
}

/// The bytes of `s` with escape sequences and control bytes removed.
pub open spec fn strip_escapes(s: Seq<u8>) -> Seq<u8> {
    strip_from(s, 0)
}

/// Start of the last segment among the first `n` bytes of `s`: just past the
/// last carriage return, or 0 when there is none.
pub open spec fn segment_start(s: Seq<u8>, n: int) -> int
    decreases n,
{
    if n <= 0 || n > s.len() {
        0
    } else if s[n - 1] == CR {
        n
    } else {
        segment_start(s, n - 1)
    }
}

/// The text after the last carriage return: what a terminal would show once
/// a progress display has overwritten the line.
pub open spec fn last_segment(s: Seq<u8>) -> Seq<u8> {
    s.skip(segment_start(s, s.len() as int))
}

/// The bytes of a log line once cleaned: last segment, then stripped.
pub open spec fn sanitize_bytes(s: Seq<u8>) -> Seq<u8> {
    strip_escapes(last_segment(s))
}

/// No byte of `s` is an escape or another control byte but TAB.
pub open spec fn is_clean(s: Seq<u8>) -> bool {
    forall|i: int| 0 <= i < s.len() ==> !is_stripped_control(#[trigger] s[i])
}

/// The text that lossy decoding makes of bytes that are not valid UTF-8.
pub uninterp spec fn utf8_repaired(bytes: Seq<u8>) -> Seq<char>;

/// Lossy decoding: valid UTF-8 decodes to its characters, anything else to
/// its repaired text.
pub open spec fn decode_lossy(bytes: Seq<u8>) -> Seq<char> {
    if valid_utf8(bytes) {
        decode_utf8(bytes)
    } else {
        utf8_repaired(bytes)
    }
}

/// The cleaned form of a line of text.
pub open spec fn sanitize_text(line: Seq<char>) -> Seq<char> {
    decode_lossy(sanitize_bytes(encode_utf8(line)))
}

/// No character of `text` is an ASCII control character other than TAB.
pub open spec fn has_no_controls(text: Seq<char>) -> bool {
    forall|i: int|
        0 <= i < text.len() ==> !(((#[trigger] text[i]) as u32) < 0x80 && is_stripped_control(
            text[i] as u8,
        ))
}

/// A raw line without its line ending: one trailing LF goes, then one
/// trailing CR.
pub open spec fn trim_line_ending(raw: Seq<u8>) -> Seq<u8> {
    let no_lf = if raw.len() > 0 && raw.last() == LF {
        raw.drop_last()
    } else {
        raw
    };
    if no_lf.len() > 0 && no_lf.last() == CR {
        no_lf.drop_last()
    } else {
        no_lf
    }
}

/// The log line that a raw line of output becomes, if any: a line that was
/// not empty but is empty once cleaned showed nothing and is dropped.
pub open spec fn log_line_of(raw: Seq<u8>) -> Option<Seq<char>> {
    let decoded = decode_lossy(trim_line_ending(raw));
    let line = sanitize_text(decoded);
    if line.len() == 0 && decoded.len() != 0 {
        None
    } else {
        Some(line)
    }
}

/// `String::from_utf8_lossy`, copied into an owned string. Valid UTF-8 comes
/// back as the text it encodes; otherwise each invalid sequence is replaced by
/// U+FFFD, so every ASCII character of the result is a byte of the input.
#[verifier::external_body]
fn utf8_lossy(bytes: &[u8]) -> (text: String)
    ensures
        text@ == (if valid_utf8(bytes@) {
            decode_utf8(bytes@)
        } else {
            utf8_repaired(bytes@)
        }),
        forall|i: int|
            0 <= i < text@.len() && ((#[trigger] text@[i]) as u32) < 0x80 ==> bytes@.contains(
                text@[i] as u8,
            ),
{
    String::from_utf8_lossy(bytes).into_owned()
}

proof fn lemma_csi_end_bounds(s: Seq<u8>, i: int)
    requires
        0 <= i <= s.len(),
    ensures
        i <= csi_end(s, i) <= s.len(),
        i < s.len() ==> i < csi_end(s, i),
    decreases s.len() - i,
{
    if i < s.len() && !(0x40 <= s[i] <= 0x7e) {
        lemma_csi_end_bounds(s, i + 1);
    }
}

proof fn lemma_osc_end_bounds(s: Seq<u8>, i: int)
    requires
        0 <= i <= s.len(),
    ensures
        i <= osc_end(s, i) <= s.len(),
        i < s.len() ==> i < osc_end(s, i),
    decreases s.len() - i,
{
    if i < s.len() && s[i] != BEL && !string_terminator_at(s, i) {
        lemma_osc_end_bounds(s, i + 1);
    }
}

proof fn lemma_st_end_bounds(s: Seq<u8>, i: int)
    requires
        0 <= i <= s.len(),
    ensures
        i <= st_end(s, i) <= s.len(),
        i < s.len() ==> i < st_end(s, i),
    decreases s.len() - i,
{
    if i < s.len() && !string_terminator_at(s, i) {
        lemma_st_end_bounds(s, i + 1);
    }
}

/// An escape sequence is never empty and never runs past the input.
pub proof fn lemma_escape_end_bounds(s: Seq<u8>, i: int)
    requires
        0 <= i < s.len(),
    ensures
        i < escape_end(s, i) <= s.len(),
{
    if i + 1 < s.len() {
        lemma_csi_end_bounds(s, i + 2);
        lemma_osc_end_bounds(s, i + 2);
        lemma_st_end_bounds(s, i + 2);
    }
}

/// Stripping leaves no escape and no control byte but TAB.
pub proof fn lemma_strip_is_clean(s: Seq<u8>, i: int)
    requires
        0 <= i <= s.len(),
    ensures
        is_clean(strip_from(s, i)),
    decreases s.len() - i,
{
    if i < s.len() {
        if s[i] == ESC {
            lemma_escape_end_bounds(s, i);
            lemma_strip_is_clean(s, escape_end(s, i));
        } else {
            lemma_strip_is_clean(s, i + 1);
        }
    }
}

/// Stripping changes nothing in bytes that are already clean.
pub proof fn lemma_strip_clean_is_identity(s: Seq<u8>, i: int)
    requires
        0 <= i <= s.len(),
        is_clean(s),
    ensures
        strip_from(s, i) == s.skip(i),
    decreases s.len() - i,
{
    if i < s.len() {
        assert(!is_stripped_control(s[i]));
        lemma_strip_clean_is_identity(s, i + 1);
        assert(seq![s[i]] + s.skip(i + 1) =~= s.skip(i));
    } else {
        assert(s.skip(i) =~= Seq::<u8>::empty());
    }
}

/// Bytes without a carriage return are their own last segment.
pub proof fn lemma_segment_start_clean(s: Seq<u8>, n: int)
    requires
        0 <= n <= s.len(),
        is_clean(s),
    ensures
        segment_start(s, n) == 0,
    decreases n,
{
    if n > 0 {
        assert(!is_stripped_control(s[n - 1]));
        lemma_segment_start_clean(s, n - 1);
    }
}

/// Cleaning twice is cleaning once, on bytes.
pub proof fn lemma_sanitize_bytes_idempotent(s: Seq<u8>)
    ensures
        is_clean(sanitize_bytes(s)),
        sanitize_bytes(sanitize_bytes(s)) == sanitize_bytes(s),
{
    let t = sanitize_bytes(s);
    lemma_strip_is_clean(last_segment(s), 0);
    lemma_sanitize_clean_bytes(t);
}

/// Cleaning changes nothing in bytes that are already clean.
pub proof fn lemma_sanitize_clean_bytes(t: Seq<u8>)
    requires
        is_clean(t),
    ensures
        sanitize_bytes(t) == t,
{
    lemma_segment_start_clean(t, t.len() as int);
    assert(last_segment(t) =~= t);
    lemma_strip_clean_is_identity(t, 0);
    assert(t.skip(0) =~= t);
}

proof fn lemma_encode_scalar_ascii(c: char)
    ensures
        forall|j: int|
            0 <= j < encode_scalar(c as u32).len() && (#[trigger] encode_scalar(c as u32)[j])
                < 0x80 ==> (c as u32) < 0x80 && encode_scalar(c as u32)[j] == c as u8,
{
    let v = c as u32;
    char_is_scalar(c);
    if has_width_1_encoding(v) {
        assert(leading_byte_width_1(v) == v as u8) by (bit_vector)
            requires
                v <= 0x7f,
        ;
    } else {
        assert(leading_byte_width_2(v) >= 0x80 && leading_byte_width_3(v) >= 0x80
            && leading_byte_width_4(v) >= 0x80 && last_continuation_byte(v) >= 0x80
            && second_last_continuation_byte(v) >= 0x80 && third_last_continuation_byte(v)
            >= 0x80) by (bit_vector);
    }
}

/// Every ASCII byte in the encoding of a text is one of its characters.
#[verifier::rlimit(40)]
pub proof fn lemma_encode_ascii_bytes(text: Seq<char>)
    ensures
        forall|j: int|
            0 <= j < encode_utf8(text).len() && (#[trigger] encode_utf8(text)[j]) < 0x80
                ==> exists|i: int|
                0 <= i < text.len() && ((#[trigger] text[i]) as u32) < 0x80 && text[i] as u8
                    == encode_utf8(text)[j],
    decreases text.len(),
{
    if text.len() > 0 {
        let head = encode_scalar(text[0] as u32);
        let rest = text.drop_first();
        lemma_encode_scalar_ascii(text[0]);
        lemma_encode_ascii_bytes(rest);
        assert forall|j: int|
            0 <= j < encode_utf8(text).len() && (#[trigger] encode_utf8(text)[j])
                < 0x80 implies exists|i: int|
            0 <= i < text.len() && ((#[trigger] text[i]) as u32) < 0x80 && text[i] as u8
                == encode_utf8(text)[j] by {
            if j < head.len() {
                assert(encode_utf8(text)[j] == head[j]);
                assert((text[0] as u32) < 0x80);
            } else {
                let k = j - head.len();
                assert(encode_utf8(text)[j] == encode_utf8(rest)[k]);
                let i = choose|i: int|
                    0 <= i < rest.len() && ((#[trigger] rest[i]) as u32) < 0x80 && rest[i] as u8
                        == encode_utf8(rest)[k];
                assert(text[i + 1] == rest[i]);
            }
        }
    }
}

/// A text without control characters encodes to clean bytes.
pub proof fn lemma_encode_is_clean(text: Seq<char>)
    requires
        has_no_controls(text),
    ensures
        is_clean(encode_utf8(text)),
{
    lemma_encode_ascii_bytes(text);
    let bytes = encode_utf8(text);
    assert forall|j: int| 0 <= j < bytes.len() implies !is_stripped_control(
        #[trigger] bytes[j],
    ) by {
        if bytes[j] < 0x80 {
            let i = choose|i: int|
                0 <= i < text.len() && ((#[trigger] text[i]) as u32) < 0x80 && text[i] as u8
                    == bytes[j];
            assert(!is_stripped_control(text[i] as u8));
        }
    }
}

/// Cleaning changes nothing in a text without control characters.
pub proof fn lemma_sanitize_text_fixed(text: Seq<char>)
    requires
        has_no_controls(text),
    ensures
        sanitize_text(text) == text,
{
    lemma_encode_is_clean(text);
    lemma_sanitize_clean_bytes(encode_utf8(text));
    encode_utf8_valid_utf8(text);
    encode_utf8_decode_utf8(text);
}

/// Removes escape sequences and control bytes from `input`:
/// `ESC [ ..` up to a final byte in `0x40..=0x7e`, `ESC ] ..` up to BEL or
/// `ESC \`, `ESC` followed by `P`, `X`, `^` or `_` up to `ESC \`, any other
/// `ESC` with the byte after it, and every ASCII control byte but TAB.
#[verifier::rlimit(40)]
pub fn strip_escape_bytes(input: &[u8]) -> (cleaned: Vec<u8>)
    ensures
        cleaned@ == strip_escapes(input@),
        is_clean(cleaned@),
{
    let len = input.len();
    let mut cleaned: Vec<u8> = Vec::new();
    let mut index: usize = 0;
    while index < len
        invariant
            len == input@.len(),
            index <= len,
            cleaned@ + strip_from(input@, index as int) == strip_escapes(input@),
        decreases len - index,
    {
        let byte = input[index];
        if byte == ESC {
            proof {
                lemma_escape_end_bounds(input@, index as int);
            }
            if index + 1 >= len {
                index = len;
            } else {
                let next = input[index + 1];
                let mut cursor: usize = index + 2;
                if next == 0x5b {
                    let mut done = false;
                    while !done && cursor < len
                        invariant
                            len == input@.len(),
                            index + 2 <= cursor <= len,
                            !done ==> csi_end(input@, cursor as int) == csi_end(
                                input@,
                                index + 2,
                            ),
                            done ==> cursor as int == csi_end(input@, index + 2),
                        decreases len - cursor + (if done { 0int } else { 1int }),
                    {
                        let b = input[cursor];
                        cursor += 1;
                        if 0x40 <= b && b <= 0x7e {
                            done = true;
                        }
                    }
                } else if next == 0x5d {
                    let mut done = false;
                    while !done && cursor < len
                        invariant
                            len == input@.len(),
                            index + 2 <= cursor <= len,
                            !done ==> osc_end(input@, cursor as int) == osc_end(
                                input@,
                                index + 2,
                            ),
                            done ==> cursor as int == osc_end(input@, index + 2),
                        decreases len - cursor + (if done { 0int } else { 1int }),
                    {
                        if input[cursor] == BEL {
                            cursor += 1;
                            done = true;
                        } else if input[cursor] == ESC && cursor + 1 < len && input[cursor + 1]
                            == 0x5c {
                            cursor += 2;
                            done = true;
                        } else {
                            cursor += 1;
                        }
                    }
                } else if next == 0x50 || next == 0x58 || next == 0x5e || next == 0x5f {
                    let mut done = false;
                    while !done && cursor < len
                        invariant
                            len == input@.len(),
                            index + 2 <= cursor <= len,
                            !done ==> st_end(input@, cursor as int) == st_end(input@, index + 2),
                            done ==> cursor as int == st_end(input@, index + 2),
                        decreases len - cursor + (if done { 0int } else { 1int }),
                    {
                        if input[cursor] == ESC && cursor + 1 < len && input[cursor + 1] == 0x5c {
                            cursor += 2;
                            done = true;
                        } else {
                            cursor += 1;
                        }
                    }
                }
                assert(cursor as int == escape_end(input@, index as int));
                index = cursor;
            }
        } else if (byte < 0x20 || byte == 0x7f) && byte != TAB {
            index += 1;
        } else {
            proof {
                let rest = strip_from(input@, index + 1);
                assert(cleaned@.push(byte) + rest =~= cleaned@ + (seq![byte] + rest));
            }
            cleaned.push(byte);
            index += 1;
        }
    }
    proof {
        assert(cleaned@ + Seq::<u8>::empty() =~= cleaned@);
        lemma_strip_is_clean(input@, 0);
    }
    cleaned
}

/// The text of `input` with escape sequences and control bytes removed.
/// Where an escape cuts a character in two, the bytes left over are decoded
/// lossily.
pub fn strip_ansi_escape_sequences(input: &str) -> (text: String)
    ensures
        text@ == decode_lossy(strip_escapes(input.spec_bytes())),
        has_no_controls(text@),
{
    let cleaned = strip_escape_bytes(input.as_bytes());
    let text = utf8_lossy(cleaned.as_slice());
    proof {
        lemma_lossy_of_clean(cleaned@, text@);
    }
    text
}

/// A text whose ASCII characters all come from clean bytes has no control
/// characters.
proof fn lemma_lossy_of_clean(bytes: Seq<u8>, text: Seq<char>)
    requires
        is_clean(bytes),
        forall|i: int|
            0 <= i < text.len() && ((#[trigger] text[i]) as u32) < 0x80 ==> bytes.contains(
                text[i] as u8,
            ),
    ensures
        has_no_controls(text),
{
    assert forall|i: int| 0 <= i < text.len() implies !(((#[trigger] text[i]) as u32) < 0x80
        && is_stripped_control(text[i] as u8)) by {
        if (text[i] as u32) < 0x80 {
            let b = text[i] as u8;
            assert(bytes.contains(b));
            let k = choose|k: int| 0 <= k < bytes.len() && bytes[k] == b;
            assert(!is_stripped_control(bytes[k]));
        }
    }
}

/// Index just past the last carriage return of `bytes`, or 0.
fn last_segment_start(bytes: &[u8]) -> (start: usize)
    ensures
        start as int == segment_start(bytes@, bytes@.len() as int),
        start <= bytes@.len(),
{
    let mut n: usize = bytes.len();
    while n > 0 && bytes[n - 1] != CR
        invariant
            n <= bytes@.len(),
            segment_start(bytes@, n as int) == segment_start(bytes@, bytes@.len() as int),
        decreases n,
    {
        n -= 1;
    }
    n
}

/// Cleans one line of terminal output: keeps the text after the last
/// carriage return and strips escape sequences and control bytes from it.
/// The result has no control character but TAB, and cleaning it again gives
/// it back unchanged.
pub fn sanitize_terminal_log_line(line: &str) -> (text: String)
    ensures
        text@ == sanitize_text(line@),
        has_no_controls(text@),
        sanitize_text(text@) == text@,
{
    let bytes = line.as_bytes();
    let start = last_segment_start(bytes);
    let segment = vstd::slice::slice_subrange(bytes, start, bytes.len());
    assert(segment@ =~= last_segment(bytes@));
    let cleaned = strip_escape_bytes(segment);
    let text = utf8_lossy(cleaned.as_slice());
    proof {
        lemma_lossy_of_clean(cleaned@, text@);
        lemma_sanitize_text_fixed(text@);
    }
    text
}

/// Turns one raw line of process output into the log line to store, if any:
/// the line ending goes, the rest is decoded and cleaned, and a line that
/// had content of which nothing is left is dropped.
pub fn clean_log_line(raw: &[u8]) -> (line: Option<String>)
    ensures
        crate::text::opt_chars(line) == log_line_of(raw@),
        line matches Some(text) ==> has_no_controls(text@) && sanitize_text(text@) == text@,
{
    let mut end: usize = raw.len();
    if end > 0 && raw[end - 1] == LF {
        end -= 1;
    }
    if end > 0 && raw[end - 1] == CR {
        end -= 1;
    }
    let trimmed = vstd::slice::slice_subrange(raw, 0, end);
    assert(trimmed@ =~= trim_line_ending(raw@));
    let decoded = utf8_lossy(trimmed);
    let line = sanitize_terminal_log_line(decoded.as_str());
    if line.as_str().unicode_len() == 0 && decoded.as_str().unicode_len() != 0 {
        None
    } else {
        Some(line)
    }
}

} // verus!
