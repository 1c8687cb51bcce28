//! Helpers of the emulator adapters: byte search in a message stream,
//! reading a debugger's printed hex values, hex encoding, stop-condition
//! arguments, screenshot conversion and comparison, and the systems,
//! verdicts and verdict traces of the Emulicious adapter.
use sha2::{Digest, Sha256};
use vstd::prelude::*;

use vstd::slice::{slice_subrange, slice_to_vec};
use vstd::utf8::{
    decode_utf8, encode_utf8, encode_utf8_decode_utf8, encode_utf8_valid_utf8, is_ascii_chars,
    is_ascii_chars_encode_utf8, valid_utf8,
};

use crate::entry::{byte_value, word_value, FieldValueView, TraceEntry};
use crate::text::{
    append_chars, chars_of, digit_char, digit_value, digit_value_exec, find_chars,
    hex_error_exec, parse_unsigned, parse_unsigned_exec, radix_error, slice_chars, string_of,
    all_digits, append_str, dec_exec, dec_text, digits_value, is_space, lemma_div_smaller, text_from_utf8, trim,
    trim_chars, trim_end, trim_start,
};

verus! {

/// Whether `needle` occurs in `haystack` at `i`.
pub open spec fn bytes_at(haystack: Seq<u8>, needle: Seq<u8>, i: int) -> bool {
    0 <= i && i + needle.len() <= haystack.len() && haystack.subrange(i, i + needle.len()) == needle
}

/// The first position of `needle` (not empty) in `haystack`.
pub fn find(haystack: &[u8], needle: &[u8]) -> (r: Option<usize>)
    requires
        needle@.len() > 0,
    ensures
        match r {
            Some(i) => bytes_at(haystack@, needle@, i as int) && forall|j: int|
                0 <= j < i ==> !bytes_at(haystack@, needle@, j),
            None => forall|j: int| !bytes_at(haystack@, needle@, j),
        },
{
    let n = needle.len();
    let hl = haystack.len();
    if hl < n {
        return None;
    }
    let last = hl - n;
    let mut i: usize = 0;
    while i <= last
        invariant
            n == needle@.len(),
            n > 0,
            hl == haystack@.len(),
            last + n == hl,
            i <= last + 1,
            forall|j: int| 0 <= j < i ==> !bytes_at(haystack@, needle@, j),
        decreases last + 1 - i,
    {
        let mut k: usize = 0;
        let mut same = true;
        while k < n
            invariant
                k <= n,
                n == needle@.len(),
                i <= last,
                hl == haystack@.len(),
                last + n == hl,
                same == (forall|q: int| 0 <= q < k ==> haystack@[i + q] == needle@[q]),
            decreases n - k,
        {
            if haystack[i + k] != needle[k] {
                same = false;
            }
            k += 1;
        }
        if same {
            assert(haystack@.subrange(i as int, i + n) =~= needle@);
            return Some(i);
        } else {
            assert(!bytes_at(haystack@, needle@, i as int)) by {
                if bytes_at(haystack@, needle@, i as int) {
                    assert forall|q: int| 0 <= q < n implies haystack@[i + q] == needle@[q] by {
                        assert(haystack@.subrange(i as int, i + n)[q] == needle@[q]);
                    }
                }
            }
        }
        i += 1;
    }
    None
}

// ---------------------------------------------------------------------------
// Debug-adapter message framing
// ---------------------------------------------------------------------------

/// The blank line that ends a message's header: `\r\n\r\n`.
pub open spec fn header_terminator() -> Seq<u8> {
    seq![13u8, 10u8, 13u8, 10u8]
}

/// The header key that gives a message's length, in lower case:
/// `content-length:`.
pub open spec fn length_key() -> Seq<u8> {
    seq![99u8, 111u8, 110u8, 116u8, 101u8, 110u8, 116u8, 45u8, 108u8, 101u8, 110u8, 103u8, 116u8, 104u8, 58u8]
}

/// ASCII lower-casing of a byte.
pub open spec fn lower_byte(b: u8) -> u8 {
    if 65 <= b && b <= 90 {
        (b + 32) as u8
    } else {
        b
    }
}

/// Where the line that starts at `pos` ends: at the next `\n`, or at the end.
pub open spec fn line_end(h: Seq<u8>, pos: int) -> int
    decreases h.len() - pos,
{
    if pos >= h.len() {
        h.len() as int
    } else if h[pos] == 10 {
        pos
    } else {
        line_end(h, pos + 1)
    }
}

/// A line ends at or after its start, at a `\n` or at the end.
pub proof fn lemma_line_end_bounds(h: Seq<u8>, pos: int)
    requires
        0 <= pos <= h.len(),
    ensures
        pos <= line_end(h, pos) <= h.len(),
        line_end(h, pos) < h.len() ==> h[line_end(h, pos)] == 10,
    decreases h.len() - pos,
{
    if pos < h.len() && h[pos] != 10 {
        lemma_line_end_bounds(h, pos + 1);
    }
}

/// Whether a line starts, in any letter case, with `content-length:`.
pub open spec fn is_length_line(line: Seq<u8>) -> bool {
    line.len() >= 15 && forall|k: int| 0 <= k < 15 ==> lower_byte(#[trigger] line[k]) == length_key()[k]
}

/// What follows the key on the first line, from `pos` on, that starts
/// with it.
pub open spec fn length_text_from(h: Seq<u8>, pos: int) -> Option<Seq<u8>>
    decreases h.len() - pos,
{
    if pos < 0 || pos >= h.len() {
        None
    } else {
        proof {
            lemma_line_end_bounds(h, pos);
        }
        if is_length_line(h.subrange(pos, line_end(h, pos))) {
            Some(h.subrange(pos + 15, line_end(h, pos)))
        } else if line_end(h, pos) < h.len() {
            length_text_from(h, line_end(h, pos) + 1)
        } else {
            None
        }
    }
}

/// The body length a message header gives: the value on its first
/// `content-length:` line, trimmed, as a decimal `usize`. `None` where no
/// line gives one, or where the first such value is not that.
pub open spec fn content_length_of(h: Seq<u8>) -> Option<nat> {
    match length_text_from(h, 0) {
        None => None,
        Some(v) => if valid_utf8(v) {
            parse_unsigned(trim(decode_utf8(v)), 10, usize::MAX as nat)
        } else {
            None
        },
    }
}

/// What the front of a buffer of debug-adapter messages holds.
#[derive(Debug, Clone, Copy, PartialEq, Eq, Structural)]
pub enum DapFrame {
    /// Not a whole message yet: more bytes are needed.
    Incomplete,
    /// A header without a readable length: the stream cannot be followed.
    Malformed,
    /// A whole message: its body is the `len` bytes from `start`, and the
    /// message ends at `start + len`.
    Message { start: usize, len: usize },
}

/// The first end of a header in the buffer.
pub open spec fn first_header_end(buf: Seq<u8>) -> int {
    choose|i: int|
        bytes_at(buf, header_terminator(), i) && forall|j: int|
            0 <= j < i ==> !bytes_at(buf, header_terminator(), j)
}

/// What the front of a buffer holds: a header is ended by the first blank
/// line, its length line gives the body's length, and the body follows
/// the blank line.
pub open spec fn frame_of(buf: Seq<u8>) -> DapFrame {
    if !exists|i: int| bytes_at(buf, header_terminator(), i) {
        DapFrame::Incomplete
    } else {
        let h = first_header_end(buf);
        match content_length_of(buf.take(h)) {
            None => DapFrame::Malformed,
            Some(n) => if buf.len() < h + 4 + n {
                DapFrame::Incomplete
            } else {
                DapFrame::Message { start: (h + 4) as usize, len: n as usize }
            },
        }
    }
}

/// Whether the bytes from `pos` to `end` make a length line.
fn is_length_line_at(buf: &[u8], pos: usize, end: usize) -> (r: bool)
    requires
        pos <= end <= buf@.len(),
    ensures
        r == is_length_line(buf@.subrange(pos as int, end as int)),
{
    let ghost line = buf@.subrange(pos as int, end as int);
    if end - pos < 15 {
        return false;
    }
    let key: [u8; 15] = [99, 111, 110, 116, 101, 110, 116, 45, 108, 101, 110, 103, 116, 104, 58];
    assert(key@ =~= length_key());
    let mut k: usize = 0;
    while k < 15
        invariant
            k <= 15,
            pos + 15 <= end <= buf@.len(),
            line == buf@.subrange(pos as int, end as int),
            key@ == length_key(),
            forall|q: int| 0 <= q < k ==> lower_byte(#[trigger] line[q]) == length_key()[q],
        decreases 15 - k,
    {
        let b = buf[pos + k];
        assert(line[k as int] == b);
        let lb: u8 = if 65 <= b && b <= 90 {
            b + 32
        } else {
            b
        };
        if lb != key[k] {
            return false;
        }
        k += 1;
    }
    true
}

/// The body length that the header `buf[..h]` gives.
fn content_length(buf: &[u8], h: usize) -> (r: Option<usize>)
    requires
        h <= buf@.len(),
    ensures
        match r {
            Some(n) => content_length_of(buf@.take(h as int)) == Some(n as nat),
            None => content_length_of(buf@.take(h as int)) is None,
        },
{
    let ghost hd = buf@.take(h as int);
    let mut pos: usize = 0;
    while pos < h
        invariant
            pos <= h <= buf@.len(),
            hd == buf@.take(h as int),
            length_text_from(hd, 0) == length_text_from(hd, pos as int),
        decreases h - pos,
    {
        let mut end: usize = pos;
        while end < h && buf[end] != 10
            invariant
                pos <= end <= h <= buf@.len(),
                hd == buf@.take(h as int),
                line_end(hd, pos as int) == line_end(hd, end as int),
            decreases h - end,
        {
            end += 1;
        }
        proof {
            lemma_line_end_bounds(hd, pos as int);
        }
        assert(hd.subrange(pos as int, end as int) =~= buf@.subrange(pos as int, end as int));
        if is_length_line_at(buf, pos, end) {
            let rest = slice_subrange(buf, pos + 15, end);
            assert(rest@ =~= hd.subrange(pos + 15, end as int));
            match text_from_utf8(rest) {
                None => {
                    return None;
                },
                Some(t) => {
                    proof {
                        encode_utf8_decode_utf8(t@);
                        encode_utf8_valid_utf8(t@);
                    }
                    assert(length_text_from(hd, pos as int) == Some(rest@));
                    let chars = chars_of(t.as_str());
                    let trimmed = trim_chars(&chars);
                    return match parse_unsigned_exec(&trimmed, 10, usize::MAX as u64) {
                        Some(v) => Some(v as usize),
                        None => None,
                    };
                },
            }
        }
        if end >= h {
            return None;
        }
        assert(length_text_from(hd, pos as int) == length_text_from(hd, end + 1));
        pos = end + 1;
    }
    None
}

/// Split the next message off the front of a debug-adapter stream.
pub fn dap_frame(buf: &[u8]) -> (r: DapFrame)
    ensures
        r == frame_of(buf@),
{
    let term: [u8; 4] = [13, 10, 13, 10];
    let needle: &[u8] = term.as_slice();
    assert(needle@ =~= header_terminator());
    match find(buf, needle) {
        None => DapFrame::Incomplete,
        Some(h) => {
            proof {
                let c = first_header_end(buf@);
                assert(bytes_at(buf@, header_terminator(), h as int));
                if c != h {
                    assert(!bytes_at(buf@, header_terminator(), c));
                }
                assert(c == h);
            }
            match content_length(buf, h) {
                None => DapFrame::Malformed,
                Some(n) => {
                    let total = buf.len();
                    assert(header_terminator().len() == 4);
                    let start = h + 4;
                    if total - start < n {
                        DapFrame::Incomplete
                    } else {
                        DapFrame::Message { start, len: n }
                    }
                },
            }
        },
    }
}

/// The header that frames a message body of `n` bytes.
pub open spec fn frame_header(n: nat) -> Seq<char> {
    "Content-Length: "@ + dec_text(n) + "\r\n\r\n"@
}

/// A message as it is sent: its header, then its body.
pub open spec fn framed(body: Seq<u8>) -> Seq<u8> {
    encode_utf8(frame_header(body.len())) + body
}

/// Frame a message body for a debug-adapter stream.
pub fn dap_message(body: &[u8]) -> (r: Vec<u8>)
    ensures
        r@ == framed(body@),
{
    let mut text = chars_of("Content-Length: ");
    let n = body.len();
    let digits = dec_exec(n as u64);
    append_chars(&mut text, &digits);
    append_str(&mut text, "\r\n\r\n");
    let header = string_of(&text);
    let hb = header.as_str().as_bytes();
    let mut out = slice_to_vec(hb);
    let ghost head = out@;
    let mut i: usize = 0;
    while i < n
        invariant
            i <= n == body@.len(),
            out@ == head + body@.take(i as int),
        decreases n - i,
    {
        out.push(body[i]);
        i += 1;
        assert(out@ =~= head + body@.take(i as int));
    }
    assert(body@.take(n as int) =~= body@);
    out
}

/// The decimal digits of a number are the characters `0` to `9`, and they
/// spell the number.
pub proof fn lemma_dec_text(n: nat)
    ensures
        dec_text(n).len() > 0,
        forall|i: int| 0 <= i < dec_text(n).len() ==> 0x30 <= (#[trigger] dec_text(n)[i]) as u32 <= 0x39,
        all_digits(dec_text(n), 10),
        digits_value(dec_text(n), 10) == n,
    decreases n,
{
    let d = dec_text(n);
    if n < 10 {
        lemma_decimal_digit(n);
        assert(d == seq![digit_char(n)]);
        assert(d.drop_last() =~= Seq::<char>::empty());
        assert(d.last() == digit_char(n));
        assert(digits_value(d, 10) == digits_value(d.drop_last(), 10) * 10 + digit_value(d.last(), 10).unwrap());
    } else {
        lemma_decimal_digit(n % 10);
        lemma_div_smaller(n, 10);
        lemma_dec_text(n / 10);
        let p = dec_text(n / 10);
        assert(d == p.push(digit_char(n % 10)));
        assert(d.drop_last() =~= p);
        assert(d.last() == digit_char(n % 10));
        assert(digits_value(d, 10) == digits_value(p, 10) * 10 + (n % 10));
        assert(n == (n / 10) * 10 + n % 10) by (nonlinear_arith);
        assert forall|i: int| 0 <= i < d.len() implies 0x30 <= (#[trigger] d[i]) as u32 <= 0x39 by {
            if i < p.len() {
                assert(d[i] == p[i]);
            }
        }
        assert forall|i: int| 0 <= i < d.len() implies (#[trigger] digit_value(d[i], 10)) is Some by {
            if i < p.len() {
                assert(d[i] == p[i]);
            }
        }
    }
}

/// A digit character is ASCII.
proof fn lemma_ascii_digit(c: char)
    requires
        0x30 <= c as u32 <= 0x39,
    ensures
        '\0' <= c <= '\u{7f}',
{
}

/// A decimal digit's character is `0` to `9`, and reads back as the digit.
proof fn lemma_decimal_digit(x: nat)
    requires
        x < 10,
    ensures
        digit_char(x) as u32 == x + 0x30,
        digit_value(digit_char(x), 10) == Some(x),
{
    let u = (x + 0x30) as u32;
    assert(u as char as u32 == u);
}

/// A line without `\n` from `pos` on ends at the end.
proof fn lemma_line_end_no_newline(h: Seq<u8>, pos: int)
    requires
        0 <= pos <= h.len(),
        forall|i: int| pos <= i < h.len() ==> h[i] != 10,
    ensures
        line_end(h, pos) == h.len(),
    decreases h.len() - pos,
{
    if pos < h.len() {
        lemma_line_end_no_newline(h, pos + 1);
    }
}

/// A framed message is read back whole: the front of a stream that starts
/// with it holds the message, whose body is the body that was framed,
/// whatever follows it.
pub proof fn law_framed_message_read_back(body: Seq<u8>, rest: Seq<u8>)
    requires
        body.len() <= usize::MAX,
    ensures
        frame_of(framed(body) + rest) == (DapFrame::Message {
            start: frame_header(body.len()).len() as usize,
            len: body.len() as usize,
        }),
        (framed(body) + rest).subrange(
            frame_header(body.len()).len() as int,
            (frame_header(body.len()).len() + body.len()) as int,
        ) == body,
{
    let n = body.len();
    let key = "Content-Length: "@;
    let end = "\r\n\r\n"@;
    reveal_strlit("Content-Length: ");
    reveal_strlit("\r\n\r\n");
    let digits = dec_text(n);
    lemma_dec_text(n);
    let hs = frame_header(n);
    let d = digits.len() as int;
    let p = 16 + d;
    assert(hs.len() == p + 4);
    assert(is_ascii_chars(key));
    assert(is_ascii_chars(end));
    assert(is_ascii_chars(digits)) by {
        assert forall|i: int| 0 <= i < digits.len() implies '\0' <= #[trigger] digits[i] <= '\u{7f}' by {
            lemma_ascii_digit(digits[i]);
        }
    }
    assert forall|i: int| 0 <= i < hs.len() implies '\0' <= #[trigger] hs[i] <= '\u{7f}' by {
        if i < 16 {
            assert(hs[i] == key[i]);
        } else if i < p {
            assert(hs[i] == digits[i - 16]);
        } else {
            assert(hs[i] == end[i - p]);
        }
    }
    assert(is_ascii_chars(hs));
    is_ascii_chars_encode_utf8(hs);
    let hb = encode_utf8(hs);
    let buf = framed(body) + rest;
    assert(buf.len() == p + 4 + n + rest.len());
    assert forall|i: int| 0 <= i < p + 4 implies #[trigger] buf[i] == hs[i] as u8 by {
        assert(buf[i] == hb[i]);
    }
    assert forall|i: int| 0 <= i < p implies #[trigger] buf[i] != 13 && buf[i] != 10 by {
        assert(buf[i] == hs[i] as u8);
        if i < 16 {
            assert(hs[i] == key[i]);
        } else {
            assert(hs[i] == digits[i - 16]);
        }
    }
    // The first blank line is the one after the digits.
    let term = header_terminator();
    assert(buf.subrange(p, p + 4) =~= term) by {
        assert forall|k: int| 0 <= k < 4 implies buf.subrange(p, p + 4)[k] == term[k] by {
            assert(buf[p + k] == hs[p + k] as u8);
            assert(hs[p + k] == end[k]);
        }
    }
    assert(bytes_at(buf, term, p));
    assert forall|j: int| 0 <= j < p implies !bytes_at(buf, term, j) by {
        if bytes_at(buf, term, j) {
            assert(buf.subrange(j, j + 4)[0] == term[0]);
            assert(buf[j] == 13);
        }
    }
    let c = first_header_end(buf);
    if c != p {
        assert(!bytes_at(buf, term, c) || exists|j: int| 0 <= j < c && bytes_at(buf, term, j));
    }
    assert(c == p);
    // The header is one line, the length line.
    let hd = buf.take(p);
    assert forall|i: int| 0 <= i < hd.len() implies hd[i] != 10 by {
        assert(hd[i] == buf[i]);
    }
    lemma_line_end_no_newline(hd, 0);
    assert(line_end(hd, 0) == p);
    let line = hd.subrange(0, p);
    assert forall|k: int| 0 <= k < 15 implies lower_byte(#[trigger] line[k]) == length_key()[k] by {
        assert(line[k] == buf[k]);
        assert(buf[k] == key[k] as u8);
    }
    assert(is_length_line(line));
    let v = hd.subrange(15, p);
    assert(length_text_from(hd, 0) == Some(v));
    // The value is a blank and the digits.
    let vt = hs.subrange(15, p);
    assert(vt =~= seq![' '] + digits) by {
        assert(vt[0] == key[15]);
        assert forall|k: int| 1 <= k < vt.len() implies vt[k] == digits[k - 1] by {
            assert(vt[k] == hs[15 + k]);
        }
    }
    assert(is_ascii_chars(vt));
    is_ascii_chars_encode_utf8(vt);
    assert(v =~= encode_utf8(vt)) by {
        assert forall|k: int| 0 <= k < v.len() implies v[k] == encode_utf8(vt)[k] by {
            assert(v[k] == buf[15 + k]);
            assert(buf[15 + k] == hs[15 + k] as u8);
            assert(vt[k] == hs[15 + k]);
        }
    }
    encode_utf8_valid_utf8(vt);
    encode_utf8_decode_utf8(vt);
    assert(decode_utf8(v) == vt);
    // Trimmed, the value is the digits, which spell the length.
    assert(is_space(vt[0]));
    assert(vt.drop_first() =~= digits);
    assert(trim_start(vt) == trim_start(digits));
    assert(!is_space(digits[0]));
    assert(trim_start(digits) == digits);
    assert(!is_space(digits.last()));
    assert(trim_end(digits) == digits);
    assert(trim(vt) == digits);
    assert(digits[0] != '+');
    assert(parse_unsigned(digits, 10, usize::MAX as nat) == Some(n));
    assert(content_length_of(hd) == Some(n));
    assert(buf.subrange(p + 4, p + 4 + n) =~= body) by {
        assert forall|k: int| 0 <= k < n implies buf.subrange(p + 4, p + 4 + n)[k] == body[k] by {
            assert(buf[p + 4 + k] == framed(body)[p + 4 + k]);
        }
    }
}

/// Whether a character is an ASCII hex digit.
pub open spec fn is_hex_digit(c: char) -> bool {
    digit_value(c, 16) is Some
}

/// The text after the last `$` of `s` (all of `s` when it has none).
pub open spec fn after_last_dollar(s: Seq<char>) -> Seq<char>
    decreases s.len(),
{
    if s.len() == 0 {
        s
    } else if s.last() == '$' {
        Seq::empty()
    } else {
        after_last_dollar(s.drop_last()).push(s.last())
    }
}

/// The leading hex digits of `s`.
pub open spec fn hex_prefix(s: Seq<char>) -> Seq<char>
    decreases s.len(),
{
    if s.len() == 0 || !is_hex_digit(s[0]) {
        Seq::empty()
    } else {
        seq![s[0]] + hex_prefix(s.drop_first())
    }
}

/// Parse a printed debugger value such as `pc = $4181`,
/// `sp = $DFF0 (_RAM_DFF0_)` or `@$e000 = $A5`: the hex digits after the
/// last `$`, as a 16-bit value.
pub fn parse_hex_result(printed: &str) -> (r: Option<u16>)
    ensures
        match r {
            Some(v) => parse_unsigned(hex_prefix(after_last_dollar(printed@)), 16, 0xffff) == Some(v as nat),
            None => parse_unsigned(hex_prefix(after_last_dollar(printed@)), 16, 0xffff) is None,
        },
{
    let s = chars_of(printed);
    let mut start = s.len();
    assert(s@.take(start as int) =~= s@);
    assert(after_last_dollar(s@) + s@.skip(start as int) =~= after_last_dollar(s@));
    while start > 0 && s[start - 1] != '$'
        invariant
            start <= s@.len(),
            after_last_dollar(s@) == after_last_dollar(s@.take(start as int)) + s@.skip(start as int),
        decreases start,
    {
        assert(s@.take(start as int).drop_last() =~= s@.take(start - 1));
        assert(s@.skip(start - 1) =~= seq![s@[start - 1]] + s@.skip(start as int));
        assert(after_last_dollar(s@.take(start - 1)).push(s@[start - 1]) + s@.skip(start as int)
            =~= after_last_dollar(s@.take(start - 1)) + s@.skip(start - 1));
        start -= 1;
    }
    proof {
        if start > 0 {
            assert(s@.take(start as int).last() == '$');
        }
        assert(after_last_dollar(s@.take(start as int)) =~= Seq::<char>::empty());
        assert(after_last_dollar(s@) =~= s@.skip(start as int));
    }
    let tail = slice_chars(&s, start, s.len());
    assert(tail@ =~= s@.skip(start as int));
    let mut end: usize = 0;
    assert(tail@.skip(0) =~= tail@);
    assert(tail@.take(0) + hex_prefix(tail@) =~= hex_prefix(tail@));
    while end < tail.len() && digit_value_exec(tail[end], 16).is_some()
        invariant
            end <= tail@.len(),
            hex_prefix(tail@) == tail@.take(end as int) + hex_prefix(tail@.skip(end as int)),
        decreases tail@.len() - end,
    {
        assert(tail@.skip(end as int).drop_first() =~= tail@.skip(end + 1));
        assert(tail@.take(end + 1) =~= tail@.take(end as int) + seq![tail@[end as int]]);
        end += 1;
    }
    proof {
        assert(hex_prefix(tail@.skip(end as int)) =~= Seq::<char>::empty());
        assert(tail@.take(end as int) + Seq::<char>::empty() =~= tail@.take(end as int));
    }
    let digits = slice_chars(&tail, 0, end);
    assert(digits@ =~= tail@.take(end as int));
    match parse_unsigned_exec(&digits, 16, 0xffff) {
        Some(v) => Some(v as u16),
        None => None,
    }
}

/// Two lower-case hex digits for each byte.
pub open spec fn hex_bytes(b: Seq<u8>) -> Seq<char>
    decreases b.len(),
{
    if b.len() == 0 {
        Seq::empty()
    } else {
        hex_bytes(b.drop_last()) + seq![digit_char((b.last() / 16) as nat), digit_char((b.last() % 16) as nat)]
    }
}

/// Hex encoding doubles the length.
pub proof fn lemma_hex_bytes_len(b: Seq<u8>)
    ensures
        hex_bytes(b).len() == 2 * b.len(),
    decreases b.len(),
{
    if b.len() > 0 {
        lemma_hex_bytes_len(b.drop_last());
    }
}

fn hex_digit(d: u8) -> (c: char)
    requires
        d < 16,
    ensures
        c == digit_char(d as nat),
{
    if d < 10 {
        (d + 0x30) as char
    } else {
        (d - 10 + 0x61) as char
    }
}

/// Encode bytes as lower-case hex, two digits each.
pub fn hex_encode(bytes: &[u8]) -> (r: String)
    ensures
        r@ == hex_bytes(bytes@),
{
    let mut out: Vec<char> = Vec::new();
    let mut i: usize = 0;
    while i < bytes.len()
        invariant
            i <= bytes@.len(),
            out@ == hex_bytes(bytes@.take(i as int)),
        decreases bytes@.len() - i,
    {
        assert(bytes@.take(i + 1).drop_last() =~= bytes@.take(i as int));
        let b = bytes[i];
        out.push(hex_digit(b / 16));
        out.push(hex_digit(b % 16));
        i += 1;
        assert(out@ =~= hex_bytes(bytes@.take(i as int)));
    }
    assert(bytes@.take(i as int) =~= bytes@);
    string_of(&out)
}

/// What `parse_hex_u8` answers: the byte, or the message.
pub open spec fn hex_u8_of(s: Seq<char>) -> Result<u8, Seq<char>> {
    match parse_unsigned(s, 16, 0xff) {
        Some(v) => Ok(v as u8),
        None => Err("invalid hex byte: "@ + radix_error(s, 16, 0xff)),
    }
}

/// Parse a hex byte (`40` for `LD B,B`).
pub fn parse_hex_u8(s: &str) -> (r: Result<u8, String>)
    ensures
        match r {
            Ok(v) => hex_u8_of(s@) == Ok::<u8, Seq<char>>(v),
            Err(m) => hex_u8_of(s@) == Err::<u8, Seq<char>>(m@),
        },
{
    let v = chars_of(s);
    match parse_unsigned_exec(&v, 16, 0xff) {
        Some(b) => Ok(b as u8),
        None => {
            let mut m = chars_of("invalid hex byte: ");
            append_chars(&mut m, &hex_error_exec(&v, 0xff));
            Err(string_of(&m))
        },
    }
}

/// Stop when memory `addr` holds `value` (or, negated, does not).
#[derive(Clone, Copy)]
pub struct StopWhen {
    pub addr: u16,
    pub value: u8,
    pub negate: bool,
}

/// What `parse_stop_when` answers for `ADDR=VAL` or `ADDR!=VAL` (hex): the
/// condition, or the message. `!=` is looked for first.
pub open spec fn stop_when_of(s: Seq<char>) -> Result<StopWhen, Seq<char>> {
    let ne = crate::text::find(s, "!="@);
    let eq = crate::text::find(s, "="@);
    if ne is None && eq is None {
        Err("expected ADDR=VAL or ADDR!=VAL (e.g. A000!=80)"@)
    } else {
        let negate = ne is Some;
        let pos = if negate {
            ne.unwrap()
        } else {
            eq.unwrap()
        };
        let addr_s = s.take(pos);
        let val_s = s.skip(pos + if negate {
            2int
        } else {
            1int
        });
        match parse_unsigned(addr_s, 16, 0xffff) {
            None => Err("invalid address: "@ + radix_error(addr_s, 16, 0xffff)),
            Some(a) => match parse_unsigned(val_s, 16, 0xff) {
                None => Err("invalid value: "@ + radix_error(val_s, 16, 0xff)),
                Some(v) => Ok(StopWhen { addr: a as u16, value: v as u8, negate }),
            },
        }
    }
}

/// Parse a stop condition `ADDR=VAL` or `ADDR!=VAL` (hex, e.g. `FF82=01`).
pub fn parse_stop_when(s: &str) -> (r: Result<StopWhen, String>)
    ensures
        match r {
            Ok(w) => stop_when_of(s@) == Ok::<StopWhen, Seq<char>>(w),
            Err(m) => stop_when_of(s@) == Err::<StopWhen, Seq<char>>(m@),
        },
{
    let v = chars_of(s);
    let ne = find_chars(&v, &chars_of("!="));
    let eq = find_chars(&v, &chars_of("="));
    proof {
        crate::text::lemma_find_bound(v@, "!="@);
        crate::text::lemma_find_bound(v@, "="@);
        reveal_strlit("!=");
        reveal_strlit("=");
    }
    let (pos, skip, negate) = match ne {
        Some(p) => (p, 2usize, true),
        None => match eq {
            Some(p) => (p, 1usize, false),
            None => {
                return Err(string_of(&chars_of("expected ADDR=VAL or ADDR!=VAL (e.g. A000!=80)")));
            },
        },
    };
    let n = v.len();
    let addr_s = slice_chars(&v, 0, pos);
    let val_s = slice_chars(&v, pos + skip, n);
    assert(addr_s@ =~= v@.take(pos as int));
    assert(val_s@ =~= v@.skip(pos + skip));
    let addr = match parse_unsigned_exec(&addr_s, 16, 0xffff) {
        Some(a) => a as u16,
        None => {
            let mut m = chars_of("invalid address: ");
            append_chars(&mut m, &hex_error_exec(&addr_s, 0xffff));
            return Err(string_of(&m));
        },
    };
    let value = match parse_unsigned_exec(&val_s, 16, 0xff) {
        Some(x) => x as u8,
        None => {
            let mut m = chars_of("invalid value: ");
            append_chars(&mut m, &hex_error_exec(&val_s, 0xff));
            return Err(string_of(&m));
        },
    };
    Ok(StopWhen { addr, value, negate })
}

/// Whether two screenshots (one byte per 5-bit channel) match: the same
/// length, and every channel within 1 of the other.
pub open spec fn rgb555_matches(a: Seq<u8>, b: Seq<u8>) -> bool {
    a.len() == b.len() && forall|i: int| 0 <= i < a.len() ==> -1 <= #[trigger] a[i] - b[i] <= 1
}

/// Per-channel RGB555 match with a tolerance of 1.
pub fn rgb555_match(a: &[u8], b: &[u8]) -> (r: bool)
    ensures
        r == rgb555_matches(a@, b@),
{
    if a.len() != b.len() {
        return false;
    }
    let mut i: usize = 0;
    while i < a.len()
        invariant
            i <= a@.len(),
            a@.len() == b@.len(),
            forall|k: int| 0 <= k < i ==> -1 <= #[trigger] a@[k] - b@[k] <= 1,
        decreases a@.len() - i,
    {
        let x = a[i] as i16;
        let y = b[i] as i16;
        let d = x - y;
        if d > 1 || d < -1 {
            return false;
        }
        i += 1;
    }
    true
}


// ---------------------------------------------------------------------------
// Screenshots
// ---------------------------------------------------------------------------

/// The RGB555 grey level of each DMG shade (0 the lightest).
pub open spec fn grey555(shade: u8) -> u8 {
    if shade == 0 {
        31
    } else if shade == 1 {
        21
    } else if shade == 2 {
        10
    } else {
        0
    }
}

/// DMG shades as a screenshot: each shade's grey level on all three
/// channels.
pub open spec fn shades_rgb555_of(shades: Seq<u8>) -> Seq<u8> {
    Seq::new(shades.len() * 3, |k: int| grey555(shades[k / 3]))
}

/// CGB RGB555 words as a screenshot: red, green and blue (five bits each,
/// from the low bits up) of each word.
pub open spec fn words_rgb555_of(words: Seq<u16>) -> Seq<u8> {
    Seq::new(
        words.len() * 3,
        |k: int| {
            let w = words[k / 3];
            let c = k % 3;
            if c == 0 {
                (w & 0x1F) as u8
            } else if c == 1 {
                ((w >> 5u16) & 0x1F) as u8
            } else {
                ((w >> 10u16) & 0x1F) as u8
            }
        },
    )
}

/// Flatten a DMG frame of shade indices (each below 4) into the reference
/// screenshot form.
pub fn shades_rgb555(shades: &[u8]) -> (r: Vec<u8>)
    requires
        forall|i: int| 0 <= i < shades@.len() ==> #[trigger] shades@[i] < 4,
        shades@.len() * 3 <= usize::MAX,
    ensures
        r@ == shades_rgb555_of(shades@),
{
    let mut out: Vec<u8> = Vec::new();
    let mut i: usize = 0;
    while i < shades.len()
        invariant
            i <= shades@.len(),
            shades@.len() * 3 <= usize::MAX,
            out@ =~= shades_rgb555_of(shades@).take(3 * i),
        decreases shades@.len() - i,
    {
        let v: u8 = match shades[i] {
            0 => 31,
            1 => 21,
            2 => 10,
            _ => 0,
        };
        out.push(v);
        out.push(v);
        out.push(v);
        proof {
            let want = shades_rgb555_of(shades@);
            assert forall|k: int| 3 * i <= k < 3 * i + 3 implies want[k] == v by {
                assert(k / 3 == i as int) by (nonlinear_arith)
                    requires
                        3 * i <= k < 3 * i + 3,
                ;
            }
            assert(out@ =~= want.take(3 * (i + 1)));
        }
        i += 1;
    }
    assert(shades_rgb555_of(shades@).take(3 * shades@.len() as int) =~= shades_rgb555_of(shades@));
    out
}

/// Flatten a CGB frame of RGB555 words into the reference screenshot form.
pub fn words_rgb555(words: &[u16]) -> (r: Vec<u8>)
    requires
        words@.len() * 3 <= usize::MAX,
    ensures
        r@ == words_rgb555_of(words@),
{
    let mut out: Vec<u8> = Vec::new();
    let mut i: usize = 0;
    while i < words.len()
        invariant
            i <= words@.len(),
            words@.len() * 3 <= usize::MAX,
            out@ =~= words_rgb555_of(words@).take(3 * i),
        decreases words@.len() - i,
    {
        let w = words[i];
        let r = (w & 0x1F) as u8;
        let g = ((w >> 5u16) & 0x1F) as u8;
        let b = ((w >> 10u16) & 0x1F) as u8;
        out.push(r);
        out.push(g);
        out.push(b);
        proof {
            let want = words_rgb555_of(words@);
            assert(want[3 * i] == r) by {
                assert((3 * i) / 3 == i as int && (3 * i) % 3 == 0) by (nonlinear_arith);
            }
            assert(want[3 * i + 1] == g) by {
                assert((3 * i + 1) / 3 == i as int && (3 * i + 1) % 3 == 1) by (nonlinear_arith);
            }
            assert(want[3 * i + 2] == b) by {
                assert((3 * i + 2) / 3 == i as int && (3 * i + 2) % 3 == 2) by (nonlinear_arith);
            }
            assert(out@ =~= want.take(3 * (i + 1)));
        }
        i += 1;
    }
    assert(words_rgb555_of(words@).take(3 * words@.len() as int) =~= words_rgb555_of(words@));
    out
}

// ---------------------------------------------------------------------------
// The Emulicious adapter's systems and verdicts
// ---------------------------------------------------------------------------

/// A system the Emulicious adapter drives: its identifier, model, the base
/// of its RESULT block and the ROM extension that selects it.
pub struct SysDef {
    pub id: &'static str,
    pub model: &'static str,
    pub result_addr: u16,
    pub extension: &'static str,
}

/// The SG-1000 row.
pub fn sg1000_system() -> (r: SysDef)
    ensures
        r.id@ == "sg1000"@,
        r.model@ == "NTSC"@,
        r.result_addr == 0xC000,
        r.extension@ == "sg"@,
{
    proof {
        reveal_strlit("sg1000");
        reveal_strlit("NTSC");
        reveal_strlit("sg");
    }
    SysDef { id: "sg1000", model: "NTSC", result_addr: 0xC000, extension: "sg" }
}

/// The MSX1 row (booted on C-BIOS).
pub fn msx1_system() -> (r: SysDef)
    ensures
        r.id@ == "msx1"@,
        r.model@ == "C-BIOS"@,
        r.result_addr == 0xE000,
        r.extension@ == "mx1"@,
{
    proof {
        reveal_strlit("msx1");
        reveal_strlit("C-BIOS");
        reveal_strlit("mx1");
    }
    SysDef { id: "msx1", model: "C-BIOS", result_addr: 0xE000, extension: "mx1" }
}

/// The system named `id`: `sg1000` or `msx1`.
pub fn system_by_id(id: &str) -> (r: Option<SysDef>)
    ensures
        r matches Some(s) ==> s.id@ == id@,
        (r is Some) <==> (id@ == "sg1000"@ || id@ == "msx1"@),
{
    let sg = sg1000_system();
    if crate::text::str_eq(sg.id, id) {
        return Some(sg);
    }
    let msx = msx1_system();
    if crate::text::str_eq(msx.id, id) {
        return Some(msx);
    }
    None
}

/// The system a (lower-cased) ROM extension selects: `sg` or `mx1`.
pub fn system_by_extension(ext: &str) -> (r: Option<SysDef>)
    ensures
        r matches Some(s) ==> s.extension@ == ext@,
        (r is Some) <==> (ext@ == "sg"@ || ext@ == "mx1"@),
{
    let sg = sg1000_system();
    if crate::text::str_eq(sg.extension, ext) {
        return Some(sg);
    }
    let msx = msx1_system();
    if crate::text::str_eq(msx.extension, ext) {
        return Some(msx);
    }
    None
}

/// Whether a RESULT byte reports an outcome: 0xA5 (pass) or 0x5A (fail).
pub fn is_verdict(v: u16) -> (r: bool)
    ensures
        r == (v == 0xA5 || v == 0x5A),
{
    v == 0xA5 || v == 0x5A
}

/// How many real seconds the adapter waits for the outcome: a thirtieth
/// of the frame budget, at least 10.
pub fn verdict_deadline_secs(frames: i64) -> (r: u64)
    ensures
        r == (if frames / 30 > 10 {
            frames / 30
        } else {
            10
        }),
{
    let q = frames / 30;
    if q > 10 {
        q as u64
    } else {
        10
    }
}

/// The first line of a text whose trim is not empty and does not start
/// with `=`, trimmed; `"unknown"` when there is none.
pub open spec fn first_heading(lines: Seq<Seq<char>>) -> Seq<char>
    decreases lines.len(),
{
    if lines.len() == 0 {
        "unknown"@
    } else {
        let t = crate::text::trim(lines[0]);
        if t.len() > 0 && t[0] != '=' {
            t
        } else {
            first_heading(lines.drop_first())
        }
    }
}

/// The Emulicious version from its release notes: the first heading line.
pub fn emulicious_version_of(notes: &str) -> (r: String)
    ensures
        r@ == first_heading(crate::display::split_on(notes@, '\n')),
{
    let lines = crate::display::split_text(notes, '\n');
    let ghost ls = crate::display::split_on(notes@, '\n');
    let mut k: usize = 0;
    assert(ls.skip(0) =~= ls);
    while k < lines.len()
        invariant
            k <= lines@.len(),
            ls == crate::display::split_on(notes@, '\n'),
            lines@.len() == ls.len(),
            forall|j: int| 0 <= j < lines@.len() ==> (#[trigger] lines@[j])@ == ls[j],
            first_heading(ls) == first_heading(ls.skip(k as int)),
        decreases lines@.len() - k,
    {
        assert(ls.skip(k as int)[0] == lines@[k as int]@);
        assert(ls.skip(k as int).drop_first() =~= ls.skip(k + 1));
        let t = crate::text::trim_chars(&lines[k]);
        assert(ls.skip(k as int).len() > 0);
        if t.len() > 0 && t[0] != '=' {
            assert(first_heading(ls.skip(k as int)) == t@);
            return string_of(&t);
        }
        k += 1;
    }
    assert(ls.skip(k as int) =~= Seq::<Seq<char>>::empty());
    proof {
        reveal_strlit("unknown");
    }
    string_of(&chars_of("unknown"))
}

/// The machine state the Emulicious adapter reads at the verdict.
pub struct VerdictState {
    pub pc: u16,
    pub sp: u16,
    pub af: u16,
    pub bc: u16,
    pub de: u16,
    pub hl: u16,
    pub ix: u16,
    pub iy: u16,
    pub va: u16,
    pub scanline: u16,
}

/// The single entry of a verdict trace: the 16-bit registers, the 8-bit
/// halves of the register pairs, the VDP address and scanline, and the
/// four bytes of the RESULT block.
pub open spec fn verdict_entry_of(s: VerdictState, block: [u8; 4]) -> Map<Seq<char>, FieldValueView> {
    Map::empty()
        .insert("pc"@, word_value(s.pc))
        .insert("sp"@, word_value(s.sp))
        .insert("a"@, byte_value((s.af >> 8u16) as u8))
        .insert("f"@, byte_value(s.af as u8))
        .insert("b"@, byte_value((s.bc >> 8u16) as u8))
        .insert("c"@, byte_value(s.bc as u8))
        .insert("d"@, byte_value((s.de >> 8u16) as u8))
        .insert("e"@, byte_value(s.de as u8))
        .insert("h"@, byte_value((s.hl >> 8u16) as u8))
        .insert("l"@, byte_value(s.hl as u8))
        .insert("ix"@, word_value(s.ix))
        .insert("iy"@, word_value(s.iy))
        .insert("addr"@, word_value(s.va))
        .insert("line"@, word_value(s.scanline))
        .insert("result"@, byte_value(block[0]))
        .insert("code"@, byte_value(block[1]))
        .insert("observed"@, byte_value(block[2]))
        .insert("expected"@, byte_value(block[3]))
}

/// The verdict trace's entry.
pub fn verdict_entry(s: &VerdictState, block: [u8; 4]) -> (r: TraceEntry)
    ensures
        r@ == verdict_entry_of(*s, block),
{
    let mut e = TraceEntry::new();
    e.set_u16("pc", s.pc);
    e.set_u16("sp", s.sp);
    e.set_u8("a", #[verifier::truncate] ((s.af >> 8u16) as u8));
    e.set_u8("f", #[verifier::truncate] (s.af as u8));
    e.set_u8("b", #[verifier::truncate] ((s.bc >> 8u16) as u8));
    e.set_u8("c", #[verifier::truncate] (s.bc as u8));
    e.set_u8("d", #[verifier::truncate] ((s.de >> 8u16) as u8));
    e.set_u8("e", #[verifier::truncate] (s.de as u8));
    e.set_u8("h", #[verifier::truncate] ((s.hl >> 8u16) as u8));
    e.set_u8("l", #[verifier::truncate] (s.hl as u8));
    e.set_u16("ix", s.ix);
    e.set_u16("iy", s.iy);
    e.set_u16("addr", s.va);
    e.set_u16("line", s.scanline);
    e.set_u8("result", block[0]);
    e.set_u8("code", block[1]);
    e.set_u8("observed", block[2]);
    e.set_u8("expected", block[3]);
    assert(e@ =~= verdict_entry_of(*s, block));
    e
}


// ---------------------------------------------------------------------------
// ROM hashes
// ---------------------------------------------------------------------------

/// What SHA-256 gives for a byte string.
pub uninterp spec fn sha256_of(data: Seq<u8>) -> Seq<u8>;

/// `sha2::Sha256::digest`: the SHA-256 digest of the data. The contract
/// names the digest, a function of the data alone, and states its length
/// (32 bytes, the output size of SHA-256); it says no more of it.
#[verifier::external_body]
fn sha256_digest(data: &[u8]) -> (r: Vec<u8>)
    ensures
        r@ == sha256_of(data@),
        r@.len() == 32,
{
    Sha256::digest(data).to_vec()
}

/// The SHA-256 of a ROM in lower-case hex, as trace headers record it.
pub fn rom_sha256(rom: &[u8]) -> (r: String)
    ensures
        r@ == hex_bytes(sha256_of(rom@)),
        r@.len() == 64,
{
    let d = sha256_digest(rom);
    proof {
        lemma_hex_bytes_len(d@);
    }
    hex_encode(d.as_slice())
}

} // verus!
