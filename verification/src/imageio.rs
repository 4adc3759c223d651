//! The two-stage decoder: a tokenizing header reader and a bit-depth-aware
//! pixel reader, both over an in-memory byte slice.
//!
//! The mathematical model mirrors the file format: the input is split into
//! lines at each line feed (a trailing carriage return is stripped when the
//! line feed is present), a line that starts with `#` contributes no tokens,
//! every other line is split into tokens at every single space (runs of
//! spaces produce empty tokens), and the first four tokens are the header
//! fields, in order: format tag, width, height, maximum channel value.

use crate::ppm::{ImageError, NumericField, Pixel, Ppm};
use vstd::prelude::*;

verus! {

pub const SPACE: u8 = 32;

pub const LINE_FEED: u8 = 10;

pub const CARRIAGE_RETURN: u8 = 13;

pub const COMMENT_MARKER: u8 = 35;

/// Index of the first line feed at or after `pos`, or `s.len()` if none.
pub open spec fn line_end(s: Seq<u8>, pos: int) -> int
    decreases s.len() - pos when 0 <= pos <= s.len()
{
    if pos >= s.len() {
        s.len() as int
    } else if s[pos] == LINE_FEED {
        pos
    } else {
        line_end(s, pos + 1)
    }
}

pub proof fn lemma_line_end(s: Seq<u8>, pos: int)
    requires
        0 <= pos <= s.len(),
    ensures
        pos <= line_end(s, pos) <= s.len(),
        line_end(s, pos) < s.len() ==> s[line_end(s, pos)] == LINE_FEED,
        forall|i: int| pos <= i < line_end(s, pos) ==> s[i] != LINE_FEED,
    decreases s.len() - pos,
{
    if pos < s.len() && s[pos] != LINE_FEED {
        lemma_line_end(s, pos + 1);
    }
}

/// Where the line that starts at `pos` ends, with the terminator stripped:
/// the line feed, and a carriage return just before it, are not content.
pub open spec fn content_end(s: Seq<u8>, pos: int) -> int {
    let e = line_end(s, pos);
    if e < s.len() && e > pos && s[e - 1] == CARRIAGE_RETURN {
        e - 1
    } else {
        e
    }
}

/// The content of the line that starts at `pos`.
pub open spec fn line_content(s: Seq<u8>, pos: int) -> Seq<u8> {
    s.subrange(pos, content_end(s, pos))
}

/// Where the next line starts: just past the line feed, or the end of input.
pub open spec fn next_line_start(s: Seq<u8>, pos: int) -> int {
    let e = line_end(s, pos);
    if e < s.len() {
        e + 1
    } else {
        e
    }
}

/// The contents of all lines from `pos` to the end of the input. An input
/// that ends with a line feed has no final empty line, as a line-by-line
/// reader of it would see.
pub open spec fn lines_from(s: Seq<u8>, pos: int) -> Seq<Seq<u8>>
    decreases s.len() - pos when 0 <= pos <= s.len()
    via lines_from_decreases
{
    if pos >= s.len() {
        Seq::empty()
    } else {
        seq![line_content(s, pos)].add(lines_from(s, next_line_start(s, pos)))
    }
}

#[via_fn]
proof fn lines_from_decreases(s: Seq<u8>, pos: int) {
    if 0 <= pos < s.len() {
        lemma_line_end(s, pos);
    }
}

/// Index of the first space at or after `j` in a line, or the line's length.
pub open spec fn token_end(line: Seq<u8>, j: int) -> int
    decreases line.len() - j when 0 <= j <= line.len()
{
    if j >= line.len() {
        line.len() as int
    } else if line[j] == SPACE {
        j
    } else {
        token_end(line, j + 1)
    }
}

pub proof fn lemma_token_end(line: Seq<u8>, j: int)
    requires
        0 <= j <= line.len(),
    ensures
        j <= token_end(line, j) <= line.len(),
        token_end(line, j) < line.len() ==> line[token_end(line, j)] == SPACE,
        forall|i: int| j <= i < token_end(line, j) ==> line[i] != SPACE,
    decreases line.len() - j,
{
    if j < line.len() && line[j] != SPACE {
        lemma_token_end(line, j + 1);
    }
}

/// A line split into tokens at every single space. Runs of spaces are not
/// collapsed, so they produce empty tokens; every line yields at least one
/// token (an empty line yields one empty token).
pub open spec fn token_split(line: Seq<u8>) -> Seq<Seq<u8>>
    decreases line.len()
    via token_split_decreases
{
    let e = token_end(line, 0);
    if e == line.len() {
        seq![line]
    } else {
        seq![line.subrange(0, e)].add(token_split(line.subrange(e + 1, line.len() as int)))
    }
}

#[via_fn]
proof fn token_split_decreases(line: Seq<u8>) {
    lemma_token_end(line, 0);
}

/// Whether a line is a comment: it begins with the comment marker.
pub open spec fn is_comment(line: Seq<u8>) -> bool {
    line.len() > 0 && line[0] == COMMENT_MARKER
}

/// Whether a byte is an ASCII decimal digit.
pub open spec fn is_digit(b: u8) -> bool {
    48 <= b <= 57
}

pub open spec fn all_digits(s: Seq<u8>) -> bool {
    forall|i: int| 0 <= i < s.len() ==> is_digit(#[trigger] s[i])
}

/// The number that a digit string denotes.
pub open spec fn digits_value(s: Seq<u8>) -> nat
    decreases s.len()
{
    if s.len() == 0 {
        0
    } else {
        (digits_value(s.drop_last()) * 10 + s.last() - 48) as nat
    }
}

/// A numeric token with an optional leading plus sign stripped.
pub open spec fn numeric_body(s: Seq<u8>) -> Seq<u8> {
    if s.len() > 0 && s[0] == 43 {
        s.subrange(1, s.len() as int)
    } else {
        s
    }
}

/// Whether a token parses as an unsigned 32-bit integer: an optional leading
/// plus sign, then one or more decimal digits, denoting a value in range.
pub open spec fn is_numeric_token(s: Seq<u8>) -> bool {
    let d = numeric_body(s);
    d.len() > 0 && all_digits(d) && digits_value(d) <= u32::MAX
}

/// The value of a numeric token.
pub open spec fn numeric_value(s: Seq<u8>) -> nat {
    digits_value(numeric_body(s))
}

/// The four header fields, as the header reader assembles them.
pub ghost struct HeaderFields {
    pub magic: Seq<u8>,
    pub width: u32,
    pub height: u32,
    pub maxc: u32,
}

impl HeaderFields {
    /// The fields before any token has been assigned.
    pub open spec fn init() -> HeaderFields {
        HeaderFields { magic: Seq::empty(), width: 0, height: 0, maxc: 0 }
    }
}

/// The numeric field that the cursor position `k` designates.
pub open spec fn field_of_cursor(k: int) -> NumericField {
    if k == 1 {
        NumericField::Width
    } else if k == 2 {
        NumericField::Height
    } else {
        NumericField::MaxChannelValue
    }
}

/// Assigns the tokens of one line to the header fields, in order, starting
/// at field cursor `k`. Stops as soon as the cursor passes the fourth field:
/// any remaining tokens on the line are not consumed as header data.
pub open spec fn apply_tokens(toks: Seq<Seq<u8>>, k: int, h: HeaderFields) -> Result<
    (int, HeaderFields),
    ImageError,
>
    decreases toks.len()
{
    if toks.len() == 0 || k >= 4 {
        Ok((k, h))
    } else {
        let t = toks[0];
        if k == 0 {
            apply_tokens(
                toks.drop_first(),
                1,
                HeaderFields { magic: t, width: h.width, height: h.height, maxc: h.maxc },
            )
        } else if !is_numeric_token(t) {
            Err(ImageError::MalformedNumericField(field_of_cursor(k)))
        } else {
            let v = numeric_value(t) as u32;
            let h2 = if k == 1 {
                HeaderFields { magic: h.magic, width: v, height: h.height, maxc: h.maxc }
            } else if k == 2 {
                HeaderFields { magic: h.magic, width: h.width, height: v, maxc: h.maxc }
            } else {
                HeaderFields { magic: h.magic, width: h.width, height: h.height, maxc: v }
            };
            apply_tokens(toks.drop_first(), k + 1, h2)
        }
    }
}

/// Adds one consumed line to a header reader outcome.
pub open spec fn add_line(r: Result<(HeaderFields, nat), ImageError>) -> Result<
    (HeaderFields, nat),
    ImageError,
> {
    match r {
        Ok((h, n)) => Ok((h, (n + 1) as nat)),
        Err(e) => Err(e),
    }
}

/// The header reader over a sequence of line contents, starting at field
/// cursor `k` with partial fields `h`. On success it yields the populated
/// fields and how many lines it consumed, the line on which the fourth field
/// was assigned included. Comment lines are skipped whole; running out of
/// lines before the fourth field is assigned is a truncated header.
pub open spec fn parse_lines(ls: Seq<Seq<u8>>, k: int, h: HeaderFields) -> Result<
    (HeaderFields, nat),
    ImageError,
>
    decreases ls.len()
{
    if ls.len() == 0 {
        Err(ImageError::TruncatedHeader)
    } else if is_comment(ls[0]) {
        add_line(parse_lines(ls.drop_first(), k, h))
    } else {
        match apply_tokens(token_split(ls[0]), k, h) {
            Err(e) => Err(e),
            Ok((k2, h2)) => if k2 >= 4 {
                Ok((h2, 1))
            } else {
                add_line(parse_lines(ls.drop_first(), k2, h2))
            },
        }
    }
}

/// What parsing the header of the whole input yields: the four fields and
/// the number of lines consumed, or the first error.
pub open spec fn parse_header_spec(s: Seq<u8>) -> Result<(HeaderFields, nat), ImageError> {
    parse_lines(lines_from(s, 0), 0, HeaderFields::init())
}

/// The position reached after `n` line-based reads from `pos`: each read
/// consumes through the next line feed, or to the end of the input.
pub open spec fn skip_lines(s: Seq<u8>, pos: int, n: nat) -> int
    decreases n
{
    if n == 0 {
        pos
    } else {
        skip_lines(s, next_line_start(s, pos), (n - 1) as nat)
    }
}

/// Whether a maximum channel value selects a supported payload encoding.
pub open spec fn supported_depth(maxc: u32) -> bool {
    maxc == 255 || maxc == 65535
}

/// Bytes per binary pixel record for a supported maximum channel value.
pub open spec fn record_size(maxc: u32) -> int {
    if maxc == 255 {
        3
    } else {
        6
    }
}

/// The pixel decoded from record `i` of the payload that starts at `p0`.
/// With maximum channel value 255 a record is 3 bytes, one per channel,
/// zero-extended; with 65535 it is 6 bytes, 2 per channel in big-endian
/// order, red first.
pub open spec fn pixel_at(s: Seq<u8>, p0: int, maxc: u32, i: int) -> Pixel {
    if maxc == 255 {
        Pixel {
            r: s[p0 + 3 * i] as u16,
            g: s[p0 + 3 * i + 1] as u16,
            b: s[p0 + 3 * i + 2] as u16,
        }
    } else {
        Pixel {
            r: (256 * (s[p0 + 6 * i] as int) + s[p0 + 6 * i + 1] as int) as u16,
            g: (256 * (s[p0 + 6 * i + 2] as int) + s[p0 + 6 * i + 3] as int) as u16,
            b: (256 * (s[p0 + 6 * i + 4] as int) + s[p0 + 6 * i + 5] as int) as u16,
        }
    }
}

/// The first `count` pixels of the payload that starts at `p0`, in raster
/// order.
pub open spec fn decoded_pixels(s: Seq<u8>, p0: int, maxc: u32, count: int) -> Seq<Pixel> {
    Seq::new(count as nat, |i: int| pixel_at(s, p0, maxc, i))
}

/// Finds the end of the line that starts at `pos`.
fn find_line_end(input: &[u8], pos: usize) -> (e: usize)
    requires
        pos <= input.len(),
    ensures
        e == line_end(input@, pos as int),
{
    let mut i: usize = pos;
    while i < input.len() && input[i] != LINE_FEED
        invariant
            pos <= i <= input.len(),
            line_end(input@, pos as int) == line_end(input@, i as int),
        decreases input.len() - i,
    {
        i = i + 1;
    }
    i
}

/// Finds the end of the token that starts at `from` within a line that ends
/// at `limit`.
fn find_token_end(input: &[u8], from: usize, limit: usize) -> (te: usize)
    requires
        from <= limit <= input.len(),
    ensures
        from <= te <= limit,
        te - from == token_end(input@.subrange(from as int, limit as int), 0),
{
    let ghost sub = input@.subrange(from as int, limit as int);
    let mut i: usize = from;
    while i < limit && input[i] != SPACE
        invariant
            from <= i <= limit <= input.len(),
            sub == input@.subrange(from as int, limit as int),
            token_end(sub, 0) == token_end(sub, i - from),
        decreases limit - i,
    {
        proof {
            assert(sub[i - from] == input@[i as int]);
        }
        i = i + 1;
    }
    proof {
        if i < limit {
            assert(sub[i - from] == input@[i as int]);
        }
    }
    i
}

/// Copies `input[from..to]` into a fresh vector.
fn subrange_to_vec(input: &[u8], from: usize, to: usize) -> (v: Vec<u8>)
    requires
        from <= to <= input.len(),
    ensures
        v@ == input@.subrange(from as int, to as int),
{
    let mut v: Vec<u8> = Vec::new();
    let mut i: usize = from;
    while i < to
        invariant
            from <= i <= to <= input.len(),
            v@ == input@.subrange(from as int, i as int),
        decreases to - i,
    {
        v.push(input[i]);
        i = i + 1;
        proof {
            assert(v@ =~= input@.subrange(from as int, i as int));
        }
    }
    v
}

proof fn lemma_digits_value_take_le(d: Seq<u8>, j: int)
    requires
        0 <= j <= d.len(),
        all_digits(d),
    ensures
        digits_value(d.take(j)) <= digits_value(d),
    decreases d.len() - j,
{
    if j == d.len() {
        assert(d.take(j) =~= d);
    } else {
        assert(d.take(j + 1).drop_last() =~= d.take(j));
        assert(d.take(j + 1).last() == d[j]);
        assert(is_digit(d[j]));
        lemma_digits_value_take_le(d, j + 1);
    }
}

/// Parses `input[from..to]` as an unsigned 32-bit integer: an optional
/// leading plus sign, then one or more decimal digits, value in range.
fn parse_u32(input: &[u8], from: usize, to: usize) -> (r: Option<u32>)
    requires
        from <= to <= input.len(),
    ensures
        ({
            let tok = input@.subrange(from as int, to as int);
            &&& r is Some <==> is_numeric_token(tok)
            &&& r is Some ==> r->Some_0 == numeric_value(tok)
        }),
{
    let ghost tok = input@.subrange(from as int, to as int);
    let dstart: usize = if from < to && input[from] == 43 {
        from + 1
    } else {
        from
    };
    let ghost d = numeric_body(tok);
    proof {
        assert(d =~= input@.subrange(dstart as int, to as int));
    }
    if dstart == to {
        return None;
    }
    let mut acc: u64 = 0;
    let mut i: usize = dstart;
    while i < to
        invariant
            dstart <= i <= to <= input.len(),
            d == input@.subrange(dstart as int, to as int),
            d == numeric_body(tok),
            tok == input@.subrange(from as int, to as int),
            d.len() == to - dstart,
            all_digits(d.take(i - dstart)),
            acc == digits_value(d.take(i - dstart)),
            acc <= u32::MAX,
        decreases to - i,
    {
        let b = input[i];
        proof {
            assert(d[i - dstart] == input@[i as int]);
        }
        if !(48 <= b && b <= 57) {
            proof {
                assert(!is_digit(d[i - dstart]));
            }
            return None;
        }
        let acc2: u64 = acc * 10 + (b - 48) as u64;
        proof {
            let m = i - dstart;
            assert(d.take(m + 1).drop_last() =~= d.take(m));
            assert(d.take(m + 1).last() == d[m]);
            assert(digits_value(d.take(m + 1)) == acc2);
            assert(all_digits(d.take(m + 1)));
        }
        if acc2 > u32::MAX as u64 {
            proof {
                if all_digits(d) {
                    lemma_digits_value_take_le(d, i + 1 - dstart);
                }
            }
            return None;
        }
        acc = acc2;
        i = i + 1;
    }
    proof {
        assert(d.take(to - dstart) =~= d);
    }
    Some(acc as u32)
}

proof fn lemma_lines_from_len(s: Seq<u8>, pos: int)
    requires
        0 <= pos <= s.len(),
    ensures
        lines_from(s, pos).len() <= s.len() - pos,
    decreases s.len() - pos,
{
    if pos < s.len() {
        lemma_line_end(s, pos);
        lemma_lines_from_len(s, next_line_start(s, pos));
    }
}

proof fn lemma_parse_lines_count(ls: Seq<Seq<u8>>, k: int, h: HeaderFields)
    ensures
        parse_lines(ls, k, h) is Ok ==> 1 <= parse_lines(ls, k, h)->Ok_0.1 <= ls.len(),
    decreases ls.len(),
{
    if ls.len() > 0 {
        if is_comment(ls[0]) {
            lemma_parse_lines_count(ls.drop_first(), k, h);
        } else {
            match apply_tokens(token_split(ls[0]), k, h) {
                Err(_) => {},
                Ok((k2, h2)) => {
                    if k2 < 4 {
                        lemma_parse_lines_count(ls.drop_first(), k2, h2);
                    }
                },
            }
        }
    }
}

/// The header fields while the reader assembles them, with the field cursor.
struct FieldsAcc {
    magic: Vec<u8>,
    width: u32,
    height: u32,
    maxc: u32,
    k: u8,
}

impl FieldsAcc {
    spec fn hf(&self) -> HeaderFields {
        HeaderFields { magic: self.magic@, width: self.width, height: self.height, maxc: self.maxc }
    }
}

/// Assigns the tokens of `input[from..ce]` (the content of one line) to the
/// header fields, in order, as `apply_tokens` says.
fn apply_line_tokens(input: &[u8], from: usize, ce: usize, acc: &mut FieldsAcc) -> (r: Result<
    (),
    ImageError,
>)
    requires
        from <= ce <= input.len(),
        old(acc).k < 4,
    ensures
        ({
            let res = apply_tokens(
                token_split(input@.subrange(from as int, ce as int)),
                old(acc).k as int,
                old(acc).hf(),
            );
            match r {
                Ok(()) => final(acc).k <= 4 && res == Ok::<_, ImageError>(
                    (final(acc).k as int, final(acc).hf()),
                ),
                Err(e) => res == Err::<(int, HeaderFields), _>(e),
            }
        }),
    decreases ce - from,
{
    let ghost suffix = input@.subrange(from as int, ce as int);
    let te = find_token_end(input, from, ce);
    let ghost tok = input@.subrange(from as int, te as int);
    let ghost rest = if te < ce {
        token_split(input@.subrange(te + 1, ce as int))
    } else {
        Seq::<Seq<u8>>::empty()
    };
    proof {
        lemma_token_end(suffix, 0);
        if te < ce {
            assert(suffix.subrange(0, te - from) =~= tok);
            assert(suffix.subrange(te - from + 1, suffix.len() as int) =~= input@.subrange(
                te + 1,
                ce as int,
            ));
            assert(token_split(suffix) == seq![tok].add(rest));
        } else {
            assert(suffix =~= tok);
            assert(token_split(suffix) == seq![tok]);
            assert(seq![tok] =~= seq![tok].add(rest));
        }
        assert(token_split(suffix)[0] == tok);
        assert(seq![tok].add(rest).drop_first() =~= rest);
    }
    if acc.k == 0 {
        acc.magic = subrange_to_vec(input, from, te);
        acc.k = 1;
    } else {
        let field = if acc.k == 1 {
            NumericField::Width
        } else if acc.k == 2 {
            NumericField::Height
        } else {
            NumericField::MaxChannelValue
        };
        match parse_u32(input, from, te) {
            Some(v) => {
                if acc.k == 1 {
                    acc.width = v;
                } else if acc.k == 2 {
                    acc.height = v;
                } else {
                    acc.maxc = v;
                }
                acc.k = acc.k + 1;
            },
            None => {
                proof {
                    assert(field == field_of_cursor(old(acc).k as int));
                }
                return Err(ImageError::MalformedNumericField(field));
            },
        }
    }
    if acc.k == 4 || te == ce {
        proof {
            assert(apply_tokens(rest, acc.k as int, acc.hf()) == Ok::<_, ImageError>(
                (acc.k as int, acc.hf()),
            ));
        }
        return Ok(());
    }
    apply_line_tokens(input, te + 1, ce, acc)
}

/// The header reader from position `pos` on: reads line by line, skips
/// comment lines, and assigns tokens to the fields until the cursor passes
/// the fourth field, as `parse_lines` says. Returns how many lines it
/// consumed, the line on which the fourth field was assigned included.
fn parse_lines_exec(input: &[u8], pos: usize, acc: &mut FieldsAcc) -> (r: Result<usize, ImageError>)
    requires
        pos <= input.len(),
        old(acc).k < 4,
    ensures
        ({
            let res = parse_lines(lines_from(input@, pos as int), old(acc).k as int, old(acc).hf());
            match r {
                Ok(n) => res == Ok::<_, ImageError>((final(acc).hf(), n as nat)) && final(acc).k
                    == 4,
                Err(e) => res == Err::<(HeaderFields, nat), _>(e),
            }
        }),
    decreases input.len() - pos,
{
    let ghost s = input@;
    if pos == input.len() {
        return Err(ImageError::TruncatedHeader);
    }
    let e = find_line_end(input, pos);
    proof {
        lemma_line_end(s, pos as int);
    }
    let ce: usize = if e < input.len() && e > pos && input[e - 1] == CARRIAGE_RETURN {
        e - 1
    } else {
        e
    };
    let next_pos: usize = if e < input.len() {
        e + 1
    } else {
        e
    };
    let ghost line = line_content(s, pos as int);
    proof {
        assert(ce == content_end(s, pos as int));
        assert(line == s.subrange(pos as int, ce as int));
        assert(lines_from(s, pos as int) == seq![line].add(lines_from(s, next_pos as int)));
        assert(lines_from(s, pos as int)[0] == line);
        assert(seq![line].add(lines_from(s, next_pos as int)).drop_first() =~= lines_from(
            s,
            next_pos as int,
        ));
        lemma_lines_from_len(s, next_pos as int);
    }
    if ce > pos && input[pos] == COMMENT_MARKER {
        proof {
            assert(line[0] == s[pos as int]);
            assert(is_comment(line));
        }
        match parse_lines_exec(input, next_pos, acc) {
            Ok(n) => {
                proof {
                    lemma_parse_lines_count(
                        lines_from(s, next_pos as int),
                        old(acc).k as int,
                        old(acc).hf(),
                    );
                }
                Ok(n + 1)
            },
            Err(e2) => Err(e2),
        }
    } else {
        proof {
            if ce > pos {
                assert(line[0] == s[pos as int]);
            }
            assert(!is_comment(line));
        }
        match apply_line_tokens(input, pos, ce, acc) {
            Err(e2) => Err(e2),
            Ok(()) => {
                if acc.k == 4 {
                    Ok(1)
                } else {
                    let ghost k_mid = acc.k;
                    let ghost h_mid = acc.hf();
                    match parse_lines_exec(input, next_pos, acc) {
                        Ok(n) => {
                            proof {
                                lemma_parse_lines_count(
                                    lines_from(s, next_pos as int),
                                    k_mid as int,
                                    h_mid,
                                );
                            }
                            Ok(n + 1)
                        },
                        Err(e2) => Err(e2),
                    }
                }
            },
        }
    }
}

/// The tokenizing header reader. Scans the input line by line from its
/// start, skips comment lines whole, splits every other line into tokens at
/// each single space, and assigns the tokens, in order, to the four header
/// fields of `image`: format tag (kept verbatim), then width, height and
/// maximum channel value (each parsed as an unsigned integer).
///
/// On success it returns how many lines it consumed, the line on which the
/// fourth field was assigned included; tokens after the fourth field on that
/// line are not consumed as header data. `read_image_data` must be handed
/// this same count to find the payload. On an error `image` is unchanged.
pub fn parse_header(input: &[u8], image: &mut Ppm) -> (r: Result<usize, ImageError>)
    ensures
        ({
            let res = parse_header_spec(input@);
            match r {
                Ok(n) => res is Ok && {
                    let (h, c) = res->Ok_0;
                    &&& n as nat == c
                    &&& final(image).magic@ == h.magic
                    &&& final(image).width == h.width
                    &&& final(image).height == h.height
                    &&& final(image).maxc == h.maxc
                    &&& final(image).pixels@ == old(image).pixels@
                },
                Err(e) => res == Err::<(HeaderFields, nat), _>(e) && *final(image) == *old(image),
            }
        }),
{
    let mut acc = FieldsAcc { magic: Vec::new(), width: 0, height: 0, maxc: 0, k: 0 };
    proof {
        assert(acc.hf() =~= HeaderFields::init());
    }
    match parse_lines_exec(input, 0, &mut acc) {
        Ok(n) => {
            image.magic = acc.magic;
            image.width = acc.width;
            image.height = acc.height;
            image.maxc = acc.maxc;
            Ok(n)
        },
        Err(e) => Err(e),
    }
}

/// Performs `n` line-based reads from the start of the input and returns the
/// position reached: the first byte of what follows those lines.
fn skip_header_lines(input: &[u8], n: usize) -> (p: usize)
    ensures
        p as int == skip_lines(input@, 0, n as nat),
        p <= input.len(),
{
    let ghost s = input@;
    let mut pos: usize = 0;
    let mut i: usize = 0;
    while i < n
        invariant
            i <= n,
            pos <= input.len(),
            skip_lines(s, pos as int, (n - i) as nat) == skip_lines(s, 0, n as nat),
            s == input@,
        decreases n - i,
    {
        let e = find_line_end(input, pos);
        proof {
            lemma_line_end(s, pos as int);
        }
        pos = if e < input.len() {
            e + 1
        } else {
            e
        };
        i = i + 1;
    }
    pos
}

/// The bit-depth-aware pixel reader. Repositions to the first payload byte
/// by `header_length` line-based reads from the start of the input (the
/// count that `parse_header` returned), then decodes one fixed-size binary
/// record per pixel, `width * height` records in raster order: with maximum
/// channel value 255, 3 bytes per record, one per channel, zero-extended;
/// with 65535, 6 bytes per record, 2 per channel big-endian, red first.
///
/// Any other maximum channel value is `UnsupportedBitDepth` when at least
/// one pixel is called for; the check runs once, before any byte is read,
/// just as the first record's own depth check would, so when the declared
/// dimensions call for no pixels at all the call succeeds with an empty
/// sequence and no record is ever examined. An input too short for all
/// records is `TruncatedPayload`. On success `image.pixels` holds exactly
/// the decoded pixels; on an error it is empty — never a partial sequence.
/// The header fields of `image` are never changed.
pub fn read_image_data(input: &[u8], image: &mut Ppm, header_length: usize) -> (r: Result<
    (),
    ImageError,
>)
    ensures
        final(image).magic@ == old(image).magic@,
        final(image).width == old(image).width,
        final(image).height == old(image).height,
        final(image).maxc == old(image).maxc,
        ({
            let s = input@;
            let p0 = skip_lines(s, 0, header_length as nat);
            let count = old(image).width as int * old(image).height as int;
            let maxc = old(image).maxc;
            &&& r is Ok <==> count == 0 || (supported_depth(maxc) && p0 + count * record_size(
                maxc,
            ) <= s.len())
            &&& count >= 1 && !supported_depth(maxc) ==> r == Err::<(), ImageError>(
                ImageError::UnsupportedBitDepth,
            )
            &&& count >= 1 && supported_depth(maxc) && p0 + count * record_size(maxc) > s.len()
                ==> r == Err::<(), ImageError>(ImageError::TruncatedPayload)
            &&& r is Ok ==> final(image).pixels@ == decoded_pixels(s, p0, maxc, count)
            &&& r is Err ==> final(image).pixels@ == Seq::<Pixel>::empty()
        }),
{
    let ghost s = input@;
    let maxc = image.maxc;
    let count: u64 = image.pixel_count();
    if count == 0 {
        image.pixels = Vec::new();
        proof {
            let p0 = skip_lines(s, 0, header_length as nat);
            assert(decoded_pixels(s, p0, maxc, 0) =~= Seq::<Pixel>::empty());
        }
        return Ok(());
    }
    if !(maxc == 255 || maxc == 65535) {
        image.pixels = Vec::new();
        return Err(ImageError::UnsupportedBitDepth);
    }
    let rec: usize = if maxc == 255 {
        3
    } else {
        6
    };
    let p0 = skip_header_lines(input, header_length);
    let ghost gcount = image.width as int * image.height as int;
    let mut pixels: Vec<Pixel> = Vec::new();
    let mut p: usize = p0;
    let mut i: u64 = 0;
    while i < count
        invariant
            i <= count,
            count == gcount,
            gcount == old(image).width as int * old(image).height as int,
            supported_depth(maxc),
            maxc == old(image).maxc,
            rec == record_size(maxc),
            p as int == p0 + i * rec,
            p0 <= p <= input.len(),
            p0 as int == skip_lines(s, 0, header_length as nat),
            s == input@,
            pixels@ == decoded_pixels(s, p0 as int, maxc, i as int),
            *image == *old(image),
        decreases count - i,
    {
        if input.len() - p < rec {
            proof {
                assert((i + 1) * rec <= gcount * rec) by (nonlinear_arith)
                    requires
                        i + 1 <= gcount,
                        rec >= 0,
                ;
                assert(p0 + gcount * record_size(maxc) > s.len());
            }
            image.pixels = Vec::new();
            return Err(ImageError::TruncatedPayload);
        }
        let px: Pixel = if maxc == 255 {
            Pixel { r: input[p] as u16, g: input[p + 1] as u16, b: input[p + 2] as u16 }
        } else {
            Pixel {
                r: (input[p] as u16) * 256 + (input[p + 1] as u16),
                g: (input[p + 2] as u16) * 256 + (input[p + 3] as u16),
                b: (input[p + 4] as u16) * 256 + (input[p + 5] as u16),
            }
        };
        pixels.push(px);
        proof {
            assert(px == pixel_at(s, p0 as int, maxc, i as int));
            assert(pixels@ =~= decoded_pixels(s, p0 as int, maxc, i + 1));
            assert((i + 1) * rec == i * rec + rec) by (nonlinear_arith);
        }
        p = p + rec;
        i = i + 1;
    }
    proof {
        assert(gcount * rec == count * rec);
        assert(p as int == p0 + count * rec);
    }
    image.pixels = pixels;
    Ok(())
}

} // verus!
