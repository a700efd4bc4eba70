//! The wire framing: how the body is cut out of a request, and how a
//! response is wrapped.
//!
//! A request is a header block, a blank line, and a body. What follows the
//! last colon of the header block is the body's length in bytes, in decimal.

use vstd::prelude::*;
use vstd::string::StringSliceAdditionalSpecFns;

verus! {

/// Why a request cannot be read. Each of these ends the connection without
/// a response.
#[derive(Clone, Copy, Debug, PartialEq, Eq, Structural)]
pub enum FramingError {
    /// No blank line ends the header block.
    MissingSeparator,
    /// What follows the last colon of the header block is not a decimal
    /// number, or one that no length can have.
    BadLength,
    /// The body has fewer bytes than the header block declares.
    ShortBody,
}

/// Blank, tab, line feed, vertical tab, form feed or carriage return.
pub open spec fn is_space(byte: u8) -> bool {
    byte == 32 || 9 <= byte <= 13
}

/// One of the digits `0` to `9`.
pub open spec fn is_digit(byte: u8) -> bool {
    48 <= byte <= 57
}

/// Whether the blank line (carriage return, line feed, twice) starts at `at`.
pub open spec fn separator_at(s: Seq<u8>, at: int) -> bool {
    &&& 0 <= at
    &&& at + 4 <= s.len()
    &&& s[at] == 13
    &&& s[at + 1] == 10
    &&& s[at + 2] == 13
    &&& s[at + 3] == 10
}

/// Where the first blank line at or after `from` starts; the length of `s`
/// if there is none.
pub open spec fn separator_from(s: Seq<u8>, from: int) -> int
    decreases s.len() - from,
{
    if from + 4 > s.len() {
        s.len() as int
    } else if separator_at(s, from) {
        from
    } else {
        separator_from(s, from + 1)
    }
}

/// Where the text after the last colon before `end` starts; 0 if there is no
/// colon.
pub open spec fn token_start(s: Seq<u8>, end: int) -> int
    decreases end,
{
    if end <= 0 {
        0
    } else if s[end - 1] == 58 {
        end
    } else {
        token_start(s, end - 1)
    }
}

/// The first place from `from` on, before `to`, that holds no space; `to` if
/// all are spaces.
pub open spec fn skip_spaces(s: Seq<u8>, from: int, to: int) -> int
    decreases to - from,
{
    if from < to && is_space(s[from]) {
        skip_spaces(s, from + 1, to)
    } else {
        from
    }
}

/// The end of `s` between `from` and `to` once the spaces at its end are cut.
pub open spec fn drop_spaces(s: Seq<u8>, from: int, to: int) -> int
    decreases to - from,
{
    if from < to && is_space(s[to - 1]) {
        drop_spaces(s, from, to - 1)
    } else {
        to
    }
}

/// The part of `s` between `from` and `to`, without the spaces at its start
/// and at its end.
pub open spec fn trimmed(s: Seq<u8>, from: int, to: int) -> Seq<u8> {
    let start = skip_spaces(s, from, to);
    s.subrange(start, drop_spaces(s, start, to))
}

/// The number that a run of digits writes.
pub open spec fn digits_value(digits: Seq<u8>) -> nat
    decreases digits.len(),
{
    if digits.len() == 0 {
        0
    } else {
        digits_value(digits.drop_last()) * 10 + (digits.last() - 48) as nat
    }
}

/// Whether every byte is a digit.
pub open spec fn all_digits(text: Seq<u8>) -> bool {
    forall|i: int| 0 <= i < text.len() ==> is_digit(#[trigger] text[i])
}

/// The digits of a decimal number: the text without a plus sign in front.
pub open spec fn unsigned(text: Seq<u8>) -> Seq<u8> {
    if text.len() > 0 && text[0] == 43 {
        text.skip(1)
    } else {
        text
    }
}

/// The number that `text` writes in decimal: one digit or more, with or
/// without a plus sign in front. Anything else writes no number.
pub open spec fn decimal(text: Seq<u8>) -> Option<nat> {
    let digits = unsigned(text);
    if digits.len() > 0 && all_digits(digits) {
        Some(digits_value(digits))
    } else {
        None
    }
}

/// The length that the header block before `separator` declares: the number
/// written after its last colon, spaces around it aside.
pub open spec fn declared_length(s: Seq<u8>, separator: int) -> Option<nat> {
    decimal(trimmed(s, token_start(s, separator), separator))
}

/// The body as sent: what stands between the blank line at `separator` and
/// the next blank line or the end, without the spaces around it.
pub open spec fn sent_body(s: Seq<u8>, separator: int) -> Seq<u8> {
    trimmed(s, separator + 4, separator_from(s, separator + 4))
}

/// The body of a request: the first bytes of the body as sent, as many as the
/// header block declares.
pub open spec fn request_body(s: Seq<u8>) -> Result<Seq<u8>, FramingError> {
    let separator = separator_from(s, 0);
    if separator >= s.len() {
        Err(FramingError::MissingSeparator)
    } else {
        match declared_length(s, separator) {
            Some(length) if length <= usize::MAX => {
                let sent = sent_body(s, separator);
                if sent.len() < length {
                    Err(FramingError::ShortBody)
                } else {
                    Ok(sent.take(length as int))
                }
            },
            _ => Err(FramingError::BadLength),
        }
    }
}

/// The header block ends at the first blank line: a blank line starts at
/// the place found, unless there is none, and none starts before it.
pub proof fn lemma_separator_is_first(s: Seq<u8>, from: int)
    requires
        0 <= from <= s.len(),
    ensures
        from <= separator_from(s, from) <= s.len(),
        separator_from(s, from) < s.len() ==> separator_at(s, separator_from(s, from)),
        forall|i: int| from <= i < separator_from(s, from) ==> !separator_at(s, i),
    decreases s.len() - from,
{
    if from + 4 <= s.len() && !separator_at(s, from) {
        lemma_separator_is_first(s, from + 1);
    }
}

/// The length is read behind the last colon: a colon stands just before
/// the place found, unless there is none, and none stands after it.
pub proof fn lemma_token_follows_last_colon(s: Seq<u8>, end: int)
    requires
        0 <= end <= s.len(),
    ensures
        0 <= token_start(s, end) <= end,
        token_start(s, end) > 0 ==> s[token_start(s, end) - 1] == 58,
        forall|i: int| token_start(s, end) <= i < end ==> s[i] != 58,
    decreases end,
{
    if end > 0 && s[end - 1] != 58 {
        lemma_token_follows_last_colon(s, end - 1);
    }
}

/// Trimming cuts spaces and nothing else: what is cut at either end is
/// spaces, and what is left neither starts nor ends with one.
pub proof fn lemma_trimmed_is_bare(s: Seq<u8>, from: int, to: int)
    requires
        0 <= from <= to <= s.len(),
    ensures
        ({
            let start = skip_spaces(s, from, to);
            let end = drop_spaces(s, start, to);
            &&& from <= start <= end <= to
            &&& forall|i: int| from <= i < start ==> is_space(s[i])
            &&& forall|i: int| end <= i < to ==> is_space(s[i])
            &&& start < end ==> !is_space(s[start]) && !is_space(s[end - 1])
        }),
{
    lemma_skip_spaces(s, from, to);
    lemma_drop_spaces(s, skip_spaces(s, from, to), to);
}

proof fn lemma_skip_spaces(s: Seq<u8>, from: int, to: int)
    requires
        0 <= from <= to <= s.len(),
    ensures
        from <= skip_spaces(s, from, to) <= to,
        forall|i: int| from <= i < skip_spaces(s, from, to) ==> is_space(s[i]),
        skip_spaces(s, from, to) < to ==> !is_space(s[skip_spaces(s, from, to)]),
    decreases to - from,
{
    if from < to && is_space(s[from]) {
        lemma_skip_spaces(s, from + 1, to);
    }
}

proof fn lemma_drop_spaces(s: Seq<u8>, from: int, to: int)
    requires
        0 <= from <= to <= s.len(),
    ensures
        from <= drop_spaces(s, from, to) <= to,
        forall|i: int| drop_spaces(s, from, to) <= i < to ==> is_space(s[i]),
        from < drop_spaces(s, from, to) ==> !is_space(s[drop_spaces(s, from, to) - 1]),
    decreases to - from,
{
    if from < to && is_space(s[to - 1]) {
        lemma_drop_spaces(s, from, to - 1);
    }
}

/// The body that is cut out has exactly the declared length, and it is a
/// part of the request that starts behind the first blank line with a byte
/// that is no space.
pub proof fn lemma_body_has_the_declared_length(s: Seq<u8>)
    ensures
        request_body(s) matches Ok(body) ==> {
            let separator = separator_from(s, 0);
            let start = skip_spaces(s, separator + 4, separator_from(s, separator + 4));
            &&& 0 <= separator
            &&& separator_at(s, separator)
            &&& declared_length(s, separator) == Some(body.len())
            &&& separator + 4 <= start
            &&& start + body.len() <= s.len()
            &&& body == s.subrange(start, start + body.len())
            &&& body.len() > 0 ==> !is_space(body[0])
        },
{
    if request_body(s) is Ok {
        let separator = separator_from(s, 0);
        lemma_separator_is_first(s, 0);
        lemma_separator_is_first(s, separator + 4);
        let end = separator_from(s, separator + 4);
        lemma_trimmed_is_bare(s, separator + 4, end);
        let start = skip_spaces(s, separator + 4, end);
        let body = request_body(s).unwrap();
        assert(body =~= s.subrange(start, start + body.len()));
    }
}

/// A value of digits grows with each digit that is added.
proof fn lemma_digits_value_grows(digits: Seq<u8>, n: int)
    requires
        0 <= n <= digits.len(),
        all_digits(digits),
    ensures
        digits_value(digits.take(n)) <= digits_value(digits),
    decreases digits.len() - n,
{
    if n < digits.len() {
        lemma_digits_value_grows(digits, n + 1);
        assert(digits.take(n + 1).drop_last() =~= digits.take(n));
    } else {
        assert(digits.take(n) =~= digits);
    }
}

fn find_separator(s: &[u8], from: usize) -> (at: usize)
    requires
        from <= s@.len(),
    ensures
        at == separator_from(s@, from as int),
        from <= at <= s@.len(),
        at < s@.len() ==> separator_at(s@, at as int),
{
    let mut at: usize = from;
    while s.len() >= 4 && at <= s.len() - 4
        invariant
            from <= at <= s@.len(),
            separator_from(s@, from as int) == separator_from(s@, at as int),
        decreases s@.len() - at,
    {
        if s[at] == 13 && s[at + 1] == 10 && s[at + 2] == 13 && s[at + 3] == 10 {
            return at;
        }
        at += 1;
    }
    s.len()
}

fn find_token_start(s: &[u8], end: usize) -> (start: usize)
    requires
        end <= s@.len(),
    ensures
        start == token_start(s@, end as int),
        start <= end,
{
    let mut start: usize = end;
    while start > 0 && s[start - 1] != 58
        invariant
            start <= end <= s@.len(),
            token_start(s@, end as int) == token_start(s@, start as int),
        decreases start,
    {
        start -= 1;
    }
    start
}

fn trim_range(s: &[u8], from: usize, to: usize) -> (range: (usize, usize))
    requires
        from <= to <= s@.len(),
    ensures
        range.0 == skip_spaces(s@, from as int, to as int),
        range.1 == drop_spaces(s@, range.0 as int, to as int),
        from <= range.0 <= range.1 <= to,
        s@.subrange(range.0 as int, range.1 as int) == trimmed(s@, from as int, to as int),
{
    let mut start: usize = from;
    while start < to && (s[start] == 32 || (9 <= s[start] && s[start] <= 13))
        invariant
            from <= start <= to <= s@.len(),
            skip_spaces(s@, from as int, to as int) == skip_spaces(s@, start as int, to as int),
        decreases to - start,
    {
        start += 1;
    }
    let mut end: usize = to;
    while start < end && (s[end - 1] == 32 || (9 <= s[end - 1] && s[end - 1] <= 13))
        invariant
            start <= end <= to <= s@.len(),
            drop_spaces(s@, start as int, to as int) == drop_spaces(s@, start as int, end as int),
        decreases end - start,
    {
        end -= 1;
    }
    (start, end)
}

fn parse_decimal(s: &[u8], from: usize, to: usize) -> (number: Option<usize>)
    requires
        from <= to <= s@.len(),
    ensures
        number == match decimal(s@.subrange(from as int, to as int)) {
            Some(n) if n <= usize::MAX => Some(n as usize),
            _ => None::<usize>,
        },
{
    let ghost text = s@.subrange(from as int, to as int);
    let first: usize = if from < to && s[from] == 43 {
        from + 1
    } else {
        from
    };
    let ghost digits = s@.subrange(first as int, to as int);
    assert(digits =~= unsigned(text));
    if first == to {
        return None;
    }
    let mut value: usize = 0;
    let mut at: usize = first;
    while at < to
        invariant
            first < to,
            first <= at <= to <= s@.len(),
            text == s@.subrange(from as int, to as int),
            digits == s@.subrange(first as int, to as int),
            digits == unsigned(text),
            all_digits(digits.take(at - first)),
            value == digits_value(digits.take(at - first)),
        decreases to - at,
    {
        let byte: u8 = s[at];
        let ghost seen = digits.take(at - first);
        let ghost more = digits.take(at - first + 1);
        assert(more.drop_last() =~= seen);
        assert(more.last() == byte);
        if byte < 48 || byte > 57 {
            assert(!is_digit(digits[at - first]));
            return None;
        }
        assert(all_digits(more)) by {
            assert forall|i: int| 0 <= i < more.len() implies is_digit(#[trigger] more[i]) by {
                if i < seen.len() {
                    assert(seen[i] == more[i]);
                }
            }
        }
        let digit: usize = (byte - 48) as usize;
        let next: Option<usize> = match value.checked_mul(10) {
            Some(tens) => tens.checked_add(digit),
            None => None,
        };
        match next {
            Some(grown) => {
                value = grown;
            },
            None => {
                proof {
                    assert(digits_value(more) > usize::MAX);
                    if all_digits(digits) {
                        lemma_digits_value_grows(digits, at - first + 1);
                    }
                }
                return None;
            },
        }
        at += 1;
    }
    assert(digits.take(to - first) =~= digits);
    Some(value)
}

/// Cuts the body out of a request.
///
/// The header block ends at the first blank line. The text after its last
/// colon, spaces aside, is the body's length. The body as sent runs to the
/// next blank line or to the end, spaces around it aside; its first bytes, as
/// many as declared, are the body.
pub fn parse_request(request: &[u8]) -> (result: Result<Vec<u8>, FramingError>)
    ensures
        match result {
            Ok(body) => request_body(request@) == Ok::<Seq<u8>, FramingError>(body@),
            Err(e) => request_body(request@) == Err::<Seq<u8>, FramingError>(e),
        },
{
    let separator: usize = find_separator(request, 0);
    if separator >= request.len() {
        return Err(FramingError::MissingSeparator);
    }
    let token: usize = find_token_start(request, separator);
    let (from, to) = trim_range(request, token, separator);
    let length: usize = match parse_decimal(request, from, to) {
        Some(length) => length,
        None => {
            return Err(FramingError::BadLength);
        },
    };
    let end: usize = find_separator(request, separator + 4);
    let (start, stop) = trim_range(request, separator + 4, end);
    if stop - start < length {
        return Err(FramingError::ShortBody);
    }
    let mut body: Vec<u8> = Vec::new();
    let mut i: usize = 0;
    while i < length
        invariant
            i <= length,
            start + length <= stop <= request@.len(),
            body@ == request@.subrange(start as int, start + i),
        decreases length - i,
    {
        body.push(request[start + i]);
        assert(body@ =~= request@.subrange(start as int, start + i + 1));
        i += 1;
    }
    assert(body@ =~= sent_body(request@, separator as int).take(length as int));
    Ok(body)
}

/// The digits that write `n` in decimal, without leading zeros.
pub open spec fn decimal_digits(n: nat) -> Seq<u8>
    decreases n,
{
    if n < 10 {
        seq![(48 + n) as u8]
    } else {
        decimal_digits(n / 10).push((48 + n % 10) as u8)
    }
}

/// The blank line that ends a header block.
pub open spec fn separator() -> Seq<u8> {
    seq![13u8, 10u8, 13u8, 10u8]
}

/// The header block of every response up to the length: the status is
/// success whatever the outcome, and the body is JSON.
pub open spec fn response_head() -> Seq<u8> {
    "HTTP/1.1 200 OK\r\nContent-Type: application/json\r\nContent-Length: ".spec_bytes()
}

/// A response: the header block with the body's length, a blank line, the body.
pub open spec fn framed(body: Seq<u8>) -> Seq<u8> {
    response_head() + decimal_digits(body.len()) + separator() + body
}

/// The digits of a number write that number.
pub proof fn lemma_decimal_reads_digits(n: nat)
    ensures
        decimal_digits(n).len() > 0,
        all_digits(decimal_digits(n)),
        digits_value(decimal_digits(n)) == n,
        decimal(decimal_digits(n)) == Some(n),
    decreases n,
{
    let digits = decimal_digits(n);
    if n >= 10 {
        lemma_decimal_reads_digits(n / 10);
        let front = decimal_digits(n / 10);
        assert(digits.drop_last() =~= front);
        assert forall|i: int| 0 <= i < digits.len() implies is_digit(#[trigger] digits[i]) by {
            if i < front.len() {
                assert(is_digit(front[i]));
            }
        }
        assert(digits[0] == front[0]);
    } else {
        assert(digits.drop_last() =~= Seq::<u8>::empty());
        assert(digits_value(digits.drop_last()) == 0);
    }
    assert(is_digit(digits[0]));
    assert(unsigned(digits) == digits);
}

fn push_decimal(out: &mut Vec<u8>, n: usize)
    ensures
        final(out)@ == old(out)@ + decimal_digits(n as nat),
    decreases n,
{
    if n >= 10 {
        push_decimal(out, n / 10);
    }
    let low: u8 = (n % 10) as u8;
    out.push(48 + low);
    assert(out@ =~= old(out)@ + decimal_digits(n as nat));
}

fn push_all(out: &mut Vec<u8>, bytes: &[u8])
    ensures
        final(out)@ == old(out)@ + bytes@,
{
    let mut i: usize = 0;
    while i < bytes.len()
        invariant
            i <= bytes@.len(),
            out@ == old(out)@ + bytes@.take(i as int),
        decreases bytes@.len() - i,
    {
        out.push(bytes[i]);
        assert(out@ =~= old(out)@ + bytes@.take(i + 1));
        i += 1;
    }
    assert(bytes@.take(bytes@.len() as int) =~= bytes@);
}

/// Wraps a response body for the wire.
pub fn frame_response(body: &[u8]) -> (response: Vec<u8>)
    ensures
        response@ == framed(body@),
{
    let mut response: Vec<u8> = Vec::new();
    push_all(
        &mut response,
        "HTTP/1.1 200 OK\r\nContent-Type: application/json\r\nContent-Length: ".as_bytes(),
    );
    push_decimal(&mut response, body.len());
    response.push(13);
    response.push(10);
    response.push(13);
    response.push(10);
    push_all(&mut response, body);
    assert(response@ =~= framed(body@));
    response
}

} // verus!
