//! Reading a response back from the bytes it was written as.
//!
//! `read_response` is the reader that the writer is held to: it takes the
//! head line by line, as UTF-8, up to the blank line, and the body by the
//! `Content-Length` field. What was written for a response with its content
//! in memory reads back as that response.

use crate::headers::{field_line, field_lines, lemma_two_fields, lookup, put, Pairs};
use crate::req::{collected, header_line, lemma_field_line_reads, writable};
use crate::resp::{
    fixed_content, head_text, lemma_field_names_differ, written, ResponseView, Status,
};
use crate::text::{
    decimal, digit, free_of, is_blank, is_whitespace, lemma_span_is, lemma_trim_plain, other_than,
    span, trim,
};
use vstd::prelude::*;
use vstd::utf8::{
    char_is_scalar, char_u32_cast, decode_utf8, encode_scalar, encode_utf8, encode_utf8_decode_utf8,
    encode_utf8_valid_utf8, has_width_1_encoding, has_width_2_encoding, has_width_3_encoding,
    is_scalar, last_continuation_byte, leading_byte_width_1, leading_byte_width_2,
    leading_byte_width_3, leading_byte_width_4, second_last_continuation_byte,
    third_last_continuation_byte, valid_utf8,
};

verus! {

/// The first line of `bytes`: up to and including the first line feed, or all
/// of them where there is none.
pub open spec fn byte_line(bytes: Seq<u8>) -> Seq<u8> {
    let n: nat = span(bytes, other_than(10u8));
    if n < bytes.len() {
        bytes.take(n as int + 1)
    } else {
        bytes
    }
}

/// The number that a decimal digit stands for.
pub open spec fn digit_value(c: char) -> Option<nat> {
    if '0' <= c <= '9' {
        Some((c as nat - 48) as nat)
    } else {
        None
    }
}

/// The number that `s` is the decimal of.
pub open spec fn number(s: Seq<char>) -> Option<nat>
    decreases s.len(),
{
    if s.len() == 0 {
        None
    } else if s.len() == 1 {
        digit_value(s[0])
    } else {
        match (number(s.drop_last()), digit_value(s.last())) {
            (Some(high), Some(low)) => Some(10 * high + low),
            _ => None,
        }
    }
}

/// The status line of `status`.
pub open spec fn status_line(status: Status) -> Seq<char> {
    "HTTP/1.1 "@ + status.text() + "\r\n"@
}

/// The status that a status line says.
pub open spec fn status_of(line: Seq<char>) -> Option<Status> {
    if line == status_line(Status::OK) {
        Some(Status::OK)
    } else if line == status_line(Status::NotFound) {
        Some(Status::NotFound)
    } else {
        None
    }
}

/// A response as it is read back.
pub struct Reading {
    pub status: Status,
    pub headers: Pairs,
    pub body: Seq<u8>,
}

/// The header fields at the start of `rest`, added to `acc` line by line up
/// to the blank line, and the bytes behind the blank line.
pub open spec fn read_fields(rest: Seq<u8>, acc: Pairs) -> Option<(Pairs, Seq<u8>)>
    decreases rest.len(),
{
    if rest.len() == 0 {
        None
    } else {
        let line: Seq<u8> = byte_line(rest);
        if !valid_utf8(line) {
            None
        } else if is_blank(decode_utf8(line)) {
            Some((acc, rest.skip(line.len() as int)))
        } else {
            match header_line(decode_utf8(line)) {
                Err(e) => None,
                Ok((name, value)) => read_fields(
                    rest.skip(line.len() as int),
                    put(acc, name, value),
                ),
            }
        }
    }
}

/// The response at the start of `wire`: status line, header fields, and as
/// many bytes of body as `Content-Length` says.
pub open spec fn read_response(wire: Seq<u8>) -> Option<Reading> {
    let line: Seq<u8> = byte_line(wire);
    if !valid_utf8(line) {
        None
    } else {
        match status_of(decode_utf8(line)) {
            None => None,
            Some(status) => match read_fields(wire.skip(line.len() as int), Seq::empty()) {
                None => None,
                Some((headers, rest)) => match lookup(headers, "Content-Length"@) {
                    None => None,
                    Some(length) => match number(length) {
                        None => None,
                        Some(n) => if n <= rest.len() {
                            Some(Reading { status, headers, body: rest.take(n as int) })
                        } else {
                            None
                        },
                    },
                },
            },
        }
    }
}

/// A decimal is made of digits.
pub proof fn lemma_decimal_digits(n: nat)
    ensures
        decimal(n).len() > 0,
        forall|i: int| 0 <= i < decimal(n).len() ==> '0' <= #[trigger] decimal(n)[i] <= '9',
    decreases n,
{
    if n >= 10 {
        lemma_decimal_digits(n / 10);
        let high: Seq<char> = decimal(n / 10);
        assert forall|i: int| 0 <= i < decimal(n).len() implies '0' <= #[trigger] decimal(n)[i]
            <= '9' by {
            if i < high.len() {
                assert(decimal(n)[i] == high[i]);
            }
        }
    }
}

/// A decimal reads back as its number.
pub proof fn lemma_number_of_decimal(n: nat)
    ensures
        number(decimal(n)) == Some(n),
    decreases n,
{
    if n >= 10 {
        lemma_number_of_decimal(n / 10);
        lemma_decimal_digits(n / 10);
        let s: Seq<char> = decimal(n);
        assert(s.drop_last() == decimal(n / 10));
        assert(s.last() == digit(n % 10));
    }
}

/// The UTF-8 of two texts in a row is the UTF-8 of the one and then of the
/// other.
pub proof fn lemma_encode_concat(a: Seq<char>, b: Seq<char>)
    ensures
        encode_utf8(a + b) == encode_utf8(a) + encode_utf8(b),
    decreases a.len(),
{
    if a.len() == 0 {
        assert(a + b == b);
        assert(encode_utf8(a) + encode_utf8(b) == encode_utf8(b));
    } else {
        assert((a + b)[0] == a[0]);
        assert((a + b).drop_first() == a.drop_first() + b);
        lemma_encode_concat(a.drop_first(), b);
        assert(encode_utf8(a + b) == encode_scalar(a[0] as u32) + (encode_utf8(a.drop_first())
            + encode_utf8(b)));
        assert(encode_utf8(a + b) == encode_utf8(a) + encode_utf8(b));
    }
}

/// No byte of the UTF-8 of a scalar other than the line feed is the line
/// feed byte, and the line feed is one byte, itself.
proof fn lemma_scalar_bytes(c: u32)
    by (bit_vector)
    requires
        c != 10,
        is_scalar(c),
    ensures
        has_width_1_encoding(c) ==> leading_byte_width_1(c) != 10,
        has_width_1_encoding(c) || (leading_byte_width_2(c) != 10 && last_continuation_byte(c)
            != 10),
        has_width_1_encoding(c) || has_width_2_encoding(c) || (leading_byte_width_3(c) != 10
            && second_last_continuation_byte(c) != 10),
        has_width_1_encoding(c) || has_width_2_encoding(c) || has_width_3_encoding(c) || (
        leading_byte_width_4(c) != 10 && third_last_continuation_byte(c) != 10),
        leading_byte_width_1(10) == 10,
{
}

/// A text without a line feed has no line feed byte in its UTF-8.
pub proof fn lemma_encode_keeps_line_feeds_out(s: Seq<char>)
    requires
        free_of(s, '\n'),
    ensures
        forall|j: int| 0 <= j < encode_utf8(s).len() ==> #[trigger] encode_utf8(s)[j] != 10,
    decreases s.len(),
{
    if s.len() > 0 {
        let c: u32 = s[0] as u32;
        let first: Seq<u8> = encode_scalar(c);
        let rest: Seq<char> = s.drop_first();
        assert(c != 10) by {
            if c == 10 {
                assert('\n' as u32 == 10);
                char_u32_cast(s[0], 10u32);
                char_u32_cast('\n', 10u32);
            }
        }
        char_is_scalar(s[0]);
        lemma_scalar_bytes(c);
        assert forall|i: int| 0 <= i < rest.len() implies #[trigger] rest[i] != '\n' by {
            assert(rest[i] == s[i + 1]);
        }
        lemma_encode_keeps_line_feeds_out(rest);
        assert forall|j: int| 0 <= j < encode_utf8(s).len() implies #[trigger] encode_utf8(s)[j]
            != 10 by {
            if j < first.len() {
                assert(encode_utf8(s)[j] == first[j]);
            } else {
                assert(encode_utf8(s)[j] == encode_utf8(rest)[j - first.len()]);
            }
        }
    }
}

/// A line of text that ends in the only line feed it holds reads back from
/// its UTF-8 as a line of its own, whatever stands behind it.
pub proof fn lemma_line_reads_back(body: Seq<char>, rest: Seq<u8>)
    requires
        free_of(body, '\n'),
    ensures
        ({
            let line: Seq<u8> = encode_utf8(body.push('\n'));
            &&& byte_line(line + rest) == line
            &&& (line + rest).skip(line.len() as int) == rest
            &&& valid_utf8(line)
            &&& decode_utf8(line) == body.push('\n')
        }),
{
    let text: Seq<char> = body.push('\n');
    let line: Seq<u8> = encode_utf8(text);
    let front: Seq<u8> = encode_utf8(body);
    assert(text == body + seq!['\n']);
    lemma_encode_concat(body, seq!['\n']);
    lemma_scalar_bytes(32);
    assert(encode_utf8(seq!['\n']) == seq![10u8]) by {
        let one: Seq<char> = seq!['\n'];
        assert(one[0] as u32 == 10);
        assert(encode_utf8(one.drop_first()) == Seq::<u8>::empty());
        assert(encode_scalar(10) == seq![10u8]);
        assert(encode_utf8(one) == encode_scalar(10) + encode_utf8(one.drop_first()));
    }
    assert(line == front.push(10u8));
    lemma_encode_keeps_line_feeds_out(body);
    let all: Seq<u8> = line + rest;
    assert forall|i: int| 0 <= i < front.len() implies other_than(10u8)(#[trigger] all[i]) by {
        assert(all[i] == front[i]);
    }
    assert(all[front.len() as int] == 10u8);
    lemma_span_is(all, other_than(10u8), front.len() as int);
    assert(all.take(front.len() as int + 1) == line);
    assert(all.skip(line.len() as int) == rest);
    encode_utf8_valid_utf8(text);
    encode_utf8_decode_utf8(text);
}

/// Written header fields read back from their UTF-8 as the fields that were
/// written, the values trimmed, and leave what stands behind the blank line.
pub proof fn lemma_fields_read_back(fields: Pairs, acc: Pairs, body: Seq<u8>)
    requires
        writable(fields),
    ensures
        read_fields(encode_utf8(field_lines(fields) + "\r\n"@) + body, acc) == Some(
            (collected(acc, fields), body),
        ),
    decreases fields.len(),
{
    reveal_strlit("\r\n");
    reveal_strlit(": ");
    assert("\r\n"@ == seq!['\r', '\n']);
    assert(": "@ == seq![':', ' ']);
    let text: Seq<char> = field_lines(fields) + "\r\n"@;
    if fields.len() == 0 {
        assert(text == seq!['\r'].push('\n'));
        lemma_line_reads_back(seq!['\r'], body);
    } else {
        let name: Seq<char> = fields[0].0;
        let value: Seq<char> = fields[0].1;
        let later: Pairs = fields.drop_first();
        let line: Seq<char> = field_line(name, value);
        let rest: Seq<char> = field_lines(later) + "\r\n"@;
        assert(text == line + rest);
        lemma_encode_concat(line, rest);
        let behind: Seq<u8> = encode_utf8(rest) + body;
        assert(encode_utf8(text) + body == encode_utf8(line) + behind);
        let front: Seq<char> = name + seq![':', ' '] + value + seq!['\r'];
        assert(line == front.push('\n'));
        assert forall|i: int| 0 <= i < front.len() implies #[trigger] front[i] != '\n' by {
            if i < name.len() {
                assert(front[i] == name[i]);
            } else if i < name.len() + 2 {
            } else if i < name.len() + 2 + value.len() {
                assert(front[i] == value[i - name.len() - 2]);
            } else {
            }
        }
        lemma_line_reads_back(front, behind);
        lemma_field_line_reads(name, value, rest);
        assert forall|i: int| 0 <= i < later.len() implies {
            &&& free_of((#[trigger] later[i]).0, ':')
            &&& free_of(later[i].0, '\n')
            &&& free_of(later[i].1, '\n')
        } by {
            assert(later[i] == fields[i + 1]);
        }
        lemma_fields_read_back(later, put(acc, name, trim(value)), body);
    }
}

/// The status line of a status reads back as that status, from its UTF-8
/// and whatever stands behind it.
pub proof fn lemma_status_line_reads_back(status: Status, rest: Seq<u8>)
    ensures
        ({
            let line: Seq<u8> = encode_utf8(status_line(status));
            &&& byte_line(line + rest) == line
            &&& (line + rest).skip(line.len() as int) == rest
            &&& valid_utf8(line)
            &&& status_of(decode_utf8(line)) == Some(status)
        }),
{
    reveal_strlit("HTTP/1.1 ");
    reveal_strlit("OK");
    reveal_strlit("Not Found");
    reveal_strlit(" ");
    reveal_strlit("\r\n");
    assert("\r\n"@ == seq!['\r', '\n']);
    let code: Seq<char> = decimal(status.spec_code() as nat);
    lemma_decimal_digits(status.spec_code() as nat);
    let front: Seq<char> = "HTTP/1.1 "@ + status.text() + seq!['\r'];
    assert(status_line(status) == front.push('\n'));
    assert(free_of(front, '\n')) by {
        assert forall|i: int| 0 <= i < front.len() implies #[trigger] front[i] != '\n' by {
            if i < 9 {
                assert(front[i] == "HTTP/1.1 "@[i]);
            } else if i < 9 + code.len() {
                assert(front[i] == code[i - 9]);
            } else if i < 9 + code.len() + 1 {
            } else if i < 9 + status.text().len() {
                assert(front[i] == status.phrase()[i - 9 - code.len() - 1]);
            } else {
            }
        }
    }
    lemma_line_reads_back(front, rest);
    assert(status_line(Status::OK) != status_line(Status::NotFound)) by {
        assert(decimal(2) == seq!['2']);
        assert(decimal(20) == seq!['2', '0']);
        assert(decimal(200) == seq!['2', '0', '0']);
        assert(decimal(4) == seq!['4']);
        assert(decimal(40) == seq!['4', '0']);
        assert(decimal(404) == seq!['4', '0', '4']);
        assert(status_line(Status::OK)[9] == '2');
        assert(status_line(Status::NotFound)[9] == '4');
    }
}

/// A response with its content in memory reads back from what was written
/// for it: the status, the content type, a content length that is the number
/// of bytes of the content, and the content. The content type is one that
/// can stand in a header line: it holds no line feed, and no whitespace at
/// its ends.
pub proof fn lemma_fixed_content_reads_back(
    status: Status,
    content: Seq<u8>,
    content_type: Seq<char>,
)
    requires
        free_of(content_type, '\n'),
        content_type.len() > 0 ==> !is_whitespace(content_type[0]) && !is_whitespace(
            content_type.last(),
        ),
    ensures
        read_response(written(fixed_content(status, content, content_type))) == Some(
            Reading {
                status,
                headers: seq![
                    ("Content-Type"@, content_type),
                    ("Content-Length"@, decimal(content.len())),
                ],
                body: content,
            },
        ),
        lookup(fixed_content(status, content, content_type).headers, "Content-Type"@) == Some(
            content_type,
        ),
        lookup(fixed_content(status, content, content_type).headers, "Content-Length"@) == Some(
            decimal(content.len()),
        ),
        number(decimal(content.len())) == Some(content.len()),
{
    let r: ResponseView = fixed_content(status, content, content_type);
    let length: Seq<char> = decimal(content.len());
    let fields: Pairs = r.headers;
    reveal_strlit("Content-Type");
    reveal_strlit("Content-Length");
    lemma_field_names_differ();
    lemma_decimal_digits(content.len());
    lemma_number_of_decimal(content.len());
    lemma_trim_plain(content_type);
    lemma_trim_plain(length);
    lemma_two_fields("Content-Type"@, content_type, "Content-Length"@, length);
    assert(writable(fields)) by {
        assert forall|i: int| 0 <= i < fields.len() implies {
            &&& free_of((#[trigger] fields[i]).0, ':')
            &&& free_of(fields[i].0, '\n')
            &&& free_of(fields[i].1, '\n')
        } by {
            if i == 0 {
                assert(fields[0].0 == "Content-Type"@);
            } else {
                assert(fields[1].0 == "Content-Length"@);
            }
        }
    }
    assert(collected(Seq::empty(), fields) == fields) by {
        let one: Pairs = put(Seq::empty(), "Content-Type"@, trim(content_type));
        assert(fields.drop_first().drop_first() == Seq::<(Seq<char>, Seq<char>)>::empty());
        assert(fields.drop_first()[0] == fields[1]);
        assert(collected(put(one, "Content-Length"@, trim(length)), fields.drop_first().drop_first())
            == put(one, "Content-Length"@, trim(length)));
        assert(collected(one, fields.drop_first()) == put(one, "Content-Length"@, trim(length)));
    }
    let head: Seq<char> = head_text(status, fields);
    let block: Seq<char> = field_lines(fields) + "\r\n"@;
    assert(head == status_line(status) + block);
    lemma_encode_concat(status_line(status), block);
    let behind: Seq<u8> = encode_utf8(block) + content;
    assert(written(r) == encode_utf8(status_line(status)) + behind);
    lemma_status_line_reads_back(status, behind);
    lemma_fields_read_back(fields, Seq::empty(), content);
    assert(content.take(content.len() as int) == content);
}

} // verus!
