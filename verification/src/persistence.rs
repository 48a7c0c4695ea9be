//! The circle list as text: a header line and one line of six unsigned
//! numbers for each circle, in the list's order.

use crate::circle::Circle;
use crate::text::{
    decimal, digits_value, is_digit, is_number, lemma_decimal_is_number, lemma_decimal_value,
    push_decimal,
};
use vstd::prelude::*;

verus! {

/// The byte that ends a line.
pub const NEWLINE: u8 = 10;

/// The byte that parts the fields of a line.
pub const COMMA: u8 = 44;

/// Why a text is no circle list.
#[derive(Debug, Copy, Clone, PartialEq, Eq, Structural)]
pub enum ParseError {
    /// The first line is not the header.
    Header,
    /// A line has more or fewer than six fields.
    Columns,
    /// A field is not an unsigned number, or is too large for its column.
    Number,
}

/// The header: `x,y,radius,r,g,b`.
pub open spec fn header() -> Seq<u8> {
    seq![120u8, 44, 121, 44, 114, 97, 100, 105, 117, 115, 44, 114, 44, 103, 44, 98]
}

/// The parts of a text between the separators. A text without a separator
/// is one part, and so is an empty text.
pub open spec fn split(text: Seq<u8>, separator: u8) -> Seq<Seq<u8>>
    decreases text.len(),
{
    if text.len() == 0 {
        seq![Seq::empty()]
    } else {
        let parts = split(text.drop_last(), separator);
        if text.last() == separator {
            parts.push(Seq::empty())
        } else {
            parts.drop_last().push(parts.last().push(text.last()))
        }
    }
}

/// The number that a field stands for, where it is one and is at most
/// `max`.
pub open spec fn field_value(field: Seq<u8>, max: nat) -> Option<nat> {
    if is_number(field) && digits_value(field) <= max {
        Some(digits_value(field))
    } else {
        None
    }
}

/// The circle that a line stands for.
pub open spec fn parse_row(line: Seq<u8>) -> Result<Circle, ParseError> {
    let fields = split(line, COMMA);
    if fields.len() != 6 {
        Err(ParseError::Columns)
    } else if field_value(fields[0], u32::MAX as nat).is_none() || field_value(
        fields[1],
        u32::MAX as nat,
    ).is_none() || field_value(fields[2], u32::MAX as nat).is_none() || field_value(
        fields[3],
        u8::MAX as nat,
    ).is_none() || field_value(fields[4], u8::MAX as nat).is_none() || field_value(
        fields[5],
        u8::MAX as nat,
    ).is_none() {
        Err(ParseError::Number)
    } else {
        Ok(
            Circle {
                x: digits_value(fields[0]) as u32,
                y: digits_value(fields[1]) as u32,
                radius: digits_value(fields[2]) as u32,
                r: digits_value(fields[3]) as u8,
                g: digits_value(fields[4]) as u8,
                b: digits_value(fields[5]) as u8,
            },
        )
    }
}

/// The circles that the lines stand for, or what is wrong with the first
/// line that stands for none.
pub open spec fn parse_rows(lines: Seq<Seq<u8>>) -> Result<Seq<Circle>, ParseError>
    decreases lines.len(),
{
    if lines.len() == 0 {
        Ok(Seq::empty())
    } else {
        match parse_rows(lines.drop_last()) {
            Err(error) => Err(error),
            Ok(circles) => match parse_row(lines.last()) {
                Ok(circle) => Ok(circles.push(circle)),
                Err(error) => Err(error),
            },
        }
    }
}

/// The lines of a text. A line break at the very end of the text ends the
/// last line and starts no other.
pub open spec fn lines_of(text: Seq<u8>) -> Seq<Seq<u8>> {
    let lines = split(text, NEWLINE);
    if lines.last().len() == 0 {
        lines.drop_last()
    } else {
        lines
    }
}

/// The circle list that a text stands for: its first line is the header,
/// and each line after it is a circle.
pub open spec fn parse_text(text: Seq<u8>) -> Result<Seq<Circle>, ParseError> {
    let lines = lines_of(text);
    if lines.len() == 0 || lines[0] != header() {
        Err(ParseError::Header)
    } else {
        parse_rows(lines.skip(1))
    }
}

/// The line of a circle: its six numbers with commas between them.
pub open spec fn row_text(circle: Circle) -> Seq<u8> {
    decimal(circle.x as nat) + seq![COMMA] + decimal(circle.y as nat) + seq![COMMA] + decimal(
        circle.radius as nat,
    ) + seq![COMMA] + decimal(circle.r as nat) + seq![COMMA] + decimal(circle.g as nat)
        + seq![COMMA] + decimal(circle.b as nat)
}

/// The header and the lines of the circles, with line breaks between them.
pub open spec fn body_text(circles: Seq<Circle>) -> Seq<u8>
    decreases circles.len(),
{
    if circles.len() == 0 {
        header()
    } else {
        body_text(circles.drop_last()) + seq![NEWLINE] + row_text(circles.last())
    }
}

/// The text of a circle list: the header and a line for each circle, each
/// ended by a line break.
pub open spec fn serialized(circles: Seq<Circle>) -> Seq<u8> {
    body_text(circles) + seq![NEWLINE]
}

/// The lines of the circles.
pub open spec fn row_lines(circles: Seq<Circle>) -> Seq<Seq<u8>>
    decreases circles.len(),
{
    if circles.len() == 0 {
        Seq::empty()
    } else {
        row_lines(circles.drop_last()).push(row_text(circles.last()))
    }
}

/// The texts that a list of buffers holds.
pub open spec fn views(parts: Seq<Vec<u8>>) -> Seq<Seq<u8>> {
    Seq::new(parts.len(), |i: int| parts[i]@)
}

/// Whether a text is free of a byte.
pub open spec fn free_of(text: Seq<u8>, byte: u8) -> bool {
    forall|i: int| 0 <= i < text.len() ==> #[trigger] text[i] != byte
}

/// Writes a circle list as text.
pub fn serialize(circles: &[Circle]) -> (text: Vec<u8>)
    ensures
        text@ == serialized(circles@),
{
    let mut text: Vec<u8> = Vec::new();
    push_header(&mut text);
    let mut i: usize = 0;
    while i < circles.len()
        invariant
            i <= circles@.len(),
            text@ == body_text(circles@.take(i as int)),
        decreases circles@.len() - i,
    {
        assert(circles@.take(i + 1).drop_last() =~= circles@.take(i as int));
        let c = &circles[i];
        let ghost before = text@;
        text.push(NEWLINE);
        push_decimal(&mut text, c.x);
        text.push(COMMA);
        push_decimal(&mut text, c.y);
        text.push(COMMA);
        push_decimal(&mut text, c.radius);
        text.push(COMMA);
        push_decimal(&mut text, c.r as u32);
        text.push(COMMA);
        push_decimal(&mut text, c.g as u32);
        text.push(COMMA);
        push_decimal(&mut text, c.b as u32);
        assert(text@ =~= before + seq![NEWLINE] + row_text(*c));
        i = i + 1;
    }
    assert(circles@.take(circles@.len() as int) =~= circles@);
    text.push(NEWLINE);
    text
}

/// Reads a circle list from text. It fails on the first line that is not
/// what the format asks for, and says what is wrong with it.
pub fn parse(text: &[u8]) -> (result: Result<Vec<Circle>, ParseError>)
    ensures
        match result {
            Ok(circles) => parse_text(text@) == Ok::<Seq<Circle>, ParseError>(circles@),
            Err(error) => parse_text(text@) == Err::<Seq<Circle>, ParseError>(error),
        },
{
    let lines = split_bytes(text, NEWLINE);
    let mut count: usize = lines.len();
    if lines[count - 1].len() == 0 {
        count = count - 1;
    }
    let ghost all = lines_of(text@);
    assert(all =~= views(lines@).take(count as int));
    if count == 0 || !is_header(&lines[0]) {
        return Err(ParseError::Header);
    }
    let ghost rows = all.skip(1);
    let mut circles: Vec<Circle> = Vec::new();
    let mut i: usize = 1;
    while i < count
        invariant
            1 <= i <= count,
            count <= lines.len(),
            all == views(lines@).take(count as int),
            rows == all.skip(1),
            all == lines_of(text@),
            all.len() > 0,
            all[0] == header(),
            parse_rows(rows.take(i - 1)) == Ok::<Seq<Circle>, ParseError>(circles@),
        decreases count - i,
    {
        assert(rows.take(i as int).drop_last() =~= rows.take(i - 1));
        assert(rows.take(i as int).last() == lines[i as int]@);
        match parse_line(&lines[i]) {
            Ok(circle) => {
                circles.push(circle);
            },
            Err(error) => {
                proof {
                    let upto = rows.take(i as int);
                    assert(parse_row(upto.last()) == Err::<Circle, ParseError>(error));
                    assert(parse_rows(upto) == Err::<Seq<Circle>, ParseError>(error));
                    lemma_error_stays(rows, i as int);
                }
                return Err(error);
            },
        }
        i = i + 1;
    }
    assert(rows.take(count - 1) =~= rows);
    Ok(circles)
}

/// Appends the header.
fn push_header(text: &mut Vec<u8>)
    ensures
        final(text)@ == old(text)@ + header(),
{
    text.push(120);
    text.push(44);
    text.push(121);
    text.push(44);
    text.push(114);
    text.push(97);
    text.push(100);
    text.push(105);
    text.push(117);
    text.push(115);
    text.push(44);
    text.push(114);
    text.push(44);
    text.push(103);
    text.push(44);
    text.push(98);
    assert(text@ =~= old(text)@ + header());
}

/// Whether a line is the header.
fn is_header(line: &Vec<u8>) -> (same: bool)
    ensures
        same == (line@ == header()),
{
    let mut expected: Vec<u8> = Vec::new();
    push_header(&mut expected);
    assert(expected@ =~= header());
    if line.len() != expected.len() {
        return false;
    }
    let mut i: usize = 0;
    while i < line.len()
        invariant
            i <= line@.len(),
            line@.len() == expected@.len(),
            expected@ == header(),
            forall|k: int| 0 <= k < i ==> line@[k] == expected@[k],
        decreases line@.len() - i,
    {
        if line[i] != expected[i] {
            return false;
        }
        i = i + 1;
    }
    assert(line@ =~= expected@);
    true
}

/// Cuts a text at each separator.
fn split_bytes(text: &[u8], separator: u8) -> (parts: Vec<Vec<u8>>)
    ensures
        views(parts@) == split(text@, separator),
        parts.len() >= 1,
{
    let mut parts: Vec<Vec<u8>> = Vec::new();
    let mut current: Vec<u8> = Vec::new();
    let mut i: usize = 0;
    while i < text.len()
        invariant
            i <= text@.len(),
            split(text@.take(i as int), separator) == views(parts@).push(current@),
        decreases text@.len() - i,
    {
        assert(text@.take(i + 1).drop_last() =~= text@.take(i as int));
        let ghost done = views(parts@);
        let ghost open = current@;
        if text[i] == separator {
            parts.push(current);
            current = Vec::new();
            assert(views(parts@) =~= done.push(open));
        } else {
            current.push(text[i]);
            assert(done.push(open).drop_last() =~= done);
        }
        assert(split(text@.take(i + 1), separator) =~= views(parts@).push(current@));
        i = i + 1;
    }
    assert(text@.take(text@.len() as int) =~= text@);
    let ghost done = views(parts@);
    let ghost open = current@;
    parts.push(current);
    assert(views(parts@) =~= done.push(open));
    parts
}

/// Reads the number of a field, where it is one that is at most `max`.
fn parse_number(field: &Vec<u8>, max: u32) -> (value: Option<u32>)
    ensures
        match value {
            Some(number) => field_value(field@, max as nat) == Some(number as nat),
            None => field_value(field@, max as nat).is_none(),
        },
{
    if field.len() == 0 {
        return None;
    }
    let mut value: u64 = 0;
    let mut i: usize = 0;
    while i < field.len()
        invariant
            i <= field@.len(),
            is_number(field@.take(i as int)) || i == 0,
            value == digits_value(field@.take(i as int)),
            value <= max,
        decreases field@.len() - i,
    {
        assert(field@.take(i + 1).drop_last() =~= field@.take(i as int));
        let byte: u8 = field[i];
        if byte < 48 || byte > 57 {
            assert(!is_digit(field@[i as int]));
            return None;
        }
        value = value * 10 + (byte - 48) as u64;
        if value > max as u64 {
            proof {
                if is_number(field@) {
                    lemma_value_grows(field@, i + 1);
                }
            }
            return None;
        }
        assert(is_number(field@.take(i + 1))) by {
            assert forall|k: int| 0 <= k < i + 1 implies is_digit(
                #[trigger] field@.take(i + 1)[k],
            ) by {
                if k < i {
                    assert(field@.take(i as int)[k] == field@[k]);
                }
            }
        }
        i = i + 1;
    }
    assert(field@.take(field@.len() as int) =~= field@);
    Some(value as u32)
}

/// Reads the circle of a line.
fn parse_line(line: &Vec<u8>) -> (result: Result<Circle, ParseError>)
    ensures
        result == parse_row(line@),
{
    let fields = split_bytes(line.as_slice(), COMMA);
    if fields.len() != 6 {
        return Err(ParseError::Columns);
    }
    assert(views(fields@)[0] == fields[0]@);
    assert(views(fields@)[1] == fields[1]@);
    assert(views(fields@)[2] == fields[2]@);
    assert(views(fields@)[3] == fields[3]@);
    assert(views(fields@)[4] == fields[4]@);
    assert(views(fields@)[5] == fields[5]@);
    let x = parse_number(&fields[0], u32::MAX);
    let y = parse_number(&fields[1], u32::MAX);
    let radius = parse_number(&fields[2], u32::MAX);
    let r = parse_number(&fields[3], 255);
    let g = parse_number(&fields[4], 255);
    let b = parse_number(&fields[5], 255);
    match (x, y, radius, r, g, b) {
        (Some(x), Some(y), Some(radius), Some(r), Some(g), Some(b)) => Ok(
            Circle { x, y, radius, r: r as u8, g: g as u8, b: b as u8 },
        ),
        _ => Err(ParseError::Number),
    }
}

/// A run of digits stands for no less than any of its beginnings.
proof fn lemma_value_grows(digits: Seq<u8>, k: int)
    requires
        0 <= k <= digits.len(),
        forall|i: int| 0 <= i < digits.len() ==> is_digit(#[trigger] digits[i]),
    ensures
        digits_value(digits.take(k)) <= digits_value(digits),
    decreases digits.len() - k,
{
    if k < digits.len() {
        let rest = digits.drop_last();
        assert(rest.take(k) =~= digits.take(k));
        lemma_value_grows(rest, k);
    } else {
        assert(digits.take(k) =~= digits);
    }
}

/// Once a line is wrong, the lines after it change nothing.
proof fn lemma_error_stays(lines: Seq<Seq<u8>>, k: int)
    requires
        0 <= k <= lines.len(),
        parse_rows(lines.take(k)).is_err(),
    ensures
        parse_rows(lines) == parse_rows(lines.take(k)),
    decreases lines.len() - k,
{
    if k < lines.len() {
        let rest = lines.drop_last();
        assert(rest.take(k) =~= lines.take(k));
        lemma_error_stays(rest, k);
    } else {
        assert(lines.take(k) =~= lines);
    }
}

/// A text without the separator is one part.
pub proof fn lemma_split_whole(text: Seq<u8>, separator: u8)
    requires
        free_of(text, separator),
    ensures
        split(text, separator) == seq![text],
    decreases text.len(),
{
    if text.len() > 0 {
        lemma_split_whole(text.drop_last(), separator);
        assert(text.drop_last().push(text.last()) =~= text);
        assert(seq![text.drop_last()].drop_last().push(text.drop_last().push(text.last()))
            =~= seq![text]);
    } else {
        assert(text =~= Seq::<u8>::empty());
    }
}

/// A text has at least one part.
pub proof fn lemma_split_some(text: Seq<u8>, separator: u8)
    ensures
        split(text, separator).len() >= 1,
    decreases text.len(),
{
    if text.len() > 0 {
        lemma_split_some(text.drop_last(), separator);
    }
}

/// The parts of two texts joined by a separator are the parts of the first
/// and then those of the second.
pub proof fn lemma_split_joined(first: Seq<u8>, second: Seq<u8>, separator: u8)
    ensures
        split(first + seq![separator] + second, separator) == split(first, separator) + split(
            second,
            separator,
        ),
    decreases second.len(),
{
    let joined = first + seq![separator] + second;
    lemma_split_some(second, separator);
    if second.len() == 0 {
        assert(joined.drop_last() =~= first);
        assert(split(first, separator).push(Seq::<u8>::empty()) =~= split(first, separator)
            + split(second, separator));
    } else {
        let shorter = second.drop_last();
        lemma_split_joined(first, shorter, separator);
        lemma_split_some(shorter, separator);
        assert(joined.drop_last() =~= first + seq![separator] + shorter);
        let parts = split(shorter, separator);
        let before = split(first, separator) + parts;
        if second.last() == separator {
            assert(before.push(Seq::<u8>::empty()) =~= split(first, separator) + parts.push(
                Seq::<u8>::empty(),
            ));
        } else {
            assert(before.drop_last().push(before.last().push(second.last())) =~= split(
                first,
                separator,
            ) + parts.drop_last().push(parts.last().push(second.last())));
        }
    }
}

/// The digits of a number hold neither a comma nor a line break.
proof fn lemma_decimal_free(n: nat)
    ensures
        free_of(decimal(n), COMMA),
        free_of(decimal(n), NEWLINE),
{
    lemma_decimal_is_number(n);
    assert forall|i: int| 0 <= i < decimal(n).len() implies #[trigger] decimal(n)[i]
        != COMMA by {
        assert(is_digit(decimal(n)[i]));
    }
    assert forall|i: int| 0 <= i < decimal(n).len() implies #[trigger] decimal(n)[i]
        != NEWLINE by {
        assert(is_digit(decimal(n)[i]));
    }
}

/// The line of a circle reads back as the circle, and holds no line break.
pub proof fn lemma_row_round_trip(circle: Circle)
    ensures
        parse_row(row_text(circle)) == Ok::<Circle, ParseError>(circle),
        free_of(row_text(circle), NEWLINE),
{
    let x = decimal(circle.x as nat);
    let y = decimal(circle.y as nat);
    let radius = decimal(circle.radius as nat);
    let r = decimal(circle.r as nat);
    let g = decimal(circle.g as nat);
    let b = decimal(circle.b as nat);
    lemma_decimal_free(circle.x as nat);
    lemma_decimal_free(circle.y as nat);
    lemma_decimal_free(circle.radius as nat);
    lemma_decimal_free(circle.r as nat);
    lemma_decimal_free(circle.g as nat);
    lemma_decimal_free(circle.b as nat);
    lemma_decimal_is_number(circle.x as nat);
    lemma_decimal_is_number(circle.y as nat);
    lemma_decimal_is_number(circle.radius as nat);
    lemma_decimal_is_number(circle.r as nat);
    lemma_decimal_is_number(circle.g as nat);
    lemma_decimal_is_number(circle.b as nat);
    lemma_decimal_value(circle.x as nat);
    lemma_decimal_value(circle.y as nat);
    lemma_decimal_value(circle.radius as nat);
    lemma_decimal_value(circle.r as nat);
    lemma_decimal_value(circle.g as nat);
    lemma_decimal_value(circle.b as nat);
    lemma_split_whole(x, COMMA);
    lemma_split_whole(y, COMMA);
    lemma_split_whole(radius, COMMA);
    lemma_split_whole(r, COMMA);
    lemma_split_whole(g, COMMA);
    lemma_split_whole(b, COMMA);
    let upto_y = x + seq![COMMA] + y;
    let upto_radius = upto_y + seq![COMMA] + radius;
    let upto_r = upto_radius + seq![COMMA] + r;
    let upto_g = upto_r + seq![COMMA] + g;
    let upto_b = upto_g + seq![COMMA] + b;
    lemma_split_joined(x, y, COMMA);
    lemma_split_joined(upto_y, radius, COMMA);
    lemma_split_joined(upto_radius, r, COMMA);
    lemma_split_joined(upto_r, g, COMMA);
    lemma_split_joined(upto_g, b, COMMA);
    assert(row_text(circle) =~= upto_b);
    assert(split(upto_b, COMMA) =~= seq![x, y, radius, r, g, b]);
    assert forall|i: int| 0 <= i < row_text(circle).len() implies #[trigger] row_text(circle)[i]
        != NEWLINE by {
        let text = row_text(circle);
        if i < x.len() {
            assert(text[i] == x[i]);
        } else if i < x.len() + 1 {
        } else if i < upto_y.len() {
            assert(text[i] == y[i - x.len() - 1]);
        } else if i < upto_y.len() + 1 {
        } else if i < upto_radius.len() {
            assert(text[i] == radius[i - upto_y.len() - 1]);
        } else if i < upto_radius.len() + 1 {
        } else if i < upto_r.len() {
            assert(text[i] == r[i - upto_radius.len() - 1]);
        } else if i < upto_r.len() + 1 {
        } else if i < upto_g.len() {
            assert(text[i] == g[i - upto_r.len() - 1]);
        } else if i < upto_g.len() + 1 {
        } else {
            assert(text[i] == b[i - upto_g.len() - 1]);
        }
    }
}

/// The lines of the body of a text are the header and the lines of the
/// circles.
proof fn lemma_body_lines(circles: Seq<Circle>)
    ensures
        split(body_text(circles), NEWLINE) == seq![header()] + row_lines(circles),
    decreases circles.len(),
{
    if circles.len() == 0 {
        lemma_split_whole(header(), NEWLINE);
        assert(seq![header()] + row_lines(circles) =~= seq![header()]);
    } else {
        let rest = circles.drop_last();
        lemma_body_lines(rest);
        lemma_row_round_trip(circles.last());
        lemma_split_whole(row_text(circles.last()), NEWLINE);
        lemma_split_joined(body_text(rest), row_text(circles.last()), NEWLINE);
        assert((seq![header()] + row_lines(rest)) + seq![row_text(circles.last())] =~= seq![
            header(),
        ] + row_lines(circles));
    }
}

/// The lines of circles read back as the circles.
proof fn lemma_rows_round_trip(circles: Seq<Circle>)
    ensures
        parse_rows(row_lines(circles)) == Ok::<Seq<Circle>, ParseError>(circles),
    decreases circles.len(),
{
    if circles.len() > 0 {
        lemma_rows_round_trip(circles.drop_last());
        lemma_row_round_trip(circles.last());
        assert(row_lines(circles).drop_last() =~= row_lines(circles.drop_last()));
        assert(circles.drop_last().push(circles.last()) =~= circles);
    } else {
        assert(circles =~= Seq::<Circle>::empty());
    }
}

/// The text of a circle list reads back as the list: the same circles in
/// the same order.
pub proof fn lemma_round_trip(circles: Seq<Circle>)
    ensures
        parse_text(serialized(circles)) == Ok::<Seq<Circle>, ParseError>(circles),
{
    let body = body_text(circles);
    let lines = seq![header()] + row_lines(circles);
    lemma_body_lines(circles);
    lemma_rows_round_trip(circles);
    assert(serialized(circles).drop_last() =~= body);
    assert(split(serialized(circles), NEWLINE) == lines.push(Seq::<u8>::empty()));
    assert(lines.push(Seq::<u8>::empty()).drop_last() =~= lines);
    assert(lines_of(serialized(circles)) == lines);
    assert(lines.skip(1) =~= row_lines(circles));
}

} // verus!
