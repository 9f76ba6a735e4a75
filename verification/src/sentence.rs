//! Reading a position out of one line of a receiver's log.
//!
//! A fix sentence begins with `$`, two bytes that name the talker, and
//! `GGA`. Its fields follow a comma and are parted by commas, up to a `*`
//! or the end of the line. Counted from 0, field 1 is the latitude as
//! `DDMM.MMMM`, field 2 its hemisphere `N` or `S`, field 3 the longitude as
//! `DDDMM.MMMM`, field 4 its hemisphere `E` or `W`, and field 8 the altitude
//! in metres. Any other line is not a fix sentence and holds no position.
//!
//! The coordinates are read here, into whole numbers. Whether the sentence
//! is sound as a whole (its frame, its checksum field, the fields that are
//! not read here) is left to the `nmea` crate, whose verdict is taken as it
//! comes.
use vstd::prelude::*;
use vstd::string::StringSliceAdditionalSpecFns;
use crate::position::{Position, UNITS_PER_DEGREE, UNITS_PER_METRE, UNITS_PER_MINUTE};
use crate::text::{
    all_digits, digits_value, find_either, is_decimal, is_digit, lemma_find_either, lemma_found,
    parse_decimal, parse_signed_decimal, pow10, scaled, signed_decimal, NINE, ZERO,
};

verus! {

/// The byte `$`.
pub const DOLLAR: u8 = 0x24;

/// The byte `,`.
pub const COMMA: u8 = 0x2c;

/// The byte `*`.
pub const STAR: u8 = 0x2a;

/// The byte `G`.
pub const LETTER_G: u8 = 0x47;

/// The byte `A`.
pub const LETTER_A: u8 = 0x41;

/// The byte `N`, the hemisphere of a positive latitude.
pub const NORTH: u8 = 0x4e;

/// The byte `S`, the hemisphere of a negative latitude.
pub const SOUTH: u8 = 0x53;

/// The byte `E`, the hemisphere of a positive longitude.
pub const EAST: u8 = 0x45;

/// The byte `W`, the hemisphere of a negative longitude.
pub const WEST: u8 = 0x57;

/// The fewest fields that a fix sentence has.
pub const FIELDS: usize = 12;

/// The place of the latitude among the fields; its hemisphere follows it.
pub const LATITUDE_FIELD: usize = 1;

/// The place of the longitude among the fields; its hemisphere follows it.
pub const LONGITUDE_FIELD: usize = 3;

/// The place of the altitude among the fields.
pub const ALTITUDE_FIELD: usize = 8;

/// The digits that write the degrees of a latitude.
pub const LATITUDE_WIDTH: usize = 2;

/// The digits that write the degrees of a longitude.
pub const LONGITUDE_WIDTH: usize = 3;

/// The decimal places of a minute that a position keeps.
pub const MINUTE_PLACES: u8 = 5;

/// The decimal places of a metre that a position keeps.
pub const METRE_PLACES: u8 = 3;

/// The largest coordinate that a position holds.
pub const LARGEST: u32 = 0x7fff_ffff;

/// The coordinate that a field failed to give.
#[derive(Clone, Copy, Debug, PartialEq, Eq, Structural)]
pub enum Field {
    Latitude,
    Longitude,
    Altitude,
}

/// Why a fix sentence could not be read. `start` and `end` bound the bytes
/// of the offending field within the line.
#[derive(Clone, Copy, Debug, PartialEq, Eq, Structural)]
pub enum ParseError {
    /// The sentence has `found` fields, fewer than a fix sentence has.
    FieldCount { found: usize },
    /// The field is no number of the expected form, or one too large to hold.
    Number { field: Field, start: usize, end: usize },
    /// The hemisphere of the coordinate is neither of its two letters.
    Hemisphere { field: Field, start: usize, end: usize },
    /// The coordinates can be read, but the sentence as a whole is not sound.
    Malformed,
}

/// Whether `line` begins as a fix sentence does: with `$`, two bytes of any
/// kind, and the letters `GGA`.
pub open spec fn is_fix_sentence(line: Seq<u8>) -> bool {
    &&& line.len() >= 6
    &&& line[0] == DOLLAR
    &&& line[3] == LETTER_G
    &&& line[4] == LETTER_G
    &&& line[5] == LETTER_A
}

/// The bounds of the fields of `line` from the one that begins at `start`.
pub open spec fn spans_from(line: Seq<u8>, start: int) -> Seq<(int, int)>
    decreases line.len() - start,
{
    let end = find_either(line, start, COMMA, STAR);
    if start <= end < line.len() && line[end] == COMMA {
        seq![(start, end)] + spans_from(line, end + 1)
    } else {
        seq![(start, end)]
    }
}

/// The bounds of the fields of the sentence `line`, in order: where each
/// begins and where it ends.
pub open spec fn field_spans(line: Seq<u8>) -> Seq<(int, int)> {
    if line.len() > 6 && line[6] == COMMA {
        spans_from(line, 7)
    } else {
        Seq::empty()
    }
}

/// The bytes of `line` within `span`.
pub open spec fn text(line: Seq<u8>, span: (int, int)) -> Seq<u8> {
    line.subrange(span.0, span.1)
}

/// The whole degrees that the coordinate field `s` begins with.
pub open spec fn degrees(s: Seq<u8>, width: nat) -> nat {
    digits_value(s.take(width as int))
}

/// The minutes that follow the degrees in the coordinate field `s`, in
/// units of a position.
pub open spec fn minute_units(s: Seq<u8>, width: nat) -> nat {
    scaled(s.skip(width as int), MINUTE_PLACES as nat)
}

/// The size of the coordinate that the field `s` writes as degrees in
/// `width` digits and decimal minutes, in units of a position: degrees plus
/// a sixtieth of the minutes. Nothing if `s` is not of that form or writes
/// more than a position holds.
pub open spec fn coordinate(s: Seq<u8>, width: nat) -> Option<nat> {
    if s.len() > width && all_digits(s.take(width as int)) && is_decimal(s.skip(width as int))
        && degrees(s, width) * UNITS_PER_DEGREE + minute_units(s, width) <= LARGEST {
        Some((degrees(s, width) * UNITS_PER_DEGREE + minute_units(s, width)) as nat)
    } else {
        None
    }
}

/// Whether `mark` is the one letter `letter`.
pub open spec fn is_letter(mark: Seq<u8>, letter: u8) -> bool {
    mark.len() == 1 && mark[0] == letter
}

/// What a coordinate field and its hemisphere field give: the signed
/// coordinate, nothing if the coordinate is left empty, or the reason why
/// they cannot be read.
pub open spec fn reading(
    line: Seq<u8>,
    value: (int, int),
    mark: (int, int),
    width: nat,
    positive: u8,
    negative: u8,
    field: Field,
) -> Result<Option<int>, ParseError> {
    let size = coordinate(text(line, value), width);
    if text(line, value).len() > 0 && size is None {
        Err(ParseError::Number { field, start: value.0 as usize, end: value.1 as usize })
    } else if is_letter(text(line, mark), positive) {
        if size is Some {
            Ok(Some(size->0 as int))
        } else {
            Ok(None)
        }
    } else if is_letter(text(line, mark), negative) {
        if size is Some {
            Ok(Some(-(size->0 as int)))
        } else {
            Ok(None)
        }
    } else if text(line, mark).len() == 0 && text(line, value).len() == 0 {
        Ok(None)
    } else {
        Err(ParseError::Hemisphere { field, start: mark.0 as usize, end: mark.1 as usize })
    }
}

/// What the altitude field gives: millimetres, nothing if it is left
/// empty, or the reason why it cannot be read.
pub open spec fn altitude_reading(line: Seq<u8>, value: (int, int)) -> Result<
    Option<int>,
    ParseError,
> {
    let height = signed_decimal(text(line, value), METRE_PLACES as nat, LARGEST as nat);
    if text(line, value).len() == 0 {
        Ok(None)
    } else if height is Some {
        Ok(Some(height->0))
    } else {
        Err(
            ParseError::Number {
                field: Field::Altitude,
                start: value.0 as usize,
                end: value.1 as usize,
            },
        )
    }
}

/// The bytes of field `k` of the sentence `line`.
pub open spec fn field_text(line: Seq<u8>, k: int) -> Seq<u8> {
    text(line, field_spans(line)[k])
}

/// The sign that the hemisphere `mark` gives: minus if it is the letter
/// `negative`, plus otherwise.
pub open spec fn sign(mark: Seq<u8>, negative: u8) -> int {
    if is_letter(mark, negative) {
        -1
    } else {
        1
    }
}

/// Whether `mark` holds something other than one of the two letters.
pub open spec fn is_foreign(mark: Seq<u8>, positive: u8, negative: u8) -> bool {
    mark.len() > 0 && !is_letter(mark, positive) && !is_letter(mark, negative)
}

/// Whether a hemisphere field of the sentence `line` holds something other
/// than one of its two letters.
pub open spec fn has_foreign_hemisphere(line: Seq<u8>) -> bool {
    ||| field_spans(line).len() > LATITUDE_FIELD + 1 && is_foreign(
        field_text(line, LATITUDE_FIELD + 1),
        NORTH,
        SOUTH,
    )
    ||| field_spans(line).len() > LONGITUDE_FIELD + 1 && is_foreign(
        field_text(line, LONGITUDE_FIELD + 1),
        EAST,
        WEST,
    )
}

/// The latitude that the sentence `line` gives.
pub open spec fn latitude_of(line: Seq<u8>) -> Result<Option<int>, ParseError> {
    reading(
        line,
        field_spans(line)[LATITUDE_FIELD as int],
        field_spans(line)[LATITUDE_FIELD + 1],
        LATITUDE_WIDTH as nat,
        NORTH,
        SOUTH,
        Field::Latitude,
    )
}

/// The longitude that the sentence `line` gives.
pub open spec fn longitude_of(line: Seq<u8>) -> Result<Option<int>, ParseError> {
    reading(
        line,
        field_spans(line)[LONGITUDE_FIELD as int],
        field_spans(line)[LONGITUDE_FIELD + 1],
        LONGITUDE_WIDTH as nat,
        EAST,
        WEST,
        Field::Longitude,
    )
}

/// The altitude that the sentence `line` gives.
pub open spec fn altitude_of(line: Seq<u8>) -> Result<Option<int>, ParseError> {
    altitude_reading(line, field_spans(line)[ALTITUDE_FIELD as int])
}

/// What the fields of a line give: no position if it is no fix sentence, or
/// if the sentence leaves a coordinate empty; else the position, or the
/// first reason, in the order of the fields, why they cannot be read.
pub open spec fn parsed(line: Seq<u8>) -> Result<Option<Position>, ParseError> {
    if !is_fix_sentence(line) {
        Ok(None)
    } else if field_spans(line).len() < FIELDS {
        Err(ParseError::FieldCount { found: field_spans(line).len() as usize })
    } else if latitude_of(line) is Err {
        Err(latitude_of(line)->Err_0)
    } else if longitude_of(line) is Err {
        Err(longitude_of(line)->Err_0)
    } else if altitude_of(line) is Err {
        Err(altitude_of(line)->Err_0)
    } else if latitude_of(line)->Ok_0 is Some && longitude_of(line)->Ok_0 is Some && altitude_of(
        line,
    )->Ok_0 is Some {
        Ok(
            Some(
                Position {
                    lat: latitude_of(line)->Ok_0->0 as i32,
                    lon: longitude_of(line)->Ok_0->0 as i32,
                    alt: altitude_of(line)->Ok_0->0 as i32,
                },
            ),
        )
    } else {
        Ok(None)
    }
}

/// Whether the `nmea` crate reads `line` as a fix sentence:
/// `nmea::parse_nmea_sentence` takes it apart and `nmea::sentences::parse_gga`
/// reads what it holds.
pub uninterp spec fn nmea_accepts(line: Seq<char>) -> bool;

/// What a line holds, given whether the sentence is sound as a whole: what
/// its fields give, but for a fix sentence whose fields can be read and
/// which is not sound, which is an error.
pub open spec fn outcome(line: Seq<u8>, accepted: bool) -> Result<Option<Position>, ParseError> {
    if is_fix_sentence(line) && parsed(line) is Ok && !accepted {
        Err(ParseError::Malformed)
    } else {
        parsed(line)
    }
}

/// The units of a position are those that the decimal places kept give: a
/// minute has ten to the power of its places, a degree sixty minutes, a
/// metre ten to the power of its places.
pub proof fn lemma_units()
    ensures
        UNITS_PER_MINUTE == pow10(MINUTE_PLACES as nat),
        UNITS_PER_DEGREE == 60 * UNITS_PER_MINUTE,
        UNITS_PER_METRE == pow10(METRE_PLACES as nat),
{
    reveal_with_fuel(pow10, 6);
}

/// A position read from a sentence is what its fields write: along
/// latitude and longitude, the degrees plus a sixtieth of the minutes,
/// positive in the hemispheres `N` and `E` and negative in `S` and `W`; and
/// the altitude.
pub proof fn lemma_position_is_degrees_and_minutes(line: Seq<u8>, accepted: bool, p: Position)
    requires
        outcome(line, accepted) == Ok::<Option<Position>, ParseError>(Some(p)),
    ensures
        is_fix_sentence(line),
        is_letter(field_text(line, LATITUDE_FIELD + 1), NORTH) || is_letter(
            field_text(line, LATITUDE_FIELD + 1),
            SOUTH,
        ),
        is_letter(field_text(line, LONGITUDE_FIELD + 1), EAST) || is_letter(
            field_text(line, LONGITUDE_FIELD + 1),
            WEST,
        ),
        p.lat == sign(field_text(line, LATITUDE_FIELD + 1), SOUTH) * (degrees(
            field_text(line, LATITUDE_FIELD as int),
            LATITUDE_WIDTH as nat,
        ) * UNITS_PER_DEGREE + minute_units(
            field_text(line, LATITUDE_FIELD as int),
            LATITUDE_WIDTH as nat,
        )),
        p.lon == sign(field_text(line, LONGITUDE_FIELD + 1), WEST) * (degrees(
            field_text(line, LONGITUDE_FIELD as int),
            LONGITUDE_WIDTH as nat,
        ) * UNITS_PER_DEGREE + minute_units(
            field_text(line, LONGITUDE_FIELD as int),
            LONGITUDE_WIDTH as nat,
        )),
        signed_decimal(
            field_text(line, ALTITUDE_FIELD as int),
            METRE_PLACES as nat,
            LARGEST as nat,
        ) == Some(p.alt as int),
{
    lemma_signed_decimal_bound(
        field_text(line, ALTITUDE_FIELD as int),
        METRE_PLACES as nat,
        LARGEST as nat,
    );
}

/// A line that does not begin as a fix sentence holds no position, and is
/// no error.
pub proof fn lemma_other_lines_hold_nothing(line: Seq<u8>, accepted: bool)
    requires
        !is_fix_sentence(line),
    ensures
        outcome(line, accepted) == Ok::<Option<Position>, ParseError>(None),
{
}

/// A fix sentence with a hemisphere that is neither of its two letters is
/// an error.
pub proof fn lemma_foreign_hemisphere_fails(line: Seq<u8>, accepted: bool)
    requires
        is_fix_sentence(line),
        has_foreign_hemisphere(line),
    ensures
        outcome(line, accepted) is Err,
{
}

/// Every span that `spans_from` gives lies within the line.
pub proof fn lemma_spans_within(line: Seq<u8>, start: int, k: int)
    requires
        0 <= start <= line.len(),
        0 <= k < spans_from(line, start).len(),
    ensures
        start <= spans_from(line, start)[k].0 <= spans_from(line, start)[k].1 <= line.len(),
    decreases line.len() - start,
{
    lemma_find_either(line, start, COMMA, STAR);
    let end = find_either(line, start, COMMA, STAR);
    if end < line.len() && line[end] == COMMA && k > 0 {
        lemma_spans_within(line, end + 1, k - 1);
    }
}

/// The bounds that an error names lie within the line, the start not after
/// the end; the number of fields that it names is too small for a fix.
pub proof fn lemma_error_lies_within_the_line(line: Seq<u8>, accepted: bool)
    requires
        line.len() <= usize::MAX,
    ensures
        match outcome(line, accepted) {
            Err(ParseError::Number { start, end, .. }) => start <= end <= line.len(),
            Err(ParseError::Hemisphere { start, end, .. }) => start <= end <= line.len(),
            Err(ParseError::FieldCount { found }) => found == field_spans(line).len() && found
                < FIELDS,
            _ => true,
        },
{
    if is_fix_sentence(line) && field_spans(line).len() >= FIELDS {
        lemma_spans_within(line, 7, LATITUDE_FIELD as int);
        lemma_spans_within(line, 7, LATITUDE_FIELD + 1);
        lemma_spans_within(line, 7, LONGITUDE_FIELD as int);
        lemma_spans_within(line, 7, LONGITUDE_FIELD + 1);
        lemma_spans_within(line, 7, ALTITUDE_FIELD as int);
    }
}

/// A signed decimal number within a limit lies between minus the limit and
/// the limit.
pub proof fn lemma_signed_decimal_bound(s: Seq<u8>, places: nat, limit: nat)
    ensures
        signed_decimal(s, places, limit) matches Some(v) ==> -limit <= v <= limit,
{
}

/// The place of the first `a` or `b` in `bytes` at or after `from`, or the
/// length of `bytes`.
fn seek(bytes: &[u8], from: usize, a: u8, b: u8) -> (at: usize)
    requires
        from <= bytes@.len(),
    ensures
        at == find_either(bytes@, from as int, a, b),
        from <= at <= bytes@.len(),
{
    let mut at: usize = from;
    while at < bytes.len() && bytes[at] != a && bytes[at] != b
        invariant
            from <= at <= bytes@.len(),
            forall|k: int| from <= k < at ==> bytes@[k] != a && bytes@[k] != b,
        decreases bytes@.len() - at,
    {
        at = at + 1;
    }
    proof {
        lemma_found(bytes@, from as int, a, b, at as int);
    }
    at
}

/// The bounds of the fields of the sentence `bytes`.
pub fn split_fields(bytes: &[u8]) -> (spans: Vec<(usize, usize)>)
    ensures
        spans@.len() == field_spans(bytes@).len(),
        forall|k: int|
            0 <= k < spans@.len() ==> (#[trigger] spans@[k]).0 == field_spans(bytes@)[k].0
                && spans@[k].1 == field_spans(bytes@)[k].1,
        forall|k: int|
            0 <= k < spans@.len() ==> (#[trigger] spans@[k]).0 <= spans@[k].1 <= bytes@.len(),
{
    let mut spans: Vec<(usize, usize)> = Vec::new();
    if bytes.len() <= 6 || bytes[6] != COMMA {
        return spans;
    }
    let ghost all = field_spans(bytes@);
    let ghost mut seen: Seq<(int, int)> = Seq::empty();
    let mut start: usize = 7;
    let mut more: bool = true;
    while more
        invariant
            7 <= start <= bytes@.len(),
            all == field_spans(bytes@),
            seen.len() == spans@.len(),
            forall|k: int|
                0 <= k < spans@.len() ==> (#[trigger] spans@[k]).0 == seen[k].0 && spans@[k].1
                    == seen[k].1,
            forall|k: int|
                0 <= k < spans@.len() ==> (#[trigger] spans@[k]).0 <= spans@[k].1 <= bytes@.len(),
            more ==> all == seen + spans_from(bytes@, start as int),
            !more ==> all == seen,
        decreases bytes@.len() - start + if more { 1int } else { 0int },
    {
        let end: usize = seek(bytes, start, COMMA, STAR);
        spans.push((start, end));
        proof {
            seen = seen.push((start as int, end as int));
            if end < bytes@.len() && bytes@[end as int] == COMMA {
                assert(all =~= seen + spans_from(bytes@, end + 1));
            } else {
                assert(all =~= seen);
            }
        }
        if end < bytes.len() && bytes[end] == COMMA {
            start = end + 1;
        } else {
            more = false;
        }
    }
    spans
}

/// Reads the bytes from `start` to `end` as degrees in `width` digits and
/// decimal minutes, in units of a position.
fn parse_coordinate(bytes: &[u8], start: usize, end: usize, width: usize) -> (r: Option<i32>)
    requires
        start <= end <= bytes@.len(),
        width <= 3,
    ensures
        r matches Some(v) ==> v >= 0 && coordinate(
            bytes@.subrange(start as int, end as int),
            width as nat,
        ) == Some(v as nat),
        r is None ==> coordinate(bytes@.subrange(start as int, end as int), width as nat) is None,
{
    let ghost s = bytes@.subrange(start as int, end as int);
    if end - start <= width {
        return None;
    }
    let mut whole: u64 = 0;
    let mut i: usize = 0;
    while i < width
        invariant
            0 <= i <= width <= 3,
            start + width < end <= bytes@.len(),
            s == bytes@.subrange(start as int, end as int),
            all_digits(s.take(i as int)),
            whole == digits_value(s.take(i as int)),
            whole <= 999,
            i < 3 ==> whole <= 99,
            i < 2 ==> whole <= 9,
            i < 1 ==> whole == 0,
        decreases width - i,
    {
        let b: u8 = bytes[start + i];
        proof {
            let upto = s.take(i as int + 1);
            assert(upto.drop_last() =~= s.take(i as int));
            assert(upto.last() == b);
        }
        if b < ZERO || b > NINE {
            assert(!is_digit(s.take(width as int)[i as int]));
            return None;
        }
        whole = whole * 10 + (b - ZERO) as u64;
        i = i + 1;
    }
    assert(s.skip(width as int) =~= bytes@.subrange(start + width, end as int));
    match parse_decimal(bytes, start + width, end, MINUTE_PLACES, LARGEST) {
        None => None,
        Some(minutes) => {
            let total: u64 = whole * (UNITS_PER_DEGREE as u64) + minutes;
            if total > LARGEST as u64 {
                None
            } else {
                Some(total as i32)
            }
        },
    }
}

/// Reads a coordinate field and the hemisphere field after it.
fn read_axis(
    bytes: &[u8],
    value: (usize, usize),
    mark: (usize, usize),
    width: usize,
    positive: u8,
    negative: u8,
    field: Field,
) -> (r: Result<Option<i32>, ParseError>)
    requires
        value.0 <= value.1 <= bytes@.len(),
        mark.0 <= mark.1 <= bytes@.len(),
        width <= 3,
    ensures
        match r {
            Ok(Some(v)) => reading(
                bytes@,
                (value.0 as int, value.1 as int),
                (mark.0 as int, mark.1 as int),
                width as nat,
                positive,
                negative,
                field,
            ) == Ok::<Option<int>, ParseError>(Some(v as int)),
            Ok(None) => reading(
                bytes@,
                (value.0 as int, value.1 as int),
                (mark.0 as int, mark.1 as int),
                width as nat,
                positive,
                negative,
                field,
            ) == Ok::<Option<int>, ParseError>(None),
            Err(e) => reading(
                bytes@,
                (value.0 as int, value.1 as int),
                (mark.0 as int, mark.1 as int),
                width as nat,
                positive,
                negative,
                field,
            ) == Err::<Option<int>, ParseError>(e),
        },
{
    let size = parse_coordinate(bytes, value.0, value.1, width);
    let empty = value.0 == value.1;
    if !empty && size.is_none() {
        return Err(ParseError::Number { field, start: value.0, end: value.1 });
    }
    proof {
        if empty {
            assert(coordinate(text(bytes@, (value.0 as int, value.1 as int)), width as nat) is None);
        }
    }
    let single = mark.1 - mark.0 == 1;
    proof {
        let letter = text(bytes@, (mark.0 as int, mark.1 as int));
        assert(letter.len() == mark.1 - mark.0);
        if single {
            assert(letter[0] == bytes@[mark.0 as int]);
        }
        assert(text(bytes@, (value.0 as int, value.1 as int)).len() == value.1 - value.0);
    }
    if single && bytes[mark.0] == positive {
        match size {
            Some(v) => Ok(Some(v)),
            None => Ok(None),
        }
    } else if single && bytes[mark.0] == negative {
        match size {
            Some(v) => Ok(Some(-v)),
            None => Ok(None),
        }
    } else if mark.0 == mark.1 && empty {
        Ok(None)
    } else {
        Err(ParseError::Hemisphere { field, start: mark.0, end: mark.1 })
    }
}

/// Reads the altitude field.
fn read_altitude(bytes: &[u8], value: (usize, usize)) -> (r: Result<Option<i32>, ParseError>)
    requires
        value.0 <= value.1 <= bytes@.len(),
    ensures
        match r {
            Ok(Some(v)) => altitude_reading(bytes@, (value.0 as int, value.1 as int)) == Ok::<
                Option<int>,
                ParseError,
            >(Some(v as int)),
            Ok(None) => altitude_reading(bytes@, (value.0 as int, value.1 as int)) == Ok::<
                Option<int>,
                ParseError,
            >(None),
            Err(e) => altitude_reading(bytes@, (value.0 as int, value.1 as int)) == Err::<
                Option<int>,
                ParseError,
            >(e),
        },
{
    if value.0 == value.1 {
        return Ok(None);
    }
    match parse_signed_decimal(bytes, value.0, value.1, METRE_PLACES, LARGEST) {
        Some(v) => Ok(Some(v as i32)),
        None => Err(ParseError::Number { field: Field::Altitude, start: value.0, end: value.1 }),
    }
}

/// Whether `bytes` begin as a fix sentence does.
pub fn begins_fix_sentence(bytes: &[u8]) -> (b: bool)
    ensures
        b == is_fix_sentence(bytes@),
{
    bytes.len() >= 6 && bytes[0] == DOLLAR && bytes[3] == LETTER_G && bytes[4] == LETTER_G
        && bytes[5] == LETTER_A
}

/// Reads the coordinates out of the fields of one line, given as its bytes.
///
/// Gives no position for a line that is no fix sentence, and for a fix
/// sentence that leaves latitude, longitude or altitude empty. Fails on a
/// fix sentence with too few fields, with a coordinate that is no number
/// of its form, or with a hemisphere that is neither of its two letters.
pub fn parse_fields(bytes: &[u8]) -> (r: Result<Option<Position>, ParseError>)
    ensures
        r == parsed(bytes@),
{
    if !begins_fix_sentence(bytes) {
        return Ok(None);
    }
    let spans = split_fields(bytes);
    if spans.len() < FIELDS {
        return Err(ParseError::FieldCount { found: spans.len() });
    }
    let lat = match read_axis(
        bytes,
        spans[LATITUDE_FIELD],
        spans[LATITUDE_FIELD + 1],
        LATITUDE_WIDTH,
        NORTH,
        SOUTH,
        Field::Latitude,
    ) {
        Ok(v) => v,
        Err(e) => {
            return Err(e);
        },
    };
    let lon = match read_axis(
        bytes,
        spans[LONGITUDE_FIELD],
        spans[LONGITUDE_FIELD + 1],
        LONGITUDE_WIDTH,
        EAST,
        WEST,
        Field::Longitude,
    ) {
        Ok(v) => v,
        Err(e) => {
            return Err(e);
        },
    };
    let alt = match read_altitude(bytes, spans[ALTITUDE_FIELD]) {
        Ok(v) => v,
        Err(e) => {
            return Err(e);
        },
    };
    match (lat, lon, alt) {
        (Some(lat), Some(lon), Some(alt)) => Ok(Some(Position { lat, lon, alt })),
        _ => Ok(None),
    }
}

/// Reads one line of a log, given as its bytes and the verdict on the
/// sentence as a whole.
///
/// Gives no position for a line that is no fix sentence, and for a fix
/// sentence that leaves latitude, longitude or altitude empty. Fails on a
/// fix sentence with too few fields, with a coordinate that is no number
/// of its form, with a hemisphere that is neither of its two letters, or
/// that is not `accepted`.
pub fn parse_sentence(bytes: &[u8], accepted: bool) -> (r: Result<Option<Position>, ParseError>)
    ensures
        r == outcome(bytes@, accepted),
{
    match parse_fields(bytes) {
        Err(e) => Err(e),
        Ok(found) => {
            if begins_fix_sentence(bytes) && !accepted {
                Err(ParseError::Malformed)
            } else {
                Ok(found)
            }
        },
    }
}

/// Asks the `nmea` crate whether `line` is a fix sentence that it can read:
/// `nmea::parse_nmea_sentence` must take the line apart, and
/// `nmea::sentences::parse_gga` must read the result. Nothing is claimed of
/// the verdict but that the same line gets the same one.
#[verifier::external_body]
fn accepted_by_nmea(line: &str) -> (accepted: bool)
    ensures
        accepted == nmea_accepts(line@),
{
    match nmea::parse_nmea_sentence(line) {
        Ok(sentence) => nmea::sentences::parse_gga(sentence).is_ok(),
        Err(_) => false,
    }
}

/// Reads one line of a log.
///
/// Gives no position for a line that is no fix sentence, and for a fix
/// sentence that leaves latitude, longitude or altitude empty. Fails on a
/// fix sentence with too few fields, with a coordinate that is no number
/// of its form, with a hemisphere that is neither of its two letters, or
/// that the `nmea` crate does not accept.
pub fn parse_line(line: &str) -> (r: Result<Option<Position>, ParseError>)
    ensures
        r == outcome(line.spec_bytes(), nmea_accepts(line@)),
{
    let bytes = line.as_bytes();
    match parse_fields(bytes) {
        Err(e) => Err(e),
        Ok(found) => {
            if begins_fix_sentence(bytes) && !accepted_by_nmea(line) {
                Err(ParseError::Malformed)
            } else {
                Ok(found)
            }
        },
    }
}

} // verus!
