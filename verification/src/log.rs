//! Reading the positions out of the lines of a log.
//!
//! Each line is read on its own. The positions of the lines that hold one
//! are gathered in order; the first line that cannot be read ends the
//! reading, and its number is given with the reason.
use vstd::prelude::*;
use vstd::string::StringSliceAdditionalSpecFns;
use vstd::utf8::encode_utf8;
use crate::position::Position;
use crate::sentence::{
    is_fix_sentence, nmea_accepts, outcome, parse_line, ParseError, DOLLAR, LETTER_A, LETTER_G,
};

verus! {

/// The byte `P`.
pub const LETTER_P: u8 = 0x50;

/// A line that could not be read: its number, counted from 1, and why.
#[derive(Clone, Copy, Debug, PartialEq, Eq, Structural)]
pub struct LineError {
    pub line: usize,
    pub error: ParseError,
}

/// Whether `line` is a status sentence of the receiver itself, beginning
/// with `$PAAG`, which is passed over.
pub open spec fn is_ignorable(line: Seq<u8>) -> bool {
    &&& line.len() >= 5
    &&& line[0] == DOLLAR
    &&& line[1] == LETTER_P
    &&& line[2] == LETTER_A
    &&& line[3] == LETTER_A
    &&& line[4] == LETTER_G
}

/// What the line `text` holds.
pub open spec fn line_outcome(text: Seq<char>) -> Result<Option<Position>, ParseError> {
    outcome(encode_utf8(text), nmea_accepts(text))
}

/// What each of `lines` holds.
pub open spec fn outcomes_of(lines: Seq<String>) -> Seq<Result<Option<Position>, ParseError>> {
    Seq::new(lines.len(), |i: int| line_outcome(lines[i]@))
}

/// What the lines of a log give together, from what each gives: the
/// positions in order, or the first failure with the number of its line.
pub open spec fn gathered(outcomes: Seq<Result<Option<Position>, ParseError>>) -> Result<
    Seq<Position>,
    LineError,
>
    decreases outcomes.len(),
{
    if outcomes.len() == 0 {
        Ok(Seq::empty())
    } else {
        match gathered(outcomes.drop_last()) {
            Err(e) => Err(e),
            Ok(found) => match outcomes.last() {
                Err(error) => Err(LineError { line: outcomes.len() as usize, error }),
                Ok(Some(p)) => Ok(found.push(p)),
                Ok(None) => Ok(found),
            },
        }
    }
}

/// A sentence that is passed over holds no position and is no failure.
pub proof fn lemma_ignorable_holds_nothing(line: Seq<u8>, accepted: bool)
    requires
        is_ignorable(line),
    ensures
        !is_fix_sentence(line),
        outcome(line, accepted) == Ok::<Option<Position>, ParseError>(None),
{
}

/// The failure of a log is its first line that cannot be read, with the
/// reason of that line; a log without failure has none such, and no more
/// positions than lines.
pub proof fn lemma_gathered(outcomes: Seq<Result<Option<Position>, ParseError>>)
    requires
        outcomes.len() <= usize::MAX,
    ensures
        match gathered(outcomes) {
            Err(e) => {
                &&& 1 <= e.line <= outcomes.len()
                &&& outcomes[e.line - 1] == Err::<Option<Position>, ParseError>(e.error)
                &&& forall|j: int| 0 <= j < e.line - 1 ==> (#[trigger] outcomes[j]) is Ok
            },
            Ok(found) => {
                &&& found.len() <= outcomes.len()
                &&& forall|j: int| 0 <= j < outcomes.len() ==> (#[trigger] outcomes[j]) is Ok
            },
        },
    decreases outcomes.len(),
{
    if outcomes.len() > 0 {
        let before = outcomes.drop_last();
        lemma_gathered(before);
        assert forall|j: int| 0 <= j < before.len() implies before[j] == outcomes[j] by {}
    }
}

/// A failure among the first lines is the failure of all the lines.
pub proof fn lemma_failure_stays(outcomes: Seq<Result<Option<Position>, ParseError>>, upto: int)
    requires
        0 <= upto <= outcomes.len(),
        gathered(outcomes.take(upto)) is Err,
    ensures
        gathered(outcomes) == gathered(outcomes.take(upto)),
    decreases outcomes.len() - upto,
{
    if upto < outcomes.len() {
        assert(outcomes.drop_last().take(upto) =~= outcomes.take(upto));
        lemma_failure_stays(outcomes.drop_last(), upto);
    } else {
        assert(outcomes.take(upto) =~= outcomes);
    }
}

/// Whether `bytes` begin with `$PAAG`.
pub fn begins_ignorable(bytes: &[u8]) -> (b: bool)
    ensures
        b == is_ignorable(bytes@),
{
    bytes.len() >= 5 && bytes[0] == DOLLAR && bytes[1] == LETTER_P && bytes[2] == LETTER_A
        && bytes[3] == LETTER_A && bytes[4] == LETTER_G
}

/// Gathers the positions of a log from what each of its lines holds, in
/// order. The first line that could not be read is the failure of the log;
/// its number and its reason are given, and no positions.
pub fn gather(outcomes: &Vec<Result<Option<Position>, ParseError>>) -> (r: Result<
    Vec<Position>,
    LineError,
>)
    ensures
        match r {
            Ok(found) => gathered(outcomes@) == Ok::<Seq<Position>, LineError>(found@),
            Err(e) => gathered(outcomes@) == Err::<Seq<Position>, LineError>(e),
        },
{
    let mut found: Vec<Position> = Vec::new();
    let mut n: usize = 0;
    while n < outcomes.len()
        invariant
            0 <= n <= outcomes@.len(),
            gathered(outcomes@.take(n as int)) == Ok::<Seq<Position>, LineError>(found@),
        decreases outcomes@.len() - n,
    {
        proof {
            let upto = outcomes@.take(n as int + 1);
            assert(upto.drop_last() =~= outcomes@.take(n as int));
            assert(upto.last() == outcomes@[n as int]);
        }
        match outcomes[n] {
            Ok(Some(p)) => {
                found.push(p);
            },
            Ok(None) => {},
            Err(error) => {
                proof {
                    lemma_failure_stays(outcomes@, n as int + 1);
                }
                return Err(LineError { line: n + 1, error });
            },
        }
        n = n + 1;
    }
    assert(outcomes@.take(n as int) =~= outcomes@);
    Ok(found)
}

/// Reads the lines of a log in order and gathers the positions they hold.
///
/// Lines that are no fix sentences, and fix sentences without a position,
/// are passed over. The first fix sentence that cannot be read ends the
/// reading: its number and the reason are given, and no positions.
pub fn parse_file(lines: &Vec<String>) -> (r: Result<Vec<Position>, LineError>)
    ensures
        match r {
            Ok(found) => gathered(outcomes_of(lines@)) == Ok::<Seq<Position>, LineError>(found@),
            Err(e) => gathered(outcomes_of(lines@)) == Err::<Seq<Position>, LineError>(e),
        },
{
    let ghost all = outcomes_of(lines@);
    let mut read: Vec<Result<Option<Position>, ParseError>> = Vec::new();
    let mut failed: bool = false;
    while read.len() < lines.len() && !failed
        invariant
            read@.len() <= lines@.len(),
            all == outcomes_of(lines@),
            read@ == all.take(read@.len() as int),
            failed ==> read@.len() > 0 && read@.last() is Err,
        decreases lines@.len() - read@.len() + if failed { 0int } else { 1int },
    {
        let line = lines[read.len()].as_str();
        let held = if begins_ignorable(line.as_bytes()) {
            proof {
                lemma_ignorable_holds_nothing(line.spec_bytes(), nmea_accepts(line@));
            }
            Ok(None)
        } else {
            parse_line(line)
        };
        proof {
            assert(read@.push(held) =~= all.take(read@.len() as int + 1));
        }
        failed = held.is_err();
        read.push(held);
    }
    let r = gather(&read);
    proof {
        if failed {
            lemma_last_is_the_failure(read@);
            lemma_failure_stays(all, read@.len() as int);
        } else {
            assert(all.take(read@.len() as int) =~= all);
        }
    }
    r
}

/// If the last of the lines cannot be read, the log has a failure.
proof fn lemma_last_is_the_failure(outcomes: Seq<Result<Option<Position>, ParseError>>)
    requires
        outcomes.len() > 0,
        outcomes.last() is Err,
    ensures
        gathered(outcomes) is Err,
{
}

} // verus!
