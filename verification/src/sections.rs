//! The section state machine.
//!
//! A file holds seven sections in a fixed order. The horizon section is a
//! header line and one value line. The shifts section opens with a header
//! line of its own. Every section but the last is closed by the name of the
//! section that follows it, which also serves as that section's header; the
//! coverage section runs to the end of the input. Each function here reads
//! one section from the reader and leaves the reader at the start of the
//! next.
//!
//! The rows of a section are read in order, and the first row that is
//! rejected ends the parse. Input that ends before the line that closes a
//! section is rejected too, and so is the name of a section that stands
//! where that section does not begin: the sections are then out of order.

use vstd::prelude::*;
use crate::error::{
    bad_line, ended_early, names_section, section_name, terminator, ErrorKind, ParseError,
    ParseErrorModel, Section,
};
use crate::idmap::{pairs_to_map, IdMap};
use crate::model::{
    days_model, ints, request_models, requirement_models, shift_models, staff_models, Request,
    RequestModel, Requirement, RequirementModel, Shift, ShiftModel, Staff, StaffModel,
};
use crate::reader::Reader;
use crate::rows::{
    decode_days_off, decode_horizon, decode_request, decode_requirement, decode_shift,
    decode_staff, first_err, lemma_first_err_is, oks, parse_days_off_row, parse_horizon_row,
    parse_request_row, parse_requirement_row, parse_shift_row, parse_staff_row,
};
use crate::text::{matches_text, trim, trim_chars};

verus! {

/// The position of the first of the entries `e` that reads `closing` once
/// trimmed, or their number when there is none.
pub open spec fn section_end(e: Seq<Seq<char>>, closing: Seq<char>) -> int
    decreases e.len(),
{
    if e.len() == 0 || trim(e[0]) == closing {
        0
    } else {
        1 + section_end(e.drop_first(), closing)
    }
}

/// The rows of `section` at the start of the entries `e`: those before the
/// line that closes the section.
pub open spec fn section_rows(e: Seq<Seq<char>>, section: Section) -> Seq<Seq<char>> {
    e.take(section_end(e, terminator(section)->0))
}

/// What a section that is closed by a line comes to. `e` are the entries
/// from the section's first row on and `results` its rows, decoded.
///
/// The first rejected row is the error. Without one, the section must be
/// closed: then its records are the result, with the entries after the
/// closing line.
pub open spec fn close_section<T>(
    e: Seq<Seq<char>>,
    results: Seq<Result<T, ErrorKind>>,
    section: Section,
) -> Result<(Seq<T>, Seq<Seq<char>>), ParseErrorModel> {
    let n = results.len() as int;
    let k = first_err(results);
    if 0 <= k < n {
        Err(bad_line(results[k]->Err_0, section, e[k]))
    } else if n >= e.len() {
        Err(ended_early(section))
    } else {
        Ok((oks(results), e.skip(n + 1)))
    }
}

/// What a section that runs to the end of the input comes to: the first
/// rejected row, or the records of all rows.
pub open spec fn close_last_section<T>(
    e: Seq<Seq<char>>,
    results: Seq<Result<T, ErrorKind>>,
    section: Section,
) -> Result<Seq<T>, ParseErrorModel> {
    let k = first_err(results);
    if 0 <= k < results.len() {
        Err(bad_line(results[k]->Err_0, section, e[k]))
    } else {
        Ok(oks(results))
    }
}

/// A row in its place: the name of a section where a row is due means that
/// the sections are out of order, whatever the row would decode to.
pub open spec fn in_place<T>(line: Seq<char>, decoded: Result<T, ErrorKind>) -> Result<
    T,
    ErrorKind,
> {
    if names_section(trim(line)) {
        Err(ErrorKind::Structure)
    } else {
        decoded
    }
}

/// Whether `line` is the name of a section other than `section`. The header
/// line of `section` may read anything but that.
pub open spec fn is_misplaced_header(line: Seq<char>, section: Section) -> bool {
    names_section(trim(line)) && trim(line) != section_name(section)
}

/// The rows of the shifts section at the start of `e`, decoded.
pub open spec fn shift_results(e: Seq<Seq<char>>) -> Seq<Result<ShiftModel, ErrorKind>> {
    section_rows(e, Section::Shifts).map_values(
        |line: Seq<char>| in_place(line, decode_shift(line)),
    )
}

/// The rows of the staff section at the start of `e`, decoded.
pub open spec fn staff_results(e: Seq<Seq<char>>) -> Seq<Result<StaffModel, ErrorKind>> {
    section_rows(e, Section::Staff).map_values(
        |line: Seq<char>| in_place(line, decode_staff(line)),
    )
}

/// The rows of the days-off section at the start of `e`, decoded.
pub open spec fn days_off_results(e: Seq<Seq<char>>) -> Seq<
    Result<(Seq<char>, Seq<int>), ErrorKind>,
> {
    section_rows(e, Section::DaysOff).map_values(
        |line: Seq<char>| in_place(line, decode_days_off(line)),
    )
}

/// The rows of the requests section `section` at the start of `e`, decoded.
pub open spec fn request_results(e: Seq<Seq<char>>, section: Section) -> Seq<
    Result<RequestModel, ErrorKind>,
> {
    section_rows(e, section).map_values(|line: Seq<char>| in_place(line, decode_request(line)))
}

/// All of the entries `e` decoded as rows of the coverage section.
pub open spec fn requirement_results(e: Seq<Seq<char>>) -> Seq<
    Result<RequirementModel, ErrorKind>,
> {
    e.map_values(|line: Seq<char>| in_place(line, decode_requirement(line)))
}

/// The horizon section: a header line and the line with the number of
/// days. The header may read anything but the name of another section.
pub open spec fn horizon_section(e: Seq<Seq<char>>) -> Result<
    (int, Seq<Seq<char>>),
    ParseErrorModel,
> {
    if e.len() < 1 {
        Err(ended_early(Section::Horizon))
    } else if is_misplaced_header(e[0], Section::Horizon) {
        Err(bad_line(ErrorKind::Structure, Section::Horizon, e[0]))
    } else if e.len() < 2 {
        Err(ended_early(Section::Horizon))
    } else {
        match in_place(e[1], decode_horizon(e[1])) {
            Err(kind) => Err(bad_line(kind, Section::Horizon, e[1])),
            Ok(horizon) => Ok((horizon, e.skip(2))),
        }
    }
}

/// The shifts section: a header line, then rows up to the line that opens
/// the staff section. The header may read anything but the name of another
/// section.
pub open spec fn shifts_section(e: Seq<Seq<char>>) -> Result<
    (Seq<ShiftModel>, Seq<Seq<char>>),
    ParseErrorModel,
> {
    if e.len() < 1 {
        Err(ended_early(Section::Shifts))
    } else if is_misplaced_header(e[0], Section::Shifts) {
        Err(bad_line(ErrorKind::Structure, Section::Shifts, e[0]))
    } else {
        close_section(e.skip(1), shift_results(e.skip(1)), Section::Shifts)
    }
}

/// The staff section: rows up to the line that opens the days-off section.
pub open spec fn staff_section(e: Seq<Seq<char>>) -> Result<
    (Seq<StaffModel>, Seq<Seq<char>>),
    ParseErrorModel,
> {
    close_section(e, staff_results(e), Section::Staff)
}

/// The days-off section: rows up to the line that opens the first requests
/// section. Where a staff id has several rows, the last one stands.
pub open spec fn days_off_section(e: Seq<Seq<char>>) -> Result<
    (Map<Seq<char>, Seq<int>>, Seq<Seq<char>>),
    ParseErrorModel,
> {
    match close_section(e, days_off_results(e), Section::DaysOff) {
        Err(error) => Err(error),
        Ok((entries, rest)) => Ok((pairs_to_map(entries), rest)),
    }
}

/// Either requests section: rows up to the line that opens the section
/// after it.
pub open spec fn requests_section(e: Seq<Seq<char>>, section: Section) -> Result<
    (Seq<RequestModel>, Seq<Seq<char>>),
    ParseErrorModel,
> {
    close_section(e, request_results(e, section), section)
}

/// The coverage section: rows up to the end of the input.
pub open spec fn cover_section(e: Seq<Seq<char>>) -> Result<
    Seq<RequirementModel>,
    ParseErrorModel,
> {
    close_last_section(e, requirement_results(e), Section::Cover)
}

/// `section_end` is a position among the entries or their number; no entry
/// before it closes the section, and the one at it does.
pub proof fn lemma_section_end(e: Seq<Seq<char>>, closing: Seq<char>)
    ensures
        0 <= section_end(e, closing) <= e.len(),
        forall|j: int| 0 <= j < section_end(e, closing) ==> trim(#[trigger] e[j]) != closing,
        section_end(e, closing) < e.len() ==> trim(e[section_end(e, closing)]) == closing,
    decreases e.len(),
{
    if !(e.len() == 0 || trim(e[0]) == closing) {
        let t = e.drop_first();
        lemma_section_end(t, closing);
        assert forall|j: int| 0 <= j < section_end(e, closing) implies trim(#[trigger] e[j])
            != closing by {
            if j > 0 {
                assert(e[j] == t[j - 1]);
            }
        }
    }
}

/// The first entry that closes the section, with none before it, is where
/// the section ends.
pub proof fn lemma_section_end_is(e: Seq<Seq<char>>, closing: Seq<char>, n: int)
    requires
        0 <= n <= e.len(),
        forall|j: int| 0 <= j < n ==> trim(#[trigger] e[j]) != closing,
        n < e.len() ==> trim(e[n]) == closing,
    ensures
        section_end(e, closing) == n,
    decreases e.len(),
{
    if n > 0 {
        let t = e.drop_first();
        assert forall|j: int| 0 <= j < n - 1 implies trim(#[trigger] t[j]) != closing by {
            assert(t[j] == e[j + 1]);
        }
        lemma_section_end_is(t, closing, n - 1);
    }
}

/// A section whose rows were all accepted and which is closed comes to the
/// records of its rows, with the entries after the closing line.
pub proof fn lemma_section_closed<T>(
    e: Seq<Seq<char>>,
    results: Seq<Result<T, ErrorKind>>,
    section: Section,
    records: Seq<T>,
)
    requires
        results.len() < e.len(),
        records.len() == results.len(),
        forall|j: int|
            0 <= j < results.len() ==> (#[trigger] results[j]) is Ok && results[j]->Ok_0
                == records[j],
    ensures
        close_section(e, results, section) == Ok::<(Seq<T>, Seq<Seq<char>>), ParseErrorModel>(
            (records, e.skip(results.len() as int + 1)),
        ),
{
    lemma_first_err_is(results, results.len() as int);
    assert(oks(results) =~= records);
}

/// A section whose rows before `k` were accepted and whose row `k` was
/// rejected comes to that rejection.
pub proof fn lemma_section_rejected<T>(
    e: Seq<Seq<char>>,
    results: Seq<Result<T, ErrorKind>>,
    section: Section,
    k: int,
)
    requires
        0 <= k < results.len(),
        forall|j: int| 0 <= j < k ==> (#[trigger] results[j]) is Ok,
        results[k] is Err,
    ensures
        close_section(e, results, section) == Err::<(Seq<T>, Seq<Seq<char>>), ParseErrorModel>(
            bad_line(results[k]->Err_0, section, e[k]),
        ),
        close_last_section(e, results, section) == Err::<Seq<T>, ParseErrorModel>(
            bad_line(results[k]->Err_0, section, e[k]),
        ),
{
    lemma_first_err_is(results, k);
}

/// A section whose rows were all accepted and which is not closed when the
/// input ends comes to the error for input that ends early.
pub proof fn lemma_section_open<T>(
    e: Seq<Seq<char>>,
    results: Seq<Result<T, ErrorKind>>,
    section: Section,
)
    requires
        results.len() == e.len(),
        forall|j: int| 0 <= j < results.len() ==> (#[trigger] results[j]) is Ok,
    ensures
        close_section(e, results, section) == Err::<(Seq<T>, Seq<Seq<char>>), ParseErrorModel>(
            ended_early(section),
        ),
{
    lemma_first_err_is(results, results.len() as int);
}

/// What a line is in a section that is closed by a line.
enum Line {
    /// The line that closes the section.
    Closing,
    /// The name of a section that is not due here.
    Misplaced,
    /// Anything else: a row of the section.
    Row,
}

/// What `line` is in `section`.
fn classify(line: &[char], section: Section) -> (r: Line)
    requires
        terminator(section) is Some,
    ensures
        r is Closing <==> trim(line@) == terminator(section)->0,
        r is Misplaced <==> trim(line@) != terminator(section)->0 && names_section(trim(line@)),
{
    let text = trim_chars(line);
    let closes = match section.next() {
        Some(next) => matches_text(text, next.name()),
        None => false,
    };
    if closes {
        Line::Closing
    } else if Section::named(text).is_some() {
        Line::Misplaced
    } else {
        Line::Row
    }
}

/// Whether `line` is the name of a section other than `section`.
fn misplaced_header(line: &[char], section: Section) -> (r: bool)
    ensures
        r == is_misplaced_header(line@, section),
{
    let text = trim_chars(line);
    !matches_text(text, section.name()) && Section::named(text).is_some()
}

/// Whether `line` is the name of a section.
fn misplaced_row(line: &[char]) -> (r: bool)
    ensures
        r == names_section(trim(line@)),
{
    Section::named(trim_chars(line)).is_some()
}

/// Reads the horizon section.
pub fn read_horizon(reader: &mut Reader) -> (r: Result<i32, ParseError>)
    ensures
        final(reader).input() == old(reader).input(),
        match horizon_section(old(reader).entries()) {
            Ok((horizon, rest)) => {
                &&& r matches Ok(v) && v as int == horizon
                &&& final(reader).entries() == rest
            },
            Err(error) => r matches Err(x) && x@ == error,
        },
{
    let ghost e = reader.entries();
    let header = reader.get_next_data_entry();
    if !header.1 {
        return Err(ParseError::at_end(Section::Horizon));
    }
    if misplaced_header(header.0, Section::Horizon) {
        return Err(ParseError::at_line(ErrorKind::Structure, Section::Horizon, header.0));
    }
    let entry = reader.get_next_data_entry();
    if !entry.1 {
        return Err(ParseError::at_end(Section::Horizon));
    }
    proof {
        assert(e.drop_first()[0] == e[1]);
        assert(e.drop_first().drop_first() =~= e.skip(2));
    }
    if misplaced_row(entry.0) {
        return Err(ParseError::at_line(ErrorKind::Structure, Section::Horizon, entry.0));
    }
    match parse_horizon_row(entry.0) {
        Ok(v) => Ok(v),
        Err(kind) => Err(ParseError::at_line(kind, Section::Horizon, entry.0)),
    }
}

/// Reads the shifts section.
pub fn read_shifts(reader: &mut Reader) -> (r: Result<Vec<Shift>, ParseError>)
    ensures
        final(reader).input() == old(reader).input(),
        match shifts_section(old(reader).entries()) {
            Ok((shifts, rest)) => {
                &&& r matches Ok(v) && shift_models(v@) == shifts
                &&& final(reader).entries() == rest
            },
            Err(error) => r matches Err(x) && x@ == error,
        },
{
    let header = reader.get_next_data_entry();
    if !header.1 {
        return Err(ParseError::at_end(Section::Shifts));
    }
    if misplaced_header(header.0, Section::Shifts) {
        return Err(ParseError::at_line(ErrorKind::Structure, Section::Shifts, header.0));
    }
    let ghost e = reader.entries();
    assert(e =~= old(reader).entries().skip(1));
    let ghost closing = terminator(Section::Shifts)->0;
    let ghost results = shift_results(e);
    let mut shifts: Vec<Shift> = Vec::new();
    let ghost mut i: int = 0;
    proof {
        assert(e.skip(0) =~= e);
    }
    loop
        invariant
            reader.input() == old(reader).input(),
            0 <= i <= e.len(),
            reader.entries() == e.skip(i),
            closing == terminator(Section::Shifts)->0,
            results == shift_results(e),
            shifts@.len() == i,
            forall|j: int| 0 <= j < i ==> trim(#[trigger] e[j]) != closing,
            forall|j: int|
                0 <= j < i ==> in_place(#[trigger] e[j], decode_shift(e[j])) is Ok && shifts@[j]@
                    == decode_shift(e[j])->Ok_0,
            e == old(reader).entries().skip(1),
            old(reader).entries().len() >= 1,
            !is_misplaced_header(old(reader).entries()[0], Section::Shifts),
        decreases e.len() - i,
    {
        let entry = reader.get_next_data_entry();
        if !entry.1 {
            proof {
                lemma_section_end_is(e, closing, i);
                assert(e.take(i) =~= e);
                lemma_section_open(e, results, Section::Shifts);
            }
            return Err(ParseError::at_end(Section::Shifts));
        }
        proof {
            assert(e.skip(i)[0] == e[i]);
            assert(e.skip(i).drop_first() =~= e.skip(i + 1));
        }
        let decoded = match classify(entry.0, Section::Shifts) {
            Line::Closing => {
                proof {
                    lemma_section_end_is(e, closing, i);
                    lemma_section_closed(e, results, Section::Shifts, shift_models(shifts@));
                }
                return Ok(shifts);
            },
            Line::Misplaced => Err(ErrorKind::Structure),
            Line::Row => parse_shift_row(entry.0),
        };
        match decoded {
            Ok(shift) => {
                shifts.push(shift);
            },
            Err(kind) => {
                proof {
                    lemma_section_end(e, closing);
                    let n = section_end(e, closing);
                    if n <= i {
                        assert(trim(e[n]) == closing);
                    }
                    lemma_section_rejected(e, results, Section::Shifts, i);
                }
                return Err(ParseError::at_line(kind, Section::Shifts, entry.0));
            },
        }
        proof {
            i = i + 1;
        }
    }
}

/// Reads the staff section.
pub fn read_staff(reader: &mut Reader) -> (r: Result<Vec<Staff>, ParseError>)
    ensures
        final(reader).input() == old(reader).input(),
        match staff_section(old(reader).entries()) {
            Ok((staff, rest)) => {
                &&& r matches Ok(v) && staff_models(v@) == staff
                &&& final(reader).entries() == rest
            },
            Err(error) => r matches Err(x) && x@ == error,
        },
{
    let ghost e = reader.entries();
    let ghost closing = terminator(Section::Staff)->0;
    let ghost results = staff_results(e);
    let mut staff: Vec<Staff> = Vec::new();
    let ghost mut i: int = 0;
    proof {
        assert(e.skip(0) =~= e);
    }
    loop
        invariant
            reader.input() == old(reader).input(),
            0 <= i <= e.len(),
            reader.entries() == e.skip(i),
            closing == terminator(Section::Staff)->0,
            results == staff_results(e),
            staff@.len() == i,
            forall|j: int| 0 <= j < i ==> trim(#[trigger] e[j]) != closing,
            forall|j: int|
                0 <= j < i ==> in_place(#[trigger] e[j], decode_staff(e[j])) is Ok && staff@[j]@
                    == decode_staff(e[j])->Ok_0,
            e == old(reader).entries(),
        decreases e.len() - i,
    {
        let entry = reader.get_next_data_entry();
        if !entry.1 {
            proof {
                lemma_section_end_is(e, closing, i);
                assert(e.take(i) =~= e);
                lemma_section_open(e, results, Section::Staff);
            }
            return Err(ParseError::at_end(Section::Staff));
        }
        proof {
            assert(e.skip(i)[0] == e[i]);
            assert(e.skip(i).drop_first() =~= e.skip(i + 1));
        }
        let decoded = match classify(entry.0, Section::Staff) {
            Line::Closing => {
                proof {
                    lemma_section_end_is(e, closing, i);
                    lemma_section_closed(e, results, Section::Staff, staff_models(staff@));
                }
                return Ok(staff);
            },
            Line::Misplaced => Err(ErrorKind::Structure),
            Line::Row => parse_staff_row(entry.0),
        };
        match decoded {
            Ok(member) => {
                staff.push(member);
            },
            Err(kind) => {
                proof {
                    lemma_section_end(e, closing);
                    let n = section_end(e, closing);
                    if n <= i {
                        assert(trim(e[n]) == closing);
                    }
                    lemma_section_rejected(e, results, Section::Staff, i);
                }
                return Err(ParseError::at_line(kind, Section::Staff, entry.0));
            },
        }
        proof {
            i = i + 1;
        }
    }
}

/// Reads the days-off section.
pub fn read_daysoff(reader: &mut Reader) -> (r: Result<IdMap<Vec<i32>>, ParseError>)
    ensures
        final(reader).input() == old(reader).input(),
        match days_off_section(old(reader).entries()) {
            Ok((daysoff, rest)) => {
                &&& r matches Ok(m) && days_model(m@) == daysoff
                &&& final(reader).entries() == rest
            },
            Err(error) => r matches Err(x) && x@ == error,
        },
{
    let ghost e = reader.entries();
    let ghost closing = terminator(Section::DaysOff)->0;
    let ghost results = days_off_results(e);
    let mut daysoff: IdMap<Vec<i32>> = IdMap::new();
    let ghost mut records: Seq<(Seq<char>, Seq<int>)> = Seq::empty();
    let ghost mut i: int = 0;
    proof {
        assert(e.skip(0) =~= e);
        assert(days_model(daysoff@) =~= pairs_to_map(records));
    }
    loop
        invariant
            reader.input() == old(reader).input(),
            0 <= i <= e.len(),
            reader.entries() == e.skip(i),
            closing == terminator(Section::DaysOff)->0,
            results == days_off_results(e),
            records.len() == i,
            days_model(daysoff@) == pairs_to_map(records),
            forall|j: int| 0 <= j < i ==> trim(#[trigger] e[j]) != closing,
            forall|j: int|
                0 <= j < i ==> in_place(#[trigger] e[j], decode_days_off(e[j])) is Ok
                    && records[j] == decode_days_off(e[j])->Ok_0,
            e == old(reader).entries(),
        decreases e.len() - i,
    {
        let entry = reader.get_next_data_entry();
        if !entry.1 {
            proof {
                lemma_section_end_is(e, closing, i);
                assert(e.take(i) =~= e);
                lemma_section_open(e, results, Section::DaysOff);
            }
            return Err(ParseError::at_end(Section::DaysOff));
        }
        proof {
            assert(e.skip(i)[0] == e[i]);
            assert(e.skip(i).drop_first() =~= e.skip(i + 1));
        }
        let decoded = match classify(entry.0, Section::DaysOff) {
            Line::Closing => {
                proof {
                    lemma_section_end_is(e, closing, i);
                    lemma_section_closed(e, results, Section::DaysOff, records);
                }
                return Ok(daysoff);
            },
            Line::Misplaced => Err(ErrorKind::Structure),
            Line::Row => parse_days_off_row(entry.0),
        };
        match decoded {
            Ok(row) => {
                let ghost before = daysoff@;
                let ghost key = row.0@;
                let ghost days = row.1;
                daysoff.insert(row.0, row.1);
                proof {
                    let record = (key, ints(days@));
                    assert(records.push(record).drop_last() =~= records);
                    assert(days_model(before.insert(key, days)) =~= days_model(before).insert(
                        key,
                        ints(days@),
                    ));
                    records = records.push(record);
                }
            },
            Err(kind) => {
                proof {
                    lemma_section_end(e, closing);
                    let n = section_end(e, closing);
                    if n <= i {
                        assert(trim(e[n]) == closing);
                    }
                    lemma_section_rejected(e, results, Section::DaysOff, i);
                }
                return Err(ParseError::at_line(kind, Section::DaysOff, entry.0));
            },
        }
        proof {
            i = i + 1;
        }
    }
}

/// Reads one of the two requests sections, which share their row format.
fn read_requests(reader: &mut Reader, section: Section) -> (r: Result<Vec<Request>, ParseError>)
    requires
        section == Section::ShiftOnRequests || section == Section::ShiftOffRequests,
    ensures
        final(reader).input() == old(reader).input(),
        match requests_section(old(reader).entries(), section) {
            Ok((requests, rest)) => {
                &&& r matches Ok(v) && request_models(v@) == requests
                &&& final(reader).entries() == rest
            },
            Err(error) => r matches Err(x) && x@ == error,
        },
{
    let ghost e = reader.entries();
    let ghost closing = terminator(section)->0;
    let ghost results = request_results(e, section);
    let mut requests: Vec<Request> = Vec::new();
    let ghost mut i: int = 0;
    proof {
        assert(e.skip(0) =~= e);
    }
    loop
        invariant
            reader.input() == old(reader).input(),
            0 <= i <= e.len(),
            reader.entries() == e.skip(i),
            section == Section::ShiftOnRequests || section == Section::ShiftOffRequests,
            closing == terminator(section)->0,
            results == request_results(e, section),
            requests@.len() == i,
            forall|j: int| 0 <= j < i ==> trim(#[trigger] e[j]) != closing,
            forall|j: int|
                0 <= j < i ==> in_place(#[trigger] e[j], decode_request(e[j])) is Ok
                    && requests@[j]@ == decode_request(e[j])->Ok_0,
            e == old(reader).entries(),
        decreases e.len() - i,
    {
        let entry = reader.get_next_data_entry();
        if !entry.1 {
            proof {
                lemma_section_end_is(e, closing, i);
                assert(e.take(i) =~= e);
                lemma_section_open(e, results, section);
            }
            return Err(ParseError::at_end(section));
        }
        proof {
            assert(e.skip(i)[0] == e[i]);
            assert(e.skip(i).drop_first() =~= e.skip(i + 1));
        }
        let decoded = match classify(entry.0, section) {
            Line::Closing => {
                proof {
                    lemma_section_end_is(e, closing, i);
                    lemma_section_closed(e, results, section, request_models(requests@));
                }
                return Ok(requests);
            },
            Line::Misplaced => Err(ErrorKind::Structure),
            Line::Row => parse_request_row(entry.0),
        };
        match decoded {
            Ok(request) => {
                requests.push(request);
            },
            Err(kind) => {
                proof {
                    lemma_section_end(e, closing);
                    let n = section_end(e, closing);
                    if n <= i {
                        assert(trim(e[n]) == closing);
                    }
                    lemma_section_rejected(e, results, section, i);
                }
                return Err(ParseError::at_line(kind, section, entry.0));
            },
        }
        proof {
            i = i + 1;
        }
    }
}

/// Reads the shift-on requests section.
pub fn read_shift_requests(reader: &mut Reader) -> (r: Result<Vec<Request>, ParseError>)
    ensures
        final(reader).input() == old(reader).input(),
        match requests_section(old(reader).entries(), Section::ShiftOnRequests) {
            Ok((requests, rest)) => {
                &&& r matches Ok(v) && request_models(v@) == requests
                &&& final(reader).entries() == rest
            },
            Err(error) => r matches Err(x) && x@ == error,
        },
{
    read_requests(reader, Section::ShiftOnRequests)
}

/// Reads the shift-off requests section.
pub fn read_off_requests(reader: &mut Reader) -> (r: Result<Vec<Request>, ParseError>)
    ensures
        final(reader).input() == old(reader).input(),
        match requests_section(old(reader).entries(), Section::ShiftOffRequests) {
            Ok((requests, rest)) => {
                &&& r matches Ok(v) && request_models(v@) == requests
                &&& final(reader).entries() == rest
            },
            Err(error) => r matches Err(x) && x@ == error,
        },
{
    read_requests(reader, Section::ShiftOffRequests)
}

/// Reads the coverage section, which ends with the input.
pub fn read_cover(reader: &mut Reader) -> (r: Result<Vec<Requirement>, ParseError>)
    ensures
        final(reader).input() == old(reader).input(),
        match cover_section(old(reader).entries()) {
            Ok(cover) => {
                &&& r matches Ok(v) && requirement_models(v@) == cover
                &&& final(reader).entries().len() == 0
            },
            Err(error) => r matches Err(x) && x@ == error,
        },
{
    let ghost e = reader.entries();
    let ghost results = requirement_results(e);
    let mut cover: Vec<Requirement> = Vec::new();
    let ghost mut i: int = 0;
    proof {
        assert(e.skip(0) =~= e);
    }
    loop
        invariant
            reader.input() == old(reader).input(),
            0 <= i <= e.len(),
            reader.entries() == e.skip(i),
            results == requirement_results(e),
            cover@.len() == i,
            forall|j: int|
                0 <= j < i ==> in_place(#[trigger] e[j], decode_requirement(e[j])) is Ok
                    && cover@[j]@ == decode_requirement(e[j])->Ok_0,
            e == old(reader).entries(),
        decreases e.len() - i,
    {
        let entry = reader.get_next_data_entry();
        if !entry.1 {
            proof {
                lemma_first_err_is(results, i);
                assert(oks(results) =~= requirement_models(cover@));
            }
            return Ok(cover);
        }
        proof {
            assert(e.skip(i)[0] == e[i]);
            assert(e.skip(i).drop_first() =~= e.skip(i + 1));
        }
        let decoded = if misplaced_row(entry.0) {
            Err(ErrorKind::Structure)
        } else {
            parse_requirement_row(entry.0)
        };
        match decoded {
            Ok(requirement) => {
                cover.push(requirement);
            },
            Err(kind) => {
                proof {
                    lemma_section_rejected(e, results, Section::Cover, i);
                }
                return Err(ParseError::at_line(kind, Section::Cover, entry.0));
            },
        }
        proof {
            i = i + 1;
        }
    }
}

} // verus!
