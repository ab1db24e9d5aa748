//! What holds of every file, stated over the functions that the contracts of
//! the parser speak of, and proved.

use vstd::prelude::*;
use crate::error::{
    bad_line, ended_early, names_section, terminator, ErrorKind, ParseError, ParseErrorModel,
    Section,
};
use crate::idmap::{lemma_pairs_to_map_keys, lemma_pairs_to_map_value, pairs_to_map};
use crate::model::Curtois2014Instance;
use crate::number::parse_int;
use crate::parser::{is_outcome, parse_text};
use crate::reader::{entries_of, is_ignorable, lemma_entries_of_concat, line_len};
use crate::rows::{
    decode_days_off, decode_horizon, decode_limit, decode_limits, decode_request,
    decode_requirement, decode_shift, decode_staff, first_err, integer_field,
    lemma_first_err_bounds, lemma_first_err_is, oks,
};
use crate::sections::{
    close_section, cover_section, days_off_results, days_off_section, horizon_section, in_place,
    is_misplaced_header, lemma_section_end, request_results, requests_section,
    requirement_results, section_rows, shift_results, shifts_section, staff_results,
    staff_section,
};
use crate::text::{
    find, join, lemma_find, lemma_find_is, lemma_join_split, lemma_split_join, split, trim,
};

verus! {

/// The horizon of a parsed instance is the integer on the second data line
/// of the file, the one after the header of the horizon section.
pub proof fn law_horizon(content: Seq<char>)
    requires
        parse_text(content) is Ok,
    ensures
        entries_of(content).len() >= 2,
        parse_int(trim(entries_of(content)[1])) == Some(parse_text(content)->Ok_0.horizon),
{
}

/// The name of a section is accepted only where that section begins. As a
/// row of any section it is a fault of structure, whatever else it might
/// decode to; a row that names no section is judged by its fields alone.
pub proof fn law_misplaced_name<T>(line: Seq<char>, decoded: Result<T, ErrorKind>)
    ensures
        names_section(trim(line)) ==> in_place(line, decoded) == Err::<T, ErrorKind>(
            ErrorKind::Structure,
        ),
        !names_section(trim(line)) ==> in_place(line, decoded) == decoded,
{
}

/// A shift row without a third field, or with an empty one, gives a shift
/// with no forbidden successors. A third field that is not empty gives its
/// pieces between `|`, in the order in which they are written: joined by
/// `|` they are the field again, and none of them holds a `|`.
pub proof fn law_forbidden_successors(line: Seq<char>)
    requires
        decode_shift(line) is Ok,
    ensures
        ({
            let parts = split(trim(line), ',');
            let successors = decode_shift(line)->Ok_0.forbidden_successors_ids;
            if parts.len() > 2 && parts[2].len() > 0 {
                &&& successors.len() >= 1
                &&& join(successors, '|') == trim(parts[2])
                &&& forall|i: int| 0 <= i < successors.len() ==> !(#[trigger] successors[i]).contains('|')
            } else {
                successors == Seq::<Seq<char>>::empty()
            }
        }),
{
    let parts = split(trim(line), ',');
    if parts.len() > 2 && parts[2].len() > 0 {
        lemma_split_join(trim(parts[2]), '|');
    }
}

/// A third field of a shift row that lists the identifiers `ids`, none of
/// which holds a `|`, with `|` between them gives exactly `ids`, in that
/// order.
pub proof fn law_forbidden_successors_listed(line: Seq<char>, ids: Seq<Seq<char>>)
    requires
        decode_shift(line) is Ok,
        split(trim(line), ',').len() > 2,
        split(trim(line), ',')[2].len() > 0,
        ids.len() >= 1,
        forall|i: int| 0 <= i < ids.len() ==> !(#[trigger] ids[i]).contains('|'),
        trim(split(trim(line), ',')[2]) == join(ids, '|'),
    ensures
        decode_shift(line)->Ok_0.forbidden_successors_ids == ids,
{
    lemma_join_split(ids, '|');
}

/// The limits of a staff row are exactly the pairs that its second field
/// lists: a shift id has a limit if and only if a pair names it, and the
/// limit is the number of the last pair that does.
pub proof fn law_staff_limits(line: Seq<char>)
    requires
        decode_staff(line) is Ok,
    ensures
        ({
            let pairs = split(split(line, ',')[1], '|');
            let limits = decode_staff(line)->Ok_0.maxshifts;
            &&& forall|id: Seq<char>|
                limits.contains_key(id) <==> exists|i: int|
                    0 <= i < pairs.len() && #[trigger] split(pairs[i], '=')[0] == id
            &&& forall|i: int|
                0 <= i < pairs.len() && (forall|j: int|
                    i < j < pairs.len() ==> #[trigger] split(pairs[j], '=')[0] != split(
                        pairs[i],
                        '=',
                    )[0]) ==> parse_int(#[trigger] split(pairs[i], '=')[1]) == Some(
                    limits[split(pairs[i], '=')[0]],
                )
        }),
{
    let field = split(line, ',')[1];
    let pairs = split(field, '|');
    let results = pairs.map_values(|pair: Seq<char>| decode_limit(pair));
    lemma_first_err_bounds(results);
    let listed = decode_limits(field)->Ok_0;
    assert(listed == oks(results));
    let limits = pairs_to_map(listed);
    assert forall|i: int| 0 <= i < pairs.len() implies (#[trigger] listed[i]).0 == split(
        pairs[i],
        '=',
    )[0] && parse_int(split(pairs[i], '=')[1]) == Some(listed[i].1) by {
        assert(results[i] is Ok);
        assert(results[i] == decode_limit(pairs[i]));
    }
    assert forall|id: Seq<char>|
        limits.contains_key(id) <==> exists|i: int|
            0 <= i < pairs.len() && #[trigger] split(pairs[i], '=')[0] == id by {
        lemma_pairs_to_map_keys(listed, id);
        if limits.contains_key(id) {
            let i = choose|i: int| 0 <= i < listed.len() && (#[trigger] listed[i]).0 == id;
            assert(split(pairs[i], '=')[0] == id);
        }
        if exists|i: int| 0 <= i < pairs.len() && #[trigger] split(pairs[i], '=')[0] == id {
            let i = choose|i: int| 0 <= i < pairs.len() && #[trigger] split(pairs[i], '=')[0] == id;
            assert(listed[i].0 == id);
        }
    }
    assert forall|i: int|
        0 <= i < pairs.len() && (forall|j: int|
            i < j < pairs.len() ==> #[trigger] split(pairs[j], '=')[0] != split(pairs[i], '=')[0])
        implies parse_int(#[trigger] split(pairs[i], '=')[1]) == Some(
        limits[split(pairs[i], '=')[0]],
    ) by {
        assert(listed[i].0 == split(pairs[i], '=')[0]);
        assert forall|j: int| i < j < listed.len() implies (#[trigger] listed[j]).0
            != listed[i].0 by {
            assert(listed[j].0 == split(pairs[j], '=')[0]);
        }
        lemma_pairs_to_map_value(listed, i);
    }
}

/// A days-off row gives the identifier in its first field, trimmed, and one
/// day for each field after it, in the order in which they are written.
pub proof fn law_days_off_row(line: Seq<char>)
    requires
        decode_days_off(line) is Ok,
    ensures
        ({
            let parts = split(line, ',');
            let entry = decode_days_off(line)->Ok_0;
            &&& entry.0 == trim(parts[0])
            &&& entry.1.len() == parts.len() - 1
            &&& forall|i: int|
                0 <= i < entry.1.len() ==> parse_int(trim(parts[i + 1])) == Some(#[trigger] entry.1[i])
        }),
{
    let parts = split(line, ',');
    lemma_split_join(line, ',');
    let fields = parts.skip(1);
    let results = fields.map_values(|f: Seq<char>| integer_field(trim(f)));
    lemma_first_err_bounds(results);
    let days = decode_days_off(line)->Ok_0.1;
    assert(days == oks(results));
    assert forall|i: int| 0 <= i < days.len() implies parse_int(trim(parts[i + 1])) == Some(
        #[trigger] days[i],
    ) by {
        assert(results[i] is Ok);
        assert(fields[i] == parts[i + 1]);
    }
}

/// In a parsed days-off section, a staff id has days off if and only if a
/// row of the section names it, and its days are those of the last such row.
pub proof fn law_days_off_section(e: Seq<Seq<char>>)
    requires
        days_off_section(e) is Ok,
    ensures
        ({
            let rows = section_rows(e, Section::DaysOff);
            let daysoff = days_off_section(e)->Ok_0.0;
            &&& forall|i: int|
                0 <= i < rows.len() ==> decode_days_off(#[trigger] rows[i]) is Ok
                    && !names_section(trim(rows[i]))
            &&& forall|id: Seq<char>|
                daysoff.contains_key(id) <==> exists|i: int|
                    0 <= i < rows.len() && (#[trigger] decode_days_off(rows[i]))->Ok_0.0 == id
            &&& forall|i: int|
                0 <= i < rows.len() && (forall|j: int|
                    i < j < rows.len() ==> (#[trigger] decode_days_off(rows[j]))->Ok_0.0
                        != decode_days_off(rows[i])->Ok_0.0) ==> daysoff[(#[trigger] decode_days_off(
                    rows[i],
                ))->Ok_0.0] == decode_days_off(rows[i])->Ok_0.1
        }),
{
    let rows = section_rows(e, Section::DaysOff);
    let results = days_off_results(e);
    lemma_first_err_bounds(results);
    let entries = oks(results);
    let daysoff = pairs_to_map(entries);
    assert forall|i: int| 0 <= i < rows.len() implies decode_days_off(#[trigger] rows[i]) is Ok
        && !names_section(trim(rows[i])) && entries[i] == decode_days_off(rows[i])->Ok_0 by {
        assert(results[i] is Ok);
        assert(results[i] == in_place(rows[i], decode_days_off(rows[i])));
    }
    assert forall|id: Seq<char>|
        daysoff.contains_key(id) <==> exists|i: int|
            0 <= i < rows.len() && (#[trigger] decode_days_off(rows[i]))->Ok_0.0 == id by {
        lemma_pairs_to_map_keys(entries, id);
        if daysoff.contains_key(id) {
            let i = choose|i: int| 0 <= i < entries.len() && (#[trigger] entries[i]).0 == id;
            assert(decode_days_off(rows[i])->Ok_0.0 == id);
        }
        if exists|i: int| 0 <= i < rows.len() && (#[trigger] decode_days_off(rows[i]))->Ok_0.0 == id {
            let i = choose|i: int|
                0 <= i < rows.len() && (#[trigger] decode_days_off(rows[i]))->Ok_0.0 == id;
            assert(entries[i].0 == id);
        }
    }
    assert forall|i: int|
        0 <= i < rows.len() && (forall|j: int|
            i < j < rows.len() ==> (#[trigger] decode_days_off(rows[j]))->Ok_0.0 != decode_days_off(
                rows[i],
            )->Ok_0.0) implies daysoff[(#[trigger] decode_days_off(rows[i]))->Ok_0.0]
        == decode_days_off(rows[i])->Ok_0.1 by {
        assert(entries[i] == decode_days_off(rows[i])->Ok_0);
        assert forall|j: int| i < j < entries.len() implies (#[trigger] entries[j]).0
            != entries[i].0 by {
            assert(entries[j] == decode_days_off(rows[j])->Ok_0);
        }
        lemma_pairs_to_map_value(entries, i);
    }
}

/// Parsing is a function of the text: two outcomes of parsing the same text
/// are both instances with the same value, or both errors with the same
/// value.
pub proof fn law_deterministic(
    content: Seq<char>,
    first: Result<Curtois2014Instance, ParseError>,
    second: Result<Curtois2014Instance, ParseError>,
)
    requires
        is_outcome(first, parse_text(content)),
        is_outcome(second, parse_text(content)),
    ensures
        first is Ok <==> second is Ok,
        first is Ok ==> first->Ok_0@ == second->Ok_0@,
        first is Err ==> first->Err_0@ == second->Err_0@,
{
}

/// Whether `line` is one whole line: not empty, with no line feed but
/// possibly at its end.
pub open spec fn is_line(line: Seq<char>) -> bool {
    line.len() > 0 && find(line, '\n') >= line.len() - 1
}

/// A line that the reader passes over adds nothing to the data lines of a
/// text.
proof fn lemma_ignorable_line(before: Seq<char>, line: Seq<char>, after: Seq<char>)
    requires
        before.len() == 0 || before.last() == '\n',
        is_line(line),
        line.last() == '\n' || after.len() == 0,
        is_ignorable(line),
    ensures
        entries_of(before + line + after) == entries_of(before + after),
{
    let tail = line + after;
    let n = line.len() as int;
    lemma_find(line, '\n');
    if line.last() == '\n' {
        assert forall|j: int| 0 <= j < n - 1 implies #[trigger] tail[j] != '\n' by {
            assert(tail[j] == line[j]);
        }
        assert(tail[n - 1] == line[n - 1]);
        lemma_find_is(tail, '\n', n - 1);
    } else {
        assert(tail =~= line);
        assert(find(line, '\n') == n) by {
            if find(line, '\n') == n - 1 {
                assert(line[n - 1] == '\n');
            }
        }
    }
    assert(line_len(tail) == n);
    assert(tail.take(n) =~= line);
    assert(tail.skip(n) =~= after);
    assert(entries_of(tail) == entries_of(after));
    lemma_entries_of_concat(before, tail);
    lemma_entries_of_concat(before, after);
    assert(before + line + after =~= before + tail);
}

/// A blank line or a comment line between two lines of a file, before the
/// first or after the last, does not change what the file parses to.
///
/// `before` is the text up to the line, made of whole lines; `after` is
/// the text that follows. A line without a line feed can only be the last.
pub proof fn law_ignorable_line(before: Seq<char>, line: Seq<char>, after: Seq<char>)
    requires
        before.len() == 0 || before.last() == '\n',
        is_line(line),
        line.last() == '\n' || after.len() == 0,
        is_ignorable(line),
    ensures
        entries_of(before + line + after) == entries_of(before + after),
        parse_text(before + line + after) == parse_text(before + after),
{
    lemma_ignorable_line(before, line, after);
}

/// The coverage section needs no closing line: when all the entries up to
/// the end of the input are well-formed rows, the section parses, with one
/// requirement for each entry, in order. When one of them is not, it does
/// not parse.
pub proof fn law_cover_runs_to_end(e: Seq<Seq<char>>)
    ensures
        cover_section(e) is Ok <==> forall|i: int|
            0 <= i < e.len() ==> in_place(#[trigger] e[i], decode_requirement(e[i])) is Ok,
        cover_section(e) is Ok ==> {
            &&& cover_section(e)->Ok_0.len() == e.len()
            &&& forall|i: int|
                0 <= i < e.len() ==> decode_requirement(e[i]) == Ok::<_, ErrorKind>(
                    #[trigger] cover_section(e)->Ok_0[i],
                )
        },
{
    let results = requirement_results(e);
    lemma_first_err_bounds(results);
    if cover_section(e) is Ok {
        assert forall|i: int| 0 <= i < e.len() implies in_place(
            #[trigger] e[i],
            decode_requirement(e[i]),
        ) is Ok by {
            assert(results[i] is Ok);
        }
    } else {
        let k = first_err(results);
        assert(results[k] == in_place(e[k], decode_requirement(e[k])));
    }
    if forall|i: int| 0 <= i < e.len() ==> in_place(#[trigger] e[i], decode_requirement(e[i])) is Ok {
        assert forall|j: int| 0 <= j < results.len() implies (#[trigger] results[j]) is Ok by {
            assert(in_place(e[j], decode_requirement(e[j])) is Ok);
        }
        lemma_first_err_is(results, results.len() as int);
    }
}

/// The fault of a decoded row, if it was rejected.
pub open spec fn fault<T>(r: Result<T, ErrorKind>) -> Option<ErrorKind> {
    match r {
        Ok(_) => None,
        Err(kind) => Some(kind),
    }
}

/// What `section` makes of `line` by its fields alone: the fault for which
/// it rejects the row, if it does. For the horizon section the row is its
/// value line.
pub open spec fn field_fault(section: Section, line: Seq<char>) -> Option<ErrorKind> {
    match section {
        Section::Horizon => fault(decode_horizon(line)),
        Section::Shifts => fault(decode_shift(line)),
        Section::Staff => fault(decode_staff(line)),
        Section::DaysOff => fault(decode_days_off(line)),
        Section::ShiftOnRequests => fault(decode_request(line)),
        Section::ShiftOffRequests => fault(decode_request(line)),
        Section::Cover => fault(decode_requirement(line)),
    }
}

/// The fault for which `section` rejects `line` where a row is due, if it
/// does: a fault of structure for the name of a section, and otherwise the
/// fault of its fields.
pub open spec fn rejection(section: Section, line: Seq<char>) -> Option<ErrorKind> {
    if names_section(trim(line)) {
        Some(ErrorKind::Structure)
    } else {
        field_fault(section, line)
    }
}

/// By its fields a row is rejected for their number or for one that is no
/// integer, and for nothing else. So a row is rejected for its structure
/// only when it is the name of a section.
pub proof fn law_row_faults(section: Section, line: Seq<char>)
    ensures
        field_fault(section, line) matches Some(kind) ==> kind == ErrorKind::FieldCount || kind
            == ErrorKind::Format,
        rejection(section, line) == Some(ErrorKind::Structure) <==> names_section(trim(line)),
{
    match section {
        Section::Staff => {
            let parts = split(line, ',');
            if parts.len() >= 8 {
                let pairs = split(parts[1], '|').map_values(|pair: Seq<char>| decode_limit(pair));
                lemma_first_err_bounds(pairs);
                let numbers = parts.subrange(2, 8).map_values(
                    |f: Seq<char>| integer_field(trim(f)),
                );
                lemma_first_err_bounds(numbers);
            }
        },
        Section::DaysOff => {
            let days = split(line, ',').skip(1).map_values(|f: Seq<char>| integer_field(trim(f)));
            lemma_first_err_bounds(days);
        },
        _ => {},
    }
}

/// A row with fewer fields than its section asks for is rejected for its
/// number of fields: fewer than two for a shift, eight for a member of
/// staff, four for a request, five for a coverage requirement.
pub proof fn law_short_rows(line: Seq<char>)
    ensures
        split(trim(line), ',').len() < 2 ==> fault(decode_shift(line)) == Some(ErrorKind::FieldCount),
        split(line, ',').len() < 8 ==> fault(decode_staff(line)) == Some(ErrorKind::FieldCount),
        split(line, ',').len() < 4 ==> fault(decode_request(line)) == Some(ErrorKind::FieldCount),
        split(line, ',').len() < 5 ==> fault(decode_requirement(line)) == Some(
            ErrorKind::FieldCount,
        ),
{
}

/// No row of a section is passed over. A section that is closed by a line
/// parses if and only if that line is there and every row before it is
/// accepted; it then has one record for each row, in order, and the entries
/// that follow are those after the closing line. Otherwise the error is the
/// first rejected row with its fault, or, when no row is rejected, the
/// error for input that ends early.
pub proof fn law_section_rows<T>(
    e: Seq<Seq<char>>,
    results: Seq<Result<T, ErrorKind>>,
    section: Section,
)
    requires
        results.len() <= e.len(),
    ensures
        match close_section(e, results, section) {
            Ok((records, rest)) => {
                &&& results.len() < e.len()
                &&& records.len() == results.len()
                &&& forall|j: int|
                    0 <= j < results.len() ==> #[trigger] results[j] == Ok::<T, ErrorKind>(
                        records[j],
                    )
                &&& rest == e.skip(results.len() as int + 1)
            },
            Err(error) => {
                let k = first_err(results);
                &&& 0 <= k <= results.len()
                &&& forall|j: int| 0 <= j < k ==> (#[trigger] results[j]) is Ok
                &&& k < results.len() ==> results[k] is Err && error == bad_line(
                    results[k]->Err_0,
                    section,
                    e[k],
                )
                &&& k == results.len() ==> results.len() == e.len() && error == ended_early(section)
            },
        },
{
    lemma_first_err_bounds(results);
}

/// Whether `line` is one of the data lines `e`.
pub open spec fn is_entry(e: Seq<Seq<char>>, line: Seq<char>) -> bool {
    exists|i: int| 0 <= i < e.len() && #[trigger] e[i] == line
}

/// Whether `error` names a fault in a file with the data lines `all`: either
/// input that ended early, with no line, or one of the data lines together
/// with the fault that it is where the error says it stands. Such a line is
/// rejected as a row, or it is the header of the horizon section or of the
/// shifts section and names another section.
pub open spec fn names_fault(error: ParseErrorModel, all: Seq<Seq<char>>) -> bool {
    ||| error == ended_early(error.section)
    ||| {
        &&& is_entry(all, error.line)
        &&& rejection(error.section, error.line) == Some(error.kind)
    }
}

proof fn lemma_closed_section_fault<T>(
    all: Seq<Seq<char>>,
    from: int,
    results: Seq<Result<T, ErrorKind>>,
    section: Section,
) -> (next: int)
    requires
        0 <= from <= all.len(),
        results.len() <= all.len() - from,
        forall|j: int|
            0 <= j < results.len() ==> fault(#[trigger] results[j]) == rejection(
                section,
                all[from + j],
            ),
    ensures
        from <= next <= all.len(),
        match close_section(all.skip(from), results, section) {
            Ok((_, rest)) => rest == all.skip(next),
            Err(error) => names_fault(error, all),
        },
{
    let e = all.skip(from);
    law_section_rows(e, results, section);
    match close_section(e, results, section) {
        Ok((_, rest)) => {
            assert(rest =~= all.skip(from + results.len() + 1));
            from + results.len() + 1
        },
        Err(error) => {
            let k = first_err(results);
            if k < results.len() {
                assert(e[k] == all[from + k]);
                law_row_faults(section, all[from + k]);
            }
            from
        },
    }
}

proof fn lemma_shifts_fault(all: Seq<Seq<char>>, from: int) -> (next: int)
    requires
        0 <= from <= all.len(),
    ensures
        from <= next <= all.len(),
        match shifts_section(all.skip(from)) {
            Ok((_, rest)) => rest == all.skip(next),
            Err(error) => names_fault(error, all),
        },
{
    if from == all.len() {
        from
    } else if is_misplaced_header(all.skip(from)[0], Section::Shifts) {
        assert(all.skip(from)[0] == all[from]);
        from
    } else {
        let e = all.skip(from + 1);
        assert(all.skip(from).skip(1) =~= e);
        lemma_section_end(e, terminator(Section::Shifts)->0);
        assert forall|j: int| 0 <= j < shift_results(e).len() implies fault(
            #[trigger] shift_results(e)[j],
        ) == rejection(Section::Shifts, all[from + 1 + j]) by {
            assert(section_rows(e, Section::Shifts)[j] == all[from + 1 + j]);
        }
        lemma_closed_section_fault(all, from + 1, shift_results(e), Section::Shifts)
    }
}

proof fn lemma_staff_fault(all: Seq<Seq<char>>, from: int) -> (next: int)
    requires
        0 <= from <= all.len(),
    ensures
        from <= next <= all.len(),
        match staff_section(all.skip(from)) {
            Ok((_, rest)) => rest == all.skip(next),
            Err(error) => names_fault(error, all),
        },
{
    let e = all.skip(from);
    lemma_section_end(e, terminator(Section::Staff)->0);
    assert forall|j: int| 0 <= j < staff_results(e).len() implies fault(
        #[trigger] staff_results(e)[j],
    ) == rejection(Section::Staff, all[from + j]) by {
        assert(section_rows(e, Section::Staff)[j] == all[from + j]);
    }
    lemma_closed_section_fault(all, from, staff_results(e), Section::Staff)
}

proof fn lemma_days_off_fault(all: Seq<Seq<char>>, from: int) -> (next: int)
    requires
        0 <= from <= all.len(),
    ensures
        from <= next <= all.len(),
        match days_off_section(all.skip(from)) {
            Ok((_, rest)) => rest == all.skip(next),
            Err(error) => names_fault(error, all),
        },
{
    let e = all.skip(from);
    lemma_section_end(e, terminator(Section::DaysOff)->0);
    assert forall|j: int| 0 <= j < days_off_results(e).len() implies fault(
        #[trigger] days_off_results(e)[j],
    ) == rejection(Section::DaysOff, all[from + j]) by {
        assert(section_rows(e, Section::DaysOff)[j] == all[from + j]);
    }
    lemma_closed_section_fault(all, from, days_off_results(e), Section::DaysOff)
}

proof fn lemma_requests_fault(all: Seq<Seq<char>>, from: int, section: Section) -> (next: int)
    requires
        0 <= from <= all.len(),
        section == Section::ShiftOnRequests || section == Section::ShiftOffRequests,
    ensures
        from <= next <= all.len(),
        match requests_section(all.skip(from), section) {
            Ok((_, rest)) => rest == all.skip(next),
            Err(error) => names_fault(error, all),
        },
{
    let e = all.skip(from);
    lemma_section_end(e, terminator(section)->0);
    assert forall|j: int| 0 <= j < request_results(e, section).len() implies fault(
        #[trigger] request_results(e, section)[j],
    ) == rejection(section, all[from + j]) by {
        assert(section_rows(e, section)[j] == all[from + j]);
    }
    lemma_closed_section_fault(all, from, request_results(e, section), section)
}

proof fn lemma_cover_fault(all: Seq<Seq<char>>, from: int)
    requires
        0 <= from <= all.len(),
    ensures
        cover_section(all.skip(from)) matches Err(error) ==> names_fault(error, all),
{
    let e = all.skip(from);
    let results = requirement_results(e);
    lemma_first_err_bounds(results);
    let k = first_err(results);
    if k < results.len() {
        assert(e[k] == all[from + k]);
        law_row_faults(Section::Cover, e[k]);
    }
}

proof fn lemma_horizon_fault(all: Seq<Seq<char>>)
    ensures
        match horizon_section(all) {
            Ok((_, rest)) => all.len() >= 2 && rest == all.skip(2),
            Err(error) => names_fault(error, all),
        },
{
    if all.len() >= 1 && is_misplaced_header(all[0], Section::Horizon) {
        assert(is_entry(all, all[0]));
    } else if all.len() >= 2 {
        assert(is_entry(all, all[1]));
    }
}

/// An error always says what was wrong and where. Either the input ended
/// inside the section that the error names, and the error carries no line;
/// or the error carries a data line of the file, as it stands there, and
/// the fault for which the section that it names rejects that line.
pub proof fn law_fault_is_named(content: Seq<char>)
    requires
        parse_text(content) is Err,
    ensures
        names_fault(parse_text(content)->Err_0, entries_of(content)),
{
    let all = entries_of(content);
    lemma_horizon_fault(all);
    if horizon_section(all) is Ok {
        let at = lemma_shifts_fault(all, 2);
        if shifts_section(all.skip(2)) is Ok {
            let at = lemma_staff_fault(all, at);
            lemma_tail_fault(all, at);
        }
    }
}

/// The sections after the staff section.
proof fn lemma_tail_fault(all: Seq<Seq<char>>, from: int)
    requires
        0 <= from <= all.len(),
    ensures
        match days_off_section(all.skip(from)) {
            Err(error) => names_fault(error, all),
            Ok((_, e)) => match requests_section(e, Section::ShiftOnRequests) {
                Err(error) => names_fault(error, all),
                Ok((_, e)) => match requests_section(e, Section::ShiftOffRequests) {
                    Err(error) => names_fault(error, all),
                    Ok((_, e)) => cover_section(e) matches Err(error) ==> names_fault(error, all),
                },
            },
        },
{
    let at = lemma_days_off_fault(all, from);
    if days_off_section(all.skip(from)) is Ok {
        let at2 = lemma_requests_fault(all, at, Section::ShiftOnRequests);
        if requests_section(all.skip(at), Section::ShiftOnRequests) is Ok {
            let at3 = lemma_requests_fault(all, at2, Section::ShiftOffRequests);
            if requests_section(all.skip(at2), Section::ShiftOffRequests) is Ok {
                lemma_cover_fault(all, at3);
            }
        }
    }
}

} // verus!
