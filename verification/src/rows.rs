//! The field decoders: one row of a section to one record.
//!
//! A row is split on `,`; list-valued fields are split again on `|`, and
//! key/value pairs on `=`. A row with fewer fields than its section asks for
//! is rejected before any of its fields is read; after that the fields are
//! read from left to right and the first one that is no integer where one is
//! due rejects the row. Fields beyond those a section asks for are ignored.

use vstd::prelude::*;
use crate::error::ErrorKind;
use crate::idmap::{pairs_to_map, IdMap};
use crate::model::{
    ints, limits_model, Request, RequestModel, Requirement, RequirementModel, Shift, ShiftModel,
    Staff, StaffModel,
};
use crate::number::{parse_i32, parse_int};
use crate::text::{split, split_chars, string_of, string_views, trim, trim_chars, views};

verus! {

/// The position of the first failure in `results`, or their number when
/// there is none.
pub open spec fn first_err<T>(results: Seq<Result<T, ErrorKind>>) -> int
    decreases results.len(),
{
    if results.len() == 0 || results[0] is Err {
        0
    } else {
        1 + first_err(results.drop_first())
    }
}

/// The values of `results`, where all of them are successes.
pub open spec fn oks<T>(results: Seq<Result<T, ErrorKind>>) -> Seq<T> {
    results.map_values(|r: Result<T, ErrorKind>| r->Ok_0)
}

/// All the values of `results` when none has failed, else the first failure.
pub open spec fn all_or_first_err<T>(results: Seq<Result<T, ErrorKind>>) -> Result<
    Seq<T>,
    ErrorKind,
> {
    let k = first_err(results);
    if 0 <= k < results.len() {
        Err(results[k]->Err_0)
    } else {
        Ok(oks(results))
    }
}

/// `first_err` is a position in `results` or their number; before it all
/// are successes, and at it stands a failure.
pub proof fn lemma_first_err_bounds<T>(results: Seq<Result<T, ErrorKind>>)
    ensures
        0 <= first_err(results) <= results.len(),
        forall|j: int| 0 <= j < first_err(results) ==> (#[trigger] results[j]) is Ok,
        first_err(results) < results.len() ==> results[first_err(results)] is Err,
    decreases results.len(),
{
    if !(results.len() == 0 || results[0] is Err) {
        let t = results.drop_first();
        lemma_first_err_bounds(t);
        assert forall|j: int| 0 <= j < first_err(results) implies (#[trigger] results[j]) is Ok by {
            if j > 0 {
                assert(results[j] == t[j - 1]);
            }
        }
    }
}

/// The first position that holds a failure, with none before it, is what
/// `first_err` returns.
pub proof fn lemma_first_err_is<T>(results: Seq<Result<T, ErrorKind>>, n: int)
    requires
        0 <= n <= results.len(),
        forall|j: int| 0 <= j < n ==> (#[trigger] results[j]) is Ok,
        n < results.len() ==> results[n] is Err,
    ensures
        first_err(results) == n,
    decreases results.len(),
{
    if n > 0 {
        let t = results.drop_first();
        assert forall|j: int| 0 <= j < n - 1 implies (#[trigger] t[j]) is Ok by {
            assert(t[j] == results[j + 1]);
        }
        lemma_first_err_is(t, n - 1);
    }
}

/// A field that must hold an integer, read as it stands.
pub open spec fn integer_field(field: Seq<char>) -> Result<int, ErrorKind> {
    match parse_int(field) {
        Some(v) => Ok(v),
        None => Err(ErrorKind::Format),
    }
}

/// Fields that must each hold an integer once trimmed.
pub open spec fn trimmed_integers(fields: Seq<Seq<char>>) -> Result<Seq<int>, ErrorKind> {
    all_or_first_err(fields.map_values(|f: Seq<char>| integer_field(trim(f))))
}

/// The value line of the horizon section: one integer, trimmed.
pub open spec fn decode_horizon(line: Seq<char>) -> Result<int, ErrorKind> {
    integer_field(trim(line))
}

/// A row `id,length[,successor|successor|...]` of the shifts section.
///
/// The line is trimmed before it is split. The third field may be missing
/// or empty: then the shift has no forbidden successors.
pub open spec fn decode_shift(line: Seq<char>) -> Result<ShiftModel, ErrorKind> {
    let parts = split(trim(line), ',');
    if parts.len() < 2 {
        Err(ErrorKind::FieldCount)
    } else {
        match integer_field(parts[1]) {
            Err(kind) => Err(kind),
            Ok(length) => Ok(
                ShiftModel {
                    id: parts[0],
                    length,
                    forbidden_successors_ids: if parts.len() > 2 && parts[2].len() > 0 {
                        split(trim(parts[2]), '|')
                    } else {
                        Seq::empty()
                    },
                },
            ),
        }
    }
}

/// One `shiftid=max` pair of a staff row.
pub open spec fn decode_limit(pair: Seq<char>) -> Result<(Seq<char>, int), ErrorKind> {
    let sides = split(pair, '=');
    if sides.len() < 2 {
        Err(ErrorKind::FieldCount)
    } else {
        match integer_field(sides[1]) {
            Err(kind) => Err(kind),
            Ok(max) => Ok((sides[0], max)),
        }
    }
}

/// The pairs `shiftid=max|shiftid=max|...` of a staff row, in the order in
/// which they are written.
pub open spec fn decode_limits(field: Seq<char>) -> Result<Seq<(Seq<char>, int)>, ErrorKind> {
    all_or_first_err(split(field, '|').map_values(|pair: Seq<char>| decode_limit(pair)))
}

/// A row `id,limits,maxminutes,minminutes,maxconsecutiveshifts,
/// minconsecutiveshifts,minconsecutiveoff,maxweekends` of the staff section.
///
/// The identifier is taken as it stands; the six numbers are trimmed. Where
/// a shift id is listed twice, the later limit stands.
pub open spec fn decode_staff(line: Seq<char>) -> Result<StaffModel, ErrorKind> {
    let parts = split(line, ',');
    if parts.len() < 8 {
        Err(ErrorKind::FieldCount)
    } else {
        match decode_limits(parts[1]) {
            Err(kind) => Err(kind),
            Ok(limits) => match trimmed_integers(parts.subrange(2, 8)) {
                Err(kind) => Err(kind),
                Ok(numbers) => Ok(
                    StaffModel {
                        id: parts[0],
                        maxshifts: pairs_to_map(limits),
                        maxminutes: numbers[0],
                        minminutes: numbers[1],
                        maxconsecutiveshifts: numbers[2],
                        minconsecutiveshifts: numbers[3],
                        minconsecutiveoff: numbers[4],
                        maxweekends: numbers[5],
                    },
                ),
            },
        }
    }
}

/// A row `staffid,day,day,...` of the days-off section: the identifier,
/// trimmed, and the days in the order in which they are written.
pub open spec fn decode_days_off(line: Seq<char>) -> Result<(Seq<char>, Seq<int>), ErrorKind> {
    let parts = split(line, ',');
    match trimmed_integers(parts.skip(1)) {
        Err(kind) => Err(kind),
        Ok(days) => Ok((trim(parts[0]), days)),
    }
}

/// A row `staffid,day,shiftid,weight` of either requests section.
pub open spec fn decode_request(line: Seq<char>) -> Result<RequestModel, ErrorKind> {
    let parts = split(line, ',');
    if parts.len() < 4 {
        Err(ErrorKind::FieldCount)
    } else {
        match integer_field(parts[1]) {
            Err(kind) => Err(kind),
            Ok(day) => match integer_field(trim(parts[3])) {
                Err(kind) => Err(kind),
                Ok(weight) => Ok(
                    RequestModel { staffid: parts[0], day, shiftid: parts[2], weight },
                ),
            },
        }
    }
}

/// A row `day,shiftid,required,costunder,costover` of the coverage section.
pub open spec fn decode_requirement(line: Seq<char>) -> Result<RequirementModel, ErrorKind> {
    let parts = split(line, ',');
    if parts.len() < 5 {
        Err(ErrorKind::FieldCount)
    } else {
        match integer_field(parts[0]) {
            Err(kind) => Err(kind),
            Ok(day) => match integer_field(parts[2]) {
                Err(kind) => Err(kind),
                Ok(required) => match integer_field(parts[3]) {
                    Err(kind) => Err(kind),
                    Ok(cost_under) => match integer_field(trim(parts[4])) {
                        Err(kind) => Err(kind),
                        Ok(cost_over) => Ok(
                            RequirementModel {
                                day,
                                shift_id: parts[1],
                                required,
                                cost_under,
                                cost_over,
                            },
                        ),
                    },
                },
            },
        }
    }
}

/// Whether `r` is the machine integer for `expected`, or the same failure.
pub open spec fn is_integer(r: Result<i32, ErrorKind>, expected: Result<int, ErrorKind>) -> bool {
    match expected {
        Ok(v) => r matches Ok(x) && x as int == v,
        Err(kind) => r matches Err(e) && e == kind,
    }
}

/// Whether `r` is the record for `expected`, or the same failure.
pub open spec fn is_record<T: View>(
    r: Result<T, ErrorKind>,
    expected: Result<T::V, ErrorKind>,
) -> bool {
    match expected {
        Ok(model) => r matches Ok(x) && x@ == model,
        Err(kind) => r matches Err(e) && e == kind,
    }
}

/// Reads a field that must hold an integer.
pub fn parse_integer(field: &[char]) -> (r: Result<i32, ErrorKind>)
    ensures
        is_integer(r, integer_field(field@)),
{
    match parse_i32(field) {
        Some(v) => Ok(v),
        None => Err(ErrorKind::Format),
    }
}

/// Reads the fields `fields[from..to]`, each of which must hold an integer
/// once trimmed.
fn parse_trimmed_integers(fields: &Vec<&[char]>, from: usize, to: usize) -> (r: Result<
    Vec<i32>,
    ErrorKind,
>)
    requires
        from <= to <= fields@.len(),
    ensures
        match trimmed_integers(views(fields@).subrange(from as int, to as int)) {
            Ok(values) => r matches Ok(v) && ints(v@) == values,
            Err(kind) => r matches Err(e) && e == kind,
        },
{
    let ghost items = views(fields@).subrange(from as int, to as int);
    let ghost results = items.map_values(|f: Seq<char>| integer_field(trim(f)));
    let mut out: Vec<i32> = Vec::new();
    let mut i: usize = from;
    while i < to
        invariant
            from <= i <= to <= fields@.len(),
            items == views(fields@).subrange(from as int, to as int),
            results == items.map_values(|f: Seq<char>| integer_field(trim(f))),
            out@.len() == i - from,
            forall|j: int| 0 <= j < i - from ==> (#[trigger] results[j]) is Ok,
            forall|j: int| 0 <= j < i - from ==> #[trigger] out@[j] as int == results[j]->Ok_0,
        decreases to - i,
    {
        let field = trim_chars(fields[i]);
        assert(items[i - from] == fields@[i as int]@);
        match parse_integer(field) {
            Ok(v) => {
                out.push(v);
            },
            Err(kind) => {
                proof {
                    lemma_first_err_is(results, i - from);
                }
                return Err(kind);
            },
        }
        i += 1;
    }
    proof {
        lemma_first_err_is(results, to - from);
        assert(ints(out@) =~= oks(results));
    }
    Ok(out)
}

/// Reads the value line of the horizon section.
pub fn parse_horizon_row(line: &[char]) -> (r: Result<i32, ErrorKind>)
    ensures
        is_integer(r, decode_horizon(line@)),
{
    parse_integer(trim_chars(line))
}

/// The strings for a list of character slices.
fn strings_of(pieces: &Vec<&[char]>) -> (r: Vec<String>)
    ensures
        string_views(r@) == views(pieces@),
{
    let n = pieces.len();
    let mut out: Vec<String> = Vec::new();
    let mut i: usize = 0;
    while i < n
        invariant
            n == pieces@.len(),
            0 <= i <= n,
            out@.len() == i,
            forall|j: int| 0 <= j < i ==> (#[trigger] out@[j])@ == pieces@[j]@,
        decreases n - i,
    {
        out.push(string_of(pieces[i]));
        i += 1;
    }
    assert(string_views(out@) =~= views(pieces@));
    out
}

/// Reads a row of the shifts section.
pub fn parse_shift_row(line: &[char]) -> (r: Result<Shift, ErrorKind>)
    ensures
        is_record(r, decode_shift(line@)),
{
    let parts = split_chars(trim_chars(line), ',');
    if parts.len() < 2 {
        return Err(ErrorKind::FieldCount);
    }
    assert(views(parts@)[0] == parts@[0]@ && views(parts@)[1] == parts@[1]@);
    let length = match parse_integer(parts[1]) {
        Ok(v) => v,
        Err(kind) => {
            return Err(kind);
        },
    };
    let forbidden_successors_ids = if parts.len() > 2 && parts[2].len() > 0 {
        assert(views(parts@)[2] == parts@[2]@);
        let pieces = split_chars(trim_chars(parts[2]), '|');
        strings_of(&pieces)
    } else {
        assert(parts@.len() > 2 ==> views(parts@)[2] == parts@[2]@);
        let none: Vec<String> = Vec::new();
        assert(string_views(none@) =~= Seq::<Seq<char>>::empty());
        none
    };
    Ok(Shift { id: string_of(parts[0]), length, forbidden_successors_ids })
}

/// Reads one `shiftid=max` pair of a staff row.
pub fn parse_limit(pair: &[char]) -> (r: Result<(String, i32), ErrorKind>)
    ensures
        match decode_limit(pair@) {
            Ok(p) => r matches Ok(x) && x.0@ == p.0 && x.1 as int == p.1,
            Err(kind) => r matches Err(e) && e == kind,
        },
{
    let sides = split_chars(pair, '=');
    if sides.len() < 2 {
        return Err(ErrorKind::FieldCount);
    }
    assert(views(sides@)[0] == sides@[0]@ && views(sides@)[1] == sides@[1]@);
    match parse_integer(sides[1]) {
        Ok(max) => Ok((string_of(sides[0]), max)),
        Err(kind) => Err(kind),
    }
}

/// Reads the limits field of a staff row into a map from shift id to limit.
pub fn parse_limits(field: &[char]) -> (r: Result<IdMap<i32>, ErrorKind>)
    ensures
        match decode_limits(field@) {
            Ok(pairs) => r matches Ok(m) && limits_model(m@) == pairs_to_map(pairs),
            Err(kind) => r matches Err(e) && e == kind,
        },
{
    let pieces = split_chars(field, '|');
    let ghost results = split(field@, '|').map_values(|pair: Seq<char>| decode_limit(pair));
    let n = pieces.len();
    let mut limits: IdMap<i32> = IdMap::new();
    let mut i: usize = 0;
    proof {
        assert(oks(results).take(0) =~= Seq::<(Seq<char>, int)>::empty());
        assert(limits_model(limits@) =~= pairs_to_map(oks(results).take(0)));
    }
    while i < n
        invariant
            n == pieces@.len(),
            0 <= i <= n,
            views(pieces@) == split(field@, '|'),
            results == split(field@, '|').map_values(|pair: Seq<char>| decode_limit(pair)),
            forall|j: int| 0 <= j < i ==> (#[trigger] results[j]) is Ok,
            limits_model(limits@) == pairs_to_map(oks(results).take(i as int)),
        decreases n - i,
    {
        assert(views(pieces@)[i as int] == pieces@[i as int]@);
        match parse_limit(pieces[i]) {
            Ok(pair) => {
                let ghost before = limits@;
                let ghost key = pair.0@;
                limits.insert(pair.0, pair.1);
                proof {
                    let done = oks(results).take(i + 1);
                    assert(done.drop_last() =~= oks(results).take(i as int));
                    assert(done.last() == (key, pair.1 as int));
                    assert(limits_model(before.insert(key, pair.1)) =~= limits_model(before).insert(
                        key,
                        pair.1 as int,
                    ));
                }
            },
            Err(kind) => {
                proof {
                    lemma_first_err_is(results, i as int);
                }
                return Err(kind);
            },
        }
        i += 1;
    }
    proof {
        lemma_first_err_is(results, n as int);
        assert(oks(results).take(n as int) =~= oks(results));
    }
    Ok(limits)
}

/// Reads a row of the staff section.
pub fn parse_staff_row(line: &[char]) -> (r: Result<Staff, ErrorKind>)
    ensures
        is_record(r, decode_staff(line@)),
{
    let parts = split_chars(line, ',');
    if parts.len() < 8 {
        return Err(ErrorKind::FieldCount);
    }
    assert(views(parts@)[0] == parts@[0]@ && views(parts@)[1] == parts@[1]@);
    let maxshifts = match parse_limits(parts[1]) {
        Ok(m) => m,
        Err(kind) => {
            return Err(kind);
        },
    };
    let numbers = match parse_trimmed_integers(&parts, 2, 8) {
        Ok(v) => v,
        Err(kind) => {
            return Err(kind);
        },
    };
    proof {
        let expected = trimmed_integers(views(parts@).subrange(2, 8))->Ok_0;
        assert(expected.len() == 6);
        assert(ints(numbers@).len() == 6);
        assert(forall|j: int| 0 <= j < 6 ==> #[trigger] ints(numbers@)[j] == numbers@[j] as int);
    }
    Ok(
        Staff {
            id: string_of(parts[0]),
            maxshifts,
            maxminutes: numbers[0],
            minminutes: numbers[1],
            maxconsecutiveshifts: numbers[2],
            minconsecutiveshifts: numbers[3],
            minconsecutiveoff: numbers[4],
            maxweekends: numbers[5],
        },
    )
}

/// Reads a row of the days-off section.
pub fn parse_days_off_row(line: &[char]) -> (r: Result<(String, Vec<i32>), ErrorKind>)
    ensures
        match decode_days_off(line@) {
            Ok(entry) => r matches Ok(x) && x.0@ == entry.0 && ints(x.1@) == entry.1,
            Err(kind) => r matches Err(e) && e == kind,
        },
{
    let parts = split_chars(line, ',');
    assert(views(parts@)[0] == parts@[0]@);
    assert(views(parts@).subrange(1, parts@.len() as int) =~= views(parts@).skip(1));
    match parse_trimmed_integers(&parts, 1, parts.len()) {
        Ok(days) => Ok((string_of(trim_chars(parts[0])), days)),
        Err(kind) => Err(kind),
    }
}

/// Reads a row of either requests section.
pub fn parse_request_row(line: &[char]) -> (r: Result<Request, ErrorKind>)
    ensures
        is_record(r, decode_request(line@)),
{
    let parts = split_chars(line, ',');
    if parts.len() < 4 {
        return Err(ErrorKind::FieldCount);
    }
    assert(views(parts@)[0] == parts@[0]@ && views(parts@)[1] == parts@[1]@ && views(parts@)[2]
        == parts@[2]@ && views(parts@)[3] == parts@[3]@);
    let day = match parse_integer(parts[1]) {
        Ok(v) => v,
        Err(kind) => {
            return Err(kind);
        },
    };
    let weight = match parse_integer(trim_chars(parts[3])) {
        Ok(v) => v,
        Err(kind) => {
            return Err(kind);
        },
    };
    Ok(Request { staffid: string_of(parts[0]), day, shiftid: string_of(parts[2]), weight })
}

/// Reads a row of the coverage section.
pub fn parse_requirement_row(line: &[char]) -> (r: Result<Requirement, ErrorKind>)
    ensures
        is_record(r, decode_requirement(line@)),
{
    let parts = split_chars(line, ',');
    if parts.len() < 5 {
        return Err(ErrorKind::FieldCount);
    }
    assert(views(parts@)[0] == parts@[0]@ && views(parts@)[1] == parts@[1]@ && views(parts@)[2]
        == parts@[2]@ && views(parts@)[3] == parts@[3]@ && views(parts@)[4] == parts@[4]@);
    let day = match parse_integer(parts[0]) {
        Ok(v) => v,
        Err(kind) => {
            return Err(kind);
        },
    };
    let required = match parse_integer(parts[2]) {
        Ok(v) => v,
        Err(kind) => {
            return Err(kind);
        },
    };
    let cost_under = match parse_integer(parts[3]) {
        Ok(v) => v,
        Err(kind) => {
            return Err(kind);
        },
    };
    let cost_over = match parse_integer(trim_chars(parts[4])) {
        Ok(v) => v,
        Err(kind) => {
            return Err(kind);
        },
    };
    Ok(Requirement { day, shift_id: string_of(parts[1]), required, cost_under, cost_over })
}

} // verus!
