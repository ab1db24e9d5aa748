//! What a failed parse reports.

use vstd::prelude::*;
use crate::text::{matches_text, string_of};

verus! {

/// The seven sections of an instance file, in the order in which they appear.
#[derive(Debug, Clone, Copy, PartialEq, Eq, Structural)]
pub enum Section {
    Horizon,
    Shifts,
    Staff,
    DaysOff,
    ShiftOnRequests,
    ShiftOffRequests,
    Cover,
}

/// Why a file was rejected.
#[derive(Debug, Clone, Copy, PartialEq, Eq, Structural)]
pub enum ErrorKind {
    /// The sections are not as they should be: the input ended inside a
    /// section, before the line that closes it, or the name of a section
    /// stands where that section does not begin.
    Structure,
    /// A row has fewer fields than its section asks for.
    FieldCount,
    /// A field that must be an integer is none.
    Format,
}

/// A rejected file: the kind of fault, the section in which it was met and
/// the offending line as it stands in the file. When the input ended too
/// early there is no such line, and `line` is empty.
#[derive(Debug, Clone, PartialEq, Eq)]
pub struct ParseError {
    pub kind: ErrorKind,
    pub section: Section,
    pub line: String,
}

/// A `ParseError` as plain values.
pub struct ParseErrorModel {
    pub kind: ErrorKind,
    pub section: Section,
    pub line: Seq<char>,
}

impl View for ParseError {
    type V = ParseErrorModel;

    open spec fn view(&self) -> ParseErrorModel {
        ParseErrorModel { kind: self.kind, section: self.section, line: self.line@ }
    }
}

/// The error for input that ends inside `section`.
pub open spec fn ended_early(section: Section) -> ParseErrorModel {
    ParseErrorModel { kind: ErrorKind::Structure, section, line: Seq::empty() }
}

/// The error for a `line` of `section` that was rejected for `kind`.
pub open spec fn bad_line(kind: ErrorKind, section: Section, line: Seq<char>) -> ParseErrorModel {
    ParseErrorModel { kind, section, line }
}

/// The name under which `section` appears in a file.
pub open spec fn section_name(section: Section) -> Seq<char> {
    match section {
        Section::Horizon => "SECTION_HORIZON"@,
        Section::Shifts => "SECTION_SHIFTS"@,
        Section::Staff => "SECTION_STAFF"@,
        Section::DaysOff => "SECTION_DAYS_OFF"@,
        Section::ShiftOnRequests => "SECTION_SHIFT_ON_REQUESTS"@,
        Section::ShiftOffRequests => "SECTION_SHIFT_OFF_REQUESTS"@,
        Section::Cover => "SECTION_COVER"@,
    }
}

impl ParseError {
    /// The error for a `line` of `section` that was rejected for `kind`.
    pub fn at_line(kind: ErrorKind, section: Section, line: &[char]) -> (e: ParseError)
        ensures
            e@ == bad_line(kind, section, line@),
    {
        ParseError { kind, section, line: string_of(line) }
    }

    /// The error for input that ends inside `section`.
    pub fn at_end(section: Section) -> (e: ParseError)
        ensures
            e@ == ended_early(section),
    {
        ParseError { kind: ErrorKind::Structure, section, line: String::new() }
    }
}

/// Whether `text` is the name of one of the sections.
pub open spec fn names_section(text: Seq<char>) -> bool {
    ||| text == section_name(Section::Horizon)
    ||| text == section_name(Section::Shifts)
    ||| text == section_name(Section::Staff)
    ||| text == section_name(Section::DaysOff)
    ||| text == section_name(Section::ShiftOnRequests)
    ||| text == section_name(Section::ShiftOffRequests)
    ||| text == section_name(Section::Cover)
}

impl Section {
    /// A section with the name `text`, if `text` names one.
    pub fn named(text: &[char]) -> (r: Option<Section>)
        ensures
            r matches Some(section) ==> text@ == section_name(section),
            r is None <==> !names_section(text@),
    {
        if matches_text(text, Section::Horizon.name()) {
            Some(Section::Horizon)
        } else if matches_text(text, Section::Shifts.name()) {
            Some(Section::Shifts)
        } else if matches_text(text, Section::Staff.name()) {
            Some(Section::Staff)
        } else if matches_text(text, Section::DaysOff.name()) {
            Some(Section::DaysOff)
        } else if matches_text(text, Section::ShiftOnRequests.name()) {
            Some(Section::ShiftOnRequests)
        } else if matches_text(text, Section::ShiftOffRequests.name()) {
            Some(Section::ShiftOffRequests)
        } else if matches_text(text, Section::Cover.name()) {
            Some(Section::Cover)
        } else {
            None
        }
    }

    /// The name under which this section appears in a file.
    pub fn name(&self) -> (r: &'static str)
        ensures
            r@ == section_name(*self),
    {
        match self {
            Section::Horizon => "SECTION_HORIZON",
            Section::Shifts => "SECTION_SHIFTS",
            Section::Staff => "SECTION_STAFF",
            Section::DaysOff => "SECTION_DAYS_OFF",
            Section::ShiftOnRequests => "SECTION_SHIFT_ON_REQUESTS",
            Section::ShiftOffRequests => "SECTION_SHIFT_OFF_REQUESTS",
            Section::Cover => "SECTION_COVER",
        }
    }

    /// The section that follows this one, if any.
    pub fn next(&self) -> (r: Option<Section>)
        ensures
            r == following(*self),
    {
        match self {
            Section::Horizon => Some(Section::Shifts),
            Section::Shifts => Some(Section::Staff),
            Section::Staff => Some(Section::DaysOff),
            Section::DaysOff => Some(Section::ShiftOnRequests),
            Section::ShiftOnRequests => Some(Section::ShiftOffRequests),
            Section::ShiftOffRequests => Some(Section::Cover),
            Section::Cover => None,
        }
    }
}

/// The section that follows `section`; the coverage section is the last.
pub open spec fn following(section: Section) -> Option<Section> {
    match section {
        Section::Horizon => Some(Section::Shifts),
        Section::Shifts => Some(Section::Staff),
        Section::Staff => Some(Section::DaysOff),
        Section::DaysOff => Some(Section::ShiftOnRequests),
        Section::ShiftOnRequests => Some(Section::ShiftOffRequests),
        Section::ShiftOffRequests => Some(Section::Cover),
        Section::Cover => None,
    }
}

/// The line that closes `section`: the name of the section that follows it.
/// The coverage section has none and runs to the end of the input. The
/// horizon section is not searched for its closing line: it is one value
/// line long, and the line after that is the header of the shifts section.
pub open spec fn terminator(section: Section) -> Option<Seq<char>> {
    match following(section) {
        Some(next) => Some(section_name(next)),
        None => None,
    }
}

} // verus!
