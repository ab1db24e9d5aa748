//! The instance assembler: the seven sections in their order, folded into one
//! instance.
//!
//! Parsing either succeeds with a complete instance or fails with the first
//! fault met in the file; nothing is ever returned for part of a file.

use vstd::prelude::*;
use crate::error::{ParseError, ParseErrorModel, Section};
use crate::model::{Curtois2014Instance, InstanceModel};
use crate::reader::{entries_of, Reader};
use crate::sections::{
    cover_section, days_off_section, horizon_section, read_cover, read_daysoff, read_horizon,
    read_off_requests, read_shift_requests, read_shifts, read_staff, requests_section,
    shifts_section, staff_section,
};
use crate::text::chars_of;

verus! {

/// The instance that the data lines `e` of a file describe, or the first
/// fault among them.
pub open spec fn parse_entries(e: Seq<Seq<char>>) -> Result<InstanceModel, ParseErrorModel> {
    match horizon_section(e) {
        Err(error) => Err(error),
        Ok((horizon, e)) => match shifts_section(e) {
            Err(error) => Err(error),
            Ok((shifts, e)) => match staff_section(e) {
                Err(error) => Err(error),
                Ok((staff, e)) => match days_off_section(e) {
                    Err(error) => Err(error),
                    Ok((daysoff, e)) => match requests_section(e, Section::ShiftOnRequests) {
                        Err(error) => Err(error),
                        Ok((shiftrequests, e)) => match requests_section(
                            e,
                            Section::ShiftOffRequests,
                        ) {
                            Err(error) => Err(error),
                            Ok((offrequests, e)) => match cover_section(e) {
                                Err(error) => Err(error),
                                Ok(cover) => Ok(
                                    InstanceModel {
                                        horizon,
                                        shifts,
                                        staff,
                                        daysoff,
                                        shiftrequests,
                                        offrequests,
                                        cover,
                                    },
                                ),
                            },
                        },
                    },
                },
            },
        },
    }
}

/// The instance that the text of a file describes, or the first fault in it.
/// Blank lines and comment lines play no part.
pub open spec fn parse_text(content: Seq<char>) -> Result<InstanceModel, ParseErrorModel> {
    parse_entries(entries_of(content))
}

/// Whether `r` is the outcome that `expected` describes.
pub open spec fn is_outcome(
    r: Result<Curtois2014Instance, ParseError>,
    expected: Result<InstanceModel, ParseErrorModel>,
) -> bool {
    match expected {
        Ok(instance) => r matches Ok(x) && x@ == instance,
        Err(error) => r matches Err(x) && x@ == error,
    }
}

/// Parses the text of an instance file.
///
/// Returns the instance when every section is present and every row is well
/// formed, and otherwise the first fault, with its section and the line as
/// it stands in the file.
pub fn parse_curtois2014(content: &str) -> (r: Result<Curtois2014Instance, ParseError>)
    ensures
        is_outcome(r, parse_text(content@)),
{
    let chars = chars_of(content);
    let mut reader = Reader::new(chars.as_slice());
    let horizon = match read_horizon(&mut reader) {
        Ok(v) => v,
        Err(error) => {
            return Err(error);
        },
    };
    let shifts = match read_shifts(&mut reader) {
        Ok(v) => v,
        Err(error) => {
            return Err(error);
        },
    };
    let staff = match read_staff(&mut reader) {
        Ok(v) => v,
        Err(error) => {
            return Err(error);
        },
    };
    let daysoff = match read_daysoff(&mut reader) {
        Ok(v) => v,
        Err(error) => {
            return Err(error);
        },
    };
    let shiftrequests = match read_shift_requests(&mut reader) {
        Ok(v) => v,
        Err(error) => {
            return Err(error);
        },
    };
    let offrequests = match read_off_requests(&mut reader) {
        Ok(v) => v,
        Err(error) => {
            return Err(error);
        },
    };
    let cover = match read_cover(&mut reader) {
        Ok(v) => v,
        Err(error) => {
            return Err(error);
        },
    };
    Ok(Curtois2014Instance { horizon, shifts, staff, daysoff, shiftrequests, offrequests, cover })
}

} // verus!
