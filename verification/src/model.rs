//! The parts of an instance, each with the plain value that contracts speak
//! of.

use vstd::prelude::*;
use crate::idmap::IdMap;
use crate::text::string_views;

verus! {

/// A named work period.
#[derive(Debug, Clone, PartialEq)]
pub struct Shift {
    pub id: String,
    /// Length in minutes.
    pub length: i32,
    /// The shifts that may not follow this one on the next day.
    pub forbidden_successors_ids: Vec<String>,
}

/// A member of staff with the limits on their work.
#[derive(Debug, Clone)]
pub struct Staff {
    pub id: String,
    /// For each shift id, how often the shift may be assigned at most.
    pub maxshifts: IdMap<i32>,
    pub maxminutes: i32,
    pub minminutes: i32,
    pub maxconsecutiveshifts: i32,
    pub minconsecutiveshifts: i32,
    pub minconsecutiveoff: i32,
    pub maxweekends: i32,
}

/// A wish of a member of staff to work, or not to work, a shift on a day.
#[derive(Debug, Clone)]
pub struct Request {
    pub staffid: String,
    pub day: i32,
    pub shiftid: String,
    pub weight: i32,
}

/// How many people a shift needs on a day, and what it costs to miss that
/// number on either side.
#[derive(Debug, Clone)]
pub struct Requirement {
    pub day: i32,
    pub shift_id: String,
    pub required: i32,
    pub cost_under: i32,
    pub cost_over: i32,
}

/// A rostering instance.
#[derive(Debug)]
pub struct Curtois2014Instance {
    /// The number of days to plan.
    pub horizon: i32,
    pub shifts: Vec<Shift>,
    pub staff: Vec<Staff>,
    /// For each staff id, the days on which that person must not work.
    pub daysoff: IdMap<Vec<i32>>,
    pub shiftrequests: Vec<Request>,
    pub offrequests: Vec<Request>,
    pub cover: Vec<Requirement>,
}

/// A `Shift` as plain values.
pub struct ShiftModel {
    pub id: Seq<char>,
    pub length: int,
    pub forbidden_successors_ids: Seq<Seq<char>>,
}

/// A `Staff` as plain values.
pub struct StaffModel {
    pub id: Seq<char>,
    pub maxshifts: Map<Seq<char>, int>,
    pub maxminutes: int,
    pub minminutes: int,
    pub maxconsecutiveshifts: int,
    pub minconsecutiveshifts: int,
    pub minconsecutiveoff: int,
    pub maxweekends: int,
}

/// A `Request` as plain values.
pub struct RequestModel {
    pub staffid: Seq<char>,
    pub day: int,
    pub shiftid: Seq<char>,
    pub weight: int,
}

/// A `Requirement` as plain values.
pub struct RequirementModel {
    pub day: int,
    pub shift_id: Seq<char>,
    pub required: int,
    pub cost_under: int,
    pub cost_over: int,
}

/// A `Curtois2014Instance` as plain values.
pub struct InstanceModel {
    pub horizon: int,
    pub shifts: Seq<ShiftModel>,
    pub staff: Seq<StaffModel>,
    pub daysoff: Map<Seq<char>, Seq<int>>,
    pub shiftrequests: Seq<RequestModel>,
    pub offrequests: Seq<RequestModel>,
    pub cover: Seq<RequirementModel>,
}

/// A list of machine integers as mathematical ones.
pub open spec fn ints(s: Seq<i32>) -> Seq<int> {
    s.map_values(|v: i32| v as int)
}

/// A map to machine integers as one to mathematical ones.
pub open spec fn limits_model(m: Map<Seq<char>, i32>) -> Map<Seq<char>, int> {
    m.map_values(|v: i32| v as int)
}

/// A map to lists of days as one to sequences of integers.
pub open spec fn days_model(m: Map<Seq<char>, Vec<i32>>) -> Map<Seq<char>, Seq<int>> {
    m.map_values(|v: Vec<i32>| ints(v@))
}

impl View for Shift {
    type V = ShiftModel;

    open spec fn view(&self) -> ShiftModel {
        ShiftModel {
            id: self.id@,
            length: self.length as int,
            forbidden_successors_ids: string_views(self.forbidden_successors_ids@),
        }
    }
}

impl View for Staff {
    type V = StaffModel;

    open spec fn view(&self) -> StaffModel {
        StaffModel {
            id: self.id@,
            maxshifts: limits_model(self.maxshifts@),
            maxminutes: self.maxminutes as int,
            minminutes: self.minminutes as int,
            maxconsecutiveshifts: self.maxconsecutiveshifts as int,
            minconsecutiveshifts: self.minconsecutiveshifts as int,
            minconsecutiveoff: self.minconsecutiveoff as int,
            maxweekends: self.maxweekends as int,
        }
    }
}

impl View for Request {
    type V = RequestModel;

    open spec fn view(&self) -> RequestModel {
        RequestModel {
            staffid: self.staffid@,
            day: self.day as int,
            shiftid: self.shiftid@,
            weight: self.weight as int,
        }
    }
}

impl View for Requirement {
    type V = RequirementModel;

    open spec fn view(&self) -> RequirementModel {
        RequirementModel {
            day: self.day as int,
            shift_id: self.shift_id@,
            required: self.required as int,
            cost_under: self.cost_under as int,
            cost_over: self.cost_over as int,
        }
    }
}

/// A list of shifts as plain values.
pub open spec fn shift_models(v: Seq<Shift>) -> Seq<ShiftModel> {
    v.map_values(|x: Shift| x@)
}

/// A list of staff as plain values.
pub open spec fn staff_models(v: Seq<Staff>) -> Seq<StaffModel> {
    v.map_values(|x: Staff| x@)
}

/// A list of requests as plain values.
pub open spec fn request_models(v: Seq<Request>) -> Seq<RequestModel> {
    v.map_values(|x: Request| x@)
}

/// A list of coverage requirements as plain values.
pub open spec fn requirement_models(v: Seq<Requirement>) -> Seq<RequirementModel> {
    v.map_values(|x: Requirement| x@)
}

impl View for Curtois2014Instance {
    type V = InstanceModel;

    open spec fn view(&self) -> InstanceModel {
        InstanceModel {
            horizon: self.horizon as int,
            shifts: shift_models(self.shifts@),
            staff: staff_models(self.staff@),
            daysoff: days_model(self.daysoff@),
            shiftrequests: request_models(self.shiftrequests@),
            offrequests: request_models(self.offrequests@),
            cover: requirement_models(self.cover@),
        }
    }
}

} // verus!
