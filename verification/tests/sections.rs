use curtois2014::reader::Reader;
use curtois2014::sections::{
    read_cover, read_daysoff, read_horizon, read_off_requests, read_shift_requests, read_shifts,
    read_staff,
};
use curtois2014::{ErrorKind, ParseError, Section};

fn section_chars(s: &str) -> Vec<char> {
    s.chars().collect()
}

fn next_line(reader: &mut Reader) -> Option<String> {
    let (line, more) = reader.get_next_data_entry();
    if more {
        Some(line.iter().collect())
    } else {
        None
    }
}

fn fault(kind: ErrorKind, section: Section, line: &str) -> ParseError {
    ParseError { kind, section, line: String::from(line) }
}

#[test]
fn section_names_and_order() {
    assert_eq!(Section::Horizon.name(), "SECTION_HORIZON");
    assert_eq!(Section::Shifts.name(), "SECTION_SHIFTS");
    assert_eq!(Section::Staff.name(), "SECTION_STAFF");
    assert_eq!(Section::DaysOff.name(), "SECTION_DAYS_OFF");
    assert_eq!(Section::ShiftOnRequests.name(), "SECTION_SHIFT_ON_REQUESTS");
    assert_eq!(Section::ShiftOffRequests.name(), "SECTION_SHIFT_OFF_REQUESTS");
    assert_eq!(Section::Cover.name(), "SECTION_COVER");
    assert_eq!(Section::Horizon.next(), Some(Section::Shifts));
    assert_eq!(Section::Shifts.next(), Some(Section::Staff));
    assert_eq!(Section::Staff.next(), Some(Section::DaysOff));
    assert_eq!(Section::DaysOff.next(), Some(Section::ShiftOnRequests));
    assert_eq!(Section::ShiftOnRequests.next(), Some(Section::ShiftOffRequests));
    assert_eq!(Section::ShiftOffRequests.next(), Some(Section::Cover));
    assert_eq!(Section::Cover.next(), None);
}

#[test]
fn error_constructors() {
    assert_eq!(
        ParseError::at_line(ErrorKind::Format, Section::Shifts, &['D', ',', 'x']),
        fault(ErrorKind::Format, Section::Shifts, "D,x")
    );
    assert_eq!(ParseError::at_end(Section::Cover), fault(ErrorKind::Structure, Section::Cover, ""));
}

#[test]
fn horizon_section_is_a_header_and_a_value() {
    let chars = section_chars("SECTION_HORIZON\n# days\n14\nSECTION_SHIFTS\n");
    let mut reader = Reader::new(&chars);
    assert_eq!(read_horizon(&mut reader), Ok(14));
    assert_eq!(next_line(&mut reader).as_deref(), Some("SECTION_SHIFTS\n"));
}

#[test]
fn horizon_header_is_not_looked_at() {
    let chars = section_chars("anything at all\n 7 \n");
    let mut reader = Reader::new(&chars);
    assert_eq!(read_horizon(&mut reader), Ok(7));
    assert_eq!(next_line(&mut reader), None);
}

#[test]
fn horizon_section_faults() {
    let chars = section_chars("SECTION_HORIZON\nweek\n");
    assert_eq!(
        read_horizon(&mut Reader::new(&chars)),
        Err(fault(ErrorKind::Format, Section::Horizon, "week\n"))
    );
    let chars = section_chars("SECTION_HORIZON\n# nothing more\n");
    assert_eq!(
        read_horizon(&mut Reader::new(&chars)),
        Err(fault(ErrorKind::Structure, Section::Horizon, ""))
    );
    let chars = section_chars("");
    assert_eq!(
        read_horizon(&mut Reader::new(&chars)),
        Err(fault(ErrorKind::Structure, Section::Horizon, ""))
    );
}

#[test]
fn shifts_section_runs_to_the_staff_header() {
    let chars = section_chars("SECTION_SHIFTS\n# id, minutes, not after\nE,480,\nL,480,E\n\nSECTION_STAFF\nA,E=1,1,1,1,1,1,1\n");
    let mut reader = Reader::new(&chars);
    let shifts = read_shifts(&mut reader).unwrap();
    assert_eq!(shifts.len(), 2);
    assert_eq!(shifts[0].id, "E");
    assert!(shifts[0].forbidden_successors_ids.is_empty());
    assert_eq!(shifts[1].id, "L");
    assert_eq!(shifts[1].forbidden_successors_ids, vec!["E"]);
    assert_eq!(next_line(&mut reader).as_deref(), Some("A,E=1,1,1,1,1,1,1\n"));
}

#[test]
fn shifts_section_may_be_empty() {
    let chars = section_chars("SECTION_SHIFTS\n  SECTION_STAFF  \nrest\n");
    let mut reader = Reader::new(&chars);
    assert_eq!(read_shifts(&mut reader), Ok(vec![]));
    assert_eq!(next_line(&mut reader).as_deref(), Some("rest\n"));
}

#[test]
fn shifts_section_faults() {
    let chars = section_chars("");
    assert_eq!(
        read_shifts(&mut Reader::new(&chars)),
        Err(fault(ErrorKind::Structure, Section::Shifts, ""))
    );
    let chars = section_chars("SECTION_SHIFTS\nE,480,\n");
    assert_eq!(
        read_shifts(&mut Reader::new(&chars)),
        Err(fault(ErrorKind::Structure, Section::Shifts, ""))
    );
    let chars = section_chars("SECTION_SHIFTS\nE,480,\nL\nSECTION_STAFF\n");
    assert_eq!(
        read_shifts(&mut Reader::new(&chars)),
        Err(fault(ErrorKind::FieldCount, Section::Shifts, "L\n"))
    );
    let chars = section_chars("SECTION_SHIFTS\nE,eight hours,\nL\nSECTION_STAFF\n");
    assert_eq!(
        read_shifts(&mut Reader::new(&chars)),
        Err(fault(ErrorKind::Format, Section::Shifts, "E,eight hours,\n"))
    );
}

#[test]
fn a_later_header_does_not_close_an_earlier_section() {
    let chars = section_chars("SECTION_SHIFTS\nE,480,\nSECTION_DAYS_OFF\nSECTION_STAFF\n");
    assert_eq!(
        read_shifts(&mut Reader::new(&chars)),
        Err(fault(ErrorKind::Structure, Section::Shifts, "SECTION_DAYS_OFF\n"))
    );
}

#[test]
fn an_earlier_header_among_the_rows_is_out_of_order() {
    let chars = section_chars("A,E=14,4320,3360,5,2,2,1\n  SECTION_SHIFTS \nSECTION_DAYS_OFF\n");
    assert_eq!(
        read_staff(&mut Reader::new(&chars)).unwrap_err(),
        fault(ErrorKind::Structure, Section::Staff, "  SECTION_SHIFTS \n")
    );
    let chars = section_chars("S1,3\nSECTION_COVER\nSECTION_SHIFT_ON_REQUESTS\n");
    assert_eq!(
        read_daysoff(&mut Reader::new(&chars)).unwrap_err(),
        fault(ErrorKind::Structure, Section::DaysOff, "SECTION_COVER\n")
    );
    let chars = section_chars("0,D,2,10,5\nSECTION_COVER\n1,D,2,10,5\n");
    assert_eq!(
        read_cover(&mut Reader::new(&chars)).unwrap_err(),
        fault(ErrorKind::Structure, Section::Cover, "SECTION_COVER\n")
    );
}

#[test]
fn a_header_that_names_another_section_is_out_of_order() {
    let chars = section_chars("SECTION_SHIFTS\n7\n");
    assert_eq!(
        read_horizon(&mut Reader::new(&chars)),
        Err(fault(ErrorKind::Structure, Section::Horizon, "SECTION_SHIFTS\n"))
    );
    let chars = section_chars("SECTION_HORIZON\nSECTION_SHIFTS\n");
    assert_eq!(
        read_horizon(&mut Reader::new(&chars)),
        Err(fault(ErrorKind::Structure, Section::Horizon, "SECTION_SHIFTS\n"))
    );
    let chars = section_chars("SECTION_STAFF\nA,E=14,4320,3360,5,2,2,1\n");
    assert_eq!(
        read_shifts(&mut Reader::new(&chars)),
        Err(fault(ErrorKind::Structure, Section::Shifts, "SECTION_STAFF\n"))
    );
}

#[test]
fn a_header_that_names_no_section_is_passed_over() {
    let chars = section_chars("shifts follow\nE,480,\nSECTION_STAFF\n");
    assert_eq!(read_shifts(&mut Reader::new(&chars)).unwrap().len(), 1);
}

#[test]
fn sections_are_found_by_their_names() {
    let all = [
        Section::Horizon,
        Section::Shifts,
        Section::Staff,
        Section::DaysOff,
        Section::ShiftOnRequests,
        Section::ShiftOffRequests,
        Section::Cover,
    ];
    for section in all {
        let name = section_chars(section.name());
        assert_eq!(Section::named(&name), Some(section));
    }
    for text in ["", "SECTION", "SECTION_", "SECTION_END", "section_staff", "SECTION_STAFF ", "SECTION_STAFFS", "SECTION_SHIFT"] {
        assert_eq!(Section::named(&section_chars(text)), None, "{:?}", text);
    }
}

#[test]
fn staff_section_runs_to_the_days_off_header() {
    let chars = section_chars("A,E=14,4320,3360,5,2,2,1\nB,E=14|L=3,4320,3360,5,2,2,1\nSECTION_DAYS_OFF\nA,0\n");
    let mut reader = Reader::new(&chars);
    let staff = read_staff(&mut reader).unwrap();
    assert_eq!(staff.len(), 2);
    assert_eq!(staff[0].id, "A");
    assert_eq!(staff[1].id, "B");
    assert_eq!(staff[1].maxshifts.get("L"), Some(&3));
    assert_eq!(next_line(&mut reader).as_deref(), Some("A,0\n"));
}

#[test]
fn staff_section_faults() {
    let chars = section_chars("A,E=14,4320,3360,5,2,2,1\n");
    assert_eq!(
        read_staff(&mut Reader::new(&chars)).unwrap_err(),
        fault(ErrorKind::Structure, Section::Staff, "")
    );
    let chars = section_chars("A,E=14,4320,3360,5,2,2\nSECTION_DAYS_OFF\n");
    assert_eq!(
        read_staff(&mut Reader::new(&chars)).unwrap_err(),
        fault(ErrorKind::FieldCount, Section::Staff, "A,E=14,4320,3360,5,2,2\n")
    );
    let chars = section_chars("A,E=14,4320,3360,5,2,2,one\nSECTION_DAYS_OFF\n");
    assert_eq!(
        read_staff(&mut Reader::new(&chars)).unwrap_err(),
        fault(ErrorKind::Format, Section::Staff, "A,E=14,4320,3360,5,2,2,one\n")
    );
}

#[test]
fn days_off_section_maps_each_member_to_their_days() {
    let chars = section_chars("S1,3,7,10\nS2,0\nS3\nSECTION_SHIFT_ON_REQUESTS\nnext\n");
    let mut reader = Reader::new(&chars);
    let daysoff = read_daysoff(&mut reader).unwrap();
    assert_eq!(daysoff.len(), 3);
    assert_eq!(daysoff.get("S1"), Some(&vec![3, 7, 10]));
    assert_eq!(daysoff.get("S2"), Some(&vec![0]));
    assert_eq!(daysoff.get("S3"), Some(&vec![]));
    assert_eq!(daysoff.get("S4"), None);
    assert_eq!(next_line(&mut reader).as_deref(), Some("next\n"));
}

#[test]
fn days_off_last_row_for_a_member_stands() {
    let chars = section_chars("S1,3\nS2,4\nS1,5,6\nSECTION_SHIFT_ON_REQUESTS\n");
    let daysoff = read_daysoff(&mut Reader::new(&chars)).unwrap();
    assert_eq!(daysoff.len(), 2);
    assert_eq!(daysoff.get("S1"), Some(&vec![5, 6]));
    assert_eq!(daysoff.get("S2"), Some(&vec![4]));
}

#[test]
fn days_off_section_faults() {
    let chars = section_chars("S1,3\n");
    assert_eq!(
        read_daysoff(&mut Reader::new(&chars)).unwrap_err(),
        fault(ErrorKind::Structure, Section::DaysOff, "")
    );
    let chars = section_chars("S1,3\nS2,x\nSECTION_SHIFT_ON_REQUESTS\n");
    assert_eq!(
        read_daysoff(&mut Reader::new(&chars)).unwrap_err(),
        fault(ErrorKind::Format, Section::DaysOff, "S2,x\n")
    );
}

#[test]
fn shift_on_requests_run_to_the_shift_off_header() {
    let chars = section_chars("A,2,D,2\nB,3,E,1\nSECTION_SHIFT_OFF_REQUESTS\nC,0,D,3\n");
    let mut reader = Reader::new(&chars);
    let requests = read_shift_requests(&mut reader).unwrap();
    assert_eq!(requests.len(), 2);
    assert_eq!(requests[0].staffid, "A");
    assert_eq!(requests[0].day, 2);
    assert_eq!(requests[0].shiftid, "D");
    assert_eq!(requests[0].weight, 2);
    assert_eq!(requests[1].staffid, "B");
    assert_eq!(next_line(&mut reader).as_deref(), Some("C,0,D,3\n"));
}

#[test]
fn shift_off_requests_run_to_the_cover_header() {
    let chars = section_chars("C,0,D,3\nSECTION_COVER\n0,D,2,10,5\n");
    let mut reader = Reader::new(&chars);
    let requests = read_off_requests(&mut reader).unwrap();
    assert_eq!(requests.len(), 1);
    assert_eq!(requests[0].staffid, "C");
    assert_eq!(requests[0].weight, 3);
    assert_eq!(next_line(&mut reader).as_deref(), Some("0,D,2,10,5\n"));
}

#[test]
fn each_requests_section_has_its_own_closing_line() {
    let chars = section_chars("A,2,D,2\nSECTION_COVER\n");
    assert_eq!(
        read_shift_requests(&mut Reader::new(&chars)).unwrap_err(),
        fault(ErrorKind::Structure, Section::ShiftOnRequests, "SECTION_COVER\n")
    );
    let chars = section_chars("A,2,D,2\nSECTION_SHIFT_OFF_REQUESTS\n");
    assert_eq!(
        read_off_requests(&mut Reader::new(&chars)).unwrap_err(),
        fault(ErrorKind::Structure, Section::ShiftOffRequests, "SECTION_SHIFT_OFF_REQUESTS\n")
    );
}

#[test]
fn requests_section_faults() {
    let chars = section_chars("A,2,D,2\n");
    assert_eq!(
        read_shift_requests(&mut Reader::new(&chars)).unwrap_err(),
        fault(ErrorKind::Structure, Section::ShiftOnRequests, "")
    );
    assert_eq!(
        read_off_requests(&mut Reader::new(&chars)).unwrap_err(),
        fault(ErrorKind::Structure, Section::ShiftOffRequests, "")
    );
    let chars = section_chars("A,2,D,much\nSECTION_SHIFT_OFF_REQUESTS\n");
    assert_eq!(
        read_shift_requests(&mut Reader::new(&chars)).unwrap_err(),
        fault(ErrorKind::Format, Section::ShiftOnRequests, "A,2,D,much\n")
    );
    let chars = section_chars("A,2,D\nSECTION_COVER\n");
    assert_eq!(
        read_off_requests(&mut Reader::new(&chars)).unwrap_err(),
        fault(ErrorKind::FieldCount, Section::ShiftOffRequests, "A,2,D\n")
    );
}

#[test]
fn cover_section_runs_to_the_end_of_the_input() {
    let chars = section_chars("0,D,2,10,5\n1,D,3,10,5\n# done\n2,D,1,10,5");
    let mut reader = Reader::new(&chars);
    let cover = read_cover(&mut reader).unwrap();
    assert_eq!(cover.len(), 3);
    assert_eq!(cover[0].day, 0);
    assert_eq!(cover[1].required, 3);
    assert_eq!(cover[2].day, 2);
    assert_eq!(cover[2].cost_over, 5);
    assert_eq!(next_line(&mut reader), None);
}

#[test]
fn cover_section_may_be_empty() {
    let chars = section_chars("\n# nothing to cover\n");
    assert!(read_cover(&mut Reader::new(&chars)).unwrap().is_empty());
}

#[test]
fn cover_section_faults() {
    let chars = section_chars("0,D,2,10,5\n1,D,3,10\n2,D,1,10,5\n");
    assert_eq!(
        read_cover(&mut Reader::new(&chars)).unwrap_err(),
        fault(ErrorKind::FieldCount, Section::Cover, "1,D,3,10\n")
    );
    let chars = section_chars("0,D,2,10,5\nSECTION_END\n");
    assert_eq!(
        read_cover(&mut Reader::new(&chars)).unwrap_err(),
        fault(ErrorKind::FieldCount, Section::Cover, "SECTION_END\n")
    );
    let chars = section_chars("0,D,two,10,5\n");
    assert_eq!(
        read_cover(&mut Reader::new(&chars)).unwrap_err(),
        fault(ErrorKind::Format, Section::Cover, "0,D,two,10,5\n")
    );
}
