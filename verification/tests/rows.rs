use curtois2014::rows::{
    parse_days_off_row, parse_horizon_row, parse_integer, parse_limit, parse_limits,
    parse_request_row, parse_requirement_row, parse_shift_row, parse_staff_row,
};
use curtois2014::ErrorKind;

fn row_chars(s: &str) -> Vec<char> {
    s.chars().collect()
}

#[test]
fn horizon_line_is_trimmed() {
    assert_eq!(parse_horizon_row(&row_chars("14\n")), Ok(14));
    assert_eq!(parse_horizon_row(&row_chars("  7 \r\n")), Ok(7));
    assert_eq!(parse_horizon_row(&row_chars("-3")), Ok(-3));
    assert_eq!(parse_horizon_row(&row_chars("seven\n")), Err(ErrorKind::Format));
    assert_eq!(parse_horizon_row(&row_chars("7 days\n")), Err(ErrorKind::Format));
}

#[test]
fn integer_field_is_read_as_it_stands() {
    assert_eq!(parse_integer(&row_chars("12")), Ok(12));
    assert_eq!(parse_integer(&row_chars(" 12")), Err(ErrorKind::Format));
    assert_eq!(parse_integer(&row_chars("")), Err(ErrorKind::Format));
}

#[test]
fn shift_row_with_empty_third_field_has_no_successors() {
    let shift = parse_shift_row(&row_chars("D,480,\n")).unwrap();
    assert_eq!(shift.id, "D");
    assert_eq!(shift.length, 480);
    assert!(shift.forbidden_successors_ids.is_empty());
}

#[test]
fn shift_row_without_third_field_has_no_successors() {
    let shift = parse_shift_row(&row_chars("D,480\n")).unwrap();
    assert_eq!(shift.id, "D");
    assert_eq!(shift.length, 480);
    assert!(shift.forbidden_successors_ids.is_empty());
}

#[test]
fn shift_row_lists_successors_in_order() {
    let shift = parse_shift_row(&row_chars("L,480,A|B\n")).unwrap();
    assert_eq!(shift.id, "L");
    assert_eq!(shift.forbidden_successors_ids, vec!["A", "B"]);
    let one = parse_shift_row(&row_chars("L,480,E")).unwrap();
    assert_eq!(one.forbidden_successors_ids, vec!["E"]);
    let three = parse_shift_row(&row_chars("N,600,E|D|L")).unwrap();
    assert_eq!(three.forbidden_successors_ids, vec!["E", "D", "L"]);
}

#[test]
fn shift_row_is_trimmed_as_a_whole() {
    let shift = parse_shift_row(&row_chars("  D,480,A|B  \r\n")).unwrap();
    assert_eq!(shift.id, "D");
    assert_eq!(shift.forbidden_successors_ids, vec!["A", "B"]);
    let padded = parse_shift_row(&row_chars("D,480, A|B ,x")).unwrap();
    assert_eq!(padded.forbidden_successors_ids, vec!["A", "B"]);
    let blank = parse_shift_row(&row_chars("D,480, ,x")).unwrap();
    assert_eq!(blank.forbidden_successors_ids, vec![""]);
}

#[test]
fn shift_row_faults() {
    assert_eq!(parse_shift_row(&row_chars("D\n")), Err(ErrorKind::FieldCount));
    assert_eq!(parse_shift_row(&row_chars("SECTION_DAYS_OFF\n")), Err(ErrorKind::FieldCount));
    assert_eq!(parse_shift_row(&row_chars("D,long,\n")), Err(ErrorKind::Format));
    assert_eq!(parse_shift_row(&row_chars("D, 480,\n")), Err(ErrorKind::Format));
    assert_eq!(parse_shift_row(&row_chars("D,,\n")), Err(ErrorKind::Format));
}

#[test]
fn limit_pair_is_an_identifier_and_a_number() {
    assert_eq!(parse_limit(&row_chars("E1=5")), Ok((String::from("E1"), 5)));
    assert_eq!(parse_limit(&row_chars("=5")), Ok((String::new(), 5)));
    assert_eq!(parse_limit(&row_chars("D=7=9")), Ok((String::from("D"), 7)));
    assert_eq!(parse_limit(&row_chars("E1")), Err(ErrorKind::FieldCount));
    assert_eq!(parse_limit(&row_chars("")), Err(ErrorKind::FieldCount));
    assert_eq!(parse_limit(&row_chars("E1=")), Err(ErrorKind::Format));
    assert_eq!(parse_limit(&row_chars("E1= 5")), Err(ErrorKind::Format));
}

#[test]
fn limits_hold_exactly_the_pairs_listed() {
    let limits = parse_limits(&row_chars("E1=5|L1=2")).unwrap();
    assert_eq!(limits.len(), 2);
    assert_eq!(limits.get("E1"), Some(&5));
    assert_eq!(limits.get("L1"), Some(&2));
    assert_eq!(limits.get("D"), None);
}

#[test]
fn later_limit_for_the_same_shift_stands() {
    let limits = parse_limits(&row_chars("E=5|L=2|E=8")).unwrap();
    assert_eq!(limits.len(), 2);
    assert_eq!(limits.get("E"), Some(&8));
    assert_eq!(limits.get("L"), Some(&2));
}

#[test]
fn limits_faults() {
    assert!(matches!(parse_limits(&row_chars("")), Err(ErrorKind::FieldCount)));
    assert!(matches!(parse_limits(&row_chars("E=5|")), Err(ErrorKind::FieldCount)));
    assert!(matches!(parse_limits(&row_chars("E=5|L")), Err(ErrorKind::FieldCount)));
    assert!(matches!(parse_limits(&row_chars("E=x|L")), Err(ErrorKind::Format)));
    assert!(matches!(parse_limits(&row_chars("E|L=x")), Err(ErrorKind::FieldCount)));
}

#[test]
fn staff_row_gives_every_field() {
    let member = parse_staff_row(&row_chars("A,E=14|L=10,4320,3360,5,2,3,1\n")).unwrap();
    assert_eq!(member.id, "A");
    assert_eq!(member.maxshifts.len(), 2);
    assert_eq!(member.maxshifts.get("E"), Some(&14));
    assert_eq!(member.maxshifts.get("L"), Some(&10));
    assert_eq!(member.maxminutes, 4320);
    assert_eq!(member.minminutes, 3360);
    assert_eq!(member.maxconsecutiveshifts, 5);
    assert_eq!(member.minconsecutiveshifts, 2);
    assert_eq!(member.minconsecutiveoff, 3);
    assert_eq!(member.maxweekends, 1);
}

#[test]
fn staff_row_trims_its_numbers_and_keeps_its_identifier() {
    let member = parse_staff_row(&row_chars(" A,D=7, 2400 ,0 , 7,1,2\t,1 \r\n")).unwrap();
    assert_eq!(member.id, " A");
    assert_eq!(member.maxminutes, 2400);
    assert_eq!(member.minminutes, 0);
    assert_eq!(member.maxconsecutiveshifts, 7);
    assert_eq!(member.minconsecutiveoff, 2);
    assert_eq!(member.maxweekends, 1);
}

#[test]
fn staff_row_ignores_fields_beyond_the_eighth() {
    let member = parse_staff_row(&row_chars("A,D=7,2400,0,7,1,2,1,extra,more\n")).unwrap();
    assert_eq!(member.maxweekends, 1);
}

#[test]
fn staff_row_missing_the_weekends_field_has_too_few_fields() {
    assert!(matches!(
        parse_staff_row(&row_chars("S1,D=7,2400,0,7,1,2\n")),
        Err(ErrorKind::FieldCount)
    ));
}

#[test]
fn staff_row_faults() {
    assert!(matches!(parse_staff_row(&row_chars("S1\n")), Err(ErrorKind::FieldCount)));
    assert!(matches!(
        parse_staff_row(&row_chars("S1,D=x,2400,0,7,1,2\n")),
        Err(ErrorKind::FieldCount)
    ));
    assert!(matches!(
        parse_staff_row(&row_chars("S1,D=x,2400,0,7,1,2,1\n")),
        Err(ErrorKind::Format)
    ));
    assert!(matches!(
        parse_staff_row(&row_chars("S1,D,2400,0,7,1,2,1\n")),
        Err(ErrorKind::FieldCount)
    ));
    assert!(matches!(
        parse_staff_row(&row_chars("S1,D=7,2400,0,7,1,2,\n")),
        Err(ErrorKind::Format)
    ));
    assert!(matches!(
        parse_staff_row(&row_chars("S1,D=7,24OO,0,7,1,2,1\n")),
        Err(ErrorKind::Format)
    ));
    assert!(matches!(
        parse_staff_row(&row_chars("S1,D=7,2400,0,7,1,2,2147483648\n")),
        Err(ErrorKind::Format)
    ));
}

#[test]
fn days_off_row_keeps_the_order_of_its_days() {
    assert_eq!(
        parse_days_off_row(&row_chars("S1,3,7,10")),
        Ok((String::from("S1"), vec![3, 7, 10]))
    );
    assert_eq!(
        parse_days_off_row(&row_chars("S1,10,7,3,7\n")),
        Ok((String::from("S1"), vec![10, 7, 3, 7]))
    );
}

#[test]
fn days_off_row_trims_every_field() {
    assert_eq!(
        parse_days_off_row(&row_chars(" S1 , 3 ,7\t, 10 \r\n")),
        Ok((String::from("S1"), vec![3, 7, 10]))
    );
}

#[test]
fn days_off_row_may_have_no_days() {
    assert_eq!(parse_days_off_row(&row_chars("S1\n")), Ok((String::from("S1"), vec![])));
}

#[test]
fn days_off_row_faults() {
    assert_eq!(parse_days_off_row(&row_chars("S1,\n")), Err(ErrorKind::Format));
    assert_eq!(parse_days_off_row(&row_chars("S1,3,,10\n")), Err(ErrorKind::Format));
    assert_eq!(parse_days_off_row(&row_chars("S1,3,x\n")), Err(ErrorKind::Format));
}

#[test]
fn request_row_gives_every_field() {
    let request = parse_request_row(&row_chars("A,2,D,3\n")).unwrap();
    assert_eq!(request.staffid, "A");
    assert_eq!(request.day, 2);
    assert_eq!(request.shiftid, "D");
    assert_eq!(request.weight, 3);
    let negative = parse_request_row(&row_chars("B,0,E,-1 \r\n")).unwrap();
    assert_eq!(negative.weight, -1);
    let extra = parse_request_row(&row_chars("B,0,E,4,ignored\n")).unwrap();
    assert_eq!(extra.weight, 4);
}

#[test]
fn request_row_faults() {
    assert!(matches!(parse_request_row(&row_chars("A,2,D\n")), Err(ErrorKind::FieldCount)));
    assert!(matches!(parse_request_row(&row_chars("A\n")), Err(ErrorKind::FieldCount)));
    assert!(matches!(parse_request_row(&row_chars("A,two,D,3\n")), Err(ErrorKind::Format)));
    assert!(matches!(parse_request_row(&row_chars("A, 2,D,3\n")), Err(ErrorKind::Format)));
    assert!(matches!(parse_request_row(&row_chars("A,2,D,\n")), Err(ErrorKind::Format)));
    assert!(matches!(parse_request_row(&row_chars("A,2,D,high\n")), Err(ErrorKind::Format)));
}

#[test]
fn requirement_row_gives_every_field() {
    let need = parse_requirement_row(&row_chars("0,D,2,10,5")).unwrap();
    assert_eq!(need.day, 0);
    assert_eq!(need.shift_id, "D");
    assert_eq!(need.required, 2);
    assert_eq!(need.cost_under, 10);
    assert_eq!(need.cost_over, 5);
    let line = parse_requirement_row(&row_chars("13,L,4,100,1 \r\n")).unwrap();
    assert_eq!(line.day, 13);
    assert_eq!(line.cost_over, 1);
}

#[test]
fn requirement_row_faults() {
    assert!(matches!(
        parse_requirement_row(&row_chars("0,D,2,10\n")),
        Err(ErrorKind::FieldCount)
    ));
    assert!(matches!(parse_requirement_row(&row_chars(" 0,D,2,10,5\n")), Err(ErrorKind::Format)));
    assert!(matches!(parse_requirement_row(&row_chars("x,D,2,10,5\n")), Err(ErrorKind::Format)));
    assert!(matches!(parse_requirement_row(&row_chars("0,D,x,10,5\n")), Err(ErrorKind::Format)));
    assert!(matches!(parse_requirement_row(&row_chars("0,D,2,x,5\n")), Err(ErrorKind::Format)));
    assert!(matches!(parse_requirement_row(&row_chars("0,D,2,10,x\n")), Err(ErrorKind::Format)));
    assert!(matches!(parse_requirement_row(&row_chars("0,D,2,10,\n")), Err(ErrorKind::Format)));
}
