use mare_website::database::breed::Breed;
use mare_website::database::table::{next_marker, SetState};

#[test]
fn breed_codes_are_zero_one_two() {
    assert_eq!(i32::from(Breed::Earth), 0);
    assert_eq!(i32::from(Breed::Pegasus), 1);
    assert_eq!(i32::from(Breed::Unicorn), 2);
}

#[test]
fn breed_is_found_again_from_its_code() {
    for breed in [Breed::Earth, Breed::Pegasus, Breed::Unicorn] {
        assert_eq!(Breed::from_code(i32::from(breed)), Some(breed));
    }
    assert_eq!(Breed::from_code(0), Some(Breed::Earth));
    assert_eq!(Breed::from_code(1), Some(Breed::Pegasus));
    assert_eq!(Breed::from_code(2), Some(Breed::Unicorn));
}

#[test]
fn other_codes_stand_for_no_breed() {
    assert_eq!(Breed::from_code(3), None);
    assert_eq!(Breed::from_code(-1), None);
    assert_eq!(Breed::from_code(i32::MAX), None);
    assert_eq!(Breed::from_code(i32::MIN), None);
}

#[test]
fn breed_names() {
    assert_eq!(Breed::Earth.name(), "Earth");
    assert_eq!(Breed::Pegasus.name(), "Pegasus");
    assert_eq!(Breed::Unicorn.name(), "Unicorn");
}

#[test]
fn set_state_codes() {
    assert_eq!(SetState::from_code(0), Some(SetState::Success));
    assert_eq!(SetState::from_code(1), Some(SetState::ModifiedAtConflict));
    assert_eq!(SetState::from_code(2), Some(SetState::RecordNotFound));
    assert_eq!(SetState::from_code(3), None);
    assert_eq!(SetState::from_code(-1), None);
}

#[test]
fn next_marker_is_the_later_of_now_and_the_microsecond_after() {
    assert_eq!(next_marker(500, 600), 600);
    assert_eq!(next_marker(500, 501), 501);
    assert_eq!(next_marker(500, 500), 501);
    assert_eq!(next_marker(500, 100), 501);
    assert_eq!(next_marker(500, i64::MIN), 501);
    assert_eq!(next_marker(i64::MIN, i64::MIN), i64::MIN + 1);
    assert_eq!(next_marker(i64::MAX - 1, 0), i64::MAX);
    assert_eq!(next_marker(-5, i64::MAX), i64::MAX);
}

#[test]
fn an_accepted_edit_is_a_success_only_where_the_engine_changed_a_row() {
    assert_eq!(SetState::Success.confirmed(1), SetState::Success);
    assert_eq!(SetState::Success.confirmed(2), SetState::Success);
    assert_eq!(SetState::Success.confirmed(0), SetState::ModifiedAtConflict);
    for rows in [0, 1, u64::MAX] {
        assert_eq!(SetState::ModifiedAtConflict.confirmed(rows), SetState::ModifiedAtConflict);
        assert_eq!(SetState::RecordNotFound.confirmed(rows), SetState::RecordNotFound);
    }
}
