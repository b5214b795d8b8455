use imgsort::action::Action;
use imgsort::script::render_script;

#[test]
fn script_round_trip_example() {
    let log = vec![
        Action::MkDir("d1".into()),
        Action::Move("a".into(), "d1".into()),
        Action::Skip("b".into()),
        Action::Delete("c".into()),
    ];
    assert_eq!(
        render_script(&log),
        "#!/bin/sh\nmkdir -p \"d1\"\nmv \"a\" \"d1\"\nrm \"c\""
    );
}

#[test]
fn script_of_empty_log() {
    assert_eq!(render_script(&vec![]), "#!/bin/sh");
}

#[test]
fn rename_writes_no_line() {
    let log = vec![
        Action::Rename("new.png".into()),
        Action::Move("old.png".into(), "dir with space".into()),
    ];
    assert_eq!(
        render_script(&log),
        "#!/bin/sh\nmv \"old.png\" \"dir with space\""
    );
}
