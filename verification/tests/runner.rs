use std::path::PathBuf;

use icfl_toolkit::runner::Parameter;
use icfl_toolkit::runner::Problem;

#[test]
fn problem_keeps_its_path_and_name() {
    let problem = Problem::new(PathBuf::from("problems/spaceship/1.txt"), "spaceship1".to_string());
    assert_eq!(problem.path, PathBuf::from("problems/spaceship/1.txt"));
    assert_eq!(problem.name, "spaceship1");
}

#[test]
fn parameter_is_copied_as_it_is() {
    match Parameter::Int(-7).clone() {
        Parameter::Int(i) => assert_eq!(i, -7),
        Parameter::String(_) => unreachable!(),
    }
    match Parameter::String("depth".to_string()).clone() {
        Parameter::String(s) => assert_eq!(s, "depth"),
        Parameter::Int(_) => unreachable!(),
    }
}
