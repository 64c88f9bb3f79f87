use icfl_toolkit::geometry::Vector2D;
use icfl_toolkit::spaceship::accel_to_command;
use icfl_toolkit::spaceship::Command;
use icfl_toolkit::spaceship::SpaceshipModel;
use icfl_toolkit::spaceship::SpaceshipState;

#[test]
fn ship_follows_its_commands() {
    let start = SpaceshipState::new(Vector2D::new(0, 0), Vector2D::new(0, 0), String::new());
    let a = start.next(Command::UpRight);
    assert_eq!((a.pos, a.speed), (Vector2D::new(1, 1), Vector2D::new(1, 1)));
    let b = a.next(Command::KeepSpeed);
    assert_eq!((b.pos, b.speed), (Vector2D::new(2, 2), Vector2D::new(1, 1)));
    let c = b.next(Command::DownLeft);
    assert_eq!((c.pos, c.speed), (Vector2D::new(2, 2), Vector2D::new(0, 0)));
    let d = c.next(Command::Left).next(Command::Down).next(Command::Up).next(Command::Right);
    assert_eq!((d.pos, d.speed), (Vector2D::new(-1, 1), Vector2D::new(0, 0)));
    let e = d.next(Command::UpLeft).next(Command::DownRight);
    assert_eq!((e.pos, e.speed), (Vector2D::new(-2, 2), Vector2D::new(0, 0)));
    assert_eq!(e.path, "951428673");
}

#[test]
fn command_of_an_acceleration() {
    assert_eq!(accel_to_command(1, 1), Command::UpRight);
    assert_eq!(accel_to_command(1, 0), Command::Up);
    assert_eq!(accel_to_command(1, -1), Command::UpLeft);
    assert_eq!(accel_to_command(0, 1), Command::Right);
    assert_eq!(accel_to_command(0, 0), Command::KeepSpeed);
    assert_eq!(accel_to_command(0, -1), Command::Left);
    assert_eq!(accel_to_command(-1, 1), Command::DownRight);
    assert_eq!(accel_to_command(-1, 0), Command::Down);
    assert_eq!(accel_to_command(-1, -1), Command::DownLeft);
}

fn points_of(text: &str) -> Option<Vec<Vector2D>> {
    SpaceshipModel::load(text).map(|m| m.points)
}

#[test]
fn points_are_read_line_by_line() {
    assert_eq!(points_of(""), Some(vec![]));
    assert_eq!(points_of("1 2"), Some(vec![Vector2D::new(1, 2)]));
    assert_eq!(
        points_of("1 2\n-3 +4\n"),
        Some(vec![Vector2D::new(1, 2), Vector2D::new(-3, 4)])
    );
    assert_eq!(
        points_of("  007\t-0  \r\n5 6 and more"),
        Some(vec![Vector2D::new(7, 0), Vector2D::new(5, 6)])
    );
    assert_eq!(
        points_of("-2147483648 2147483647"),
        Some(vec![Vector2D::new(i32::MIN, i32::MAX)])
    );
}

#[test]
fn points_are_separated_by_any_white_space() {
    assert_eq!(points_of("1\u{a0}2"), Some(vec![Vector2D::new(1, 2)]));
    assert_eq!(points_of("\u{3000}1\u{2003}\u{205f}2\u{85}"), Some(vec![Vector2D::new(1, 2)]));
    assert_eq!(points_of("1\u{1680}2\u{2028}\u{2029}\u{202f}"), Some(vec![Vector2D::new(1, 2)]));
    assert_eq!(points_of("1\u{200b}2"), None);
    assert_eq!(points_of("1\u{e9}2 3"), None);
}

#[test]
fn lines_without_a_point_are_refused() {
    assert_eq!(points_of("\n"), None);
    assert_eq!(points_of("1 2\n\n3 4"), None);
    assert_eq!(points_of("1"), None);
    assert_eq!(points_of("1,2"), None);
    assert_eq!(points_of("1 x"), None);
    assert_eq!(points_of("+ 1"), None);
    assert_eq!(points_of("1 -"), None);
    assert_eq!(points_of("2147483648 0"), None);
    assert_eq!(points_of("0 -2147483649"), None);
    assert_eq!(points_of("99999999999999999999999 0"), None);
    assert_eq!(points_of("1 2\n3"), None);
}
