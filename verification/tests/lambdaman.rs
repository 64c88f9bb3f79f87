use icfl_toolkit::geometry;
use icfl_toolkit::lambdaman::to_lambdaman_path;
use icfl_toolkit::lambdaman::Agent;
use icfl_toolkit::lambdaman::Move;
use icfl_toolkit::lambdaman::Path;
use icfl_toolkit::lambdaman::Point;
use icfl_toolkit::lambdaman::RandomStepAgent;

#[test]
fn path_of_moves() {
    let mut path = Path::new(Point::new(1, 1));
    assert!(path.is_empty());
    path.push(Move::Right);
    path.push(Move::Down);
    let mut tail = Path::new(Point::new(9, 9));
    tail.push(Move::Left);
    tail.push(Move::Up);
    path.extend(tail);
    assert_eq!(path.len(), 4);
    assert!(!path.is_empty());
    assert_eq!(path.iter_moves(), vec![Move::Right, Move::Down, Move::Left, Move::Up]);
    assert_eq!(
        path.iter_positions(),
        vec![
            (Point::new(1, 1), 0),
            (Point::new(2, 1), 1),
            (Point::new(2, 2), 2),
            (Point::new(1, 2), 3),
            (Point::new(1, 1), 4),
        ]
    );
    assert_eq!(to_lambdaman_path(&path), "RDLU");
    assert_eq!(to_lambdaman_path(&Path::new(Point::new(0, 0))), "");
}

#[test]
fn point_steps() {
    let p = Point::new(3, 4);
    assert_eq!(p.apply(Move::Up), Point::new(3, 3));
    assert_eq!(p.apply(Move::Down), Point::new(3, 5));
    assert_eq!(p.apply(Move::Left), Point::new(2, 4));
    assert_eq!(p.apply(Move::Right), Point::new(4, 4));
}

#[test]
fn move_letters() {
    assert_eq!(geometry::Move::try_from('U'), Ok(geometry::Move::Up));
    assert_eq!(geometry::Move::try_from('L'), Ok(geometry::Move::Left));
    assert_eq!(geometry::Move::try_from('D'), Ok(geometry::Move::Down));
    assert_eq!(geometry::Move::try_from('R'), Ok(geometry::Move::Right));
    assert_eq!(geometry::Move::try_from('u'), Err(()));
    let p = geometry::Vector2D::new(1, 2);
    assert_eq!(p.add(geometry::Vector2D::new(3, -5)), geometry::Vector2D::new(4, -3));
    assert_eq!(p.sub(geometry::Vector2D::new(3, -5)), geometry::Vector2D::new(-2, 7));
}

fn played(seed: u32, count: usize) -> String {
    let mut agent = RandomStepAgent::new(seed);
    let mut out = String::new();
    for _ in 0..count {
        out.push(match agent.play() {
            geometry::Move::Up => 'U',
            geometry::Move::Left => 'L',
            geometry::Move::Down => 'D',
            geometry::Move::Right => 'R',
        });
    }
    out
}

#[test]
fn random_step_agent_plays_its_sequence() {
    assert_eq!(played(0, 12), "UULLLULUDUUD");
    assert_eq!(played(4294967295, 12), "DLUDLUUDDUUD");
    assert_eq!(played(12345, 20), "LLLRRDULDLLRDLLUUDRD");
    assert_eq!(played(7, 0), "");
}

#[test]
fn random_step_agent_writes_itself_down() {
    assert_eq!(RandomStepAgent::name(), "random_step");
    let text = RandomStepAgent::new(7).emit_agent(12);
    let expected = [
        "\n",
        "            \"let rec generate_instructions seed num_insn = (\n",
        "                if num_insn < 1 {\n",
        "                    \"\"\n",
        "                } else {\n",
        "                    ((\"ULDR\" drop ((seed / 42) % 4)) take 1)\n",
        "                    . (generate_instructions ((1664525 * seed + 1013904223) % 4294967296) (num_insn - 1))\n",
        "                }\n",
        "            ); in generate_instructions 7 12\n",
        "        ",
    ]
    .concat();
    assert_eq!(text, expected);
    let mut agent = RandomStepAgent::new(4294967295);
    agent.play();
    assert!(agent.emit_agent(0).contains("generate_instructions 4294967295 0\n"));
}
