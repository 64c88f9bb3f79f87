use icfl_toolkit::bigint::BigInt;
use icfl_toolkit::geometry::Vector2D;
use icfl_toolkit::three_d::Cell;
use icfl_toolkit::three_d::SimError;
use icfl_toolkit::three_d::SimulationStepResult;
use icfl_toolkit::three_d::ThreeDBoard;
use icfl_toolkit::three_d::ThreeDSimulator;

fn simulator(board: &str, a: i64, b: i64) -> ThreeDSimulator {
    ThreeDSimulator::new(
        ThreeDBoard::load(board).unwrap(),
        BigInt::from_i64(a),
        BigInt::from_i64(b),
    )
}

fn data(v: i64) -> Cell {
    Cell::Data(BigInt::from_i64(v))
}

#[test]
fn first_tick_puts_the_inputs_in() {
    let mut sim = simulator("A . B\n. A .\n", 7, -2);
    assert_eq!(sim.time(), 0);
    assert_eq!(sim.step(), SimulationStepResult::Advanced);
    assert_eq!(sim.time(), 1);
    assert_eq!(sim.cells().get(Vector2D::new(0, 0)), Some(&data(7)));
    assert_eq!(sim.cells().get(Vector2D::new(1, 1)), Some(&data(7)));
    assert_eq!(sim.cells().get(Vector2D::new(2, 0)), Some(&data(-2)));
    assert_eq!(sim.cells().get(Vector2D::new(1, 0)), None);
    assert_eq!(sim.initial_board().save(), "A . B \n. A . \n");
    assert_eq!(sim.as_board().save(), "7 . -2 \n. 7 . \n");
}

#[test]
fn two_writes_to_one_cell_conflict() {
    let mut sim = simulator("1 > . < 2", 0, 0);
    assert_eq!(sim.step(), SimulationStepResult::Advanced);
    assert_eq!(
        sim.step(),
        SimulationStepResult::Error(SimError::Conflict(Vector2D::new(2, 0)))
    );
    assert_eq!(sim.step(), SimulationStepResult::AlreadyFinished);
}

#[test]
fn time_warp_must_go_back() {
    let mut sim = simulator(". 5 .\n1 @ 1\n. 0 .", 0, 0);
    assert_eq!(sim.step(), SimulationStepResult::Advanced);
    assert_eq!(
        sim.step(),
        SimulationStepResult::Error(SimError::BadTimeWarp(Vector2D::new(1, 1)))
    );
    let mut sim = simulator(". 5 .\n1 @ 1\n. -1 .", 0, 0);
    assert_eq!(sim.step(), SimulationStepResult::Advanced);
    assert_eq!(
        sim.step(),
        SimulationStepResult::Error(SimError::BadTimeWarp(Vector2D::new(1, 1)))
    );
    // further back than the first tick
    let mut sim = simulator(". 5 .\n1 @ 1\n. 2 .", 0, 0);
    assert_eq!(sim.step(), SimulationStepResult::Advanced);
    assert_eq!(
        sim.step(),
        SimulationStepResult::Error(SimError::BadTimeWarp(Vector2D::new(1, 1)))
    );
}

#[test]
fn two_submissions_in_one_tick() {
    let mut sim = simulator("1 > S\n2 > S", 0, 0);
    assert_eq!(sim.step(), SimulationStepResult::Advanced);
    assert_eq!(
        sim.step(),
        SimulationStepResult::Error(SimError::MultipleSubmit(Vector2D::new(2, 1)))
    );
}

#[test]
fn score_is_area_times_time() {
    let mut sim = simulator("1 > . .\n. . . .\n. . 3 .", 0, 0);
    // before any tick
    assert_eq!(sim.score(), 0);
    assert_eq!(sim.step(), SimulationStepResult::Advanced);
    // columns 0 to 2, rows 0 to 2, one tick
    assert_eq!(sim.score(), 3 * 3 * 1);
    assert_eq!(sim.step(), SimulationStepResult::Advanced);
    assert_eq!(sim.time(), 2);
    assert_eq!(sim.score(), 3 * 3 * 2);

    let mut sim = simulator("1 > .", 0, 0);
    assert_eq!(sim.step(), SimulationStepResult::Advanced);
    assert_eq!(sim.time(), 1);
    assert_eq!(sim.score(), 2);
}

#[test]
fn submission_finishes() {
    let mut sim = simulator("3 * S\n. 4 .", 0, 0);
    // `*` at (1, 0) has 3 to its left and nothing above it: it does not act
    assert_eq!(sim.step(), SimulationStepResult::Advanced);
    assert_eq!(sim.step(), SimulationStepResult::Advanced);
    assert_eq!(sim.time(), 2);
    assert_eq!(sim.as_board().save(), "3 * S \n. 4 . \n");

    let mut sim = simulator(". 4 .\n3 * S\n. . .", 0, 0);
    assert_eq!(sim.step(), SimulationStepResult::Advanced);
    assert_eq!(sim.step(), SimulationStepResult::Finished(BigInt::from_i64(12)));
    assert_eq!(sim.step(), SimulationStepResult::AlreadyFinished);
    assert_eq!(sim.steps_taken(), 2);
}

#[test]
fn arithmetic_and_comparison() {
    let mut sim = simulator(". 7 .\n-7 / .\n. . .", 0, 0);
    sim.step();
    assert_eq!(sim.step(), SimulationStepResult::Advanced);
    // the board is the box around the cells that are left
    assert_eq!(sim.as_board().save(), "/ -1 \n-1 . \n");

    let mut sim = simulator(". 2 .\n-7 % .\n. . .", 0, 0);
    sim.step();
    sim.step();
    assert_eq!(sim.cells().get(Vector2D::new(2, 1)), Some(&data(-1)));
    assert_eq!(sim.cells().get(Vector2D::new(1, 2)), Some(&data(-1)));
    assert_eq!(sim.cells().get(Vector2D::new(0, 1)), None);

    let mut sim = simulator(". 0 .\n1 / .\n. . .", 0, 0);
    sim.step();
    assert_eq!(
        sim.step(),
        SimulationStepResult::Error(SimError::BadOperand(Vector2D::new(1, 1)))
    );

    let mut sim = simulator(". 5 .\n4 # .\n. . .", 0, 0);
    sim.step();
    sim.step();
    assert_eq!(sim.cells().get(Vector2D::new(2, 1)), Some(&data(5)));
    assert_eq!(sim.cells().get(Vector2D::new(1, 2)), Some(&data(4)));

    let mut sim = simulator(". 5 .\n4 = .\n. . .", 0, 0);
    sim.step();
    assert_eq!(sim.step(), SimulationStepResult::Advanced);
    assert_eq!(sim.as_board().save(), ". 5 \n4 = \n");

    let mut sim = simulator(". + .\n+ = .\n. . .", 0, 0);
    sim.step();
    sim.step();
    assert_eq!(sim.cells().get(Vector2D::new(2, 1)), Some(&Cell::Add));
    assert_eq!(sim.cells().get(Vector2D::new(1, 2)), Some(&Cell::Add));
}

#[test]
fn submitted_cell_must_be_a_number() {
    let mut sim = simulator("+ > S", 0, 0);
    sim.step();
    assert_eq!(
        sim.step(),
        SimulationStepResult::Error(SimError::BadOperand(Vector2D::new(2, 0)))
    );
}

#[test]
fn time_warp_rewrites_the_past() {
    let mut sim = simulator(". 7 .\n0 @ 0\n. 1 .", 0, 0);
    assert_eq!(sim.time_warp_target(Vector2D::new(1, 1)), Some(Vector2D::new(1, 1)));
    assert_eq!(sim.time_warp_target(Vector2D::new(0, 1)), None);
    assert_eq!(sim.step(), SimulationStepResult::Advanced);
    assert_eq!(sim.time(), 1);
    assert_eq!(sim.step(), SimulationStepResult::Advanced);
    // back at the first tick, with the carried cell in the place of the warp
    assert_eq!(sim.time(), 0);
    assert_eq!(sim.as_board().save(), ". 7 . \n0 7 0 \n. 1 . \n");
    // the greatest tick number reached stays 1
    assert_eq!(sim.score(), 3 * 3 * 1);
    assert_eq!(sim.step(), SimulationStepResult::Advanced);
    // no operator is left: the tape stays and the time goes on
    assert_eq!(sim.step(), SimulationStepResult::Advanced);
    assert_eq!(sim.time(), 2);
    assert_eq!(sim.as_board().save(), ". 7 . \n0 7 0 \n. 1 . \n");
    assert_eq!(sim.steps_taken(), 4);
}

#[test]
fn time_warps_must_agree() {
    // two warps to one position with different cells
    let mut sim = simulator(". 7 . . 8 .\n0 @ 0 3 @ 0\n. 1 . . 1 .", 0, 0);
    sim.step();
    assert_eq!(
        sim.step(),
        SimulationStepResult::Error(SimError::Conflict(Vector2D::new(1, 1)))
    );
    // two warps to different times
    let mut sim = simulator(
        ". . 7 . . . 8 .\n. 0 @ 0 . 0 @ 0\n1 > . . 2 > . .",
        0,
        0,
    );
    assert_eq!(sim.step(), SimulationStepResult::Advanced);
    // the arrows bring the two delays under the warps
    assert_eq!(sim.step(), SimulationStepResult::Advanced);
    assert_eq!(sim.time(), 2);
    assert_eq!(
        sim.step(),
        SimulationStepResult::Error(SimError::BadTimeWarp(Vector2D::new(0, 0)))
    );
}

#[test]
fn step_back_restores_the_tape() {
    let mut sim = simulator("1 > . .", 0, 0);
    assert_eq!(sim.step_back(), SimulationStepResult::AlreadyFinished);
    sim.step();
    sim.step();
    assert_eq!(sim.as_board().save(), "> 1 \n");
    assert_eq!(sim.step(), SimulationStepResult::Advanced);
    assert_eq!(sim.time(), 3);
    assert_eq!(sim.step_back(), SimulationStepResult::Advanced);
    assert_eq!(sim.time(), 2);
    assert_eq!(sim.as_board().save(), "> 1 \n");
    assert_eq!(sim.step_back(), SimulationStepResult::Advanced);
    assert_eq!(sim.time(), 1);
    assert_eq!(sim.as_board().save(), "1 > \n");
    assert_eq!(sim.steps_taken(), 5);
    assert_eq!(sim.step(), SimulationStepResult::Advanced);
}

#[test]
fn ticks_are_limited() {
    let mut sim = simulator("1 > . .", 0, 0);
    sim.step();
    let mut last = SimulationStepResult::Advanced;
    for _ in 0..500_010 {
        last = sim.step();
        if last != SimulationStepResult::Advanced {
            break;
        }
        sim.step_back();
    }
    assert_eq!(last, SimulationStepResult::Error(SimError::TickLimit));
    assert_eq!(SimError::TickLimit.position(), Vector2D::new(0, 0));
}

#[test]
fn cells_can_be_edited() {
    let mut sim = simulator("1 .", 3, 4);
    sim.set_cell(Vector2D::new(5, -2), Cell::Submit);
    assert_eq!(sim.remove_cell(Vector2D::new(0, 0)), Some(data(1)));
    assert_eq!(sim.remove_cell(Vector2D::new(0, 0)), None);
    assert_eq!(sim.as_board().save(), "S \n");
    sim.set_a(BigInt::from_i64(9));
    sim.set_b(BigInt::from_i64(8));
    assert_eq!(sim.a(), &BigInt::from_i64(9));
    assert_eq!(sim.b(), &BigInt::from_i64(8));
}

#[test]
fn board_text() {
    let text = "< > ^ v \n+ - * / % \n= # @ S A B . \n-99 99 0 \n\n";
    let board = ThreeDBoard::load(text).unwrap();
    assert_eq!(board.board.len(), 5);
    assert_eq!(board.board[4].len(), 0);
    assert_eq!(board.save(), text);
    assert_eq!(ThreeDBoard::load("  1\t+7  -0 007\r\n.").unwrap().save(), "1 7 0 7 \n. \n");
    assert!(ThreeDBoard::load("100").is_none());
    assert!(ThreeDBoard::load("-100").is_none());
    assert!(ThreeDBoard::load("x").is_none());
    assert!(ThreeDBoard::load("1 2 3a").is_none());
    assert!(ThreeDBoard::load("--1").is_none());
    assert_eq!(ThreeDBoard::load("").unwrap().board.len(), 0);
}

#[test]
fn tick_without_action_advances() {
    let mut sim = simulator("1", 0, 0);
    assert_eq!(sim.step(), SimulationStepResult::Advanced);
    assert_eq!(sim.step(), SimulationStepResult::Advanced);
    assert_eq!(sim.time(), 2);
    assert_eq!(sim.cells().len(), 1);
    assert_eq!(sim.cells().get(Vector2D::new(0, 0)), Some(&data(1)));
    assert_eq!(sim.score(), 2);
    assert_eq!(sim.step_back(), SimulationStepResult::Advanced);
    assert_eq!(sim.time(), 1);
}

#[test]
fn box_holds_what_a_time_warp_writes() {
    // the warp at (1, 1) carries 7 five columns to the right
    let mut sim = simulator(". 7 .\n-5 @ 0\n. 1 .", 0, 0);
    assert_eq!(sim.time_warp_target(Vector2D::new(1, 1)), Some(Vector2D::new(6, 1)));
    assert_eq!(sim.step(), SimulationStepResult::Advanced);
    assert_eq!(sim.score(), 3 * 3 * 1);
    assert_eq!(sim.step(), SimulationStepResult::Advanced);
    assert_eq!(sim.time(), 0);
    assert_eq!(sim.cells().get(Vector2D::new(6, 1)), Some(&data(7)));
    // columns 0 to 6, rows 0 to 2, and the first tick was reached
    assert_eq!(sim.score(), 7 * 3 * 1);
}
