use peg_solitaire::direction::Direction;
use peg_solitaire::position::Position;

#[test]
fn add_moves_one_step_in_each_direction() {
    let origin = Position(0, 0);
    assert_eq!(origin.add(Direction::Up.to_delta()), Position(-1, 0));
    assert_eq!(origin.add(Direction::Down.to_delta()), Position(1, 0));
    assert_eq!(origin.add(Direction::Left.to_delta()), Position(0, -1));
    assert_eq!(origin.add(Direction::Right.to_delta()), Position(0, 1));
    assert_eq!(origin.add(Direction::To.to_delta()), Position(-1, 1));
    assert_eq!(origin.add(Direction::Fro.to_delta()), Position(1, -1));

    let p = Position(3, 3);
    assert_eq!(p.add(Direction::Up.to_delta()), Position(2, 3));
    assert_eq!(p.add(Direction::Down.to_delta()), Position(4, 3));
    assert_eq!(p.add(Direction::Left.to_delta()), Position(3, 2));
    assert_eq!(p.add(Direction::Right.to_delta()), Position(3, 4));
    assert_eq!(p.add(Direction::To.to_delta()), Position(2, 4));
    assert_eq!(p.add(Direction::Fro.to_delta()), Position(4, 2));
}

#[test]
fn scale_projects_two_steps_out() {
    let origin = Position(0, 0);
    assert_eq!(origin.add(Direction::Up.to_delta().scale(2)), Position(-2, 0));
    assert_eq!(origin.add(Direction::Down.to_delta().scale(2)), Position(2, 0));
    assert_eq!(origin.add(Direction::Left.to_delta().scale(2)), Position(0, -2));
    assert_eq!(origin.add(Direction::Right.to_delta().scale(2)), Position(0, 2));
    assert_eq!(origin.add(Direction::To.to_delta().scale(2)), Position(-2, 2));
    assert_eq!(origin.add(Direction::Fro.to_delta().scale(2)), Position(2, -2));

    let p = Position(3, 3);
    assert_eq!(p.add(Direction::Up.to_delta().scale(2)), Position(1, 3));
    assert_eq!(p.add(Direction::Down.to_delta().scale(2)), Position(5, 3));
    assert_eq!(p.add(Direction::Left.to_delta().scale(2)), Position(3, 1));
    assert_eq!(p.add(Direction::Right.to_delta().scale(2)), Position(3, 5));
    assert_eq!(p.add(Direction::To.to_delta().scale(2)), Position(1, 5));
    assert_eq!(p.add(Direction::Fro.to_delta().scale(2)), Position(5, 1));
}

#[test]
fn sub_undoes_add() {
    let p = Position(4, -2);
    let d = Position(1, -1);
    assert_eq!(p.add(d).sub(d), p);
}

#[test]
fn opposite_deltas_cancel() {
    let pairs = [
        (Direction::Up, Direction::Down),
        (Direction::Down, Direction::Up),
        (Direction::Left, Direction::Right),
        (Direction::Right, Direction::Left),
        (Direction::To, Direction::Fro),
        (Direction::Fro, Direction::To),
    ];
    for (d, opp) in pairs {
        for p in [Position(0, 0), Position(3, 3), Position(-5, 7)] {
            assert_eq!(p.add(d.to_delta()).add(opp.to_delta()), p);
        }
    }
}

#[test]
fn check_bounds_accepts_in_range_and_rejects_outside() {
    for extent in [3isize, 4, 5] {
        let min = Position(0, 0);
        let max = Position(extent, extent);
        assert_eq!(Position(extent, extent).check_bounds(&min, &max), None);
        assert_eq!(Position(-1, -1).check_bounds(&min, &max), None);
        for k in 0..extent {
            assert_eq!(Position(k, k).check_bounds(&min, &max), Some(Position(k, k)));
        }
    }
    // One coordinate out of range is enough to reject.
    let min = Position(0, 0);
    let max = Position(3, 3);
    assert_eq!(Position(0, 3).check_bounds(&min, &max), None);
    assert_eq!(Position(3, 0).check_bounds(&min, &max), None);
    assert_eq!(Position(0, -1).check_bounds(&min, &max), None);
}
