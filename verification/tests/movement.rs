use maze_generator::{Carver, Direction, Maze, MazePixel};

fn fresh(n: u32) -> Maze {
    Maze::new(n)
}

#[test]
fn move_up_from_start_is_refused() {
    let mut maze = fresh(2);
    let before = maze.as_vec();
    assert_eq!(maze.player, (1, 1));
    assert!(!maze.player_move(Direction::Up));
    assert_eq!(maze.player, (1, 1));
    assert_eq!(maze.as_vec(), before);
}

#[test]
fn move_left_from_start_is_refused() {
    let mut maze = fresh(2);
    let before = maze.as_vec();
    assert!(!maze.player_move(Direction::Left));
    assert_eq!(maze.player, (1, 1));
    assert_eq!(maze.as_vec(), before);
}

#[test]
fn move_right_from_start_goes_by_the_wall() {
    for _ in 0..40 {
        let mut maze = fresh(2);
        let before = maze.as_vec();
        let open = before[1][2] != MazePixel::Wall;
        let moved = maze.player_move(Direction::Right);
        assert_eq!(moved, open);
        let after = maze.as_vec();
        if moved {
            assert_eq!(maze.player, (2, 1));
            assert_eq!(after[1][1], MazePixel::Space);
            assert_eq!(after[1][2], MazePixel::Player);
            let mut changed = 0;
            for y in 0..5 {
                for x in 0..5 {
                    if before[y][x] != after[y][x] {
                        changed += 1;
                    }
                }
            }
            assert_eq!(changed, 2);
        } else {
            assert_eq!(maze.player, (1, 1));
            assert_eq!(after, before);
        }
    }
}

#[test]
fn move_down_from_start_goes_by_the_wall() {
    for _ in 0..40 {
        let mut maze = fresh(2);
        let before = maze.as_vec();
        let open = before[2][1] != MazePixel::Wall;
        assert_eq!(maze.player_move(Direction::Down), open);
        if open {
            assert_eq!(maze.player, (1, 2));
            assert_eq!(maze.as_vec()[2][1], MazePixel::Player);
        }
    }
}

#[test]
fn refused_move_can_be_repeated() {
    let mut maze = fresh(3);
    let before = maze.as_vec();
    for _ in 0..5 {
        assert!(!maze.player_move(Direction::Up));
        assert!(!maze.player_move(Direction::Left));
    }
    assert_eq!(maze.as_vec(), before);
    assert_eq!(maze.player, (1, 1));
}

#[test]
fn single_room_refuses_every_move() {
    let mut maze = fresh(1);
    let before = maze.as_vec();
    for d in [Direction::Up, Direction::Down, Direction::Left, Direction::Right] {
        assert!(!maze.player_move(d));
    }
    assert_eq!(maze.as_vec(), before);
    assert_eq!(maze.player, maze.target);
    assert_eq!(maze.pixel(1, 1), MazePixel::Player);
}

#[test]
fn move_there_and_back() {
    for _ in 0..40 {
        let mut maze = fresh(3);
        let (there, back) = if maze.as_vec()[1][2] != MazePixel::Wall {
            (Direction::Right, Direction::Left)
        } else {
            (Direction::Down, Direction::Up)
        };
        assert!(maze.player_move(there));
        assert!(maze.player_move(there));
        assert!(maze.player.0 == 3 || maze.player.1 == 3);
        assert!(maze.player_move(back));
        assert!(maze.player_move(back));
        assert_eq!(maze.player, (1, 1));
        let rows = maze.as_vec();
        assert_eq!(rows[1][1], MazePixel::Player);
        let mut players = 0;
        for row in &rows {
            for pixel in row {
                if *pixel == MazePixel::Player {
                    players += 1;
                }
            }
        }
        assert_eq!(players, 1);
    }
}

#[test]
fn walking_never_leaves_the_open_pixels() {
    for round in 0..20u32 {
        let mut maze = fresh(5);
        let walls = maze.as_vec();
        let steps = [Direction::Right, Direction::Down, Direction::Down, Direction::Left, Direction::Up,
            Direction::Right, Direction::Right, Direction::Down];
        for k in 0..200usize {
            let d = steps[(k * 7 + round as usize * 3 + k / 5) % steps.len()];
            let from = maze.player;
            let moved = maze.player_move(d);
            let at = maze.player;
            assert_ne!(walls[at.1 as usize][at.0 as usize], MazePixel::Wall);
            if moved {
                let dx = (at.0 as i64 - from.0 as i64).abs();
                let dy = (at.1 as i64 - from.1 as i64).abs();
                assert_eq!(dx + dy, 1);
            } else {
                assert_eq!(at, from);
            }
            if moved {
                assert_eq!(maze.as_vec()[at.1 as usize][at.0 as usize], MazePixel::Player);
                assert_eq!(maze.as_vec()[from.1 as usize][from.0 as usize], MazePixel::Space);
            }
        }
    }
}

#[test]
fn clone_is_independent() {
    let mut maze = fresh(3);
    let copy = maze.clone();
    let before = maze.as_vec();
    let moved = maze.player_move(Direction::Right) || maze.player_move(Direction::Down);
    assert!(moved);
    assert_eq!(copy.as_vec(), before);
    assert_eq!(copy.player, (1, 1));
    assert_ne!(maze.as_vec(), before);
}

#[test]
fn grid_accessors_agree_with_the_rows() {
    for n in 1..=5u32 {
        let maze = fresh(n);
        let rows = maze.as_vec();
        assert_eq!(maze.width(), 2 * n + 1);
        assert_eq!(maze.height(), 2 * n + 1);
        for y in 0..maze.height() {
            for x in 0..maze.width() {
                assert!(maze.in_bounds(x, y));
                assert_eq!(maze.pixel(x, y), rows[y as usize][x as usize]);
            }
        }
        assert!(!maze.in_bounds(maze.width(), 0));
        assert!(!maze.in_bounds(0, maze.height()));
        assert!(!maze.in_bounds(u32::MAX, u32::MAX));
        assert_eq!(maze.pixel(0, 0), MazePixel::Wall);
        let target = maze.target();
        let player = maze.player();
        assert_eq!(maze.pixel(player.0, player.1), MazePixel::Player);
        if n >= 2 {
            assert_eq!(maze.pixel(target.0, target.1), MazePixel::Target);
        }
    }
}

#[test]
fn deepest_room_is_the_first_at_the_greatest_depth() {
    for n in 2..=6u32 {
        for turn in 0..3usize {
            let mut carver = Carver::new(n);
            let mut depth = 0usize;
            let mut best = (0usize, (0u32, 0u32));
            while carver.running() {
                let options = carver.options();
                if options.is_empty() {
                    carver.advance(None);
                    depth -= 1;
                } else {
                    let o = options[(turn + depth) % options.len()];
                    carver.advance(Some(o));
                    depth += 1;
                    if depth > best.0 {
                        best = (depth, o.room);
                    }
                }
                assert_eq!(carver.deepest(), best.1);
            }
            assert_eq!(depth, 0);
        }
    }
}

#[test]
fn step_onto_space_and_back_restores_the_maze() {
    for _ in 0..40 {
        let mut maze = fresh(3);
        let before = maze.as_vec();
        for (there, back, at) in [
            (Direction::Right, Direction::Left, (2usize, 1usize)),
            (Direction::Down, Direction::Up, (1usize, 2usize)),
        ] {
            if before[at.1][at.0] == MazePixel::Space {
                assert!(maze.player_move(there));
                assert_eq!(maze.as_vec()[1][1], MazePixel::Space);
                assert!(maze.player_move(back));
                assert_eq!(maze.as_vec(), before);
                assert_eq!(maze.player, (1, 1));
            } else {
                assert!(!maze.player_move(there));
            }
        }
    }
}

#[test]
fn marks_stay_where_the_positions_say() {
    for _ in 0..30 {
        let mut maze = fresh(4);
        let target = maze.target;
        let mut stepped_on_target = false;
        let steps = [Direction::Right, Direction::Down, Direction::Left, Direction::Down, Direction::Right,
            Direction::Up, Direction::Right, Direction::Down];
        for k in 0..120usize {
            maze.player_move(steps[(k * 5 + k / 7) % steps.len()]);
            if maze.player == target {
                stepped_on_target = true;
            }
            let rows = maze.as_vec();
            let at = maze.player;
            assert_eq!(rows[at.1 as usize][at.0 as usize], MazePixel::Player);
            if !stepped_on_target {
                assert_eq!(rows[target.1 as usize][target.0 as usize], MazePixel::Target);
            }
            let mut players = 0;
            for row in &rows {
                for pixel in row {
                    if *pixel == MazePixel::Player {
                        players += 1;
                    }
                }
            }
            assert_eq!(players, 1);
        }
    }
}
