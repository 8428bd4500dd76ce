use maze_generator::{Carver, Direction, Maze, MazePixel, Opening};

fn passable(rows: &Vec<Vec<MazePixel>>, x: usize, y: usize) -> bool {
    y < rows.len() && x < rows[y].len() && rows[y][x] != MazePixel::Wall
}

fn count(rows: &Vec<Vec<MazePixel>>, what: MazePixel) -> usize {
    let mut n = 0;
    for row in rows {
        for pixel in row {
            if *pixel == what {
                n += 1;
            }
        }
    }
    n
}

fn open_passages(rows: &Vec<Vec<MazePixel>>) -> usize {
    let mut n = 0;
    for y in 0..rows.len() {
        for x in 0..rows[y].len() {
            if (x % 2 == 0) != (y % 2 == 0) && rows[y][x] != MazePixel::Wall {
                n += 1;
            }
        }
    }
    n
}

fn flood(rows: &Vec<Vec<MazePixel>>, from: (usize, usize)) -> Vec<Vec<bool>> {
    let mut seen = vec![vec![false; rows.len()]; rows.len()];
    let mut border = vec![from];
    seen[from.1][from.0] = true;
    while let Some((x, y)) = border.pop() {
        let around = [(x + 1, y), (x, y + 1), (x.wrapping_sub(1), y), (x, y.wrapping_sub(1))];
        for (ax, ay) in around {
            if passable(rows, ax, ay) && !seen[ay][ax] {
                seen[ay][ax] = true;
                border.push((ax, ay));
            }
        }
    }
    seen
}

fn check_generated(n: u32) {
    let maze = Maze::new(n);
    let rows = maze.as_vec();
    let side = (2 * n + 1) as usize;
    assert_eq!(rows.len(), side);
    for row in &rows {
        assert_eq!(row.len(), side);
    }
    for k in 0..side {
        assert_eq!(rows[0][k], MazePixel::Wall);
        assert_eq!(rows[side - 1][k], MazePixel::Wall);
        assert_eq!(rows[k][0], MazePixel::Wall);
        assert_eq!(rows[k][side - 1], MazePixel::Wall);
    }
    for y in 0..side {
        for x in 0..side {
            if x % 2 == 0 && y % 2 == 0 {
                assert_eq!(rows[y][x], MazePixel::Wall);
            }
            if x % 2 == 1 && y % 2 == 1 {
                assert_ne!(rows[y][x], MazePixel::Wall);
            }
        }
    }
    assert_eq!(maze.player, (1, 1));
    assert_eq!(maze.player(), (1, 1));
    assert_eq!(maze.target(), maze.target);
    assert_eq!(maze.target.0 % 2, 1);
    assert_eq!(maze.target.1 % 2, 1);
    assert_eq!(count(&rows, MazePixel::Player), 1);
    assert_eq!(rows[1][1], MazePixel::Player);
    if n == 1 {
        assert_eq!(maze.target, maze.player);
        assert_eq!(count(&rows, MazePixel::Target), 0);
    } else {
        assert_ne!(maze.target, maze.player);
        assert_eq!(count(&rows, MazePixel::Target), 1);
        assert_eq!(rows[maze.target.1 as usize][maze.target.0 as usize], MazePixel::Target);
    }
    let seen = flood(&rows, (1, 1));
    for y in 0..side {
        for x in 0..side {
            assert_eq!(seen[y][x], rows[y][x] != MazePixel::Wall);
        }
    }
    let rooms = (n * n) as usize;
    assert_eq!(open_passages(&rows), rooms - 1);
    assert_eq!(side * side - count(&rows, MazePixel::Wall), 2 * rooms - 1);
}

#[test]
fn generated_one_room() {
    let maze = Maze::new(1);
    let rows = maze.as_vec();
    let w = MazePixel::Wall;
    assert_eq!(rows, vec![vec![w, w, w], vec![w, MazePixel::Player, w], vec![w, w, w]]);
    assert_eq!(maze.player, (1, 1));
    assert_eq!(maze.target, (1, 1));
    check_generated(1);
}

#[test]
fn generated_two_by_two() {
    for _ in 0..50 {
        let maze = Maze::new(2);
        let rows = maze.as_vec();
        assert_eq!(rows.len(), 5);
        assert!(rows.iter().all(|row| row.len() == 5));
        assert_eq!(open_passages(&rows), 3);
        let walls = [rows[1][2], rows[2][1], rows[2][3], rows[3][2]];
        assert_eq!(walls.iter().filter(|p| **p == MazePixel::Wall).count(), 1);
        assert_eq!(rows[1][1], MazePixel::Player);
        assert_eq!(maze.player, (1, 1));
        assert_ne!(maze.target, (1, 1));
        assert_ne!(rows[3][3], MazePixel::Wall);
        assert_eq!(rows[2][2], MazePixel::Wall);
        check_generated(2);
    }
}

#[test]
fn generated_sizes_up_to_twelve() {
    for n in 1..=12 {
        for _ in 0..20 {
            check_generated(n);
        }
    }
}

#[test]
fn generated_large() {
    check_generated(40);
}

#[test]
fn generated_mazes_differ() {
    let first = Maze::new(8).as_vec();
    let mut differs = false;
    for _ in 0..20 {
        if Maze::new(8).as_vec() != first {
            differs = true;
        }
    }
    assert!(differs);
}

fn drive(n: u32, pick: fn(&Vec<Opening>) -> usize) -> Carver {
    let mut carver = Carver::new(n);
    while carver.running() {
        let options = carver.options();
        if options.is_empty() {
            carver.advance(None);
        } else {
            let k = pick(&options);
            carver.advance(Some(options[k]));
        }
    }
    carver
}

#[test]
fn carver_initial_options() {
    let carver = Carver::new(2);
    assert_eq!(carver.size(), 2);
    assert!(carver.running());
    assert_eq!(carver.deepest(), (0, 0));
    let options = carver.options();
    assert_eq!(
        options,
        vec![
            Opening { room: (1, 0), wall: (2, 1) },
            Opening { room: (0, 1), wall: (1, 2) },
        ]
    );
}

#[test]
fn carver_options_are_ordered_left_up_right_down() {
    let mut carver = Carver::new(3);
    carver.advance(Some(Opening { room: (1, 0), wall: (2, 1) }));
    carver.advance(Some(Opening { room: (1, 1), wall: (3, 2) }));
    assert_eq!(
        carver.options(),
        vec![
            Opening { room: (0, 1), wall: (2, 3) },
            Opening { room: (2, 1), wall: (4, 3) },
            Opening { room: (1, 2), wall: (3, 4) },
        ]
    );
    carver.advance(Some(Opening { room: (0, 1), wall: (2, 3) }));
    assert_eq!(carver.options(), vec![Opening { room: (0, 2), wall: (1, 4) }]);
}

#[test]
fn carver_never_offers_the_start_room() {
    let mut carver = Carver::new(3);
    while carver.running() {
        let options = carver.options();
        for o in &options {
            assert_ne!(o.room, (0, 0));
        }
        carver.advance(options.last().copied());
    }
}

#[test]
fn carver_single_room_stops_at_once() {
    let mut carver = Carver::new(1);
    assert!(carver.running());
    assert!(carver.options().is_empty());
    carver.advance(None);
    assert!(!carver.running());
    assert_eq!(carver.deepest(), (0, 0));
    let w = MazePixel::Wall;
    assert_eq!(
        carver.into_pixels(),
        vec![vec![w, w, w], vec![w, MazePixel::Player, w], vec![w, w, w]]
    );
}

#[test]
fn carver_first_option_run_on_two_by_two() {
    // (0,0) -> (1,0) -> (1,1) -> (0,1)
    let carver = drive(2, |_| 0);
    assert!(!carver.running());
    assert_eq!(carver.deepest(), (0, 1));
    let w = MazePixel::Wall;
    let s = MazePixel::Space;
    let p = MazePixel::Player;
    assert_eq!(
        carver.into_pixels(),
        vec![
            vec![w, w, w, w, w],
            vec![w, p, s, s, w],
            vec![w, w, w, s, w],
            vec![w, s, s, s, w],
            vec![w, w, w, w, w],
        ]
    );
}

#[test]
fn carver_last_option_run_on_two_by_two() {
    // (0,0) -> (0,1) -> (1,1) -> (1,0): the wall between the start room and
    // the room reached last stays closed.
    let carver = drive(2, |options| options.len() - 1);
    assert_eq!(carver.deepest(), (1, 0));
    let rows = carver.into_pixels();
    let w = MazePixel::Wall;
    let s = MazePixel::Space;
    let p = MazePixel::Player;
    assert_eq!(
        rows,
        vec![
            vec![w, w, w, w, w],
            vec![w, p, w, s, w],
            vec![w, s, w, s, w],
            vec![w, s, s, s, w],
            vec![w, w, w, w, w],
        ]
    );
    assert_eq!(open_passages(&rows), 3);
}

#[test]
fn carver_deepest_keeps_first_room_at_greatest_depth() {
    let mut carver = Carver::new(3);
    assert_eq!(carver.deepest(), (0, 0));
    carver.advance(Some(Opening { room: (1, 0), wall: (2, 1) }));
    assert_eq!(carver.deepest(), (1, 0));
    carver.advance(Some(Opening { room: (2, 0), wall: (4, 1) }));
    assert_eq!(carver.deepest(), (2, 0));
    carver.advance(Some(Opening { room: (2, 1), wall: (5, 2) }));
    carver.advance(Some(Opening { room: (1, 1), wall: (4, 3) }));
    carver.advance(Some(Opening { room: (0, 1), wall: (2, 3) }));
    carver.advance(Some(Opening { room: (0, 2), wall: (1, 4) }));
    carver.advance(Some(Opening { room: (1, 2), wall: (2, 5) }));
    carver.advance(Some(Opening { room: (2, 2), wall: (4, 5) }));
    assert_eq!(carver.deepest(), (2, 2));
    assert!(carver.options().is_empty());
    // Falling back does not change the record, nor does a shallower branch.
    while carver.running() {
        assert!(carver.options().is_empty());
        carver.advance(None);
        assert_eq!(carver.deepest(), (2, 2));
    }
}

#[test]
fn carver_visits_every_room() {
    for n in 2..=9u32 {
        for pick in [
            (|_| 0) as fn(&Vec<Opening>) -> usize,
            |options| options.len() - 1,
            |options| options.len() / 2,
        ] {
            let rows = drive(n, pick).into_pixels();
            let seen = flood(&rows, (1, 1));
            for j in 0..n as usize {
                for i in 0..n as usize {
                    assert!(seen[2 * j + 1][2 * i + 1]);
                }
            }
        }
    }
}

fn drive_with_log(n: u32, seed: u64) -> (Carver, Vec<Option<Opening>>) {
    let mut state = seed;
    let mut log = Vec::new();
    let mut carver = Carver::new(n);
    while carver.running() {
        let options = carver.options();
        let choice = if options.is_empty() {
            None
        } else {
            state = state.wrapping_mul(6364136223846793005).wrapping_add(1442695040888963407);
            Some(options[((state >> 33) % options.len() as u64) as usize])
        };
        carver.advance(choice);
        log.push(choice);
    }
    (carver, log)
}

#[test]
fn every_walk_opens_one_wall_per_room_entered() {
    for n in 1..=7u32 {
        for seed in 0..60u64 {
            let (carver, log) = drive_with_log(n, seed * 31 + n as u64);
            let rooms = (n * n) as usize;
            let entries = log.iter().filter(|c| c.is_some()).count();
            assert_eq!(entries, rooms - 1);
            if n == 1 {
                assert_eq!(log, vec![None]);
            } else {
                assert_eq!(log.len(), 2 * (rooms - 1));
                assert_ne!(carver.deepest(), (0, 0));
            }
            assert!(log.len() <= 2 * rooms - 1);
            let rows = carver.into_pixels();
            assert_eq!(open_passages(&rows), rooms - 1);
            assert_eq!(rows[1][1], MazePixel::Player);
            let seen = flood(&rows, (1, 1));
            for j in 0..n as usize {
                for i in 0..n as usize {
                    assert!(seen[2 * j + 1][2 * i + 1]);
                }
            }
        }
    }
}

#[test]
fn walk_log_of_first_options_on_two_by_two() {
    let mut carver = Carver::new(2);
    let mut log = Vec::new();
    while carver.running() {
        let options = carver.options();
        let choice = options.first().copied();
        carver.advance(choice);
        log.push(choice);
    }
    assert_eq!(
        log,
        vec![
            Some(Opening { room: (1, 0), wall: (2, 1) }),
            Some(Opening { room: (1, 1), wall: (3, 2) }),
            Some(Opening { room: (0, 1), wall: (2, 3) }),
            None,
            None,
            None,
        ]
    );
}

#[test]
fn move_after_generation_keeps_walls() {
    for _ in 0..20 {
        let mut maze = Maze::new(4);
        let before = maze.as_vec();
        for d in [Direction::Right, Direction::Down, Direction::Left, Direction::Up] {
            maze.player_move(d);
        }
        let after = maze.as_vec();
        for y in 0..before.len() {
            for x in 0..before.len() {
                assert_eq!(before[y][x] == MazePixel::Wall, after[y][x] == MazePixel::Wall);
            }
        }
    }
}
