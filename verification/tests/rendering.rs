use maze_generator::{Charset, Direction, Maze, MazePixel};

fn plain() -> Charset {
    Charset {
        wall: String::from("#"),
        air: String::from(" "),
        target: String::from("T"),
        player: String::from("P"),
    }
}

fn expected(rows: &Vec<Vec<MazePixel>>, charset: &Charset) -> String {
    let mut out = String::new();
    for row in rows {
        for pixel in row {
            out.push_str(match pixel {
                MazePixel::Wall => &charset.wall,
                MazePixel::Space => &charset.air,
                MazePixel::Target => &charset.target,
                MazePixel::Player => &charset.player,
            });
        }
        out.push('\n');
    }
    out
}

#[test]
fn render_single_room() {
    let maze = Maze::new(1);
    let text = maze.as_string(&plain());
    assert_eq!(text, "###\n#P#\n###\n");
    let lines: Vec<&str> = text.lines().collect();
    assert_eq!(lines.len(), 3);
    for line in &lines {
        assert_eq!(line.chars().count(), 3);
    }
    assert_eq!(lines[0], "###");
    assert_eq!(lines[2], "###");
    assert!(lines[1].starts_with('#') && lines[1].ends_with('#'));
}

#[test]
fn render_matches_pixels() {
    for n in 1..=6 {
        let maze = Maze::new(n);
        let rows = maze.as_vec();
        let text = maze.as_string(&plain());
        assert_eq!(text, expected(&rows, &plain()));
        let lines: Vec<&str> = text.split('\n').collect();
        assert_eq!(lines.len(), rows.len() + 1);
        assert_eq!(lines[rows.len()], "");
        for y in 0..rows.len() {
            let chars: Vec<char> = lines[y].chars().collect();
            assert_eq!(chars.len(), rows.len());
            assert_eq!(chars[0], '#');
            assert_eq!(chars[rows.len() - 1], '#');
        }
        assert!(lines[0].chars().all(|c| c == '#'));
        assert!(lines[rows.len() - 1].chars().all(|c| c == '#'));
    }
}

#[test]
fn render_twice_is_the_same() {
    let maze = Maze::new(4);
    let charset = plain();
    assert_eq!(maze.as_string(&charset), maze.as_string(&charset));
    assert_eq!(maze.as_string(&charset), maze.as_string(&charset.clone()));
}

#[test]
fn render_with_long_and_empty_symbols() {
    let maze = Maze::new(2);
    let charset = Charset {
        wall: String::from("[]"),
        air: String::new(),
        target: String::from("<T>"),
        player: String::from("\u{263a}"),
    };
    let rows = maze.as_vec();
    assert_eq!(maze.as_string(&charset), expected(&rows, &charset));
    let text = maze.as_string(&charset);
    assert!(text.starts_with("[][][][][]\n"));
    assert!(text.ends_with("[][][][][]\n"));
    assert_eq!(text.matches('\n').count(), 5);
    assert_eq!(text.matches("<T>").count(), 1);
}

#[test]
fn render_changing_one_symbol_changes_only_its_pixels() {
    let maze = Maze::new(3);
    let rows = maze.as_vec();
    let base = plain();
    let mut other = plain();
    other.wall = String::from("W");
    let a: Vec<char> = maze.as_string(&base).chars().collect();
    let b: Vec<char> = maze.as_string(&other).chars().collect();
    assert_eq!(a.len(), b.len());
    for y in 0..rows.len() {
        for x in 0..rows.len() {
            let k = y * (rows.len() + 1) + x;
            if rows[y][x] == MazePixel::Wall {
                assert_eq!(a[k], '#');
                assert_eq!(b[k], 'W');
            } else {
                assert_eq!(a[k], b[k]);
            }
        }
        assert_eq!(a[y * (rows.len() + 1) + rows.len()], '\n');
    }
}

#[test]
fn render_follows_the_player() {
    for _ in 0..20 {
        let mut maze = Maze::new(2);
        let moved = maze.player_move(Direction::Right) || maze.player_move(Direction::Down);
        assert!(moved);
        let text = maze.as_string(&plain());
        assert_eq!(text.matches('P').count(), 1);
        let lines: Vec<&str> = text.lines().collect();
        let at = maze.player;
        assert_eq!(lines[at.1 as usize].chars().nth(at.0 as usize), Some('P'));
        assert_eq!(lines[1].chars().nth(1), Some(' '));
    }
}

#[test]
fn as_vec_is_row_major() {
    let mut maze = Maze::new(3);
    let moved_right = maze.player_move(Direction::Right);
    let rows = maze.as_vec();
    if moved_right {
        assert_eq!(maze.player, (2, 1));
        assert_eq!(rows[1][2], MazePixel::Player);
    } else {
        assert!(maze.player_move(Direction::Down));
        assert_eq!(maze.player, (1, 2));
        assert_eq!(maze.as_vec()[2][1], MazePixel::Player);
    }
    let target = maze.target;
    let rows = maze.as_vec();
    assert!(rows[target.1 as usize][target.0 as usize] == MazePixel::Target || maze.player == target);
}

#[test]
fn render_fresh_two_by_two() {
    for _ in 0..30 {
        let maze = Maze::new(2);
        let text = maze.as_string(&plain());
        let lines: Vec<&str> = text.lines().collect();
        assert_eq!(lines.len(), 5);
        for line in &lines {
            assert_eq!(line.chars().count(), 5);
            assert!(line.starts_with('#') && line.ends_with('#'));
        }
        assert_eq!(lines[0], "#####");
        assert_eq!(lines[4], "#####");
        assert_eq!(text.matches('P').count(), 1);
        assert_eq!(text.matches('T').count(), 1);
        assert_eq!(lines[1].chars().nth(1), Some('P'));
        let target = maze.target;
        assert_eq!(lines[target.1 as usize].chars().nth(target.0 as usize), Some('T'));
        let player = maze.player;
        assert_eq!(lines[player.1 as usize].chars().nth(player.0 as usize), Some('P'));
    }
}
