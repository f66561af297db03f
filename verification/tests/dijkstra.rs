use std::collections::VecDeque;
use theseus::algorithms::dijkstra::Dijkstra;
use theseus::algorithms::Solver;
use theseus::img::{Image, PATHWAY, WALL};
use theseus::maze::Maze;
use theseus::node::{Node, NodeType, Point};
use theseus::utils::get_dist;

fn maze_image(rows: &[&[u8]]) -> Image {
    let height = rows.len() as u32;
    let width = rows[0].len() as u32;
    let mut pixels = Vec::new();
    for row in rows.iter() {
        for item in row.iter() {
            if *item == 1 {
                pixels.push(PATHWAY);
            } else {
                pixels.push(WALL);
            }
        }
    }
    Image::from_pixels(width, height, pixels).unwrap()
}

fn create_path(coords: &[(u32, u32)], maze: &Maze) -> VecDeque<Node> {
    let mut path = VecDeque::new();
    if let Some(node) = maze.get(&NodeType::Start) {
        path.push_front(node);
    }

    for coord in coords.iter() {
        path.push_front(maze.get(&NodeType::Path(Point::at(coord.0, coord.1))).unwrap());
    }

    path.push_front(maze.get(&NodeType::Exit).unwrap());
    path
}

#[test]
fn dijkstra_man_dist() {
    let d = get_dist(&Point::at(3, 0), &Point::at(3, 1));
    assert_eq!(1, d);

    let d = get_dist(&Point::at(3, 1), &Point::at(1, 1));
    assert_eq!(2, d);
}

#[test]
fn djikstra_man_dist() {
    let d = get_dist(&Point::at(3, 0), &Point::at(3, 1));
    assert_eq!(1, d);

    let d = get_dist(&Point::at(3, 1), &Point::at(1, 1));
    assert_eq!(2, d);
}

#[test]
fn simple_maze() {
    let img = maze_image(&[
        &[0, 1, 0, 0, 0],
        &[0, 1, 0, 1, 0],
        &[0, 1, 1, 1, 0],
        &[0, 1, 0, 0, 0],
        &[0, 1, 0, 0, 0],
    ]);

    let maze = Maze::from_image(&img);
    let solution = Dijkstra::solve(&maze).unwrap();
    let path = create_path(&[(1, 2)], &maze);
    assert_eq!(path, solution.path)
}

#[test]
fn maze_with_loop() {
    let img = maze_image(&[
        &[0, 1, 0, 0, 0],
        &[0, 1, 1, 1, 0],
        &[0, 1, 0, 1, 0],
        &[0, 1, 1, 1, 0],
        &[0, 1, 0, 0, 0],
    ]);

    let maze = Maze::from_image(&img);
    let solution = Dijkstra::solve(&maze).unwrap();
    let path = create_path(&[(1, 1), (1, 3)], &maze);
    assert_eq!(path, solution.path)
}

#[test]
fn maze_with_loop_opposite_exit() {
    let img = maze_image(&[
        &[0, 1, 0, 0, 0],
        &[0, 1, 1, 1, 0],
        &[0, 1, 0, 1, 0],
        &[0, 1, 1, 1, 0],
        &[0, 0, 0, 1, 0],
    ]);

    let maze = Maze::from_image(&img);
    let solution = Dijkstra::solve(&maze).unwrap();
    let path = create_path(&[(1, 1), (1, 3), (3, 3)], &maze);
    assert_eq!(path, solution.path)
}

#[test]
fn maze_walking_away() {
    let img = maze_image(&[
        &[0, 0, 0, 0, 0, 1, 0],
        &[0, 1, 1, 1, 0, 1, 0],
        &[0, 1, 0, 1, 0, 1, 0],
        &[0, 1, 0, 1, 1, 1, 0],
        &[0, 1, 0, 0, 0, 0, 0],
    ]);

    let maze = Maze::from_image(&img);
    let solution = Dijkstra::solve(&maze).unwrap();
    let path = create_path(&[(5, 3), (3, 3), (3, 1), (1, 1)], &maze);
    assert_eq!(path, solution.path)
}

#[test]
fn maze_walking_west() {
    let img = maze_image(&[
        &[0, 0, 0, 1, 0, 0, 0],
        &[0, 1, 1, 1, 1, 1, 0],
        &[0, 1, 0, 0, 0, 1, 0],
        &[0, 1, 1, 1, 1, 1, 0],
        &[0, 0, 1, 0, 0, 0, 0],
    ]);

    let maze = Maze::from_image(&img);
    let solution = Dijkstra::solve(&maze).unwrap();
    let path = create_path(&[(3, 1), (1, 1), (1, 3), (2, 3)], &maze);
    assert_eq!(path, solution.path)
}

#[test]
fn maze_walking_east() {
    let img = maze_image(&[
        &[0, 0, 0, 1, 0, 0, 0],
        &[0, 1, 1, 1, 1, 1, 0],
        &[0, 1, 0, 0, 0, 1, 0],
        &[0, 1, 1, 1, 1, 1, 0],
        &[0, 0, 0, 0, 1, 0, 0],
    ]);

    let maze = Maze::from_image(&img);
    let solution = Dijkstra::solve(&maze).unwrap();
    let path = create_path(&[(3, 1), (5, 1), (5, 3), (4, 3)], &maze);
    assert_eq!(path, solution.path)
}
