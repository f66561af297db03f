use theseus::img::{Image, PATHWAY, WALL};
use theseus::maze::Maze;
use theseus::node::{Direction, Node, NodeType, Point};

fn maze_image(rows: &[&[u8]]) -> Image {
    let height = rows.len() as u32;
    let width = rows[0].len() as u32;
    let mut pixels = Vec::new();
    for row in rows.iter() {
        for item in row.iter() {
            if *item == 1 {
                pixels.push(PATHWAY);
            } else {
                pixels.push(WALL);
            }
        }
    }
    Image::from_pixels(width, height, pixels).unwrap()
}

// first maze row
// xox
#[test]
fn entrance() {
    let img = maze_image(&[&[0, 1, 0]]);
    let maze_tree = Maze::from_image(&img);

    let node = maze_tree.get(&NodeType::Start).unwrap();
    assert_eq!(Node::start(1, 0), node)
}

// two maze rows
// xox
// xox
#[test]
fn entry_and_exit() {
    let img = maze_image(&[&[0, 1, 0], &[0, 1, 0]]);

    let maze_tree = Maze::from_image(&img);

    let mut start = Node::start(1, 0);
    start.children.insert(Direction::South, Point::at(1, 1));

    let mut exit = Node::exit(1, 1);
    exit.children.insert(Direction::North, Point::at(1, 0));

    assert_eq!(start, maze_tree.get(&NodeType::Start).unwrap());
    assert_eq!(exit, maze_tree.get(&NodeType::Exit).unwrap());
}

// three maze rows, one middle path
// xox
// xox
// xox
#[test]
fn first_corridor() {
    let img = maze_image(&[&[0, 1, 0], &[0, 1, 0], &[0, 1, 0]]);

    let maze_tree = Maze::from_image(&img);

    let mut n1 = Node::start(1, 0);
    n1.children.insert(Direction::South, Point::at(1, 2));

    let mut n2 = Node::exit(1, 2);
    n2.children.insert(Direction::North, Point::at(1, 0));

    assert_eq!(n1, maze_tree.get(&NodeType::Start).unwrap());
    assert_eq!(n2, maze_tree.get(&NodeType::Exit).unwrap());
}

#[test]
fn side_path() {
    let img = maze_image(&[&[0, 1, 0, 0], &[0, 1, 1, 0], &[0, 1, 0, 0]]);

    let maze_tree = Maze::from_image(&img);

    let mut n1 = Node::start(1, 0);
    n1.children.insert(Direction::South, Point::at(1, 1));

    let mut n2 = Node::at(1, 1);
    n2.children.insert(Direction::North, Point::at(1, 0));
    n2.children.insert(Direction::East, Point::at(2, 1));
    n2.children.insert(Direction::South, Point::at(1, 2));

    let mut n3 = Node::at(2, 1);
    n3.children.insert(Direction::West, Point::at(1, 1));

    let mut n4 = Node::exit(1, 2);
    n4.children.insert(Direction::North, Point::at(1, 1));

    assert_eq!(n1, maze_tree.get(&NodeType::Start).unwrap());
    assert_eq!(n2, maze_tree.get(&NodeType::Path(Point::at(1, 1))).unwrap());
    assert_eq!(n3, maze_tree.get(&NodeType::Path(Point::at(2, 1))).unwrap());
    assert_eq!(n4, maze_tree.get(&NodeType::Exit).unwrap());
}

#[test]
fn side_upwards_path() {
    let img = maze_image(&[
        &[0, 1, 0, 0, 0],
        &[0, 1, 0, 1, 0],
        &[0, 1, 1, 1, 0],
        &[0, 1, 0, 0, 0],
        &[0, 1, 0, 0, 0],
    ]);

    let maze_tree = Maze::from_image(&img);

    let mut n1 = Node::start(1, 0);
    let mut n2 = Node::at(3, 1);
    let mut n3 = Node::at(1, 2);
    let mut n4 = Node::at(3, 2);
    let mut n5 = Node::exit(1, 4);

    n1.children.insert(Direction::South, n3.point);
    n3.children.insert(Direction::North, n1.point);

    n3.children.insert(Direction::East, n4.point);
    n4.children.insert(Direction::West, n3.point);

    n4.children.insert(Direction::North, n2.point);
    n2.children.insert(Direction::South, n4.point);

    n3.children.insert(Direction::South, n5.point);
    n5.children.insert(Direction::North, n3.point);

    let mut count = 0;
    for y in 0..5 {
        for x in 0..5 {
            if maze_tree.node_at(Point::at(x, y)).is_some() {
                count += 1;
            }
        }
    }
    assert_eq!(5, count);
    assert_eq!(5, maze_tree.len());
    assert_eq!(n1, maze_tree.get(&NodeType::Start).unwrap());
    assert_eq!(n2, maze_tree.get(&NodeType::Path(n2.point)).unwrap());
    assert_eq!(n3, maze_tree.get(&NodeType::Path(n3.point)).unwrap());
    assert_eq!(n4, maze_tree.get(&NodeType::Path(n4.point)).unwrap());
    assert_eq!(n5, maze_tree.get(&NodeType::Exit).unwrap());
}

fn directions() -> [Direction; 4] {
    [Direction::North, Direction::East, Direction::South, Direction::West]
}

#[test]
fn every_edge_has_its_reverse() {
    let img = maze_image(&[
        &[0, 0, 0, 1, 0, 0, 0, 0, 0],
        &[0, 1, 1, 1, 1, 1, 0, 1, 0],
        &[0, 1, 0, 0, 0, 1, 0, 1, 0],
        &[0, 1, 1, 1, 0, 1, 1, 1, 0],
        &[0, 0, 0, 1, 0, 0, 0, 1, 0],
        &[0, 1, 1, 1, 1, 1, 0, 1, 0],
        &[0, 1, 0, 0, 0, 0, 0, 0, 0],
    ]);
    let maze = Maze::from_image(&img);
    let mut edges = 0;
    for y in 0..7 {
        for x in 0..9 {
            let here = Point::at(x, y);
            if let Some(node) = maze.node_at(here) {
                assert_eq!(here, node.point);
                for d in directions() {
                    if let Some(p) = node.children.get(d) {
                        let other = maze.node_at(p).unwrap();
                        assert_eq!(Some(here), other.children.get(d.opposite()));
                        assert!(p.x == here.x || p.y == here.y);
                        edges += 1;
                    }
                }
            }
        }
    }
    assert_eq!(26, edges);
}

#[test]
fn corridors_are_compressed() {
    let img = maze_image(&[
        &[0, 1, 0, 0, 0, 0, 0, 0],
        &[0, 1, 1, 1, 1, 1, 1, 0],
        &[0, 0, 0, 0, 0, 0, 1, 0],
        &[0, 0, 0, 0, 0, 0, 1, 0],
        &[0, 0, 0, 0, 0, 0, 1, 0],
    ]);
    let maze = Maze::from_image(&img);
    for x in 2..6 {
        assert_eq!(None, maze.node_at(Point::at(x, 1)));
    }
    for y in 2..4 {
        assert_eq!(None, maze.node_at(Point::at(6, y)));
    }
    let left = maze.node_at(Point::at(1, 1)).unwrap();
    let right = maze.node_at(Point::at(6, 1)).unwrap();
    assert_eq!(Some(Point::at(6, 1)), left.children.get(Direction::East));
    assert_eq!(Some(Point::at(1, 1)), right.children.get(Direction::West));
    assert_eq!(Some(Point::at(6, 4)), right.children.get(Direction::South));
    assert_eq!(Some(Point::at(1, 0)), left.children.get(Direction::North));
}

#[test]
fn dead_end_wants_a_wall_above_or_below() {
    // (3,1) is closed in on both sides with a wall above: a node.
    // (3,2) has path above and below: none. (3,3) has a wall below: a node.
    // (5,2) stands alone: a node.
    let img = maze_image(&[
        &[0, 1, 0, 0, 0, 0, 0],
        &[0, 1, 0, 1, 0, 0, 0],
        &[0, 1, 0, 1, 0, 1, 0],
        &[0, 1, 0, 1, 0, 0, 0],
        &[0, 1, 0, 0, 0, 0, 0],
    ]);
    let maze = Maze::from_image(&img);
    let top = maze.node_at(Point::at(3, 1)).unwrap();
    let bottom = maze.node_at(Point::at(3, 3)).unwrap();
    assert_eq!(None, maze.node_at(Point::at(3, 2)));
    assert_eq!(Some(Point::at(3, 3)), top.children.get(Direction::South));
    assert_eq!(Some(Point::at(3, 1)), bottom.children.get(Direction::North));
    assert_eq!(1, top.children.len());
    assert_eq!(1, bottom.children.len());
    let alone = maze.node_at(Point::at(5, 2)).unwrap();
    assert_eq!(0, alone.children.len());
    assert_eq!(None, maze.node_at(Point::at(1, 2)));
}

#[test]
fn empty_images_give_empty_graphs() {
    for (w, h) in [(0, 0), (0, 3), (3, 0), (1, 1)] {
        let img = Image::from_pixels(w, h, vec![WALL; (w * h) as usize]).unwrap();
        let maze = Maze::from_image(&img);
        assert_eq!(None, maze.entrance());
        assert_eq!(None, maze.exit());
        assert_eq!(0, maze.len());
        assert_eq!(w, maze.width());
        assert_eq!(h, maze.height());
    }
}
