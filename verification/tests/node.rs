use theseus::node::{Children, Direction, Node, NodeType, Point};

#[test]
fn point_at_and_order() {
    let p = Point::at(3, 9);
    assert_eq!(3, p.x);
    assert_eq!(9, p.y);
    assert_eq!(Point { x: 0, y: 0 }, Point::default());
    assert!(Point::at(1, 9).precedes(&Point::at(2, 0)));
    assert!(Point::at(1, 1).precedes(&Point::at(1, 2)));
    assert!(!Point::at(1, 1).precedes(&Point::at(1, 1)));
    assert!(Point::at(1, 9) < Point::at(2, 0));
}

#[test]
fn point_key_is_row_major() {
    assert_eq!(0, Point::at(0, 0).key());
    assert_eq!(7, Point::at(7, 0).key());
    assert_eq!(0x1_0000_0000, Point::at(0, 1).key());
    assert_eq!(0x2_0000_0003, Point::at(3, 2).key());
    assert_eq!(u64::MAX, Point::at(u32::MAX, u32::MAX).key());
}

#[test]
fn rotate_clockwise() {
    assert_eq!(Direction::North, Direction::North + 0);
    assert_eq!(Direction::East, Direction::North + 1);
    assert_eq!(Direction::South, Direction::North + 2);
    assert_eq!(Direction::West, Direction::North + 3);
    assert_eq!(Direction::South, Direction::East + 1);
    assert_eq!(Direction::West, Direction::South + 1);
    assert_eq!(Direction::North, Direction::West + 1);
    assert_eq!(Direction::East, Direction::West + 2);
    assert_eq!(Direction::South, Direction::South + 4);
    assert_eq!(Direction::North, Direction::South + 6);
    assert_eq!(Direction::West, Direction::West + u32::MAX - 3);
}

#[test]
fn rotate_counter_clockwise() {
    assert_eq!(Direction::North, Direction::North - 0);
    assert_eq!(Direction::West, Direction::North - 1);
    assert_eq!(Direction::South, Direction::North - 2);
    assert_eq!(Direction::East, Direction::North - 3);
    assert_eq!(Direction::East, Direction::South - 1);
    assert_eq!(Direction::North, Direction::East - 1);
    assert_eq!(Direction::South, Direction::West - 1);
    assert_eq!(Direction::West, Direction::West - 8);
}

#[test]
fn rotations_undo_each_other() {
    for d in [Direction::North, Direction::East, Direction::South, Direction::West] {
        for k in 0..9 {
            assert_eq!(d, (d + k) - k);
            assert_eq!(d + k, d - (4 - k % 4));
        }
        assert_eq!(d.opposite(), d + 2);
        assert_eq!(d, d.opposite().opposite());
    }
}

#[test]
fn children_hold_one_neighbour_per_direction() {
    let mut c = Children::new();
    assert_eq!(0, c.len());
    assert_eq!(None, c.get(Direction::North));
    c.insert(Direction::North, Point::at(1, 0));
    c.insert(Direction::West, Point::at(0, 1));
    assert_eq!(2, c.len());
    assert_eq!(Some(Point::at(1, 0)), c.get(Direction::North));
    assert_eq!(Some(Point::at(0, 1)), c.get(Direction::West));
    assert_eq!(None, c.get(Direction::East));
    assert_eq!(None, c.get(Direction::South));
    c.insert(Direction::North, Point::at(1, 1));
    assert_eq!(2, c.len());
    assert_eq!(Some(Point::at(1, 1)), c.get(Direction::North));
    c.insert(Direction::East, Point::at(2, 1));
    c.insert(Direction::South, Point::at(1, 2));
    assert_eq!(4, c.len());
}

#[test]
fn node_roles() {
    let n = Node::at(2, 3);
    assert!(!n.start && !n.end);
    assert_eq!(Point::at(2, 3), n.point);
    assert_eq!(0, n.children.len());
    assert_eq!(NodeType::Path(Point::at(2, 3)), n.kind());

    let s = Node::start(1, 0);
    assert!(s.start && !s.end);
    assert_eq!(NodeType::Start, s.kind());

    let e = Node::exit(1, 4);
    assert!(!e.start && e.end);
    assert_eq!(NodeType::Exit, e.kind());
}
