use theseus::algorithms::Algorithm;
use theseus::img::{Image, PATHWAY, TRAIL, WALL};
use theseus::maze::Maze;
use theseus::node::{Direction, Node, NodeType, Point};
use theseus::utils::{
    get_algorithm, get_dist, get_node, is_path, is_wall, look_ahead, path_above, path_below,
    wall_above, wall_below, Cli,
};

fn flags(dijkstra: bool, a_star: bool, left_turn: bool, breadth_first: bool, depth_first: bool) -> Cli {
    Cli { dijkstra, a_star, left_turn, breadth_first, depth_first }
}

#[test]
fn get_algorithm_takes_the_first_flag() {
    assert_eq!(Algorithm::Unset, get_algorithm(&flags(false, false, false, false, false)));
    assert_eq!(Algorithm::Dijkstra, get_algorithm(&flags(true, false, false, false, false)));
    assert_eq!(Algorithm::AStar, get_algorithm(&flags(false, true, false, false, false)));
    assert_eq!(Algorithm::LeftTurn, get_algorithm(&flags(false, false, true, false, false)));
    assert_eq!(Algorithm::BreadthFirst, get_algorithm(&flags(false, false, false, true, false)));
    assert_eq!(Algorithm::DepthFirst, get_algorithm(&flags(false, false, false, false, true)));
    assert_eq!(Algorithm::Dijkstra, get_algorithm(&flags(true, true, true, true, true)));
    assert_eq!(Algorithm::AStar, get_algorithm(&flags(false, true, true, true, true)));
    assert_eq!(Algorithm::LeftTurn, get_algorithm(&flags(false, false, true, true, true)));
    assert_eq!(Algorithm::BreadthFirst, get_algorithm(&flags(false, false, false, true, true)));
}

#[test]
fn get_dist_is_manhattan() {
    assert_eq!(0, get_dist(&Point::at(4, 4), &Point::at(4, 4)));
    assert_eq!(7, get_dist(&Point::at(1, 2), &Point::at(5, 5)));
    assert_eq!(7, get_dist(&Point::at(5, 5), &Point::at(1, 2)));
    assert_eq!(7, get_dist(&Point::at(5, 2), &Point::at(1, 5)));
    assert_eq!(u32::MAX, get_dist(&Point::at(0, 9), &Point::at(u32::MAX, 9)));
}

fn picture() -> Image {
    // wall path other
    // path wall path
    let grey = 0x808080;
    Image::from_pixels(3, 2, vec![WALL, PATHWAY, grey, PATHWAY, WALL, PATHWAY]).unwrap()
}

#[test]
fn image_pixels() {
    let img = picture();
    assert_eq!(3, img.width());
    assert_eq!(2, img.height());
    assert_eq!(6, img.len());
    assert_eq!(Some(WALL), img.get_pixel_checked(0, 0));
    assert_eq!(Some(PATHWAY), img.get_pixel_checked(1, 0));
    assert_eq!(Some(0x808080), img.get_pixel_checked(2, 0));
    assert_eq!(Some(PATHWAY), img.get_pixel_checked(0, 1));
    assert_eq!(Some(PATHWAY), img.get_pixel_checked(2, 1));
    assert_eq!(None, img.get_pixel_checked(3, 0));
    assert_eq!(None, img.get_pixel_checked(0, 2));
}

#[test]
fn image_from_pixels_wants_every_pixel() {
    assert!(Image::from_pixels(3, 2, vec![WALL; 5]).is_none());
    assert!(Image::from_pixels(3, 2, vec![WALL; 7]).is_none());
    assert!(Image::from_pixels(0, 2, vec![]).is_some());
    assert!(Image::from_pixels(u32::MAX, u32::MAX, vec![WALL; 1]).is_none());
}

#[test]
fn image_new_is_all_wall() {
    let mut img = Image::new(4, 3);
    assert_eq!(12, img.len());
    for y in 0..3 {
        for x in 0..4 {
            assert_eq!(Some(WALL), img.get_pixel_checked(x, y));
        }
    }
    img.put_pixel(3, 1, TRAIL);
    for y in 0..3 {
        for x in 0..4 {
            let expected = if (x, y) == (3, 1) { TRAIL } else { WALL };
            assert_eq!(Some(expected), img.get_pixel_checked(x, y));
        }
    }
}

#[test]
fn pixel_queries() {
    let img = picture();
    assert!(is_path(1, 0, &img));
    assert!(!is_path(0, 0, &img));
    assert!(!is_path(2, 0, &img));
    assert!(!is_path(5, 5, &img));
    assert!(is_wall(0, 0, &img));
    assert!(!is_wall(1, 0, &img));
    assert!(!is_wall(2, 0, &img));
    assert!(!is_wall(5, 5, &img));

    assert!(look_ahead(0, 0, &img));
    assert!(!look_ahead(1, 0, &img));
    assert!(!look_ahead(2, 0, &img));

    assert!(path_above(1, 1, &img));
    assert!(!path_above(0, 1, &img));
    assert!(path_below(0, 0, &img));
    assert!(!path_below(1, 0, &img));
    assert!(!path_below(0, 1, &img));

    assert!(wall_above(0, 1, &img));
    assert!(!wall_above(1, 1, &img));
    assert!(!wall_above(2, 1, &img));
    assert!(wall_below(1, 0, &img));
    assert!(!wall_below(0, 0, &img));
    assert!(!wall_below(1, 1, &img));
}

#[test]
fn get_node_finds_the_node_of_the_maze() {
    let img = Image::from_pixels(
        4,
        3,
        vec![
            WALL, PATHWAY, WALL, WALL, //
            WALL, PATHWAY, PATHWAY, WALL, //
            WALL, PATHWAY, WALL, WALL,
        ],
    )
    .unwrap();
    let maze = Maze::from_image(&img);

    let regular = get_node(&Node::at(2, 1), &maze).unwrap();
    assert_eq!(Some(Point::at(1, 1)), regular.children.get(Direction::West));

    let start = get_node(&Node::start(1, 0), &maze).unwrap();
    assert!(start.start);
    assert_eq!(maze.get(&NodeType::Start), Some(start));

    let exit = get_node(&Node::exit(1, 2), &maze).unwrap();
    assert!(exit.end);
    assert_eq!(maze.get(&NodeType::Exit), Some(exit));

    // A bare node at a position without a regular node stands for the exit.
    let other = get_node(&Node::at(3, 1), &maze).unwrap();
    assert!(other.end);
    assert_eq!(None, maze.get(&NodeType::Path(Point::at(1, 0))));
    assert_eq!(None, maze.get(&NodeType::Path(Point::at(1, 2))));
}
