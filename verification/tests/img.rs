use theseus::algorithms::dijkstra::Dijkstra;
use theseus::algorithms::{Solution, Solver};
use theseus::img;
use theseus::maze::Maze;
use theseus::node::{Node, Point};

#[test]
pub fn east_line() {
    assert_eq!(
        img::line(&Point::at(0, 1), &Point::at(0, 3)),
        vec![Point::at(0, 1), Point::at(0, 2), Point::at(0, 3)],
    )
}

#[test]
pub fn west_line() {
    assert_eq!(
        img::line(&Point::at(0, 3), &Point::at(0, 1)),
        vec![Point::at(0, 3), Point::at(0, 2), Point::at(0, 1)],
    )
}

#[test]
pub fn south_line() {
    assert_eq!(
        img::line(&Point::at(1, 0), &Point::at(3, 0)),
        vec![Point::at(1, 0), Point::at(2, 0), Point::at(3, 0)],
    )
}

#[test]
pub fn north_line() {
    assert_eq!(
        img::line(&Point::at(3, 0), &Point::at(1, 0)),
        vec![Point::at(3, 0), Point::at(2, 0), Point::at(1, 0)],
    )
}

#[test]
fn line_of_one_pixel() {
    assert_eq!(img::line(&Point::at(4, 7), &Point::at(4, 7)), vec![Point::at(4, 7)]);
}

fn picture(rows: &[&[u8]]) -> img::Image {
    let height = rows.len() as u32;
    let width = rows[0].len() as u32;
    let mut pixels = Vec::new();
    for row in rows.iter() {
        for item in row.iter() {
            if *item == 1 {
                pixels.push(img::PATHWAY);
            } else {
                pixels.push(img::WALL);
            }
        }
    }
    img::Image::from_pixels(width, height, pixels).unwrap()
}

#[test]
fn apply_solution_draws_the_way() {
    let rows: [&[u8]; 5] = [
        &[0, 1, 0, 0, 0],
        &[0, 1, 1, 1, 0],
        &[0, 1, 0, 1, 0],
        &[0, 1, 1, 1, 0],
        &[0, 0, 0, 1, 0],
    ];
    let mut image = picture(&rows);
    let maze = Maze::from_image(&image);
    let mut solution = Dijkstra::solve(&maze).unwrap();
    let length = solution.length;
    let count = solution.count;
    let nodes = solution.path.len();
    image.apply_solution(&mut solution);
    assert_eq!(nodes - 1, solution.path.len());
    assert_eq!(length, solution.length);
    assert_eq!(count, solution.count);
    assert_eq!(Point::at(3, 3), solution.path[0].point);

    let way = [(1, 0), (1, 1), (1, 2), (1, 3), (2, 3), (3, 3), (3, 4)];
    for y in 0..5u32 {
        for x in 0..5u32 {
            let expected = if way.contains(&(x, y)) {
                img::TRAIL
            } else if rows[y as usize][x as usize] == 1 {
                img::PATHWAY
            } else {
                img::WALL
            };
            assert_eq!(Some(expected), image.get_pixel_checked(x, y));
        }
    }
}

#[test]
fn apply_solution_of_one_node_draws_nothing() {
    let mut image = picture(&[&[0, 1, 0], &[0, 1, 0]]);
    let mut path = std::collections::VecDeque::new();
    path.push_back(Node::exit(1, 1));
    let mut solution = Solution::new(1, path);
    image.apply_solution(&mut solution);
    assert_eq!(0, solution.path.len());
    assert_eq!(Some(img::PATHWAY), image.get_pixel_checked(1, 0));
    assert_eq!(Some(img::PATHWAY), image.get_pixel_checked(1, 1));
    assert_eq!(Some(img::WALL), image.get_pixel_checked(0, 0));
}
