use theseus::algorithms::a_star::AStar;
use theseus::algorithms::breadth_first::BreadthFirst;
use theseus::algorithms::depth_first::DepthFirst;
use theseus::algorithms::dijkstra::{BinNode, Dijkstra};
use theseus::algorithms::frontier::Frontier;
use theseus::algorithms::left_turn::LeftTurn;
use theseus::algorithms::{Algorithm, Solution, Solver};
use theseus::img::{Image, PATHWAY, WALL};
use theseus::maze::Maze;
use theseus::node::{Direction, Node, NodeType, Point};
use theseus::utils::get_dist;

fn maze_image(rows: &[&[u8]]) -> Image {
    let height = rows.len() as u32;
    let width = rows[0].len() as u32;
    let mut pixels = Vec::new();
    for row in rows.iter() {
        for item in row.iter() {
            if *item == 1 {
                pixels.push(PATHWAY);
            } else {
                pixels.push(WALL);
            }
        }
    }
    Image::from_pixels(width, height, pixels).unwrap()
}

fn points(solution: &Solution) -> Vec<(u32, u32)> {
    solution.path.iter().map(|n| (n.point.x, n.point.y)).collect()
}

fn cost(solution: &Solution) -> u32 {
    let mut total = 0;
    let nodes: Vec<Node> = solution.path.iter().copied().collect();
    for pair in nodes.windows(2) {
        total += get_dist(&pair[0].point, &pair[1].point);
    }
    total
}

fn all_solvers(maze: &Maze) -> Vec<Option<Solution>> {
    vec![
        BreadthFirst::solve(maze),
        DepthFirst::solve(maze),
        Dijkstra::solve(maze),
        AStar::solve(maze),
        LeftTurn::solve(maze),
    ]
}

fn straight() -> Image {
    maze_image(&[
        &[0, 0, 1, 0, 0],
        &[0, 0, 1, 0, 0],
        &[0, 0, 1, 0, 0],
        &[0, 0, 1, 0, 0],
        &[0, 0, 1, 0, 0],
    ])
}

fn with_loop() -> Image {
    maze_image(&[
        &[0, 1, 0, 0, 0],
        &[0, 1, 1, 1, 0],
        &[0, 1, 0, 1, 0],
        &[0, 1, 1, 1, 0],
        &[0, 1, 0, 0, 0],
    ])
}

fn walking_away() -> Image {
    maze_image(&[
        &[0, 0, 0, 0, 0, 1, 0],
        &[0, 1, 1, 1, 0, 1, 0],
        &[0, 1, 0, 1, 0, 1, 0],
        &[0, 1, 0, 1, 1, 1, 0],
        &[0, 1, 0, 0, 0, 0, 0],
    ])
}

#[test]
fn straight_corridor_has_two_nodes() {
    let maze = Maze::from_image(&straight());
    let mut count = 0;
    for y in 0..5 {
        for x in 0..5 {
            if maze.node_at(Point::at(x, y)).is_some() {
                count += 1;
            }
        }
    }
    assert_eq!(2, count);

    let mut start = Node::start(2, 0);
    start.children.insert(Direction::South, Point::at(2, 4));
    let mut exit = Node::exit(2, 4);
    exit.children.insert(Direction::North, Point::at(2, 0));
    assert_eq!(Some(start), maze.get(&NodeType::Start));
    assert_eq!(Some(exit), maze.get(&NodeType::Exit));
    assert_eq!(Some(Point::at(2, 0)), maze.entrance());
    assert_eq!(Some(Point::at(2, 4)), maze.exit());
    assert_eq!(5, maze.width());
    assert_eq!(5, maze.height());
}

#[test]
fn straight_corridor_every_solver() {
    let maze = Maze::from_image(&straight());
    for solution in all_solvers(&maze) {
        let solution = solution.unwrap();
        assert_eq!(vec![(2, 4), (2, 0)], points(&solution));
        assert_eq!(2, solution.length);
        assert_eq!(4, cost(&solution));
    }
}

#[test]
fn dead_end_on_the_right_is_ignored_by_every_solver() {
    let img = maze_image(&[
        &[0, 0, 1, 0, 0],
        &[0, 0, 1, 0, 0],
        &[0, 1, 1, 0, 0],
        &[0, 0, 1, 0, 0],
        &[0, 0, 1, 0, 0],
    ]);
    let maze = Maze::from_image(&img);

    let dead_end = maze.get(&NodeType::Path(Point::at(1, 2))).unwrap();
    assert_eq!(1, dead_end.children.len());
    assert_eq!(Some(Point::at(2, 2)), dead_end.children.get(Direction::East));

    let mut single = 0;
    let mut regular = 0;
    for y in 0..5 {
        for x in 0..5 {
            if let Some(node) = maze.get(&NodeType::Path(Point::at(x, y))) {
                regular += 1;
                if node.children.len() == 1 {
                    single += 1;
                }
            }
        }
    }
    assert_eq!(2, regular);
    assert_eq!(1, single);

    for solution in all_solvers(&maze) {
        let solution = solution.unwrap();
        assert_eq!(vec![(2, 4), (2, 2), (2, 0)], points(&solution));
        assert_eq!(4, cost(&solution));
    }
}

#[test]
fn dead_end_on_the_left_is_walked_by_the_wall_follower_only() {
    let img = maze_image(&[
        &[0, 1, 0, 0, 0],
        &[0, 1, 0, 0, 0],
        &[0, 1, 1, 0, 0],
        &[0, 1, 0, 0, 0],
        &[0, 1, 0, 0, 0],
    ]);
    let maze = Maze::from_image(&img);
    for solution in [
        BreadthFirst::solve(&maze),
        DepthFirst::solve(&maze),
        Dijkstra::solve(&maze),
        AStar::solve(&maze),
    ] {
        let solution = solution.unwrap();
        assert_eq!(vec![(1, 4), (1, 2), (1, 0)], points(&solution));
        assert_eq!(4, cost(&solution));
    }
    let walked = LeftTurn::solve(&maze).unwrap();
    assert_eq!(vec![(1, 4), (1, 2), (2, 2), (1, 2), (1, 0)], points(&walked));
    assert_eq!(5, walked.count);
    assert_eq!(5, walked.length);
    assert_eq!(6, cost(&walked));
}

#[test]
fn wall_follower_takes_the_long_way_round_a_loop() {
    let maze = Maze::from_image(&with_loop());
    let walked = LeftTurn::solve(&maze).unwrap();
    let shortest = Dijkstra::solve(&maze).unwrap();
    assert_eq!(
        vec![(1, 4), (1, 3), (3, 3), (3, 1), (1, 1), (1, 0)],
        points(&walked)
    );
    assert_eq!(6, walked.count);
    assert_eq!(8, cost(&walked));
    assert_eq!(4, cost(&shortest));
    assert!(cost(&walked) > cost(&shortest));
    assert!(walked.length > shortest.length);
}

#[test]
fn no_entrance_no_solution() {
    let img = maze_image(&[
        &[0, 0, 0, 0, 0],
        &[0, 1, 1, 1, 0],
        &[0, 1, 0, 1, 0],
        &[0, 1, 1, 1, 0],
        &[0, 1, 0, 0, 0],
    ]);
    let maze = Maze::from_image(&img);
    assert_eq!(None, maze.entrance());
    assert_eq!(None, maze.get(&NodeType::Start));
    assert_eq!(Some(Point::at(1, 4)), maze.exit());
    for solution in all_solvers(&maze) {
        assert!(solution.is_none());
    }
}

#[test]
fn no_exit_no_solution() {
    let img = maze_image(&[
        &[0, 1, 0, 0, 0],
        &[0, 1, 1, 1, 0],
        &[0, 1, 0, 1, 0],
        &[0, 1, 1, 1, 0],
        &[0, 0, 0, 0, 0],
    ]);
    let maze = Maze::from_image(&img);
    assert_eq!(None, maze.exit());
    assert_eq!(None, maze.get(&NodeType::Exit));
    for solution in all_solvers(&maze) {
        assert!(solution.is_none());
    }
}

#[test]
fn unreachable_exit_no_solution() {
    let img = maze_image(&[
        &[0, 1, 0, 0, 0],
        &[0, 1, 1, 0, 0],
        &[0, 0, 0, 0, 0],
        &[0, 0, 1, 1, 0],
        &[0, 0, 0, 1, 0],
    ]);
    let maze = Maze::from_image(&img);
    assert_eq!(Some(Point::at(1, 0)), maze.entrance());
    assert_eq!(Some(Point::at(3, 4)), maze.exit());
    for solution in all_solvers(&maze) {
        assert!(solution.is_none());
    }
}

#[test]
fn single_row_has_no_exit() {
    let maze = Maze::from_image(&maze_image(&[&[0, 1, 0]]));
    assert_eq!(Some(Point::at(1, 0)), maze.entrance());
    assert_eq!(None, maze.exit());
    for solution in all_solvers(&maze) {
        assert!(solution.is_none());
    }
}

#[test]
fn second_entrance_is_ignored() {
    let img = maze_image(&[
        &[0, 1, 0, 1, 0],
        &[0, 1, 0, 1, 0],
        &[0, 1, 0, 1, 0],
    ]);
    let maze = Maze::from_image(&img);
    assert_eq!(Some(Point::at(1, 0)), maze.entrance());
    assert_eq!(Some(Point::at(1, 2)), maze.exit());
    assert_eq!(None, maze.node_at(Point::at(3, 0)));
    assert_eq!(None, maze.node_at(Point::at(3, 2)));
}

#[test]
fn a_star_agrees_with_dijkstra() {
    for img in [straight(), with_loop(), walking_away()] {
        let maze = Maze::from_image(&img);
        let d = Dijkstra::solve(&maze).unwrap();
        let a = AStar::solve(&maze).unwrap();
        assert_eq!(cost(&d), cost(&a));
        assert!(a.count <= d.count);
    }
}

#[test]
fn dijkstra_counts_accepted_entries() {
    let maze = Maze::from_image(&with_loop());
    let d = Dijkstra::solve(&maze).unwrap();
    // start 0, (1,1) 1, (1,3) 3, (3,1) 3, exit 4; (3,3) at 5 is never accepted.
    assert_eq!(5, d.count);
    let a = AStar::solve(&maze).unwrap();
    // start, (1,1), (1,3), exit: (3,1) waits at 3 + 5.
    assert_eq!(4, a.count);
}

#[test]
fn breadth_first_has_fewest_nodes() {
    for img in [straight(), with_loop(), walking_away()] {
        let maze = Maze::from_image(&img);
        let b = BreadthFirst::solve(&maze).unwrap();
        for other in all_solvers(&maze) {
            assert!(b.length <= other.unwrap().length);
        }
    }
}

#[test]
fn breadth_first_prefers_hops_to_pixels() {
    // Two ways: four long steps of 18 pixels, or six short steps of 10 pixels.
    let img = maze_image(&[
        &[0, 1, 0, 0, 0, 0, 0, 0, 0],
        &[0, 1, 1, 1, 1, 1, 1, 1, 0],
        &[0, 1, 0, 0, 0, 0, 0, 1, 0],
        &[0, 1, 1, 1, 0, 0, 0, 1, 0],
        &[0, 0, 0, 1, 0, 0, 0, 1, 0],
        &[0, 1, 1, 1, 0, 0, 0, 1, 0],
        &[0, 1, 0, 0, 0, 0, 0, 1, 0],
        &[0, 1, 1, 1, 1, 1, 1, 1, 0],
        &[0, 1, 0, 0, 0, 0, 0, 0, 0],
    ]);
    let maze = Maze::from_image(&img);
    let b = BreadthFirst::solve(&maze).unwrap();
    let d = Dijkstra::solve(&maze).unwrap();
    assert_eq!(
        vec![(1, 8), (1, 7), (7, 7), (7, 1), (1, 1), (1, 0)],
        points(&b)
    );
    assert_eq!(20, cost(&b));
    assert_eq!(
        vec![(1, 8), (1, 7), (1, 5), (3, 5), (3, 3), (1, 3), (1, 1), (1, 0)],
        points(&d)
    );
    assert_eq!(12, cost(&d));
    assert!(b.length < d.length);
}

#[test]
fn breadth_first_counts_dequeued_nodes() {
    let maze = Maze::from_image(&with_loop());
    let b = BreadthFirst::solve(&maze).unwrap();
    assert_eq!(vec![(1, 4), (1, 3), (1, 1), (1, 0)], points(&b));
    // start, (1,1), (3,1), (1,3), (3,3), exit
    assert_eq!(6, b.count);
}

#[test]
fn depth_first_finds_a_way() {
    let maze = Maze::from_image(&walking_away());
    let s = DepthFirst::solve(&maze).unwrap();
    assert_eq!(
        vec![(1, 4), (1, 1), (3, 1), (3, 3), (5, 3), (5, 0)],
        points(&s)
    );
    assert_eq!(6, s.count);
}

#[test]
fn solution_new_counts_the_path() {
    let mut path = std::collections::VecDeque::new();
    path.push_back(Node::exit(1, 2));
    path.push_back(Node::start(1, 0));
    let s = Solution::new(7, path.clone());
    assert_eq!(7, s.count);
    assert_eq!(2, s.length);
    assert_eq!(path, s.path);
}

#[test]
fn frontier_hands_out_by_cost_then_position() {
    let mut q = Frontier::new();
    assert_eq!(0, q.len());
    assert_eq!(None, q.pop());
    q.push(BinNode::new(5, Point::at(1, 1)));
    q.push(BinNode::new(3, Point::at(9, 9)));
    q.push(BinNode::new(3, Point::at(2, 7)));
    q.push(BinNode::new(3, Point::at(2, 4)));
    q.push(BinNode::new(8, Point::at(0, 0)));
    assert_eq!(5, q.len());
    assert_eq!(Some(BinNode::new(3, Point::at(2, 4))), q.pop());
    assert_eq!(Some(BinNode::new(3, Point::at(2, 7))), q.pop());
    assert_eq!(Some(BinNode::new(3, Point::at(9, 9))), q.pop());
    assert_eq!(Some(BinNode::new(5, Point::at(1, 1))), q.pop());
    assert_eq!(Some(BinNode::new(8, Point::at(0, 0))), q.pop());
    assert_eq!(None, q.pop());
}

#[test]
fn bin_node_order() {
    let a = BinNode::new(1, Point::at(5, 5));
    let b = BinNode::new(2, Point::at(0, 0));
    assert_eq!(1, a.cost);
    assert_eq!(Point::at(5, 5), a.position);
    assert!(a.before(&b));
    assert!(!b.before(&a));
    assert!(!a.before(&a));
    assert!(BinNode::new(2, Point::at(0, 1)).before(&BinNode::new(2, Point::at(1, 0))));
}

#[test]
fn algorithm_labels() {
    assert_eq!("Left Turn", Algorithm::LeftTurn.label());
    assert_eq!("Dijkstra", Algorithm::Dijkstra.label());
    assert_eq!("A*", Algorithm::AStar.label());
    assert_eq!("Breadth First", Algorithm::BreadthFirst.label());
    assert_eq!("Depth First", Algorithm::DepthFirst.label());
}

#[test]
fn wall_follower_walks_a_maze_without_loops() {
    // A tree. Facing south at (3,1) the walker turns left, to the east; at
    // (5,1) it goes straight on and leaves the dead end on its right alone.
    let img = maze_image(&[
        &[0, 0, 0, 1, 0, 0, 0, 0, 0],
        &[0, 1, 1, 1, 1, 1, 1, 1, 0],
        &[0, 1, 0, 0, 0, 1, 0, 1, 0],
        &[0, 1, 0, 1, 1, 1, 0, 1, 0],
        &[0, 1, 0, 0, 0, 0, 0, 1, 0],
        &[0, 1, 1, 1, 0, 1, 1, 1, 0],
        &[0, 0, 0, 0, 0, 1, 0, 0, 0],
    ]);
    let maze = Maze::from_image(&img);
    let walked = LeftTurn::solve(&maze).unwrap();
    assert_eq!(
        vec![(5, 6), (5, 5), (7, 5), (7, 1), (5, 1), (3, 1), (3, 0)],
        points(&walked)
    );
    assert_eq!(7, walked.count);
    assert_eq!(7, walked.length);
    assert_eq!(12, cost(&walked));
}

#[test]
fn wall_follower_walks_into_the_dead_ends_on_its_left() {
    // The same tree with the exit on the other side: the walker goes east
    // first, comes back from the dead ends there, and looks into the dead
    // end on its left before it leaves.
    let img = maze_image(&[
        &[0, 0, 0, 1, 0, 0, 0, 0, 0],
        &[0, 1, 1, 1, 1, 1, 1, 1, 0],
        &[0, 1, 0, 0, 0, 1, 0, 1, 0],
        &[0, 1, 0, 1, 1, 1, 0, 1, 0],
        &[0, 1, 0, 0, 0, 0, 0, 1, 0],
        &[0, 1, 1, 1, 0, 1, 1, 1, 0],
        &[0, 1, 0, 0, 0, 0, 0, 0, 0],
    ]);
    let maze = Maze::from_image(&img);
    let walked = LeftTurn::solve(&maze).unwrap();
    assert_eq!(
        vec![
            (1, 6),
            (1, 5),
            (3, 5),
            (1, 5),
            (1, 1),
            (3, 1),
            (5, 1),
            (5, 3),
            (3, 3),
            (5, 3),
            (5, 1),
            (7, 1),
            (7, 5),
            (5, 5),
            (7, 5),
            (7, 1),
            (5, 1),
            (3, 1),
            (3, 0)
        ],
        points(&walked)
    );
    assert_eq!(19, walked.count);
    let shortest = Dijkstra::solve(&maze).unwrap();
    assert_eq!(vec![(1, 6), (1, 5), (1, 1), (3, 1), (3, 0)], points(&shortest));
    assert_eq!(8, cost(&shortest));
    assert_eq!(40, cost(&walked));
}

#[test]
fn wall_follower_gives_up_back_at_the_entrance() {
    // The only way leads into dead ends: the walker comes back to the entrance.
    let img = maze_image(&[
        &[0, 1, 0, 0, 0],
        &[0, 1, 1, 1, 0],
        &[0, 0, 0, 1, 0],
        &[0, 0, 0, 0, 0],
        &[0, 1, 0, 0, 0],
    ]);
    let maze = Maze::from_image(&img);
    assert!(maze.exit().is_some());
    assert!(LeftTurn::solve(&maze).is_none());
}

#[test]
fn frontier_sorts_many_entries() {
    let mut q = Frontier::new();
    let mut expected = Vec::new();
    let mut seed: u64 = 12345;
    for i in 0..500u32 {
        seed = seed.wrapping_mul(6364136223846793005).wrapping_add(1442695040888963407);
        let cost = (seed >> 40) % 50;
        q.push(BinNode::new(cost, Point::at(i % 7, i)));
        expected.push((cost, i % 7, i));
    }
    expected.sort();
    assert_eq!(500, q.len());
    for (cost, x, y) in expected {
        assert_eq!(Some(BinNode::new(cost, Point::at(x, y))), q.pop());
    }
    assert_eq!(0, q.len());
    assert_eq!(None, q.pop());
}
