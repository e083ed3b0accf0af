use controlled_astar::{AStar, AStarError, Direction, Graph, Node, Position};

fn search(grid: &[Vec<i32>], start: Position, goal: Position) -> Result<Vec<Position>, AStarError> {
    let mut astar = AStar::new(Node::grid_to_nodes(grid));
    astar.find_shortest_path(start, goal)
}

fn is_grid_step(a: Position, b: Position) -> bool {
    let dx = if a.0 > b.0 { a.0 - b.0 } else { b.0 - a.0 };
    let dy = if a.1 > b.1 { a.1 - b.1 } else { b.1 - a.1 };
    dx + dy == 1
}

#[test]
fn open_three_by_three_grid_gives_the_row_first_route() {
    let grid = vec![vec![0, 0, 0], vec![0, 0, 0], vec![0, 0, 0]];
    let path = search(&grid, (0, 0), (2, 2)).unwrap();
    assert_eq!(path, vec![(0, 0), (1, 0), (2, 0), (2, 1), (2, 2)]);
}

#[test]
fn fully_blocked_middle_row_gives_path_not_found() {
    let grid = vec![vec![0, 0, 0], vec![1, 1, 1], vec![0, 0, 0]];
    assert_eq!(search(&grid, (0, 0), (2, 2)), Err(AStarError::PathNotFound));
}

#[test]
fn small_grid_goes_around_the_wall() {
    let grid = vec![vec![0, 0], vec![1, 0]];
    assert_eq!(search(&grid, (0, 0), (1, 1)), Ok(vec![(0, 0), (1, 0), (1, 1)]));
}

#[test]
fn blocked_centre_is_avoided_with_five_positions() {
    let grid = vec![vec![0, 0, 0], vec![0, 1, 0], vec![0, 0, 0]];
    let path = search(&grid, (0, 0), (2, 2)).unwrap();
    assert_eq!(path.len(), 5);
    assert_eq!(path[0], (0, 0));
    assert_eq!(path[4], (2, 2));
    assert!(!path.contains(&(1, 1)));
    for pair in path.windows(2) {
        assert!(is_grid_step(pair[0], pair[1]));
    }
}

#[test]
fn same_open_position_gives_a_single_position() {
    let grid = vec![vec![0, 1], vec![0, 0]];
    assert_eq!(search(&grid, (1, 1), (1, 1)), Ok(vec![(1, 1)]));
    assert_eq!(search(&grid, (0, 0), (0, 0)), Ok(vec![(0, 0)]));
}

#[test]
fn blocked_start_wins_over_reachability() {
    let grid = vec![vec![1, 0, 0], vec![1, 1, 1], vec![0, 0, 0]];
    assert_eq!(search(&grid, (0, 0), (2, 2)), Err(AStarError::StartNodeBlocked));
    assert_eq!(search(&grid, (0, 0), (0, 0)), Err(AStarError::StartNodeBlocked));
    let both = vec![vec![1, 0], vec![0, 1]];
    assert_eq!(search(&both, (0, 0), (1, 1)), Err(AStarError::StartNodeBlocked));
}

#[test]
fn blocked_goal_gives_goal_node_blocked() {
    let grid = vec![vec![0, 1], vec![0, 0]];
    assert_eq!(search(&grid, (0, 0), (1, 0)), Err(AStarError::GoalNodeBlocked));
}

#[test]
fn unknown_position_wins_over_blocked() {
    let grid = vec![vec![1, 0], vec![0, 1]];
    assert_eq!(search(&grid, (0, 0), (5, 0)), Err(AStarError::NodeNotFound));
    assert_eq!(search(&grid, (0, 7), (1, 1)), Err(AStarError::NodeNotFound));
    assert_eq!(search(&grid, (2, 2), (2, 2)), Err(AStarError::NodeNotFound));
}

#[test]
fn repeated_searches_agree() {
    let grid = vec![
        vec![0, 0, 0, 0, 1, 0],
        vec![0, 1, 1, 0, 1, 0],
        vec![0, 0, 1, 0, 0, 0],
        vec![1, 0, 0, 0, 1, 0],
        vec![0, 0, 1, 0, 0, 0],
    ];
    let mut astar = AStar::new(Node::grid_to_nodes(&grid));
    let first = astar.find_shortest_path((0, 0), (5, 4));
    let second = astar.find_shortest_path((0, 0), (5, 4));
    assert_eq!(first, second);
    let third = search(&grid, (0, 0), (5, 4));
    assert_eq!(first, third);
    let path = first.unwrap();
    assert_eq!(path.len(), 10);
    for pair in path.windows(2) {
        assert!(is_grid_step(pair[0], pair[1]));
    }
}

#[test]
fn shortest_route_on_a_winding_grid() {
    let grid = vec![
        vec![0, 1, 0, 0, 0],
        vec![0, 1, 0, 1, 0],
        vec![0, 1, 0, 1, 0],
        vec![0, 0, 0, 1, 0],
    ];
    let path = search(&grid, (0, 0), (4, 3)).unwrap();
    assert_eq!(path.len(), 14);
    assert_eq!(path[0], (0, 0));
    assert_eq!(path[13], (4, 3));
    for pair in path.windows(2) {
        assert!(is_grid_step(pair[0], pair[1]));
        assert_ne!(grid[pair[1].1][pair[1].0], 1);
    }
}

#[test]
fn added_edge_is_followed() {
    let mut nodes = Node::grid_to_nodes(&vec![vec![0, 0, 0, 0, 0]]);
    nodes.set_edge((0, 0), Direction::NorthEast, Some((4, 0)));
    let mut astar = AStar::new(nodes);
    assert_eq!(astar.find_shortest_path((0, 0), (4, 0)), Ok(vec![(0, 0), (4, 0)]));
}

#[test]
fn edges_are_directed() {
    let mut nodes = Node::grid_to_nodes(&vec![vec![0, 0]]);
    nodes.remove_edge((0, 0), Direction::East);
    let mut astar = AStar::new(nodes);
    assert_eq!(astar.find_shortest_path((0, 0), (1, 0)), Err(AStarError::PathNotFound));
    assert_eq!(astar.find_shortest_path((1, 0), (0, 0)), Ok(vec![(1, 0), (0, 0)]));
}

#[test]
fn edges_to_unknown_or_blocked_cells_are_ignored() {
    let mut nodes = Node::grid_to_nodes(&vec![vec![0, 1, 0], vec![0, 0, 0]]);
    nodes.set_edge((0, 0), Direction::SouthEast, Some((7, 7)));
    nodes.set_edge((0, 0), Direction::NorthEast, Some((1, 0)));
    nodes.set_edge((0, 0), Direction::NorthWest, None);
    let mut astar = AStar::new(nodes);
    assert_eq!(
        astar.find_shortest_path((0, 0), (2, 0)),
        Ok(vec![(0, 0), (0, 1), (1, 1), (2, 1), (2, 0)])
    );
}

#[test]
fn graph_edits_on_unknown_positions_change_nothing() {
    let mut nodes = Graph::new();
    nodes.insert(Node::new(0, 0, false, 0, 0));
    nodes.set_blocked((3, 3), true);
    nodes.set_edge((3, 3), Direction::North, Some((0, 0)));
    nodes.remove_edge((3, 3), Direction::North);
    assert_eq!(nodes.len(), 1);
    assert!(!nodes.contains((3, 3)));
    assert!(!nodes.get((0, 0)).unwrap().is_blocked);
}

#[test]
fn graph_edits_change_the_stored_node() {
    let mut nodes = Node::grid_to_nodes(&vec![vec![0, 0], vec![0, 0]]);
    nodes.set_blocked((1, 0), true);
    nodes.set_edge((1, 1), Direction::SouthWest, Some((0, 0)));
    nodes.remove_edge((1, 1), Direction::North);
    let node = nodes.get((1, 1)).unwrap();
    assert_eq!(node.neighbor(Direction::SouthWest), Some(Some((0, 0))));
    assert_eq!(node.neighbor(Direction::North), None);
    assert_eq!(node.neighbor(Direction::West), Some(Some((0, 1))));
    assert!(nodes.get((1, 0)).unwrap().is_blocked);
    nodes.insert(Node::new(1, 0, false, 1, 1));
    assert!(!nodes.get((1, 0)).unwrap().is_blocked);
    assert_eq!(nodes.len(), 4);
}

#[test]
fn error_messages() {
    assert_eq!(AStarError::StartNodeBlocked.message(), "The start node is blocked!");
    assert_eq!(AStarError::GoalNodeBlocked.message(), "The goal node is blocked!");
    assert_eq!(AStarError::NodeNotFound.message(), "One of the nodes is not found!");
    assert_eq!(AStarError::PathNotFound.message(), "No path could be found!");
}
