use controlled_astar::{AStar, AStarError, Node};

fn setup_astar(grid: Vec<Vec<i32>>) -> AStar {
    let nodes = Node::grid_to_nodes(&grid);
    AStar::new(nodes)
}

#[test]
fn test_astar_basic_pathfinding() {
    let grid = vec![
        vec![0, 0, 0, 0, 0],
        vec![0, 0, 0, 0, 0],
        vec![0, 0, 0, 0, 0],
        vec![0, 0, 0, 0, 0],
        vec![0, 0, 0, 0, 0],
    ];
    let mut astar = setup_astar(grid);

    let start = (0, 0);
    let goal = (4, 4);

    let result = astar.find_shortest_path(start, goal);

    match result {
        Ok(path) => {
            assert_eq!(path.len(), 9);
            assert_eq!(path[0], start);
            assert_eq!(path[path.len() - 1], goal);
        }
        Err(AStarError::PathNotFound) => {}
        _ => {
            panic!("Unexpected result or error occurred: {:?}", result);
        }
    }
}

#[test]
fn tests_test_astar_with_obstacles() {
    let grid = vec![
        vec![0, 0, 0, 0, 0],
        vec![0, 1, 1, 1, 0],
        vec![0, 1, 0, 1, 0],
        vec![0, 1, 0, 0, 0],
        vec![0, 0, 0, 0, 0],
    ];
    let mut astar = setup_astar(grid);

    let start = (0, 0);
    let goal = (4, 4);

    let result = astar.find_shortest_path(start, goal);

    match result {
        Ok(path) => {
            assert_eq!(path.len(), 9);
            assert_eq!(path[0], start);
            assert_eq!(path[path.len() - 1], goal);
        }
        Err(AStarError::PathNotFound) => {}
        _ => {
            panic!("Unexpected result or error occurred: {:?}", result);
        }
    }
}

#[test]
fn test_astar_path_not_found() {
    let grid = vec![vec![0, 0, 0], vec![1, 1, 1], vec![0, 0, 0]];
    let mut astar = setup_astar(grid);

    let start = (0, 0);
    let goal = (2, 2);

    let result = astar.find_shortest_path(start, goal);

    match result {
        Err(AStarError::PathNotFound) => {}
        _ => {
            panic!("Unexpected result or error occurred: {:?}", result);
        }
    }
}

#[test]
fn test_astar_start_and_end_same() {
    let grid = vec![
        vec![0, 0, 0, 0, 0],
        vec![0, 0, 0, 0, 0],
        vec![0, 0, 0, 0, 0],
        vec![0, 0, 0, 0, 0],
        vec![0, 0, 0, 0, 0],
    ];
    let mut astar = setup_astar(grid);

    let start = (2, 2);
    let goal = (2, 2);

    let result = astar.find_shortest_path(start, goal);

    match result {
        Ok(path) => {
            assert_eq!(path.len(), 1);
            assert_eq!(path[0], start);
        }
        Err(AStarError::PathNotFound) => {}
        _ => {
            panic!("Unexpected result or error occurred: {:?}", result);
        }
    }
}

#[test]
fn test_astar_large_map() {
    let grid = vec![
        vec![0, 0, 0, 0, 0, 0, 0, 0, 0, 0],
        vec![0, 1, 1, 1, 0, 0, 0, 0, 0, 0],
        vec![0, 0, 0, 0, 0, 1, 1, 0, 0, 0],
        vec![0, 0, 1, 1, 0, 0, 0, 0, 0, 0],
        vec![0, 0, 0, 0, 0, 1, 1, 1, 0, 0],
        vec![0, 0, 0, 0, 0, 0, 0, 0, 0, 0],
        vec![0, 0, 0, 0, 0, 0, 0, 0, 0, 0],
        vec![0, 0, 0, 0, 0, 0, 0, 0, 0, 0],
        vec![0, 0, 0, 0, 0, 0, 0, 0, 0, 0],
        vec![0, 0, 0, 0, 0, 0, 0, 0, 0, 0],
    ];
    let mut astar = setup_astar(grid);

    let start = (0, 0);
    let goal = (9, 9);

    let result = astar.find_shortest_path(start, goal);

    match result {
        Ok(path) => {
            assert!(path.len() > 10);
            assert_eq!(path[0], start);
            assert_eq!(path[path.len() - 1], goal);
        }
        Err(AStarError::PathNotFound) => {}
        _ => {
            panic!("Unexpected result or error occurred: {:?}", result);
        }
    }
}

#[test]
fn test_astar_small_grid() {
    let grid = vec![vec![0, 0], vec![1, 0]];
    let mut astar = setup_astar(grid);

    let start = (0, 0);
    let goal = (1, 1);

    let result = astar.find_shortest_path(start, goal);

    match result {
        Ok(path) => {
            assert_eq!(path.len(), 3);
            assert_eq!(path[0], start);
            assert_eq!(path[path.len() - 1], goal);
        }
        Err(AStarError::PathNotFound) => {}
        _ => {
            panic!("Unexpected result or error occurred: {:?}", result);
        }
    }
}

#[test]
fn test_astar_dense_obstacles() {
    let grid = vec![
        vec![0, 1, 1, 1, 1, 0],
        vec![0, 1, 1, 1, 1, 0],
        vec![0, 1, 1, 1, 1, 0],
        vec![0, 1, 1, 1, 1, 0],
        vec![0, 1, 1, 1, 1, 0],
        vec![0, 0, 0, 0, 0, 0],
    ];
    let mut astar = setup_astar(grid);

    let start = (0, 0);
    let goal = (5, 5);

    let result = astar.find_shortest_path(start, goal);

    match result {
        Ok(path) => {
            assert!(path.len() > 10);
            assert_eq!(path[0], start);
            assert_eq!(path[path.len() - 1], goal);
        }
        Err(AStarError::PathNotFound) => {}
        _ => {
            panic!("Unexpected result or error occurred: {:?}", result);
        }
    }
}

#[test]
fn test_astar_start_node_blocked() {
    let grid = vec![vec![1, 0, 0], vec![0, 0, 0], vec![0, 0, 0]];
    let mut astar = setup_astar(grid);

    let start = (0, 0);
    let goal = (2, 2);

    let result = astar.find_shortest_path(start, goal);

    match result {
        Err(AStarError::StartNodeBlocked) => {}
        _ => {
            panic!("Unexpected result or error occurred: {:?}", result);
        }
    }
}

#[test]
fn test_astar_goal_node_blocked() {
    let grid = vec![vec![0, 0, 0], vec![0, 0, 0], vec![0, 0, 1]];
    let mut astar = setup_astar(grid);

    let start = (0, 0);
    let goal = (2, 2);

    let result = astar.find_shortest_path(start, goal);

    match result {
        Err(AStarError::GoalNodeBlocked) => {}
        _ => {
            panic!("Unexpected result or error occurred: {:?}", result);
        }
    }
}

#[test]
fn test_astar_goal_node_not_found() {
    let grid = vec![vec![0, 0, 0], vec![0, 0, 0], vec![0, 0, 0]];
    let mut astar = setup_astar(grid);

    let start = (0, 0);
    let goal = (3, 3);

    let result = astar.find_shortest_path(start, goal);

    match result {
        Err(AStarError::NodeNotFound) => {}
        _ => {
            panic!("Unexpected result or error occurred: {:?}", result);
        }
    }
}

#[test]
fn test_astar_start_node_not_found() {
    let grid = vec![vec![0, 0, 0], vec![0, 0, 0], vec![0, 0, 0]];
    let mut astar = setup_astar(grid);

    let start = (4, 4);
    let goal = (2, 2);

    let result = astar.find_shortest_path(start, goal);

    match result {
        Err(AStarError::NodeNotFound) => {}
        _ => {
            panic!("Unexpected result or error occurred: {:?}", result);
        }
    }
}
