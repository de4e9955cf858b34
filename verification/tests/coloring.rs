use wfc_colors::validate_coloring;
use wfc_colors::wfc_color;
use wfc_colors::WfcError;

fn ring_edges(n: usize) -> Vec<(usize, usize)> {
    let mut edges: Vec<(usize, usize)> = Vec::new();
    for i in 0..n {
        edges.push((i, (i + 1) % n));
    }
    edges
}

fn complete_edges(n: usize) -> Vec<(usize, usize)> {
    let mut edges: Vec<(usize, usize)> = Vec::new();
    for i in 0..n {
        for j in (i + 1)..n {
            edges.push((i, j));
        }
    }
    edges
}

fn petersen_edges() -> Vec<(usize, usize)> {
    vec![
        (0, 1),
        (1, 2),
        (2, 3),
        (3, 4),
        (4, 0),
        (0, 5),
        (1, 6),
        (2, 7),
        (3, 8),
        (4, 9),
        (5, 7),
        (7, 9),
        (9, 6),
        (6, 8),
        (8, 5),
    ]
}

#[test]
fn edgeless_graph_uses_one_color() {
    let edges: Vec<(usize, usize)> = Vec::new();
    let result = wfc_color(4, false, &edges);
    assert_eq!(result, Ok(vec![1, 1, 1, 1]));
}

#[test]
fn empty_graph_solves_trivially() {
    let edges: Vec<(usize, usize)> = Vec::new();
    let result = wfc_color(0, false, &edges);
    assert_eq!(result, Ok(Vec::new()));
}

#[test]
fn complete_graph_uses_distinct_colors() {
    let edges = complete_edges(4);
    let result = wfc_color(4, false, &edges).unwrap();
    assert_eq!(result, vec![1, 2, 3, 4]);
    for i in 0..4 {
        for j in 0..4 {
            if i != j {
                assert_ne!(result[i], result[j]);
            }
        }
    }
    assert!(validate_coloring(4, &edges, &result));
}

#[test]
fn odd_cycle_needs_three_colors() {
    let edges = ring_edges(5);
    let result = wfc_color(5, false, &edges).unwrap();
    assert_eq!(result, vec![1, 2, 1, 2, 3]);
    for &c in result.iter() {
        assert!(1 <= c && c <= 3);
    }
    assert!(validate_coloring(5, &edges, &result));
}

#[test]
fn even_cycle_stays_within_budget() {
    let edges = ring_edges(6);
    let result = wfc_color(6, false, &edges).unwrap();
    for &c in result.iter() {
        assert!(1 <= c && c <= 3);
    }
    assert!(validate_coloring(6, &edges, &result));
}

#[test]
fn directed_input_rejected() {
    let edges = vec![(0, 1), (1, 2), (2, 3), (3, 0), (0, 2)];
    let result = wfc_color(4, true, &edges);
    assert_eq!(result, Err(WfcError::InvalidInput));
}

#[test]
fn directed_flag_checked_before_edges() {
    let edges: Vec<(usize, usize)> = Vec::new();
    let result = wfc_color(3, true, &edges);
    assert_eq!(result, Err(WfcError::InvalidInput));
}

#[test]
fn star_graph_colors_leaves_alike() {
    let edges = vec![(0, 1), (0, 2), (0, 3), (0, 4), (0, 5)];
    let result = wfc_color(6, false, &edges).unwrap();
    assert_eq!(result, vec![1, 2, 2, 2, 2, 2]);
    assert!(validate_coloring(6, &edges, &result));
}

#[test]
fn identical_solves_give_identical_output() {
    let edges = petersen_edges();
    let first = wfc_color(10, false, &edges);
    let second = wfc_color(10, false, &edges);
    assert_eq!(first, second);
    assert!(first.is_ok());
}

#[test]
fn solution_passes_validator() {
    let edges = petersen_edges();
    let result = wfc_color(10, false, &edges).unwrap();
    for &c in result.iter() {
        assert!(1 <= c && c <= 4);
    }
    assert!(validate_coloring(10, &edges, &result));
}

#[test]
fn validator_rejects_monochromatic_edge() {
    let edges = vec![(0, 1)];
    let coloring = vec![1, 1];
    assert!(!validate_coloring(2, &edges, &coloring));
}

#[test]
fn validator_accepts_proper_coloring() {
    let edges = vec![(0, 1), (1, 2)];
    let coloring = vec![1, 2, 1];
    assert!(validate_coloring(3, &edges, &coloring));
}

#[test]
fn budget_never_contradicts_on_random_graphs() {
    let mut seed: u64 = 0x2545F4914F6CDD1D;
    for n in [5usize, 9, 13, 17, 21] {
        let mut edges: Vec<(usize, usize)> = Vec::new();
        for i in 0..n {
            for j in (i + 1)..n {
                seed = seed.wrapping_mul(6364136223846793005).wrapping_add(1442695040888963407);
                if (seed >> 33) % 3 == 0 {
                    edges.push((i, j));
                }
            }
        }
        let result = wfc_color(n, false, &edges);
        let colors = result.expect("the degree+1 budget must always succeed");
        assert!(validate_coloring(n, &edges, &colors));
    }
}
