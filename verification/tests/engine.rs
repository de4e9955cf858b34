use wfc_colors::WfcError;
use wfc_colors::WfcState;

fn matrix_of(n: usize, edges: &[(usize, usize)]) -> Vec<Vec<bool>> {
    let mut m = vec![vec![false; n]; n];
    for &(a, b) in edges {
        m[a][b] = true;
        m[b][a] = true;
    }
    m
}

#[test]
fn fresh_state_has_full_domains() {
    let state = WfcState::new(2, 2, matrix_of(2, &[(0, 1)]));
    assert_eq!(state.entropy, vec![2, 2]);
    assert_eq!(state.output, vec![usize::MAX, usize::MAX]);
    assert_eq!(state.available_colors, vec![vec![true, true], vec![true, true]]);
    assert!(!state.finished);
    assert!(state.affected_nodes.is_empty());
}

#[test]
fn selection_picks_first_lowest_entropy() {
    let mut state = WfcState::new(2, 2, matrix_of(2, &[(0, 1)]));
    state.find_lowest_entropy();
    assert_eq!(state.min_index, Some(0));
    assert!(!state.finished);
    assert!(!state.restart_flag);
}

#[test]
fn collapse_commits_lowest_color() {
    let mut state = WfcState::new(2, 2, matrix_of(2, &[(0, 1)]));
    state.find_lowest_entropy();
    assert_eq!(state.collapse(0), Ok(()));
    assert_eq!(state.entropy[0], usize::MAX);
    assert_eq!(state.output[0], 0);
    assert_eq!(state.available_colors[0], vec![true, false]);
    assert_eq!(state.affected_nodes, vec![0]);
}

#[test]
fn propagate_narrows_neighbors() {
    let mut state = WfcState::new(2, 2, matrix_of(2, &[(0, 1)]));
    state.find_lowest_entropy();
    state.collapse(0).unwrap();
    assert_eq!(state.propagate(), Ok(()));
    assert_eq!(state.entropy[1], 1);
    assert_eq!(state.available_colors[1], vec![false, true]);
    assert!(state.affected_nodes.is_empty());
}

#[test]
fn selection_reports_finished_when_all_collapsed() {
    let mut state = WfcState::new(1, 1, matrix_of(1, &[]));
    state.find_lowest_entropy();
    state.collapse(0).unwrap();
    state.propagate().unwrap();
    state.find_lowest_entropy();
    assert!(state.finished);
    assert_eq!(state.min_index, None);
}

#[test]
fn run_colors_a_path() {
    let mut state = WfcState::new(3, 2, matrix_of(3, &[(0, 1), (1, 2)]));
    let result = state.run();
    assert_eq!(result, Ok(vec![0, 1, 0]));
    assert!(state.finished);
}

#[test]
fn too_small_budget_hits_propagation_contradiction() {
    let mut state = WfcState::new(3, 2, matrix_of(3, &[(0, 1), (1, 2), (0, 2)]));
    let result = state.run();
    assert_eq!(result, Err(WfcError::PropagationContradiction));
}

#[test]
fn restart_resets_every_array() {
    let mut state = WfcState::new(2, 2, matrix_of(2, &[(0, 1)]));
    state.find_lowest_entropy();
    state.collapse(0).unwrap();
    state.propagate().unwrap();
    state.restart_wfc();
    assert_eq!(state.entropy, vec![2, 2]);
    assert_eq!(state.output, vec![usize::MAX, usize::MAX]);
    assert_eq!(state.available_colors, vec![vec![true, true], vec![true, true]]);
    assert!(state.affected_nodes.is_empty());
    assert!(state.restart_flag);
    assert!(!state.finished);
    assert_eq!(state.min_index, None);
}

#[test]
fn collapse_is_noop_when_finished() {
    let mut state = WfcState::new(1, 1, matrix_of(1, &[]));
    state.run().unwrap();
    let entropy_before = state.entropy.clone();
    assert_eq!(state.collapse(0), Ok(()));
    assert_eq!(state.entropy, entropy_before);
}
