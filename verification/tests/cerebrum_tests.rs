use ferro::cerebrum::runner::{cgroup_memory, DEFAULT_LIMIT_BYTES, DEFAULT_USAGE_BYTES};
use ferro::text::parse_trimmed_u64;
use ferro::cerebrum::{Cerebrum, CerebrumState, CsrCache, CsrMatrix};
use ferro::cortex::NodeArena;

#[test]
fn test_cerebrum_state_transition() {
    let matrix = CsrMatrix::new(
        2, 2,
        vec![0, 1, 2],
        vec![0, 1],
        vec![1.0, 2.0]
    );
    let mut cerebrum = Cerebrum::new(matrix);
    assert_eq!(cerebrum.state, CerebrumState::Wake);

    for _ in 0..10 {
        cerebrum.tick();
    }
    assert_eq!(cerebrum.state, CerebrumState::Sleep);

    for _ in 0..5 {
        cerebrum.tick();
    }
    assert_eq!(cerebrum.state, CerebrumState::Wake);
}

#[test]
fn cerebrum_counts_within_phase() {
    let matrix = CsrMatrix::new(1, 1, vec![0, 1], vec![0], vec![1.0f64]);
    let mut cerebrum = Cerebrum::new(matrix);
    assert_eq!(cerebrum.wake_cycle_limit, 10);
    assert_eq!(cerebrum.sleep_cycle_limit, 5);
    for expected in 1..10 {
        cerebrum.tick();
        assert_eq!(cerebrum.state, CerebrumState::Wake);
        assert_eq!(cerebrum.cycle_count, expected);
    }
    cerebrum.tick();
    assert_eq!(cerebrum.state, CerebrumState::Sleep);
    assert_eq!(cerebrum.cycle_count, 0);
    // A full period returns to the start.
    for _ in 0..5 {
        cerebrum.tick();
    }
    for _ in 0..10 {
        cerebrum.tick();
    }
    assert_eq!(cerebrum.state, CerebrumState::Sleep);
    assert_eq!(cerebrum.cycle_count, 0);
}

fn arena_with(ids_to_keep: &[usize], created: usize) -> NodeArena<u32> {
    let mut arena = NodeArena::new();
    for _ in 0..created {
        arena.create_node(|id| id as u32);
    }
    for id in 1..=created {
        if !ids_to_keep.contains(&id) {
            arena.remove_node(id);
        }
    }
    arena
}

#[test]
fn rebuild_drops_dead_nodes_and_adds_self_loops() {
    // Old 4x4 matrix over nodes 0..3: row 1 -> {1: 0.5, 2: 0.7}, row 2 -> {3: 0.2}, row 3 -> {1: 0.9}.
    let matrix = CsrMatrix::new(
        4, 4,
        vec![0, 0, 2, 3, 4],
        vec![1, 2, 3, 1],
        vec![0.5, 0.7, 0.2, 0.9],
    );
    let mut cerebrum = Cerebrum::new(matrix);
    // Nodes 1 and 3 live; node 2 dead.
    let arena = arena_with(&[1, 3], 3);
    assert_eq!(arena.ids(), vec![1, 3]);
    cerebrum.rebuild_matrix(&arena, 1.0);
    let m = &cerebrum.matrix;
    assert_eq!(m.nrows, 4);
    assert_eq!(m.ncols, 4);
    // Row 0 dead, row 1 keeps its self loop (col 2 dropped), row 2 dead, row 3 keeps col 1 and gains a self loop.
    assert_eq!(m.row_ptr, vec![0, 0, 1, 1, 3]);
    assert_eq!(m.col_indices, vec![1, 1, 3]);
    assert_eq!(m.values, vec![0.5, 0.9, 1.0]);
}

#[test]
fn rebuild_grows_for_new_nodes() {
    let matrix = CsrMatrix::new(1, 1, vec![0, 1], vec![0], vec![2.0]);
    let mut cerebrum = Cerebrum::new(matrix);
    let arena = arena_with(&[1, 2, 3], 3);
    cerebrum.rebuild_matrix(&arena, 1.0);
    let m = &cerebrum.matrix;
    assert_eq!(m.nrows, 4);
    assert_eq!(m.row_ptr, vec![0, 0, 1, 2, 3]);
    assert_eq!(m.col_indices, vec![1, 2, 3]);
    assert_eq!(m.values, vec![1.0, 1.0, 1.0]);
}

#[test]
fn rebuild_of_empty_cortex_is_one_empty_row() {
    let matrix = CsrMatrix::new(2, 2, vec![0, 1, 2], vec![0, 1], vec![1.0, 1.0]);
    let mut cerebrum = Cerebrum::new(matrix);
    let arena: NodeArena<u32> = NodeArena::new();
    cerebrum.rebuild_matrix(&arena, 1.0);
    assert_eq!(cerebrum.matrix.nrows, 1);
    assert_eq!(cerebrum.matrix.row_ptr, vec![0, 0]);
    assert!(cerebrum.matrix.col_indices.is_empty());
    assert_eq!(cerebrum.state, CerebrumState::Wake);
}

#[test]
fn prefetch_reads_rows_without_change() {
    let matrix = CsrMatrix::new(2, 2, vec![0, 1, 2], vec![0, 1], vec![1.0, 2.0]);
    CsrCache::prefetch_lines(&matrix, &[0, 1, 7]);
    assert_eq!(matrix.values, vec![1.0, 2.0]);
}

#[test]
fn cgroup_figures_come_from_the_first_readable_file() {
    let s = |t: &str| Some(t.to_string());
    assert_eq!(cgroup_memory(s("1048576\n"), s("7"), s("4294967296\n"), s("9")), (1048576, 4294967296));
    assert_eq!(cgroup_memory(None, s(" 123 "), None, s("456\n")), (123, 456));
    assert_eq!(cgroup_memory(None, None, None, None), (DEFAULT_USAGE_BYTES, DEFAULT_LIMIT_BYTES));
    assert_eq!((DEFAULT_USAGE_BYTES, DEFAULT_LIMIT_BYTES), (209715200, 2147483648));
}

#[test]
fn unreadable_numbers_fall_back_to_the_defaults() {
    let s = |t: &str| Some(t.to_string());
    // cgroup v2 writes "max" for no limit; the v1 file is not consulted then.
    assert_eq!(cgroup_memory(s("abc"), s("5"), s("max\n"), s("6")), (DEFAULT_USAGE_BYTES, DEFAULT_LIMIT_BYTES));
    assert_eq!(cgroup_memory(s("1"), None, s("0"), None), (1, DEFAULT_LIMIT_BYTES));
    assert_eq!(cgroup_memory(s("18446744073709551616"), None, s("-1"), None), (DEFAULT_USAGE_BYTES, DEFAULT_LIMIT_BYTES));
}

#[test]
fn trimmed_decimals_parse_as_std_does() {
    for t in ["0", "42", "+7", " \t 99\n", "18446744073709551615", "", "+", "-3", "1 2", "++1", "12a", "18446744073709551616", "\u{3000}5\u{2029}", "0007"] {
        assert_eq!(parse_trimmed_u64(t), t.trim().parse::<u64>().ok(), "{:?}", t);
    }
}
