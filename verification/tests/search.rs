use basic_backtrack::counters::InstrumentationCounters;
use basic_backtrack::engine::{search, SearchEngine};
use basic_backtrack::machine::Step;
use basic_backtrack::registers::{ConfigurationError, MAX_BOARD_SIZE};

fn counts(n: usize) -> (u64, u64) {
    let outcome = search(n).expect("board fits the registers");
    (outcome.solution_count, outcome.memory_access_count)
}

/// Conflict-free placements of `k` queens in the first `k` rows, by brute
/// force over an explicit list.
fn placements_by_scan(n: usize) -> Vec<Vec<usize>> {
    let mut level: Vec<Vec<usize>> = vec![Vec::new()];
    let mut all: Vec<Vec<usize>> = Vec::new();
    for _ in 0..n {
        let mut next: Vec<Vec<usize>> = Vec::new();
        for p in &level {
            for t in 1..=n {
                if !attacked_by_scan(p, t) {
                    let mut q = p.clone();
                    q.push(t);
                    next.push(q);
                }
            }
        }
        all.extend(next.iter().cloned());
        level = next;
    }
    all
}

fn attacked_by_scan(p: &[usize], t: usize) -> bool {
    let l = p.len() + 1;
    for (i, &c) in p.iter().enumerate() {
        let r = i + 1;
        if c == t || c + r == t + l || c + l == t + r {
            return true;
        }
    }
    false
}

#[test]
fn solution_counts_for_boards_one_to_eight() {
    let expected: [u64; 8] = [1, 0, 0, 2, 10, 4, 40, 92];
    for n in 1..=8usize {
        assert_eq!(counts(n).0, expected[n - 1]);
    }
}

#[test]
fn eight_queens_access_count() {
    assert_eq!(counts(8), (92, 4112));
}

#[test]
fn empty_board_has_one_solution_and_no_access() {
    assert_eq!(counts(0), (1, 0));
}

#[test]
fn one_queen_board() {
    assert_eq!(counts(1), (1, 2));
}

#[test]
fn two_and_three_queens_boards_visit_nodes_without_solutions() {
    assert_eq!(counts(2), (0, 4));
    assert_eq!(counts(3), (0, 2 * (3 + 2)));
}

#[test]
fn access_count_is_twice_the_nodes_below_the_root() {
    for n in 0..=7usize {
        let nodes = placements_by_scan(n);
        let complete = nodes.iter().filter(|p| p.len() == n).count() as u64;
        let (solutions, accesses) = counts(n);
        assert_eq!(accesses, 2 * nodes.len() as u64);
        if n > 0 {
            assert_eq!(solutions, complete);
        }
    }
}

#[test]
fn repeated_searches_agree() {
    for n in 0..=8usize {
        assert_eq!(search(n), search(n));
    }
}

#[test]
fn engines_do_not_share_state() {
    let mut first = SearchEngine::new(6).unwrap();
    let mut second = SearchEngine::new(6).unwrap();
    first.run();
    assert_eq!(second.counters(), InstrumentationCounters::new());
    second.run();
    assert_eq!(first.counters(), second.counters());
    assert_eq!(first.counters().solution_count, 4);
}

#[test]
fn four_queens_solutions_in_order_of_discovery() {
    let mut engine = SearchEngine::new(4).unwrap();
    let mut found: Vec<Vec<usize>> = Vec::new();
    while !engine.is_finished() {
        let before = engine.counters().solution_count;
        engine.step();
        if engine.counters().solution_count > before {
            found.push(engine.placement());
        }
    }
    assert_eq!(found, vec![vec![2, 4, 1, 3], vec![3, 1, 4, 2]]);
    assert_eq!(engine.counters().solution_count, 2);
}

#[test]
fn run_equals_stepping_to_the_end() {
    let mut stepped = SearchEngine::new(5).unwrap();
    while !stepped.is_finished() {
        stepped.step();
    }
    let mut ran = SearchEngine::new(5).unwrap();
    ran.run();
    assert!(ran.is_finished());
    assert_eq!(stepped.counters(), ran.counters());
    assert_eq!(ran.counters().solution_count, 10);
}

#[test]
fn registers_agree_with_a_scan_of_the_trail() {
    for n in 1..=6usize {
        let mut engine = SearchEngine::new(n).unwrap();
        while !engine.is_finished() {
            if engine.current_step() == Step::TryColumn {
                let placed = engine.placement();
                assert_eq!(placed.len(), engine.level() - 1);
                for t in 1..=n {
                    assert_eq!(
                        engine.registers().conflict(t, engine.level()),
                        attacked_by_scan(&placed, t)
                    );
                }
            }
            engine.step();
        }
    }
}

#[test]
fn trial_columns_rise_within_a_visit_of_a_row() {
    let n = 5usize;
    let mut engine = SearchEngine::new(n).unwrap();
    // Last column tried in each row during the visit that is under way.
    let mut last: Vec<usize> = vec![0; n + 2];
    while !engine.is_finished() {
        match engine.current_step() {
            Step::EnterLevel => last[engine.level()] = 0,
            Step::TryColumn => {
                let l = engine.level();
                assert!(engine.trial() > last[l]);
                assert!(engine.trial() <= n);
                last[l] = engine.trial();
            }
            _ => {}
        }
        engine.step();
    }
}

#[test]
fn first_transitions_follow_the_state_machine() {
    let mut engine = SearchEngine::new(4).unwrap();
    assert_eq!(engine.board_size(), 4);
    assert_eq!(engine.current_step(), Step::Initialize);
    engine.step();
    assert_eq!((engine.current_step(), engine.level()), (Step::EnterLevel, 1));
    engine.step();
    assert_eq!((engine.current_step(), engine.level(), engine.trial()), (Step::TryColumn, 1, 1));
    engine.step();
    assert_eq!((engine.current_step(), engine.level()), (Step::EnterLevel, 2));
    assert_eq!(engine.counters().memory_access_count, 1);
    assert_eq!(engine.placement(), vec![1]);
    engine.step();
    assert_eq!((engine.current_step(), engine.level(), engine.trial()), (Step::TryColumn, 2, 1));
    engine.step();
    assert_eq!((engine.current_step(), engine.level(), engine.trial()), (Step::Advance, 2, 1));
    engine.step();
    assert_eq!((engine.current_step(), engine.level(), engine.trial()), (Step::TryColumn, 2, 2));
    engine.step();
    assert_eq!(engine.current_step(), Step::Advance);
    engine.step();
    assert_eq!((engine.current_step(), engine.trial()), (Step::TryColumn, 3));
    engine.step();
    assert_eq!((engine.current_step(), engine.level()), (Step::EnterLevel, 3));
    assert_eq!(engine.placement(), vec![1, 3]);
    assert_eq!(engine.counters().memory_access_count, 2);
}

#[test]
fn board_that_does_not_fit_is_refused() {
    assert_eq!(MAX_BOARD_SIZE, 31);
    assert!(SearchEngine::new(31).is_ok());
    assert_eq!(SearchEngine::new(32).err(), Some(ConfigurationError { board_size: 32 }));
    assert_eq!(search(33), Err(ConfigurationError { board_size: 33 }));
    assert_eq!(search(usize::MAX), Err(ConfigurationError { board_size: usize::MAX }));
}

#[test]
fn refused_engine_never_starts() {
    let made = SearchEngine::new(40);
    assert!(made.is_err());
    let fits = SearchEngine::new(3).unwrap();
    assert_eq!(fits.current_step(), Step::Initialize);
    assert_eq!(fits.counters(), InstrumentationCounters::new());
}
