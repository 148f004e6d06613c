use basic_backtrack::alc::Shape;
use basic_backtrack::counters::InstrumentationCounters;
use basic_backtrack::dlink::Table;
use basic_backtrack::nn::Config;
use basic_backtrack::registers::{reg_r, reg_w, ConfigurationError, ConstraintRegisters};
use basic_backtrack::trail::PlacementTrail;

#[test]
fn reg_r_reads_single_bits() {
    assert_eq!(reg_r(0b1010, 0), 0);
    assert_eq!(reg_r(0b1010, 1), 1);
    assert_eq!(reg_r(0b1010, 3), 1);
    assert_eq!(reg_r(1u64 << 63, 63), 1);
    assert_eq!(reg_r(u64::MAX - 4, 2), 0);
}

#[test]
fn reg_w_sets_and_clears_one_bit() {
    let mut x: u64 = 0;
    reg_w(&mut x, 5, 1);
    assert_eq!(x, 32);
    reg_w(&mut x, 0, 3);
    assert_eq!(x, 33);
    reg_w(&mut x, 5, 0);
    assert_eq!(x, 1);
    reg_w(&mut x, 0, 2);
    assert_eq!(x, 0);
    reg_w(&mut x, 63, 1);
    assert_eq!(x, 1u64 << 63);
}

#[test]
fn registers_report_column_and_diagonal_conflicts() {
    let mut regs = ConstraintRegisters::new(8).unwrap();
    for t in 1..=8 {
        for l in 1..=8 {
            assert!(!regs.conflict(t, l));
        }
    }
    regs.place(4, 3);
    for t in 1..=8usize {
        for l in 1..=8usize {
            let expected = t == 4 || t + l == 7 || t + 3 == 4 + l;
            assert_eq!(regs.conflict(t, l), expected);
        }
    }
    regs.remove(4, 3);
    for t in 1..=8 {
        for l in 1..=8 {
            assert!(!regs.conflict(t, l));
        }
    }
}

#[test]
fn registers_keep_other_queens_when_one_is_removed() {
    let mut regs = ConstraintRegisters::new(6).unwrap();
    regs.place(1, 1);
    regs.place(3, 2);
    regs.remove(3, 2);
    assert!(regs.conflict(1, 4));
    assert!(regs.conflict(3, 3));
    assert!(!regs.conflict(3, 2));
}

#[test]
fn registers_refuse_large_boards() {
    assert!(ConstraintRegisters::new(0).is_ok());
    assert!(ConstraintRegisters::new(31).is_ok());
    assert_eq!(ConstraintRegisters::new(32).err(), Some(ConfigurationError { board_size: 32 }));
}

#[test]
fn largest_board_uses_its_highest_diagonals() {
    let mut regs = ConstraintRegisters::new(31).unwrap();
    regs.place(31, 31);
    assert!(regs.conflict(31, 1));
    assert!(regs.conflict(30, 30));
    assert!(!regs.conflict(30, 31));
    regs.remove(31, 31);
    regs.place(31, 1);
    assert!(regs.conflict(30, 2));
    assert!(!regs.conflict(30, 1));
}

#[test]
fn trail_counts_every_read_and_write() {
    let mut counters = InstrumentationCounters::new();
    let mut trail = PlacementTrail::new(4);
    trail.set(1, 3, &mut counters);
    trail.set(4, 2, &mut counters);
    assert_eq!(counters.memory_access_count, 2);
    assert_eq!(trail.get(1, &mut counters), 3);
    assert_eq!(trail.get(4, &mut counters), 2);
    assert_eq!(trail.get(2, &mut counters), 0);
    assert_eq!(counters.memory_access_count, 5);
    assert_eq!(counters.solution_count, 0);
    assert_eq!(trail.peek(1), 3);
    assert_eq!(counters.memory_access_count, 5);
}

#[test]
fn counters_stop_at_their_largest_value() {
    let mut counters =
        InstrumentationCounters { solution_count: u64::MAX - 1, memory_access_count: u64::MAX };
    counters.visit_solution();
    assert_eq!(counters.solution_count, u64::MAX);
    counters.visit_solution();
    assert_eq!(counters.solution_count, u64::MAX);
    counters.record_access();
    assert_eq!(counters.memory_access_count, u64::MAX);
}

#[test]
fn counters_count_one_at_a_time() {
    let mut counters = InstrumentationCounters::new();
    counters.visit_solution();
    counters.record_access();
    counters.record_access();
    assert_eq!(counters, InstrumentationCounters { solution_count: 1, memory_access_count: 2 });
}

#[test]
fn table_links_headers_into_a_ring() {
    let table: Table<u8> = Table::new(3, 5);
    assert_eq!(table.linked_count(), 4);
    assert_eq!(table.reserved_count(), 9);
    assert_eq!(
        (0..4).map(|i| table.right_of(i)).collect::<Vec<usize>>(),
        vec![1, 2, 3, 0]
    );
    assert_eq!(
        (0..4).map(|i| table.left_of(i)).collect::<Vec<usize>>(),
        vec![3, 0, 1, 2]
    );
}

#[test]
fn table_without_headers_is_the_entry_node_alone() {
    let table: Table<u8> = Table::new(0, 0);
    assert_eq!(table.linked_count(), 1);
    assert_eq!(table.reserved_count(), 1);
    assert_eq!(table.left_of(0), 0);
    assert_eq!(table.right_of(0), 0);
}

#[test]
fn shape_of_a_vector() {
    let shape = Shape::r1(7);
    assert_eq!(shape.rank, 1);
    assert_eq!(shape.dims, [7, 0, 0, 0]);
}

#[test]
fn config_holds_layer_sizes() {
    let cfg = Config { in_size: 32, hidden_size: 128, out_size: 16 };
    assert_eq!((cfg.in_size, cfg.hidden_size, cfg.out_size), (32, 128, 16));
}
