use bf_rs::calculate_jumps;
use bf_rs::cleanup;
use bf_rs::Jumps;
use bf_rs::JumpsError;
use bf_rs::Machine;

const BUDGET: u64 = 1_000_000;

#[test]
fn cleanup_drops_everything_else() {
    let input = "+- [[--<>]] comment";
    assert_eq!(cleanup(input), "+-[[--<>]]");
}

#[test]
fn cleanup_keeps_output_symbol() {
    assert_eq!(cleanup("a.b,c"), ".");
}

#[test]
fn cleanup_preserves_order() {
    let input = "say + then - then [ loop . ] done < and >";
    assert_eq!(cleanup(input), "+-[.]<>");
}

#[test]
fn cleanup_empty() {
    assert_eq!(cleanup(""), "");
    assert_eq!(cleanup("no instructions at all"), "");
}

#[test]
fn empty_table_has_no_matches() {
    let j = Jumps::new();
    assert_eq!(j.right(0), Err(()));
    assert_eq!(j.left(0), Err(()));
}

#[test]
fn jumps_simple_pair() {
    let j = calculate_jumps("[]").unwrap();
    assert_eq!(j.right(0), Ok(1));
    assert_eq!(j.left(1), Ok(0));
    assert_eq!(j.right(1), Err(()));
    assert_eq!(j.left(0), Err(()));
}

#[test]
fn jumps_nested_pairs() {
    let j = calculate_jumps("[[]]").unwrap();
    assert_eq!(j.right(0), Ok(3));
    assert_eq!(j.right(1), Ok(2));
    assert_eq!(j.left(2), Ok(1));
    assert_eq!(j.left(3), Ok(0));
}

#[test]
fn jumps_siblings_between_instructions() {
    let j = calculate_jumps("+[-]>[<]").unwrap();
    assert_eq!(j.right(1), Ok(3));
    assert_eq!(j.left(3), Ok(1));
    assert_eq!(j.right(5), Ok(7));
    assert_eq!(j.left(7), Ok(5));
    assert_eq!(j.right(0), Err(()));
}

#[test]
fn jumps_inverse_round_trip() {
    let program = "[[][[]]][]";
    let j = calculate_jumps(program).unwrap();
    for (i, c) in program.chars().enumerate() {
        if c == '[' {
            let close = j.right(i).unwrap();
            assert_eq!(j.left(close), Ok(i));
        } else {
            let open = j.left(i).unwrap();
            assert_eq!(j.right(open), Ok(i));
        }
    }
}

#[test]
fn unmatched_close_is_fatal() {
    assert!(matches!(calculate_jumps("]"), Err(JumpsError::UnmatchedClose(0))));
    assert!(matches!(calculate_jumps("+]"), Err(JumpsError::UnmatchedClose(1))));
    assert!(matches!(calculate_jumps("[]]"), Err(JumpsError::UnmatchedClose(2))));
    assert!(matches!(calculate_jumps("]["), Err(JumpsError::UnmatchedClose(0))));
}

#[test]
fn unmatched_open_is_fatal() {
    assert!(matches!(calculate_jumps("["), Err(JumpsError::UnmatchedOpen)));
    assert!(matches!(calculate_jumps("[[]"), Err(JumpsError::UnmatchedOpen)));
    assert!(matches!(calculate_jumps("[+["), Err(JumpsError::UnmatchedOpen)));
}

#[test]
fn malformed_program_never_executes() {
    // the engine refuses the program before any instruction runs
    assert!(matches!(Machine::new("+]"), Err(JumpsError::UnmatchedClose(1))));
    assert!(matches!(Machine::new("+["), Err(JumpsError::UnmatchedOpen)));
}

#[test]
fn empty_program_halts_at_once() {
    let mut m = Machine::new("").unwrap();
    assert!(m.run(BUDGET));
    assert!(m.is_halted());
    assert_eq!(m.output().len(), 0);
    assert_eq!(m.pc(), 0);
    assert_eq!(m.ptr(), 0);
}

#[test]
fn cell_increment_wraps_modulo_256() {
    let program: String = "+".repeat(256);
    let mut m = Machine::new(&program).unwrap();
    assert!(m.run(BUDGET));
    assert_eq!(m.tape()[0], 0);
}

#[test]
fn cell_decrement_of_zero_yields_255() {
    let mut m = Machine::new("-").unwrap();
    assert!(m.run(BUDGET));
    assert_eq!(m.tape()[0], 255);
}

#[test]
fn cell_partial_wrap() {
    let program: String = "+".repeat(260);
    let mut m = Machine::new(&program).unwrap();
    assert!(m.run(BUDGET));
    assert_eq!(m.tape()[0], 4);
}

#[test]
fn pointer_underflow_halts_silently() {
    // the decrement wraps the pointer far outside the tape, so the run
    // halts without executing the output instruction that follows
    let mut m = Machine::new("<+.").unwrap();
    assert!(m.run(BUDGET));
    assert!(m.is_halted());
    assert_eq!(m.output().len(), 0);
    assert_eq!(m.ptr(), usize::MAX);
    assert_eq!(m.tape()[0], 0);
}

#[test]
fn output_before_underflow_survives() {
    let mut m = Machine::new("+.<.").unwrap();
    assert!(m.run(BUDGET));
    assert_eq!(m.output().as_slice(), [1u8].as_slice());
}

#[test]
fn loop_drains_into_sum() {
    let mut m = Machine::new("++>+++[-<+>]").unwrap();
    assert!(m.run(BUDGET));
    assert_eq!(m.tape()[0], 5);
    assert_eq!(m.tape()[1], 0);
    assert_eq!(m.pc(), 12);
    assert_eq!(m.output().len(), 0);
}

#[test]
fn output_single_byte() {
    let mut m = Machine::new("+++++.").unwrap();
    assert!(m.run(BUDGET));
    assert_eq!(m.output().as_slice(), [5u8].as_slice());
}

#[test]
fn zero_iteration_loop_does_nothing() {
    let mut m = Machine::new("[+]").unwrap();
    assert!(m.run(BUDGET));
    assert_eq!(m.tape()[0], 0);
    assert_eq!(m.output().len(), 0);
    assert_eq!(m.pc(), 3);
}

#[test]
fn run_in_small_budgets_resumes() {
    let mut m = Machine::new("+++++.").unwrap();
    let mut done = false;
    for _ in 0..10 {
        done = m.run(1);
        if done {
            break;
        }
    }
    assert!(done);
    assert_eq!(m.output().as_slice(), [5u8].as_slice());
}

#[test]
fn zero_budget_makes_no_progress() {
    let mut m = Machine::new("+").unwrap();
    assert!(!m.run(0));
    assert_eq!(m.tape()[0], 0);
    assert!(m.run(BUDGET));
    assert_eq!(m.tape()[0], 1);
}

#[test]
fn sanitize_then_run() {
    let program = cleanup("two plus three: ++ > +++ [- < + >] < output: .");
    let mut m = Machine::new(&program).unwrap();
    assert!(m.run(BUDGET));
    assert_eq!(m.output().as_slice(), [5u8].as_slice());
}

#[test]
fn moves_work_between_cells() {
    let mut m = Machine::new("+>++>+++<").unwrap();
    assert!(m.run(BUDGET));
    assert_eq!(m.tape()[0], 1);
    assert_eq!(m.tape()[1], 2);
    assert_eq!(m.tape()[2], 3);
    assert_eq!(m.ptr(), 1);
}
