use bf_run::{Progress, Runtime};

fn drain(rt: &mut Runtime) -> Vec<u8> {
    let mut out = Vec::new();
    while let Some(byte) = rt.next_output() {
        out.push(byte);
    }
    out
}

fn run(program: &str) -> Vec<u8> {
    let mut rt = Runtime::new();
    assert_eq!(rt.set_code(program), Ok(()));
    drain(&mut rt)
}

#[test]
fn new_engine_has_no_program() {
    let mut rt = Runtime::new();
    assert_eq!(rt.code(), "");
    assert_eq!(rt.next_output(), None);
    assert_eq!(rt.step(), Progress::Halted);
}

#[test]
fn output_after_two_moves() {
    let mut rt = Runtime::new();
    assert_eq!(rt.set_code(">>+."), Ok(()));
    assert_eq!(rt.next_output(), Some(1));
    assert_eq!(rt.next_output(), None);
}

#[test]
fn loop_runs_once_and_leaves() {
    let mut rt = Runtime::new();
    assert_eq!(rt.set_code("+[-.]"), Ok(()));
    assert_eq!(rt.next_output(), Some(0));
    assert_eq!(rt.next_output(), None);
    assert_eq!(rt.next_output(), None);
}

#[test]
fn loop_on_zero_cell_is_skipped() {
    assert_eq!(run("[+.]++."), vec![2]);
}

#[test]
fn nested_loops_multiply() {
    // 3 * 4 in the second cell.
    assert_eq!(run("+++[>++++<-]>."), vec![12]);
    // 2 * 3 * 5 through two levels.
    assert_eq!(run("++[>+++[>+++++<-]<-]>>."), vec![30]);
}

#[test]
fn hello_world() {
    let program = "+[-->-[>>+>-----<<]<--<---]>-.>>>+.>>..+++[.>]<<<<.+++.------.<<-.>>>>+.";
    assert_eq!(run(program), b"Hello, World!".to_vec());
}

#[test]
fn cell_wraps_upwards() {
    let mut program = "+".repeat(255);
    program.push('.');
    program.push_str("+.");
    assert_eq!(run(&program), vec![255, 0]);
}

#[test]
fn cell_wraps_downwards() {
    assert_eq!(run("-."), vec![255]);
    assert_eq!(run("-.+."), vec![255, 0]);
}

#[test]
fn pointer_wraps_to_the_left() {
    // The cell left of the first is the last: 199 moves to the right
    // from the first cell reach it again.
    let mut program = String::from("<+");
    program.push_str(&">".repeat(200));
    program.push('.');
    program.push_str(&"<".repeat(199));
    program.push('.');
    program.push_str(&">".repeat(199));
    program.push('.');
    assert_eq!(run(&program), vec![1, 0, 1]);
}

#[test]
fn pointer_wraps_to_the_right() {
    let mut program = String::from("+");
    program.push_str(&">".repeat(199));
    program.push('.');
    program.push_str(">.");
    assert_eq!(run(&program), vec![0, 1]);
}

#[test]
fn tape_has_two_hundred_cells() {
    // Marks every cell with its distance from the start, then walks
    // once more round the tape.
    let mut program = String::new();
    for _ in 0..200 {
        program.push_str("+>");
    }
    program.push_str(".>.");
    for _ in 0..198 {
        program.push('>');
    }
    program.push('.');
    assert_eq!(run(&program), vec![1, 1, 1]);
    let mut twice = String::new();
    for _ in 0..201 {
        twice.push_str("+>");
    }
    twice.push_str("<.>.");
    assert_eq!(run(&twice), vec![2, 1]);
}

#[test]
fn balanced_text_is_accepted() {
    let mut rt = Runtime::new();
    assert_eq!(rt.set_code(""), Ok(()));
    assert_eq!(rt.set_code("[]"), Ok(()));
    assert_eq!(rt.set_code("[[][]]"), Ok(()));
    assert_eq!(rt.set_code("+[>[-]<-]."), Ok(()));
    assert_eq!(rt.code(), "+[>[-]<-].");
}

#[test]
fn close_without_open_is_refused() {
    let mut rt = Runtime::new();
    assert_eq!(rt.set_code("]"), Err(()));
    assert_eq!(rt.set_code("]["), Err(()));
    assert_eq!(rt.set_code("[]]"), Err(()));
    assert_eq!(rt.set_code("+[-]+].["), Err(()));
}

#[test]
fn open_loops_are_accepted() {
    let mut rt = Runtime::new();
    assert_eq!(rt.set_code("["), Ok(()));
    assert_eq!(rt.set_code("[[]"), Ok(()));
    assert_eq!(rt.set_code("+[.[-"), Ok(()));
}

#[test]
fn refused_load_leaves_a_new_engine() {
    let mut rt = Runtime::new();
    assert_eq!(rt.set_code("++>+++.+."), Ok(()));
    assert_eq!(rt.next_output(), Some(3));
    assert_eq!(rt.set_code("+.]"), Err(()));
    assert_eq!(rt.code(), "");
    assert_eq!(rt.next_output(), None);
    assert_eq!(rt.step(), Progress::Halted);
    // Tape and pointers are those of a new engine.
    assert_eq!(rt.append_code(".<.>>."), Ok(()));
    assert_eq!(drain(&mut rt), vec![0, 0, 0]);
}

#[test]
fn refused_append_leaves_the_engine_alone() {
    let mut rt = Runtime::new();
    assert_eq!(rt.set_code("+[-]"), Ok(()));
    assert_eq!(rt.append_code("+.]"), Err(()));
    assert_eq!(rt.code(), "+[-]");
    assert_eq!(rt.append_code("+."), Ok(()));
    assert_eq!(rt.code(), "+[-]+.");
    assert_eq!(drain(&mut rt), vec![1]);
}

#[test]
fn load_resets_tape_and_pointers() {
    let mut rt = Runtime::new();
    assert_eq!(rt.set_code("+++>++."), Ok(()));
    assert_eq!(rt.next_output(), Some(2));
    assert_eq!(rt.set_code(".<.>>."), Ok(()));
    assert_eq!(drain(&mut rt), vec![0, 0, 0]);
}

#[test]
fn append_keeps_tape_and_pointers() {
    let mut rt = Runtime::new();
    assert_eq!(rt.set_code("+++>++."), Ok(()));
    assert_eq!(rt.next_output(), Some(2));
    assert_eq!(rt.append_code(".<."), Ok(()));
    assert_eq!(rt.code(), "+++>++..<.");
    assert_eq!(drain(&mut rt), vec![2, 3]);
}

#[test]
fn append_after_the_end_runs_on() {
    let mut rt = Runtime::new();
    assert_eq!(rt.set_code("+."), Ok(()));
    assert_eq!(rt.next_output(), Some(1));
    assert_eq!(rt.next_output(), None);
    assert_eq!(rt.next_output(), None);
    assert_eq!(rt.append_code("+."), Ok(()));
    assert_eq!(rt.next_output(), Some(2));
    assert_eq!(rt.next_output(), None);
}

#[test]
fn append_closes_loops_left_open() {
    let mut rt = Runtime::new();
    assert_eq!(rt.set_code("+++[>++[>+"), Ok(()));
    assert_eq!(rt.append_code("<-]"), Ok(()));
    assert_eq!(rt.append_code("<-"), Ok(()));
    assert_eq!(rt.append_code("]>>."), Ok(()));
    assert_eq!(rt.append_code("]"), Err(()));
    assert_eq!(drain(&mut rt), vec![6]);
}

#[test]
fn append_equals_load_of_the_whole() {
    let parts = [
        ("+[-", ".]"),
        ("++[>+++", "<-]>."),
        ("+.", "+."),
        ("", "+[.-]"),
        ("+[.-]", ""),
        ("+[[", "-.]]+."),
    ];
    for (first, second) in parts {
        let mut whole = Runtime::new();
        assert_eq!(whole.set_code(&format!("{first}{second}")), Ok(()));
        let mut grown = Runtime::new();
        assert_eq!(grown.set_code(first), Ok(()));
        assert_eq!(grown.append_code(second), Ok(()));
        assert_eq!(grown.code(), whole.code());
        assert_eq!(drain(&mut grown), drain(&mut whole));
    }
}

#[test]
fn open_loop_on_zero_cell_waits_for_its_end() {
    let mut rt = Runtime::new();
    assert_eq!(rt.set_code("["), Ok(()));
    assert_eq!(rt.next_output(), None);
    assert_eq!(rt.step(), Progress::Halted);
    assert_eq!(rt.append_code("+.]+."), Ok(()));
    assert_eq!(rt.next_output(), Some(1));
    assert_eq!(rt.next_output(), None);
}

#[test]
fn open_loop_on_other_cell_is_entered() {
    let mut rt = Runtime::new();
    assert_eq!(rt.set_code("+[."), Ok(()));
    assert_eq!(rt.next_output(), Some(1));
    assert_eq!(rt.next_output(), None);
    assert_eq!(rt.append_code("-]+++."), Ok(()));
    assert_eq!(rt.next_output(), Some(3));
}

#[test]
fn comment_marker_does_nothing() {
    assert_eq!(run("#+#[#-#.#]#"), run("+[-.]"));
    assert_eq!(run("++#[>#+++<-#]>.#"), vec![6]);
    assert_eq!(run("++[>+++<-]>."), vec![6]);
    assert_eq!(run("####"), Vec::<u8>::new());
}

#[test]
fn other_bytes_do_nothing() {
    assert_eq!(run("a+ b+\n.,"), vec![2]);
    assert_eq!(run("+\u{e9}[\u{1f600}-.]\u{221e}"), vec![0]);
    let mut rt = Runtime::new();
    assert_eq!(rt.set_code("caf\u{e9}+."), Ok(()));
    assert_eq!(rt.code(), "caf\u{e9}+.");
    assert_eq!(rt.append_code("\u{1f600}+."), Ok(()));
    assert_eq!(rt.code(), "caf\u{e9}+.\u{1f600}+.");
    assert_eq!(drain(&mut rt), vec![1, 2]);
}

#[test]
fn runs_are_repeatable() {
    let program = "++++[>++++<-]>[.-]";
    let first = run(program);
    let second = run(program);
    assert_eq!(first.len(), 16);
    assert_eq!(first[0], 16);
    assert_eq!(first[15], 1);
    assert_eq!(first, second);
}

#[test]
fn step_runs_one_instruction() {
    let mut rt = Runtime::new();
    assert_eq!(rt.set_code("+[-].+."), Ok(()));
    assert_eq!(rt.step(), Progress::Running);
    assert_eq!(rt.step(), Progress::Running);
    assert_eq!(rt.step(), Progress::Running);
    assert_eq!(rt.step(), Progress::Running);
    assert_eq!(rt.step(), Progress::Output(0));
    assert_eq!(rt.step(), Progress::Running);
    assert_eq!(rt.step(), Progress::Output(1));
    assert_eq!(rt.step(), Progress::Halted);
    assert_eq!(rt.step(), Progress::Halted);
}

#[test]
fn step_jumps_over_a_skipped_loop() {
    let mut rt = Runtime::new();
    assert_eq!(rt.set_code("[+++.]."), Ok(()));
    assert_eq!(rt.step(), Progress::Running);
    assert_eq!(rt.step(), Progress::Output(0));
    assert_eq!(rt.step(), Progress::Halted);
}

#[test]
fn reset_starts_the_program_again() {
    let mut rt = Runtime::new();
    assert_eq!(rt.set_code("+.>++."), Ok(()));
    assert_eq!(rt.next_output(), Some(1));
    assert_eq!(rt.next_output(), Some(2));
    rt.reset_execution();
    assert_eq!(rt.code(), "+.>++.");
    assert_eq!(drain(&mut rt), vec![1, 2]);
    rt.reset_execution();
    assert_eq!(rt.next_output(), Some(1));
    rt.reset_execution();
    assert_eq!(drain(&mut rt), vec![1, 2]);
}

#[test]
fn with_code_loads_the_program() {
    let mut rt = Runtime::with_code(String::from("++[>+<-]>."));
    assert_eq!(rt.code(), "++[>+<-]>.");
    assert_eq!(drain(&mut rt), vec![2]);
}

#[test]
fn with_code_refuses_like_a_load() {
    let mut rt = Runtime::with_code(String::from("+.]"));
    assert_eq!(rt.code(), "");
    assert_eq!(rt.next_output(), None);
    assert_eq!(rt.set_code("+."), Ok(()));
    assert_eq!(rt.next_output(), Some(1));
}

#[test]
fn remove_append_code_appends() {
    let mut rt = Runtime::new();
    assert_eq!(rt.set_code("+[-"), Ok(()));
    assert_eq!(rt.remove_append_code(2, ".]"), Ok(()));
    assert_eq!(rt.code(), "+[-.]");
    assert_eq!(rt.remove_append_code(0, "]"), Err(()));
    assert_eq!(rt.code(), "+[-.]");
    assert_eq!(drain(&mut rt), vec![0]);
}

#[test]
fn shorter_program_after_longer() {
    let mut rt = Runtime::new();
    assert_eq!(rt.set_code("+[>+[>+<-]<-]>>."), Ok(()));
    assert_eq!(drain(&mut rt), vec![1]);
    assert_eq!(rt.set_code("[]+."), Ok(()));
    assert_eq!(drain(&mut rt), vec![1]);
    assert_eq!(rt.append_code("[-]."), Ok(()));
    assert_eq!(drain(&mut rt), vec![0]);
}
