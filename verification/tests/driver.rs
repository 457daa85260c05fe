use wordfreq::driver::{Action, Driver, Phase, BATCH_SIZE, PAUSE_MILLIS};

fn numbered_lines(n: usize) -> Vec<String> {
    let mut lines = Vec::new();
    let mut i = 0;
    while i < n {
        lines.push(format!("line w{}", i % 3));
        i += 1;
    }
    lines
}

fn run_to_end(mut driver: Driver) -> (Vec<u64>, Vec<String>) {
    let mut pauses = Vec::new();
    loop {
        let (next, action) = driver.step();
        driver = next;
        match action {
            Action::Pause(millis) => pauses.push(millis),
            Action::Emit(out) => return (pauses, out),
            Action::Stop => panic!("stopped before the output was handed out"),
        }
    }
}

#[test]
fn pacing_constants() {
    assert_eq!(BATCH_SIZE, 10000);
    assert_eq!(PAUSE_MILLIS, 10);
}

#[test]
fn empty_input_has_no_batches_and_no_output() {
    let (pauses, out) = run_to_end(Driver::new(Vec::new()));
    assert_eq!(pauses, Vec::<u64>::new());
    assert_eq!(out, Vec::<String>::new());
}

#[test]
fn a_short_input_is_one_batch() {
    let lines = vec![String::from("the the the"), String::from("dog dog dog")];
    let (pauses, out) = run_to_end(Driver::new(lines));
    assert_eq!(pauses, vec![10]);
    assert_eq!(out, vec!["dog: 3", "the: 3"]);
}

#[test]
fn exactly_one_full_batch() {
    let (pauses, out) = run_to_end(Driver::new(numbered_lines(10000)));
    assert_eq!(pauses, vec![10]);
    assert_eq!(out, vec!["line: 10000", "w0: 3334", "w1: 3333", "w2: 3333"]);
}

#[test]
fn one_line_more_than_a_batch_is_two_batches() {
    let (pauses, out) = run_to_end(Driver::new(numbered_lines(10001)));
    assert_eq!(pauses, vec![10, 10]);
    assert_eq!(out, vec!["line: 10001", "w0: 3334", "w1: 3334", "w2: 3333"]);
}

#[test]
fn the_last_batch_may_be_smaller() {
    let (pauses, out) = run_to_end(Driver::new(numbered_lines(25000)));
    assert_eq!(pauses, vec![10, 10, 10]);
    assert_eq!(out, vec!["line: 25000", "w0: 8334", "w1: 8333", "w2: 8333"]);
}

#[test]
fn the_table_grows_batch_by_batch() {
    let lines = vec![
        String::from("a b"),
        String::from("a c"),
        String::from("a d"),
        String::from("a e"),
        String::from("a"),
    ];
    let driver = Driver::with_pacing(lines, 2, 7);
    assert!(driver.table().is_empty());

    let (driver, action) = driver.step();
    assert!(matches!(action, Action::Pause(7)));
    assert_eq!(driver.table().keys(), vec!["a", "b", "c"]);
    assert_eq!(driver.table().get("a"), Some(&2));

    let (driver, action) = driver.step();
    assert!(matches!(action, Action::Pause(7)));
    assert_eq!(driver.table().keys(), vec!["a", "b", "c", "d", "e"]);
    assert_eq!(driver.table().get("a"), Some(&4));

    let (driver, action) = driver.step();
    assert!(matches!(action, Action::Pause(7)));
    assert_eq!(driver.table().get("a"), Some(&5));
    assert_eq!(driver.table().len(), 5);

    let (driver, action) = driver.step();
    match action {
        Action::Emit(out) => assert_eq!(out, vec!["a: 5", "b: 1", "c: 1", "d: 1", "e: 1"]),
        _ => panic!("the output was due"),
    }
    assert_eq!(driver.table().get("a"), Some(&5));

    let (driver, action) = driver.step();
    assert!(matches!(action, Action::Stop));
    let (_, action) = driver.step();
    assert!(matches!(action, Action::Stop));
}

#[test]
fn a_pause_of_zero_is_handed_on() {
    let (pauses, out) = run_to_end(Driver::with_pacing(numbered_lines(5), 2, 0));
    assert_eq!(pauses, vec![0, 0, 0]);
    assert_eq!(out, vec!["line: 5", "w0: 2", "w1: 2", "w2: 1"]);
}

#[test]
fn output_does_not_depend_on_the_batch_size() {
    let lines = numbered_lines(97);
    let (_, whole) = run_to_end(Driver::with_pacing(lines.clone(), 97, 10));
    let mut size = 1;
    while size <= 100 {
        let (pauses, out) = run_to_end(Driver::with_pacing(lines.clone(), size, 10));
        assert_eq!(out, whole, "batches of {}", size);
        assert_eq!(pauses.len(), (97 + size - 1) / size, "batches of {}", size);
        size += 1;
    }
    let (pauses, out) = run_to_end(Driver::with_pacing(lines, usize::MAX, 10));
    assert_eq!(out, whole);
    assert_eq!(pauses.len(), 1);
}

#[test]
fn phases_follow_each_other() {
    let lines = vec![String::from("a"), String::from("b"), String::from("c")];
    let driver = Driver::with_pacing(lines, 2, 1);
    assert_eq!(driver.phase(), Phase::Counting);
    let (driver, _) = driver.step();
    assert_eq!(driver.phase(), Phase::Counting);
    let (driver, _) = driver.step();
    assert_eq!(driver.phase(), Phase::Emitting);
    let (driver, _) = driver.step();
    assert_eq!(driver.phase(), Phase::Done);
    let (driver, _) = driver.step();
    assert_eq!(driver.phase(), Phase::Done);
}

#[test]
fn a_run_without_lines_starts_by_emitting() {
    let driver = Driver::new(Vec::new());
    assert_eq!(driver.phase(), Phase::Emitting);
    let (driver, action) = driver.step();
    match action {
        Action::Emit(out) => assert_eq!(out, Vec::<String>::new()),
        _ => panic!("the output was due"),
    }
    assert_eq!(driver.phase(), Phase::Done);
}

#[test]
fn a_long_line_and_many_distinct_words() {
    let mut line = String::new();
    let mut n = 0;
    while n < 20000 {
        line.push_str(&format!("k{} ", (n * 7919) % 20000));
        n += 1;
    }
    let lines = vec![line.clone(), line];
    let (pauses, out) = run_to_end(Driver::new(lines));
    assert_eq!(pauses, vec![10]);
    assert_eq!(out.len(), 20000);
    assert_eq!(out[0], "k0: 2");
    assert_eq!(out[1], "k1: 2");
    assert_eq!(out[2], "k10: 2");
    assert_eq!(out[19999], "k9999: 2");
}

#[test]
fn try_new_refuses_a_batch_size_of_zero() {
    assert!(Driver::try_new(numbered_lines(3), 0, 10).is_none());
    assert!(Driver::try_new(Vec::new(), 0, 10).is_none());
}

#[test]
fn try_new_starts_a_run_like_with_pacing() {
    let lines = vec![String::from("b a"), String::from("a \u{00E9}"), String::from("c")];
    let tried = Driver::try_new(lines.clone(), 2, 5);
    assert!(tried.is_some());
    let (pauses, out) = run_to_end(tried.unwrap());
    assert_eq!(pauses, vec![5, 5]);
    assert_eq!(out, vec!["a: 2", "b: 1", "c: 1", "\u{00E9}: 1"]);
    let (same_pauses, same_out) = run_to_end(Driver::with_pacing(lines, 2, 5));
    assert_eq!(same_pauses, pauses);
    assert_eq!(same_out, out);
}

#[test]
fn try_new_with_the_standard_pacing() {
    let tried = Driver::try_new(numbered_lines(10001), BATCH_SIZE, PAUSE_MILLIS);
    let (pauses, out) = run_to_end(tried.unwrap());
    assert_eq!(pauses, vec![10, 10]);
    assert_eq!(out, vec!["line: 10001", "w0: 3334", "w1: 3334", "w2: 3333"]);
}
