use flatdir::pipeline::{advance, emit, exit_status, flatten, run, Event, Phase};
use flatdir::emitter::Emitter;
use flatdir::snapshot::{Item, Node, Snapshot};
use flatdir::survey::{survey, Job};

fn file(name: &[u8], data: &[u8]) -> Node {
    Node { name: name.to_vec(), item: Item::File(Some(data.to_vec())) }
}

fn unreadable(name: &[u8]) -> Node {
    Node { name: name.to_vec(), item: Item::File(None) }
}

fn dir(name: &[u8], entries: Vec<Node>) -> Node {
    Node { name: name.to_vec(), item: Item::Directory(Snapshot { entries }) }
}

#[test]
fn one_file_becomes_one_line() {
    let root = Snapshot { entries: vec![file(b"a.txt", b"hello\n\nworld")] };
    let outcome = flatten(&root, b".", b".txt", 1024);
    assert_eq!(outcome.output, b"./a.txt\thello world\n".to_vec());
    assert_eq!(outcome.phase, Phase::Closed);
    assert_eq!(exit_status(outcome.phase), 0);
}

#[test]
fn a_file_in_a_hidden_directory_never_appears() {
    let root = Snapshot {
        entries: vec![dir(b".hidden", vec![file(b"file.txt", b"secret")]), file(b"b.txt", b"seen")],
    };
    let outcome = flatten(&root, b"root", b".txt", 1024);
    assert_eq!(outcome.output, b"root/b.txt\tseen\n".to_vec());
    assert_eq!(outcome.phase, Phase::Closed);
}

#[test]
fn an_empty_directory_gives_no_lines_and_succeeds() {
    let root = Snapshot { entries: Vec::new() };
    let outcome = flatten(&root, b".", b".txt", 1024);
    assert!(outcome.output.is_empty());
    assert_eq!(outcome.phase, Phase::Closed);
    assert_eq!(exit_status(outcome.phase), 0);
}

#[test]
fn a_file_that_cannot_be_read_fails_the_run_after_the_earlier_records() {
    let root = Snapshot {
        entries: vec![
            file(b"a.txt", b"first"),
            file(b"b.txt", b"second"),
            unreadable(b"c.txt"),
            file(b"d.txt", b"never written"),
        ],
    };
    let outcome = flatten(&root, b".", b".txt", 1024);
    assert_eq!(outcome.output, b"./a.txt\tfirst\n./b.txt\tsecond\n".to_vec());
    assert_eq!(outcome.phase, Phase::Failed);
    assert_ne!(exit_status(outcome.phase), 0);
}

#[test]
fn a_file_that_cannot_be_read_fails_the_run_with_a_small_queue() {
    let root = Snapshot {
        entries: vec![file(b"a.txt", b"1"), unreadable(b"b.txt"), file(b"c.txt", b"3"), file(b"d.txt", b"4")],
    };
    for capacity in 1..=5usize {
        let outcome = flatten(&root, b".", b".txt", capacity);
        assert_eq!(outcome.output, b"./a.txt\t1\n".to_vec());
        assert_eq!(outcome.phase, Phase::Failed);
    }
}

#[test]
fn an_unreadable_file_that_does_not_match_is_never_read() {
    let root = Snapshot { entries: vec![unreadable(b"x.bin"), file(b"a.txt", b"ok")] };
    let outcome = flatten(&root, b".", b".txt", 8);
    assert_eq!(outcome.output, b"./a.txt\tok\n".to_vec());
    assert_eq!(outcome.phase, Phase::Closed);
}

#[test]
fn a_small_queue_does_not_stop_the_walker() {
    let root = Snapshot {
        entries: vec![
            file(b"5.txt", b"e"),
            file(b"3.txt", b"c"),
            dir(b"sub", vec![file(b"7.txt", b"g"), file(b"6.txt", b"f")]),
            file(b"1.txt", b"a"),
            file(b"4.txt", b"d"),
            file(b"2.txt", b"b"),
        ],
    };
    let expected =
        b"./1.txt\ta\n./2.txt\tb\n./3.txt\tc\n./4.txt\td\n./5.txt\te\n./sub/6.txt\tf\n./sub/7.txt\tg\n".to_vec();
    for capacity in [1usize, 2, 3, 6, 7, 8, 1024] {
        let outcome = flatten(&root, b".", b".txt", capacity);
        assert_eq!(outcome.output, expected);
        assert_eq!(outcome.phase, Phase::Closed);
    }
}

#[test]
fn records_come_in_the_order_published() {
    let root = Snapshot {
        entries: vec![
            dir(b"b", vec![file(b"x.md", b"bx")]),
            file(b"z.md", b"z"),
            dir(b"a", vec![file(b"y.md", b" a y ")]),
        ],
    };
    let outcome = flatten(&root, b".", b".md", 2);
    assert_eq!(outcome.output, b"./z.md\tz\n./a/y.md\t a y \n./b/x.md\tbx\n".to_vec());
}

#[test]
fn survey_pairs_each_path_with_its_contents() {
    let root = Snapshot {
        entries: vec![file(b"b.c", b"bb"), unreadable(b"a.c"), dir(b"d", vec![file(b"e.c", b"ee")])],
    };
    let jobs = survey(&root, b".", b".c");
    assert_eq!(jobs.len(), 3);
    assert_eq!(jobs[0].path, b"./a.c".to_vec());
    assert_eq!(jobs[0].content, None);
    assert_eq!(jobs[1].path, b"./b.c".to_vec());
    assert_eq!(jobs[1].content, Some(b"bb".to_vec()));
    assert_eq!(jobs[2].path, b"./d/e.c".to_vec());
    assert_eq!(jobs[2].content, Some(b"ee".to_vec()));
}

#[test]
fn run_writes_the_jobs_it_is_given() {
    let jobs = vec![
        Job { path: b"p".to_vec(), content: Some(b"a\tb".to_vec()) },
        Job { path: b"q".to_vec(), content: Some(Vec::new()) },
    ];
    let outcome = run(&jobs, 1);
    assert_eq!(outcome.output, b"p\ta b\nq\t\n".to_vec());
    assert_eq!(outcome.phase, Phase::Closed);
}

#[test]
fn run_of_nothing_closes() {
    let outcome = run(&Vec::new(), 1);
    assert!(outcome.output.is_empty());
    assert_eq!(outcome.phase, Phase::Closed);
}

#[test]
fn run_fails_at_once_where_the_first_file_cannot_be_read() {
    let jobs = vec![Job { path: b"p".to_vec(), content: None }, Job { path: b"q".to_vec(), content: Some(Vec::new()) }];
    let outcome = run(&jobs, 3);
    assert!(outcome.output.is_empty());
    assert_eq!(outcome.phase, Phase::Failed);
}

#[test]
fn emit_gives_a_record_or_nothing() {
    let e = Emitter::new();
    let readable = Job { path: b"./f".to_vec(), content: Some(b"x  y".to_vec()) };
    assert_eq!(emit(&e, &readable), Some(b"./f\tx y\n".to_vec()));
    let gone = Job { path: b"./g".to_vec(), content: None };
    assert_eq!(emit(&e, &gone), None);
}

#[test]
fn a_full_run_goes_through_every_phase() {
    let mut phase = Phase::Idle;
    phase = advance(phase, Event::Started);
    assert_eq!(phase, Phase::Running);
    phase = advance(phase, Event::WalkerFinished);
    assert_eq!(phase, Phase::Draining);
    phase = advance(phase, Event::EmitterFinished);
    assert_eq!(phase, Phase::Closed);
    assert_eq!(exit_status(phase), 0);
}

#[test]
fn a_failure_of_either_side_fails_the_pipeline() {
    assert_eq!(advance(Phase::Running, Event::WalkerFailed), Phase::Failed);
    assert_eq!(advance(Phase::Running, Event::EmitterFailed), Phase::Failed);
    assert_eq!(advance(Phase::Draining, Event::EmitterFailed), Phase::Failed);
    assert_eq!(advance(Phase::Idle, Event::WalkerFailed), Phase::Failed);
    assert_eq!(exit_status(Phase::Failed), 1);
}

#[test]
fn an_ended_pipeline_stays_as_it_ended() {
    for event in [Event::Started, Event::WalkerFinished, Event::WalkerFailed, Event::EmitterFinished, Event::EmitterFailed] {
        assert_eq!(advance(Phase::Closed, event), Phase::Closed);
        assert_eq!(advance(Phase::Failed, event), Phase::Failed);
    }
}

#[test]
fn an_event_out_of_turn_changes_nothing() {
    assert_eq!(advance(Phase::Idle, Event::WalkerFinished), Phase::Idle);
    assert_eq!(advance(Phase::Idle, Event::EmitterFinished), Phase::Idle);
    assert_eq!(advance(Phase::Running, Event::Started), Phase::Running);
    assert_eq!(advance(Phase::Running, Event::EmitterFinished), Phase::Running);
    assert_eq!(advance(Phase::Draining, Event::WalkerFinished), Phase::Draining);
    assert_eq!(exit_status(Phase::Idle), 1);
    assert_eq!(exit_status(Phase::Running), 1);
    assert_eq!(exit_status(Phase::Draining), 1);
}
