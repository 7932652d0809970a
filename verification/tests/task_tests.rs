use ocron::datetime::{Date, DateTime, TimeOfDay};
use ocron::dispatch::{initial_due, is_due, seed_queue, sleep_seconds};
use ocron::queue::Queue;
use ocron::rules::{ScheduleError, Time};
use ocron::task::{resolve_env, Command, EnvVal, Task};

fn at(hour: u8, minute: u8, second: u8) -> DateTime {
    DateTime {
        date: Date { year: 2023, month: 6, day: 15 },
        time: TimeOfDay { hour, minute, second },
    }
}

fn task_with(command: Command, time: Time, on_startup: bool) -> Task {
    Task {
        name: "job".to_string(),
        command,
        time,
        shell: "/bin/bash".to_string(),
        env: Vec::new(),
        clear_env: false,
        on_startup,
    }
}

#[test]
fn shell_invocation_runs_through_the_shell() {
    let t = task_with(
        Command::Shell("echo hi".to_string()),
        Time::Every { seconds: 60 },
        false,
    );
    let (program, args) = t.build_invocation();
    assert_eq!(program, "/bin/bash");
    assert_eq!(args, vec!["-c".to_string(), "echo hi".to_string()]);
}

#[test]
fn argv_invocation_splits_program_and_arguments() {
    let t = task_with(
        Command::Argv(vec!["ls".to_string(), "-l".to_string(), "/tmp".to_string()]),
        Time::Every { seconds: 60 },
        false,
    );
    let (program, args) = t.build_invocation();
    assert_eq!(program, "ls");
    assert_eq!(args, vec!["-l".to_string(), "/tmp".to_string()]);
}

fn pairs(v: &[(&str, &str)]) -> Vec<(String, String)> {
    v.iter().map(|(k, val)| (k.to_string(), val.to_string())).collect()
}

#[test]
fn overlay_sets_and_clears() {
    let base = pairs(&[("A", "1"), ("B", "2")]);
    let overlay = vec![
        ("B".to_string(), EnvVal::Assign("3".to_string())),
        ("C".to_string(), EnvVal::Assign("4".to_string())),
        ("A".to_string(), EnvVal::Clear),
    ];
    let r = resolve_env(base, false, &overlay);
    assert_eq!(r, pairs(&[("B", "3"), ("C", "4")]));
}

#[test]
fn clear_env_drops_the_base() {
    let base = pairs(&[("A", "1"), ("B", "2")]);
    let overlay = vec![("X".to_string(), EnvVal::Assign("9".to_string()))];
    let r = resolve_env(base, true, &overlay);
    assert_eq!(r, pairs(&[("X", "9")]));
}

#[test]
fn later_overlay_entry_wins() {
    let overlay = vec![
        ("K".to_string(), EnvVal::Assign("1".to_string())),
        ("K".to_string(), EnvVal::Assign("2".to_string())),
    ];
    let r = resolve_env(Vec::new(), false, &overlay);
    assert_eq!(r, pairs(&[("K", "2")]));
}

#[test]
fn rearm_policy_by_rule() {
    let every = task_with(Command::Shell("x".to_string()), Time::Every { seconds: 1 }, false);
    let after = task_with(Command::Shell("x".to_string()), Time::After { seconds: 1 }, false);
    let on = task_with(
        Command::Shell("x".to_string()),
        Time::On {
            second: vec![0],
            minute: vec![0],
            hour: vec![0],
            weekday: vec![],
            day: vec![],
            month: vec![],
        },
        false,
    );
    assert!(every.rearms_at_dispatch());
    assert!(on.rearms_at_dispatch());
    assert!(!after.rearms_at_dispatch());
}

#[test]
fn due_when_strictly_past() {
    assert!(is_due(&at(10, 0, 0), &at(10, 0, 1)));
    assert!(!is_due(&at(10, 0, 1), &at(10, 0, 0)));
    assert!(!is_due(&at(10, 0, 0), &at(10, 0, 0)));
}

#[test]
fn sleep_is_half_the_wait_clamped() {
    assert_eq!(sleep_seconds(&at(10, 2, 0), &at(10, 0, 0)), 60);
    assert_eq!(sleep_seconds(&at(10, 0, 10), &at(10, 0, 0)), 5);
    assert_eq!(sleep_seconds(&at(10, 0, 1), &at(10, 0, 0)), 1);
    assert_eq!(sleep_seconds(&at(9, 0, 0), &at(10, 0, 0)), 1);
    assert_eq!(sleep_seconds(&at(10, 3, 0), &at(10, 0, 0)), 60);
}

#[test]
fn startup_tasks_seed_with_now() {
    let now = at(10, 0, 0);
    let t = task_with(Command::Shell("x".to_string()), Time::Every { seconds: 60 }, true);
    assert_eq!(initial_due(&t, &now), Ok(now));
}

#[test]
fn recurring_tasks_seed_with_next_occurrence() {
    let now = at(10, 0, 0);
    let t = task_with(Command::Shell("x".to_string()), Time::After { seconds: 5 }, false);
    assert_eq!(initial_due(&t, &now), Ok(at(10, 0, 5)));
}

#[test]
fn seeding_queues_every_task() {
    let now = at(10, 0, 0);
    let mut tasks = vec![
        task_with(Command::Shell("a".to_string()), Time::Every { seconds: 60 }, true),
        task_with(Command::Shell("b".to_string()), Time::After { seconds: 5 }, false),
    ];
    let mut queue = Queue::new();
    assert_eq!(seed_queue(&mut queue, &mut tasks, &now), Ok(()));
    assert!(tasks.is_empty());
    assert_eq!(queue.len(), 2);
    // The startup task is due at `now`, ahead of the recurring one.
    assert_eq!(queue.peek_time(), now);
    assert!(queue.try_pop().is_some());
    assert_eq!(queue.peek_time(), at(10, 0, 5));
}

#[test]
fn seeding_aborts_on_an_impossible_rule() {
    let now = at(10, 0, 0);
    let mut tasks = vec![task_with(
        Command::Shell("x".to_string()),
        Time::On {
            second: vec![0],
            minute: vec![0],
            hour: vec![0],
            weekday: vec![],
            day: vec![31],
            month: vec![2],
        },
        false,
    )];
    let mut queue = Queue::new();
    assert_eq!(
        seed_queue(&mut queue, &mut tasks, &now),
        Err(ScheduleError::NoOccurrenceFound)
    );
    assert_eq!(queue.len(), 0);
}

#[test]
fn impossible_rule_fails_seeding() {
    let now = at(10, 0, 0);
    let t = task_with(
        Command::Shell("x".to_string()),
        Time::On {
            second: vec![0],
            minute: vec![0],
            hour: vec![0],
            weekday: vec![],
            day: vec![31],
            month: vec![2],
        },
        false,
    );
    assert_eq!(initial_due(&t, &now), Err(ScheduleError::NoOccurrenceFound));
}
