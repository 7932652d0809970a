use ocron::datetime::{Date, DateTime, TimeOfDay};
use ocron::queue::Queue;
use ocron::rules::Time;
use ocron::task::{Command, Task};

fn at_second(second: u8) -> DateTime {
    DateTime {
        date: Date { year: 2023, month: 6, day: 15 },
        time: TimeOfDay { hour: 12, minute: 0, second },
    }
}

fn named_task(name: &str) -> Task {
    Task {
        name: name.to_string(),
        command: Command::Shell("true".to_string()),
        time: Time::Every { seconds: 60 },
        shell: "/bin/sh".to_string(),
        env: Vec::new(),
        clear_env: false,
        on_startup: false,
    }
}

#[test]
fn new_queue_is_empty() {
    let q = Queue::new();
    assert_eq!(q.len(), 0);
    assert!(q.is_empty());
}

#[test]
fn pop_on_empty_returns_none() {
    let mut q = Queue::new();
    assert!(q.try_pop().is_none());
}

#[test]
fn peek_returns_earliest() {
    let mut q = Queue::new();
    q.push(at_second(30), named_task("late"));
    q.push(at_second(10), named_task("early"));
    q.push(at_second(20), named_task("mid"));
    assert_eq!(q.peek_time(), at_second(10));
    assert_eq!(q.len(), 3);
}

#[test]
fn pops_come_out_in_nondecreasing_order() {
    let mut q = Queue::new();
    let seconds: [u8; 7] = [33, 7, 55, 7, 21, 0, 42];
    for (i, s) in seconds.iter().enumerate() {
        q.push(at_second(*s), named_task(&format!("t{}", i)));
    }
    let mut last: i64 = -1;
    let mut popped = 0;
    while !q.is_empty() {
        let t = q.peek_time();
        let instant = t.to_seconds();
        assert!(instant >= last);
        last = instant;
        assert!(q.try_pop().is_some());
        popped += 1;
    }
    assert_eq!(popped, seconds.len());
}

#[test]
fn pop_returns_task_of_earliest_entry() {
    let mut q = Queue::new();
    q.push(at_second(30), named_task("late"));
    q.push(at_second(10), named_task("early"));
    let t = q.try_pop().unwrap();
    assert_eq!(t.name, "early");
    let t = q.try_pop().unwrap();
    assert_eq!(t.name, "late");
    assert!(q.try_pop().is_none());
}

#[test]
fn equal_instants_pop_in_insertion_order() {
    let mut q = Queue::new();
    q.push(at_second(10), named_task("first"));
    q.push(at_second(10), named_task("second"));
    q.push(at_second(5), named_task("earliest"));
    assert_eq!(q.try_pop().unwrap().name, "earliest");
    assert_eq!(q.try_pop().unwrap().name, "first");
    assert_eq!(q.try_pop().unwrap().name, "second");
}
