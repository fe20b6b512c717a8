use worker_pool::task_queue::{Received, TaskQueue};

#[test]
fn queue_is_fifo() {
    let mut q: TaskQueue<u32> = TaskQueue::new();
    assert!(q.send(1).is_ok());
    assert!(q.send(2).is_ok());
    assert!(q.send(3).is_ok());
    assert_eq!(q.len(), 3);
    assert!(matches!(q.receive(), Received::Task(1)));
    assert!(matches!(q.receive(), Received::Task(2)));
    assert!(matches!(q.receive(), Received::Task(3)));
    assert!(matches!(q.receive(), Received::Empty));
}

#[test]
fn closed_queue_hands_task_back_and_still_drains() {
    let mut q: TaskQueue<&str> = TaskQueue::new();
    assert!(q.send("a").is_ok());
    q.close();
    assert!(q.is_closed());
    match q.send("b") {
        Err(e) => assert_eq!(e.task, "b"),
        Ok(()) => panic!("a closed queue accepted a task"),
    }
    assert_eq!(q.len(), 1);
    assert!(matches!(q.receive(), Received::Task("a")));
    assert!(matches!(q.receive(), Received::Closed));
    assert!(matches!(q.receive(), Received::Closed));
}

#[test]
fn open_empty_queue_says_wait() {
    let mut q: TaskQueue<u8> = TaskQueue::new();
    assert!(!q.is_closed());
    assert!(matches!(q.receive(), Received::Empty));
    assert_eq!(q.len(), 0);
}
