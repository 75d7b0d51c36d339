use task_queue::priority_queue::PriorityQueue;
use task_queue::types::{
    Attempt, Operations, Priority, QueueError, TaskQueue, Tasks, WorkerAction, MAX_TASK_RETRY,
};

#[test]
fn test_task_queue_new() {
    let result = TaskQueue::new();
    assert!(
        result.task_counter == 1
            && result.priority_manager.is_empty()
            && result.task_manager.is_empty()
            && result.failed_task_manager.is_empty()
    );
}

#[test]
fn test_insert_task() {
    let mut queue = TaskQueue::new();
    queue.insert_task(Operations::WriteToFile, "high").unwrap();
    let task = queue.get_task(1).unwrap();
    assert_eq!(task.task_type, Operations::WriteToFile);
    assert_eq!(task.retry_counter, 0);
}

#[test]
fn test_priority_manager() {
    let mut queue = TaskQueue::new();
    queue.insert_task(Operations::GetBTCPrice, "low").unwrap();
    queue.insert_task(Operations::GetETHPrice, "high").unwrap();
    queue.insert_task(Operations::OpenFile, "medium").unwrap();
    queue.insert_task(Operations::WriteToFile, "high").unwrap();

    let result = queue.priority_manager.pop().unwrap();
    let result2 = queue.priority_manager.pop().unwrap();
    assert!(result == Priority::High(4) && result2 == Priority::High(2));
    let result3 = queue.priority_manager.pop().unwrap();
    let result4 = queue.priority_manager.pop().unwrap();
    assert!(result3 == Priority::Medium(3) && result4 == Priority::Low(1));
    assert!(queue.priority_manager.is_empty());
}

#[test]
fn test_execute_single_threaded() {
    let mut queue = TaskQueue::new();
    queue.insert_task(Operations::OpenFile, "low").unwrap();
    queue.insert_task(Operations::GetETHPrice, "high").unwrap();
    queue.insert_task(Operations::WriteToFile, "high").unwrap();
    queue.insert_task(Operations::GetBTCPrice, "medium").unwrap();

    let first = queue.execute_task().unwrap();
    queue.complete_task(first, true).unwrap();
    let second = queue.execute_task().unwrap();
    queue.complete_task(second, true).unwrap();

    let next = queue.priority_manager.pop().unwrap();
    assert_eq!(next, Priority::Medium(4));
}

/// Runs one step of a worker whose handlers all succeed.
fn worker_step(queue: &mut TaskQueue) -> WorkerAction {
    let action = queue.next_action();
    match action {
        WorkerAction::Execute => {
            if let Ok(attempt) = queue.execute_task() {
                queue.complete_task(attempt, true).unwrap();
            }
        }
        WorkerAction::Retry { .. } => {
            if let Ok(attempt) = queue.re_execute_task() {
                queue.complete_task(attempt, true).unwrap();
            }
        }
        WorkerAction::Idle => {}
    }
    action
}

#[test]
fn test_threads() {
    let mut queue = TaskQueue::new();
    queue.insert_task(Operations::GetBTCPrice, "high").unwrap();
    queue.insert_task(Operations::GetETHPrice, "high").unwrap();
    queue.insert_task(Operations::OpenFile, "medium").unwrap();
    queue.insert_task(Operations::OpenFile, "low").unwrap();
    queue.insert_task(Operations::WriteToFile, "medium").unwrap();

    TaskQueue::check_worker_count(2).unwrap();
    for _ in 0..20 {
        worker_step(&mut queue);
        worker_step(&mut queue);
    }

    assert!(queue.priority_manager.is_empty());
}

#[test]
fn ids_are_allocated_in_order_across_classes() {
    let mut queue = TaskQueue::new();
    assert_eq!(queue.insert_task(Operations::OpenFile, "medium"), Ok(1));
    assert_eq!(queue.insert_task(Operations::OpenFile, "low"), Ok(2));
    assert_eq!(
        queue.insert_task(Operations::OpenFile, "urgent"),
        Err(QueueError::InvalidPriority)
    );
    assert_eq!(queue.insert_task(Operations::OpenFile, "high"), Ok(3));
    assert_eq!(queue.task_counter, 4);
    assert_eq!(queue.task_manager.len(), 3);
    assert_eq!(queue.get_task(3).unwrap().priority_level, Priority::High(3));
}

#[test]
fn invalid_label_changes_nothing() {
    let mut queue = TaskQueue::new();
    assert_eq!(
        queue.insert_task(Operations::WriteToFile, "lowest"),
        Err(QueueError::InvalidPriority)
    );
    assert_eq!(queue.task_counter, 1);
    assert!(queue.task_manager.is_empty());
    assert!(queue.priority_manager.is_empty());
}

#[test]
fn labels_are_case_insensitive() {
    assert_eq!(Operations::sort_counter(7, "HiGh"), Ok(Priority::High(7)));
    assert_eq!(Operations::sort_counter(8, "MEDIUM"), Ok(Priority::Medium(8)));
    assert_eq!(Operations::sort_counter(9, "Low"), Ok(Priority::Low(9)));
    assert_eq!(
        Operations::sort_counter(9, ""),
        Err(QueueError::InvalidPriority)
    );
    let mut queue = TaskQueue::new();
    assert_eq!(queue.insert_task(Operations::OpenFile, "HIGH"), Ok(1));
    assert_eq!(queue.get_priority_task(), Ok(Priority::High(1)));
}

#[test]
fn from_label_takes_lower_case_only() {
    assert_eq!(Priority::from_label(2, "low"), Ok(Priority::Low(2)));
    assert_eq!(Priority::from_label(2, "medium"), Ok(Priority::Medium(2)));
    assert_eq!(Priority::from_label(2, "high"), Ok(Priority::High(2)));
    assert_eq!(
        Priority::from_label(2, "High"),
        Err(QueueError::InvalidPriority)
    );
    assert_eq!(
        Priority::from_label(2, "hig"),
        Err(QueueError::InvalidPriority)
    );
}

#[test]
fn execute_on_empty_ready_structure() {
    let mut queue = TaskQueue::new();
    assert_eq!(queue.execute_task(), Err(QueueError::QueueEmpty));
    assert_eq!(queue.task_counter, 1);
    assert!(queue.priority_manager.is_empty());
    assert!(queue.failed_task_manager.is_empty());
    assert!(queue.task_manager.is_empty());
    assert_eq!(queue.re_execute_task(), Err(QueueError::QueueEmpty));
    assert_eq!(queue.get_priority_task(), Err(QueueError::QueueEmpty));
}

#[test]
fn failed_attempt_updates_record_and_failed_structure() {
    let mut queue = TaskQueue::new();
    queue.insert_task(Operations::OpenFile, "medium").unwrap();
    let attempt = queue.execute_task().unwrap();
    assert_eq!(
        attempt,
        Attempt {
            key: Priority::Medium(1),
            task_type: Operations::OpenFile
        }
    );
    assert_eq!(queue.complete_task(attempt, false), Ok(()));
    let task = queue.get_task(1).unwrap();
    assert_eq!(task.retry_counter, 1);
    assert_eq!(task.delay_secs, 2);
    assert_eq!(queue.failed_task_manager.len(), 1);
    assert_eq!(queue.failed_task_manager.peek(), Some(Priority::Medium(1)));
    assert!(queue.priority_manager.is_empty());
}

#[test]
fn backoff_doubles_with_each_failure() {
    let mut queue = TaskQueue::new();
    queue.insert_task(Operations::GetETHPrice, "low").unwrap();
    let attempt = queue.execute_task().unwrap();
    queue.complete_task(attempt, false).unwrap();
    assert_eq!(queue.next_action(), WorkerAction::Retry { delay_secs: 2 });
    let attempt = queue.re_execute_task().unwrap();
    queue.complete_task(attempt, false).unwrap();
    assert_eq!(queue.get_task(1).unwrap().delay_secs, 4);
    let attempt = queue.re_execute_task().unwrap();
    queue.complete_task(attempt, false).unwrap();
    assert_eq!(queue.get_task(1).unwrap().delay_secs, 8);
    assert_eq!(queue.get_task(1).unwrap().retry_counter, 3);
}

#[test]
fn success_leaves_record_as_is() {
    let mut queue = TaskQueue::new();
    queue.insert_task(Operations::WriteToFile, "low").unwrap();
    let attempt = queue.execute_task().unwrap();
    queue.complete_task(attempt, false).unwrap();
    let retry = queue.re_execute_task().unwrap();
    assert_eq!(queue.complete_task(retry, true), Ok(()));
    let task = queue.get_task(1).unwrap();
    assert_eq!(task.retry_counter, 1);
    assert_eq!(task.delay_secs, 2);
    assert!(queue.failed_task_manager.is_empty());
}

#[test]
fn retry_limit_is_not_requeued() {
    let mut queue = TaskQueue::new();
    queue.insert_task(Operations::OpenFile, "high").unwrap();
    let attempt = queue.execute_task().unwrap();
    queue.complete_task(attempt, false).unwrap();
    for _ in 1..MAX_TASK_RETRY {
        let attempt = queue.re_execute_task().unwrap();
        queue.complete_task(attempt, false).unwrap();
    }
    assert_eq!(queue.get_task(1).unwrap().retry_counter, MAX_TASK_RETRY);
    assert_eq!(queue.failed_task_manager.len(), 1);
    assert_eq!(queue.re_execute_task(), Err(QueueError::RetryLimitExceeded));
    assert!(queue.failed_task_manager.is_empty());
}

#[test]
fn always_failing_task_is_abandoned() {
    let mut queue = TaskQueue::new();
    queue.insert_task(Operations::GetBTCPrice, "high").unwrap();
    let attempt = queue.execute_task().unwrap();
    queue.complete_task(attempt, false).unwrap();
    let mut outcome = Ok(());
    for _ in 0..10 {
        match queue.re_execute_task() {
            Ok(attempt) => {
                queue.complete_task(attempt, false).unwrap();
            }
            Err(e) => {
                outcome = Err(e);
                break;
            }
        }
    }
    assert_eq!(outcome, Err(QueueError::RetryLimitExceeded));
    let task = queue.get_task(1).unwrap();
    assert!(task.retry_counter >= 3);
    assert!(queue.priority_manager.is_empty());
    assert!(queue.failed_task_manager.is_empty());
    queue.failed_task_manager.push(task.priority_level);
    assert_eq!(queue.re_execute_task(), Err(QueueError::RetryLimitExceeded));
    assert_eq!(
        queue.complete_task(
            Attempt {
                key: Priority::High(1),
                task_type: Operations::GetBTCPrice
            },
            false
        ),
        Err(QueueError::RetryLimitExceeded)
    );
    assert!(queue.failed_task_manager.is_empty());
}

#[test]
fn dispatch_order_scenario() {
    let mut queue = TaskQueue::new();
    assert_eq!(queue.insert_task(Operations::WriteToFile, "high"), Ok(1));
    assert_eq!(queue.insert_task(Operations::GetBTCPrice, "low"), Ok(2));
    assert_eq!(queue.insert_task(Operations::OpenFile, "medium"), Ok(3));
    assert_eq!(queue.insert_task(Operations::WriteToFile, "high"), Ok(4));
    assert_eq!(queue.priority_manager.pop(), Some(Priority::High(4)));
    assert_eq!(queue.priority_manager.pop(), Some(Priority::High(1)));
    assert_eq!(queue.priority_manager.pop(), Some(Priority::Medium(3)));
    assert_eq!(queue.priority_manager.pop(), Some(Priority::Low(2)));
    assert_eq!(queue.priority_manager.pop(), None);
}

#[test]
fn dispatch_order_through_execute() {
    let mut queue = TaskQueue::new();
    let labels = ["low", "high", "medium", "low", "high", "medium", "high"];
    for label in labels {
        queue.insert_task(Operations::OpenFile, label).unwrap();
    }
    let mut keys = Vec::new();
    while let Ok(attempt) = queue.execute_task() {
        keys.push(attempt.key);
    }
    assert_eq!(
        keys,
        vec![
            Priority::High(7),
            Priority::High(5),
            Priority::High(2),
            Priority::Medium(6),
            Priority::Medium(3),
            Priority::Low(4),
            Priority::Low(1),
        ]
    );
}

#[test]
fn zero_workers_rejected() {
    assert_eq!(
        TaskQueue::check_worker_count(0),
        Err(QueueError::InvalidWorkerCount)
    );
    assert_eq!(TaskQueue::check_worker_count(1), Ok(()));
}

#[test]
fn next_action_follows_the_structures() {
    let mut queue = TaskQueue::new();
    assert_eq!(queue.next_action(), WorkerAction::Idle);
    queue.insert_task(Operations::OpenFile, "low").unwrap();
    assert_eq!(queue.next_action(), WorkerAction::Execute);
    let attempt = queue.execute_task().unwrap();
    assert_eq!(queue.next_action(), WorkerAction::Idle);
    queue.complete_task(attempt, false).unwrap();
    assert_eq!(queue.next_action(), WorkerAction::Retry { delay_secs: 2 });
}

#[test]
fn complete_unknown_task_is_not_found() {
    let mut queue = TaskQueue::new();
    let attempt = Attempt {
        key: Priority::Low(9),
        task_type: Operations::OpenFile,
    };
    assert_eq!(queue.complete_task(attempt, false), Err(QueueError::NotFound));
    assert_eq!(queue.get_task(9), Err(QueueError::NotFound));
    queue.priority_manager.push(Priority::High(5));
    assert_eq!(queue.execute_task(), Err(QueueError::NotFound));
    assert!(queue.priority_manager.is_empty());
}

#[test]
fn tasks_new_starts_clean() {
    let t = Tasks::new(Operations::GetETHPrice, Priority::Medium(3));
    assert_eq!(t.task_type, Operations::GetETHPrice);
    assert_eq!(t.priority_level, Priority::Medium(3));
    assert_eq!(t.retry_counter, 0);
    assert_eq!(t.delay_secs, 0);
}

#[test]
fn priority_order_and_ids() {
    assert!(Priority::Low(9).is_lower_than(&Priority::Medium(1)));
    assert!(Priority::Medium(9).is_lower_than(&Priority::High(1)));
    assert!(Priority::High(1).is_lower_than(&Priority::High(2)));
    assert!(!Priority::High(2).is_lower_than(&Priority::High(2)));
    assert!(!Priority::High(1).is_lower_than(&Priority::Low(5)));
    assert_eq!(Priority::Medium(42).task_id(), 42);
}

#[test]
fn priority_queue_keeps_duplicates() {
    let mut pq = PriorityQueue::new();
    assert_eq!(pq.peek(), None);
    assert_eq!(pq.pop(), None);
    pq.push(Priority::Low(3));
    pq.push(Priority::Medium(1));
    pq.push(Priority::Low(3));
    assert_eq!(pq.len(), 3);
    assert_eq!(pq.peek(), Some(Priority::Medium(1)));
    assert_eq!(pq.pop(), Some(Priority::Medium(1)));
    assert_eq!(pq.pop(), Some(Priority::Low(3)));
    assert_eq!(pq.pop(), Some(Priority::Low(3)));
    assert!(pq.is_empty());
}
