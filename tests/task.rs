use fast_down_gui::task::{Action, TaskSet};

#[test]
fn supervisor_cap_admits_two_of_five() {
    let mut set = TaskSet::new(2);
    let mut tags = Vec::new();
    for id in 0..5 {
        let (tag, actions) = set.add_task(id);
        if id < 2 {
            assert_eq!(actions, vec![Action::Spawn(tag)]);
        } else {
            assert!(actions.is_empty());
        }
        tags.push(tag);
    }
    assert_eq!(set.stats(), (2, 3));
    assert!(!set.is_idle());

    let actions = set.cancel_task(0);
    assert_eq!(actions, vec![Action::Cancel(tags[0])]);
    assert_eq!(set.stats(), (2, 3));

    let actions = set.on_task_finished(0, tags[0]);
    assert_eq!(actions, vec![Action::Spawn(tags[2])]);
    assert_eq!(set.stats(), (2, 2));
}

#[test]
fn supervisor_cancelling_queued_task_drops_it() {
    let mut set = TaskSet::new(1);
    let (t0, _) = set.add_task(10);
    let (t1, _) = set.add_task(11);
    let (t2, _) = set.add_task(12);
    assert_eq!(set.stats(), (1, 2));
    let actions = set.cancel_task(11);
    assert_eq!(actions, vec![Action::Discard(t1)]);
    assert_eq!(set.stats(), (1, 1));
    let actions = set.on_task_finished(10, t0);
    assert_eq!(actions, vec![Action::Spawn(t2)]);
    let actions = set.on_task_finished(12, t2);
    assert_eq!(actions, vec![Action::Idle]);
    assert!(set.is_idle());
}

#[test]
fn supervisor_same_key_replaces_previous_task() {
    let mut set = TaskSet::new(3);
    let (t0, _) = set.add_task(7);
    let (t1, actions) = set.add_task(7);
    assert_eq!(actions, vec![Action::Cancel(t0), Action::Spawn(t1)]);
    assert_eq!(set.stats(), (2, 0));
    let actions = set.on_task_finished(7, t0);
    assert!(actions.is_empty());
    assert_eq!(set.stats(), (1, 0));
    let actions = set.on_task_finished(7, t1);
    assert_eq!(actions, vec![Action::Idle]);
}

#[test]
fn supervisor_cancel_all_clears_queue() {
    let mut set = TaskSet::new(1);
    let (t0, _) = set.add_task(1);
    let (t1, _) = set.add_task(2);
    let (t2, _) = set.add_task(3);
    let actions = set.cancel_all();
    assert_eq!(
        actions,
        vec![Action::Cancel(t0), Action::Discard(t1), Action::Discard(t2)]
    );
    assert_eq!(set.stats(), (1, 0));
    let actions = set.on_task_finished(1, t0);
    assert_eq!(actions, vec![Action::Idle]);
    assert!(set.is_idle());
}

#[test]
fn supervisor_raising_cap_starts_waiting_tasks() {
    let mut set = TaskSet::new(1);
    let _ = set.add_task(1);
    let (t1, _) = set.add_task(2);
    let (t2, _) = set.add_task(3);
    let actions = set.set_concurrency(3);
    assert_eq!(actions, vec![Action::Spawn(t1), Action::Spawn(t2)]);
    assert_eq!(set.stats(), (3, 0));
}

#[test]
fn supervisor_lowering_cap_stops_nothing() {
    let mut set = TaskSet::new(3);
    for id in 0..3 {
        let _ = set.add_task(id);
    }
    let actions = set.set_concurrency(1);
    assert!(actions.is_empty());
    assert_eq!(set.stats(), (3, 0));
    let (_, actions) = set.add_task(9);
    assert!(actions.is_empty());
    assert_eq!(set.stats(), (3, 1));
}

#[test]
fn supervisor_never_exceeds_cap() {
    let mut set = TaskSet::new(2);
    let mut tags = Vec::new();
    for id in 0..6 {
        let (tag, _) = set.add_task(id);
        tags.push(tag);
        assert!(set.stats().0 <= 2);
    }
    for id in 0..6 {
        let _ = set.on_task_finished(id, tags[id as usize]);
        assert!(set.stats().0 <= 2);
    }
    assert!(set.is_idle());
}

#[test]
fn supervisor_empty_set_is_idle() {
    let set = TaskSet::new(4);
    assert!(set.is_idle());
    assert_eq!(set.stats(), (0, 0));
}

#[test]
fn supervisor_replacing_queued_task_keeps_cap() {
    let mut set = TaskSet::new(1);
    let (t0, _) = set.add_task(1);
    let (t1, _) = set.add_task(2);
    let (t2, actions) = set.add_task(2);
    assert_eq!(actions, vec![Action::Discard(t1)]);
    assert_eq!(set.stats(), (1, 1));
    let actions = set.on_task_finished(1, t0);
    assert_eq!(actions, vec![Action::Spawn(t2)]);
    assert_eq!(set.stats(), (1, 0));
}
