use sparkfun_samd21_mini::dispatch::{ClaimError, Dispatcher};
use sparkfun_samd21_mini::model::ConfigError;
use sparkfun_samd21_mini::resource::ResourceCell;
use sparkfun_samd21_mini::task::{TaskDescriptor, TaskState};

type System = Dispatcher<u32, &'static str>;

fn task(priority: u8, resources: &[usize], handler: &'static str) -> TaskDescriptor<&'static str> {
    TaskDescriptor { priority, resources: resources.to_vec(), handler }
}

fn cells(ceilings: &[u8]) -> Vec<ResourceCell<u32>> {
    ceilings.iter().enumerate().map(|(i, c)| ResourceCell::new(*c, 100 + i as u32)).collect()
}

fn build(ceilings: &[u8], tasks: Vec<TaskDescriptor<&'static str>>) -> Result<System, ConfigError> {
    Dispatcher::new(cells(ceilings), tasks)
}

/// Three cells with ceilings 2, 1 and 3. Task 0 (priority 1) shares cell 0
/// with task 1 (priority 2) and has cell 1 to itself; task 2 (priority 3)
/// has cell 2.
fn started() -> System {
    let mut system = match build(
        &[2, 1, 3],
        vec![task(1, &[0, 1], "low"), task(2, &[0], "middle"), task(3, &[2], "high")],
    ) {
        Ok(system) => system,
        Err(error) => panic!("valid configuration refused: {error:?}"),
    };
    system.start();
    system
}

fn rejected(ceilings: &[u8], tasks: Vec<TaskDescriptor<&'static str>>) -> ConfigError {
    match build(ceilings, tasks) {
        Ok(_) => panic!("invalid configuration accepted"),
        Err(error) => error,
    }
}

#[test]
fn a_task_above_the_ceiling_of_its_resource_is_rejected() {
    for ceiling in 0..=254u8 {
        let error = rejected(&[ceiling], vec![task(ceiling + 1, &[0], "t")]);
        assert_eq!(error, ConfigError::CeilingTooLow { task: 0, resource: 0 });
    }
}

#[test]
fn ceilings_at_or_above_every_claiming_priority_are_accepted() {
    assert!(build(&[2, 1, 3], vec![task(1, &[0, 1], "a"), task(2, &[0], "b")]).is_ok());
    assert!(build(&[5], vec![task(5, &[0], "equal")]).is_ok());
    assert!(build(&[255, 255], vec![task(255, &[0, 1], "top"), task(0, &[1], "bottom")]).is_ok());
    assert!(build(&[0], vec![task(9, &[], "claims nothing")]).is_ok());
    assert!(build(&[], vec![]).is_ok());
    for ceiling in 0..=255u8 {
        for priority in 0..=ceiling {
            assert!(build(&[ceiling], vec![task(priority, &[0], "t")]).is_ok());
        }
    }
}

#[test]
fn any_priority_above_a_claimed_ceiling_is_rejected() {
    for ceiling in 0..8u8 {
        for priority in 0..8u8 {
            let made = build(&[7, ceiling], vec![task(3, &[0], "other"), task(priority, &[0, 1], "t")]);
            assert_eq!(made.is_ok(), priority <= ceiling, "ceiling {ceiling}, priority {priority}");
        }
    }
}

#[test]
fn a_task_that_names_an_undeclared_resource_is_rejected() {
    let error = rejected(&[1, 1], vec![task(1, &[0, 7], "t")]);
    assert_eq!(error, ConfigError::UnknownResource { task: 0, resource: 7 });
    let error = rejected(&[], vec![task(0, &[0], "t")]);
    assert_eq!(error, ConfigError::UnknownResource { task: 0, resource: 0 });
}

#[test]
fn the_error_names_the_first_offending_entry() {
    let error = rejected(
        &[1, 4],
        vec![task(1, &[0, 1], "fine"), task(3, &[1, 0, 9], "second entry"), task(9, &[5], "later")],
    );
    assert_eq!(error, ConfigError::CeilingTooLow { task: 1, resource: 0 });
    let error = rejected(&[1], vec![task(2, &[3, 0], "both")]);
    assert_eq!(error, ConfigError::UnknownResource { task: 0, resource: 3 });
}

#[test]
fn a_system_comes_up_with_interrupts_disabled() {
    let mut system = build(&[2], vec![task(1, &[0], "t")]).unwrap_or_else(|e| panic!("{e:?}"));
    assert!(!system.is_enabled());
    assert_eq!(system.threshold(), 0);
    assert_eq!(system.depth(), 0);
    assert_eq!(system.running(), None);
    assert_eq!(system.resource_count(), 1);
    assert_eq!(system.task_count(), 1);
    assert!(system.fire(0));
    assert!(system.is_pending(0));
    assert_eq!(system.dispatch(), None);
    assert_eq!(system.state_of(0), TaskState::Idle);
    system.start();
    assert!(system.is_enabled());
    assert_eq!(system.dispatch(), Some(0));
    assert_eq!(system.state_of(0), TaskState::Running);
    assert!(!system.is_pending(0));
}

#[test]
fn an_event_of_a_source_without_a_task_is_dropped() {
    let mut system = started();
    assert!(!system.fire(3));
    assert!(!system.is_pending(3));
    assert_eq!(system.dispatch(), None);
    assert_eq!(system.state_of(3), TaskState::Idle);
}

#[test]
fn the_highest_pending_priority_runs_first() {
    let mut system = started();
    system.fire(0);
    system.fire(2);
    system.fire(1);
    assert_eq!(system.dispatch(), Some(2));
    assert_eq!(system.threshold(), 3);
    assert_eq!(system.dispatch(), None);
    assert_eq!(system.complete(), Some(2));
    assert_eq!(system.threshold(), 0);
    assert_eq!(system.dispatch(), Some(1));
    assert_eq!(system.complete(), Some(1));
    assert_eq!(system.dispatch(), Some(0));
    assert_eq!(system.complete(), Some(0));
    assert_eq!(system.dispatch(), None);
    assert_eq!(system.running(), None);
}

#[test]
fn equal_priorities_are_served_by_source_number() {
    let mut system =
        build(&[], vec![task(2, &[], "a"), task(2, &[], "b"), task(1, &[], "c"), task(2, &[], "d")])
            .unwrap_or_else(|e| panic!("{e:?}"));
    system.start();
    system.fire(3);
    system.fire(2);
    system.fire(1);
    assert_eq!(system.dispatch(), Some(1));
    assert_eq!(system.dispatch(), None);
    assert_eq!(system.complete(), Some(1));
    assert_eq!(system.dispatch(), Some(3));
    assert_eq!(system.complete(), Some(3));
    assert_eq!(system.dispatch(), Some(2));
}

#[test]
fn a_higher_task_preempts_and_the_preempted_one_resumes() {
    let mut system = started();
    system.fire(0);
    assert_eq!(system.dispatch(), Some(0));
    assert_eq!(system.threshold(), 1);
    system.fire(1);
    assert_eq!(system.dispatch(), Some(1));
    assert_eq!(system.running(), Some(1));
    assert_eq!(system.depth(), 2);
    assert_eq!(system.threshold(), 2);
    assert_eq!(system.state_of(0), TaskState::Running);
    assert_eq!(system.state_of(1), TaskState::Running);
    assert_eq!(system.state_of(2), TaskState::Idle);
    assert_eq!(system.complete(), Some(1));
    assert_eq!(system.running(), Some(0));
    assert_eq!(system.threshold(), 1);
    assert_eq!(system.state_of(1), TaskState::Idle);
    assert_eq!(system.complete(), Some(0));
    assert_eq!(system.running(), None);
    assert_eq!(system.threshold(), 0);
}

#[test]
fn an_event_that_fires_while_its_task_runs_is_served_afterwards() {
    let mut system = started();
    system.fire(1);
    assert_eq!(system.dispatch(), Some(1));
    assert!(system.fire(1));
    assert!(system.fire(1));
    assert!(system.is_pending(1));
    assert_eq!(system.dispatch(), None);
    assert_eq!(system.depth(), 1);
    assert_eq!(system.complete(), Some(1));
    assert_eq!(system.dispatch(), Some(1));
    assert!(!system.is_pending(1));
    assert_eq!(system.complete(), Some(1));
    assert_eq!(system.dispatch(), None);
}

#[test]
fn the_idle_task_never_completes() {
    let mut system = started();
    assert_eq!(system.complete(), None);
    assert_eq!(system.depth(), 0);
    assert_eq!(system.threshold(), 0);
}

#[test]
fn a_claim_raises_the_priority_to_the_highest_ceiling() {
    let mut system = started();
    system.fire(0);
    assert_eq!(system.dispatch(), Some(0));
    let scope = system.claim(&[1, 0]).unwrap_or_else(|e| panic!("{e:?}"));
    assert_eq!(scope.resources, vec![1, 0]);
    assert_eq!(scope.prior, 1);
    assert_eq!(scope.level, 2);
    assert_eq!(system.threshold(), 2);
    assert!(system.is_held(0));
    assert!(system.is_held(1));
    assert!(!system.is_held(2));
    assert!(system.holds(0));
    let closed = system.release().unwrap_or_else(|| panic!("no scope"));
    assert_eq!(closed.resources, vec![1, 0]);
    assert_eq!(closed.prior, 1);
    assert_eq!(closed.level, 2);
    assert_eq!(system.threshold(), 1);
    assert!(!system.is_held(0));
    assert!(!system.is_held(1));
}

#[test]
fn a_claim_never_lowers_the_priority() {
    let mut system = started();
    system.fire(0);
    system.dispatch();
    let outer = system.claim(&[0]).unwrap_or_else(|e| panic!("{e:?}"));
    assert_eq!((outer.prior, outer.level), (1, 2));
    let inner = system.claim(&[1]).unwrap_or_else(|e| panic!("{e:?}"));
    assert_eq!((inner.prior, inner.level), (2, 2));
    assert_eq!(system.threshold(), 2);
    let empty = system.claim(&[]).unwrap_or_else(|e| panic!("{e:?}"));
    assert_eq!((empty.prior, empty.level), (2, 2));
    assert_eq!(system.release().map(|s| s.resources), Some(vec![]));
    assert_eq!(system.release().map(|s| s.resources), Some(vec![1]));
    assert_eq!(system.threshold(), 2);
    assert!(system.is_held(0));
    assert!(!system.is_held(1));
    assert_eq!(system.release().map(|s| s.resources), Some(vec![0]));
    assert_eq!(system.threshold(), 1);
    assert!(system.release().is_none());
    assert_eq!(system.threshold(), 1);
}

#[test]
fn a_cell_that_is_held_cannot_be_claimed_again() {
    let mut system = started();
    system.fire(0);
    system.dispatch();
    assert!(system.claim(&[0]).is_ok());
    assert_eq!(system.claim(&[0]).err(), Some(ClaimError::AlreadyHeld));
    assert_eq!(system.claim(&[1, 0]).err(), Some(ClaimError::AlreadyHeld));
    assert_eq!(system.threshold(), 2);
    assert!(system.is_held(0));
    assert!(!system.is_held(1));
    assert!(system.claim(&[1]).is_ok());
    assert!(system.release().is_some());
    assert!(system.release().is_some());
    assert!(system.release().is_none());
    assert!(system.claim(&[0]).is_ok());
}

#[test]
fn a_claim_that_names_a_cell_twice_is_refused() {
    let mut system = started();
    assert_eq!(system.claim(&[2, 2]).err(), Some(ClaimError::AlreadyHeld));
    assert_eq!(system.claim(&[0, 1, 0]).err(), Some(ClaimError::AlreadyHeld));
    assert_eq!(system.threshold(), 0);
    for resource in 0..3 {
        assert!(!system.is_held(resource));
    }
    assert!(system.release().is_none());
}

#[test]
fn the_idle_task_claims_like_any_task() {
    let mut system = started();
    for resource in 0..3 {
        assert!(system.declares(resource));
    }
    assert!(!system.declares(3));
    let scope = system.claim(&[2]).unwrap_or_else(|e| panic!("{e:?}"));
    assert_eq!((scope.prior, scope.level), (0, 3));
    system.fire(0);
    system.fire(1);
    system.fire(2);
    assert_eq!(system.dispatch(), None);
    assert!(system.release().is_some());
    assert_eq!(system.threshold(), 0);
    assert_eq!(system.dispatch(), Some(2));
}

#[test]
fn a_task_declares_the_cells_of_its_resource_list() {
    let mut system = started();
    system.fire(1);
    assert_eq!(system.dispatch(), Some(1));
    assert!(system.declares(0));
    assert!(!system.declares(1));
    assert!(!system.declares(2));
    assert!(!system.declares(3));
}

#[test]
fn a_shared_cell_masks_the_other_task_until_the_scope_is_left() {
    let mut system = started();
    system.fire(0);
    assert_eq!(system.dispatch(), Some(0));
    assert!(system.claim(&[0]).is_ok());
    assert_eq!(system.replace(0, 1), Ok(100));
    system.fire(1);
    assert_eq!(system.dispatch(), None);
    assert_eq!(system.running(), Some(0));
    assert_eq!(system.replace(0, 2), Ok(1));
    assert!(system.release().is_some());
    assert_eq!(system.dispatch(), Some(1));
    assert!(!system.is_held(0));
    assert!(system.claim(&[0]).is_ok());
    assert_eq!(system.read(0), Some(&2));
    assert_eq!(system.replace(0, 3), Ok(2));
    assert_eq!(system.complete(), Some(1));
    assert_eq!(system.running(), Some(0));
    assert!(!system.is_held(0));
    assert!(system.claim(&[0]).is_ok());
    assert_eq!(system.read(0), Some(&3));
}

#[test]
fn a_task_that_preempts_inside_a_scope_cannot_reach_the_held_cell() {
    let mut system = started();
    system.fire(0);
    system.dispatch();
    assert!(system.claim(&[0, 1]).is_ok());
    assert_eq!(system.replace(1, 55), Ok(101));
    system.fire(2);
    assert_eq!(system.dispatch(), Some(2));
    assert_eq!(system.threshold(), 3);
    assert!(system.is_held(0));
    assert!(!system.holds(0));
    assert!(!system.holds(1));
    assert!(!system.declares(0));
    assert_eq!(system.read(0), None);
    assert_eq!(system.replace(1, 77), Err(77));
    assert!(system.release().is_none());
    assert!(system.claim(&[2]).is_ok());
    assert_eq!(system.read(2), Some(&102));
    assert_eq!(system.complete(), Some(2));
    assert!(!system.is_held(2));
    assert!(system.holds(0));
    assert!(system.holds(1));
    assert_eq!(system.threshold(), 2);
    assert_eq!(system.read(1), Some(&55));
}

#[test]
fn the_contents_are_out_of_reach_outside_a_lock_scope() {
    let mut system = started();
    assert_eq!(system.read(0), None);
    assert_eq!(system.replace(0, 9), Err(9));
    assert_eq!(system.read(17), None);
    assert_eq!(system.replace(17, 9), Err(9));
    assert!(system.claim(&[0]).is_ok());
    assert_eq!(system.read(0), Some(&100));
    assert_eq!(system.read(1), None);
    assert!(system.release().is_some());
    assert_eq!(system.read(0), None);
}

#[test]
fn a_handler_that_returns_leaves_no_scope_behind() {
    let mut system = started();
    system.fire(0);
    system.dispatch();
    assert!(system.claim(&[1]).is_ok());
    assert!(system.claim(&[0]).is_ok());
    assert_eq!(system.threshold(), 2);
    assert_eq!(system.complete(), Some(0));
    assert_eq!(system.threshold(), 0);
    assert!(!system.is_held(0));
    assert!(!system.is_held(1));
    assert!(system.release().is_none());
    assert_eq!(system.state_of(0), TaskState::Idle);
}

#[test]
fn completing_inside_a_scope_of_the_idle_task_keeps_that_scope() {
    let mut system = started();
    assert!(system.claim(&[1]).is_ok());
    system.fire(1);
    assert_eq!(system.dispatch(), Some(1));
    assert!(system.claim(&[0]).is_ok());
    assert_eq!(system.complete(), Some(1));
    assert_eq!(system.threshold(), 1);
    assert!(system.is_held(1));
    assert!(system.holds(1));
    assert!(!system.is_held(0));
}

#[test]
fn masked_events_run_in_priority_order_once_the_scope_is_left() {
    let mut system =
        build(&[3], vec![task(1, &[0], "a"), task(2, &[0], "b"), task(3, &[0], "c")])
            .unwrap_or_else(|e| panic!("{e:?}"));
    system.start();
    assert!(system.claim(&[0]).is_ok());
    system.fire(0);
    system.fire(1);
    system.fire(2);
    assert_eq!(system.dispatch(), None);
    assert!(system.release().is_some());
    assert_eq!(system.dispatch(), Some(2));
    assert_eq!(system.complete(), Some(2));
    assert_eq!(system.dispatch(), Some(1));
    assert_eq!(system.complete(), Some(1));
    assert_eq!(system.dispatch(), Some(0));
    assert_eq!(system.complete(), Some(0));
    assert_eq!(system.dispatch(), None);
}

#[test]
fn an_event_that_is_not_consumed_starts_its_task_again() {
    let mut system = started();
    system.fire(1);
    for _ in 0..5 {
        assert_eq!(system.dispatch(), Some(1));
        system.fire(1);
        assert_eq!(system.complete(), Some(1));
    }
    assert_eq!(system.dispatch(), Some(1));
    assert_eq!(system.complete(), Some(1));
    assert_eq!(system.dispatch(), None);
}

#[test]
fn tables_are_read_back_by_index() {
    let system = started();
    assert_eq!(system.ceiling_of(0), Some(2));
    assert_eq!(system.ceiling_of(1), Some(1));
    assert_eq!(system.ceiling_of(2), Some(3));
    assert_eq!(system.ceiling_of(3), None);
    assert_eq!(system.priority_of(0), Some(1));
    assert_eq!(system.priority_of(2), Some(3));
    assert_eq!(system.priority_of(3), None);
    assert_eq!(system.handler_of(0), Some(&"low"));
    assert_eq!(system.handler_of(1), Some(&"middle"));
    assert_eq!(system.handler_of(2), Some(&"high"));
    assert_eq!(system.handler_of(3), None);
    assert_eq!(ResourceCell::new(4, "pin").ceiling(), 4);
}

#[test]
fn the_contents_are_changed_in_place_inside_a_lock_scope() {
    let mut system = started();
    assert!(system.borrow_mut(0).is_none());
    assert!(system.borrow_mut(9).is_none());
    assert!(system.claim(&[0, 2]).is_ok());
    match system.borrow_mut(0) {
        Some(contents) => {
            assert_eq!(*contents, 100);
            *contents += 11;
        }
        None => panic!("a held cell is out of reach"),
    }
    assert!(system.borrow_mut(1).is_none());
    assert_eq!(system.read(0), Some(&111));
    assert_eq!(system.read(2), Some(&102));
    assert_eq!(system.threshold(), 3);
    assert!(system.release().is_some());
    assert!(system.borrow_mut(0).is_none());
    assert!(system.claim(&[0]).is_ok());
    assert_eq!(system.replace(0, 5), Ok(111));
}

#[test]
fn a_task_of_priority_zero_is_never_started() {
    let mut system = build(&[0], vec![task(0, &[0], "never")]).unwrap_or_else(|e| panic!("{e:?}"));
    system.start();
    assert!(system.fire(0));
    assert_eq!(system.dispatch(), None);
    assert!(system.is_pending(0));
    assert_eq!(system.state_of(0), TaskState::Idle);
}
