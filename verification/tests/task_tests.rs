use kernel_core::task::TaskContext;
use kernel_core::task::TaskControlBlock;
use kernel_core::task::TaskManager;
use kernel_core::task::TaskStatus;

fn ready_task() -> TaskControlBlock {
    TaskControlBlock { task_status: TaskStatus::Ready, task_cx: TaskContext::zero_init() }
}

#[test]
fn round_robin_three_tasks() {
    let mut manager = TaskManager::new();
    manager.add_task(ready_task());
    manager.add_task(ready_task());
    manager.add_task(ready_task());
    // all Ready, current = 0: one step selects 1
    assert_eq!(manager.find_next_task(), Some(1));
    let step = manager.find_next_task_cx().expect("a Ready task exists");
    assert_eq!(step, (0, 1));
    assert_eq!(manager.inner[0].task_status, TaskStatus::Ready);
    assert_eq!(manager.inner[1].task_status, TaskStatus::Running);
    assert_eq!(manager.current_task, 1);
    // a second step from current = 1 selects 2
    let step2 = manager.find_next_task_cx().unwrap();
    assert_eq!(step2, (1, 2));
    assert_eq!(manager.inner[1].task_status, TaskStatus::Ready);
    assert_eq!(manager.inner[2].task_status, TaskStatus::Running);
    assert_eq!(manager.current_task, 2);
}

#[test]
fn round_robin_skips_exited() {
    let mut manager = TaskManager::new();
    manager.add_task(ready_task());
    manager.add_task(TaskControlBlock {
        task_status: TaskStatus::Exited,
        task_cx: TaskContext::zero_init(),
    });
    manager.add_task(ready_task());
    // tasks {0: Ready, 1: Exited, 2: Ready}, current = 0: 1 is skipped
    assert_eq!(manager.find_next_task(), Some(2));
}

#[test]
fn no_ready_task_means_no_step() {
    let mut manager = TaskManager::new();
    manager.add_task(TaskControlBlock {
        task_status: TaskStatus::Exited,
        task_cx: TaskContext::zero_init(),
    });
    assert_eq!(manager.find_next_task(), None);
    assert_eq!(manager.find_next_task_cx(), None);
    assert_eq!(manager.inner[0].task_status, TaskStatus::Exited);
}

#[test]
fn empty_manager_schedules_nothing() {
    let mut manager = TaskManager::new();
    assert_eq!(manager.find_next_task(), None);
    assert_eq!(manager.find_next_task_cx(), None);
}

#[test]
fn single_task_reselects_itself() {
    let mut manager = TaskManager::new();
    manager.add_task(ready_task());
    let step = manager.find_next_task_cx().unwrap();
    assert_eq!(step, (0, 0));
    assert_eq!(manager.inner[0].task_status, TaskStatus::Running);
    assert_eq!(manager.current_task, 0);
}

#[test]
fn wrap_around_selects_earlier_index() {
    let mut manager = TaskManager::new();
    manager.add_task(ready_task());
    manager.add_task(ready_task());
    manager.add_task(ready_task());
    // move current to 2, then the next pick wraps to 0
    manager.find_next_task_cx();
    manager.find_next_task_cx();
    assert_eq!(manager.current_task, 2);
    assert_eq!(manager.find_next_task(), Some(0));
}

#[test]
fn goto_restore_builds_switch_target() {
    let cx = TaskContext::goto_restore(0x9000_0000, 0x8020_0000);
    assert_eq!(cx.ra, 0x8020_0000);
    assert_eq!(cx.sp, 0x9000_0000);
    assert_eq!(cx.s, [0u64; 12]);
}

#[test]
fn zero_init_is_all_zero() {
    let cx = TaskContext::zero_init();
    assert_eq!(cx.ra, 0);
    assert_eq!(cx.sp, 0);
    assert_eq!(cx.s, [0u64; 12]);
}
