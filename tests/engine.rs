use state_machine::machine::backoff::{exponential_backoff, Backoff, Clock, Next, Operation};
use state_machine::machine::error::StateMachineError;
use state_machine::machine::state::{
    block_matches, should_retry, Condition, ErrorBlock, State, StateMachine, StepFunction,
};

#[derive(Debug, Clone, PartialEq)]
struct Data {
    counter: i64,
}

struct Func(fn(&mut Data) -> Result<(), StateMachineError>);

impl StepFunction<Data> for Func {
    fn call(&self, data: &mut Data) -> Result<(), StateMachineError> {
        (self.0)(data)
    }
}

struct Cond(fn() -> bool);

impl Condition for Cond {
    fn check(&self) -> bool {
        (self.0)()
    }
}

struct Recorder {
    slept: Vec<u64>,
}

impl Clock for Recorder {
    fn sleep(&mut self, seconds: u64) {
        self.slept.push(seconds);
    }
}

type Machine = StateMachine<Data, Func, Cond>;

fn add_one(d: &mut Data) -> Result<(), StateMachineError> {
    d.counter += 1;
    Ok(())
}

fn add_hundred(d: &mut Data) -> Result<(), StateMachineError> {
    d.counter += 100;
    Ok(())
}

fn times_one(d: &mut Data) -> Result<(), StateMachineError> {
    d.counter *= 1;
    Ok(())
}

fn times_five(d: &mut Data) -> Result<(), StateMachineError> {
    d.counter *= 5;
    Ok(())
}

fn times_ten(d: &mut Data) -> Result<(), StateMachineError> {
    d.counter *= 10;
    Ok(())
}

fn yes() -> bool {
    true
}

fn no() -> bool {
    false
}

fn machine(counter: i64) -> Machine {
    StateMachine::new("M".to_string(), Data { counter }, 3)
}

fn clock() -> Recorder {
    Recorder { slept: Vec::new() }
}

#[test]
fn listed_ids_are_the_registered_ones() {
    let mut m = machine(0);
    m.step("A", State::Task, Func(add_one), None, None, None, None);
    m.step("B", State::Pass, Func(add_one), None, None, None, None);
    m.step("C", State::Task, Func(add_one), None, None, None, None);
    let mut ids = m.get_node_ids();
    ids.sort();
    assert_eq!(ids, vec!["A", "B", "C"]);
    assert!(m.validate_node_ids());
}

#[test]
fn empty_machine_passes() {
    let mut m = machine(9);
    assert!(m.get_node_ids().is_empty());
    assert!(m.execute(&mut clock()).is_ok());
    assert_eq!(m.shared_data().counter, 9);
}

#[test]
fn clean_pass_runs_every_step_once() {
    let mut m = machine(5);
    m.step("A", State::Task, Func(add_one), None, None, None, None);
    m.step("B", State::Task, Func(add_hundred), None, None, None, Some(false));
    m.step("C", State::Task, Func(times_five), None, None, None, None);
    assert!(m.execute(&mut clock()).is_ok());
    assert_eq!(m.shared_data().counter, (5 + 1 + 100) * 5);
}

#[test]
fn end_step_stops_the_pass_before_it_runs() {
    let mut m = machine(5);
    m.step("NodeA", State::Task, Func(add_one), None, None, None, None);
    m.step("NodeB", State::Task, Func(add_hundred), None, None, None, None);
    m.step("NodeC", State::Task, Func(times_one), None, None, None, None);
    m.step("NodeD", State::Task, Func(times_five), None, None, None, Some(true));
    m.step("NodeE", State::Task, Func(add_one), None, None, None, None);
    assert!(m.execute(&mut clock()).is_ok());
    assert_eq!(m.into_shared_data().counter, 106);
}

#[test]
fn false_choice_skips_its_work() {
    let mut m = machine(5);
    m.step("A", State::Choice(Cond(no)), Func(add_hundred), None, None, None, None);
    m.step("B", State::Choice(Cond(yes)), Func(add_one), None, None, None, None);
    assert!(m.execute(&mut clock()).is_ok());
    assert_eq!(m.shared_data().counter, 6);
}

#[test]
fn sleep_waits_and_runs_no_work() {
    let mut m = machine(5);
    m.step("A", State::Sleep(7), Func(add_hundred), None, None, None, None);
    let mut c = clock();
    assert!(m.execute(&mut c).is_ok());
    assert_eq!(c.slept, vec![7]);
    assert_eq!(m.shared_data().counter, 5);
}

#[test]
fn inert_kinds_run_no_work() {
    let mut m = machine(5);
    m.step("P", State::Pass, Func(add_one), None, None, None, None);
    m.step("Q", State::Parallel, Func(add_one), None, None, None, None);
    m.step("R", State::Succeed, Func(add_one), None, None, None, None);
    m.step("S", State::Fail, Func(add_one), None, None, None, None);
    m.step("T", State::MapState, Func(add_one), None, None, None, None);
    m.step("U", State::CustomState, Func(add_one), None, None, None, None);
    assert!(m.execute(&mut clock()).is_ok());
    assert_eq!(m.shared_data().counter, 5);
}

#[test]
fn listed_failure_is_retried_with_backoff() {
    let mut m = machine(5);
    m.step("A", State::Task, Func(Machine::error), None, None, Some(vec!["STATE.FAILED"]), None);
    m.step("B", State::Task, Func(add_one), None, None, None, None);
    let mut c = clock();
    let r = m.execute(&mut c);
    assert_eq!(r.err().unwrap().to_string(), "STATE.FAILED");
    assert_eq!(c.slept, vec![1, 2, 4]);
    assert_eq!(m.shared_data().counter, 5);
}

#[test]
fn unlisted_failure_is_not_retried() {
    let mut m = machine(5);
    m.step("A", State::Task, Func(Machine::error), None, None, Some(vec!["OTHER"]), None);
    let mut c = clock();
    let r = m.execute(&mut c);
    assert_eq!(r.err().unwrap().message, "STATE.FAILED");
    assert!(c.slept.is_empty());
}

struct Flaky {
    failures_left: u32,
    calls: u32,
}

impl Operation<Data, String> for Flaky {
    fn attempt(&mut self, data: &mut Data) -> Result<(), String> {
        self.calls += 1;
        if self.failures_left > 0 {
            self.failures_left -= 1;
            Err(format!("failure {}", self.calls))
        } else {
            data.counter += 1;
            Ok(())
        }
    }
}

#[test]
fn backoff_succeeds_on_third_attempt() {
    let mut op = Flaky { failures_left: 2, calls: 0 };
    let mut data = Data { counter: 0 };
    let mut c = clock();
    let (r, schedule) = exponential_backoff(&mut op, &mut data, Some(3), &mut c);
    assert_eq!(r, Ok(()));
    assert_eq!(op.calls, 3);
    assert_eq!(schedule.attempts, 3);
    assert_eq!(c.slept, vec![1, 2]);
    assert_eq!(data.counter, 1);
}

#[test]
fn backoff_gives_up_after_budget_and_final_attempt() {
    let mut op = Flaky { failures_left: u32::MAX, calls: 0 };
    let mut data = Data { counter: 0 };
    let mut c = clock();
    let (r, schedule) = exponential_backoff(&mut op, &mut data, Some(4), &mut c);
    assert_eq!(r, Err("failure 5".to_string()));
    assert_eq!(op.calls, 5);
    assert_eq!(schedule.attempts, 5);
    assert_eq!(schedule.retries_done, 4);
    assert_eq!(c.slept, vec![1, 2, 4, 8]);
}

#[test]
fn backoff_defaults_to_five_retries() {
    let mut op = Flaky { failures_left: u32::MAX, calls: 0 };
    let mut data = Data { counter: 0 };
    let mut c = clock();
    let (r, schedule) = exponential_backoff(&mut op, &mut data, None, &mut c);
    assert!(r.is_err());
    assert_eq!(schedule.max_retries, 5);
    assert_eq!(op.calls, 6);
    assert_eq!(c.slept, vec![1, 2, 4, 8, 16]);
}

#[test]
fn backoff_honours_a_budget_above_five() {
    let mut op = Flaky { failures_left: u32::MAX, calls: 0 };
    let mut data = Data { counter: 0 };
    let mut c = clock();
    let (r, schedule) = exponential_backoff(&mut op, &mut data, Some(7), &mut c);
    assert!(r.is_err());
    assert_eq!(schedule.attempts, 8);
    assert_eq!(op.calls, 8);
    assert_eq!(c.slept, vec![1, 2, 4, 8, 16, 32, 64]);
}

#[test]
fn backoff_first_success_needs_no_wait() {
    let mut op = Flaky { failures_left: 0, calls: 0 };
    let mut data = Data { counter: 0 };
    let mut c = clock();
    let (r, schedule) = exponential_backoff(&mut op, &mut data, Some(0), &mut c);
    assert_eq!(r, Ok(()));
    assert_eq!(schedule.attempts, 1);
    assert_eq!(op.calls, 1);
    assert!(c.slept.is_empty());
}

#[test]
fn backoff_schedule_doubles() {
    let mut b = Backoff::new(Some(3));
    assert_eq!(b.max_retries, 3);
    assert!(b.can_retry());
    assert_eq!(b.after_attempt(false), Next::Retry(1));
    assert_eq!(b.after_attempt(false), Next::Retry(2));
    assert_eq!(b.after_attempt(false), Next::Retry(4));
    assert_eq!(b.delay, 8);
    assert!(!b.can_retry());
    assert_eq!(b.after_attempt(false), Next::GiveUp);
    assert_eq!(b.attempts, 4);
    assert!(b.finished);
    assert_eq!(Backoff::new(None).max_retries, 5);
}

#[test]
fn backoff_success_ends_the_schedule() {
    let mut b = Backoff::new(Some(3));
    assert_eq!(b.after_attempt(false), Next::Retry(1));
    assert_eq!(b.after_attempt(true), Next::Done);
    assert_eq!(b.attempts, 2);
    assert_eq!(b.retries_done, 1);
}

fn catching_machine(first: fn(&mut Data) -> Result<(), StateMachineError>, listed: &str) -> Machine {
    let mut m = machine(5);
    let table = vec![
        ErrorBlock { error_equals: vec![listed.to_string()], next: Func(first) },
        ErrorBlock { error_equals: vec!["NOPE".to_string()], next: Func(add_hundred) },
        ErrorBlock { error_equals: vec!["X".to_string(), listed.to_string()], next: Func(times_ten) },
    ];
    m.step("A", State::Task, Func(Machine::okay), Some(Func(Machine::error)), Some(table), None, None);
    m
}

#[test]
fn matching_catch_entries_run_in_order() {
    let mut m = catching_machine(add_one, "STATE.FAILED");
    // the override fails, which leaves the error pending
    let first = m.execute(&mut clock());
    assert_eq!(first.err().unwrap().message, "STATE.FAILED");
    assert_eq!(m.shared_data().counter, 5);
    let second = m.execute(&mut clock());
    assert_eq!(second.err().unwrap().message, "STATE.FAILED");
    assert_eq!(m.shared_data().counter, (5 + 1) * 10);
}

#[test]
fn unmatched_pending_error_fails_with_its_message() {
    let mut m = catching_machine(add_one, "SOMETHING.ELSE");
    assert!(m.execute(&mut clock()).is_err());
    let second = m.execute(&mut clock());
    assert_eq!(second.err().unwrap().message, "STATE.FAILED");
    assert_eq!(m.shared_data().counter, 5);
}

#[test]
fn failing_recovery_becomes_the_error() {
    let mut m = catching_machine(Machine::error, "STATE.FAILED");
    assert!(m.execute(&mut clock()).is_err());
    let second = m.execute(&mut clock());
    assert_eq!(second.err().unwrap().message, "STATE.FAILED");
    assert_eq!(m.shared_data().counter, 5);
}

#[test]
fn pending_error_without_catch_table_fails_the_pass() {
    let mut m = machine(5);
    m.step("A", State::Task, Func(add_one), Some(Func(Machine::error)), None, None, None);
    assert!(m.execute(&mut clock()).is_err());
    assert_eq!(m.shared_data().counter, 5);
    let second = m.execute(&mut clock());
    assert_eq!(second.err().unwrap().to_string(), "STATE.FAILED");
    assert_eq!(m.shared_data().counter, 5);
}

#[test]
fn execute_by_id_of_unknown_step_does_nothing() {
    let mut m = machine(5);
    m.step("A", State::Task, Func(add_one), None, None, None, None);
    assert!(m.execute_by_id("missing", &mut clock()).is_ok());
    assert!(m.execute_by_id("missing", &mut clock()).is_ok());
    assert_eq!(m.shared_data().counter, 5);
}

#[test]
fn execute_by_id_runs_one_step() {
    let mut m = machine(5);
    m.step("A", State::Task, Func(add_one), None, None, None, None);
    m.step("B", State::Task, Func(times_five), None, None, None, Some(true));
    assert!(m.execute_by_id("B", &mut clock()).is_ok());
    assert_eq!(m.shared_data().counter, 25);
}

#[test]
fn execute_by_id_reports_failure() {
    let mut m = machine(5);
    m.step("A", State::Task, Func(Machine::error), None, None, Some(vec!["STATE.FAILED"]), None);
    let mut c = clock();
    let r = m.execute_by_id("A", &mut c);
    assert_eq!(r.err().unwrap().message, "STATE.FAILED");
    assert!(c.slept.is_empty());
}

#[test]
fn third_run_of_a_step_fails_the_pass() {
    let mut m = machine(5);
    m.step("A", State::Task, Func(add_one), None, None, None, None);
    assert!(m.execute(&mut clock()).is_ok());
    assert!(m.execute(&mut clock()).is_ok());
    let r = m.execute(&mut clock());
    assert_eq!(
        r.err().unwrap().message,
        "state machine M failed for step A. Step have been invoked upto three times"
    );
    assert_eq!(m.shared_data().counter, 7);
}

#[test]
fn direct_runs_do_not_count() {
    let mut m = machine(5);
    m.step("A", State::Task, Func(add_one), None, None, None, None);
    for _ in 0..3 {
        assert!(m.execute_by_id("A", &mut clock()).is_ok());
    }
    assert!(m.execute(&mut clock()).is_ok());
    assert_eq!(m.shared_data().counter, 9);
}

#[test]
fn direct_run_ignores_end_flag_and_override() {
    let mut m = machine(5);
    m.step("A", State::Task, Func(add_one), Some(Func(Machine::error)), None, None, Some(true));
    assert!(m.execute_by_id("A", &mut clock()).is_ok());
    assert_eq!(m.shared_data().counter, 6);
}

#[test]
fn has_id_reports_registered_ids() {
    let mut m = machine(5);
    assert!(!m.has_id("A"));
    m.step("A", State::Task, Func(add_one), None, None, None, None);
    assert!(m.has_id("A"));
    assert!(!m.has_id("B"));
}

#[test]
fn builtin_steps() {
    let mut d = Data { counter: 3 };
    assert!(Machine::okay(&mut d).is_ok());
    assert!(Machine::pass(&mut d).is_ok());
    assert!(Machine::choice(&mut d).is_ok());
    assert_eq!(Machine::error(&mut d).err().unwrap().to_string(), "STATE.FAILED");
    assert_eq!(d.counter, 3);
}

#[test]
fn matching_helpers() {
    let block = ErrorBlock { error_equals: vec!["A".to_string(), "B".to_string()], next: Func(add_one) };
    assert!(block_matches(&block, &"B".to_string()));
    assert!(!block_matches(&block, &"C".to_string()));
    let retry = Some(vec!["STATE.FAILED".to_string()]);
    assert!(should_retry(&retry, &"STATE.FAILED".to_string()));
    assert!(!should_retry(&retry, &"STATE".to_string()));
    assert!(!should_retry(&None, &"STATE.FAILED".to_string()));
}
