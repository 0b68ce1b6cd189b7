use gw2_overlay::api::retry::{AttemptOutcome, NextStep, RetryState};
use gw2_overlay::error::AppError;

#[test]
fn rate_limits_back_off_four_times_then_give_up() {
    let mut st = RetryState::new();
    let mut waits = Vec::new();
    let end = loop {
        match st.record(AttemptOutcome::Status(429)) {
            NextStep::Retry(ms) => waits.push(ms),
            other => break other,
        }
    };
    assert_eq!(waits, vec![1000, 2000, 4000, 8000]);
    assert_eq!(st.retries, 4);
    assert!(matches!(end, NextStep::Fail(AppError::RateLimited)));
}

#[test]
fn server_errors_report_last_status() {
    let mut st = RetryState::new();
    assert!(matches!(st.record(AttemptOutcome::Status(429)), NextStep::Retry(1000)));
    assert!(matches!(st.record(AttemptOutcome::Status(503)), NextStep::Retry(2000)));
    assert!(matches!(st.give_up(), AppError::Unavailable(503)));
    assert!(matches!(st.record(AttemptOutcome::Transient), NextStep::Retry(4000)));
    assert!(matches!(st.give_up(), AppError::Unavailable(0)));
    assert!(matches!(st.record(AttemptOutcome::Status(500)), NextStep::Retry(8000)));
    assert!(matches!(st.record(AttemptOutcome::Status(502)), NextStep::Fail(AppError::Unavailable(502))));
}

#[test]
fn transient_errors_give_up_as_unavailable_zero() {
    let mut st = RetryState::new();
    for _ in 0..4 {
        assert!(matches!(st.record(AttemptOutcome::Transient), NextStep::Retry(_)));
    }
    assert!(matches!(st.record(AttemptOutcome::Transient), NextStep::Fail(AppError::Unavailable(0))));
}

#[test]
fn terminal_outcomes() {
    let mut st = RetryState::new();
    assert!(matches!(st.record(AttemptOutcome::Status(200)), NextStep::Deliver));
    assert!(matches!(st.record(AttemptOutcome::Status(401)), NextStep::Fail(AppError::Unauthorized)));
    assert!(matches!(st.record(AttemptOutcome::Status(403)), NextStep::Fail(AppError::Unauthorized)));
    assert!(matches!(st.record(AttemptOutcome::Status(404)), NextStep::ReportStatus(404)));
    assert!(matches!(st.record(AttemptOutcome::Failed), NextStep::Propagate));
    assert_eq!(st.retries, 0);
}
