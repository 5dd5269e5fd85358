use file_indexer::lifecycle::{
    index_source, next_step, refresh_period_secs, IndexSource, Outcome, Step, INDEX_FILE_NAME,
    REFRESH_INTERVAL_HOURS,
};

#[test]
fn a_query_loads_what_is_persisted() {
    assert_eq!(index_source(true), IndexSource::Load);
    assert_eq!(index_source(false), IndexSource::BuildAndSave);
}

#[test]
fn the_refresh_period_is_one_hour() {
    assert_eq!(REFRESH_INTERVAL_HOURS, 1);
    assert_eq!(refresh_period_secs(REFRESH_INTERVAL_HOURS), Some(3600));
    assert_eq!(INDEX_FILE_NAME, "new_index.json");
}

#[test]
fn the_refresh_period_in_seconds() {
    assert_eq!(refresh_period_secs(0), None);
    assert_eq!(refresh_period_secs(2), Some(7200));
    assert_eq!(refresh_period_secs(24), Some(86400));
    assert_eq!(refresh_period_secs(u64::MAX / 3600), Some((u64::MAX / 3600) * 3600));
    assert_eq!(refresh_period_secs(u64::MAX / 3600 + 1), None);
    assert_eq!(refresh_period_secs(u64::MAX), None);
}

#[test]
fn a_cycle_walks_then_saves_then_waits() {
    assert_eq!(next_step(Step::AwaitTick, Outcome::Done), Step::Walk);
    assert_eq!(next_step(Step::Walk, Outcome::Done), Step::Save);
    assert_eq!(next_step(Step::Save, Outcome::Done), Step::AwaitTick);
}

#[test]
fn a_failure_waits_for_the_next_tick() {
    assert_eq!(next_step(Step::AwaitTick, Outcome::Failed), Step::AwaitTick);
    assert_eq!(next_step(Step::Walk, Outcome::Failed), Step::AwaitTick);
    assert_eq!(next_step(Step::Save, Outcome::Failed), Step::AwaitTick);
}

#[test]
fn the_cycle_goes_on_after_a_failed_save() {
    let mut step = Step::AwaitTick;
    let outcomes = [Outcome::Done, Outcome::Done, Outcome::Failed, Outcome::Done, Outcome::Done, Outcome::Done];
    let mut seen = Vec::new();
    for outcome in outcomes {
        step = next_step(step, outcome);
        seen.push(step);
    }
    assert_eq!(
        seen,
        vec![Step::Walk, Step::Save, Step::AwaitTick, Step::Walk, Step::Save, Step::AwaitTick]
    );
}
