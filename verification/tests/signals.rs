use lightctl::batcher::Batcher;
use lightctl::gate::Gate;

#[test]
fn fresh_batcher_is_clean() {
    let mut b = Batcher::new();
    assert!(!b.pull());
}

#[test]
fn a_burst_of_requests_yields_one_sync() {
    let mut b = Batcher::new();
    for _ in 0..100 {
        b.request();
    }
    // the tick after the burst syncs once
    assert!(b.pull());
    // the next tick finds nothing to do
    assert!(!b.pull());
}

#[test]
fn requests_between_ticks_coalesce_again() {
    let mut b = Batcher::new();
    b.request();
    assert!(b.pull());
    b.request();
    b.request();
    assert!(b.pull());
    assert!(!b.pull());
}

#[test]
fn exactly_one_claimant_proceeds() {
    let mut g = Gate::new();
    assert!(g.try_claim());
    // a second synchronous write attempt is rejected, not queued
    assert!(!g.try_claim());
    assert!(!g.try_claim());
}

#[test]
fn release_clears_the_gate_for_the_next_writer() {
    let mut g = Gate::new();
    assert!(g.try_claim());
    g.release();
    assert!(g.try_claim());
    g.release();
    // a failure path also ends with the claim released
    g.release();
    assert!(g.try_claim());
}
