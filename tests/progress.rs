use gitstats::progress::Updater;
use std::sync::atomic::{AtomicU64, Ordering};
use std::sync::Arc;

#[test]
fn updater_counts_each_increment() {
    let counter = Arc::new(AtomicU64::new(0));
    let u = Updater::new(Arc::clone(&counter));
    let v = u.clone();
    u.inc();
    v.inc();
    v.inc();
    assert_eq!(counter.load(Ordering::Relaxed), 3);
}
