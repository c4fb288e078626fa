use watt::testing::{classify, Outcome, TesterResults};

#[test]
fn classify_outcomes() {
    let out = vec![1u8, 2, 3];
    assert_eq!(classify(false, Some(&out), &out), Outcome::Crashed);
    assert_eq!(classify(true, None, &out), Outcome::NoExpectedOutput);
    assert_eq!(classify(true, Some(&vec![1u8, 2, 3]), &out), Outcome::Matched);
    assert_eq!(classify(true, Some(&vec![1u8, 2]), &out), Outcome::Mismatched);
    assert_eq!(classify(true, Some(&vec![1u8, 2, 4]), &out), Outcome::Mismatched);
}

#[test]
fn record_counts_every_run() {
    let mut r = TesterResults::new();
    r.record(Outcome::Matched);
    r.record(Outcome::Crashed);
    r.record(Outcome::NoExpectedOutput);
    r.record(Outcome::Mismatched);
    assert_eq!(r.ran, 4);
    assert_eq!(r.ok, 2);
    assert_eq!(r.fail, 2);
    assert_eq!(r.ran, r.ok + r.fail);
}
