use stark_backend::meter;
use stark_backend::meter::Words;

#[test]
fn host_meter_records_nothing() {
    meter::account(5, true);
    meter::phase(2, 9);
    assert_eq!(meter::now(), 0);
    assert_eq!(meter::read(), [0u64; 12]);
    meter::reset();
    assert_eq!(meter::read(), [0u64; 12]);
}

#[test]
fn words_add_up_what_was_spent() {
    let mut w = Words::new();
    w.account(100, 90, false);
    w.account(90, 60, true);
    // a counter that went up has spent nothing
    w.account(10, 20, true);
    w.phase(0, 50, 45);
    w.phase(3, 45, 44);
    assert_eq!(w.read(), [40, 3, 2, 0, 5, 0, 0, 1, 0, 0, 0, 0]);
    w.reset();
    assert_eq!(w.read(), [0; 12]);
}
