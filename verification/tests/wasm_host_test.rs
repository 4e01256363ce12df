use twinz::wasm::{db_put_status, raw_read_status, raw_write_status};

#[test]
fn db_put_codes_follow_the_first_failed_step() {
    assert_eq!(db_put_status(false, true, true, true), -1);
    assert_eq!(db_put_status(true, false, true, true), -2);
    assert_eq!(db_put_status(true, true, false, true), -3);
    assert_eq!(db_put_status(true, true, true, false), -4);
    assert_eq!(db_put_status(true, true, true, true), 0);
}

#[test]
fn raw_read_codes() {
    assert_eq!(raw_read_status(false, 5, true), -1);
    assert_eq!(raw_read_status(true, 5, false), -2);
    assert_eq!(raw_read_status(true, 5, true), 5);
    assert_eq!(raw_read_status(true, 0, false), 0);
}

#[test]
fn raw_write_codes() {
    assert_eq!(raw_write_status(false, true, Some(3)), -1);
    assert_eq!(raw_write_status(true, false, Some(3)), -2);
    assert_eq!(raw_write_status(true, true, Some(3)), 3);
    assert_eq!(raw_write_status(true, true, None), 0);
}
