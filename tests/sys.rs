use apue::sys::{decode_status, major, minor, LibcResult, ProcessStatus};

#[test]
fn to_option_sentinels() {
    assert_eq!((-1i32).to_option(), None);
    assert_eq!(0i32.to_option(), Some(0));
    assert_eq!(7i32.to_option(), Some(7));
    assert_eq!((-1i64).to_option(), None);
    assert_eq!(42i64.to_option(), Some(42));
    assert_eq!(0isize.to_option(), None);
    assert_eq!((-3isize).to_option(), None);
    assert_eq!(5isize.to_option(), Some(5));
    assert_eq!(libc::SIG_ERR.to_option(), None);
    assert_eq!(0usize.to_option(), Some(0));
}

#[test]
fn device_numbers() {
    assert_eq!(major(0x1234_5678), 0x12);
    assert_eq!(minor(0x1234_5678), 0x34_5678);
    assert_eq!(major(0xff_ff00_0000), 0xff);
}

#[test]
fn decode_exit_statuses() {
    assert_eq!(decode_status(0), ProcessStatus::Exited { code: 0 });
    assert_eq!(decode_status(7 << 8), ProcessStatus::Exited { code: 7 });
    assert_eq!(decode_status(9), ProcessStatus::Signaled { signal: 9, core_dumped: false });
    assert_eq!(decode_status(0x80 | 6), ProcessStatus::Signaled { signal: 6, core_dumped: true });
    assert_eq!(decode_status((19 << 8) | 0x7f), ProcessStatus::Stopped { signal: 19 });
    assert_eq!(decode_status(0xffff), ProcessStatus::Other);
}
