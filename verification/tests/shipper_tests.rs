use lognplot::shipper::split_line;

fn split(line: &str) -> Option<(String, String)> {
    split_line(line)
}

#[test]
fn shipper_splits_strace_lines() {
    assert_eq!(
        split("1690000000.123456789 write(1, \"hi\", 2) = 2"),
        Some(("1690000000.123456789".to_string(), "write(1, \"hi\", 2) = 2".to_string()))
    );
    assert_eq!(split("0.5 x"), Some(("0.5".to_string(), "x".to_string())));
    // The message may hold spaces and any other character but a line feed.
    assert_eq!(split("1.25  two  spaces"), Some(("1.25".to_string(), " two  spaces".to_string())));
    assert_eq!(split("3.0 ünïcödé"), Some(("3.0".to_string(), "ünïcödé".to_string())));
}

#[test]
fn shipper_rejects_other_lines() {
    assert_eq!(split(""), None);
    assert_eq!(split("no timestamp"), None);
    assert_eq!(split("12 no dot"), None);
    assert_eq!(split(".5 no integer part"), None);
    assert_eq!(split("1. no fraction"), None);
    assert_eq!(split("1.2.3 two dots"), None);
    assert_eq!(split("1.5"), None);
    assert_eq!(split("1.5 "), None);
    assert_eq!(split("1.5x y"), None);
    assert_eq!(split("1.5 a\nb"), None);
}
