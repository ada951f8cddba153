use scuttlecast::spelling::Elapsed;

fn elapsed(seconds: u64) -> String {
    Elapsed(seconds * 1_000_000_000).text()
}

#[test]
fn spells_out_hours_only_once_there_are_any() {
    assert_eq!(elapsed(9), "0m09s");
    assert_eq!(elapsed(615), "10m15s");
    assert_eq!(elapsed(7565), "2h06m05s");
}

#[test]
fn counts_only_whole_seconds() {
    assert_eq!(Elapsed(59_999_999_999).text(), "0m59s");
    assert_eq!(elapsed(3599), "59m59s");
    assert_eq!(elapsed(3600), "1h00m00s");
    assert_eq!(elapsed(360_000), "100h00m00s");
}
