use musickbeets::memory::rss_kb_from_status;

const STATUS: &str = "Name:\tmusickbeets\nUmask:\t0022\nState:\tS (sleeping)\nVmPeak:\t 2367612 kB\nVmSize:\t 2301224 kB\nVmHWM:\t  512340 kB\nVmRSS:\t  498712 kB\nRssAnon:\t  401200 kB\nThreads:\t12\n";

#[test]
fn reads_vmrss_line() {
    assert_eq!(rss_kb_from_status(STATUS), Some(498712));
}

#[test]
fn first_vmrss_line_wins() {
    assert_eq!(rss_kb_from_status("VmRSS: 10 kB\nVmRSS: 20 kB\n"), Some(10));
}

#[test]
fn carriage_returns_and_units() {
    assert_eq!(rss_kb_from_status("VmRSS:   42 kB\r\n"), Some(42));
    assert_eq!(rss_kb_from_status("VmRSS: 7"), Some(7));
    assert_eq!(rss_kb_from_status("VmRSS: 7 kB kB"), Some(7));
    assert_eq!(rss_kb_from_status("VmRSS:+7 kB"), Some(7));
}

#[test]
fn missing_or_malformed() {
    assert_eq!(rss_kb_from_status(""), None);
    assert_eq!(rss_kb_from_status("VmHWM: 5 kB\n"), None);
    assert_eq!(rss_kb_from_status(" VmRSS: 5 kB\n"), None);
    assert_eq!(rss_kb_from_status("VmRSS: lots\nVmRSS: 5 kB\n"), None);
    assert_eq!(rss_kb_from_status("VmRSS:\n"), None);
    assert_eq!(rss_kb_from_status("VmRSS: 18446744073709551616 kB"), None);
    assert_eq!(rss_kb_from_status("VmRSS: 18446744073709551615 kB"), Some(u64::MAX));
    assert_eq!(rss_kb_from_status("VmRSS: -5 kB"), None);
    assert_eq!(rss_kb_from_status("VmRSS: 5 MB"), None);
}
