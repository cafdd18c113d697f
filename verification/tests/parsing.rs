use smem_exporter::bytes::{bytes_eq, contains_bytes};
use smem_exporter::procinfo::{is_pid_name, resolve_name};
use smem_exporter::smaps::{parse_kb_value, parse_smaps};

fn lines(ls: &[&str]) -> Vec<Vec<u8>> {
    ls.iter().map(|l| l.as_bytes().to_vec()).collect()
}

#[test]
fn kb_value_plain_number() {
    assert_eq!(parse_kb_value(&b"100".to_vec()), Some(100));
}

#[test]
fn kb_value_with_leading_space_and_unit() {
    assert_eq!(parse_kb_value(&b"     100 kB".to_vec()), Some(100));
}

#[test]
fn kb_value_empty_is_none() {
    assert_eq!(parse_kb_value(&b"".to_vec()), None);
    assert_eq!(parse_kb_value(&b"   ".to_vec()), None);
}

#[test]
fn kb_value_non_numeric_is_none() {
    assert_eq!(parse_kb_value(&b"abc kB".to_vec()), None);
    assert_eq!(parse_kb_value(&b"12x kB".to_vec()), None);
    assert_eq!(parse_kb_value(&b"+5 kB".to_vec()), None);
}

#[test]
fn kb_value_at_u64_max() {
    assert_eq!(
        parse_kb_value(&b"18446744073709551615 kB".to_vec()),
        Some(u64::MAX)
    );
}

#[test]
fn kb_value_above_u64_max_is_none() {
    assert_eq!(parse_kb_value(&b"18446744073709551616 kB".to_vec()), None);
    assert_eq!(parse_kb_value(&b"99999999999999999999999 kB".to_vec()), None);
}

#[test]
fn smaps_scenario_totals() {
    let ls = lines(&[
        "Rss:                 100 kB",
        "Pss:                  50 kB",
        "Private_Clean:        10 kB",
        "Private_Dirty:         5 kB",
    ]);
    let (rss, pss, uss) = parse_smaps(&ls);
    assert_eq!(rss, 102400);
    assert_eq!(pss, 51200);
    assert_eq!(uss, 15360);
}

#[test]
fn smaps_accumulates_repeated_labels() {
    let ls = lines(&[
        "Rss:                   1 kB",
        "Size:                999 kB",
        "Rss:                   2 kB",
        "Private_Dirty:         3 kB",
        "Private_Clean:         4 kB",
    ]);
    let (rss, pss, uss) = parse_smaps(&ls);
    assert_eq!(rss, 3 * 1024);
    assert_eq!(pss, 0);
    assert_eq!(uss, 7 * 1024);
}

#[test]
fn smaps_unparsable_field_counts_as_zero() {
    let ls = lines(&["Rss:", "Rss: garbage kB", "Rss: 6 kB"]);
    let (rss, _, _) = parse_smaps(&ls);
    assert_eq!(rss, 6 * 1024);
}

#[test]
fn smaps_empty_input_is_all_zero() {
    let ls: Vec<Vec<u8>> = Vec::new();
    assert_eq!(parse_smaps(&ls), (0, 0, 0));
}

#[test]
fn resolve_name_prefers_trimmed_comm() {
    let r = resolve_name(&b"  nginx\n".to_vec(), &b"/usr/bin/other\0-x\0".to_vec());
    assert_eq!(r, Some(b"nginx".to_vec()));
}

#[test]
fn resolve_name_falls_back_to_cmdline_token() {
    let r = resolve_name(&b" \n ".to_vec(), &b"/usr/bin/python3\0-m\0http.server\0".to_vec());
    assert_eq!(r, Some(b"/usr/bin/python3".to_vec()));
}

#[test]
fn resolve_name_cmdline_skips_leading_delimiters() {
    let r = resolve_name(&b"".to_vec(), &b"\0\0worker arg".to_vec());
    assert_eq!(r, Some(b"worker".to_vec()));
}

#[test]
fn resolve_name_none_when_both_empty() {
    assert_eq!(resolve_name(&b"  \n".to_vec(), &b"".to_vec()), None);
    assert_eq!(resolve_name(&b"".to_vec(), &b"\0\0\0".to_vec()), None);
}

#[test]
fn pid_names_are_purely_numeric() {
    assert!(is_pid_name(&b"1".to_vec()));
    assert!(is_pid_name(&b"41872".to_vec()));
    assert!(!is_pid_name(&b"self".to_vec()));
    assert!(!is_pid_name(&b"12a4".to_vec()));
    assert!(!is_pid_name(&b"12 4".to_vec()));
}

#[test]
fn substring_search() {
    assert!(contains_bytes(&b"systemd-journald".to_vec(), &b"journal".to_vec()));
    assert!(!contains_bytes(&b"systemd".to_vec(), &b"journal".to_vec()));
    assert!(contains_bytes(&b"anything".to_vec(), &b"".to_vec()));
    assert!(!contains_bytes(&b"ab".to_vec(), &b"abc".to_vec()));
}

#[test]
fn byte_equality() {
    assert!(bytes_eq(&b"uss".to_vec(), &b"uss".to_vec()));
    assert!(!bytes_eq(&b"uss".to_vec(), &b"rss".to_vec()));
    assert!(!bytes_eq(&b"uss".to_vec(), &b"us".to_vec()));
}
