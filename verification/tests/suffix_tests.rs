use bsp::suffix::{first_suffix_text, get_next_suffix};

fn advance(start: &str, steps: usize, numeric: bool) -> String {
    let mut s = start.to_string();
    for _ in 0..steps {
        s = get_next_suffix(&s, numeric);
    }
    s
}

#[test]
fn first_suffixes() {
    assert_eq!(first_suffix_text(false), "aa");
    assert_eq!(first_suffix_text(true), "0");
}

#[test]
fn alphabetic_single_steps() {
    assert_eq!(get_next_suffix("aa", false), "ab");
    assert_eq!(get_next_suffix("az", false), "ba");
    assert_eq!(get_next_suffix("yz", false), "za");
    assert_eq!(get_next_suffix("zy", false), "zz");
    assert_eq!(get_next_suffix("a", false), "b");
    assert_eq!(get_next_suffix("abzz", false), "acaa");
}

#[test]
fn alphabetic_after_25_and_26_steps() {
    assert_eq!(advance("aa", 25, false), "az");
    assert_eq!(advance("aa", 26, false), "ba");
}

#[test]
fn alphabetic_overflow_grows_by_two() {
    assert_eq!(get_next_suffix("z", false), "aaa");
    assert_eq!(get_next_suffix("zz", false), "aaaa");
    assert_eq!(get_next_suffix("zzzz", false), "aaaaaa");
    assert_eq!(advance("aa", 26 * 26 - 1, false), "zz");
    assert_eq!(advance("aa", 26 * 26, false), "aaaa");
}

#[test]
fn alphabetic_sequence_never_repeats() {
    let mut seen = std::collections::HashSet::new();
    let mut s = first_suffix_text(false);
    for _ in 0..2000 {
        assert!(seen.insert(s.clone()));
        let next = get_next_suffix(&s, false);
        assert!(next.len() > s.len() || (next.len() == s.len() && next > s));
        s = next;
    }
}

#[test]
fn numeric_counts_like_u64() {
    let mut s = first_suffix_text(true);
    for n in 0u64..1200 {
        assert_eq!(s, format!("{}", n));
        s = get_next_suffix(&s, true);
    }
}

#[test]
fn numeric_carries() {
    assert_eq!(get_next_suffix("9", true), "10");
    assert_eq!(get_next_suffix("99", true), "100");
    assert_eq!(get_next_suffix("1099", true), "1100");
    assert_eq!(get_next_suffix("12345678999", true), "12345679000");
}

#[test]
fn numeric_drops_leading_zeros() {
    assert_eq!(get_next_suffix("007", true), "8");
    assert_eq!(get_next_suffix("000", true), "1");
    assert_eq!(get_next_suffix("099", true), "100");
}

#[test]
fn numeric_goes_on_beyond_u64() {
    assert_eq!(get_next_suffix("18446744073709551614", true), format!("{}", u64::MAX));
    assert_eq!(get_next_suffix("18446744073709551615", true), "18446744073709551616");
    assert_eq!(
        get_next_suffix("99999999999999999999999999", true),
        "100000000000000000000000000"
    );
}
