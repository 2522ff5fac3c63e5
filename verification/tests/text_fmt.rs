use specter_probe::text::{push_dec, push_hex, push_sdec, push_str, replace_char_in, str_contains};

#[test]
fn push_dec_renders_decimal() {
    let mut s = String::from("n=");
    push_dec(&mut s, 0);
    assert_eq!(s, "n=0");
    let mut t = String::new();
    push_dec(&mut t, 1234567890);
    assert_eq!(t, "1234567890");
    let mut u = String::new();
    push_dec(&mut u, u64::MAX);
    assert_eq!(u, u64::MAX.to_string());
}

#[test]
fn push_hex_renders_lower_case_hexadecimal() {
    let mut s = String::new();
    push_hex(&mut s, 0x1a2b);
    assert_eq!(s, "1a2b");
    let mut t = String::new();
    push_hex(&mut t, 0);
    assert_eq!(t, "0");
    let mut u = String::new();
    push_hex(&mut u, u64::MAX);
    assert_eq!(u, "ffffffffffffffff");
}

#[test]
fn push_sdec_renders_signed_decimal() {
    let mut s = String::new();
    push_sdec(&mut s, -5);
    assert_eq!(s, "-5");
    let mut t = String::new();
    push_sdec(&mut t, i64::MIN);
    assert_eq!(t, i64::MIN.to_string());
    let mut u = String::new();
    push_sdec(&mut u, i64::MAX);
    assert_eq!(u, i64::MAX.to_string());
}

#[test]
fn push_str_appends() {
    let mut s = String::from("a");
    push_str(&mut s, "ébc");
    assert_eq!(s, "aébc");
}

#[test]
fn replace_char_in_replaces_every_occurrence() {
    assert_eq!(replace_char_in("%x1", '%', 'x'), "xx1");
    assert_eq!(replace_char_in("a%b%%", '%', '_'), "a_b__");
    assert_eq!(replace_char_in("none", '%', 'x'), "none");
}

#[test]
fn str_contains_finds_substrings() {
    assert!(str_contains("acme,gpio-v2", "gpio"));
    assert!(str_contains("gpio", "gpio"));
    assert!(str_contains("anything", ""));
    assert!(!str_contains("gpi", "gpio"));
    assert!(!str_contains("acme,i2c", "spi"));
}

#[test]
fn distinct_numbers_render_distinctly() {
    let render = |n: u64| {
        let mut s = String::new();
        push_dec(&mut s, n);
        s
    };
    assert_ne!(render(10), render(1));
    assert_ne!(render(100), render(10));
    assert_ne!(render(12), render(21));
    assert_eq!(render(7), render(7));
}
