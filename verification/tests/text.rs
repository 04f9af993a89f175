use wraft::text::{parse_number, push_decimal, push_numeral, session_key_text, trim};

#[test]
fn numbers_are_written_like_std_does() {
    for n in [0u128, 1, 9, 10, 255, 256, 1000, u64::MAX as u128, u128::MAX] {
        let mut s = String::from("x");
        push_decimal(&mut s, n);
        assert_eq!(s, format!("x{}", n));
        let mut s = String::new();
        push_numeral(&mut s, n, 16);
        assert_eq!(s, format!("{:x}", n));
        let mut s = String::new();
        push_numeral(&mut s, n, 2);
        assert_eq!(s, format!("{:b}", n));
        assert_eq!(session_key_text(n), format!("{:032x}", n));
    }
}

#[test]
fn numbers_are_read_like_std_does() {
    let texts = [
        "", "+", "-", "0", "00", "+7", "-7", "ff", "FF", "fF", "g", " 1", "1 ", "1_000", "12345678901234567890",
        "18446744073709551615", "18446744073709551616", "340282366920938463463374607431768211455",
        "340282366920938463463374607431768211456", "ffffffffffffffffffffffffffffffff",
        "100000000000000000000000000000000", "++1", "1+", "\u{0661}",
    ];
    for t in texts {
        assert_eq!(parse_number(t, 10, u64::MAX as u128), t.parse::<u64>().ok().map(|n| n as u128));
        assert_eq!(parse_number(t, 16, u128::MAX), u128::from_str_radix(t, 16).ok());
        assert_eq!(parse_number(t, 10, u128::MAX), t.parse::<u128>().ok());
    }
}

#[test]
fn a_key_reads_back() {
    for key in [0u128, 1, 0xabc, 1 << 127, u128::MAX] {
        let text = session_key_text(key);
        assert_eq!(text.len(), 32);
        assert_eq!(parse_number(&text, 16, u128::MAX), Some(key));
    }
}

#[test]
fn trimming_is_that_of_std() {
    for t in ["", " ", "a", " a ", "\t a b \n", "\u{a0}x\u{3000}", "  ", "\u{200b}x", "x\u{2028}"] {
        assert_eq!(trim(t), t.trim());
    }
    // Every character at the ends of a text.
    for n in 0..=0x10ffffu32 {
        if n > 0x3100 && n % 97 != 0 {
            continue;
        }
        if let Some(c) = char::from_u32(n) {
            let t: String = [c, 'x', c].iter().collect();
            assert_eq!(trim(&t), t.trim(), "{:x}", n);
        }
    }
}
