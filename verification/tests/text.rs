use sysmon::notation::reads_as_real;
use sysmon::text::{
    comes_before, contains, from_chars, lines, longer_than, parse_number, split, strip,
    tail_of_bytes, to_chars, to_decimal, to_lower, trim, white_space, words,
};

fn joined(pieces: &[&[char]]) -> Vec<String> {
    pieces.iter().map(|p| from_chars(p)).collect()
}

#[test]
fn white_space_is_that_of_unicode() {
    for u in 0..=0x10ffffu32 {
        if let Some(c) = char::from_u32(u) {
            assert_eq!(white_space(c), c.is_whitespace());
        }
    }
}

const SAMPLES: [&str; 12] = [
    "",
    " ",
    "a",
    "  a b \t",
    "a,b,,c,",
    "one\ntwo\r\nthree\r\r\n\nlast\r",
    "\u{a0}\u{e9}\u{3000}",
    "Addressable Header 3/Audio",
    "\n",
    "\r\n",
    "''x'y''",
    "\u{1d11e} \u{c4}BC \u{df}",
];

#[test]
fn text_functions_agree_with_the_standard_library() {
    for s in SAMPLES {
        let chars = to_chars(s);
        assert_eq!(from_chars(&chars), s);
        assert_eq!(from_chars(trim(&chars)), s.trim());
        assert_eq!(from_chars(strip(&chars, '\'')), s.trim_matches('\''));
        assert_eq!(from_chars(&to_lower(&chars)), s.to_ascii_lowercase());
        assert_eq!(joined(&split(&chars, ',')), s.split(',').collect::<Vec<_>>());
        assert_eq!(joined(&lines(&chars)), s.lines().collect::<Vec<_>>());
        assert_eq!(joined(&words(&chars)), s.split_whitespace().collect::<Vec<_>>());
        for n in 0..8 {
            assert_eq!(longer_than(&chars, n), s.len() > n);
            let tail = s.len().checked_sub(n).and_then(|at| s.get(at..));
            assert_eq!(tail_of_bytes(&chars, n).map(from_chars).as_deref(), tail);
        }
        for t in SAMPLES {
            let other = to_chars(t);
            assert_eq!(contains(&chars, &other), s.contains(t));
            assert_eq!(comes_before(&chars, &other), s < t);
        }
    }
}

#[test]
fn numbers_agree_with_the_standard_library() {
    let samples = [
        "", "0", "+", "-", "+1", "-1", "-0", "++1", " 1", "1 ", "007", "65535", "65536", "1_0",
        "18446744073709551615", "18446744073709551616", "99999999999999999999999", "\u{664}",
        "12a", "+00000000000000000000000000000001",
    ];
    for s in samples {
        let chars = to_chars(s);
        assert_eq!(parse_number(&chars, u64::MAX), s.parse::<u64>().ok());
        assert_eq!(
            parse_number(&chars, u16::MAX as u64),
            s.parse::<u16>().ok().map(|n| n as u64)
        );
    }
}

#[test]
fn decimals_read_back() {
    for n in [0usize, 1, 9, 10, 99, 100, 12345, usize::MAX] {
        let chars = to_decimal(n);
        assert_eq!(from_chars(&chars), n.to_string());
        assert_eq!(parse_number(&chars, u64::MAX), Some(n as u64));
    }
}

#[test]
fn trimming_twice_changes_nothing() {
    for s in SAMPLES {
        let chars = to_chars(s);
        assert_eq!(trim(trim(&chars)), trim(&chars));
    }
}

#[test]
fn numbers_with_fractions_agree_with_the_standard_library() {
    let alphabet = ['0', '7', '.', 'e', 'E', '+', '-', 'x'];
    let mut all = vec![String::new()];
    let mut longest = vec![String::new()];
    for _ in 0..5 {
        let mut longer = Vec::new();
        for s in &longest {
            for c in alphabet {
                longer.push(format!("{}{}", s, c));
            }
        }
        all.extend(longer.iter().cloned());
        longest = longer;
    }
    for s in [
        "inf", "+Inf", "-INFINITY", "infin", "nan", "NaN", "-nan", "+-1", " 1", "[N/A]",
        "12288", "54.5", "1.5e300", "1e-7", "1e+", "\u{664}", "0x10", "1_0", "infe1",
    ] {
        all.push(s.to_string());
    }
    for s in all {
        assert_eq!(reads_as_real(&to_chars(&s)), s.parse::<f64>().is_ok());
    }
}
