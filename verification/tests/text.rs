use http_collector::error::{FramingError, SimpleError};
use http_collector::headers::Headers;
use http_collector::number::{is_digit, is_float_literal, is_letter, parse_length};
use http_collector::text::{chars_of, find, is_white_space, same_text, trimmed};

fn chars(text: &str) -> Vec<char> {
    text.chars().collect()
}

fn reads_as_float(text: &str) -> bool {
    is_float_literal(&chars(text))
}

fn length_of(text: &str) -> Option<usize> {
    parse_length(&chars(text))
}

#[test]
fn white_space_is_what_unicode_says() {
    for code in 0..=0x10ffffu32 {
        if let Some(c) = char::from_u32(code) {
            assert_eq!(is_white_space(c), c.is_whitespace(), "U+{:04X}", code);
        }
    }
}

#[test]
fn chars_of_gives_each_character() {
    assert_eq!(chars_of(""), Vec::<char>::new());
    assert_eq!(chars_of("a\u{e9}\u{4e16}\u{1f600}"), vec!['a', '\u{e9}', '\u{4e16}', '\u{1f600}']);
}

#[test]
fn same_text_compares_characters() {
    assert!(same_text("", ""));
    assert!(same_text("content-length", "content-length"));
    assert!(!same_text("content-length", "content-lengtH"));
    assert!(!same_text("a", "ab"));
    assert!(!same_text("ab", "a"));
    assert!(same_text("\u{e9}", "\u{e9}"));
    assert!(!same_text("\u{e9}", "e\u{301}"));
}

#[test]
fn find_gives_the_first_position() {
    assert_eq!(find(&chars("a:b:c"), ':'), 1);
    assert_eq!(find(&chars(":"), ':'), 0);
    assert_eq!(find(&chars("abc"), ':'), 3);
    assert_eq!(find(&chars(""), ':'), 0);
    assert_eq!(find(&chars("\u{4e16}\u{754c} x"), ' '), 2);
}

#[test]
fn trimmed_agrees_with_the_standard_library() {
    for text in [
        "",
        " ",
        "\r\n",
        "a",
        " a",
        "a ",
        "  a b  ",
        "\t\r\n a \u{b}\u{c}",
        "\u{a0}a\u{3000}",
        "\u{2000}\u{200a}x\u{2028}\u{2029}\u{202f}\u{205f}",
        "\u{200b}a\u{200b}",
        "\u{1680}\u{85} a \u{feff}",
        " \u{180e} ",
    ] {
        let expected: Vec<char> = text.trim().chars().collect();
        assert_eq!(trimmed(&chars(text)).to_vec(), expected, "{:?}", text);
    }
}

#[test]
fn digits_and_letters() {
    for c in ['0', '5', '9'] {
        assert!(is_digit(c));
    }
    for c in ['/', ':', 'a', ' ', '\u{661}', '\u{ff11}'] {
        assert!(!is_digit(c));
    }
    assert!(is_letter('e', 'e'));
    assert!(is_letter('E', 'e'));
    assert!(!is_letter('f', 'e'));
    assert!(!is_letter('\u{45}', 'f'));
    assert!(!is_letter('\u{85}', 'e'));
}

#[test]
fn float_literals_are_those_that_the_standard_library_reads() {
    for text in [
        "", "+", "-", ".", "+.", "1", "1.", ".5", "1.5", "-1.5", "+1.5", "1e5", "1E5", "1e+5",
        "1e-5", "1e", "1e+", "e5", ".e5", "1.e5", "1.5e5", "1e5.0", "1.1.1", "++1", "+-1", "1+",
        "inf", "INF", "Inf", "+inf", "-inf", "infinity", "INFINITY", "iNfInItY", "-Infinity",
        "infinit", "infinityy", "in", "nan", "NaN", "NAN", "+nan", "-nan", "nana", "na", " 1",
        "1 ", "1_000", "0x10", "1f", "1d", "\u{661}", "\u{ff11}", "1e\u{661}", "00", "0.0",
        "000.000e000", "1e400", "1e-400", "123456789012345678901234567890", ".",
        "\u{131}nf", "\u{130}nf", "na\u{274e}", "1.\u{a0}",
    ] {
        assert_eq!(reads_as_float(text), text.parse::<f64>().is_ok(), "{:?}", text);
    }
}

#[test]
fn float_literals_of_few_characters() {
    let alphabet = ['0', '7', '+', '-', '.', 'e', 'E', 'i', 'n', 'f', 'a', 'N', ' '];
    let mut texts = vec![String::new()];
    let mut checked = 0;
    for _ in 0..4 {
        let mut longer = Vec::new();
        for text in &texts {
            for c in alphabet {
                let mut next = text.clone();
                next.push(c);
                assert_eq!(reads_as_float(&next), next.parse::<f64>().is_ok(), "{:?}", next);
                checked += 1;
                longer.push(next);
            }
        }
        texts = longer;
    }
    assert_eq!(checked, 13 + 13 * 13 + 13 * 13 * 13 + 13 * 13 * 13 * 13);
}

#[test]
fn lengths_are_those_that_the_standard_library_reads() {
    for text in [
        "", "+", "-", "0", "6", "+6", "-6", "-0", "007", "+007", "++6", "6+", "6 ", " 6", "6a",
        "a6", "1.5", "1e3", "0x10", "\u{666}", "\u{ff16}", "18446744073709551615",
        "18446744073709551616", "18446744073709551620", "99999999999999999999999",
        "4294967295", "4294967296", "000000000000000000000000000000001",
    ] {
        assert_eq!(length_of(text), text.parse::<usize>().ok(), "{:?}", text);
    }
    assert_eq!(length_of("6"), Some(6));
    assert_eq!(length_of("+120"), Some(120));
    assert_eq!(length_of("0"), Some(0));
    assert_eq!(length_of(&usize::MAX.to_string()), Some(usize::MAX));
}

#[test]
fn headers_hold_each_name_once() {
    let mut headers = Headers::new();
    assert_eq!(headers.len(), 0);
    assert_eq!(headers.get("a"), None);
    assert!(headers.entry(0).is_none());
    headers.insert("a".to_string(), "1".to_string());
    headers.insert("b".to_string(), "2".to_string());
    headers.insert("a".to_string(), "3".to_string());
    assert_eq!(headers.len(), 2);
    assert_eq!(headers.get("a"), Some(&"3".to_string()));
    assert_eq!(headers.get("b"), Some(&"2".to_string()));
    assert_eq!(headers.get("A"), None);
    assert_eq!(headers.get(""), None);
    let mut seen = Vec::new();
    let mut i = 0;
    while let Some((name, value)) = headers.entry(i) {
        seen.push((name.clone(), value.clone()));
        i += 1;
    }
    seen.sort();
    assert_eq!(
        seen,
        vec![("a".to_string(), "3".to_string()), ("b".to_string(), "2".to_string())]
    );
    assert!(headers.entry(2).is_none());
    assert!(headers.entry(usize::MAX).is_none());
}

#[test]
fn headers_may_hold_an_empty_name() {
    let mut headers = Headers::new();
    headers.insert(String::new(), "x".to_string());
    assert_eq!(headers.get(""), Some(&"x".to_string()));
    assert_eq!(headers.len(), 1);
}

#[test]
fn simple_error_renders_its_description() {
    let error = SimpleError::new("Output directory must be a directory".to_string());
    assert_eq!(error.description(), "Output directory must be a directory");
    assert_eq!(error.message(), "Error: Output directory must be a directory");
    assert_eq!(SimpleError::new(String::new()).message(), "Error: ");
}

#[test]
fn framing_errors_are_told_apart() {
    let all = [
        FramingError::MalformedRequestLine,
        FramingError::MalformedVersion,
        FramingError::MalformedContentLength,
        FramingError::Io,
    ];
    for (i, a) in all.iter().enumerate() {
        for (j, b) in all.iter().enumerate() {
            assert_eq!(a == b, i == j);
        }
    }
}
