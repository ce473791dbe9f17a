use std::io::BufRead;

use includer::text::{
    chars_of, classify_line, find_directive, is_utf8, is_whitespace, split_lines, LineKind,
};

fn chars(text: &str) -> Vec<char> {
    text.chars().collect()
}

fn lines(text: &[u8]) -> Vec<Vec<u8>> {
    split_lines(&text.to_vec())
}

#[test]
fn chars_of_gives_each_character() {
    assert_eq!(chars_of("héllo"), vec!['h', 'é', 'l', 'l', 'o']);
    assert_eq!(chars_of(""), Vec::<char>::new());
}

#[test]
fn whitespace_is_what_unicode_says() {
    for c in [' ', '\t', '\n', '\u{0B}', '\u{0C}', '\r', '\u{85}', '\u{A0}', '\u{1680}'] {
        assert!(is_whitespace(c));
    }
    for c in ['\u{2000}', '\u{2005}', '\u{200A}', '\u{2028}', '\u{2029}', '\u{202F}', '\u{205F}', '\u{3000}'] {
        assert!(is_whitespace(c));
    }
    for c in ['a', '-', '\u{08}', '\u{0E}', '\u{200B}', '\u{1F}', '\u{2027}', '\u{3001}', '\u{FEFF}'] {
        assert!(!is_whitespace(c));
    }
}

#[test]
fn whitespace_agrees_with_std_on_every_character() {
    let mut code: u32 = 0;
    while code <= 0x10FFFF {
        if let Some(c) = char::from_u32(code) {
            assert_eq!(is_whitespace(c), c.is_whitespace());
        }
        code += 1;
    }
}

#[test]
fn lines_end_at_line_feeds() {
    assert_eq!(lines(b"a\nb\n"), vec![b"a".to_vec(), b"b".to_vec()]);
    assert_eq!(lines(b"a\nb"), vec![b"a".to_vec(), b"b".to_vec()]);
}

#[test]
fn empty_file_has_no_lines() {
    assert_eq!(lines(b""), Vec::<Vec<u8>>::new());
}

#[test]
fn empty_lines_are_lines() {
    assert_eq!(lines(b"\n"), vec![b"".to_vec()]);
    assert_eq!(lines(b"\n\nx"), vec![b"".to_vec(), b"".to_vec(), b"x".to_vec()]);
}

#[test]
fn carriage_return_before_line_feed_is_dropped() {
    assert_eq!(lines(b"a\r\nb\r\n"), vec![b"a".to_vec(), b"b".to_vec()]);
    assert_eq!(lines(b"\r\n"), vec![b"".to_vec()]);
    assert_eq!(lines(b"a\r\r\n"), vec![b"a\r".to_vec()]);
}

#[test]
fn carriage_return_without_line_feed_stays() {
    assert_eq!(lines(b"a\r"), vec![b"a\r".to_vec()]);
    assert_eq!(lines(b"a\rb\n"), vec![b"a\rb".to_vec()]);
}

#[test]
fn split_lines_agrees_with_std() {
    let samples: [&[u8]; 7] =
        [b"", b"one", b"one\n", b"one\r\ntwo\n\nthree", b"\r", b"\n\r\n", b"x\r\r\ny\r"];
    for sample in samples {
        let expected: Vec<Vec<u8>> =
            sample.lines().map(|line| line.unwrap().into_bytes()).collect();
        assert_eq!(lines(sample), expected);
    }
}

#[test]
fn is_utf8_tells_text_from_binary() {
    assert!(is_utf8(&"añb".as_bytes().to_vec()));
    assert!(is_utf8(&vec![]));
    assert!(!is_utf8(&vec![0, 159, 146, 150]));
    assert!(is_utf8(&b"plain".to_vec()));
    assert!(!is_utf8(&vec![0xC3]));
    assert!(!is_utf8(&vec![0xED, 0xA0, 0x80]));
}

#[test]
fn directive_is_found_with_its_path() {
    let line = chars("--include greeting.txt");
    let found = find_directive(&line, &chars("--include"));
    assert_eq!(found, Some((10, 22)));
}

#[test]
fn directive_may_be_indented_and_padded() {
    let line = chars("  \t--include \u{A0} a b.txt \t ");
    let (from, to) = find_directive(&line, &chars("--include")).unwrap();
    let named: String = line[from..to].iter().collect();
    assert_eq!(named, "a b.txt");
}

#[test]
fn directive_with_no_path_names_the_empty_text() {
    let line = chars("--include   ");
    let (from, to) = find_directive(&line, &chars("--include")).unwrap();
    assert_eq!(from, to);
    let bare = chars("--include");
    assert_eq!(find_directive(&bare, &chars("--include")), Some((9, 9)));
}

#[test]
fn prefix_is_removed_once() {
    let line = chars("--include--include x");
    let (from, to) = find_directive(&line, &chars("--include")).unwrap();
    let named: String = line[from..to].iter().collect();
    assert_eq!(named, "--include x");
}

#[test]
fn other_lines_are_no_directives() {
    let prefix = chars("--include");
    assert_eq!(find_directive(&chars("Hello."), &prefix), None);
    assert_eq!(find_directive(&chars("x --include a"), &prefix), None);
    assert_eq!(find_directive(&chars("--includ"), &prefix), None);
    assert_eq!(find_directive(&chars(""), &prefix), None);
    assert_eq!(find_directive(&chars("--Include a"), &prefix), None);
}

#[test]
fn empty_prefix_makes_every_line_a_directive() {
    let line = chars("  a.txt ");
    assert_eq!(find_directive(&line, &chars("")), Some((2, 7)));
}

#[test]
fn classify_line_names_the_three_kinds() {
    let prefix = chars("#include");
    assert_eq!(classify_line(&vec![0xFF, 0xFE], &prefix), LineKind::Binary);
    assert_eq!(classify_line(&b"plain text".to_vec(), &prefix), LineKind::Plain);
    assert_eq!(
        classify_line(&" #include  dir/ünï.txt ".as_bytes().to_vec(), &prefix),
        LineKind::Directive("dir/ünï.txt".to_string())
    );
}
