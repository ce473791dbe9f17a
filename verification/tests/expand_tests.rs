use std::collections::HashMap;

use includer::expand::{process_file, resolve_include, Expansion};
use includer::path::{normalize_path, LexPath};

/// Expands the file at `path` against files held in memory: first to learn
/// what to read, then with what reading gave.
fn expand(files: &HashMap<LexPath, Vec<u8>>, path: &str, prefix: &str) -> Expansion {
    let path = LexPath::parse(path);
    let content = files.get(&path).expect("the source is there");
    let first = process_file(&path, content, prefix, &Vec::new());
    let reads: Vec<Option<Vec<u8>>> =
        first.targets.iter().map(|t| files.get(&normalize_path(t)).cloned()).collect();
    process_file(&path, content, prefix, &reads)
}

fn tree(entries: &[(&str, &[u8])]) -> HashMap<LexPath, Vec<u8>> {
    entries.iter().map(|(path, bytes)| (LexPath::parse(path), bytes.to_vec())).collect()
}

fn text(bytes: &[u8]) -> String {
    String::from_utf8(bytes.to_vec()).unwrap()
}

#[test]
fn test_process_file_with_includes() {
    let files = tree(&[
        ("/src/main.txt", b"--include include.txt\nThis is the main file.\n"),
        ("/src/include.txt", b"This is the included file.\n"),
    ]);
    let expansion = expand(&files, "/src/main.txt", "--include");
    let output_content = text(&expansion.output);
    assert!(output_content.contains("This is the included file."));
    assert!(output_content.contains("This is the main file."));
    assert_eq!(output_content, "This is the included file.\n\nThis is the main file.\n");
}

#[test]
fn test_process_file_with_non_utf8_include() {
    let files = tree(&[
        ("/src/main.txt", b"--include include.bin\nThis is the main file.\n"),
        ("/src/include.bin", &[0, 159, 146, 150]),
    ]);
    let expansion = expand(&files, "/src/main.txt", "--include");
    let output_content = text(&expansion.output);
    assert!(output_content.contains("--include include.bin"));
    assert!(!output_content.contains("This is the included file."));
    assert_eq!(output_content, "--include include.bin\nThis is the main file.\n");
}

#[test]
fn test_process_binary_file() {
    let binary_content: Vec<u8> = vec![0, 159, 146, 150];
    let files = tree(&[
        ("/src/main.txt", b"--include binary.bin\nThis is the main file.\n"),
        ("/src/binary.bin", &binary_content),
    ]);
    let main = expand(&files, "/src/main.txt", "--include");
    let output_content = text(&main.output);
    assert!(output_content.contains("--include binary.bin"));
    assert!(output_content.contains("This is the main file."));

    let binary = expand(&files, "/src/binary.bin", "--include");
    assert_eq!(binary_content, binary.output);
    assert!(binary.includes.is_empty());
    assert!(binary.targets.is_empty());
}

#[test]
fn greeting_is_spliced_into_main() {
    let files = tree(&[
        ("/src/main.txt", b"--include greeting.txt\nHello."),
        ("/src/greeting.txt", b"Hi there."),
    ]);
    let expansion = expand(&files, "/src/main.txt", "--include");
    assert_eq!(expansion.output, b"Hi there.\nHello.\n".to_vec());
    assert_eq!(expansion.targets, vec![LexPath::parse("/src/greeting.txt")]);
    assert_eq!(expansion.includes, vec![LexPath::parse("/src/greeting.txt")]);
}

#[test]
fn expanding_again_gives_the_same_bytes() {
    let files = tree(&[
        ("/src/main.txt", b"--include greeting.txt\nHello.\n  --include missing.txt\n"),
        ("/src/greeting.txt", b"Hi there.\n"),
    ]);
    let first = expand(&files, "/src/main.txt", "--include");
    let mut with_output = files.clone();
    with_output.insert(LexPath::parse("/target/main.txt"), first.output.clone());
    let second = expand(&with_output, "/src/main.txt", "--include");
    assert_eq!(first, second);
}

#[test]
fn substitution_is_one_level_deep() {
    let files = tree(&[
        ("/src/a.txt", b"--include b.txt\n"),
        ("/src/b.txt", b"before\n--include c.txt\nafter"),
        ("/src/c.txt", b"C's content\n"),
    ]);
    let expansion = expand(&files, "/src/a.txt", "--include");
    assert_eq!(expansion.output, b"before\n--include c.txt\nafter\n".to_vec());
    assert_eq!(expansion.includes, vec![LexPath::parse("/src/b.txt")]);
}

#[test]
fn missing_include_keeps_the_line_and_is_recorded() {
    let files = tree(&[("/src/main.txt", b"top\n  --include gone.txt  \nend\n")]);
    let expansion = expand(&files, "/src/main.txt", "--include");
    assert_eq!(expansion.output, b"top\n  --include gone.txt  \nend\n".to_vec());
    assert_eq!(expansion.includes, vec![LexPath::parse("/src/gone.txt")]);
}

#[test]
fn directive_without_a_read_counts_as_failed() {
    let path = LexPath::parse("/src/main.txt");
    let content = b"--include a.txt\n--include b.txt\n".to_vec();
    let reads = vec![Some(b"A".to_vec())];
    let expansion = process_file(&path, &content, "--include", &reads);
    assert_eq!(expansion.output, b"A\n--include b.txt\n".to_vec());
    assert_eq!(expansion.includes.len(), 2);
}

#[test]
fn reads_are_taken_in_the_order_of_the_directives() {
    let path = LexPath::parse("/src/main.txt");
    let content = b"--include a.txt\nmiddle\n--include b.txt\n--include c.txt".to_vec();
    let reads = vec![Some(b"A".to_vec()), None, Some(b"C\n".to_vec()), Some(b"extra".to_vec())];
    let expansion = process_file(&path, &content, "--include", &reads);
    assert_eq!(expansion.output, b"A\nmiddle\n--include b.txt\nC\n\n".to_vec());
}

#[test]
fn binary_source_is_copied_even_after_text_lines() {
    let path = LexPath::parse("/src/data.bin");
    let mut content = b"--include greeting.txt\nmostly text\n".to_vec();
    content.extend_from_slice(&[0xFF, 0x00, b'\n']);
    let reads = vec![Some(b"Hi there.".to_vec())];
    let expansion = process_file(&path, &content, "--include", &reads);
    assert_eq!(expansion.output, content);
    assert!(expansion.includes.is_empty());
    assert!(expansion.targets.is_empty());
}

#[test]
fn output_always_ends_in_a_line_feed() {
    let path = LexPath::parse("/src/main.txt");
    let none = Vec::new();
    assert_eq!(process_file(&path, &b"a\nb".to_vec(), "--include", &none).output, b"a\nb\n".to_vec());
    assert_eq!(process_file(&path, &b"a\r\nb\r\n".to_vec(), "--include", &none).output, b"a\nb\n".to_vec());
    assert_eq!(process_file(&path, &b"".to_vec(), "--include", &none).output, b"".to_vec());
    assert_eq!(process_file(&path, &b"\n".to_vec(), "--include", &none).output, b"\n".to_vec());
}

#[test]
fn includes_may_repeat() {
    let files = tree(&[
        ("/src/main.txt", b"--include x.txt\n--include ./x.txt\n--include sub/../x.txt\n"),
        ("/src/x.txt", b"X"),
    ]);
    let expansion = expand(&files, "/src/main.txt", "--include");
    assert_eq!(expansion.output, b"X\nX\nX\n".to_vec());
    let x = LexPath::parse("/src/x.txt");
    assert_eq!(expansion.includes, vec![x.clone(), x.clone(), x]);
    assert_eq!(expansion.targets[0], LexPath::parse("/src/x.txt"));
    assert_eq!(
        expansion.targets[2],
        LexPath::parse("/src").join(&LexPath::parse("sub/../x.txt"))
    );
}

#[test]
fn include_is_resolved_against_the_directory_of_the_file() {
    let files = tree(&[
        ("/src/docs/page.txt", b"--include ../shared/head.txt\n--include /etc/motd\n"),
        ("/src/shared/head.txt", b"HEAD"),
        ("/etc/motd", b"MOTD"),
    ]);
    let expansion = expand(&files, "/src/docs/page.txt", "--include");
    assert_eq!(expansion.output, b"HEAD\nMOTD\n".to_vec());
    assert_eq!(
        expansion.includes,
        vec![LexPath::parse("/src/shared/head.txt"), LexPath::parse("/etc/motd")]
    );
}

#[test]
fn resolve_include_gives_target_and_normal_form() {
    let file = LexPath::parse("/src/docs/page.txt");
    let (target, resolved) = resolve_include(&file, &LexPath::parse("../x.txt"));
    assert_eq!(target, LexPath::parse("/src/docs").join(&LexPath::parse("../x.txt")));
    assert_eq!(resolved, LexPath::parse("/src/x.txt"));
    let (target, resolved) = resolve_include(&file, &LexPath::parse("/abs/y"));
    assert_eq!(target, LexPath::parse("/abs/y"));
    assert_eq!(resolved, LexPath::parse("/abs/y"));
}

#[test]
fn another_prefix_can_be_chosen() {
    let path = LexPath::parse("/src/main.txt");
    let content = "#use ünï.txt\n--include a.txt\n".as_bytes().to_vec();
    let reads = vec![Some("çà".as_bytes().to_vec())];
    let expansion = process_file(&path, &content, "#use", &reads);
    assert_eq!(expansion.output, "çà\n--include a.txt\n".as_bytes().to_vec());
    assert_eq!(expansion.includes, vec![LexPath::parse("/src/ünï.txt")]);
}
