use amba::disasm::{function_name, line_range, line_start_indices};

fn line(content: &str, n: u32) -> Option<&str> {
    let starts = line_start_indices(content.as_bytes());
    line_range(&starts, content.as_bytes(), n).map(|(a, b)| &content[a..b])
}

#[test]
fn disasm_line_starts_follow_newlines() {
    assert_eq!(line_start_indices(b""), vec![0]);
    assert_eq!(line_start_indices(b"abc"), vec![0]);
    assert_eq!(line_start_indices(b"a\nbc\r\nd"), vec![0, 2, 6]);
    assert_eq!(line_start_indices(b"x\n"), vec![0, 2]);
    assert_eq!(line_start_indices(b"\n\n"), vec![0, 1, 2]);
}

#[test]
fn disasm_lines_without_their_ends() {
    let content = "int main() {\r\n\tputs(\"Hello world\");\n}";
    assert_eq!(line(content, 1), Some("int main() {"));
    assert_eq!(line(content, 2), Some("\tputs(\"Hello world\");"));
    assert_eq!(line(content, 3), Some("}"));
    assert_eq!(line(content, 4), None);
}

#[test]
fn disasm_trailing_newline_gives_an_empty_last_line() {
    let content = "first\nsecond\n";
    assert_eq!(line(content, 2), Some("second"));
    assert_eq!(line(content, 3), Some(""));
    assert_eq!(line(content, 4), None);
    assert_eq!(line("", 1), Some(""));
}

#[test]
fn disasm_lone_carriage_return_stays() {
    assert_eq!(line("a\r", 1), Some("a\r"));
    assert_eq!(line("\r\n", 1), Some(""));
}

#[test]
fn disasm_function_names() {
    assert_eq!(function_name(&[]), "<unknown>");
    assert_eq!(function_name(&[Some("main".to_string())]), "main()");
    assert_eq!(function_name(&[None]), "?");
    assert_eq!(
        function_name(&[Some("inlined".to_string()), None, Some("outer".to_string())]),
        "inlined() in ? in outer"
    );
    assert_eq!(function_name(&[None, Some("caller".to_string())]), "? in caller");
}
