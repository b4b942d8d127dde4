use pythonicfmt::formatter::Formatter;

fn fmt_default(input: &str) -> String {
    let formatter = Formatter::default();
    let mut content = String::from(input);
    formatter.format(&mut content).unwrap();
    content
}

fn fmt_at(col: usize, input: &str) -> String {
    let mut formatter = Formatter::default();
    formatter.junk_column(col);
    let mut content = String::from(input);
    formatter.format(&mut content).unwrap();
    content
}

#[test]
fn collapses_brace_line_and_aligns() {
    // "{" on its own line merges into "foo"; the brace then moves out so
    // that it starts at column 120 (three characters kept, 117 spaces).
    let expected = format!("foo{}{{", " ".repeat(117));
    assert_eq!(fmt_default("foo\n{\n"), expected);
}

#[test]
fn right_pads_each_line_independently() {
    let expected = format!("a{};\nb{};", " ".repeat(119), " ".repeat(119));
    assert_eq!(fmt_default("a;\nb;\n"), expected);
}

#[test]
fn merges_indented_junk_line_then_aligns() {
    let expected = format!("doStuff(){}}};", " ".repeat(111));
    assert_eq!(fmt_default("doStuff()\n   };\n"), expected);
}

#[test]
fn empty_input_gives_empty_output() {
    assert_eq!(fmt_default(""), "");
}

#[test]
fn whitespace_only_line_is_untouched() {
    assert_eq!(fmt_default("a\n   \nb"), "a\n   \nb");
}

#[test]
fn format_is_idempotent_on_ordinary_input() {
    let once = fmt_default("foo\n{\nbar;\nbaz\n   };\n");
    let twice = fmt_default(&once);
    assert_eq!(twice, once);
}

#[test]
fn junk_column_setter_takes_effect() {
    let expected = format!("foo{}{{", " ".repeat(7));
    assert_eq!(fmt_at(10, "foo\n{\n"), expected);
}

#[test]
fn junk_glued_when_content_reaches_column() {
    // The content before the semicolon already extends past column 3, so no
    // padding space is inserted at all.
    assert_eq!(fmt_at(3, "abcdef;"), "abcdef;");
}

#[test]
fn leading_junk_moves_to_previous_line() {
    let expected = format!("hello{}}}\n   world", " ".repeat(115));
    assert_eq!(fmt_default("hello\n   }world\n"), expected);
}

#[test]
fn junk_cascades_through_whitespace_only_line() {
    // The brace line merges into the blank line, and the repositioning pass
    // then carries the brace up to the content line, restoring the blank
    // line to whitespace only.
    let expected = format!("x{}}}\n ", " ".repeat(119));
    assert_eq!(fmt_default("x\n \n}\n"), expected);
}

#[test]
fn leading_junk_on_first_line_is_dropped() {
    // The first line has no predecessor to receive its leading junk.
    assert_eq!(fmt_default("  }\nx"), "  \nx");
    assert_eq!(fmt_default("  }x"), "  x");
}

#[test]
fn carriage_returns_before_line_feeds_are_consumed() {
    let expected = format!("a{};\nb", " ".repeat(119));
    assert_eq!(fmt_default("a;\r\nb\r\n"), expected);
}

#[test]
fn trailing_whitespace_without_junk_is_kept() {
    assert_eq!(fmt_default("word   \nnext"), "word   \nnext");
}

#[test]
fn inner_junk_is_not_moved() {
    // Junk in the middle of a line, followed by content, stays in place.
    assert_eq!(fmt_default("a}b\nc;d"), "a}b\nc;d");
}

#[test]
fn mixed_trailing_run_collects_all_junk() {
    // The trailing run "; } " holds junk and whitespace; the junk characters
    // are gathered and placed together at the column.
    let expected = format!("ab{};}}", " ".repeat(118));
    assert_eq!(fmt_default("ab; } "), expected);
}

#[test]
fn long_line_keeps_junk_glued_past_column() {
    // Column invariant: content already reaches past column 120, so the junk
    // is reattached with no padding and the line stays as it was.
    let line = format!("{};", "x".repeat(130));
    assert_eq!(fmt_default(&line), line);
}

#[test]
fn junk_lands_exactly_at_column() {
    // Column invariant: the relocated junk of a short line starts exactly at
    // the configured column.
    let output = fmt_default("foo\n{\n");
    assert_eq!(output.find('{'), Some(120));
}

#[test]
fn default_formatter_returns_ok() {
    let formatter = Formatter::default();
    let mut content = String::from("anything;\n");
    assert!(formatter.format(&mut content).is_ok());
}

#[test]
fn content_characters_are_preserved() {
    // No content loss: the non-junk, non-whitespace characters of the input
    // all survive formatting, in the same quantities.
    let input = "alpha\n{\nbeta;\n   }gamma\n";
    let output = fmt_default(input);
    let mut input_content: Vec<char> =
        input.chars().filter(|c| !c.is_whitespace() && !"{};".contains(*c)).collect();
    let mut output_content: Vec<char> =
        output.chars().filter(|c| !c.is_whitespace() && !"{};".contains(*c)).collect();
    input_content.sort();
    output_content.sort();
    assert_eq!(input_content, output_content);
}

#[test]
fn no_junk_only_line_after_first_in_output() {
    // Junk-only line elimination, on an input whose every line has some
    // non-whitespace character.
    let output = fmt_default("foo\n{\nbar;\n};\nbaz\n}\n");
    for (index, line) in output.lines().enumerate() {
        if index == 0 {
            continue;
        }
        let stripped: String = line.chars().filter(|c| !c.is_whitespace()).collect();
        let junk_only = !stripped.is_empty() && stripped.chars().all(|c| "{};".contains(c));
        assert!(!junk_only, "junk-only line survived: {:?}", line);
    }
}
