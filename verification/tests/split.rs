use zabrze::expand::split::{split_spans, Span, SplitState};
use zabrze::expand::{find_last_command_index, split_args};

#[test]
fn test_find_last_command_index() {
    assert_eq!(find_last_command_index("git commit"), 0);
    assert_eq!(find_last_command_index("echo hello; git commit"), 11);
    assert_eq!(find_last_command_index("echo hello && git commit"), 13);
    assert_eq!(find_last_command_index("seq 10 | tail -3 | cat"), 18);
}

#[test]
fn test_split_args() {
    assert_eq!(split_args(""), vec![""],);
    assert_eq!(split_args(" "), vec![""],);
    assert_eq!(split_args(":"), vec![":"],);
    assert_eq!(split_args("\\"), vec!["\\"],);
    assert_eq!(split_args("\'"), vec!["\'"],);
    assert_eq!(split_args("\""), vec!["\""],);
    assert_eq!(split_args(": "), vec![":", ""],);
    assert_eq!(split_args("\\ "), vec!["\\ "],);
    assert_eq!(split_args("\' "), vec!["\' "],);
    assert_eq!(split_args("\" "), vec!["\" "],);
    assert_eq!(split_args("git"), vec!["git"],);
    assert_eq!(split_args("git commit"), vec!["git", "commit"],);
    assert_eq!(split_args("git  commit"), vec!["git", "commit"],);
    assert_eq!(split_args(" git  commit"), vec!["git", "commit"],);
    assert_eq!(split_args(" git  commit "), vec!["git", "commit", ""],);
    assert_eq!(split_args("git\\ commit"), vec!["git\\ commit"],);
    assert_eq!(split_args("git 'a file.txt'"), vec!["git", "'a file.txt'"],);
    assert_eq!(
        split_args("git ''a file.txt'"),
        vec!["git", "''a", "file.txt'"],
    );
    assert_eq!(
        split_args("git '''a file.txt'"),
        vec!["git", "'''a file.txt'"],
    );
    assert_eq!(
        split_args("git 'a \\' file.txt'"),
        vec!["git", "'a \\' file.txt'"],
    );
    assert_eq!(
        split_args("git 'a \\\\' file.txt'\\"),
        vec!["git", "'a \\\\'", "file.txt'\\"],
    );
}

#[test]
fn every_separator_starts_a_new_command() {
    assert_eq!(find_last_command_index(""), 0);
    assert_eq!(find_last_command_index("a;b"), 2);
    assert_eq!(find_last_command_index("a&b"), 2);
    assert_eq!(find_last_command_index("a|b"), 2);
    assert_eq!(find_last_command_index("a(b"), 2);
    assert_eq!(find_last_command_index("a`b"), 2);
    assert_eq!(find_last_command_index("a\nb"), 2);
    assert_eq!(find_last_command_index("a;"), 2);
    assert_eq!(find_last_command_index("a)b"), 0);
}

#[test]
fn separators_inside_quotes_cut_as_well() {
    assert_eq!(find_last_command_index("echo 'a;b' g"), 8);
}

#[test]
fn separators_are_found_by_byte_offset() {
    assert_eq!(find_last_command_index("é;g"), 3);
    assert_eq!(find_last_command_index("🐣|🐣"), 5);
}

#[test]
fn tab_and_newline_delimit_and_nothing_else_does() {
    assert_eq!(split_args("a\tb\nc"), vec!["a", "b", "c"]);
    assert_eq!(split_args("a\rb"), vec!["a\rb"]);
    assert_eq!(split_args("a\u{a0}b"), vec!["a\u{a0}b"]);
    assert_eq!(split_args("$a *b"), vec!["$a", "*b"]);
}

#[test]
fn backslash_newline_between_arguments_is_a_delimiter() {
    assert_eq!(split_args("a \\\nb"), vec!["a", "b"]);
    assert_eq!(split_args("\\\n"), vec![""]);
    assert_eq!(split_args("a \\\n"), vec!["a", ""]);
    assert_eq!(split_args("a\\\nb"), vec!["a\\\nb"]);
}

#[test]
fn quotes_of_the_other_kind_do_not_close() {
    assert_eq!(split_args("\"a 'b\" c'"), vec!["\"a 'b\"", "c'"]);
    assert_eq!(split_args("'a \"b' c\""), vec!["'a \"b'", "c\""]);
    assert_eq!(split_args("a\"b c\"d e"), vec!["a\"b c\"d", "e"]);
}

#[test]
fn arguments_that_are_not_ascii_are_cut_between_characters() {
    assert_eq!(split_args("é 🐣\\ 🐣 'ü ü'"), vec!["é", "🐣\\ 🐣", "'ü ü'"]);
    assert_eq!(split_args("\\é é"), vec!["\\é", "é"]);
}

#[test]
fn spans_are_the_offsets_of_the_arguments() {
    let command = " git  commit 'a b' é ";
    let spans = split_spans(command.as_bytes());
    assert_eq!(
        spans,
        vec![
            Span { start: 1, end: 4 },
            Span { start: 6, end: 12 },
            Span { start: 13, end: 18 },
            Span { start: 19, end: 21 },
            Span { start: 22, end: 22 },
        ]
    );
    let args = split_args(command);
    assert_eq!(args.len(), spans.len());
    for (arg, span) in args.iter().zip(spans.iter()) {
        assert_eq!(*arg, &command[span.start..span.end]);
    }
}

#[test]
fn arguments_cover_the_command_in_order() {
    let commands = [
        "",
        " ",
        "a",
        "a b",
        " a  b ",
        "a 'b c' \"d\\\" e\" f\\ g \\\n h",
        "é 🐣 ü",
        "'unclosed quote",
        "trailing backslash\\",
    ];
    for command in commands {
        let spans = split_spans(command.as_bytes());
        assert!(!spans.is_empty());
        assert_eq!(spans[spans.len() - 1].end, command.len());
        let mut previous_end: Option<usize> = None;
        for (i, span) in spans.iter().enumerate() {
            assert!(span.start <= span.end && span.end <= command.len());
            if let Some(end) = previous_end {
                assert!(end < span.start);
            }
            if i + 1 < spans.len() {
                assert!(span.start < span.end);
                assert!(matches!(command.as_bytes()[span.end], b' ' | b'\t' | b'\n'));
            }
            assert!(command.is_char_boundary(span.start));
            assert!(command.is_char_boundary(span.end));
            previous_end = Some(span.end);
        }
    }
}

#[test]
fn tokenizer_starts_between_arguments() {
    assert_eq!(SplitState::default(), SplitState::Delimiter);
}

#[test]
fn tokenizer_transitions() {
    let word = SplitState::InWord { is_escaped: false };
    let escaped = SplitState::InWord { is_escaped: true };
    let single = SplitState::InQuot { quot: b'\'', is_escaped: false };
    let single_escaped = SplitState::InQuot { quot: b'\'', is_escaped: true };
    let double = SplitState::InQuot { quot: b'"', is_escaped: false };

    assert_eq!(SplitState::Delimiter.next(b' '), SplitState::Delimiter);
    assert_eq!(SplitState::Delimiter.next(b'\\'), SplitState::Backslash);
    assert_eq!(SplitState::Delimiter.next(b'\''), single);
    assert_eq!(SplitState::Delimiter.next(b'"'), double);
    assert_eq!(SplitState::Delimiter.next(b'x'), word);

    assert_eq!(word.next(b'\\'), escaped);
    assert_eq!(word.next(b'\''), single);
    assert_eq!(word.next(b'\t'), SplitState::Delimiter);
    assert_eq!(word.next(b'x'), word);
    assert_eq!(escaped.next(b' '), word);
    assert_eq!(escaped.next(b'\''), word);

    assert_eq!(single.next(b'\''), word);
    assert_eq!(single.next(b'"'), single);
    assert_eq!(single.next(b'\\'), single_escaped);
    assert_eq!(single.next(b' '), single);
    assert_eq!(single_escaped.next(b'\''), single);

    assert_eq!(SplitState::Backslash.next(b'\n'), SplitState::Delimiter);
    assert_eq!(SplitState::Backslash.next(b' '), word);

    assert!(SplitState::Delimiter.opens(b'x'));
    assert!(SplitState::Delimiter.opens(b'\\'));
    assert!(!SplitState::Delimiter.opens(b' '));
    assert!(!word.opens(b'x'));
    assert!(word.closes(b' '));
    assert!(!word.closes(b'x'));
    assert!(!escaped.closes(b' '));
    assert!(!single.closes(b' '));
    assert!(!SplitState::Backslash.closes(b'\n'));
}
