use zabrze::config::abbrev::{Abbrev, Context, Function, Operation, Snippet, Trigger};
use zabrze::config::Config;
use zabrze::expand::{expand, ExpandResult};
use zabrze::opt::ExpandArgs;

fn abbrev(
    name: &str,
    context: &str,
    global: bool,
    trigger: Trigger,
    operation: Operation,
    evaluate: bool,
) -> Abbrev {
    Abbrev {
        name: Some(name.to_string()),
        context: Context {
            context: context.to_string(),
            global,
        },
        trigger,
        function: Function {
            operation,
            cursor: None,
            evaluate,
            redraw: false,
        },
    }
}

fn test_config() -> Config {
    Config {
        abbrevs: vec![
            abbrev(
                "git",
                "",
                false,
                Trigger::AbbrString("g".to_string()),
                Operation::ReplaceSelf("git".to_string()),
                false,
            ),
            abbrev(
                "git commit",
                "git",
                false,
                Trigger::AbbrString("c".to_string()),
                Operation::ReplaceSelf("commit".to_string()),
                false,
            ),
            abbrev(
                ">/dev/null",
                "",
                true,
                Trigger::AbbrString("null".to_string()),
                Operation::ReplaceSelf(">/dev/null".to_string()),
                false,
            ),
            abbrev(
                "$HOME",
                "",
                false,
                Trigger::AbbrString("home".to_string()),
                Operation::ReplaceSelf("$HOME".to_string()),
                true,
            ),
            abbrev(
                "default argument",
                "",
                false,
                Trigger::AbbrString("rm".to_string()),
                Operation::Append("-i".to_string()),
                false,
            ),
            abbrev(
                "fake command",
                "extract",
                false,
                Trigger::AbbrRegex(r"\.tar$".to_string()),
                Operation::ReplaceFirst("tar -xvf".to_string()),
                false,
            ),
            abbrev(
                "function?",
                "mkdircd",
                false,
                Trigger::AbbrRegex(".+".to_string()),
                Operation::ReplaceAll("mkdir -p $1 && cd $1".to_string()),
                true,
            ),
            abbrev(
                "associated command",
                "",
                false,
                Trigger::AbbrRegex(r"\.java$".to_string()),
                Operation::Prepend("java -jar".to_string()),
                false,
            ),
            abbrev(
                "context replacement",
                "a b",
                false,
                Trigger::AbbrString("c".to_string()),
                Operation::ReplaceContext("A".to_string()),
                false,
            ),
        ],
    }
}

struct Scenario<'a> {
    pub testname: &'a str,
    pub lbuffer: &'a str,
    pub rbuffer: &'a str,
    pub expected: Option<ExpandResult<'a>>,
}

#[test]
fn test_expand() {
    let config = test_config();

    let scenarios = vec![
        Scenario {
            testname: "empty",
            lbuffer: "",
            rbuffer: "",
            expected: None,
        },
        Scenario {
            testname: "simple abbr",
            lbuffer: "g",
            rbuffer: "",
            expected: Some(ExpandResult {
                lbuffer: "g",
                rbuffer: "",
                start_index_of_replacement: 0,
                end_index_of_replacement: 1,
                args: vec!["g"],
                context_size: 0,
                snippet: Snippet::Simple("git"),
                append: false,
                prepend: false,
                evaluate: false,
                redraw: false,
            }),
        },
        Scenario {
            testname: "simple abbr with rbuffer",
            lbuffer: "g",
            rbuffer: " --pager=never",
            expected: Some(ExpandResult {
                lbuffer: "g",
                rbuffer: " --pager=never",
                start_index_of_replacement: 0,
                end_index_of_replacement: 1,
                args: vec!["g"],
                context_size: 0,
                snippet: Snippet::Simple("git"),
                append: false,
                prepend: false,
                evaluate: false,
                redraw: false,
            }),
        },
        Scenario {
            testname: "simple abbr with leading command",
            lbuffer: "echo hello; g",
            rbuffer: "",
            expected: Some(ExpandResult {
                lbuffer: "echo hello; g",
                rbuffer: "",
                start_index_of_replacement: 12,
                end_index_of_replacement: 13,
                args: vec!["g"],
                context_size: 0,
                snippet: Snippet::Simple("git"),
                append: false,
                prepend: false,
                evaluate: false,
                redraw: false,
            }),
        },
        Scenario {
            testname: "global abbr",
            lbuffer: "echo hello null",
            rbuffer: "",
            expected: Some(ExpandResult {
                lbuffer: "echo hello null",
                rbuffer: "",
                start_index_of_replacement: 11,
                end_index_of_replacement: 15,
                args: vec!["echo", "hello", "null"],
                context_size: 0,
                snippet: Snippet::Simple(">/dev/null"),
                append: false,
                prepend: false,
                evaluate: false,
                redraw: false,
            }),
        },
        Scenario {
            testname: "global abbr with context",
            lbuffer: "echo hello; git c",
            rbuffer: " -m hello",
            expected: Some(ExpandResult {
                lbuffer: "echo hello; git c",
                rbuffer: " -m hello",
                start_index_of_replacement: 16,
                end_index_of_replacement: 17,
                args: vec!["git", "c"],
                context_size: 1,
                snippet: Snippet::Simple("commit"),
                append: false,
                prepend: false,
                evaluate: false,
                redraw: false,
            }),
        },
        Scenario {
            testname: "global abbr with miss matched context",
            lbuffer: "echo git c",
            rbuffer: "",
            expected: None,
        },
        Scenario {
            testname: "no matched abbr",
            lbuffer: "echo",
            rbuffer: " hello",
            expected: None,
        },
        Scenario {
            testname: "simple abbr with evaluate=true",
            lbuffer: "home",
            rbuffer: "",
            expected: Some(ExpandResult {
                lbuffer: "home",
                rbuffer: "",
                start_index_of_replacement: 0,
                end_index_of_replacement: 4,
                args: vec!["home"],
                context_size: 0,
                snippet: Snippet::Simple("$HOME"),
                append: false,
                prepend: false,
                evaluate: true,
                redraw: false,
            }),
        },
        Scenario {
            testname: "default argument abbr",
            lbuffer: "rm",
            rbuffer: "",
            expected: Some(ExpandResult {
                lbuffer: "rm",
                rbuffer: "",
                start_index_of_replacement: 2,
                end_index_of_replacement: 2,
                args: vec!["rm"],
                context_size: 0,
                snippet: Snippet::Simple("-i"),
                append: true,
                prepend: false,
                evaluate: false,
                redraw: false,
            }),
        },
        Scenario {
            testname: "fake command abbr",
            lbuffer: "extract test.tar",
            rbuffer: "",
            expected: Some(ExpandResult {
                lbuffer: "extract test.tar",
                rbuffer: "",
                start_index_of_replacement: 0,
                end_index_of_replacement: 7,
                args: vec!["extract", "test.tar"],
                context_size: 1,
                snippet: Snippet::Simple("tar -xvf"),
                evaluate: false,
                redraw: false,
                append: false,
                prepend: false,
            }),
        },
        Scenario {
            testname: "like a function abbr",
            lbuffer: "mkdircd foo/bar",
            rbuffer: "",
            expected: Some(ExpandResult {
                lbuffer: "mkdircd foo/bar",
                rbuffer: "",
                start_index_of_replacement: 0,
                end_index_of_replacement: 15,
                args: vec!["mkdircd", "foo/bar"],
                context_size: 1,
                snippet: Snippet::Simple("mkdir -p $1 && cd $1"),
                append: false,
                prepend: false,
                evaluate: true,
                redraw: false,
            }),
        },
        Scenario {
            testname: "associated command abbr",
            lbuffer: "test.java",
            rbuffer: "",
            expected: Some(ExpandResult {
                lbuffer: "test.java",
                rbuffer: "",
                start_index_of_replacement: 0,
                end_index_of_replacement: 0,
                args: vec!["test.java"],
                context_size: 0,
                snippet: Snippet::Simple("java -jar"),
                append: false,
                prepend: true,
                evaluate: false,
                redraw: false,
            }),
        },
        Scenario {
            testname: "context replacement",
            lbuffer: " a b c",
            rbuffer: "",
            expected: Some(ExpandResult {
                lbuffer: " a b c",
                rbuffer: "",
                start_index_of_replacement: 1,
                end_index_of_replacement: 4,
                args: vec!["a", "b", "c"],
                context_size: 2,
                snippet: Snippet::Simple("A"),
                append: false,
                prepend: false,
                evaluate: false,
                redraw: false,
            }),
        },
    ];

    for s in &scenarios {
        let args = ExpandArgs {
            lbuffer: s.lbuffer.to_string(),
            rbuffer: s.rbuffer.to_string(),
        };

        let actual = expand(&args, &config);

        assert_eq!(actual, s.expected, "{}", s.testname);
    }
}

fn expand_range(lbuffer: &str, rbuffer: &str, config: &Config) -> Option<(usize, usize, String, bool, bool)> {
    let args = ExpandArgs {
        lbuffer: lbuffer.to_string(),
        rbuffer: rbuffer.to_string(),
    };
    expand(&args, config).map(|result| {
        let snippet = match result.snippet {
            Snippet::Simple(snippet) => snippet.to_string(),
            Snippet::Divided(before, after) => format!("{}|{}", before, after),
        };
        (
            result.start_index_of_replacement,
            result.end_index_of_replacement,
            snippet,
            result.append,
            result.prepend,
        )
    })
}

#[test]
fn replace_self_replaces_the_last_argument() {
    let config = test_config();
    assert_eq!(
        expand_range("g", "", &config),
        Some((0, 1, "git".to_string(), false, false))
    );
}

#[test]
fn segment_begins_after_the_last_separator() {
    let config = test_config();
    assert_eq!(
        expand_range("echo hello; g", "", &config),
        Some((12, 13, "git".to_string(), false, false))
    );
}

#[test]
fn global_rule_fires_after_other_arguments() {
    let config = test_config();
    assert_eq!(
        expand_range("echo hello null", "", &config),
        Some((11, 15, ">/dev/null".to_string(), false, false))
    );
}

#[test]
fn rule_with_context_fires_right_after_the_context() {
    let config = test_config();
    assert_eq!(
        expand_range("echo hello; git c", " -m hello", &config),
        Some((16, 17, "commit".to_string(), false, false))
    );
}

#[test]
fn rule_with_context_does_not_fire_after_another_command() {
    let config = test_config();
    assert_eq!(expand_range("echo git c", "", &config), None);
}

#[test]
fn append_adds_after_the_line() {
    let config = test_config();
    assert_eq!(
        expand_range("rm", "", &config),
        Some((2, 2, "-i".to_string(), true, false))
    );
}

#[test]
fn replace_first_replaces_the_first_argument() {
    let config = test_config();
    assert_eq!(
        expand_range("extract test.tar", "", &config),
        Some((0, 7, "tar -xvf".to_string(), false, false))
    );
}

#[test]
fn prepend_adds_before_the_command() {
    let config = test_config();
    assert_eq!(
        expand_range("test.java", "", &config),
        Some((0, 0, "java -jar".to_string(), false, true))
    );
}

#[test]
fn replace_context_replaces_the_arguments_of_the_context() {
    let config = test_config();
    assert_eq!(
        expand_range(" a b c", "", &config),
        Some((1, 4, "A".to_string(), false, false))
    );
}

#[test]
fn replace_context_without_context_adds_before_the_command() {
    let config = Config {
        abbrevs: vec![abbrev(
            "sudo",
            "",
            true,
            Trigger::AbbrString("!!".to_string()),
            Operation::ReplaceContext("sudo".to_string()),
            false,
        )],
    };
    assert_eq!(
        expand_range("ls; cat x !!", "", &config),
        Some((4, 4, "sudo".to_string(), false, true))
    );
}

#[test]
fn replace_all_replaces_the_whole_command() {
    let config = test_config();
    assert_eq!(
        expand_range("ls | mkdircd foo/bar", "", &config),
        Some((5, 20, "mkdir -p $1 && cd $1".to_string(), false, false))
    );
}

#[test]
fn nothing_expands_after_a_delimiter() {
    let config = test_config();
    assert_eq!(expand_range("g ", "", &config), None);
    assert_eq!(expand_range("", "g", &config), None);
    assert_eq!(expand_range("echo;", "", &config), None);
    assert_eq!(expand_range("git c\t", "", &config), None);
}

#[test]
fn offsets_count_bytes() {
    let config = test_config();
    assert_eq!(
        expand_range("écho 🐣; g", "", &config),
        Some((12, 13, "git".to_string(), false, false))
    );
    assert_eq!(
        expand_range("é ü null", "", &config),
        Some((6, 10, ">/dev/null".to_string(), false, false))
    );
}

#[test]
fn ascii_white_space_before_the_command_is_skipped() {
    let config = test_config();
    assert_eq!(
        expand_range("a; \t\r\n\u{c}rm", "", &config),
        Some((9, 9, "-i".to_string(), true, false))
    );
    assert_eq!(
        expand_range("a|\u{c}test.java", "", &config),
        Some((3, 3, "java -jar".to_string(), false, true))
    );
}

#[test]
fn first_rule_that_applies_wins() {
    let config = Config {
        abbrevs: vec![
            abbrev(
                "never",
                "git",
                false,
                Trigger::AbbrString("g".to_string()),
                Operation::ReplaceSelf("zero".to_string()),
                false,
            ),
            abbrev(
                "first",
                "",
                true,
                Trigger::AbbrPrefix("g".to_string()),
                Operation::ReplaceSelf("one".to_string()),
                false,
            ),
            abbrev(
                "second",
                "",
                false,
                Trigger::AbbrString("g".to_string()),
                Operation::ReplaceSelf("two".to_string()),
                false,
            ),
            abbrev(
                "third",
                "",
                false,
                Trigger::AbbrSuffix("g".to_string()),
                Operation::ReplaceAll("three".to_string()),
                false,
            ),
        ],
    };
    assert_eq!(
        expand_range("g", "", &config),
        Some((0, 1, "one".to_string(), false, false))
    );
    assert_eq!(
        expand_range("ag", "", &config),
        Some((0, 2, "three".to_string(), false, false))
    );
}

#[test]
fn cursor_divides_the_snippet_of_a_plan() {
    let config = Config {
        abbrevs: vec![Abbrev {
            name: None,
            context: Context {
                context: String::new(),
                global: true,
            },
            trigger: Trigger::AbbrString("cm".to_string()),
            function: Function {
                operation: Operation::ReplaceSelf("commit -m '{}'".to_string()),
                cursor: Some("{}".to_string()),
                evaluate: false,
                redraw: true,
            },
        }],
    };
    let args = ExpandArgs {
        lbuffer: "git cm".to_string(),
        rbuffer: " x".to_string(),
    };
    assert_eq!(
        expand(&args, &config),
        Some(ExpandResult {
            lbuffer: "git cm",
            rbuffer: " x",
            start_index_of_replacement: 4,
            end_index_of_replacement: 6,
            args: vec!["git", "cm"],
            context_size: 0,
            snippet: Snippet::Divided("commit -m '", "'"),
            append: false,
            prepend: false,
            evaluate: false,
            redraw: true,
        })
    );
}

#[test]
fn range_lies_inside_the_left_buffer() {
    let config = test_config();
    let lines = [
        "g",
        "  g",
        "x; g",
        "echo hello null",
        "git c",
        "rm",
        "a; rm",
        "extract test.tar",
        "mkdircd é/ü",
        "é.java",
        "ls | a b c",
        "\\\ntest.java",
    ];
    for line in lines {
        let args = ExpandArgs {
            lbuffer: line.to_string(),
            rbuffer: String::new(),
        };
        let result = expand(&args, &config).expect(line);
        assert!(result.start_index_of_replacement <= result.end_index_of_replacement);
        assert!(result.end_index_of_replacement <= line.len());
    }
}
