use zabrze::config::abbrev::{Context, ContextMatchResult};

struct Scenario {
    pub testname: &'static str,
    pub abbr_context: Context,
    pub args_until_last: Vec<&'static str>,
    pub expected: Option<ContextMatchResult>,
}

fn scenario(
    testname: &'static str,
    context: &str,
    global: bool,
    args_until_last: Vec<&'static str>,
    expected: Option<usize>,
) -> Scenario {
    Scenario {
        testname,
        abbr_context: Context {
            context: context.to_string(),
            global,
        },
        args_until_last,
        expected: expected.map(|context_size| ContextMatchResult { context_size }),
    }
}

#[test]
fn test_matches_context() {
    let scenarios = vec![
        Scenario {
            testname: r#"should match if empty context, non-global, args == ""#,
            abbr_context: Context {
                context: String::new(),
                global: false,
            },
            args_until_last: vec![],
            expected: Some(ContextMatchResult { context_size: 0 }),
        },
        Scenario {
            testname: r#"should not match if empty context, non-global, args == "a""#,
            abbr_context: Context {
                context: String::new(),
                global: false,
            },
            args_until_last: vec!["a"],
            expected: None,
        },
        Scenario {
            testname: r#"should match if empty context, global, args == """#,
            abbr_context: Context {
                context: String::new(),
                global: true,
            },
            args_until_last: vec![],
            expected: Some(ContextMatchResult { context_size: 0 }),
        },
        Scenario {
            testname: r#"should match if empty context, global, args == "a""#,
            abbr_context: Context {
                context: String::new(),
                global: true,
            },
            args_until_last: vec!["a"],
            expected: Some(ContextMatchResult { context_size: 0 }),
        },
        Scenario {
            testname: r#"should not match if context == "git", non-global, args == """#,
            abbr_context: Context {
                context: "git".to_string(),
                global: false,
            },
            args_until_last: vec![],
            expected: None,
        },
        Scenario {
            testname: r#"should not match if context == "git", non-global, args == "a""#,
            abbr_context: Context {
                context: "git".to_string(),
                global: false,
            },
            args_until_last: vec!["a"],
            expected: None,
        },
        Scenario {
            testname: r#"should match if context == "git", non-global, args =="git""#,
            abbr_context: Context {
                context: "git".to_string(),
                global: false,
            },
            args_until_last: vec!["git"],
            expected: Some(ContextMatchResult { context_size: 1 }),
        },
        Scenario {
            testname: r#"should not match if context == "git", non-global, args == "git commit""#,
            abbr_context: Context {
                context: "git".to_string(),
                global: false,
            },
            args_until_last: vec!["git", "commit"],
            expected: None,
        },
        Scenario {
            testname: r#"should not match if context == "git", global, args == """#,
            abbr_context: Context {
                context: "git".to_string(),
                global: true,
            },
            args_until_last: vec![],
            expected: None,
        },
        Scenario {
            testname: r#"should not match if context == "git", global, args == "a""#,
            abbr_context: Context {
                context: "git".to_string(),
                global: true,
            },
            args_until_last: vec!["a"],
            expected: None,
        },
        Scenario {
            testname: r#"should match if context == "git", global, args == "git""#,
            abbr_context: Context {
                context: "git".to_string(),
                global: true,
            },
            args_until_last: vec!["git"],
            expected: Some(ContextMatchResult { context_size: 1 }),
        },
        Scenario {
            testname: r#"should match if context == "git", global, args == "git commit""#,
            abbr_context: Context {
                context: "git".to_string(),
                global: true,
            },
            args_until_last: vec!["git", "commit"],
            expected: Some(ContextMatchResult { context_size: 1 }),
        },
        Scenario {
            testname: r#"should match if context == "git", global, args == "echo git""#,
            abbr_context: Context {
                context: "git".to_string(),
                global: true,
            },
            args_until_last: vec!["echo", "git"],
            expected: None,
        },
        Scenario {
            testname: r#"should match if context == "git commit", non-global, args == "git commit""#,
            abbr_context: Context {
                context: "git commit".to_string(),
                global: false,
            },
            args_until_last: vec!["git", "commit"],
            expected: Some(ContextMatchResult { context_size: 2 }),
        },
        Scenario {
            testname: r#"should match if context == "  git  commit  ", non-global, args == "git commit""#,
            abbr_context: Context {
                context: "  git  commit  ".to_string(),
                global: false,
            },
            args_until_last: vec!["git", "commit"],
            expected: Some(ContextMatchResult { context_size: 2 }),
        },
        Scenario {
            testname: r#"should not match if context == "git commit", non-global, args == "git""#,
            abbr_context: Context {
                context: "git commit".to_string(),
                global: false,
            },
            args_until_last: vec!["git"],
            expected: None,
        },
        Scenario {
            testname: r#"should not match if context == "git commit", non-global, args == """#,
            abbr_context: Context {
                context: "git commit".to_string(),
                global: false,
            },
            args_until_last: vec![""],
            expected: None,
        },
        Scenario {
            testname: r#"should not match if context == "git commit", non-global, args == "git commit -m""#,
            abbr_context: Context {
                context: "git commit".to_string(),
                global: false,
            },
            args_until_last: vec!["git", "commit", "-m"],
            expected: None,
        },
        Scenario {
            testname: r#"should not match if context == "git commit", non-global, args == "git commita""#,
            abbr_context: Context {
                context: "git commit".to_string(),
                global: false,
            },
            args_until_last: vec!["git", "commita"],
            expected: None,
        },
        Scenario {
            testname: r#"should not match if context == "git commit", non-global, args == "git com""#,
            abbr_context: Context {
                context: "git commit".to_string(),
                global: false,
            },
            args_until_last: vec!["git", "com"],
            expected: None,
        },
        Scenario {
            testname: r#"should not match if context == "git commit", global, args == "git""#,
            abbr_context: Context {
                context: "git commit".to_string(),
                global: true,
            },
            args_until_last: vec!["git"],
            expected: None,
        },
        Scenario {
            testname: r#"should match if context == "git commit", global, args == "git commit""#,
            abbr_context: Context {
                context: "git commit".to_string(),
                global: true,
            },
            args_until_last: vec!["git", "commit"],
            expected: Some(ContextMatchResult { context_size: 2 }),
        },
        Scenario {
            testname: r#"should match if context == "git commit", global, args == "git commit -m""#,
            abbr_context: Context {
                context: "git commit".to_string(),
                global: true,
            },
            args_until_last: vec!["git", "commit", "-m"],
            expected: Some(ContextMatchResult { context_size: 2 }),
        },
    ];
    for s in &scenarios {
        assert_eq!(
            s.abbr_context.matches(&s.args_until_last),
            s.expected,
            "{}",
            s.testname
        );
    }
}

#[test]
fn empty_context_matches_any_arguments_when_global() {
    let scenarios = vec![
        scenario("no argument", "", true, vec![], Some(0)),
        scenario("one argument", "", true, vec!["a"], Some(0)),
        scenario("several arguments", "", true, vec!["a", "b c", ""], Some(0)),
        scenario("blank context", " \t ", true, vec!["a", "b"], Some(0)),
    ];
    for s in &scenarios {
        assert_eq!(
            s.abbr_context.matches(&s.args_until_last),
            s.expected,
            "{}",
            s.testname
        );
    }
}

#[test]
fn empty_context_matches_only_a_lone_argument_when_not_global() {
    let scenarios = vec![
        scenario("no argument", "", false, vec![], Some(0)),
        scenario("one argument", "", false, vec!["a"], None),
        scenario("blank context, no argument", "  ", false, vec![], Some(0)),
        scenario("blank context, one argument", "  ", false, vec!["a"], None),
    ];
    for s in &scenarios {
        assert_eq!(
            s.abbr_context.matches(&s.args_until_last),
            s.expected,
            "{}",
            s.testname
        );
    }
}

#[test]
fn context_words_are_matched_whole() {
    let scenarios = vec![
        scenario("longer argument", "git", true, vec!["github"], None),
        scenario("shorter argument", "git", true, vec!["gi"], None),
        scenario("longer argument, not global", "git", false, vec!["github"], None),
        scenario("shorter argument, not global", "git", false, vec!["gi"], None),
        scenario("the word itself", "git", true, vec!["git"], Some(1)),
        scenario("longer context", "github", true, vec!["git"], None),
    ];
    for s in &scenarios {
        assert_eq!(
            s.abbr_context.matches(&s.args_until_last),
            s.expected,
            "{}",
            s.testname
        );
    }
}

#[test]
fn context_white_space_is_unicode_white_space() {
    let scenarios = vec![
        scenario("tab and newline", "\tgit\ncommit", false, vec!["git", "commit"], Some(2)),
        scenario("no-break space", "git\u{a0}commit", false, vec!["git", "commit"], Some(2)),
        scenario("ideographic space", "\u{3000}git", false, vec!["git"], Some(1)),
        scenario("zero width space is no space", "git\u{200b}commit", true, vec!["git"], None),
        scenario("non-ascii words", "gït çommit", true, vec!["gït", "çommit", "x"], Some(2)),
    ];
    for s in &scenarios {
        assert_eq!(
            s.abbr_context.matches(&s.args_until_last),
            s.expected,
            "{}",
            s.testname
        );
    }
}

#[test]
fn an_argument_with_white_space_stands_for_several_words() {
    let scenarios = vec![
        scenario("quoted pair", "'a b' c", false, vec!["'a b'", "c"], Some(2)),
        scenario("two words in one argument", "a b", false, vec!["a b"], Some(1)),
        scenario("empty argument", "a", true, vec!["", "a"], None),
    ];
    for s in &scenarios {
        assert_eq!(
            s.abbr_context.matches(&s.args_until_last),
            s.expected,
            "{}",
            s.testname
        );
    }
}
