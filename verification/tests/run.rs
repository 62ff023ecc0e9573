use zabrze::config::abbrev::{Abbrev, Context, Function, Operation, Trigger};
use zabrze::config::Config;
use zabrze::expand::{expand, render, run, try_render};
use zabrze::opt::ExpandArgs;

fn rule(name: &str, context: &str, global: bool, trigger: Trigger, operation: Operation) -> Abbrev {
    Abbrev {
        name: Some(name.to_string()),
        context: Context {
            context: context.to_string(),
            global,
        },
        trigger,
        function: Function {
            operation,
            cursor: None,
            evaluate: false,
            redraw: false,
        },
    }
}

fn config() -> Config {
    Config {
        abbrevs: vec![
            rule(
                "broken",
                "",
                true,
                Trigger::AbbrRegex("(".to_string()),
                Operation::ReplaceSelf("never".to_string()),
            ),
            rule(
                "git",
                "",
                false,
                Trigger::AbbrString("g".to_string()),
                Operation::ReplaceSelf("git".to_string()),
            ),
            rule(
                "tar",
                "extract",
                false,
                Trigger::AbbrSuffix(".tar".to_string()),
                Operation::ReplaceFirst("tar -xvf".to_string()),
            ),
            rule(
                "été",
                "",
                true,
                Trigger::AbbrPrefix("é".to_string()),
                Operation::ReplaceFirst("l'été".to_string()),
            ),
        ],
    }
}

fn args(lbuffer: &str, rbuffer: &str) -> ExpandArgs {
    ExpandArgs {
        lbuffer: lbuffer.to_string(),
        rbuffer: rbuffer.to_string(),
    }
}

#[test]
fn run_writes_the_plan_out() {
    let output = run(&args("echo hello; g", " x"), &config());
    assert_eq!(
        output.fragment,
        "local snippet=git;snippet=\"${snippet}\" && { LBUFFER='echo hello; '\"${(pj: :)${(@f)snippet}}\"'';RBUFFER=' x';};\n"
    );
    assert_eq!(output.diagnostics.len(), 1);
    assert_eq!(output.diagnostics[0].rule, 0);
    assert!(output.diagnostics[0]
        .message
        .starts_with("invalid regex in abbrev 'broken': "));
}

#[test]
fn run_writes_nothing_where_no_rule_applies() {
    let output = run(&args("echo hello", ""), &config());
    assert_eq!(output.fragment, "");
    assert_eq!(output.diagnostics.len(), 1);
    let output = run(&args("g ", ""), &config());
    assert_eq!(output.fragment, "");
    assert!(output.diagnostics.is_empty());
}

#[test]
fn run_replaces_the_first_argument() {
    let output = run(&args("ls && extract a.tar", ""), &config());
    assert_eq!(
        output.fragment,
        "local snippet='tar -xvf';snippet=\"${snippet}\" && { LBUFFER='ls && '\"${(pj: :)${(@f)snippet}}\"' a.tar';RBUFFER='';};\n"
    );
}

#[test]
fn every_plan_can_be_written_out() {
    let config = config();
    let lines = [
        "g",
        "\\\ng",
        "a \\\nb; g",
        "extract é.tar",
        "ü; \u{c}extract é.tar",
        "é",
        "\\\nét",
        "x|éa éb",
        "\u{a0}; éa",
    ];
    for line in lines {
        let args = args(line, "");
        let plan = expand(&args, &config).expect(line);
        assert!(plan.can_be_cut(), "{:?}", line);
        assert!(line.is_char_boundary(plan.start_index_of_replacement));
        assert!(line.is_char_boundary(plan.end_index_of_replacement));
        assert_eq!(try_render(&plan), Some(render(&plan)));
        assert_eq!(run(&args, &config).fragment, render(&plan));
    }
}

#[test]
fn first_argument_that_is_not_ascii_is_replaced_whole() {
    let arguments = args("x|éa éb", "");
    let shared = config();
    let plan = expand(&arguments, &shared).expect("the rule applies");
    assert_eq!(plan.start_index_of_replacement, 2);
    assert_eq!(plan.end_index_of_replacement, 5);
    assert_eq!(
        render(&plan),
        "local snippet='l'\\''été';snippet=\"${snippet}\" && { LBUFFER='x|'\"${(pj: :)${(@f)snippet}}\"' éb';RBUFFER='';};\n"
    );
}
