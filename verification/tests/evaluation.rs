use minishell::chain::parse_line;
use minishell::eval::EvalState;
use minishell::eval::StepAction;
use minishell::eval::advance;
use minishell::eval::record_outcome;
use minishell::eval::run_chain;
use minishell::eval::run_chains;
use minishell::grammar::Cmd;

/// The spy process layer of these tests: it never spawns anything, it only
/// renders what a spawned `echo` or `pwd` would have printed.
fn spied_output(cmd: &Cmd) -> String {
    match cmd.binary.as_str() {
        "echo" => format!("{}\n", cmd.args.join(" ")),
        "pwd" => "/home/user/project\n".to_string(),
        _ => String::new(),
    }
}

fn names(spawned: &[Cmd]) -> Vec<String> {
    spawned.iter().map(|c| c.binary.clone()).collect()
}

#[test]
fn shell_understands_and_operator() {
    let chains = parse_line("echo hello && echo world");
    assert_eq!(chains.len(), 1);
    assert_eq!(chains[0].count_commands(), 2);
    let run = run_chain(&chains[0], &vec![Some(true), Some(true)]);
    assert!(!run.missing_operand);
    assert_eq!(run.spawned.len(), 2);
    let stdout: String = run.spawned.iter().map(spied_output).collect();
    assert_eq!(stdout, "hello\nworld\n");
}

#[test]
fn shell_runs_pwd() {
    let chains = parse_line("pwd");
    assert_eq!(chains.len(), 1);
    let run = run_chain(&chains[0], &vec![Some(true)]);
    assert!(!run.missing_operand);
    let stdout: String = run.spawned.iter().map(spied_output).collect();
    assert_eq!(stdout, "/home/user/project\n");
}

#[test]
fn shell_runs_pwd_twice() {
    let chains = parse_line("pwd;pwd");
    assert_eq!(chains.len(), 2);
    let runs = run_chains(&chains, &vec![Some(true), Some(true)]);
    assert_eq!(runs.len(), 2);
    let stdout: String =
        runs.iter().flat_map(|r| r.spawned.iter()).map(spied_output).collect();
    assert_eq!(stdout, "/home/user/project\n/home/user/project\n");
}

#[test]
fn failed_first_command_skips_the_and_branch() {
    let chains = parse_line("echo hello && echo world");
    let run = run_chain(&chains[0], &vec![Some(false), Some(true)]);
    assert!(!run.missing_operand);
    assert_eq!(run.spawned.len(), 1);
    assert_eq!(names(&run.spawned), vec!["echo".to_string()]);
    assert_eq!(run.spawned[0].args, vec!["hello".to_string()]);
}

#[test]
fn failed_first_command_runs_the_or_branch() {
    let chains = parse_line("false || echo recovered");
    let run = run_chain(&chains[0], &vec![Some(false), Some(true)]);
    assert!(!run.missing_operand);
    assert_eq!(names(&run.spawned), vec!["false".to_string(), "echo".to_string()]);
    assert_eq!(run.spawned[1].args, vec!["recovered".to_string()]);
}

#[test]
fn successful_first_command_skips_the_or_branch() {
    let chains = parse_line("false || echo recovered");
    let run = run_chain(&chains[0], &vec![Some(true), Some(true)]);
    assert!(!run.missing_operand);
    assert_eq!(names(&run.spawned), vec!["false".to_string()]);
}

#[test]
fn leading_operator_raises_missing_operand_and_spawns_nothing() {
    let chains = parse_line("&&");
    assert_eq!(chains.len(), 1);
    let run = run_chain(&chains[0], &vec![]);
    assert!(run.missing_operand);
    assert_eq!(run.spawned.len(), 0);
}

#[test]
fn spawn_failure_clears_the_result_and_the_operator_aborts() {
    let chains = parse_line("nosuchbinary && echo x");
    let run = run_chain(&chains[0], &vec![None, Some(true)]);
    assert!(run.missing_operand);
    assert_eq!(names(&run.spawned), vec!["nosuchbinary".to_string()]);
}

#[test]
fn chains_are_independent_across_semicolons() {
    let chains = parse_line("false && echo skip ; echo always");
    assert_eq!(chains.len(), 2);
    let runs = run_chains(&chains, &vec![Some(false), Some(true), Some(true)]);
    assert_eq!(runs.len(), 2);
    assert_eq!(names(&runs[0].spawned), vec!["false".to_string()]);
    assert_eq!(names(&runs[1].spawned), vec!["echo".to_string()]);
    assert_eq!(runs[1].spawned[0].args, vec!["always".to_string()]);
}

#[test]
fn step_machine_drives_a_chain_one_command_at_a_time() {
    let chains = parse_line("echo a && echo b");
    let chain = &chains[0];
    let mut st = EvalState::start();
    let mut seen: Vec<Cmd> = Vec::new();
    loop {
        match advance(chain, &mut st) {
            StepAction::Run(c) => {
                seen.push(c);
                record_outcome(&mut st, Some(true));
            }
            StepAction::MissingOperand => panic!("unexpected missing operand"),
            StepAction::Done => break,
        }
    }
    assert_eq!(names(&seen), vec!["echo".to_string(), "echo".to_string()]);
    assert_eq!(seen[0].args, vec!["a".to_string()]);
    assert_eq!(seen[1].args, vec!["b".to_string()]);
}

#[test]
fn step_machine_short_circuits_after_failure() {
    let chains = parse_line("echo a && echo b");
    let chain = &chains[0];
    let mut st = EvalState::start();
    let mut count: usize = 0;
    loop {
        match advance(chain, &mut st) {
            StepAction::Run(_c) => {
                count += 1;
                record_outcome(&mut st, Some(false));
            }
            StepAction::MissingOperand => panic!("unexpected missing operand"),
            StepAction::Done => break,
        }
    }
    assert_eq!(count, 1);
}
