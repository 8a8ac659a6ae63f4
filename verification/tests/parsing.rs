use minishell::chain::Chain;
use minishell::chain::parse_line;
use minishell::grammar::Cmd;
use minishell::grammar::Element;
use minishell::grammar::Operator;
use minishell::token::join_tokens;
use minishell::token::tokenize;

fn cmd(binary: &str, args: &[&str]) -> Cmd {
    Cmd { binary: binary.to_string(), args: args.iter().map(|a| a.to_string()).collect() }
}

fn chain_of(elements: Vec<Element>) -> Chain {
    Chain { elements }
}

#[test]
fn no_cmd_is_parsed_from_empty_line() {
    assert_eq!(parse_line(""), vec![]);
}

#[test]
fn whitespace_only_line_yields_no_chains() {
    assert_eq!(tokenize(" \t  \r\n"), Vec::<String>::new());
    assert_eq!(parse_line(" \t  \r\n"), vec![]);
}

#[test]
fn cmd_with_no_args_is_parsed() {
    assert_eq!(parse_line("ls"), vec![chain_of(vec![Element::Cmd(cmd("ls", &[]))])]);
}

#[test]
fn cmd_with_args_is_parsed() {
    assert_eq!(parse_line("ls -l"), vec![chain_of(vec![Element::Cmd(cmd("ls", &["-l"]))])]);
}

#[test]
fn cmds_are_parsed() {
    assert_eq!(
        parse_line("ls; echo hello"),
        vec![
            chain_of(vec![Element::Cmd(cmd("ls", &[]))]),
            chain_of(vec![Element::Cmd(cmd("echo", &["hello"]))]),
        ]
    );
}

#[test]
fn semicolon_needs_no_surrounding_spaces() {
    assert_eq!(
        parse_line("pwd;pwd"),
        vec![
            chain_of(vec![Element::Cmd(cmd("pwd", &[]))]),
            chain_of(vec![Element::Cmd(cmd("pwd", &[]))]),
        ]
    );
}

#[test]
fn empty_runs_between_semicolons_yield_no_chains() {
    assert_eq!(
        parse_line(";; ls ; ; "),
        vec![chain_of(vec![Element::Cmd(cmd("ls", &[]))])]
    );
}

#[test]
fn conjunction_is_kept_inside_one_chain() {
    assert_eq!(
        parse_line("echo hello && echo world"),
        vec![chain_of(vec![
            Element::Cmd(cmd("echo", &["hello"])),
            Element::Op(Operator::And),
            Element::Cmd(cmd("echo", &["world"])),
        ])]
    );
}

#[test]
fn and_operator_is_recognized_only_as_its_own_token() {
    // No quoting support: operator recognition happens at token boundaries,
    // so `&&` glued to a word is part of that word, never an operator.
    assert_eq!(
        parse_line("a&&b"),
        vec![chain_of(vec![Element::Cmd(cmd("a&&b", &[]))])]
    );
}

#[test]
fn operator_literal_is_never_an_argument() {
    assert_eq!(
        parse_line("echo a || echo b"),
        vec![chain_of(vec![
            Element::Cmd(cmd("echo", &["a"])),
            Element::Op(Operator::Or),
            Element::Cmd(cmd("echo", &["b"])),
        ])]
    );
}

#[test]
fn tokenize_splits_on_whitespace_runs_and_semicolons() {
    let toks = tokenize("  a  &&  b || c ;d  ");
    let expected: Vec<String> =
        vec!["a", "&&", "b", "||", "c", ";", "d"].into_iter().map(|t| t.to_string()).collect();
    assert_eq!(toks, expected);
}

#[test]
fn retokenizing_joined_tokens_reproduces_them() {
    let toks = tokenize("  ls   -l ;  echo  x ");
    let joined = join_tokens(&toks);
    assert_eq!(joined, "ls -l ; echo x".to_string());
    assert_eq!(tokenize(&joined), toks);
}
