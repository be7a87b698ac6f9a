use lanchat::command::{
    client_dispatch, host_dispatch, new, ClientAction, CommandType, HostAction,
};

fn marshalled(input: &str) -> Option<CommandType> {
    let mut c = new();
    c.marshal(&input.to_string()).unwrap();
    c.command_type
}

#[test]
fn fresh_command_is_empty() {
    let c = new();
    assert!(c.command_type.is_none());
    assert_eq!(c.args.len(), 0);
}

#[test]
fn marshal_help() {
    assert_eq!(marshalled("help"), Some(CommandType::Help));
}

#[test]
fn marshal_is_case_insensitive() {
    assert_eq!(marshalled("HeLp"), Some(CommandType::Help));
    assert_eq!(marshalled("EXIT"), Some(CommandType::Exit));
    assert_eq!(marshalled("exit"), Some(CommandType::Exit));
}

#[test]
fn marshal_clear() {
    assert_eq!(marshalled("clear"), Some(CommandType::Clear));
}

#[test]
fn marshal_become_host() {
    assert_eq!(marshalled("become host"), Some(CommandType::BecomeHost));
}

#[test]
fn marshal_become_client() {
    assert_eq!(marshalled("become client"), Some(CommandType::BecomeClient));
}

#[test]
fn marshal_become_alone_falls_back_to_help() {
    assert_eq!(marshalled("become"), Some(CommandType::Help));
}

#[test]
fn marshal_become_unknown_falls_back_to_help() {
    assert_eq!(marshalled("become server"), Some(CommandType::Help));
}

#[test]
fn marshal_list_hosts() {
    assert_eq!(marshalled("list hosts"), Some(CommandType::ListHosts));
}

#[test]
fn marshal_list_alone_falls_back_to_help() {
    assert_eq!(marshalled("list"), Some(CommandType::Help));
}

#[test]
fn marshal_connect_and_disconnect() {
    assert_eq!(marshalled("connect"), Some(CommandType::Connect));
    assert_eq!(marshalled("disconnect"), Some(CommandType::Disconnect));
}

#[test]
fn marshal_start_with_target() {
    assert_eq!(marshalled("start 1.2.3.4"), Some(CommandType::Start));
}

#[test]
fn marshal_start_alone_falls_back_to_help() {
    assert_eq!(marshalled("start"), Some(CommandType::Help));
}

#[test]
fn marshal_unknown_word_falls_back_to_help() {
    assert_eq!(marshalled("dance"), Some(CommandType::Help));
}

#[test]
fn marshal_empty_line_is_refused() {
    let mut c = new();
    let r = c.marshal(&"".to_string());
    assert_eq!(r.unwrap_err(), "No command provided".to_string());
    assert!(c.command_type.is_none());
}

#[test]
fn marshal_whitespace_only_is_refused() {
    let mut c = new();
    assert!(c.marshal(&"   \t  \n".to_string()).is_err());
}

#[test]
fn marshal_keeps_arguments_in_order() {
    let mut c = new();
    c.marshal(&"start 1.2.3.4 extra".to_string()).unwrap();
    assert_eq!(c.args.len(), 2);
    assert_eq!(c.args[0], "1.2.3.4".to_string());
    assert_eq!(c.args[1], "extra".to_string());
}

#[test]
fn host_dispatch_starts_only_on_start() {
    let mut c = new();
    c.marshal(&"start 1.2.3.4".to_string()).unwrap();
    assert!(matches!(host_dispatch(&c), HostAction::StartChat));
    c.marshal(&"list hosts".to_string()).unwrap();
    assert!(matches!(host_dispatch(&c), HostAction::Invalid));
    assert!(matches!(host_dispatch(&new()), HostAction::Invalid));
}

#[test]
fn client_dispatch_lists_hosts() {
    let mut c = new();
    c.marshal(&"list hosts".to_string()).unwrap();
    assert!(matches!(client_dispatch(&c), ClientAction::ListHosts));
}

#[test]
fn client_dispatch_connects_on_good_target() {
    let mut c = new();
    c.marshal(&"start 192.168.0.7".to_string()).unwrap();
    match client_dispatch(&c) {
        ClientAction::Connect { octets } => assert_eq!(octets, (192, 168, 0, 7)),
        _ => panic!("expected a connect action"),
    }
}

#[test]
fn client_dispatch_reports_missing_target() {
    let c = lanchat::command::Command {
        command_type: Some(CommandType::Start),
        args: Vec::new(),
    };
    assert!(matches!(client_dispatch(&c), ClientAction::MissingTarget));
}

#[test]
fn client_dispatch_rejects_bad_target() {
    let mut c = new();
    c.marshal(&"start 300.1.2.3".to_string()).unwrap();
    assert!(matches!(client_dispatch(&c), ClientAction::BadTarget));
}

#[test]
fn client_dispatch_other_commands_are_invalid() {
    let mut c = new();
    c.marshal(&"connect".to_string()).unwrap();
    assert!(matches!(client_dispatch(&c), ClientAction::Invalid));
}

#[test]
fn prompt_renders_endpoints_and_role() {
    let mut s = String::new();
    lanchat::command::update_prompt_str(
        &mut s,
        &"127.0.0.1".to_string(),
        &9001,
        &9000,
        "Cli".to_string(),
    );
    assert_eq!(s, "127.0.0.1:9001->9000[Cli]$ ".to_string());
}
