//! The command layer's model: the marshalled form of one typed command and
//! the dispatch decisions the host and client executors take on it. The
//! prompt, the reading of input lines and all printing stay outside.

use vstd::prelude::*;

verus! {

use crate::addr::{parse_ipv4, parse_ipv4_spec};
use crate::text::{tokenize, tokens_of, upper_seq, eq_ignore_case, views_of, dec_str, u16_to_string};

/// The kinds of command the prompt understands. `Send` and `Receive` are
/// reserved words that no input currently marshals to.
#[derive(Clone, Copy, Debug, PartialEq, Eq, Structural)]
pub enum CommandType {
    /// List all commands.
    Help,
    /// Exit the program.
    Exit,
    /// Clear the screen.
    Clear,
    /// Start sending UDP discovery announcements.
    BecomeHost,
    /// Listen for announcements and remember the discovered hosts.
    BecomeClient,
    /// List the hosts discovered so far.
    ListHosts,
    /// Start the chat session (serve as host, or connect as client).
    Start,
    /// Connect to a host.
    Connect,
    /// Disconnect from a host.
    Disconnect,
    /// Reserved: start a message sending session.
    Send,
    /// Reserved: start a message receiving session.
    Receive,
}

/// One marshalled command: its kind, and the tokens that followed the
/// command word.
#[derive(Debug)]
pub struct Command {
    pub command_type: Option<CommandType>,
    pub args: Vec<String>,
}

/// The kind a non-empty token sequence marshals to. The command word and
/// the selector after it are matched case-insensitively; anything
/// unrecognised, and a `BECOME`, `LIST` or `START` without its argument,
/// falls back to `Help`.
pub open spec fn parse_spec(toks: Seq<Seq<char>>) -> CommandType
    recommends
        toks.len() > 0,
{
    let t0 = upper_seq(toks[0]);
    if t0 == "HELP"@ {
        CommandType::Help
    } else if t0 == "EXIT"@ {
        CommandType::Exit
    } else if t0 == "CLEAR"@ {
        CommandType::Clear
    } else if t0 == "BECOME"@ {
        if toks.len() < 2 {
            CommandType::Help
        } else if upper_seq(toks[1]) == "HOST"@ {
            CommandType::BecomeHost
        } else if upper_seq(toks[1]) == "CLIENT"@ {
            CommandType::BecomeClient
        } else {
            CommandType::Help
        }
    } else if t0 == "LIST"@ {
        if toks.len() < 2 {
            CommandType::Help
        } else if upper_seq(toks[1]) == "HOSTS"@ {
            CommandType::ListHosts
        } else {
            CommandType::Help
        }
    } else if t0 == "CONNECT"@ {
        CommandType::Connect
    } else if t0 == "DISCONNECT"@ {
        CommandType::Disconnect
    } else if t0 == "START"@ {
        if toks.len() < 2 {
            CommandType::Help
        } else {
            CommandType::Start
        }
    } else {
        CommandType::Help
    }
}

/// The canonical keyword spellings are already upper case, so folding
/// them is the identity.
proof fn lemma_keywords_upper()
    ensures
        upper_seq("HELP"@) == "HELP"@,
        upper_seq("EXIT"@) == "EXIT"@,
        upper_seq("CLEAR"@) == "CLEAR"@,
        upper_seq("BECOME"@) == "BECOME"@,
        upper_seq("HOST"@) == "HOST"@,
        upper_seq("CLIENT"@) == "CLIENT"@,
        upper_seq("LIST"@) == "LIST"@,
        upper_seq("HOSTS"@) == "HOSTS"@,
        upper_seq("CONNECT"@) == "CONNECT"@,
        upper_seq("DISCONNECT"@) == "DISCONNECT"@,
        upper_seq("START"@) == "START"@,
{
    reveal_strlit("HELP");
    reveal_strlit("EXIT");
    reveal_strlit("CLEAR");
    reveal_strlit("BECOME");
    reveal_strlit("HOST");
    reveal_strlit("CLIENT");
    reveal_strlit("LIST");
    reveal_strlit("HOSTS");
    reveal_strlit("CONNECT");
    reveal_strlit("DISCONNECT");
    reveal_strlit("START");
    assert(upper_seq("HELP"@) =~= "HELP"@);
    assert(upper_seq("EXIT"@) =~= "EXIT"@);
    assert(upper_seq("CLEAR"@) =~= "CLEAR"@);
    assert(upper_seq("BECOME"@) =~= "BECOME"@);
    assert(upper_seq("HOST"@) =~= "HOST"@);
    assert(upper_seq("CLIENT"@) =~= "CLIENT"@);
    assert(upper_seq("LIST"@) =~= "LIST"@);
    assert(upper_seq("HOSTS"@) =~= "HOSTS"@);
    assert(upper_seq("CONNECT"@) =~= "CONNECT"@);
    assert(upper_seq("DISCONNECT"@) =~= "DISCONNECT"@);
    assert(upper_seq("START"@) =~= "START"@);
}

impl Command {
    /// Marshal one typed line. A line with no tokens is refused; otherwise
    /// the command's kind is decided by the parse table and the tokens
    /// after the command word become its arguments.
    #[verifier::rlimit(30)]
    pub fn marshal(&mut self, s: &String) -> (r: Result<(), String>)
        ensures
            match r {
                Ok(_) => tokens_of(s@).len() > 0 && final(self).command_type == Some(
                    parse_spec(tokens_of(s@)),
                ) && views_of(final(self).args@) == tokens_of(s@).drop_first(),
                Err(e) => tokens_of(s@).len() == 0 && *final(self) == *old(self) && e@
                    == "No command provided"@,
            },
    {
        let toks = tokenize(s);
        proof {
            lemma_keywords_upper();
        }
        if toks.len() == 0 {
            return Err("No command provided".to_owned());
        }
        let ct: CommandType = if eq_ignore_case(toks[0].as_str(), "HELP") {
            CommandType::Help
        } else if eq_ignore_case(toks[0].as_str(), "EXIT") {
            CommandType::Exit
        } else if eq_ignore_case(toks[0].as_str(), "CLEAR") {
            CommandType::Clear
        } else if eq_ignore_case(toks[0].as_str(), "BECOME") {
            if toks.len() < 2 {
                CommandType::Help
            } else if eq_ignore_case(toks[1].as_str(), "HOST") {
                CommandType::BecomeHost
            } else if eq_ignore_case(toks[1].as_str(), "CLIENT") {
                CommandType::BecomeClient
            } else {
                CommandType::Help
            }
        } else if eq_ignore_case(toks[0].as_str(), "LIST") {
            if toks.len() < 2 {
                CommandType::Help
            } else if eq_ignore_case(toks[1].as_str(), "HOSTS") {
                CommandType::ListHosts
            } else {
                CommandType::Help
            }
        } else if eq_ignore_case(toks[0].as_str(), "CONNECT") {
            CommandType::Connect
        } else if eq_ignore_case(toks[0].as_str(), "DISCONNECT") {
            CommandType::Disconnect
        } else if eq_ignore_case(toks[0].as_str(), "START") {
            if toks.len() < 2 {
                CommandType::Help
            } else {
                CommandType::Start
            }
        } else {
            CommandType::Help
        };
        proof {
            assert(ct == parse_spec(tokens_of(s@)));
        }
        self.command_type = Some(ct);
        let n = toks.len();
        let mut args: Vec<String> = Vec::new();
        let mut i: usize = 1;
        proof {
            assert(views_of(args@) =~= tokens_of(s@).subrange(1, 1));
        }
        while i < n
            invariant
                1 <= i <= n,
                n == toks@.len(),
                views_of(toks@) == tokens_of(s@),
                views_of(args@) == tokens_of(s@).subrange(1, i as int),
            decreases n - i,
        {
            let ghost args0 = args@;
            let t = toks[i].clone();
            args.push(t);
            proof {
                assert(views_of(args@) =~= views_of(args0).push(tokens_of(s@)[i as int]));
                assert(views_of(args@) =~= tokens_of(s@).subrange(1, i as int + 1));
            }
            i += 1;
        }
        self.args = args;
        proof {
            assert(tokens_of(s@).subrange(1, n as int) =~= tokens_of(s@).drop_first());
        }
        Ok(())
    }
}

/// A fresh, still-empty command.
pub fn new() -> (c: Command)
    ensures
        c.command_type is None,
        c.args@.len() == 0,
{
    Command { command_type: None, args: Vec::new() }
}

/// The prompt shown before each command: the endpoint under which the
/// program runs, the host port it targets, and the current role.
pub open spec fn prompt_spec(host: Seq<char>, cp: u16, hp: u16, ctype: Seq<char>) -> Seq<char> {
    host + ":"@ + dec_str(cp as int) + "->"@ + dec_str(hp as int) + "["@ + ctype + "]$ "@
}

/// Rebuild the prompt string after the role changes.
pub fn update_prompt_str(
    s: &mut String,
    host: &String,
    client_port: &u16,
    host_port: &u16,
    client_type: String,
)
    ensures
        final(s)@ == prompt_spec(host@, *client_port, *host_port, client_type@),
{
    let mut p = host.clone();
    p.append(":");
    let cps = u16_to_string(*client_port);
    p.append(cps.as_str());
    p.append("->");
    let hps = u16_to_string(*host_port);
    p.append(hps.as_str());
    p.append("[");
    p.append(client_type.as_str());
    p.append("]$ ");
    *s = p;
}

/// What the host's command executor does with one marshalled command: only
/// `START` begins serving; everything else is reported as invalid.
pub enum HostAction {
    /// Begin accepting connections and relaying.
    StartChat,
    /// Report an invalid command.
    Invalid,
}

pub fn host_dispatch(cmd: &Command) -> (a: HostAction)
    ensures
        (a is StartChat) == (cmd.command_type == Some(CommandType::Start)),
{
    match &cmd.command_type {
        Some(CommandType::Start) => HostAction::StartChat,
        _ => HostAction::Invalid,
    }
}

/// What the client's command executor does with one marshalled command.
pub enum ClientAction {
    /// Print the discovered hosts.
    ListHosts,
    /// Connect to the host at these four octets.
    Connect { octets: (u8, u8, u8, u8) },
    /// `START` came without a target address; report and do nothing.
    MissingTarget,
    /// The target did not parse into four octets; report and do not
    /// attempt a connection.
    BadTarget,
    /// Report an invalid command.
    Invalid,
}

pub fn client_dispatch(cmd: &Command) -> (a: ClientAction)
    ensures
        cmd.command_type == Some(CommandType::ListHosts) ==> a is ListHosts,
        cmd.command_type == Some(CommandType::Start) ==> (if cmd.args@.len() == 0 {
            a is MissingTarget
        } else {
            match parse_ipv4_spec(cmd.args@[0]@) {
                Some(o) => a matches ClientAction::Connect { octets } && octets == o,
                None => a is BadTarget,
            }
        }),
        !(cmd.command_type == Some(CommandType::ListHosts) || cmd.command_type == Some(
            CommandType::Start,
        )) ==> a is Invalid,
{
    match &cmd.command_type {
        Some(CommandType::ListHosts) => ClientAction::ListHosts,
        Some(CommandType::Start) => {
            if cmd.args.len() == 0 {
                ClientAction::MissingTarget
            } else {
                match parse_ipv4(cmd.args[0].as_str()) {
                    Some(octets) => ClientAction::Connect { octets },
                    None => ClientAction::BadTarget,
                }
            }
        },
        _ => ClientAction::Invalid,
    }
}

} // verus!
