//! The command-line surface: parsed options and what each command asks
//! the program to do. The transport binds the address `run` decides on.
use vstd::prelude::*;

verus! {

/// Options of the `serve` command.
#[derive(Debug)]
pub struct ServeCommand {
    /// The host to bind to.
    pub host: String,
    /// The port to bind to.
    pub port: u16,
}

/// Options of the `exec` command — run something and stream its output
/// to a server. The client itself is not implemented.
#[derive(Debug)]
pub struct ExecCommand {
    /// The URL of the server to report to.
    pub server: String,
    /// The stream identifier to use.
    pub stream_id: Option<u128>,
    /// The command to execute.
    pub args: Vec<String>,
}

/// The chosen subcommand.
#[derive(Debug)]
pub enum Command {
    Serve(ServeCommand),
    Exec(ExecCommand),
}

/// The whole parsed command line.
#[derive(Debug)]
pub struct Opts {
    pub command: Command,
}

/// What `run` decided: bind a server to this address.
#[derive(Debug)]
pub struct ServeAction {
    pub host: String,
    pub port: u16,
}

/// A command that cannot be carried out.
#[derive(Debug)]
pub struct CliError;

impl CliError {
    pub fn message(&self) -> (r: &'static str)
        ensures
            r@ == "not implemented yet"@,
    {
        "not implemented yet"
    }
}

/// The `serve` command's decision: bind to its host and port.
pub fn serve_cmd(cmd: ServeCommand) -> (r: Result<ServeAction, CliError>)
    ensures
        match r {
            Ok(a) => a.host@ == cmd.host@ && a.port == cmd.port,
            Err(_) => false,
        },
{
    Ok(ServeAction { host: cmd.host, port: cmd.port })
}

/// Decide what the parsed command line asks for: `serve` yields the
/// address to bind, `exec` is not implemented and fails.
pub fn run(opts: Opts) -> (r: Result<ServeAction, CliError>)
    ensures
        match opts.command {
            Command::Serve(c) => match r {
                Ok(a) => a.host@ == c.host@ && a.port == c.port,
                Err(_) => false,
            },
            Command::Exec(_) => match r {
                Ok(_) => false,
                Err(_) => true,
            },
        },
{
    match opts.command {
        Command::Serve(cmd) => serve_cmd(cmd),
        Command::Exec(_) => Err(CliError),
    }
}

} // verus!
