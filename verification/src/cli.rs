//! The command-line surface: subcommands and their arguments.
//!
//! The grammar follows the informative surface of the server: a `leader`
//! subcommand, `replica start` and `replica status`, and `client`
//! `put`/`get`/`delete`, each flag with its default.  Parsing is pure:
//! from the argument strings to the command, or an error message.

use vstd::prelude::*;
use vstd::string::StringExecFns;
use vstd::string::StrSliceExecFns;

verus! {

/// The parsed command line.
#[derive(Debug)]
pub struct Cli {
    pub command: Commands,
}

/// Top-level subcommands.
#[derive(Debug)]
pub enum Commands {
    /// Accept writes and serve replicas.
    Leader {
        data_dir: String,
        port: u16,
        replication_port: u16,
        wal_buffer_size: u64,
        config: Option<String>,
    },
    /// Read-only node syncing from a leader.
    Replica { action: ReplicaAction },
    /// One-shot client operations.
    Client { addr: String, command: ClientCommand },
}

/// Replica subcommands.
#[derive(Debug)]
pub enum ReplicaAction {
    /// Start the replica and sync from the leader.
    Start {
        leader: String,
        data_dir: String,
        port: u16,
        wal_buffer_size: u64,
        sync_interval: u64,
        connect_timeout: u64,
        read_timeout: u64,
        config: Option<String>,
    },
    /// Show health, metrics and sync state.
    Status { data_dir: String, verbose: bool, format: OutputFormat },
}

/// Client subcommands.
#[derive(Debug)]
pub enum ClientCommand {
    Put { key: String, value: String },
    Get { key: String },
    Delete { key: String },
}

/// Output format of the status command.
#[derive(Debug, Clone, Copy, PartialEq, Eq, Structural)]
pub enum OutputFormat {
    Text,
    Json,
    Compact,
}

/// Parse a decimal number.
fn parse_u64(s: &String) -> Option<u64> {
    let sl = s.as_str();
    let n = sl.unicode_len();
    if n == 0 {
        return None;
    }
    let mut acc: u64 = 0;
    let mut i: usize = 0;
    while i < n
        invariant
            n == sl@.len(),
            i <= n,
        decreases n - i,
    {
        let c = sl.get_char(i);
        let d = c as u32;
        if d < 48 || d > 57 {
            return None;
        }
        let d64 = (d - 48) as u64;
        if acc > (u64::MAX - d64) / 10 {
            return None;
        }
        proof {
            assert(acc * 10 + d64 <= u64::MAX) by (nonlinear_arith)
                requires
                    acc <= (u64::MAX - d64) / 10 && d64 <= 9,
            ;
        }
        acc = acc * 10 + d64;
        i = i + 1;
    }
    Some(acc)
}

fn parse_u16(s: &String) -> Option<u16> {
    match parse_u64(s) {
        Some(v) => if v <= u16::MAX as u64 {
            Some(v as u16)
        } else {
            None
        },
        None => None,
    }
}

/// Whether `s` is the given long or short flag.
fn is_flag(s: &String, long: &str, short: &str) -> bool {
    let long_s = String::from_str(long);
    if *s == long_s {
        return true;
    }
    let short_s = String::from_str(short);
    *s == short_s
}

/// The value after a flag, advancing the cursor.
fn take_value(args: &Vec<String>, i: &mut usize) -> (r: Result<String, String>)
    requires
        *old(i) < args@.len(),
    ensures
        r is Ok ==> *final(i) == *old(i) + 2 && *final(i) <= args@.len(),
        r is Err ==> *final(i) == *old(i),
{
    if args.len() - *i < 2 {
        return Err(String::from_str("flag needs a value"));
    }
    let v = args[*i + 1].clone();
    *i = *i + 2;
    Ok(v)
}

impl Cli {
    /// Parse a full argument row (the first element being the program
    /// name).  Unknown flags, missing values and malformed numbers are
    /// errors, never panics.
    pub fn parse_from(args: Vec<String>) -> Result<Cli, String> {
        if args.len() < 2 {
            return Err(String::from_str("a subcommand is required"));
        }
        let sub = &args[1];
        if is_flag(sub, "leader", "leader") {
            Self::parse_leader(&args)
        } else if is_flag(sub, "replica", "replica") {
            Self::parse_replica(&args)
        } else if is_flag(sub, "client", "client") {
            Self::parse_client(&args)
        } else {
            Err(String::from_str("unknown subcommand"))
        }
    }

    fn parse_leader(args: &Vec<String>) -> Result<Cli, String> {
        let mut data_dir = String::from_str("~/.cityhall/leader");
        let mut port: u16 = 7878;
        let mut replication_port: u16 = 7879;
        let mut wal_buffer_size: u64 = 1048576;
        let mut config: Option<String> = None;
        let mut i: usize = 2;
        while i < args.len()
            decreases args@.len() - i,
        {
            let arg = &args[i];
            if is_flag(arg, "--data-dir", "--data-dir") {
                data_dir = take_value(args, &mut i)?;
            } else if is_flag(arg, "--port", "-p") {
                let v = take_value(args, &mut i)?;
                port = match parse_u16(&v) {
                    Some(p) => p,
                    None => {
                        return Err(String::from_str("invalid port"));
                    },
                };
            } else if is_flag(arg, "--replication-port", "-r") {
                let v = take_value(args, &mut i)?;
                replication_port = match parse_u16(&v) {
                    Some(p) => p,
                    None => {
                        return Err(String::from_str("invalid port"));
                    },
                };
            } else if is_flag(arg, "--wal-buffer-size", "--wal-buffer-size") {
                let v = take_value(args, &mut i)?;
                wal_buffer_size = match parse_u64(&v) {
                    Some(p) => p,
                    None => {
                        return Err(String::from_str("invalid buffer size"));
                    },
                };
            } else if is_flag(arg, "--config", "-c") {
                config = Some(take_value(args, &mut i)?);
            } else {
                return Err(String::from_str("unknown flag"));
            }
        }
        Ok(
            Cli {
                command: Commands::Leader {
                    data_dir,
                    port,
                    replication_port,
                    wal_buffer_size,
                    config,
                },
            },
        )
    }

    fn parse_replica(args: &Vec<String>) -> Result<Cli, String> {
        if args.len() < 3 {
            return Err(String::from_str("replica needs an action"));
        }
        let action = &args[2];
        if is_flag(action, "start", "start") {
            let mut leader: Option<String> = None;
            let mut data_dir = String::from_str("~/.cityhall/replica");
            let mut port: u16 = 7880;
            let mut wal_buffer_size: u64 = 1048576;
            let mut sync_interval: u64 = 5;
            let mut connect_timeout: u64 = 5;
            let mut read_timeout: u64 = 30;
            let mut config: Option<String> = None;
            let mut i: usize = 3;
            while i < args.len()
                decreases args@.len() - i,
            {
                let arg = &args[i];
                if is_flag(arg, "--leader", "-l") {
                    leader = Some(take_value(args, &mut i)?);
                } else if is_flag(arg, "--data-dir", "--data-dir") {
                    data_dir = take_value(args, &mut i)?;
                } else if is_flag(arg, "--port", "-p") {
                    let v = take_value(args, &mut i)?;
                    port = match parse_u16(&v) {
                        Some(p) => p,
                        None => {
                            return Err(String::from_str("invalid port"));
                        },
                    };
                } else if is_flag(arg, "--wal-buffer-size", "--wal-buffer-size") {
                    let v = take_value(args, &mut i)?;
                    wal_buffer_size = match parse_u64(&v) {
                        Some(p) => p,
                        None => {
                            return Err(String::from_str("invalid buffer size"));
                        },
                    };
                } else if is_flag(arg, "--sync-interval", "-s") {
                    let v = take_value(args, &mut i)?;
                    sync_interval = match parse_u64(&v) {
                        Some(p) => p,
                        None => {
                            return Err(String::from_str("invalid interval"));
                        },
                    };
                } else if is_flag(arg, "--connect-timeout", "--connect-timeout") {
                    let v = take_value(args, &mut i)?;
                    connect_timeout = match parse_u64(&v) {
                        Some(p) => p,
                        None => {
                            return Err(String::from_str("invalid timeout"));
                        },
                    };
                } else if is_flag(arg, "--read-timeout", "--read-timeout") {
                    let v = take_value(args, &mut i)?;
                    read_timeout = match parse_u64(&v) {
                        Some(p) => p,
                        None => {
                            return Err(String::from_str("invalid timeout"));
                        },
                    };
                } else if is_flag(arg, "--config", "-c") {
                    config = Some(take_value(args, &mut i)?);
                } else {
                    return Err(String::from_str("unknown flag"));
                }
            }
            let leader = match leader {
                Some(l) => l,
                None => {
                    return Err(String::from_str("--leader is required"));
                },
            };
            Ok(
                Cli {
                    command: Commands::Replica {
                        action: ReplicaAction::Start {
                            leader,
                            data_dir,
                            port,
                            wal_buffer_size,
                            sync_interval,
                            connect_timeout,
                            read_timeout,
                            config,
                        },
                    },
                },
            )
        } else if is_flag(action, "status", "status") {
            let mut data_dir = String::from_str("~/.cityhall/replica");
            let mut verbose = false;
            let mut format = OutputFormat::Text;
            let mut i: usize = 3;
            while i < args.len()
                decreases args@.len() - i,
            {
                let arg = &args[i];
                if is_flag(arg, "--data-dir", "--data-dir") {
                    data_dir = take_value(args, &mut i)?;
                } else if is_flag(arg, "--verbose", "-v") {
                    verbose = true;
                    i = i + 1;
                } else if is_flag(arg, "--format", "-f") {
                    let v = take_value(args, &mut i)?;
                    format = if is_flag(&v, "text", "text") {
                        OutputFormat::Text
                    } else if is_flag(&v, "json", "json") {
                        OutputFormat::Json
                    } else if is_flag(&v, "compact", "compact") {
                        OutputFormat::Compact
                    } else {
                        return Err(String::from_str("unknown format"));
                    };
                } else {
                    return Err(String::from_str("unknown flag"));
                }
            }
            Ok(
                Cli {
                    command: Commands::Replica {
                        action: ReplicaAction::Status { data_dir, verbose, format },
                    },
                },
            )
        } else {
            Err(String::from_str("unknown replica action"))
        }
    }

    fn parse_client(args: &Vec<String>) -> Result<Cli, String> {
        let mut addr = String::from_str("127.0.0.1:7878");
        let mut i: usize = 2;
        while i < args.len() && is_flag(&args[i], "--addr", "-a")
            decreases args@.len() - i,
        {
            addr = take_value(args, &mut i)?;
        }
        if i >= args.len() {
            return Err(String::from_str("client needs an operation"));
        }
        let op = &args[i];
        if is_flag(op, "put", "put") {
            if args.len() - i < 3 {
                return Err(String::from_str("put needs a key and a value"));
            }
            let key = args[i + 1].clone();
            let value = args[i + 2].clone();
            Ok(Cli { command: Commands::Client { addr, command: ClientCommand::Put { key, value } } })
        } else if is_flag(op, "get", "get") {
            if i + 1 >= args.len() {
                return Err(String::from_str("get needs a key"));
            }
            let key = args[i + 1].clone();
            Ok(Cli { command: Commands::Client { addr, command: ClientCommand::Get { key } } })
        } else if is_flag(op, "delete", "delete") {
            if i + 1 >= args.len() {
                return Err(String::from_str("delete needs a key"));
            }
            let key = args[i + 1].clone();
            Ok(Cli { command: Commands::Client { addr, command: ClientCommand::Delete { key } } })
        } else {
            Err(String::from_str("unknown client operation"))
        }
    }
}

} // verus!
