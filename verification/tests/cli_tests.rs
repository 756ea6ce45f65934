use cityhall::cli::{Cli, ClientCommand, Commands, OutputFormat, ReplicaAction};

fn args(parts: &[&str]) -> Vec<String> {
    let mut out = Vec::new();
    for p in parts {
        out.push(p.to_string());
    }
    out
}

#[test]
fn test_parse_leader_command() {
    let cli = Cli::parse_from(args(&[
        "cityhall",
        "leader",
        "--data-dir",
        "/data/leader",
        "--port",
        "8000",
        "--replication-port",
        "8001",
    ]))
    .unwrap();

    match cli.command {
        Commands::Leader { data_dir, port, replication_port, .. } => {
            assert_eq!(data_dir, "/data/leader".to_string());
            assert_eq!(port, 8000);
            assert_eq!(replication_port, 8001);
        }
        _ => panic!("Expected Leader command"),
    }
}

#[test]
fn test_parse_replica_start() {
    let cli = Cli::parse_from(args(&[
        "cityhall",
        "replica",
        "start",
        "--leader",
        "10.0.0.1:7879",
        "--data-dir",
        "/data/replica",
    ]))
    .unwrap();

    match cli.command {
        Commands::Replica { action } => match action {
            ReplicaAction::Start { leader, data_dir, .. } => {
                assert_eq!(leader, "10.0.0.1:7879".to_string());
                assert_eq!(data_dir, "/data/replica".to_string());
            }
            _ => panic!("Expected Start action"),
        },
        _ => panic!("Expected Replica command"),
    }
}

#[test]
fn test_parse_replica_status() {
    let cli = Cli::parse_from(args(&[
        "cityhall",
        "replica",
        "status",
        "--data-dir",
        "/data/replica",
        "--verbose",
        "--format",
        "json",
    ]))
    .unwrap();

    match cli.command {
        Commands::Replica { action } => match action {
            ReplicaAction::Status { data_dir, verbose, format } => {
                assert_eq!(data_dir, "/data/replica".to_string());
                assert!(verbose);
                assert!(matches!(format, OutputFormat::Json));
            }
            _ => panic!("Expected Status action"),
        },
        _ => panic!("Expected Replica command"),
    }
}

#[test]
fn test_parse_client_put() {
    let cli = Cli::parse_from(args(&["cityhall", "client", "put", "test.key", "test_value"]))
        .unwrap();

    match cli.command {
        Commands::Client { command, .. } => match command {
            ClientCommand::Put { key, value } => {
                assert_eq!(key, "test.key".to_string());
                assert_eq!(value, "test_value".to_string());
            }
            _ => panic!("Expected Put command"),
        },
        _ => panic!("Expected Client command"),
    }
}

#[test]
fn test_parse_client_get() {
    let cli = Cli::parse_from(args(&[
        "cityhall",
        "client",
        "--addr",
        "192.168.1.1:7878",
        "get",
        "my.key",
    ]))
    .unwrap();

    match cli.command {
        Commands::Client { addr, command } => {
            assert_eq!(addr, "192.168.1.1:7878".to_string());
            match command {
                ClientCommand::Get { key } => {
                    assert_eq!(key, "my.key".to_string());
                }
                _ => panic!("Expected Get command"),
            }
        }
        _ => panic!("Expected Client command"),
    }
}

#[test]
fn test_default_values() {
    let cli = Cli::parse_from(args(&["cityhall", "leader"])).unwrap();

    match cli.command {
        Commands::Leader { port, replication_port, wal_buffer_size, .. } => {
            assert_eq!(port, 7878);
            assert_eq!(replication_port, 7879);
            assert_eq!(wal_buffer_size, 1048576);
        }
        _ => panic!("Expected Leader command"),
    }
}
