use logteewoop::{Command, ExecCommand, Opts, ServeCommand};

#[test]
fn serve_yields_the_bind_address() {
    let opts = Opts {
        command: Command::Serve(ServeCommand { host: "0.0.0.0".to_string(), port: 9002 }),
    };
    let action = logteewoop::run(opts).expect("serve must be dispatched");
    assert_eq!(action.host, "0.0.0.0");
    assert_eq!(action.port, 9002);
}

#[test]
fn exec_is_not_implemented() {
    let opts = Opts {
        command: Command::Exec(ExecCommand {
            server: "http://localhost:9002".to_string(),
            stream_id: None,
            args: vec!["true".to_string()],
        }),
    };
    let err = logteewoop::run(opts).expect_err("exec is unimplemented");
    assert_eq!(err.message(), "not implemented yet");
}
