use mipt_rust::rover::{check_forbid_unsafe, Command, RoverError, Toolchain};

#[test]
fn commands_by_name() {
    assert_eq!(Command::from_name("cargo-test"), Ok(Command::CargoTest));
    assert_eq!(Command::from_name("forbid-unsafe"), Ok(Command::ForbidUnsafe));
    assert_eq!(
        Command::from_name("cargo-run"),
        Err(RoverError::CommandNotSupported("cargo-run".to_string()))
    );
    assert_eq!(
        Command::CargoClippy.get_shell_line(),
        Ok("cargo clippy --release -- -D warnings".to_string())
    );
    assert_eq!(
        Command::ForbidCollections.get_shell_line(),
        Err(RoverError::NoShellLine(Command::ForbidCollections))
    );
}

#[test]
fn toolchains_by_name() {
    assert_eq!(Toolchain::from_name("nightly"), Ok(Toolchain::Nightly));
    assert_eq!(
        Toolchain::from_name("beta"),
        Err(RoverError::ToolchainNotSupported("beta".to_string()))
    );
    assert_eq!(Toolchain::Stable.get_shell_line(), Ok("rustup run stable".to_string()));
    assert_eq!(Toolchain::Empty.get_shell_line(), Ok(String::new()));
}

fn strings(v: &[&str]) -> Vec<String> {
    v.iter().map(|s| s.to_string()).collect()
}

#[test]
fn launch_args_split_on_spaces() {
    assert_eq!(
        Toolchain::Stable.launch_args(&Command::CargoTest),
        Ok(strings(&["rustup", "run", "stable", "cargo", "test", "--release"]))
    );
    assert_eq!(
        Toolchain::Empty.launch_args(&Command::PythonTest),
        Ok(strings(&["", "python3", "test.py"]))
    );
    assert_eq!(
        Toolchain::Nightly.launch_args(&Command::ForbidUnsafe),
        Err(RoverError::NoShellLine(Command::ForbidUnsafe))
    );
}

#[test]
fn forbid_unsafe_first_line() {
    assert_eq!(check_forbid_unsafe(Some("#![forbid(unsafe_code)]")), Ok(()));
    assert_eq!(check_forbid_unsafe(Some("use std::io;")), Err(RoverError::MissingForbidUnsafe));
    assert_eq!(check_forbid_unsafe(None), Err(RoverError::EmptyFile));
}
