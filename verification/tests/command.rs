use spawnado::command::{
    c_bytes, nul_argument_message, nul_message, show_command, split_command, Argv,
};
use spawnado::launch::prepare;
use spawnado::spawn::{reap_step, spawn_failure, Reap};

fn strings(s: &[&str]) -> Vec<String> {
    s.iter().map(|s| s.to_string()).collect()
}

#[test]
fn default_command() {
    assert_eq!(split_command(vec![]), ("/usr/bin/true".to_string(), vec![]));
}

#[test]
fn command_with_arguments() {
    assert_eq!(
        split_command(strings(&["/bin/echo", "-n", "x"])),
        ("/bin/echo".to_string(), strings(&["-n", "x"]))
    );
    assert_eq!(split_command(strings(&["ls"])), ("ls".to_string(), vec![]));
}

#[test]
fn command_line_text() {
    assert_eq!(show_command("ls", &[]), "ls");
    assert_eq!(show_command("ls", &strings(&["-l", "a b"])), "ls -l a b");
    assert_eq!(show_command("ls", &strings(&[""])), "ls ");
}

#[test]
fn bytes_for_c() {
    assert_eq!(c_bytes(""), Ok(vec![]));
    assert_eq!(c_bytes("aµ"), Ok("aµ".as_bytes().to_vec()));
    assert_eq!(c_bytes("µ\0b\0"), Err(2));
    assert_eq!(c_bytes("\0"), Err(0));
}

#[test]
fn nul_texts() {
    assert_eq!(nul_message(7), "nul byte found in provided data at position: 7");
    assert_eq!(
        nul_argument_message(12),
        "argument contains NUL byte: nul byte found in provided data at position: 12"
    );
}

#[test]
fn argument_vector() {
    let argv = Argv::new("ls", &strings(&["-l", "µ"])).ok().unwrap();
    assert_eq!(argv.len(), 3);
    assert_eq!(argv.get(0), b"ls");
    assert_eq!(argv.get(1), b"-l");
    assert_eq!(argv.get(2), "µ".as_bytes());
}

#[test]
fn argument_vector_with_nul() {
    assert_eq!(Argv::new("l\0s", &strings(&["\0"])).err(), Some(1));
    assert_eq!(Argv::new("ls", &strings(&["abc", "ab\0", "\0"])).err(), Some(2));
}

#[test]
fn reaping() {
    let eintr = libc::EINTR;
    assert_eq!(reap_step(10, 10, None, eintr), Reap::Done);
    assert_eq!(reap_step(10, 10, Some(eintr), eintr), Reap::Done);
    assert_eq!(reap_step(10, -1, Some(eintr), eintr), Reap::Again);
    assert_eq!(reap_step(10, -1, Some(libc::ECHILD), eintr), Reap::Failed);
    assert_eq!(reap_step(10, -1, None, eintr), Reap::Failed);
    assert_eq!(reap_step(10, 0, Some(0), eintr), Reap::Failed);
}

#[test]
fn spawning() {
    assert_eq!(spawn_failure(0), None);
    assert_eq!(spawn_failure(libc::ENOENT), Some(libc::ENOENT));
}

#[test]
fn launch_of_a_command() {
    let l = prepare(1, 1, strings(&["/bin/echo", "-n", "µ"])).ok().unwrap();
    assert_eq!((l.binary, l.args), ("/bin/echo".to_string(), strings(&["-n", "µ"])));
    assert_eq!(l.path, b"/bin/echo");
    assert_eq!(l.argv.len(), 3);
    assert_eq!(l.argv.get(2), "µ".as_bytes());
    let l = prepare(2, 3, vec![]).ok().unwrap();
    assert_eq!((l.binary.as_str(), l.args.len(), l.argv.len()), ("/usr/bin/true", 0, 1));
    assert_eq!(l.path, b"/usr/bin/true");
}

#[test]
fn launch_with_faults_in_order() {
    let bad = strings(&["l\0s", "\0"]);
    assert_eq!(prepare(0, 0, bad.clone()).err().unwrap(), "--threads must be >= 1");
    assert_eq!(prepare(1, 0, bad.clone()).err().unwrap(), "--iterations must be >= 1");
    assert_eq!(
        prepare(1, 1, bad).err().unwrap(),
        "nul byte found in provided data at position: 1"
    );
    assert_eq!(
        prepare(1, 1, strings(&["ls", "abc", "ab\0", "\0"])).err().unwrap(),
        "argument contains NUL byte: nul byte found in provided data at position: 2"
    );
}
