use parva_os::process::Process;
use parva_os::process;

#[test]
fn new_process_has_id_dir_and_empty_environment() {
    let p = Process::new(7, "/");
    assert_eq!(process::id(&p), 7);
    assert_eq!(process::dir(&p), "/");
    assert_eq!(process::env(&p, "PATH"), None);
    assert!(process::envs(&p).is_empty());
}

#[test]
fn set_env_binds_and_env_reads_back() {
    let mut p = Process::new(0, "/");
    process::set_env(&mut p, "HOME", "/root");
    assert_eq!(process::env(&p, "HOME"), Some("/root".to_string()));
    assert_eq!(process::env(&p, "HOM"), None);
}

#[test]
fn set_env_overwrites_an_existing_key() {
    let mut p = Process::new(0, "/");
    process::set_env(&mut p, "LANG", "C");
    process::set_env(&mut p, "LANG", "en_US");
    assert_eq!(process::env(&p, "LANG"), Some("en_US".to_string()));
    assert_eq!(process::envs(&p).len(), 1);
}

#[test]
fn envs_lists_every_binding() {
    let mut p = Process::new(0, "/");
    process::set_env(&mut p, "A", "1");
    process::set_env(&mut p, "B", "2");
    let all = process::envs(&p);
    assert_eq!(all.len(), 2);
    assert!(all.iter().any(|e| e.key == "A" && e.value == "1"));
    assert!(all.iter().any(|e| e.key == "B" && e.value == "2"));
}

#[test]
fn set_dir_replaces_the_working_directory_only() {
    let mut p = Process::new(3, "/");
    process::set_env(&mut p, "HOME", "/root");
    process::set_dir(&mut p, "/tmp");
    assert_eq!(process::dir(&p), "/tmp");
    assert_eq!(process::id(&p), 3);
    assert_eq!(process::env(&p, "HOME"), Some("/root".to_string()));
}
