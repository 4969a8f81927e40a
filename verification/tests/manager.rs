use reapr::text::{
    chars_of, contains_char, contains_str, eq_ignore_ascii_case, is_whitespace, lex_less, trim,
};
use reapr::{CommandOutput, Process, ProcessManager, ServiceAction};

fn list(names: &[&str]) -> Vec<Process> {
    names.iter().map(|n| Process::new(n.to_string())).collect()
}

fn names(list: &[Process]) -> Vec<String> {
    list.iter().map(|p| p.name().to_string()).collect()
}

fn output(success: bool, stdout: &[u8], stderr: &[u8], status: &str) -> CommandOutput {
    CommandOutput {
        success,
        stdout: stdout.to_vec(),
        stderr: stderr.to_vec(),
        status: status.to_string(),
    }
}

#[test]
fn whitespace_is_the_unicode_set() {
    for c in ['\t', '\n', '\u{0B}', '\u{0C}', '\r', ' ', '\u{85}', '\u{A0}', '\u{1680}', '\u{2000}', '\u{200A}', '\u{2028}', '\u{2029}', '\u{202F}', '\u{205F}', '\u{3000}'] {
        assert!(is_whitespace(c), "{:?}", c);
    }
    for c in ['a', '.', '\u{200B}', '\u{1F}', '\u{FEFF}', '-'] {
        assert!(!is_whitespace(c), "{:?}", c);
    }
    for u in 0u32..0x4000 {
        if let Some(c) = char::from_u32(u) {
            assert_eq!(is_whitespace(c), c.is_whitespace(), "{:#x}", u);
        }
    }
}

#[test]
fn trim_removes_white_space_at_both_ends() {
    assert_eq!(trim("  nginx \n"), "nginx");
    assert_eq!(trim("\u{3000}a b\t"), "a b");
    assert_eq!(trim("   "), "");
    assert_eq!(trim(""), "");
    assert_eq!(trim("x"), "x");
}

#[test]
fn trim_twice_is_trim_once() {
    for s in ["  a  ", "\t\tb c\n", "", "   ", "d"] {
        let once = trim(s);
        assert_eq!(trim(&once), once);
    }
}

#[test]
fn searching_text() {
    assert!(contains_char("a.service", '.'));
    assert!(!contains_char("nginx", '.'));
    assert!(contains_str("Unit foo.service could not be found.", "could not be found"));
    assert!(contains_str("abc", ""));
    assert!(contains_str("abc", "abc"));
    assert!(!contains_str("ab", "abc"));
    assert!(!contains_str("not found", "not-found"));
    assert_eq!(chars_of("héllo"), vec!['h', 'é', 'l', 'l', 'o']);
}

#[test]
fn ascii_case_insensitive_equality() {
    assert!(eq_ignore_ascii_case("Not-Found", "not-found"));
    assert!(eq_ignore_ascii_case("", ""));
    assert!(!eq_ignore_ascii_case("not-found", "not-foun"));
    assert!(!eq_ignore_ascii_case("É", "é"));
    assert!(!eq_ignore_ascii_case("[", "{"));
    for (a, b) in [("Nginx.Service", "nginx.service"), ("É.x", "é.x"), ("@", "`")] {
        assert_eq!(eq_ignore_ascii_case(a, b), a.eq_ignore_ascii_case(b));
    }
}

#[test]
fn code_point_order() {
    let v = |s: &str| chars_of(s);
    assert!(lex_less(&v("a"), &v("b")));
    assert!(lex_less(&v("ab"), &v("abc")));
    assert!(!lex_less(&v("abc"), &v("ab")));
    assert!(!lex_less(&v("a"), &v("a")));
    assert!(lex_less(&v(""), &v("a")));
    assert!(lex_less(&v("z"), &v("é")));
    for (a, b) in [("x", "y"), ("é", "z"), ("ab", "a"), ("", ""), ("b.service", "a.service")] {
        assert_eq!(lex_less(&v(a), &v(b)), a < b);
    }
}

#[test]
fn order_ignores_case() {
    // by raw code points "B" would come before "a"
    let r = ProcessManager::new_process(list(&["a.service"]), "B.service".to_string()).unwrap();
    assert_eq!(names(&r), vec!["a.service", "B.service"]);
    let r = ProcessManager::new_process(list(&["Zeta.service"]), "alpha.service".to_string()).unwrap();
    assert_eq!(names(&r), vec!["alpha.service", "Zeta.service"]);
}

#[test]
fn lossy_decoding() {
    assert_eq!(ProcessManager::stream_text(b"active"), "active");
    assert_eq!(ProcessManager::stream_text(&[0x61, 0xFF, 0x62]), "a\u{FFFD}b");
    assert_eq!(ProcessManager::stream_text(b"  enabled\n"), "enabled");
    assert_eq!(ProcessManager::stream_text(&[0xFF, b'\n']), "\u{FFFD}");
}

#[test]
fn normalize_name_appends_service() {
    assert_eq!(ProcessManager::normalize_name(" nginx "), "nginx.service");
    assert_eq!(ProcessManager::normalize_name("docker.socket"), "docker.socket");
    assert_eq!(ProcessManager::normalize_name("\tsshd\n"), "sshd.service");
    assert_eq!(ProcessManager::normalize_name(""), ".service");
    assert_eq!(ProcessManager::normalize_name("   "), ".service");
}

#[test]
fn normalize_name_is_idempotent() {
    for s in [" nginx ", "a.b", "", "  ", "x y", "\u{3000}z\u{3000}"] {
        let once = ProcessManager::normalize_name(s);
        assert!(once.contains('.'));
        assert_eq!(ProcessManager::normalize_name(&once), once);
    }
}

#[test]
fn checked_name_refuses_blank_names() {
    assert_eq!(
        ProcessManager::checked_name("   "),
        Err("Service name cannot be empty".to_string())
    );
    assert_eq!(
        ProcessManager::checked_name(""),
        Err("Service name cannot be empty".to_string())
    );
    assert_eq!(ProcessManager::checked_name(" cron "), Ok("cron.service".to_string()));
    assert_eq!(ProcessManager::checked_name(".service"), Err("Service name cannot be empty".to_string()));
}

#[test]
fn blank_stored_list() {
    assert!(ProcessManager::stored_list_is_blank(""));
    assert!(ProcessManager::stored_list_is_blank(" \n\t"));
    assert!(!ProcessManager::stored_list_is_blank("[]"));
}

#[test]
fn action_verbs() {
    assert_eq!(ServiceAction::Start.as_str(), "start");
    assert_eq!(ServiceAction::Stop.as_str(), "stop");
    assert_eq!(ServiceAction::Enable.as_str(), "enable");
    assert_eq!(ServiceAction::Disable.as_str(), "disable");
}

#[test]
fn switch_and_dot() {
    assert_eq!(ProcessManager::switch_action(true), ServiceAction::Start);
    assert_eq!(ProcessManager::switch_action(false), ServiceAction::Stop);
    assert_eq!(ProcessManager::state_dot_class(true), "state-dot-active");
    assert_eq!(ProcessManager::state_dot_class(false), "state-dot-inactive");
}

#[test]
fn systemctl_state_prefers_output_then_errors() {
    assert_eq!(ProcessManager::systemctl_state(&output(true, b"active\n", b"", "exit status: 0")), "active");
    assert_eq!(ProcessManager::systemctl_state(&output(false, b"inactive\n", b"warn", "exit status: 3")), "inactive");
    assert_eq!(ProcessManager::systemctl_state(&output(false, b" \n", b" failed to connect \n", "exit status: 1")), "failed to connect");
    assert_eq!(ProcessManager::systemctl_state(&output(true, b"", b"", "exit status: 0")), "ok");
    assert_eq!(ProcessManager::systemctl_state(&output(false, b"", b"  ", "exit status: 1")), "unknown");
}

#[test]
fn service_exists_reads_load_state() {
    assert_eq!(ProcessManager::service_exists("a.service", &output(true, b"loaded\n", b"", "")), Ok(true));
    assert_eq!(ProcessManager::service_exists("a.service", &output(true, b"not-found\n", b"", "")), Ok(false));
    assert_eq!(ProcessManager::service_exists("a.service", &output(true, b"NOT-FOUND", b"", "")), Ok(false));
    assert_eq!(
        ProcessManager::service_exists("a.service", &output(false, b"", b"Unit a.service could not be found.\n", "")),
        Ok(false)
    );
    assert_eq!(
        ProcessManager::service_exists("a.service", &output(false, b"", b"LoadState=not-found", "")),
        Ok(false)
    );
    assert_eq!(
        ProcessManager::service_exists("a.service", &output(false, b"", b" Access denied \n", "")),
        Err("Failed to verify service a.service: Access denied".to_string())
    );
    assert_eq!(
        ProcessManager::service_exists("a.service", &output(false, b"loaded", b"", "")),
        Err("Failed to verify service a.service: unknown error".to_string())
    );
}

#[test]
fn confirm_exists_message() {
    assert_eq!(ProcessManager::confirm_exists("a.service", true), Ok(()));
    assert_eq!(
        ProcessManager::confirm_exists("a.service", false),
        Err("a.service does not exist in systemd (unit not found)".to_string())
    );
}

#[test]
fn action_outcome() {
    assert_eq!(
        ProcessManager::run_systemctl_action("a.service", ServiceAction::Start, &output(true, b"", b"noise", "exit status: 0")),
        Ok(())
    );
    assert_eq!(
        ProcessManager::run_systemctl_action("a.service", ServiceAction::Stop, &output(false, b"", b"Access denied\n", "exit status: 4")),
        Err("Access denied".to_string())
    );
    assert_eq!(
        ProcessManager::run_systemctl_action("a.service", ServiceAction::Enable, &output(false, b"out", b" ", "exit status: 1")),
        Err("systemctl enable a.service failed with exit code exit status: 1".to_string())
    );
}

#[test]
fn service_state_from_answers() {
    let s = ProcessManager::get_service_state(Ok("active".to_string()), Ok("enabled".to_string()));
    assert!(s.active);
    assert_eq!(s.active_label, "active");
    assert_eq!(s.enabled_label, "enabled");
    assert_eq!(ProcessManager::status_line(&s), "Status: active | Boot: enabled");
    let s = ProcessManager::get_service_state(Ok("inactive".to_string()), Err("spawn failed".to_string()));
    assert!(!s.active);
    assert_eq!(s.enabled_label, "unknown");
    assert_eq!(ProcessManager::status_line(&s), "Status: inactive | Boot: unknown");
    let s = ProcessManager::get_service_state(Err("x".to_string()), Ok("static".to_string()));
    assert!(!s.active);
    assert_eq!(s.active_label, "unknown");
    let s = ProcessManager::get_service_state(Ok("Active".to_string()), Ok("static".to_string()));
    assert!(!s.active);
}

#[test]
fn adding_sorts_by_lower_case_name() {
    let r = ProcessManager::new_process(list(&["b.service", "A.service"]), "c.service".to_string()).unwrap();
    assert_eq!(names(&r), vec!["A.service", "b.service", "c.service"]);
    let r = ProcessManager::new_process(list(&[]), "x.service".to_string()).unwrap();
    assert_eq!(names(&r), vec!["x.service"]);
    let r = ProcessManager::new_process(list(&["z.service", "Y.service", "x.service"]), "a.service".to_string()).unwrap();
    assert_eq!(names(&r), vec!["a.service", "x.service", "Y.service", "z.service"]);
}

#[test]
fn adding_keeps_equal_keys_in_order() {
    // "É" and "é" share a lower-case key but differ beyond ASCII case
    let r = ProcessManager::new_process(list(&["É.service", "b.service"]), "é.service".to_string()).unwrap();
    assert_eq!(names(&r), vec!["b.service", "É.service", "é.service"]);
    let r = ProcessManager::new_process(list(&["é.service"]), "É.service".to_string()).unwrap();
    assert_eq!(names(&r), vec!["é.service", "É.service"]);
}

#[test]
fn adding_a_listed_unit_is_refused() {
    let r = ProcessManager::new_process(list(&["nginx.service"]), "NGINX.service".to_string());
    assert_eq!(r.err(), Some("NGINX.service is already in your managed list".to_string()));
    let once = ProcessManager::new_process(list(&["a.service"]), "cron.service".to_string()).unwrap();
    let twice = ProcessManager::new_process(once, "cron.service".to_string());
    assert_eq!(twice.err(), Some("cron.service is already in your managed list".to_string()));
}

#[test]
fn listed_ignoring_case() {
    let l = list(&["Nginx.service", "cron.service"]);
    assert!(ProcessManager::is_listed(&l, "nginx.SERVICE"));
    assert!(!ProcessManager::is_listed(&l, "sshd.service"));
}

#[test]
fn removing_drops_exact_name() {
    let r = ProcessManager::remove_process(list(&["a.service", "b.service"]), "a.service").unwrap();
    assert_eq!(names(&r), vec!["b.service"]);
    let r = ProcessManager::remove_process(list(&["a.service", "b.service", "a.service"]), "a.service").unwrap();
    assert_eq!(names(&r), vec!["b.service"]);
    let r = ProcessManager::remove_process(list(&["a.service"]), "a.service").unwrap();
    assert!(r.is_empty());
}

#[test]
fn removing_a_missing_unit_is_refused() {
    let r = ProcessManager::remove_process(list(&["nginx.service"]), "NGINX.service");
    assert_eq!(r.err(), Some("NGINX.service was not found in your managed list".to_string()));
    let r = ProcessManager::remove_process(list(&[]), "x");
    assert_eq!(r.err(), Some("x was not found in your managed list".to_string()));
    let once = ProcessManager::remove_process(list(&["a.service", "b.service"]), "b.service").unwrap();
    let twice = ProcessManager::remove_process(once, "b.service");
    assert_eq!(twice.err(), Some("b.service was not found in your managed list".to_string()));
}

#[test]
fn remove_undoes_add() {
    let before = list(&["a.service", "c.service"]);
    let added = ProcessManager::new_process(before, "b.service".to_string()).unwrap();
    assert_eq!(names(&added), vec!["a.service", "b.service", "c.service"]);
    let removed = ProcessManager::remove_process(added, "b.service").unwrap();
    assert_eq!(names(&removed), vec!["a.service", "c.service"]);
}

#[test]
fn process_holds_its_name() {
    let p = Process::new("sshd.service".to_string());
    assert_eq!(p.name(), "sshd.service");
}
