use pair::preflight::{check, contains, report, Answer, Finding, Probes, INSTALL};

fn answer(success: bool, text: &str) -> Option<Answer> {
    Some(Answer {
        success,
        text: text.to_string(),
    })
}

fn healthy() -> Probes {
    Probes {
        installed: true,
        status: answer(true, "100.79.3.21 studio"),
        peer: None,
        ping: None,
        screen_recording: None,
    }
}

fn outcome(findings: &[Finding]) -> Vec<(bool, &str)> {
    findings.iter().map(|f| (f.ok, f.what.as_str())).collect()
}

#[test]
fn a_healthy_machine_passes() {
    let mut probes = healthy();
    probes.peer = Some("studio".to_string());
    probes.ping = answer(true, "pong from studio via 192.168.1.4:41641 in 3ms");
    probes.screen_recording = Some(true);
    let findings = check(&probes);
    assert_eq!(
        outcome(&findings),
        vec![
            (true, "Tailscale is installed"),
            (true, "Tailscale is running"),
            (true, "studio is reachable, direct"),
            (true, "Screen Recording permission granted"),
        ]
    );
    assert!(findings.iter().all(|f| f.fix.is_none()));
    let report = report(&findings);
    assert!(report.passed);
    assert_eq!(
        report.lines,
        vec![
            "checks passed: Tailscale is installed, Tailscale is running, \
studio is reachable, direct, Screen Recording permission granted"
        ]
    );
}

#[test]
fn without_tailscale_nothing_that_needs_it_is_judged() {
    let probes = Probes {
        installed: false,
        status: None,
        peer: Some("studio".to_string()),
        ping: None,
        screen_recording: Some(false),
    };
    let findings = check(&probes);
    assert_eq!(
        outcome(&findings),
        vec![
            (false, "Tailscale is not installed"),
            (false, "Screen Recording permission is missing"),
        ]
    );
    assert_eq!(findings[0].fix.as_deref(), Some(INSTALL));
    let report = report(&findings);
    assert!(!report.passed);
    assert_eq!(report.lines[0], "setup needs attention:");
    assert_eq!(report.lines[1], "  ✗ Tailscale is not installed");
    assert_eq!(report.lines[2], format!("      {INSTALL}"));
    assert_eq!(report.lines.len(), 1 + 4 + 5);
    assert_eq!(report.lines[5], "");
    assert!(report.lines[9].ends_with("https://login.tailscale.com"));
}

#[test]
fn a_status_that_failed_is_explained() {
    for (text, fix) in [
        ("Logged out.", "run `tailscale up` and sign in"),
        ("you are logged out", "run `tailscale up` and sign in"),
        (
            "Tailscale is stopped.",
            "start Tailscale from the menu bar, or run `tailscale up`",
        ),
        ("something else", "run `tailscale status` to see why"),
    ] {
        let mut probes = healthy();
        probes.status = answer(false, text);
        let findings = check(&probes);
        assert_eq!(
            outcome(&findings)[1],
            (false, "Tailscale is not connected")
        );
        assert_eq!(findings[1].fix.as_deref(), Some(fix));
    }
    let mut probes = healthy();
    probes.status = None;
    assert_eq!(
        outcome(&check(&probes))[1],
        (false, "could not run the Tailscale CLI")
    );
}

#[test]
fn a_relayed_or_unreachable_peer_is_reported() {
    let mut probes = healthy();
    probes.peer = Some("studio".to_string());
    probes.ping = answer(true, "pong from studio via DERP(nyc) in 80ms");
    assert_eq!(
        outcome(&check(&probes))[2],
        (
            false,
            "studio is reachable but RELAYED, which adds latency"
        )
    );
    for ping in [answer(false, "no reply"), None] {
        probes.ping = ping;
        let findings = check(&probes);
        assert_eq!(outcome(&findings)[2], (false, "studio is not reachable"));
        let report = report(&findings);
        assert_eq!(report.lines[1], "  ✓ Tailscale is installed");
        assert!(!report.lines.iter().any(|l| l.is_empty()));
    }
}

#[test]
fn a_text_is_searched_for_a_word() {
    assert!(contains("abcabd", "abd"));
    assert!(contains("abc", ""));
    assert!(contains("", ""));
    assert!(!contains("abc", "abcd"));
    assert!(!contains("aab", "abb"));
    assert!(contains("grüße", "üß"));
}

#[test]
fn findings_carry_their_fix() {
    let good = Finding::ok("fine");
    assert!(good.ok && good.fix.is_none());
    let bad = Finding::bad("broken", "mend it");
    assert!(!bad.ok);
    assert_eq!(bad.fix.as_deref(), Some("mend it"));
    let empty = report(&[]);
    assert!(empty.passed);
    assert_eq!(empty.lines, vec!["checks passed: "]);
}
