//! Startup checks, and the guidance to fix whatever is missing.
//!
//! Everything the link needs is something the user has to set up once: Tailscale
//! on both machines, and Screen Recording permission on the sending one. This
//! judges what probing the machine found and says exactly how to close the gaps,
//! rather than failing with a socket error.

use vstd::prelude::*;
use vstd::string::*;

verus! {

broadcast use vstd::string::group_string_axioms;

pub const INSTALL: &'static str = "install it with `brew install --cask tailscale`, or from \
https://tailscale.com/download/macos, then run `tailscale up`";

/// The outcome of one check.
pub struct Finding {
    pub ok: bool,
    pub what: String,
    /// Shown only when the check failed.
    pub fix: Option<String>,
}

/// The outcome of one check.
#[verifier::ext_equal]
pub struct FindingView {
    pub ok: bool,
    pub what: Seq<char>,
    pub fix: Option<Seq<char>>,
}

/// A check that passed.
pub open spec fn passed(what: Seq<char>) -> FindingView {
    FindingView { ok: true, what, fix: None }
}

/// A check that failed, and how to make it pass.
pub open spec fn failed(what: Seq<char>, fix: Seq<char>) -> FindingView {
    FindingView { ok: false, what, fix: Some(fix) }
}

impl Finding {
    pub open spec fn model(self) -> FindingView {
        FindingView {
            ok: self.ok,
            what: self.what@,
            fix: match self.fix {
                Some(fix) => Some(fix@),
                None => None,
            },
        }
    }

    pub fn ok(what: &str) -> (finding: Self)
        ensures
            finding.model() == passed(what@),
    {
        Finding { ok: true, what: what.to_string(), fix: None }
    }

    pub fn bad(what: &str, fix: &str) -> (finding: Self)
        ensures
            finding.model() == failed(what@, fix@),
    {
        Finding { ok: false, what: what.to_string(), fix: Some(fix.to_string()) }
    }
}

/// What running the Tailscale command brought.
pub struct Answer {
    pub success: bool,
    pub text: String,
}

/// What was found out about the machine.
pub struct Probes {
    /// The Tailscale command is there.
    pub installed: bool,
    /// What asking for its status brought, if it could be run.
    pub status: Option<Answer>,
    /// The peer to dial, if there is one.
    pub peer: Option<String>,
    /// What probing the peer brought, if the command could be run.
    pub ping: Option<Answer>,
    /// Whether the screen may be recorded, if that is needed.
    pub screen_recording: Option<bool>,
}

/// Whether `needle` occurs in `text`.
pub open spec fn occurs_in(text: Seq<char>, needle: Seq<char>) -> bool {
    exists|i: int|
        0 <= i && i + needle.len() <= text.len() && #[trigger] text.subrange(i, i + needle.len())
            == needle
}

/// The characters of a string.
fn characters(text: &str) -> (list: Vec<char>)
    ensures
        list@ == text@,
{
    let mut list: Vec<char> = Vec::new();
    for c in it: text.chars()
        invariant
            list@ == it.seq().take(it.index()),
            it.seq() == text@,
            it.index() == it.seq().len() ==> list@ == text@,
    {
        list.push(c);
        assert(list@ =~= it.seq().take(it.index() + 1));
        assert(it.index() + 1 == it.seq().len() ==> list@ =~= it.seq());
    }
    list
}

/// Whether `needle` occurs in `text`.
pub fn contains(text: &str, needle: &str) -> (found: bool)
    ensures
        found == occurs_in(text@, needle@),
{
    let text_chars = characters(text);
    let needle_chars = characters(needle);
    let len: usize = text_chars.len();
    let size: usize = needle_chars.len();
    if size > len {
        return false;
    }
    let mut i: usize = 0;
    while i <= len - size
        invariant
            size <= len,
            len == text@.len(),
            size == needle@.len(),
            text_chars@ == text@,
            needle_chars@ == needle@,
            i <= len - size + 1,
            forall|k: int| 0 <= k < i ==> #[trigger] text@.subrange(k, k + size) != needle@,
        decreases len - size + 1 - i,
    {
        let mut j: usize = 0;
        while j < size && text_chars[i + j] == needle_chars[j]
            invariant
                j <= size,
                i + size <= len,
                len == text@.len(),
                size == needle@.len(),
                text_chars@ == text@,
                needle_chars@ == needle@,
                forall|k: int| 0 <= k < j ==> text@[i + k] == #[trigger] needle@[k],
            decreases size - j,
        {
            j = j + 1;
        }
        if j == size {
            assert(text@.subrange(i as int, i + size) =~= needle@);
            return true;
        }
        proof {
            assert(text@.subrange(i as int, i + size)[j as int] == text@[i + j]);
            assert(text@.subrange(i as int, i + size) != needle@);
        }
        i = i + 1;
    }
    proof {
        if occurs_in(text@, needle@) {
            let k = choose|k: int|
                0 <= k && k + needle@.len() <= text@.len() && #[trigger] text@.subrange(
                    k,
                    k + needle@.len(),
                ) == needle@;
            assert(text@.subrange(k, k + size) != needle@);
        }
    }
    false
}

/// What a failed status asks the user to do.
pub open spec fn status_hint(text: Seq<char>) -> Seq<char> {
    if occurs_in(text, "Logged out"@) || occurs_in(text, "logged out"@) {
        "run `tailscale up` and sign in"@
    } else if occurs_in(text, "stopped"@) {
        "start Tailscale from the menu bar, or run `tailscale up`"@
    } else {
        "run `tailscale status` to see why"@
    }
}

impl Probes {
    /// The finding on Tailscale's status.
    pub open spec fn status_finding(self) -> FindingView {
        match self.status {
            Some(answer) => if answer.success {
                passed("Tailscale is running"@)
            } else {
                failed("Tailscale is not connected"@, status_hint(answer.text@))
            },
            None => failed(
                "could not run the Tailscale CLI"@,
                "check that Tailscale is not mid-update"@,
            ),
        }
    }

    /// The finding on the peer: whether it is reachable, and just as importantly
    /// whether the connection is direct. A relayed link adds latency that the
    /// distance does not explain.
    pub open spec fn peer_finding(self) -> FindingView {
        let peer = self.peer->0@;
        if self.ping is Some && self.ping->0.success {
            if occurs_in(self.ping->0.text@, "via DERP"@) {
                failed(
                    peer + " is reachable but RELAYED, which adds latency"@,
                    "both machines should be on Ethernet with UPnP or NAT-PMP enabled on \
the router; run `tailscale netcheck` for details"@,
                )
            } else {
                passed(peer + " is reachable, direct"@)
            }
        } else {
            failed(
                peer + " is not reachable"@,
                "check the name against `tailscale status`, and that the other Mac is \
online and signed in to the same tailnet"@,
            )
        }
    }

    /// The finding on Screen Recording.
    pub open spec fn screen_finding(self) -> FindingView {
        if self.screen_recording->0 {
            passed("Screen Recording permission granted"@)
        } else {
            failed(
                "Screen Recording permission is missing"@,
                "grant it in System Settings > Privacy & Security > Screen & System Audio \
Recording, then run pair again"@,
            )
        }
    }

    /// Every finding that applies, in order. Without Tailscale nothing that needs
    /// it is judged.
    pub open spec fn findings(self) -> Seq<FindingView> {
        let tailscale = if !self.installed {
            seq![failed("Tailscale is not installed"@, INSTALL@)]
        } else {
            let base = seq![passed("Tailscale is installed"@), self.status_finding()];
            if self.peer is Some {
                base.push(self.peer_finding())
            } else {
                base
            }
        };
        if self.screen_recording is Some {
            tailscale.push(self.screen_finding())
        } else {
            tailscale
        }
    }
}

/// What was found.
pub open spec fn found(list: Seq<Finding>) -> Seq<FindingView> {
    list.map_values(|finding: Finding| finding.model())
}

/// Judges every check that applies.
pub fn check(probes: &Probes) -> (findings: Vec<Finding>)
    ensures
        found(findings@) == probes.findings(),
{
    let mut findings: Vec<Finding> = Vec::new();
    if !probes.installed {
        // Every other check of Tailscale needs the command.
        findings.push(Finding::bad("Tailscale is not installed", INSTALL));
        assert(found(findings@) =~= seq![failed("Tailscale is not installed"@, INSTALL@)]);
    } else {
        findings.push(Finding::ok("Tailscale is installed"));
        findings.push(judge_status(probes));
        assert(found(findings@) =~= seq![
            passed("Tailscale is installed"@),
            probes.status_finding(),
        ]);
        if let Some(peer) = &probes.peer {
            let ghost before = findings@;
            findings.push(judge_peer(probes, peer.as_str()));
            assert(found(findings@) =~= found(before).push(probes.peer_finding()));
        }
    }
    if let Some(granted) = probes.screen_recording {
        let ghost before = findings@;
        findings.push(screen_recording(granted));
        assert(found(findings@) =~= found(before).push(probes.screen_finding()));
    }
    findings
}

/// Judges Tailscale's status.
fn judge_status(probes: &Probes) -> (finding: Finding)
    ensures
        finding.model() == probes.status_finding(),
{
    match &probes.status {
        Some(answer) => {
            if answer.success {
                return Finding::ok("Tailscale is running");
            }
            let text: &str = answer.text.as_str();
            let hint: &str = if contains(text, "Logged out") || contains(text, "logged out") {
                "run `tailscale up` and sign in"
            } else if contains(text, "stopped") {
                "start Tailscale from the menu bar, or run `tailscale up`"
            } else {
                "run `tailscale status` to see why"
            };
            Finding::bad("Tailscale is not connected", hint)
        },
        None => Finding::bad(
            "could not run the Tailscale CLI",
            "check that Tailscale is not mid-update",
        ),
    }
}

/// Judges whether the peer is reachable, and directly.
fn judge_peer(probes: &Probes, peer: &str) -> (finding: Finding)
    requires
        probes.peer matches Some(name) && name@ == peer@,
    ensures
        finding.model() == probes.peer_finding(),
{
    if let Some(answer) = &probes.ping {
        if answer.success {
            if contains(answer.text.as_str(), "via DERP") {
                let what = peer.to_string().concat(
                    " is reachable but RELAYED, which adds latency",
                );
                return Finding::bad(
                    what.as_str(),
                    "both machines should be on Ethernet with UPnP or NAT-PMP enabled on \
the router; run `tailscale netcheck` for details",
                );
            }
            let what = peer.to_string().concat(" is reachable, direct");
            return Finding::ok(what.as_str());
        }
    }
    let what = peer.to_string().concat(" is not reachable");
    Finding::bad(
        what.as_str(),
        "check the name against `tailscale status`, and that the other Mac is \
online and signed in to the same tailnet",
    )
}

/// Judges the Screen Recording permission.
fn screen_recording(granted: bool) -> (finding: Finding)
    ensures
        forall|probes: Probes|
            probes.screen_recording == Some(granted) ==> finding.model()
                == #[trigger] probes.screen_finding(),
{
    if granted {
        Finding::ok("Screen Recording permission granted")
    } else {
        Finding::bad(
            "Screen Recording permission is missing",
            "grant it in System Settings > Privacy & Security > Screen & System Audio \
Recording, then run pair again",
        )
    }
}

/// Whether every check passed.
pub open spec fn all_passed(findings: Seq<FindingView>) -> bool {
    forall|i: int| 0 <= i < findings.len() ==> (#[trigger] findings[i]).ok
}

/// The names of the checks, with commas between them.
pub open spec fn names(findings: Seq<FindingView>) -> Seq<char>
    decreases findings.len(),
{
    if findings.len() == 0 {
        seq![]
    } else if findings.len() == 1 {
        findings[0].what
    } else {
        names(findings.drop_last()) + ", "@ + findings.last().what
    }
}

/// The lines on one finding: whether it passed, and how to fix it if not.
pub open spec fn finding_lines(finding: FindingView) -> Seq<Seq<char>> {
    let head = (if finding.ok {
        "  ✓ "@
    } else {
        "  ✗ "@
    }) + finding.what;
    match finding.fix {
        Some(fix) => seq![head, "      "@ + fix],
        None => seq![head],
    }
}

/// The lines on the first `n` findings.
pub open spec fn lines_before(findings: Seq<FindingView>, n: int) -> Seq<Seq<char>>
    decreases n,
{
    if n <= 0 {
        seq![]
    } else {
        lines_before(findings, n - 1) + finding_lines(findings[n - 1])
    }
}

/// Whether a check failed because something is not installed.
pub open spec fn lacks_install(findings: Seq<FindingView>) -> bool {
    exists|i: int|
        0 <= i < findings.len() && !(#[trigger] findings[i]).ok && occurs_in(
            findings[i].what,
            "not installed"@,
        )
}

/// What Tailscale is for, told to someone who does not have it.
pub open spec fn introduction() -> Seq<Seq<char>> {
    seq![
        ""@,
        "Tailscale gives both Macs a stable private address and connects them"@,
        "directly, so pair needs no port forwarding and no public server."@,
        "Both of you must be on the same tailnet: sign in to the same account,"@,
        "or invite the other from the admin console at https://login.tailscale.com"@,
    ]
}

/// The report on the findings, line by line.
pub open spec fn report_lines(findings: Seq<FindingView>) -> Seq<Seq<char>> {
    if all_passed(findings) {
        seq!["checks passed: "@ + names(findings)]
    } else {
        let lines = seq!["setup needs attention:"@] + lines_before(
            findings,
            findings.len() as int,
        );
        if lacks_install(findings) {
            lines + introduction()
        } else {
            lines
        }
    }
}

/// The report on the findings.
pub struct Report {
    /// Nothing needs attention.
    pub passed: bool,
    pub lines: Vec<String>,
}

/// The contents of lines.
pub open spec fn texts(lines: Seq<String>) -> Seq<Seq<char>> {
    lines.map_values(|line: String| line@)
}

proof fn lemma_texts_push(lines: Seq<String>, line: String)
    ensures
        texts(lines.push(line)) == texts(lines).push(line@),
{
    assert(texts(lines.push(line)) =~= texts(lines).push(line@));
}

/// The names of the checks, with commas between them.
fn join_names(findings: &[Finding]) -> (joined: String)
    ensures
        joined@ == names(found(findings@)),
{
    let ghost all = found(findings@);
    if findings.len() == 0 {
        proof {
            reveal_strlit("");
            assert(""@ =~= seq![]);
        }
        return "".to_string();
    }
    let mut joined: String = findings[0].what.as_str().to_string();
    let mut i: usize = 1;
    assert(all.take(1)[0] == all[0]);
    while i < findings.len()
        invariant
            1 <= i <= findings@.len(),
            all == found(findings@),
            joined@ == names(all.take(i as int)),
        decreases findings@.len() - i,
    {
        proof {
            assert(all.take(i + 1).drop_last() =~= all.take(i as int));
            assert(all.take(i + 1).last() == all[i as int]);
        }
        joined = joined.concat(", ").concat(findings[i].what.as_str());
        i = i + 1;
    }
    assert(all.take(i as int) =~= all);
    joined
}

/// Reports the findings, and whether anything needs attention.
pub fn report(findings: &[Finding]) -> (report: Report)
    ensures
        report.passed == all_passed(found(findings@)),
        texts(report.lines@) == report_lines(found(findings@)),
{
    let ghost all = found(findings@);
    let mut lines: Vec<String> = Vec::new();
    let mut failures: bool = false;
    let mut lacking: bool = false;
    let mut i: usize = 0;
    while i < findings.len()
        invariant
            i <= findings@.len(),
            all == found(findings@),
            failures == !all_passed(all.take(i as int)),
            lacking == lacks_install(all.take(i as int)),
        decreases findings@.len() - i,
    {
        let here: bool = !findings[i].ok && contains(findings[i].what.as_str(), "not installed");
        proof {
            let (shorter, longer) = (all.take(i as int), all.take(i + 1));
            assert(longer =~= shorter.push(all[i as int]));
            assert(forall|k: int| 0 <= k < i ==> shorter[k] == longer[k]);
            assert(longer[i as int] == all[i as int]);
            if lacks_install(shorter) {
                let k = choose|k: int|
                    0 <= k < shorter.len() && !(#[trigger] shorter[k]).ok && occurs_in(
                        shorter[k].what,
                        "not installed"@,
                    );
                assert(!longer[k].ok && occurs_in(longer[k].what, "not installed"@));
            }
            if lacks_install(longer) && !here {
                let k = choose|k: int|
                    0 <= k < longer.len() && !(#[trigger] longer[k]).ok && occurs_in(
                        longer[k].what,
                        "not installed"@,
                    );
                assert(!shorter[k].ok && occurs_in(shorter[k].what, "not installed"@));
            }
            if !all_passed(shorter) {
                let k = choose|k: int| 0 <= k < shorter.len() && !(#[trigger] shorter[k]).ok;
                assert(!longer[k].ok);
            }
        }
        if !findings[i].ok {
            failures = true;
        }
        if here {
            lacking = true;
        }
        i = i + 1;
    }
    assert(all.take(i as int) =~= all);
    if !failures {
        let line: String = "checks passed: ".to_string().concat(join_names(findings).as_str());
        proof {
            lemma_texts_push(lines@, line);
            assert(texts(lines@.push(line)) =~= seq!["checks passed: "@ + names(all)]);
        }
        lines.push(line);
        return Report { passed: true, lines };
    }
    lines.push("setup needs attention:".to_string());
    let mut n: usize = 0;
    assert(texts(lines@) =~= seq!["setup needs attention:"@] + lines_before(all, 0));
    while n < findings.len()
        invariant
            n <= findings@.len(),
            all == found(findings@),
            texts(lines@) == seq!["setup needs attention:"@] + lines_before(all, n as int),
        decreases findings@.len() - n,
    {
        let ghost before = texts(lines@);
        let mark: &str = if findings[n].ok {
            "  ✓ "
        } else {
            "  ✗ "
        };
        let head: String = mark.to_string().concat(findings[n].what.as_str());
        proof {
            lemma_texts_push(lines@, head);
        }
        lines.push(head);
        if let Some(fix) = &findings[n].fix {
            let line: String = "      ".to_string().concat(fix.as_str());
            proof {
                lemma_texts_push(lines@, line);
            }
            lines.push(line);
        }
        assert(texts(lines@) =~= before + finding_lines(all[n as int]));
        assert(texts(lines@) =~= seq!["setup needs attention:"@] + lines_before(all, n + 1));
        n = n + 1;
    }
    if lacking {
        let ghost before = lines@;
        lines.push("".to_string());
        lines.push("Tailscale gives both Macs a stable private address and connects them".to_string());
        lines.push("directly, so pair needs no port forwarding and no public server.".to_string());
        lines.push(
            "Both of you must be on the same tailnet: sign in to the same account,".to_string(),
        );
        lines.push(
            "or invite the other from the admin console at https://login.tailscale.com".to_string(),
        );
        assert(texts(lines@) =~= texts(before) + introduction());
    }
    Report { passed: false, lines }
}

/// What is judged, in order: whether Tailscale is there, then, only if it is, whether
/// it runs and whether the peer, if there is one, is reached directly; and, wherever
/// the screen is to be recorded, whether it may be. A check that failed says how to
/// fix it, and one that passed says nothing of the kind.
pub proof fn law_findings_follow_what_was_found_out(probes: Probes, i: int)
    ensures
        ({
            let all = probes.findings();
            let tailscale = if !probes.installed {
                1int
            } else if probes.peer is Some {
                3
            } else {
                2
            };
            let total = tailscale + if probes.screen_recording is Some {
                1int
            } else {
                0
            };
            let reached = probes.ping is Some && probes.ping->0.success;
            &&& all.len() == total
            &&& 0 <= i < total ==> (all[i].fix is Some <==> !all[i].ok)
            &&& all[0].ok == probes.installed
            &&& probes.installed ==> all[1].ok == (probes.status is Some
                && probes.status->0.success)
            &&& probes.installed && probes.peer is Some ==> {
                &&& all[2].ok == (reached && !occurs_in(probes.ping->0.text@, "via DERP"@))
                &&& all[2].what.len() >= probes.peer->0@.len()
                &&& all[2].what.subrange(0, probes.peer->0@.len() as int) == probes.peer->0@
            }
            &&& probes.screen_recording is Some ==> all[total - 1].ok
                == probes.screen_recording->0
        }),
{
    if probes.peer is Some {
        let peer = probes.peer->0@;
        let what = probes.peer_finding().what;
        assert(what.subrange(0, peer.len() as int) =~= peer);
    }
}

/// The advice on a status that failed goes by what it said: signed out, stopped, or
/// something else.
pub proof fn law_advice_follows_what_the_status_said(text: Seq<char>)
    ensures
        occurs_in(text, "Logged out"@) || occurs_in(text, "logged out"@) ==> status_hint(text)
            == "run `tailscale up` and sign in"@,
        !occurs_in(text, "Logged out"@) && !occurs_in(text, "logged out"@) && occurs_in(
            text,
            "stopped"@,
        ) ==> status_hint(text) == "start Tailscale from the menu bar, or run `tailscale up`"@,
        !occurs_in(text, "Logged out"@) && !occurs_in(text, "logged out"@) && !occurs_in(
            text,
            "stopped"@,
        ) ==> status_hint(text) == "run `tailscale status` to see why"@,
{
}

/// How many lines the first `n` findings take: one each, and one more for each that
/// says how to fix it.
pub open spec fn lines_needed(findings: Seq<FindingView>, n: int) -> nat
    decreases n,
{
    if n <= 0 {
        0
    } else {
        lines_needed(findings, n - 1) + if findings[n - 1].fix is Some {
            2nat
        } else {
            1
        }
    }
}

proof fn lemma_lines(findings: Seq<FindingView>, n: int, i: int)
    requires
        0 <= i < n <= findings.len(),
    ensures
        ({
            let lines = lines_before(findings, n);
            let at = lines_needed(findings, i) as int;
            let finding = findings[i];
            &&& lines.len() == lines_needed(findings, n)
            &&& at + 1 <= lines.len()
            &&& lines[at] == (if finding.ok {
                "  ✓ "@
            } else {
                "  ✗ "@
            }) + finding.what
            &&& finding.fix is Some ==> at + 2 <= lines.len() && lines[at + 1] == "      "@
                + finding.fix->0
        }),
    decreases n,
{
    if n == 1 {
        assert(lines_before(findings, 0) =~= seq![]);
        reveal_with_fuel(lines_before, 2);
        reveal_with_fuel(lines_needed, 2);
    } else {
        let k = if i < n - 1 {
            i
        } else {
            0
        };
        lemma_lines(findings, n - 1, k);
    }
}

/// Where every check passed the report is one line that names them. Otherwise it is
/// a heading and then every finding in order, marked by whether it passed, with how
/// to fix it on a line below. Someone who does not have Tailscale is told in the end
/// what it is for.
pub proof fn law_the_report_lists_every_finding(findings: Seq<FindingView>, i: int)
    requires
        0 <= i < findings.len(),
    ensures
        ({
            let lines = report_lines(findings);
            let passed = forall|k: int| 0 <= k < findings.len() ==> (#[trigger] findings[k]).ok;
            let at = 1 + lines_needed(findings, i) as int;
            let needed = 1 + lines_needed(findings, findings.len() as int) as int;
            let finding = findings[i];
            let lacking = exists|k: int|
                0 <= k < findings.len() && !(#[trigger] findings[k]).ok && occurs_in(
                    findings[k].what,
                    "not installed"@,
                );
            &&& passed ==> lines.len() == 1 && lines[0] == "checks passed: "@ + names(findings)
            &&& !passed ==> {
                &&& lines[0] == "setup needs attention:"@
                &&& lines.len() == needed + if lacking {
                    5int
                } else {
                    0
                }
                &&& lines[at] == (if finding.ok {
                    "  ✓ "@
                } else {
                    "  ✗ "@
                }) + finding.what
                &&& finding.fix is Some ==> lines[at + 1] == "      "@ + finding.fix->0
            }
        }),
{
    lemma_lines(findings, findings.len() as int, i);
}

/// Names are put behind each other with a comma and a space between.
pub proof fn law_names_are_separated_by_commas(findings: Seq<FindingView>, last: FindingView)
    ensures
        names(seq![last]) == last.what,
        findings.len() > 0 ==> names(findings.push(last)) == names(findings) + ", "@ + last.what,
{
    assert(findings.push(last).drop_last() =~= findings);
}

/// Each finding names what it is about.
pub proof fn law_findings_name_what_they_are_about(probes: Probes)
    ensures
        ({
            let all = probes.findings();
            let peer = probes.peer->0@;
            let reached = probes.ping is Some && probes.ping->0.success;
            &&& all[0].what == if probes.installed {
                "Tailscale is installed"@
            } else {
                "Tailscale is not installed"@
            }
            &&& probes.installed ==> all[1].what == if probes.status is None {
                "could not run the Tailscale CLI"@
            } else if probes.status->0.success {
                "Tailscale is running"@
            } else {
                "Tailscale is not connected"@
            }
            &&& probes.installed && probes.status is Some && !probes.status->0.success
                ==> all[1].fix == Some(status_hint(probes.status->0.text@))
            &&& probes.installed && probes.peer is Some ==> all[2].what == peer + (if !reached {
                " is not reachable"@
            } else if all[2].ok {
                " is reachable, direct"@
            } else {
                " is reachable but RELAYED, which adds latency"@
            })
            &&& probes.screen_recording is Some ==> all.last().what
                == if probes.screen_recording->0 {
                "Screen Recording permission granted"@
            } else {
                "Screen Recording permission is missing"@
            }
        }),
{
}

} // verus!
