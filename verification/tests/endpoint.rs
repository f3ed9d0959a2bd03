use receipt::gate::{Address, Gate, Limits};
use receipt::linear::{Comment, CommentEvent, UpdatedFrom};
use receipt::refusal::Refusal;
use receipt::server::{
    accept, clean, client_ip, constant_time_eq, first_hop, is_usable_password, screen, settle,
    status, unblocked, Rules, Submission, Visit,
};
use receipt::webhook::{
    handle, receive, respond, setup, vouch, Ending, Errand, News, Outcome, Reply, Request, Seen,
    Setup, Step, SEEN_LIMIT,
};

const HOME: Address = Address::V4(0x7f00_0001);
const AWAY: Address = Address::V6(1);
const SECOND: u64 = 1_000_000_000;
const OFF: Limits = Limits { cooldown: 0, per_client_daily: 0, daily_cap: 0 };

fn told<T>(r: Result<T, Refusal>) -> (u16, String) {
    r.err().expect("a refusal").parts()
}

// --- the counts ------------------------------------------------------------

#[test]
fn every_limit_is_off_at_zero() {
    let mut gate = Gate::new(1);
    for _ in 0..5000 {
        assert!(gate.claim(HOME, 1, 0, OFF).is_ok());
    }
    assert_eq!(gate.remaining(1, OFF), None);
}

#[test]
fn the_day_has_a_cap() {
    let limits = Limits { daily_cap: 2, ..OFF };
    let mut gate = Gate::new(1);
    assert_eq!(gate.remaining(1, limits), Some(2));
    assert!(gate.claim(HOME, 1, 0, limits).is_ok());
    assert!(gate.claim(AWAY, 1, 0, limits).is_ok());
    assert_eq!(gate.remaining(1, limits), Some(0));
    assert_eq!(
        told(gate.claim(HOME, 1, 0, limits)),
        (429, "the printer has had enough for one day".to_string())
    );
    assert_eq!(gate.remaining(1, Limits { daily_cap: 1, ..OFF }), Some(0));
}

#[test]
fn midnight_clears_the_counts() {
    let limits = Limits { cooldown: 60, per_client_daily: 1, daily_cap: 1 };
    let mut gate = Gate::new(1);
    assert!(gate.claim(HOME, 1, 0, limits).is_ok());
    assert!(gate.claim(HOME, 1, 0, limits).is_err());
    assert!(gate.claim(HOME, 2, 1, limits).is_ok());
    assert_eq!(gate.remaining(3, limits), Some(1));
}

#[test]
fn a_client_waits_out_the_cooldown() {
    let limits = Limits { cooldown: 60, ..OFF };
    let mut gate = Gate::new(1);
    assert!(gate.claim(HOME, 1, 5 * SECOND, limits).is_ok());
    assert_eq!(
        told(gate.claim(HOME, 1, 5 * SECOND, limits)),
        (429, "hold on \u{2014} 61s before the next one".to_string())
    );
    assert_eq!(
        told(gate.claim(HOME, 1, 35 * SECOND + 1, limits)).1,
        "hold on \u{2014} 30s before the next one"
    );
    assert_eq!(
        told(gate.claim(HOME, 1, 65 * SECOND - 1, limits)).1,
        "hold on \u{2014} 1s before the next one"
    );
    assert_eq!(
        told(gate.claim(HOME, 1, 0, limits)).1,
        "hold on \u{2014} 61s before the next one"
    );
    assert!(gate.claim(AWAY, 1, 6 * SECOND, limits).is_ok());
    assert!(gate.claim(HOME, 1, 65 * SECOND, limits).is_ok());
}

#[test]
fn the_longest_cooldown_still_counts_down() {
    let limits = Limits { cooldown: u64::MAX, ..OFF };
    let mut gate = Gate::new(1);
    assert!(gate.claim(HOME, 1, 0, limits).is_ok());
    assert_eq!(
        told(gate.claim(HOME, 1, 0, limits)).1,
        "hold on \u{2014} 18446744073709551616s before the next one"
    );
}

#[test]
fn a_client_has_a_daily_allowance() {
    let limits = Limits { per_client_daily: 1, ..OFF };
    let mut gate = Gate::new(1);
    assert!(gate.claim(HOME, 1, 0, limits).is_ok());
    assert_eq!(
        told(gate.claim(HOME, 1, 0, limits)),
        (429, "that is your lot for today".to_string())
    );
    assert!(gate.claim(Address::V6(0x7f00_0001), 1, 0, limits).is_ok());
}

#[test]
fn limits_are_tried_in_order() {
    let limits = Limits { cooldown: 60, per_client_daily: 1, daily_cap: 1 };
    let mut gate = Gate::new(1);
    assert!(gate.claim(HOME, 1, 0, limits).is_ok());
    assert!(matches!(gate.claim(HOME, 1, 0, limits), Err(Refusal::DailyCap)));
    let limits = Limits { daily_cap: 9, ..limits };
    assert!(matches!(gate.claim(HOME, 1, 0, limits), Err(Refusal::Cooldown(61))));
    assert!(matches!(gate.claim(HOME, 1, 60 * SECOND, limits), Err(Refusal::ClientDaily)));
}

#[test]
fn a_refund_gives_back_the_print_but_not_the_wait() {
    let limits = Limits { cooldown: 60, per_client_daily: 1, daily_cap: 1 };
    let mut gate = Gate::new(1);
    assert!(gate.claim(HOME, 1, 0, limits).is_ok());
    gate.refund(HOME, 1);
    assert_eq!(gate.remaining(1, limits), Some(1));
    assert!(matches!(gate.claim(HOME, 1, 30 * SECOND, limits), Err(Refusal::Cooldown(31))));
    assert!(gate.claim(HOME, 1, 60 * SECOND, limits).is_ok());
    gate.refund(HOME, 1);
    gate.refund(HOME, 1);
    assert_eq!(gate.remaining(1, limits), Some(1));
}

#[test]
fn a_refund_across_midnight_gives_back_nothing() {
    let limits = Limits { per_client_daily: 1, daily_cap: 1, ..OFF };
    let mut gate = Gate::new(1);
    assert!(gate.claim(HOME, 1, 0, limits).is_ok());
    assert!(gate.claim(AWAY, 2, 1, limits).is_ok());
    gate.refund(HOME, 1);
    assert!(matches!(gate.claim(HOME, 2, 2, limits), Err(Refusal::DailyCap)));
    // Nor is a print of today's given back for one of yesterday's by the same client.
    gate.refund(AWAY, 1);
    assert!(matches!(gate.claim(AWAY, 2, 3, limits), Err(Refusal::DailyCap)));
    gate.refund(AWAY, 2);
    assert!(gate.claim(HOME, 2, 4, limits).is_ok());
}

#[test]
fn a_print_more_can_be_counted() {
    let gate = Gate::new(1);
    assert!(gate.can_count(HOME, 1));
    assert!(gate.can_count(HOME, 2));
}

// --- submissions -----------------------------------------------------------

fn submission(password: &str, name: &str, text: &str) -> Submission {
    Submission { password: password.into(), name: name.into(), text: text.into() }
}

#[test]
fn control_characters_are_stripped() {
    assert_eq!(clean("a\r\nb\tc\x1b@\x7f\u{85}d\n"), "a\nbc@d\n");
    assert_eq!(clean("\u{e9}\u{2550}\u{1f5a8}"), "\u{e9}\u{2550}\u{1f5a8}");
    assert_eq!(clean("\r\r"), "");
}

#[test]
fn passwords_are_compared_whole() {
    assert!(constant_time_eq(b"", b""));
    assert!(constant_time_eq(b"secret", b"secret"));
    assert!(!constant_time_eq(b"secret", b"secreT"));
    assert!(!constant_time_eq(b"Secret", b"secret"));
    assert!(!constant_time_eq(b"secret", b"secret "));
    assert!(!constant_time_eq(&[1, 2], &[2, 1]));
}

#[test]
fn submissions_are_refused_in_order() {
    let refused = |s: &Submission, paused: bool| told(screen(s, "pw", 5, paused));
    assert_eq!(refused(&submission("no", "", ""), true), (401, "wrong password".to_string()));
    assert_eq!(refused(&submission("pw", "", ""), true), (503, "printing is paused".to_string()));
    assert_eq!(refused(&submission("pw", "", " \n\x07"), false), (400, "nothing to print".to_string()));
    assert_eq!(
        refused(&submission("pw", "", "sixsix"), false),
        (413, "too long \u{2014} 5 characters at most".to_string())
    );
    assert_eq!(
        told::<()>(Err(Refusal::Printer("cover is open".into()))),
        (503, "cover is open".to_string())
    );
}

#[test]
fn what_passes_is_cleaned() {
    let slip = screen(&submission("pw", "", "five\u{e9}\x07"), "pw", 5, false).ok().unwrap();
    assert_eq!((slip.text.as_str(), slip.name.as_str()), ("five\u{e9}", ""));
    let long = format!(" \t{} ", "n".repeat(30));
    let slip = screen(&submission("pw", &long, " a "), "pw", 5, false).ok().unwrap();
    assert_eq!((slip.text.as_str(), slip.name.as_str()), (" a ", "n".repeat(24).as_str()));
}

#[test]
fn only_a_submission_that_passes_is_counted() {
    let limits = Limits { daily_cap: 1, ..OFF };
    let rules = Rules { password: "pw".into(), max_chars: 5, limits };
    let visit = Visit { who: HOME, day: 1, now: 0, paused: false };
    let mut gate = Gate::new(1);
    let wrong = submission("no", "", "hello");
    assert_eq!(told(accept(&mut gate, &wrong, &rules, visit)).0, 401);
    let right = submission("pw", "Kate", "hello");
    let paused = Visit { paused: true, ..visit };
    assert_eq!(told(accept(&mut gate, &right, &rules, paused)).0, 503);
    assert_eq!(gate.remaining(1, limits), Some(1));
    let slip = accept(&mut gate, &right, &rules, visit).ok().unwrap();
    assert_eq!((slip.text.as_str(), slip.name.as_str()), ("hello", "Kate"));
    assert_eq!(gate.remaining(1, limits), Some(0));
    assert_eq!(told(accept(&mut gate, &right, &rules, visit)).0, 429);
    assert!(accept(&mut gate, &right, &rules, Visit { day: 2, ..visit }).is_ok());
}

#[test]
fn a_password_has_something_in_it() {
    assert!(is_usable_password(" x "));
    assert!(!is_usable_password(""));
    assert!(!is_usable_password(" \t"));
}

#[test]
fn the_proxy_says_who_is_asking() {
    assert_eq!(first_hop(" 10.0.0.1 , 10.0.0.2"), "10.0.0.1");
    assert_eq!(first_hop("10.0.0.1"), "10.0.0.1");
    assert_eq!(first_hop(""), "");
    assert!(client_ip(Some(AWAY), Some(HOME), HOME) == AWAY);
    assert!(client_ip(None, Some(AWAY), HOME) == AWAY);
    assert!(client_ip(None, None, HOME) == HOME);
}

// --- the printer's answer --------------------------------------------------

fn problems(list: &[&str]) -> Vec<String> {
    list.iter().map(|p| p.to_string()).collect()
}

#[test]
fn only_blockers_stop_a_job() {
    assert_eq!(unblocked(&[]), Ok(()));
    assert_eq!(unblocked(&problems(&["paper nearly out", "printer is offline"])), Ok(()));
    assert_eq!(
        unblocked(&problems(&["out of paper", "paper nearly out", "cover is open"])),
        Err("out of paper; cover is open".to_string())
    );
}

#[test]
fn a_failed_print_is_handed_back() {
    let limits = Limits { daily_cap: 5, ..OFF };
    let mut gate = Gate::new(1);
    assert!(gate.claim(HOME, 1, 0, limits).is_ok());
    let visit = Visit { who: HOME, day: 1, now: 0, paused: false };
    assert_eq!(settle(&mut gate, visit, Ok(())).ok().unwrap(), "printing");
    assert_eq!(gate.remaining(1, limits), Some(4));
    let late = Visit { day: 0, ..visit };
    assert_eq!(told(settle(&mut gate, late, Err("jam".into()))), (503, "jam".to_string()));
    assert_eq!(gate.remaining(1, limits), Some(4));
    assert_eq!(told(settle(&mut gate, visit, Err("jam".into()))), (503, "jam".to_string()));
    assert_eq!(gate.remaining(1, limits), Some(5));
}

#[test]
fn status_says_what_is_wrong() {
    let s = status(Ok(vec![]), false, Some(3), 600);
    assert!(s.ready && !s.paused);
    assert_eq!((s.detail.as_str(), s.remaining_today, s.max_chars), ("ready", Some(3), 600));
    let s = status(Ok(problems(&["paper nearly out"])), false, None, 1);
    assert!(s.ready);
    assert_eq!(s.detail, "paper nearly out");
    let s = status(Ok(problems(&["paper nearly out", "cover is open"])), false, None, 1);
    assert!(!s.ready);
    assert_eq!(s.detail, "paper nearly out; cover is open");
    let s = status(Err("TM-T20II not found".into()), false, None, 1);
    assert!(!s.ready);
    assert_eq!(s.detail, "TM-T20II not found");
    assert!(!status(Ok(vec![]), true, None, 1).ready);
    assert!(status(Ok(vec![]), true, None, 1).paused);
    assert!(!status(Ok(vec![]), false, Some(0), 1).ready);
}

// --- the webhook -----------------------------------------------------------

fn event(body: &str, id: &str) -> CommentEvent {
    CommentEvent {
        action: "create".into(),
        kind: "Comment".into(),
        data: Comment {
            id: id.into(),
            body: body.into(),
            issue_id: "i1".into(),
            user_id: Some("me".into()),
        },
        updated_from: None,
        webhook_timestamp: Some(1_000_000),
    }
}

fn answered(outcome: Outcome) -> (u16, String) {
    match outcome {
        Outcome::Answer(Reply { code, message }) => (code, message),
        Outcome::Print { reply, .. } => (reply.code, reply.message),
    }
}

#[test]
fn linear_is_on_or_off_but_not_half() {
    assert!(matches!(setup(None, None), Setup::Off));
    assert!(matches!(setup(Some("s".into()), None), Setup::Half));
    assert!(matches!(setup(None, Some("k".into())), Setup::Half));
    assert!(
        matches!(setup(Some("s".into()), Some("k".into())), Setup::On { secret, key } if secret == "s" && key == "k")
    );
}

// Published with RFC 4231.
const SIGNED: &[u8] = b"what do ya want for nothing?";
const SIGNATURE: &str = "5bdcc146bf60754e6a042426089575c75a003f089d2739839dec58b964ec3843";

#[test]
fn a_request_is_believed_by_its_signature() {
    let (body, good) = (SIGNED, SIGNATURE);
    assert!(receive(Some("Jefe"), body, Some(good)).is_ok());
    let told = |r: Result<(), Reply>| r.err().map(|r| (r.code, r.message));
    let bad = Some((401, "bad signature".to_string()));
    assert_eq!(told(receive(Some("Jefe"), b"tampered", Some(good))), bad);
    assert_eq!(told(receive(Some("Jefe"), body, None)), bad);
    let off = Some((503, "linear is not configured".to_string()));
    assert_eq!(told(receive(None, body, Some(good))), off);
    assert!(vouch(true, true).is_ok());
    assert_eq!(told(vouch(true, false)), bad);
    assert_eq!(told(vouch(false, true)), off);
}

#[test]
fn an_unsigned_request_prints_and_leaves_nothing() {
    let mut seen = Seen::new();
    let ask = |secret: Option<&str>, raw_body: &[u8], signature: Option<&str>, seen: &mut Seen| {
        let request = Request { raw_body, signature, delivery: Some("d1".into()) };
        respond(secret, request, Ok(event("[print] why", "c1")), 1_000_000, "me", seen)
    };
    for (body, signature) in [
        (SIGNED, None),
        (SIGNED, Some("")),
        (&b"tampered"[..], Some(SIGNATURE)),
        (SIGNED, Some("5bdc")),
    ] {
        let turned_away = ask(Some("Jefe"), body, signature, &mut seen);
        assert!(matches!(turned_away, Outcome::Answer(_)));
        assert_eq!(answered(turned_away), (401, "bad signature".to_string()));
    }
    let off = ask(None, SIGNED, Some(SIGNATURE), &mut seen);
    assert!(matches!(off, Outcome::Answer(_)));
    assert_eq!(answered(off), (503, "linear is not configured".to_string()));
    assert!(!seen.already_seen("c1") && !seen.already_seen("d1"));

    match ask(Some("Jefe"), SIGNED, Some(SIGNATURE), &mut seen) {
        Outcome::Print { reply, issue_id, note } => {
            assert_eq!((reply.code, reply.message.as_str()), (200, "printing"));
            assert_eq!((issue_id.as_str(), note.as_str()), ("i1", "why"));
        }
        Outcome::Answer(_) => panic!("not printed"),
    }
    assert!(seen.already_seen("c1") && seen.already_seen("d1"));
    let again = ask(Some("Jefe"), SIGNED, Some(SIGNATURE), &mut seen);
    assert_eq!(answered(again), (200, "already handled".to_string()));
}

#[test]
fn a_comment_that_asks_is_printed_once() {
    let mut seen = Seen::new();
    let first = handle(Ok(event("\\[print\\] why", "c1")), 1_000_000, "me", Some("d1".into()), &mut seen);
    match first {
        Outcome::Print { reply, issue_id, note } => {
            assert_eq!((reply.code, reply.message.as_str()), (200, "printing"));
            assert_eq!((issue_id.as_str(), note.as_str()), ("i1", "why"));
        }
        Outcome::Answer(_) => panic!("not printed"),
    }
    let handled = (200, "already handled".to_string());
    let again = |id: &str, delivery: Option<&str>, seen: &mut Seen| {
        answered(handle(Ok(event("[print]", id)), 1_000_000, "me", delivery.map(String::from), seen))
    };
    assert_eq!(again("c2", Some("d1"), &mut seen), handled);
    assert_eq!(again("c1", Some("d2"), &mut seen), handled);
    assert_eq!(again("c1", None, &mut seen), handled);
    assert_eq!(again("c3", None, &mut seen), (200, "printing".to_string()));
    assert!(seen.already_seen("c3") && !seen.already_seen("d2"));
}

#[test]
fn every_signed_request_is_answered_200() {
    let mut seen = Seen::new();
    let unread = handle(Err("missing field".into()), 0, "me", None, &mut seen);
    assert_eq!(answered(unread), (200, "ignored: missing field".to_string()));
    let theirs = handle(Ok(event("[print]", "c1")), 1_000_000, "you", None, &mut seen);
    assert_eq!(answered(theirs), (200, "someone else's comment".to_string()));
    let plain = handle(Ok(event("hello", "c1")), 1_000_000, "me", None, &mut seen);
    assert_eq!(answered(plain), (200, "no marker in the comment".to_string()));
    let mut edit = event("[print]", "c1");
    edit.action = "update".into();
    edit.updated_from = Some(UpdatedFrom { body: Some("[print].".into()) });
    assert_eq!(
        answered(handle(Ok(edit), 1_000_000, "me", None, &mut seen)),
        (200, "marker was already there before this edit".to_string())
    );
    let stale = handle(Ok(event("[print]", "c1")), 1_060_000, "me", None, &mut seen);
    assert_eq!(answered(stale), (200, "stale timestamp".to_string()));
    let ages_ago = handle(Ok(event("[print]", "c1")), i64::MIN, "me", None, &mut seen);
    assert_eq!(answered(ages_ago), (200, "stale timestamp".to_string()));
    assert!(!seen.already_seen("c1"));
}

#[test]
fn the_last_two_hundred_keys_are_remembered() {
    let mut seen = Seen::new();
    seen.remember("first".into());
    for i in 0..SEEN_LIMIT - 1 {
        seen.remember(i.to_string());
        assert!(seen.already_seen("first"));
    }
    seen.remember("one more".into());
    assert!(!seen.already_seen("first"));
    assert!(seen.already_seen("0") && seen.already_seen("one more"));
}

#[test]
fn a_slip_is_tried_until_it_prints() {
    let (mut errand, step) = Errand::begin(3);
    assert!(step == Step::Look);
    assert!(errand.next(News::Paused(false)) == Step::Print);
    assert!(errand.next(News::Printed(false)) == Step::Rest(30));
    assert!(errand.next(News::Rested) == Step::Look);
    assert_eq!(errand.attempt, 2);
    assert!(errand.next(News::Paused(false)) == Step::Print);
    assert!(errand.next(News::Printed(true)) == Step::Stop(Ending::Printed));
}

#[test]
fn a_slip_is_dropped_or_given_up_on() {
    assert!(Errand::begin(0).1 == Step::Stop(Ending::GaveUp));
    let (mut errand, _) = Errand::begin(1);
    assert!(errand.next(News::Paused(true)) == Step::Stop(Ending::Dropped));
    assert!(errand.next(News::Printed(false)) == Step::Rest(30));
    assert!(errand.next(News::Rested) == Step::Stop(Ending::GaveUp));
}
