use hmac::{Hmac, Mac};
use receipt::linear::{
    answer, decode_hex, has_marker, issue, note, signature_matches, unescape, viewer, Comment,
    CommentEvent, Error, Found, Issue, Named, Nodes, UpdatedFrom, Verdict, DEADLINE_SECS, MARKER,
    MAX_CLOCK_SKEW_MS,
};
use sha2::Sha256;

fn event(action: &str, body: &str, user: &str, was: Option<&str>) -> CommentEvent {
    CommentEvent {
        action: action.into(),
        kind: "Comment".into(),
        data: Comment {
            id: "c1".into(),
            body: body.into(),
            issue_id: "i1".into(),
            user_id: Some(user.into()),
        },
        updated_from: was.map(|b| UpdatedFrom { body: Some(b.into()) }),
        webhook_timestamp: None,
    }
}

fn an_issue() -> Issue {
    Issue {
        identifier: "ENG-1".into(),
        title: "Title".into(),
        description: None,
        priority_label: None,
        estimate: None,
        due_date: None,
        state: None,
        assignee: None,
        project: None,
        labels: None,
    }
}

#[test]
fn signature_is_hmac_of_the_raw_body() {
    // Checked against a known HMAC-SHA256 so this catches a change of
    // algorithm, not just a change of code.
    let secret = "shh";
    let body = b"{\"hello\":\"world\"}";
    let mut mac = Hmac::<Sha256>::new_from_slice(secret.as_bytes()).unwrap();
    mac.update(body);
    let good = mac.finalize().into_bytes();
    let good = good.iter().map(|b| format!("{b:02x}")).collect::<String>();

    assert!(signature_matches(secret, body, &good));
    assert!(!signature_matches("wrong", body, &good));
    assert!(!signature_matches(secret, b"tampered", &good));
    assert!(!signature_matches(secret, body, "not hex"));
    assert!(!signature_matches(secret, body, ""));
}

#[test]
fn a_published_hmac_is_a_signature() {
    // Published with RFC 4231.
    let good = "5bdcc146bf60754e6a042426089575c75a003f089d2739839dec58b964ec3843";
    let body = b"what do ya want for nothing?";
    assert!(signature_matches("Jefe", body, good));
    assert!(signature_matches("Jefe", body, &format!("  {}\n", good.to_uppercase())));
    assert!(!signature_matches("Jefe", body, &good[..62]));
    assert!(!signature_matches("Jefe", body, &format!("{good}00")));
}

#[test]
fn hexadecimal_is_read_in_pairs() {
    assert_eq!(decode_hex("00ff7F"), Ok(vec![0x00, 0xff, 0x7f]));
    assert_eq!(decode_hex(" 1a \n"), Ok(vec![0x1a]));
    assert_eq!(decode_hex(""), Ok(vec![]));
    assert_eq!(decode_hex("+a"), Ok(vec![0x0a]));
    assert_eq!(decode_hex("a"), Err(()));
    assert_eq!(decode_hex("a+"), Err(()));
    assert_eq!(decode_hex("-1"), Err(()));
    assert_eq!(decode_hex("++"), Err(()));
    assert_eq!(decode_hex("0g"), Err(()));
    assert_eq!(decode_hex("0 11"), Err(()));
    assert_eq!(decode_hex("\u{e9}"), Err(()));
}

#[test]
fn pairs_of_digits_read_as_the_standard_library_reads_them() {
    for a in 0u8..128 {
        for b in 0u8..128 {
            let pair = String::from_utf8(vec![a, b]).unwrap();
            if pair.trim() != pair {
                continue;
            }
            let wanted = u8::from_str_radix(&pair, 16).map(|n| vec![n]).map_err(|_| ());
            assert_eq!(decode_hex(&pair), wanted);
        }
    }
}

#[test]
fn bytes_written_in_hexadecimal_read_back() {
    let bytes: Vec<u8> = (0..=255).collect();
    let hex: String = bytes.iter().map(|b| format!("{b:02x}")).collect();
    assert_eq!(decode_hex(&hex).as_ref(), Ok(&bytes));
    assert_eq!(decode_hex(&format!("\t {}\r\n", hex.to_uppercase())), Ok(bytes));
}

#[test]
fn a_new_comment_from_me_prints() {
    let e = event("create", "[print] please", "me", None);
    assert!(matches!(e.verdict("me"), Verdict::Print));
}

#[test]
fn someone_elses_comment_does_not() {
    let e = event("create", "[print]", "them", None);
    assert!(matches!(e.verdict("me"), Verdict::NotYou));
}

#[test]
fn editing_a_comment_that_already_asked_does_not_reprint() {
    let e = event("update", "[print] fixed typo", "me", Some("[print] fixd typo"));
    assert!(matches!(e.verdict("me"), Verdict::MarkerWasAlreadyThere));
}

#[test]
fn adding_the_marker_in_an_edit_does_print() {
    let e = event("update", "actually, [print]", "me", Some("no marker here"));
    assert!(matches!(e.verdict("me"), Verdict::Print));
}

#[test]
fn an_edit_with_no_previous_body_is_treated_as_already_there() {
    let e = event("update", "[print]", "me", None);
    assert!(matches!(e.verdict("me"), Verdict::MarkerWasAlreadyThere));
}

#[test]
fn an_edit_that_does_not_say_what_it_changed_is_treated_as_already_there() {
    let mut e = event("update", "[print]", "me", None);
    e.updated_from = Some(UpdatedFrom { body: None });
    assert!(matches!(e.verdict("me"), Verdict::MarkerWasAlreadyThere));
}

#[test]
fn removing_a_comment_does_not_print() {
    let e = event("remove", "[print]", "me", None);
    assert!(matches!(e.verdict("me"), Verdict::Removed));
}

#[test]
fn the_marker_is_case_insensitive_and_comes_out_of_the_note() {
    let e = event("create", "[PRINT] look at this", "me", None);
    assert!(matches!(e.verdict("me"), Verdict::Print));
    assert_eq!(note("[PRINT] look at this"), "look at this");
    assert_eq!(note("[print]"), "");
    assert_eq!(note("before [print] after"), "before  after");
}

#[test]
fn a_replay_from_last_week_is_not_fresh() {
    let mut e = event("create", "[print]", "me", None);
    e.webhook_timestamp = Some(1_000_000);
    assert!(!e.is_fresh(1_000_000 + 10 * 60_000));
    assert!(e.is_fresh(1_000_000 + 5_000));
}

#[test]
fn the_window_is_a_minute_either_way() {
    let mut e = event("create", "[print]", "me", None);
    assert!(e.is_fresh(i64::MAX));
    e.webhook_timestamp = Some(1_000_000);
    assert!(e.is_fresh(1_000_000 + 59_999));
    assert!(!e.is_fresh(1_000_000 + 60_000));
    assert!(e.is_fresh(1_000_000 - 59_999));
    assert!(!e.is_fresh(1_000_000 - 60_000));
    e.webhook_timestamp = Some(i64::MIN);
    assert!(!e.is_fresh(i64::MAX));
    assert!(e.is_fresh(i64::MIN));
    e.webhook_timestamp = Some(i64::MAX);
    assert!(!e.is_fresh(i64::MIN));
    assert_eq!(MAX_CLOCK_SKEW_MS, 60_000);
    assert_eq!(DEADLINE_SECS, 5);
}

#[test]
fn an_event_that_is_not_a_comment_does_not_print() {
    let mut e = event("create", "[print]", "me", None);
    e.kind = "Issue".into();
    assert_eq!(e.verdict("me"), Verdict::NotAComment);
    e.kind = "Comment".into();
    e.data.user_id = None;
    assert_eq!(e.verdict("me"), Verdict::NotYou);
    let e = event("create", "print", "me", None);
    assert_eq!(e.verdict("me"), Verdict::NoMarker);
}

#[test]
fn escaped_punctuation_is_read_as_typed() {
    assert!(has_marker("\\[print\\]"));
    assert!(has_marker("please \\[Print\\] this"));
    assert!(!has_marker("\\\\[prin\\\\t]"));
    assert_eq!(note("\\[print\\] 1\\. bins \\- out"), "1. bins - out");
    assert_eq!(unescape("a\\b \\* \\\\ c\\"), "a\\b * \\ c\\");
    let e = event("update", "\\[print\\] fixed", "me", Some("\\[print\\] fixd"));
    assert_eq!(e.verdict("me"), Verdict::MarkerWasAlreadyThere);
}

#[test]
fn the_marker_is_found_wherever_it_stands() {
    assert_eq!(MARKER, "[print]");
    assert!(has_marker("[print]"));
    assert!(has_marker("x[pRiNt]y"));
    assert!(has_marker("[print[print]"));
    assert!(!has_marker("[print"));
    assert!(!has_marker("print]"));
    assert!(!has_marker("[pr\u{130}nt]"));
    assert!(!has_marker(""));
    assert_eq!(note("[print][PRINT] twice [print]"), "twice");
    assert_eq!(note("[pri[print]nt]"), "[print]");
    assert_eq!(note("\u{130} [print] \u{1f5a8}"), "\u{130}  \u{1f5a8}");
}

#[test]
fn no_other_character_lowers_to_one_of_the_marker() {
    for c in '\0'..=char::MAX {
        let low: Vec<char> = c.to_lowercase().collect();
        if low.len() == 1 && MARKER.contains(low[0]) {
            assert!(c.is_ascii());
        }
    }
}

#[test]
fn verdicts_and_errors_have_words() {
    assert_eq!(Verdict::Print.describe(), "printing");
    assert_eq!(Verdict::NotAComment.describe(), "not a comment event");
    assert_eq!(Verdict::NoMarker.describe(), "no marker in the comment");
    assert_eq!(
        Verdict::MarkerWasAlreadyThere.describe(),
        "marker was already there before this edit"
    );
    assert_eq!(Verdict::NotYou.describe(), "someone else's comment");
    assert_eq!(Verdict::Removed.describe(), "comment was removed");
    assert_eq!(Error::Http("x".into()).message(), "talking to Linear: x");
    assert_eq!(Error::Api("y".into()).message(), "Linear said: y");
    assert_eq!(Error::NotFound.message(), "no such issue");
}

#[test]
fn labels_are_their_names() {
    let mut i = an_issue();
    assert!(i.label_names().is_empty());
    i.labels = Some(Nodes {
        nodes: vec![Named { name: "bug".into() }, Named { name: "home".into() }],
    });
    assert_eq!(i.label_names(), vec!["bug", "home"]);
}

#[test]
fn replies_of_the_api_are_read() {
    assert!(matches!(answer::<u8>(Some("bad".into()), Some(1)), Err(Error::Api(e)) if e == "bad"));
    assert!(matches!(answer(None, Some(1u8)), Ok(1)));
    assert!(matches!(answer::<u8>(None, None), Err(Error::NotFound)));

    assert!(matches!(viewer(None, Some("n".into())), Err(Error::NotFound)));
    let (id, name) = viewer(Some("i".into()), None).ok().unwrap();
    assert_eq!((id.as_str(), name.as_str()), ("i", "(unnamed)"));
    let (id, name) = viewer(Some("i".into()), Some("n".into())).ok().unwrap();
    assert_eq!((id.as_str(), name.as_str()), ("i", "n"));

    assert!(matches!(issue(Found::Nothing), Err(Error::NotFound)));
    assert!(matches!(issue(Found::Unreadable("why".into())), Err(Error::Api(e)) if e == "why"));
    assert_eq!(issue(Found::Issue(an_issue())).ok().unwrap().identifier, "ENG-1");
}
