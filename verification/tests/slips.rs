use receipt::device::{Endpoint, Interface};
use receipt::jobs::{
    by_name, centred, compose_art_sheet, compose_picture, compose_sheet, print_task, text_source,
    Art, Banner, Sheet, Source, BANNER_DOTS, SAMPLES,
};
use receipt::linear::{Issue, Named, Nodes};
use receipt::printer::{Font, Printer};
use receipt::raster::Bits;
use receipt::server::clean;
use receipt::slips::{compose, compose_issue, field, truncate, DESCRIPTION_CHARS};

fn job(lay_out: impl Fn(&mut Printer)) -> Vec<u8> {
    let out = Endpoint { address: 1, bulk: true, out: true, max_packet: 64 };
    let interfaces = [Interface { number: 0, settings: vec![vec![out]] }];
    let mut p = Printer::open(&interfaces).ok().unwrap();
    lay_out(&mut p);
    p.pending().to_vec()
}

fn rule() -> Vec<u8> {
    let mut line = vec![0xcd; 48];
    line.push(b'\n');
    line
}

fn concat(parts: &[&[u8]]) -> Vec<u8> {
    parts.concat()
}

fn sheet() -> Sheet {
    Sheet {
        title: None,
        font: Font::A,
        tight: false,
        invert: false,
        big: false,
        raw: false,
        qr: None,
        no_cut: false,
    }
}

fn an_issue() -> Issue {
    Issue {
        identifier: "ENG-1".into(),
        title: "Fix the thing that is much too long".into(),
        description: None,
        priority_label: None,
        estimate: None,
        due_date: None,
        state: None,
        assignee: None,
        project: None,
        labels: None,
    }
}

#[test]
fn a_submission_without_a_name() {
    let wanted = concat(&[
        b"\x1b@\x1ba\x00", &rule(), b"\x1bd\x01", b"hello\n", b"\x1bd\x01", &rule(),
        b"\x1bM\x01\x1b!\x00", b"\x1ba\x02Mon  1 Jan 10:00\n", b"\x1ba\x00\x1bM\x00",
        b"\x1bd\x03\x1dVA\x04",
    ]);
    assert_eq!(job(|p| compose(p, "hello", "", "Mon  1 Jan 10:00")), wanted);
}

#[test]
fn a_submission_with_a_name() {
    let foot = format!("from Kate{}Mon\n", " ".repeat(36));
    let wanted = concat(&[
        b"\x1b@\x1ba\x00", &rule(), b"\x1bd\x01", b"a\nb\n", b"\x1bd\x01", &rule(),
        b"\x1bM\x01\x1b!\x00", foot.as_bytes(), b"\x1ba\x00\x1bM\x00", b"\x1bd\x03\x1dVA\x04",
    ]);
    assert_eq!(job(|p| compose(p, "a\nb", "Kate", "Mon")), wanted);
}

#[test]
fn a_cleaned_message_cannot_command_the_printer() {
    let text = clean("\x1b@\x1dVA\x04 hello \u{9b}\r\n there \u{e9}");
    for b in job(|p| { p.text_wrapped(&text, 5); }) {
        assert!(b == b'\n' || (b >= 0x20 && b != 0x7f));
    }
    let name = clean("Ka\x1bte\n\x07");
    for b in job(|p| { p.columns(&format!("from {name}"), "Mon"); }) {
        assert!(b == b'\n' || (b >= 0x20 && b != 0x7f));
    }
}

#[test]
fn fields_line_up_and_empty_ones_cost_nothing() {
    assert_eq!(job(|p| field(p, "Due", Some("today"))), b"Due        today\n");
    assert_eq!(job(|p| field(p, "A label of its own", Some("x"))), b"A label of its ownx\n");
    assert_eq!(job(|p| field(p, "Due", Some(" \t"))), b"");
    assert_eq!(job(|p| field(p, "Due", None)), b"");
}

#[test]
fn long_texts_are_cut_and_say_so() {
    assert_eq!(truncate("  short ", 5), "short");
    assert_eq!(truncate("exactly", 7), "exactly");
    assert_eq!(truncate("one two three", 8), "one two\u{2026}");
    assert_eq!(truncate("\u{e9}\u{e9}\u{e9}", 2), "\u{e9}\u{e9}\u{2026}");
    assert_eq!(truncate("abc", 0), "\u{2026}");
    assert_eq!(truncate("", 0), "");
    assert_eq!(DESCRIPTION_CHARS, 400);
}

#[test]
fn a_bare_issue() {
    let head = format!("ENG-1{}\n", " ".repeat(43));
    let wanted = concat(&[
        b"\x1b@\x1ba\x00", &rule(), head.as_bytes(), &rule(), b"\x1bd\x01",
        b"\x1b!\x38\x1b3\x30", b"Fix the thing that is\nmuch too long\n", b"\x1b2\x1b!\x00",
        b"\x1bd\x01", b"\x1bd\x01", &rule(), b"\x1bM\x01\x1ba\x01", b"10:00 Mon\n",
        b"\x1ba\x00\x1bM\x00", b"\x1bd\x03\x1dVA\x04",
    ]);
    assert_eq!(job(|p| compose_issue(p, &an_issue(), "", "10:00 Mon")), wanted);
}

#[test]
fn a_full_issue() {
    let mut issue = an_issue();
    issue.title = "Fix".into();
    issue.priority_label = Some("High".into());
    issue.state = Some(Named { name: "Todo".into() });
    issue.assignee = Some(Named { name: "Kate".into() });
    issue.estimate = Some("3".into());
    issue.due_date = Some("2026-01-01".into());
    issue.project = Some(Named { name: " ".into() });
    issue.labels = Some(Nodes {
        nodes: vec![Named { name: "bug".into() }, Named { name: "home".into() }],
    });
    issue.description = Some(format!("\n{}", "d".repeat(401)));
    let head = format!("ENG-1{}High\n", " ".repeat(39));
    let full = "d".repeat(48);
    let mut description = String::new();
    for _ in 0..8 {
        description.push_str(&full);
        description.push('\n');
    }
    // What the code page does not have, the mark that it was cut among it, is a
    // question mark.
    description.push_str(&format!("{}?\n", "d".repeat(16)));
    let wanted = concat(&[
        b"\x1b@\x1ba\x00", &rule(), head.as_bytes(), &rule(), b"\x1bd\x01",
        b"\x1b!\x38\x1b3\x30", b"Fix\n", b"\x1b2\x1b!\x00", b"\x1bd\x01",
        b"State      Todo\n", b"Assignee   Kate\n", b"Estimate   3\n", b"Due        2026-01-01\n",
        b"Labels     bug, home\n", b"\x1bd\x01", description.as_bytes(), b"\x1bd\x01",
        b"> one\n", b"> \n", b"> two\n", b"\x1bd\x01", &rule(), b"\x1bM\x01\x1ba\x01", b"now\n",
        b"\x1ba\x00\x1bM\x00", b"\x1bd\x03\x1dVA\x04",
    ]);
    assert_eq!(job(|p| compose_issue(p, &issue, "one\r\n\ntwo", "now")), wanted);
}

#[test]
fn a_plain_sheet() {
    let wanted = b"\x1b@\x1bM\x00hello\nthere\n\x1b!\x00\x1dB\x00\x1b2\x1bd\x02\x1dVA\x04";
    assert_eq!(job(|p| compose_sheet(p, &sheet(), "hello\nthere\n\n")), wanted);
}

#[test]
fn a_sheet_with_everything() {
    let all = Sheet {
        title: Some("TODO".into()),
        font: Font::B,
        tight: true,
        invert: true,
        big: true,
        raw: false,
        qr: Some("hi".into()),
        no_cut: true,
    };
    let words = format!("{} end", "w".repeat(30));
    let wanted = concat(&[
        b"\x1b@", b"\x1ba\x01\x1b!\x38TODO\n\x1b!\x00\n\x1ba\x00", b"\x1bM\x01", b"\x1b3\x22",
        b"\x1dB\x01", b"\x1b!\x30", "w".repeat(30).as_bytes(), b"\nend\n", b"\x1b!\x00\x1dB\x00\x1b2",
        b"\x1bd\x01\x1ba\x01", &job(|p| { p.qr("hi", 6); }), b"\x1ba\x00", b"\x1bd\x02",
    ]);
    assert_eq!(job(|p| compose_sheet(p, &all, &words)), wanted);
}

#[test]
fn a_raw_sheet_is_not_wrapped() {
    let raw = Sheet { raw: true, tight: true, ..sheet() };
    let line = "x".repeat(60);
    let wanted = concat(&[
        b"\x1b@\x1bM\x00\x1b3\x18", line.as_bytes(), b"\n\x1b!\x00\x1dB\x00\x1b2\x1bd\x02\x1dVA\x04",
    ]);
    assert_eq!(job(|p| compose_sheet(p, &raw, &line)), wanted);
}

fn piece() -> Bits {
    Bits { width: 8, height: 2, row_bytes: 1, data: vec![0xaa, 0x55] }
}

#[test]
fn a_picture_on_its_own() {
    let wanted = b"\x1b@\x1dv0\x00\x01\x00\x02\x00\xaa\x55\x1bd\x02\x1dVA\x04";
    assert_eq!(job(|p| compose_picture(p, &piece(), false)), wanted);
    assert_eq!(job(|p| compose_picture(p, &piece(), true)), &wanted[..wanted.len() - 4]);
}

fn drawing(name: &str, width: usize) -> Art {
    Art {
        name: name.into(),
        title: "A Cat".into(),
        artist: "jgs".into(),
        width,
        height: 2,
        art: "/\\\n\\/".into(),
    }
}

#[test]
fn a_drawing_is_listed_with_its_credit() {
    let line = drawing("cat", 7).listing();
    assert_eq!(line, format!("{:<28} {:>2}x{:<2}  A Cat (by jgs)", "cat", 7, 2));
    assert_eq!(line, format!("cat{}7x2   A Cat (by jgs)", " ".repeat(27)));
    let long = "n".repeat(30);
    let wide = Art { height: 120, ..drawing(&long, 100) };
    assert_eq!(wide.listing(), format!("{long} 100x120  A Cat (by jgs)"));
    let accents = drawing("\u{e9}\u{e9}", 24).listing();
    assert_eq!(accents, format!("{:<28} 24x2   A Cat (by jgs)", "\u{e9}\u{e9}"));
}

#[test]
fn a_drawing_is_found_by_its_name() {
    let pieces = [drawing("cat", 7), drawing("dog", 8), drawing("dog", 9)];
    assert_eq!(by_name(&pieces, "cat"), Some(0));
    assert_eq!(by_name(&pieces, "dog"), Some(1));
    assert_eq!(by_name(&pieces, "Dog"), None);
    assert_eq!(by_name(&[], "dog"), None);
}

#[test]
fn a_sheet_shows_the_drawings_that_fit() {
    let pieces = [drawing("cat", 24), drawing("whale", 25), drawing("dog", 0)];
    let wanted = concat(&[
        b"\x1b@\x1b3\x18",
        b"\x1b!\x08A Cat  [cat]\n\x1b!\x00/\\\n\\/\n\x1bd\x01",
        b"\x1b!\x08A Cat  [dog]\n\x1b!\x00/\\\n\\/\n\x1bd\x01",
        b"\x1b2\x1bd\x02\x1dVA\x04",
    ]);
    assert_eq!(job(|p| compose_art_sheet(p, &pieces)), wanted);
    assert_eq!(job(|p| compose_art_sheet(p, &[])), b"\x1b@\x1b3\x18\x1b2\x1bd\x02\x1dVA\x04");
}

#[test]
fn a_sheet_is_full_at_a_dozen() {
    let mut pieces = vec![drawing("too wide", 30)];
    for i in 0..SAMPLES + 3 {
        pieces.push(drawing(&i.to_string(), 10));
    }
    let printed = job(|p| compose_art_sheet(p, &pieces));
    let text = String::from_utf8(printed).unwrap();
    for i in 0..SAMPLES + 3 {
        assert_eq!(text.contains(&format!("[{i}]")), i < 12);
    }
}

#[test]
fn a_task_slip_with_a_piece() {
    assert_eq!(BANNER_DOTS, 240);
    let wanted = concat(&[
        b"\x1b@\x1ba\x00", &rule(), &rule(), b"\x1bd\x01",
        b"\x1dv0\x00\x01\x00\x02\x00\xaa\x55", b"\x1bd\x01", b"\x1ba\x01\x1b!\x38",
        b"take the bins out\n", b"\x1b!\x00\x1ba\x00", b"\x1bd\x01", &rule(), &rule(),
        b"\x1bd\x03\x1dVA\x04",
    ]);
    assert_eq!(job(|p| print_task(p, " take the bins out\n", Banner::Piece(&piece()))), wanted);
}

#[test]
fn a_task_slip_with_a_drawing() {
    let wanted = concat(&[
        b"\x1b@\x1ba\x00", &rule(), &rule(), b"\x1bd\x01", b"\x1b!\x30\x1b3\x30",
        b"           /\\\n          /  \\\n", b"\x1b2\x1b!\x00", b"\x1bd\x01", b"\x1ba\x01\x1b!\x38",
        b"wwwwwwwwwwwwwwwwwwwwwww\nw\n", b"\x1b!\x00\x1ba\x00", b"\x1bd\x01", &rule(), &rule(),
        b"\x1bd\x03\x1dVA\x04",
    ]);
    assert_eq!(job(|p| print_task(p, &"w".repeat(24), Banner::Art(" /\\\n/  \\"))), wanted);
}

#[test]
fn a_drawing_is_centred_as_a_block() {
    assert_eq!(centred("ab\nabcd\n", 10), "   ab\n   abcd\n   ");
    assert_eq!(centred("abc", 4), "abc");
    assert_eq!(centred("too wide", 3), "too wide");
    assert_eq!(centred("", 4), "  ");
}

#[test]
fn text_comes_from_a_file_or_words_or_a_pipe() {
    let words = ["buy".to_string(), "milk".to_string()];
    assert!(matches!(text_source(Some("f".into()), &words, true), Source::File(f) if f == "f"));
    assert!(matches!(text_source(None, &words, true), Source::Words(w) if w == "buy milk"));
    assert!(matches!(text_source(None, &[], true), Source::Stdin));
    assert!(matches!(
        text_source(None, &[], false),
        Source::Nothing(why)
            if why == "nothing to print \u{2014} pass text, use --file, or pipe stdin"
    ));
}
