use receipt::device::{
    blockers, find_port, is_blocking, status_request, Answer, Endpoint, Interface, Port, Query,
};
use receipt::printer::{
    encode, Align, Delivery, Error, Font, Printer, Style, PID, VID, WIDTH, WIDTH_BIG,
};
use receipt::raster::Bits;

fn endpoint(address: u8, bulk: bool, out: bool) -> Endpoint {
    Endpoint { address, bulk, out, max_packet: 512 }
}

fn printer() -> Printer {
    let interfaces = [Interface { number: 0, settings: vec![vec![endpoint(1, true, true)]] }];
    Printer::open(&interfaces).ok().unwrap()
}

fn bytes(compose: impl Fn(&mut Printer)) -> Vec<u8> {
    let mut p = printer();
    compose(&mut p);
    p.pending().to_vec()
}

fn image(width: usize, height: usize) -> Bits {
    let row_bytes = (width + 7) / 8;
    let data = (0..row_bytes * height).map(|i| (i % 251) as u8).collect();
    Bits { width, height, row_bytes, data }
}

#[test]
fn constants_are_those_of_the_printer() {
    assert_eq!((VID, PID), (0x04b8, 0x0e15));
    assert_eq!((WIDTH, WIDTH_BIG), (48, 24));
    assert_eq!((Font::A.height(), Font::A.columns()), (24, 48));
    assert_eq!((Font::B.height(), Font::B.columns()), (17, 64));
}

#[test]
fn styles_are_bits() {
    assert_eq!(Style::default().bits(), 0x00);
    assert_eq!(Style::big().bits(), 0x38);
    assert_eq!(Style { underline: true, ..Style::default() }.bits(), 0x80);
    assert_eq!(Style { bold: true, tall: true, wide: true, underline: true }.bits(), 0xb8);
}

#[test]
fn commands_are_a_few_bytes_each() {
    assert_eq!(bytes(|p| { p.init(); }), b"\x1b@");
    assert_eq!(bytes(|p| { p.align(Align::Left); }), b"\x1ba\x00");
    assert_eq!(bytes(|p| { p.align(Align::Centre); }), b"\x1ba\x01");
    assert_eq!(bytes(|p| { p.align(Align::Right); }), b"\x1ba\x02");
    assert_eq!(bytes(|p| { p.font(Font::A); }), b"\x1bM\x00");
    assert_eq!(bytes(|p| { p.font(Font::B); }), b"\x1bM\x01");
    assert_eq!(bytes(|p| { p.line_spacing(24); }), b"\x1b3\x18");
    assert_eq!(bytes(|p| { p.default_spacing(); }), b"\x1b2");
    assert_eq!(bytes(|p| { p.invert(true); }), b"\x1dB\x01");
    assert_eq!(bytes(|p| { p.invert(false); }), b"\x1dB\x00");
    assert_eq!(bytes(|p| { p.style(Style::big()); }), b"\x1b!\x38");
    assert_eq!(bytes(|p| { p.feed(3); }), b"\x1bd\x03");
    assert_eq!(bytes(|p| { p.cut(); }), b"\x1dVA\x04");
    assert_eq!(bytes(|p| { p.raw(b"abc"); }), b"abc");
}

#[test]
fn commands_follow_one_another() {
    assert_eq!(bytes(|p| { p.init().align(Align::Centre).feed(1).cut(); }), b"\x1b@\x1ba\x01\x1bd\x01\x1dVA\x04");
}

#[test]
fn text_goes_out_in_code_page_437() {
    assert_eq!(encode("Az~\x7f\n"), b"Az~\x7f\n");
    assert_eq!(
        encode("\u{2500}\u{2550}\u{2588}\u{2584}\u{2580}\u{2591}\u{2592}\u{2593}"),
        vec![0xc4, 0xcd, 0xdb, 0xdc, 0xdf, 0xb0, 0xb1, 0xb2]
    );
    assert_eq!(encode("\u{e9}\u{1f5a8}\u{80}"), b"???");
}

#[test]
fn raw_text_keeps_its_lines() {
    assert_eq!(bytes(|p| { p.text_raw("a\n\nb"); }), b"a\n\nb\n");
    assert_eq!(bytes(|p| { p.text_raw(""); }), b"\n");
    let long = "x".repeat(100);
    assert_eq!(bytes(|p| { p.text_raw(&long); }), format!("{long}\n").into_bytes());
}

#[test]
fn text_is_wrapped_to_the_paper() {
    let word = "y".repeat(40);
    assert_eq!(
        bytes(|p| { p.text(&format!("{word} {word}\nz")); }),
        format!("{word}\n{word}\nz\n").into_bytes()
    );
    assert_eq!(bytes(|p| { p.text_wrapped("one two", 3); }), b"one\ntwo\n");
    assert_eq!(bytes(|p| { p.text(""); }), b"\n");
    assert_eq!(bytes(|p| { p.text_wrapped("\n\n", 0); }), b"\n\n\n");
    assert_eq!(bytes(|p| { p.text_wrapped("\n  \n", 0); }), b"\n\n");
}

#[test]
fn a_rule_fills_the_line() {
    let mut wanted = vec![0xcd; 48];
    wanted.push(b'\n');
    assert_eq!(bytes(|p| { p.rule('\u{2550}'); }), wanted);
}

#[test]
fn columns_stand_at_the_edges() {
    let line = |left: &str, right: &str| {
        let all = bytes(|p| { p.columns(left, right); });
        String::from_utf8(all).unwrap()
    };
    assert_eq!(line("ENG-1", "High"), format!("ENG-1{}High\n", " ".repeat(39)));
    assert_eq!(line(&"l".repeat(60), "r"), format!("{} r\n", "l".repeat(46)));
    assert_eq!(line("", ""), format!("{}\n", " ".repeat(48)));
    assert_eq!(line("left", &"r".repeat(47)), format!(" {}\n", "r".repeat(47)));
    assert_eq!(line("left", &"r".repeat(50)), format!("{}\n", "r".repeat(50)));
}

#[test]
fn a_qr_code_is_stored_and_printed() {
    let mut wanted = Vec::new();
    wanted.extend_from_slice(&[0x1d, b'(', b'k', 4, 0, 49, 65, 50, 0]);
    wanted.extend_from_slice(&[0x1d, b'(', b'k', 3, 0, 49, 67, 6]);
    wanted.extend_from_slice(&[0x1d, b'(', b'k', 3, 0, 49, 69, 48]);
    wanted.extend_from_slice(&[0x1d, b'(', b'k', 5, 0, 49, 80, 48]);
    wanted.extend_from_slice("\u{e9}".as_bytes());
    wanted.extend_from_slice(&[0x1d, b'(', b'k', 3, 0, 49, 81, 48]);
    assert_eq!(bytes(|p| { p.qr("\u{e9}", 6); }), wanted);
    let long = "q".repeat(300);
    let all = bytes(|p| { p.qr(&long, 3); });
    assert_eq!(&all[25..33], &[0x1d, b'(', b'k', (303 & 0xff) as u8, 1, 49, 80, 48]);
}

#[test]
fn an_image_goes_out_in_bands() {
    let bits = image(20, 300);
    let all = bytes(|p| { p.image(&bits); });
    let mut wanted = Vec::new();
    for (start, rows) in [(0usize, 128usize), (128, 128), (256, 44)] {
        wanted.extend_from_slice(&[0x1d, b'v', b'0', 0, 3, 0, rows as u8, 0]);
        wanted.extend_from_slice(&bits.data[start * 3..(start + rows) * 3]);
    }
    assert_eq!(all, wanted);
    assert_eq!(bytes(|p| { p.image(&image(8, 0)); }), b"");
    let wide = image(2056, 1);
    assert_eq!(&bytes(|p| { p.image(&wide); })[..8], &[0x1d, b'v', b'0', 0, 1, 1, 1, 0]);
}

#[test]
fn the_first_bulk_endpoint_out_is_printed_to() {
    let device = [
        Interface { number: 7, settings: vec![vec![endpoint(0x81, true, false)]] },
        Interface {
            number: 3,
            settings: vec![
                vec![endpoint(0x01, false, true)],
                vec![
                    endpoint(0x82, false, false),
                    endpoint(0x02, true, true),
                    endpoint(0x83, true, false),
                    endpoint(0x04, true, true),
                    endpoint(0x85, true, false),
                ],
                vec![endpoint(0x06, true, true)],
            ],
        },
    ];
    let wanted = Port { interface: 3, ep_out: 0x02, ep_in: Some(0x83), in_max_packet: 512 };
    assert!(find_port(&device) == Some(wanted));
    let one_way = [Interface { number: 0, settings: vec![vec![endpoint(0x01, true, true)]] }];
    let wanted = Port { interface: 0, ep_out: 0x01, ep_in: None, in_max_packet: 64 };
    assert!(Printer::open(&one_way).ok().unwrap().port() == wanted);
}

#[test]
fn a_device_without_a_bulk_endpoint_out_is_not_found() {
    let device = [Interface { number: 0, settings: vec![vec![endpoint(0x81, true, false)], vec![]] }];
    assert!(matches!(Printer::open(&device), Err(Error::NotFound)));
    assert!(matches!(Printer::open(&[]), Err(Error::NotFound)));
}

#[test]
fn a_status_request_is_worth_three_reads() {
    assert_eq!(status_request(4), [0x10, 0x04, 4]);
    let mut q = Query::new();
    assert!(q.read(None) == Answer::Again);
    assert!(q.read(Some(&[])) == Answer::Again);
    assert!(q.read(None) == Answer::Silent);
    let mut q = Query::new();
    assert!(q.read(Some(&[1, 2, 0x16])) == Answer::Byte(0x16));
}

#[test]
fn status_bytes_are_complaints() {
    assert!(Printer::status(None, None, None).is_empty());
    assert!(Printer::status(Some(0x16), Some(0x12), Some(0x12)).is_empty());
    assert_eq!(
        Printer::status(Some(0x08), Some(0x60), Some(0x44)),
        vec![
            "printer is offline",
            "out of paper",
            "cover is open",
            "printer is in an error state"
        ]
    );
    assert_eq!(Printer::status(None, Some(0x0c), None), vec!["paper nearly out"]);
    assert_eq!(Printer::status(None, Some(0x04), None), vec!["paper nearly out"]);
    assert_eq!(Printer::status(None, Some(0x6c), None), vec!["out of paper"]);
}

#[test]
fn warnings_do_not_stop_a_print() {
    assert!(!is_blocking("paper nearly out"));
    assert!(!Printer::is_blocking("printer is offline"));
    assert!(Printer::is_blocking("cover is open"));
    assert!(is_blocking("out of paper"));
    assert!(is_blocking("printer is in an error state"));
    assert!(Printer::blockers(Some(0x08), Some(0x0c), Some(0)).is_empty());
    assert_eq!(
        Printer::blockers(Some(0x08), Some(0x60), Some(0x44)),
        vec!["out of paper", "cover is open", "printer is in an error state"]
    );
    let all = ["paper nearly out".to_string(), "cover is open".to_string()];
    assert_eq!(blockers(&all), vec!["cover is open"]);
}

#[test]
fn a_job_that_was_taken_is_done_with() {
    let mut p = printer();
    assert!(matches!(p.send(Delivery::Failed("never tried".into())), Ok(0)));
    p.raw(b"abc");
    assert!(matches!(p.send(Delivery::Failed("gone".into())), Err(Error::Usb(e)) if e == "gone"));
    assert_eq!(p.pending(), b"abc");
    let problems = vec!["cover is open".to_string()];
    assert!(matches!(p.send(Delivery::TimedOut(problems)), Err(Error::Stalled(w)) if w.len() == 1));
    assert_eq!(p.pending(), b"abc");
    assert!(matches!(p.send(Delivery::Written(3)), Ok(3)));
    assert_eq!(p.pending(), b"");
}

#[test]
fn errors_have_words() {
    assert_eq!(
        Error::NotFound.message(),
        "TM-T20II not found on USB \u{2014} is it powered on and plugged in?"
    );
    assert_eq!(Error::Usb("Pipe error".into()).message(), "USB error: Pipe error");
    assert_eq!(
        Error::Stalled(vec![]).message(),
        "printer would not accept data: it stopped responding (check the cover is latched and paper is loaded)"
    );
    assert_eq!(
        Error::Stalled(vec!["out of paper".into(), "cover is open".into()]).message(),
        "printer would not accept data: out of paper, cover is open"
    );
}
