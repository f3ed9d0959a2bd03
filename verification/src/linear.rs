//! Linear, as much of it as printing needs: verifying that a webhook came from
//! Linear, working out whether a comment asked for a print, and reading the
//! replies of its API.
//!
//! A comment webhook carries only an issue id, so the issue itself has to be
//! fetched: which is why printing needs an API key and not just the signing
//! secret.

use crate::text;
use crate::text::{chars_of, punctuation, same, same_but_for_case, string_of, trim_of};
use hmac::{Hmac, Mac};
use sha2::Sha256;
use vstd::prelude::*;
use vstd::slice::slice_subrange;
use vstd::string::StringSliceAdditionalSpecFns;

verus! {

/// The marker that asks for a print. Deliberately bracketed so it is hard to
/// write by accident and easy to spot in a comment.
pub const MARKER: &'static str = "[print]";

/// Linear gives up on a webhook it cannot deliver, so a receiver has to answer
/// inside this. The answer goes out well before it, and the print comes after.
pub const DEADLINE_SECS: u64 = 5;

/// How far apart the webhook's own clock and ours may be. Linear's guidance.
pub const MAX_CLOCK_SKEW_MS: i64 = 60_000;

/// Why an issue could not be had.
pub enum Error {
    Http(String),
    Api(String),
    NotFound,
}

impl Error {
    /// The error in words.
    pub open spec fn words(self) -> Seq<char> {
        match self {
            Error::Http(why) => "talking to Linear: "@ + why@,
            Error::Api(why) => "Linear said: "@ + why@,
            Error::NotFound => "no such issue"@,
        }
    }

    /// The error in words, for the log.
    pub fn message(&self) -> (r: String)
        ensures
            r@ == self.words(),
    {
        match self {
            Error::Http(why) => {
                let mut out = "talking to Linear: ".to_string();
                out.append(why.as_str());
                out
            },
            Error::Api(why) => {
                let mut out = "Linear said: ".to_string();
                out.append(why.as_str());
                out
            },
            Error::NotFound => "no such issue".to_string(),
        }
    }
}

// --- the signature ---------------------------------------------------------

/// The HMAC-SHA256 of a message under a key.
pub uninterp spec fn hmac_sha256(key: Seq<u8>, message: Seq<u8>) -> Seq<u8>;

/// `Hmac::<Sha256>::new_from_slice`, `update` and `verify_slice`: the key may be of
/// any length, and the tag is accepted where it is, byte for byte and in length,
/// the HMAC-SHA256 of the message, which is 32 bytes long. The time that takes
/// does not depend on how much of the tag is right; no clause speaks of time.
#[verifier::external_body]
fn tag_is_right(key: &[u8], message: &[u8], tag: &[u8]) -> (r: bool)
    ensures
        r == (tag@ == hmac_sha256(key@, message@)),
        r ==> tag@.len() == 32,
{
    match Hmac::<Sha256>::new_from_slice(key) {
        Ok(mut mac) => {
            mac.update(message);
            mac.verify_slice(tag).is_ok()
        },
        Err(_) => false,
    }
}

/// The value of a hexadecimal digit.
pub open spec fn hex_value(c: char) -> Option<nat> {
    let n = c as nat;
    if 0x30 <= n <= 0x39 {
        Some((n - 0x30) as nat)
    } else if 0x41 <= n <= 0x46 {
        Some((n - 0x41 + 10) as nat)
    } else if 0x61 <= n <= 0x66 {
        Some((n - 0x61 + 10) as nat)
    } else {
        None
    }
}

/// The byte that two characters write: two hexadecimal digits, or a plus sign and
/// one digit.
pub open spec fn hex_byte(high: char, low: char) -> Option<u8> {
    match (hex_value(high), hex_value(low)) {
        (Some(h), Some(l)) => Some((16 * h + l) as u8),
        (None, Some(l)) if high == '+' => Some(l as u8),
        _ => None,
    }
}

/// The bytes that a text writes in hexadecimal, two characters for each.
pub open spec fn decoded(s: Seq<char>) -> Option<Seq<u8>>
    decreases s.len(),
{
    if s.len() == 0 {
        Some(Seq::empty())
    } else if s.len() == 1 {
        None
    } else {
        let before = decoded(s.take(s.len() - 2));
        match (before, hex_byte(s[s.len() - 2], s[s.len() - 1])) {
            (Some(bytes), Some(b)) => Some(bytes.push(b)),
            _ => None,
        }
    }
}

/// The two digits that write a byte.
pub open spec fn hex_digits(b: u8) -> Seq<char> {
    seq![hex_digit((b / 16) as nat), hex_digit((b % 16) as nat)]
}

pub open spec fn hex_digit(d: nat) -> char {
    if d < 10 {
        (0x30 + d) as char
    } else {
        (0x61 + d - 10) as char
    }
}

/// The bytes in hexadecimal, two small digits for each.
pub open spec fn in_hex(bytes: Seq<u8>) -> Seq<char>
    decreases bytes.len(),
{
    if bytes.len() == 0 {
        Seq::empty()
    } else {
        in_hex(bytes.drop_last()) + hex_digits(bytes.last())
    }
}

/// Whether a text writes the bytes in hexadecimal, in small digits or capitals.
pub open spec fn writes(written: Seq<char>, bytes: Seq<u8>) -> bool {
    text::same_ignoring_case(written, in_hex(bytes))
}

/// Reading hexadecimal gives back the bytes that were written in it, in small digits
/// or capitals and with whatever white space around them.
pub proof fn decoding_reads_hex_back(
    bytes: Seq<u8>,
    before: Seq<char>,
    written: Seq<char>,
    after: Seq<char>,
)
    requires
        writes(written, bytes),
        forall|i: int| 0 <= i < before.len() ==> text::is_space(#[trigger] before[i]),
        forall|i: int| 0 <= i < after.len() ==> text::is_space(#[trigger] after[i]),
    ensures
        decoded(written) == Some(bytes),
        decoded(text::trimmed(before + written + after)) == Some(bytes),
{
    lemma_reads_back(bytes, written);
    lemma_no_space_in_hex(bytes);
    if written.len() > 0 {
        let hex = in_hex(bytes);
        assert(text::folded(written[0]) == text::folded(hex[0]));
        assert(text::folded(written[written.len() - 1]) == text::folded(hex[hex.len() - 1]));
    }
    text::trimming_finds_the_text(before, written, after);
}

proof fn lemma_digit_in_either_case(c: char, d: nat)
    requires
        d < 16,
        text::folded(c) == text::folded(hex_digit(d)),
    ensures
        hex_value(c) == Some(d),
{
    assert(hex_digit(d) as nat == if d < 10 {
        0x30 + d
    } else {
        (0x61 + d - 10) as nat
    });
    assert(text::folded(c) == hex_digit(d) as nat);
}

proof fn lemma_reads_back(bytes: Seq<u8>, written: Seq<char>)
    requires
        writes(written, bytes),
    ensures
        decoded(written) == Some(bytes),
    decreases bytes.len(),
{
    let hex = in_hex(bytes);
    if bytes.len() == 0 {
        assert(bytes =~= Seq::empty());
    } else {
        let fewer = bytes.drop_last();
        let (high, low) = ((bytes.last() / 16) as nat, (bytes.last() % 16) as nat);
        let n = written.len() as int;
        let start = written.take(n - 2);
        assert(hex.take(n - 2) =~= in_hex(fewer));
        assert forall|i: int| 0 <= i < start.len() implies text::folded(#[trigger] start[i])
            == text::folded(in_hex(fewer)[i]) by {
            assert(start[i] == written[i]);
            assert(in_hex(fewer)[i] == hex[i]);
        }
        lemma_reads_back(fewer, start);
        assert(hex[n - 2] == hex_digit(high) && hex[n - 1] == hex_digit(low));
        assert(text::folded(written[n - 2]) == text::folded(hex[n - 2]));
        assert(text::folded(written[n - 1]) == text::folded(hex[n - 1]));
        lemma_digit_in_either_case(written[n - 2], high);
        lemma_digit_in_either_case(written[n - 1], low);
        assert(fewer.push(bytes.last()) =~= bytes);
    }
}

fn hex_value_of(c: char) -> (r: Option<u8>)
    ensures
        match hex_value(c) {
            Some(v) => r == Some(v as u8) && v < 16,
            None => r is None,
        },
{
    let n: u32 = c as u32;
    if 0x30 <= n && n <= 0x39 {
        Some((n - 0x30) as u8)
    } else if 0x41 <= n && n <= 0x46 {
        Some((n - 0x41 + 10) as u8)
    } else if 0x61 <= n && n <= 0x66 {
        Some((n - 0x61 + 10) as u8)
    } else {
        None
    }
}

fn hex_byte_of(high: char, low: char) -> (r: Option<u8>)
    ensures
        r == hex_byte(high, low),
{
    match (hex_value_of(high), hex_value_of(low)) {
        (Some(h), Some(l)) => Some(16 * h + l),
        (None, Some(l)) => if high == '+' {
            Some(l)
        } else {
            None
        },
        _ => None,
    }
}

proof fn lemma_decoded_needs_every_pair(s: Seq<char>, i: int)
    requires
        0 <= i,
        2 * i + 1 < s.len(),
        hex_byte(s[2 * i], s[2 * i + 1]) is None,
    ensures
        decoded(s) is None,
    decreases s.len(),
{
    let shorter = s.take(s.len() - 2);
    if s.len() % 2 == 1 {
        lemma_odd_is_not_hex(s);
    } else if 2 * i + 2 < s.len() {
        lemma_decoded_needs_every_pair(shorter, i);
    }
}

proof fn lemma_odd_is_not_hex(s: Seq<char>)
    requires
        s.len() % 2 == 1,
    ensures
        decoded(s) is None,
    decreases s.len(),
{
    if s.len() > 1 {
        lemma_odd_is_not_hex(s.take(s.len() - 2));
    }
}

/// The bytes that `s` writes in hexadecimal, white space at its ends aside.
pub fn decode_hex(s: &str) -> (r: Result<Vec<u8>, ()>)
    ensures
        match decoded(text::trimmed(s@)) {
            Some(bytes) => r matches Ok(out) && out@ == bytes,
            None => r is Err,
        },
{
    let all = chars_of(s);
    let cs = trim_of(all.as_slice());
    if cs.len() % 2 != 0 {
        proof {
            lemma_odd_is_not_hex(cs@);
        }
        return Err(());
    }
    let mut out: Vec<u8> = Vec::new();
    let mut i: usize = 0;
    assert(cs@.take(0) =~= Seq::<char>::empty());
    assert(out@ =~= Seq::<u8>::empty());
    while i < cs.len()
        invariant
            cs@ == text::trimmed(s@),
            cs@.len() % 2 == 0,
            i % 2 == 0,
            i <= cs@.len(),
            decoded(cs@.take(i as int)) == Some(out@),
        decreases cs@.len() - i,
    {
        let ghost so_far = cs@.take(i + 2);
        assert(so_far.take(so_far.len() - 2) =~= cs@.take(i as int));
        match hex_byte_of(cs[i], cs[i + 1]) {
            Some(b) => {
                out.push(b);
            },
            None => {
                proof {
                    lemma_decoded_needs_every_pair(cs@, i as int / 2);
                }
                return Err(());
            },
        }
        i += 2;
    }
    assert(cs@.take(cs@.len() as int) =~= cs@);
    Ok(out)
}

/// Whether a signature header is right for a body: it writes, in hexadecimal, the
/// HMAC-SHA256 of the body as it was sent.
pub open spec fn is_signed(secret: Seq<u8>, raw_body: Seq<u8>, header: Seq<char>) -> bool {
    decoded(text::trimmed(header)) == Some(hmac_sha256(secret, raw_body))
}

proof fn lemma_two_characters_a_byte(s: Seq<char>)
    requires
        decoded(s) is Some,
    ensures
        s.len() == 2 * decoded(s)->0.len(),
    decreases s.len(),
{
    if s.len() > 0 {
        lemma_two_characters_a_byte(s.take(s.len() - 2));
    }
}

/// Nothing but hexadecimal is read as bytes: two characters for each, the second its
/// low digit, and the first its high digit, or a plus sign where that would be zero.
pub proof fn only_hexadecimal_is_decoded(s: Seq<char>, k: int)
    requires
        decoded(s) is Some,
        0 <= k < decoded(s)->0.len(),
    ensures
        s.len() == 2 * decoded(s)->0.len(),
        ({
            let byte = decoded(s)->0[k];
            &&& text::folded(s[2 * k + 1]) == text::folded(hex_digit((byte % 16) as nat))
            &&& text::folded(s[2 * k]) == text::folded(hex_digit((byte / 16) as nat)) || (s[2 * k]
                == '+' && byte < 16)
        }),
    decreases s.len(),
{
    lemma_two_characters_a_byte(s);
    let bytes = decoded(s)->0;
    if k < bytes.len() - 1 {
        only_hexadecimal_is_decoded(s.take(s.len() - 2), k);
    } else {
        lemma_value_is_its_digit(s[2 * k]);
        lemma_value_is_its_digit(s[2 * k + 1]);
    }
}

proof fn lemma_value_is_its_digit(c: char)
    ensures
        hex_value(c) matches Some(v) ==> v < 16 && text::folded(c) == text::folded(hex_digit(v)),
{
}

proof fn lemma_no_space_in_hex(bytes: Seq<u8>)
    ensures
        forall|i: int| 0 <= i < in_hex(bytes).len() ==> !text::is_space(#[trigger] in_hex(bytes)[i]),
    decreases bytes.len(),
{
    if bytes.len() > 0 {
        let before = in_hex(bytes.drop_last());
        let s = in_hex(bytes);
        lemma_no_space_in_hex(bytes.drop_last());
        assert forall|i: int| 0 <= i < s.len() implies !text::is_space(#[trigger] s[i]) by {
            if i < before.len() {
                assert(s[i] == before[i]);
            } else {
                assert(s[i] == hex_digits(bytes.last())[i - before.len()]);
            }
        }
    }
}

/// The tag of a body, written in hexadecimal, in small digits or capitals and with
/// whatever white space around it, is a signature of it.
pub proof fn the_tag_in_hex_is_a_signature(
    secret: Seq<u8>,
    raw_body: Seq<u8>,
    before: Seq<char>,
    written: Seq<char>,
    after: Seq<char>,
)
    requires
        writes(written, hmac_sha256(secret, raw_body)),
        forall|i: int| 0 <= i < before.len() ==> text::is_space(#[trigger] before[i]),
        forall|i: int| 0 <= i < after.len() ==> text::is_space(#[trigger] after[i]),
    ensures
        is_signed(secret, raw_body, before + written + after),
{
    decoding_reads_hex_back(hmac_sha256(secret, raw_body), before, written, after);
}

proof fn lemma_digits_of(bytes: Seq<u8>, k: int)
    requires
        0 <= k < bytes.len(),
    ensures
        in_hex(bytes).len() == 2 * bytes.len(),
        in_hex(bytes)[2 * k] == hex_digit((bytes[k] / 16) as nat),
        in_hex(bytes)[2 * k + 1] == hex_digit((bytes[k] % 16) as nat),
    decreases bytes.len(),
{
    let before = bytes.drop_last();
    if before.len() > 0 {
        lemma_digits_of(
            before,
            if k < before.len() {
                k
            } else {
                0
            },
        );
    } else {
        assert(in_hex(before).len() == 0);
    }
}

/// Nothing but the tag of a body is a signature of it: what is believed writes the tag in
/// hexadecimal, white space around it aside, but for a plus sign that can stand for a
/// first digit of zero.
pub proof fn only_the_tag_is_a_signature(secret: Seq<u8>, raw_body: Seq<u8>, header: Seq<char>)
    requires
        is_signed(secret, raw_body, header),
        !text::trimmed(header).contains('+'),
    ensures
        writes(text::trimmed(header), hmac_sha256(secret, raw_body)),
{
    let s = text::trimmed(header);
    let tag = hmac_sha256(secret, raw_body);
    lemma_two_characters_a_byte(s);
    if tag.len() > 0 {
        lemma_digits_of(tag, 0);
    }
    assert forall|i: int| 0 <= i < s.len() implies text::folded(#[trigger] s[i]) == text::folded(
        in_hex(tag)[i],
    ) by {
        let k = i / 2;
        only_hexadecimal_is_decoded(s, k);
        lemma_digits_of(tag, k);
        assert(s.contains(s[i]));
        assert(i == 2 * k || i == 2 * k + 1);
    }
}

/// Is this really from Linear? The signature is over the raw bytes, so this has to
/// run before the body is parsed: writing it out again would change the bytes and
/// the digest with them.
pub fn signature_matches(secret: &str, raw_body: &[u8], header: &str) -> (r: bool)
    ensures
        r == is_signed(secret.spec_bytes(), raw_body@, header@),
        r ==> text::trimmed(header@).len() == 64,
{
    proof {
        if decoded(text::trimmed(header@)) is Some {
            lemma_two_characters_a_byte(text::trimmed(header@));
        }
    }
    match decode_hex(header) {
        Ok(tag) => tag_is_right(secret.as_bytes(), raw_body, tag.as_slice()),
        Err(_) => false,
    }
}

// --- the comment -----------------------------------------------------------

/// A comment event, as far as printing goes.
pub struct CommentEvent {
    pub action: String,
    pub kind: String,
    pub data: Comment,
    pub updated_from: Option<UpdatedFrom>,
    /// When it was sent, in milliseconds.
    pub webhook_timestamp: Option<i64>,
}

pub struct Comment {
    pub id: String,
    pub body: String,
    pub issue_id: String,
    pub user_id: Option<String>,
}

/// What an edit changed: the body as it was.
pub struct UpdatedFrom {
    pub body: Option<String>,
}

/// Why a webhook did, or did not, lead to a print. Worth naming rather than a bare
/// bool: the log line is the only way to tell "ignored on purpose" from "quietly
/// broken".
#[derive(Clone, Copy, Debug, PartialEq, Eq, Structural)]
pub enum Verdict {
    Print,
    NotAComment,
    NoMarker,
    MarkerWasAlreadyThere,
    NotYou,
    Removed,
}

impl Verdict {
    pub open spec fn words(self) -> Seq<char> {
        match self {
            Verdict::Print => "printing"@,
            Verdict::NotAComment => "not a comment event"@,
            Verdict::NoMarker => "no marker in the comment"@,
            Verdict::MarkerWasAlreadyThere => "marker was already there before this edit"@,
            Verdict::NotYou => "someone else's comment"@,
            Verdict::Removed => "comment was removed"@,
        }
    }

    /// The verdict in words.
    pub fn describe(&self) -> (r: &'static str)
        ensures
            r@ == self.words(),
    {
        match self {
            Verdict::Print => "printing",
            Verdict::NotAComment => "not a comment event",
            Verdict::NoMarker => "no marker in the comment",
            Verdict::MarkerWasAlreadyThere => "marker was already there before this edit",
            Verdict::NotYou => "someone else's comment",
            Verdict::Removed => "comment was removed",
        }
    }
}

/// Markdown without its escapes: a backslash before ASCII punctuation stands for
/// that punctuation, and any other backslash for itself.
pub open spec fn unescaped(s: Seq<char>) -> Seq<char>
    decreases s.len(),
{
    if s.len() == 0 {
        Seq::empty()
    } else if s.len() >= 2 && s[0] == '\\' && text::is_punctuation(s[1]) {
        seq![s[1]] + unescaped(s.skip(2))
    } else {
        seq![s[0]] + unescaped(s.skip(1))
    }
}

/// Markdown with every ASCII punctuation escaped.
pub open spec fn escaped(s: Seq<char>) -> Seq<char>
    decreases s.len(),
{
    if s.len() == 0 {
        Seq::empty()
    } else if text::is_punctuation(s[0]) {
        seq!['\\', s[0]] + escaped(s.skip(1))
    } else {
        seq![s[0]] + escaped(s.skip(1))
    }
}

/// Unescaping gives back what was typed, however much of it was escaped.
pub proof fn unescaping_undoes_escaping(s: Seq<char>)
    ensures
        unescaped(escaped(s)) == s,
    decreases s.len(),
{
    if s.len() == 0 {
        assert(s =~= Seq::empty());
    } else {
        unescaping_undoes_escaping(s.skip(1));
        let e = escaped(s);
        if text::is_punctuation(s[0]) {
            assert(e.skip(2) =~= escaped(s.skip(1)));
        } else {
            assert(e.skip(1) =~= escaped(s.skip(1)));
        }
        assert(seq![s[0]] + s.skip(1) =~= s);
    }
}

/// A text without backslashes has no escapes, and stays as it is.
pub proof fn text_without_backslashes_stays(s: Seq<char>)
    requires
        !s.contains('\\'),
    ensures
        unescaped(s) == s,
    decreases s.len(),
{
    if s.len() == 0 {
        assert(s =~= Seq::empty());
    } else {
        assert(s.contains(s[0]));
        assert forall|i: int| 0 <= i < s.skip(1).len() implies s.skip(1)[i] != '\\' by {
            assert(s.contains(s[i + 1]));
        }
        text_without_backslashes_stays(s.skip(1));
        assert(seq![s[0]] + s.skip(1) =~= s);
    }
}

/// Whether the marker stands at that place, in small letters or capitals.
pub open spec fn marker_at(s: Seq<char>, at: int) -> bool {
    0 <= at && at + 7 <= s.len() && text::same_ignoring_case(s.subrange(at, at + 7), MARKER@)
}

/// Whether a text holds the marker.
pub open spec fn holds_marker(s: Seq<char>) -> bool {
    exists|at: int| marker_at(s, at)
}

/// Whether a comment asks for a print: Linear escapes Markdown punctuation, so a
/// marker arrives with its brackets escaped.
pub open spec fn asks(body: Seq<char>) -> bool {
    holds_marker(unescaped(body))
}

/// A text without its markers, taken out from the left.
pub open spec fn unmarked(s: Seq<char>) -> Seq<char>
    decreases s.len(),
{
    if s.len() == 0 {
        Seq::empty()
    } else if marker_at(s, 0) {
        unmarked(s.skip(7))
    } else {
        seq![s[0]] + unmarked(s.skip(1))
    }
}

/// The comment without its markers, escapes and outer white space.
pub open spec fn noted(body: Seq<char>) -> Seq<char> {
    text::trimmed(unmarked(unescaped(body)))
}

proof fn lemma_marker_moves(s: Seq<char>, skip: int, at: int)
    requires
        0 <= skip <= s.len(),
        at >= 0,
    ensures
        marker_at(s.skip(skip), at) == marker_at(s, at + skip),
{
    if at + 7 <= s.len() - skip {
        assert(s.skip(skip).subrange(at, at + 7) =~= s.subrange(at + skip, at + skip + 7));
    }
}

/// The first marker comes out and what stands before it stays.
pub proof fn the_first_marker_comes_out(s: Seq<char>, at: int)
    requires
        marker_at(s, at),
        forall|i: int| 0 <= i < at ==> !#[trigger] marker_at(s, i),
    ensures
        unmarked(s) == s.take(at) + unmarked(s.skip(at + 7)),
    decreases s.len(),
{
    if at == 0 {
        assert(s.take(0) + unmarked(s.skip(7)) =~= unmarked(s.skip(7)));
    } else {
        assert(!marker_at(s, 0));
        lemma_marker_moves(s, 1, at - 1);
        assert forall|i: int| 0 <= i < at - 1 implies !#[trigger] marker_at(s.skip(1), i) by {
            lemma_marker_moves(s, 1, i);
        }
        the_first_marker_comes_out(s.skip(1), at - 1);
        assert(s.skip(1).skip(at - 1 + 7) =~= s.skip(at + 7));
        assert(seq![s[0]] + s.skip(1).take(at - 1) =~= s.take(at));
        assert(unmarked(s) =~= s.take(at) + unmarked(s.skip(at + 7)));
    }
}

/// Where the marker is the whole comment there is no note.
pub proof fn a_marker_alone_leaves_no_note(body: Seq<char>)
    requires
        text::same_ignoring_case(unescaped(body), MARKER@),
    ensures
        asks(body),
        noted(body).len() == 0,
{
    reveal_strlit("[print]");
    let s = unescaped(body);
    assert(s.subrange(0, 7) =~= s);
    assert(marker_at(s, 0));
    assert(unmarked(s.skip(7)) =~= Seq::<char>::empty());
    text::trims_are_maximal(unmarked(s), text::Class::Space);
}

/// A text without a marker stays as it is.
pub proof fn text_without_a_marker_stays(s: Seq<char>)
    requires
        !holds_marker(s),
    ensures
        unmarked(s) == s,
    decreases s.len(),
{
    if s.len() == 0 {
        assert(s =~= Seq::empty());
    } else {
        assert(!marker_at(s, 0));
        assert forall|i: int| !#[trigger] marker_at(s.skip(1), i) by {
            if i >= 0 {
                lemma_marker_moves(s, 1, i);
                assert(!marker_at(s, i + 1));
            }
        }
        text_without_a_marker_stays(s.skip(1));
        assert(seq![s[0]] + s.skip(1) =~= s);
    }
}

/// Whether the word print stands there in square brackets, each letter small or capital.
pub open spec fn print_in_brackets(s: Seq<char>, at: int) -> bool {
    &&& 0 <= at
    &&& at + 7 <= s.len()
    &&& s[at] == '['
    &&& s[at + 1] == 'p' || s[at + 1] == 'P'
    &&& s[at + 2] == 'r' || s[at + 2] == 'R'
    &&& s[at + 3] == 'i' || s[at + 3] == 'I'
    &&& s[at + 4] == 'n' || s[at + 4] == 'N'
    &&& s[at + 5] == 't' || s[at + 5] == 'T'
    &&& s[at + 6] == ']'
}

/// The marker is the word print in square brackets, in small letters or capitals, and
/// nothing else is.
pub proof fn the_marker_is_print_in_brackets(s: Seq<char>, at: int)
    ensures
        marker_at(s, at) == print_in_brackets(s, at),
{
    reveal_strlit("[print]");
    if 0 <= at && at + 7 <= s.len() {
        let there = s.subrange(at, at + 7);
        let m = MARKER@;
        assert(m.len() == 7);
        assert(m[0] == '[' && m[1] == 'p' && m[2] == 'r' && m[3] == 'i' && m[4] == 'n' && m[5]
            == 't' && m[6] == ']');
        assert(there[0] == s[at] && there[1] == s[at + 1] && there[2] == s[at + 2] && there[3]
            == s[at + 3] && there[4] == s[at + 4] && there[5] == s[at + 5] && there[6] == s[at
            + 6]);
        text::case_is_ignored(s[at]);
        text::case_is_ignored(s[at + 1]);
        text::case_is_ignored(s[at + 2]);
        text::case_is_ignored(s[at + 3]);
        text::case_is_ignored(s[at + 4]);
        text::case_is_ignored(s[at + 5]);
        text::case_is_ignored(s[at + 6]);
        if text::same_ignoring_case(there, m) {
            assert(text::folded(there[0]) == text::folded(m[0]));
            assert(text::folded(there[1]) == text::folded(m[1]));
            assert(text::folded(there[2]) == text::folded(m[2]));
            assert(text::folded(there[3]) == text::folded(m[3]));
            assert(text::folded(there[4]) == text::folded(m[4]));
            assert(text::folded(there[5]) == text::folded(m[5]));
            assert(text::folded(there[6]) == text::folded(m[6]));
        }
        if print_in_brackets(s, at) {
            assert forall|i: int| 0 <= i < there.len() implies text::folded(#[trigger] there[i])
                == text::folded(m[i]) by {
                assert(i == 0 || i == 1 || i == 2 || i == 3 || i == 4 || i == 5 || i == 6);
            }
        }
    }
}

/// A comment asks for a print exactly where the word print stands in square brackets
/// somewhere in what was typed.
pub proof fn a_comment_asks_with_the_marker(typed: Seq<char>)
    ensures
        asks(escaped(typed)) <==> exists|at: int| #[trigger] print_in_brackets(typed, at),
        !typed.contains('\\') ==> (asks(typed) <==> exists|at: int| #[trigger]
            print_in_brackets(typed, at)),
{
    unescaping_undoes_escaping(typed);
    if !typed.contains('\\') {
        text_without_backslashes_stays(typed);
    }
    if exists|at: int| #[trigger] print_in_brackets(typed, at) {
        let at = choose|at: int| #[trigger] print_in_brackets(typed, at);
        the_marker_is_print_in_brackets(typed, at);
        assert(marker_at(typed, at));
    }
    if holds_marker(typed) {
        let at = choose|at: int| marker_at(typed, at);
        the_marker_is_print_in_brackets(typed, at);
        assert(print_in_brackets(typed, at));
    }
}

/// The note is what else was typed: the comment without the marker, and without the
/// white space around what is left.
pub proof fn the_note_is_what_else_was_typed(
    before: Seq<char>,
    marker: Seq<char>,
    after: Seq<char>,
)
    requires
        marker.len() == 7,
        print_in_brackets(marker, 0),
        !holds_marker(before),
        !holds_marker(after),
    ensures
        noted(escaped(before + marker + after)) == text::trimmed(before + after),
        !(before + marker + after).contains('\\') ==> noted(before + marker + after)
            == text::trimmed(before + after),
{
    let s = before + marker + after;
    let at = before.len() as int;
    unescaping_undoes_escaping(s);
    if !s.contains('\\') {
        text_without_backslashes_stays(s);
    }
    assert(print_in_brackets(s, at)) by {
        assert(s[at] == marker[0] && s[at + 1] == marker[1] && s[at + 2] == marker[2] && s[at + 3]
            == marker[3] && s[at + 4] == marker[4] && s[at + 5] == marker[5] && s[at + 6]
            == marker[6]);
    }
    the_marker_is_print_in_brackets(s, at);
    assert forall|i: int| 0 <= i < at implies !#[trigger] marker_at(s, i) by {
        the_marker_is_print_in_brackets(s, i);
        if print_in_brackets(s, i) {
            if i + 7 <= at {
                assert(s.subrange(i, i + 7) =~= before.subrange(i, i + 7));
                assert(marker_at(before, i));
            } else {
                // The bracket that opens the marker is no other part of one.
                assert(s[at] == '[');
            }
        }
    }
    the_first_marker_comes_out(s, at);
    assert(s.skip(at + 7) =~= after);
    assert(s.take(at) =~= before);
    text_without_a_marker_stays(after);
}

/// A backslash before any of the ASCII punctuation characters is taken off and the
/// character stays; any other backslash stays, and so does every other character.
pub proof fn escapes_are_taken_off(c: char, rest: Seq<char>)
    ensures
        ({
            let n = c as u32;
            let marked = 0x21 <= n <= 0x2f || 0x3a <= n <= 0x40 || 0x5b <= n <= 0x60 || 0x7b <= n
                <= 0x7e;
            &&& marked ==> unescaped(seq!['\\', c] + rest) == seq![c] + unescaped(rest)
            &&& !marked ==> unescaped(seq!['\\', c] + rest) == seq!['\\'] + unescaped(
                seq![c] + rest,
            )
            &&& c != '\\' ==> unescaped(seq![c] + rest) == seq![c] + unescaped(rest)
        }),
{
    let two = seq!['\\', c] + rest;
    let one = seq![c] + rest;
    assert(two.skip(2) =~= rest);
    assert(two.skip(1) =~= one);
    assert(one.skip(1) =~= rest);
}

/// The text without its Markdown escapes.
pub fn unescape(body: &str) -> (out: String)
    ensures
        out@ == unescaped(body@),
{
    let cs = chars_of(body);
    string_of(unescape_chars(cs.as_slice()).as_slice())
}

fn unescape_chars(cs: &[char]) -> (out: Vec<char>)
    ensures
        out@ == unescaped(cs@),
{
    let mut out: Vec<char> = Vec::new();
    let mut i: usize = 0;
    assert(cs@.skip(0) =~= cs@);
    assert(out@ + unescaped(cs@.skip(0)) =~= unescaped(cs@));
    while i < cs.len()
        invariant
            i <= cs@.len(),
            out@ + unescaped(cs@.skip(i as int)) == unescaped(cs@),
        decreases cs@.len() - i,
    {
        let ghost rest = cs@.skip(i as int);
        let ghost before = out@;
        if cs.len() - i >= 2 && cs[i] == '\\' && punctuation(cs[i + 1]) {
            out.push(cs[i + 1]);
            assert(rest.skip(2) =~= cs@.skip(i + 2));
            assert(before + unescaped(rest) =~= out@ + unescaped(cs@.skip(i + 2)));
            i += 2;
        } else {
            out.push(cs[i]);
            assert(rest.skip(1) =~= cs@.skip(i + 1));
            assert(before + unescaped(rest) =~= out@ + unescaped(cs@.skip(i + 1)));
            i += 1;
        }
    }
    assert(out@ + unescaped(cs@.skip(i as int)) =~= out@);
    out
}

fn marker_is_at(cs: &[char], at: usize) -> (r: bool)
    requires
        at <= cs@.len(),
    ensures
        r == marker_at(cs@, at as int),
{
    let marker = chars_of(MARKER);
    proof {
        reveal_strlit("[print]");
    }
    cs.len() - at >= 7 && same_but_for_case(slice_subrange(cs, at, at + 7), marker.as_slice())
}

/// Whether a comment asks for a print.
pub fn has_marker(body: &str) -> (r: bool)
    ensures
        r == asks(body@),
{
    let all = chars_of(body);
    let cs = unescape_chars(all.as_slice());
    for i in 0..cs.len()
        invariant
            cs@ == unescaped(body@),
            forall|at: int| 0 <= at < i ==> !#[trigger] marker_at(cs@, at),
    {
        if marker_is_at(cs.as_slice(), i) {
            return true;
        }
    }
    false
}

/// The comment without the marker, so a note written alongside it can go on the
/// paper. Empty if the marker was the whole comment.
pub fn note(body: &str) -> (r: String)
    ensures
        r@ == noted(body@),
{
    let all = chars_of(body);
    let cs = unescape_chars(all.as_slice());
    let mut out: Vec<char> = Vec::new();
    let mut i: usize = 0;
    assert(cs@.skip(0) =~= cs@);
    assert(out@ + unmarked(cs@.skip(0)) =~= unmarked(cs@));
    while i < cs.len()
        invariant
            i <= cs@.len(),
            out@ + unmarked(cs@.skip(i as int)) == unmarked(cs@),
        decreases cs@.len() - i,
    {
        let ghost rest = cs@.skip(i as int);
        let ghost before = out@;
        proof {
            lemma_marker_moves(cs@, i as int, 0);
        }
        // The marker matched in small letters or capitals, so it is cut the same way.
        if marker_is_at(cs.as_slice(), i) {
            assert(rest.skip(7) =~= cs@.skip(i + 7));
            i += 7;
        } else {
            out.push(cs[i]);
            assert(rest.skip(1) =~= cs@.skip(i + 1));
            assert(before + unmarked(rest) =~= out@ + unmarked(cs@.skip(i + 1)));
            i += 1;
        }
    }
    assert(out@ + unmarked(cs@.skip(i as int)) =~= out@);
    string_of(trim_of(out.as_slice()))
}

/// Whether an edit's marker may have been there before it: an edit that does not
/// say what it changed is taken for one whose marker was.
pub open spec fn asked_before(event: CommentEvent) -> bool {
    match event.updated_from {
        Some(was) => match was.body {
            Some(body) => asks(body@),
            None => true,
        },
        None => true,
    }
}

/// The verdict on an event, for whoever `viewer` names.
pub open spec fn judged(event: CommentEvent, viewer: Seq<char>) -> Verdict {
    if event.kind@ != "Comment"@ {
        Verdict::NotAComment
    } else if event.action@ == "remove"@ {
        Verdict::Removed
    } else if !asks(event.data.body@) {
        Verdict::NoMarker
    } else if !(event.data.user_id matches Some(user) && user@ == viewer) {
        Verdict::NotYou
    } else if event.action@ == "update"@ && asked_before(event) {
        Verdict::MarkerWasAlreadyThere
    } else {
        Verdict::Print
    }
}

/// Only the marker arriving counts: an edit of a comment that already asked never
/// prints, and neither does one that does not say what it changed.
pub proof fn an_edit_prints_only_where_the_marker_arrives(event: CommentEvent, viewer: Seq<char>)
    requires
        event.action@ == "update"@,
        judged(event, viewer) == Verdict::Print,
    ensures
        asks(event.data.body@),
        event.updated_from matches Some(was) && was.body matches Some(body) && !asks(body@),
{
}

/// Nobody else's comment prints.
pub proof fn only_your_own_comments_print(event: CommentEvent, viewer: Seq<char>)
    requires
        judged(event, viewer) == Verdict::Print,
    ensures
        event.kind@ == "Comment"@,
        event.data.user_id matches Some(user) && user@ == viewer,
{
}

/// The verdict names the first thing that is amiss. What is no comment is told only that;
/// a comment that was removed only that; one that does not ask is not told whose it should
/// be; and only your own is told that it asked before.
pub proof fn the_verdict_names_the_first_thing_amiss(event: CommentEvent, viewer: Seq<char>)
    ensures
        ({
            let verdict = judged(event, viewer);
            let comment = event.kind@ == "Comment"@;
            let removed = event.action@ == "remove"@;
            let asking = asks(event.data.body@);
            let yours = event.data.user_id is Some && event.data.user_id->0@ == viewer;
            &&& verdict == Verdict::NotAComment <==> !comment
            &&& verdict == Verdict::Removed <==> comment && removed
            &&& verdict == Verdict::NoMarker <==> comment && !removed && !asking
            &&& verdict == Verdict::NotYou <==> comment && !removed && asking && !yours
            &&& verdict == Verdict::MarkerWasAlreadyThere ==> comment && !removed && asking && yours
                && event.action@ == "update"@
        }),
{
}

/// What prints: your own comment that asks for it, unless it was removed, and an edit of
/// one only where the comment did not ask before. Nothing else does.
pub proof fn your_own_comment_that_asks_prints(event: CommentEvent, viewer: Seq<char>)
    ensures
        judged(event, viewer) == Verdict::Print <==> {
            &&& event.kind@ == "Comment"@
            &&& event.action@ != "remove"@
            &&& asks(event.data.body@)
            &&& event.data.user_id is Some && event.data.user_id->0@ == viewer
            &&& event.action@ == "update"@ ==> event.updated_from is Some
                && event.updated_from->0.body is Some && !asks(event.updated_from->0.body->0@)
        },
{
}

/// An event is fresh within a minute of when it was sent, before or after, and one that
/// does not say when it was sent always is.
pub proof fn events_are_fresh_for_a_minute(event: CommentEvent, now_ms: int)
    ensures
        event.webhook_timestamp is None ==> event.fresh_at(now_ms),
        event.webhook_timestamp matches Some(sent) ==> (event.fresh_at(now_ms) <==> sent - 60_000
            < now_ms < sent + 60_000),
{
}

/// A comment that arrives with its punctuation escaped is read as it was typed:
/// the marker is found in it, and no escape goes on the paper.
pub proof fn comments_are_read_as_typed(typed: Seq<char>)
    ensures
        asks(escaped(typed)) == holds_marker(typed),
        noted(escaped(typed)) == text::trimmed(unmarked(typed)),
{
    unescaping_undoes_escaping(typed);
}

impl CommentEvent {
    /// Decide whether this event asks for a print.
    ///
    /// The awkward case is an edit: Linear fires an update for any change to a
    /// comment, so a comment that already said `[print]` would print again every
    /// time a typo was fixed. Only the marker *arriving* counts.
    pub fn verdict(&self, viewer_id: &str) -> (r: Verdict)
        ensures
            r == judged(*self, viewer_id@),
    {
        if !same(self.kind.as_str(), "Comment") {
            return Verdict::NotAComment;
        }
        if same(self.action.as_str(), "remove") {
            return Verdict::Removed;
        }
        if !has_marker(self.data.body.as_str()) {
            return Verdict::NoMarker;
        }
        let yours = match &self.data.user_id {
            Some(user) => same(user.as_str(), viewer_id),
            None => false,
        };
        if !yours {
            return Verdict::NotYou;
        }
        if same(self.action.as_str(), "update") {
            let was_there = match &self.updated_from {
                Some(was) => match &was.body {
                    Some(body) => has_marker(body.as_str()),
                    // An update with no previous body to compare against is
                    // ambiguous; treat it as already there so a stray edit cannot
                    // reprint. A fresh request is one new comment away.
                    None => true,
                },
                None => true,
            };
            if was_there {
                return Verdict::MarkerWasAlreadyThere;
            }
        }
        Verdict::Print
    }

    /// Whether this was sent within a minute of `now_ms`, either way; one that does
    /// not say when it was sent counts as fresh.
    pub open spec fn fresh_at(self, now_ms: int) -> bool {
        match self.webhook_timestamp {
            Some(sent) => -MAX_CLOCK_SKEW_MS < now_ms - sent < MAX_CLOCK_SKEW_MS,
            None => true,
        }
    }

    /// Has this arrived within the window Linear suggests, or is it a replay?
    pub fn is_fresh(&self, now_ms: i64) -> (r: bool)
        ensures
            r == self.fresh_at(now_ms as int),
    {
        match self.webhook_timestamp {
            Some(sent) => {
                let since: i128 = now_ms as i128 - sent as i128;
                -(MAX_CLOCK_SKEW_MS as i128) < since && since < MAX_CLOCK_SKEW_MS as i128
            },
            // Older payloads may not carry one; the signature still stands.
            None => true,
        }
    }
}

// --- the API ---------------------------------------------------------------

/// Only the fields that end up on paper.
pub struct Issue {
    pub identifier: String,
    pub title: String,
    pub description: Option<String>,
    pub priority_label: Option<String>,
    /// The estimate as it reads on paper.
    pub estimate: Option<String>,
    pub due_date: Option<String>,
    pub state: Option<Named>,
    pub assignee: Option<Named>,
    pub project: Option<Named>,
    pub labels: Option<Nodes>,
}

pub struct Named {
    pub name: String,
}

pub struct Nodes {
    pub nodes: Vec<Named>,
}

impl Issue {
    /// The names of the issue's labels.
    pub open spec fn labelled(self) -> Seq<Seq<char>> {
        match self.labels {
            Some(labels) => labels.nodes@.map_values(|n: Named| n.name@),
            None => Seq::empty(),
        }
    }

    /// The issue's labels, flattened to names for one line of paper.
    pub fn label_names(&self) -> (r: Vec<&str>)
        ensures
            r@.map_values(|s: &str| s@) == self.labelled(),
    {
        let mut out: Vec<&str> = Vec::new();
        if let Some(labels) = &self.labels {
            for i in 0..labels.nodes.len()
                invariant
                    out@.len() == i,
                    forall|k: int| 0 <= k < i ==> (#[trigger] out@[k])@ == labels.nodes@[k].name@,
            {
                out.push(labels.nodes[i].name.as_str());
            }
        }
        assert(out@.map_values(|s: &str| s@) =~= self.labelled());
        out
    }
}

/// Every label of an issue is named, in order; an issue without labels has no names.
pub proof fn every_label_is_named(issue: Issue)
    ensures
        match issue.labels {
            Some(labels) => issue.labelled().len() == labels.nodes@.len() && forall|i: int|
                0 <= i < labels.nodes@.len() ==> #[trigger] issue.labelled()[i]
                    == labels.nodes@[i].name@,
            None => issue.labelled().len() == 0,
        },
{
}

/// What the API replied. It answers 200 with a list of errors where a query went
/// wrong, so the status alone does not say whether it worked.
pub fn answer<T>(errors: Option<String>, data: Option<T>) -> (r: Result<T, Error>)
    ensures
        r == (match (errors, data) {
            (Some(errors), _) => Err::<T, Error>(Error::Api(errors)),
            (None, Some(data)) => Ok(data),
            (None, None) => Err(Error::NotFound),
        }),
{
    match errors {
        Some(errors) => Err(Error::Api(errors)),
        None => match data {
            Some(data) => Ok(data),
            None => Err(Error::NotFound),
        },
    }
}

/// Who the API key belongs to: an id, and a name to show.
pub fn viewer(id: Option<String>, name: Option<String>) -> (r: Result<(String, String), Error>)
    ensures
        match id {
            Some(id) => r matches Ok((i, n)) && i@ == id@ && n@ == (match name {
                Some(name) => name@,
                None => "(unnamed)"@,
            }),
            None => r == Err::<(String, String), Error>(Error::NotFound),
        },
{
    match id {
        Some(id) => Ok(
            (
                id,
                match name {
                    Some(name) => name,
                    None => "(unnamed)".to_string(),
                },
            ),
        ),
        None => Err(Error::NotFound),
    }
}

/// What the reply to a query for an issue holds.
pub enum Found {
    /// No issue, or a null one.
    Nothing,
    /// An issue that cannot be read, and why.
    Unreadable(String),
    Issue(Issue),
}

/// The issue that was asked for.
pub fn issue(found: Found) -> (r: Result<Issue, Error>)
    ensures
        r == (match found {
            Found::Nothing => Err::<Issue, Error>(Error::NotFound),
            Found::Unreadable(why) => Err(Error::Api(why)),
            Found::Issue(issue) => Ok(issue),
        }),
{
    match found {
        Found::Nothing => Err(Error::NotFound),
        Found::Unreadable(why) => Err(Error::Api(why)),
        Found::Issue(issue) => Ok(issue),
    }
}

/// An error names its cause, word for word.
pub proof fn errors_name_their_cause(error: Error)
    ensures
        error matches Error::Http(why) ==> error.words() == "talking to Linear: "@ + why@,
        error matches Error::Api(why) ==> error.words() == "Linear said: "@ + why@,
{
}

} // verus!
