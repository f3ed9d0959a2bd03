//! Why a print was refused, and what the caller sees of it.

use crate::text;
use crate::text::decimal_of;
use vstd::prelude::*;

verus! {

/// Why a print was refused. Each maps to the status code a caller should see.
pub enum Refusal {
    Password,
    Empty,
    /// More characters than the limit, which is given.
    TooLong(usize),
    /// The seconds left to wait.
    Cooldown(u128),
    ClientDaily,
    DailyCap,
    Paused,
    /// What is wrong with the printer.
    Printer(String),
}

impl Refusal {
    /// The HTTP status code.
    pub open spec fn code(self) -> u16 {
        match self {
            Refusal::Password => 401,
            Refusal::Empty => 400,
            Refusal::TooLong(_) => 413,
            Refusal::Cooldown(_) => 429,
            Refusal::ClientDaily => 429,
            Refusal::DailyCap => 429,
            Refusal::Paused => 503,
            Refusal::Printer(_) => 503,
        }
    }

    /// The refusal in words, written to be shown to whoever asked.
    pub open spec fn words(self) -> Seq<char> {
        match self {
            Refusal::Password => "wrong password"@,
            Refusal::Empty => "nothing to print"@,
            Refusal::TooLong(max) => "too long \u{2014} "@ + text::decimal(max as nat)
                + " characters at most"@,
            Refusal::Cooldown(secs) => "hold on \u{2014} "@ + text::decimal(secs as nat)
                + "s before the next one"@,
            Refusal::ClientDaily => "that is your lot for today"@,
            Refusal::DailyCap => "the printer has had enough for one day"@,
            Refusal::Paused => "printing is paused"@,
            Refusal::Printer(why) => why@,
        }
    }

    /// The status code and the words.
    pub fn parts(&self) -> (r: (u16, String))
        ensures
            r.0 == self.code(),
            r.1@ == self.words(),
    {
        match self {
            Refusal::Password => (401, "wrong password".to_string()),
            Refusal::Empty => (400, "nothing to print".to_string()),
            Refusal::TooLong(max) => {
                let mut out = "too long \u{2014} ".to_string();
                out.append(decimal_of(*max as u128).as_str());
                out.append(" characters at most");
                (413, out)
            },
            Refusal::Cooldown(secs) => {
                let mut out = "hold on \u{2014} ".to_string();
                out.append(decimal_of(*secs).as_str());
                out.append("s before the next one");
                (429, out)
            },
            Refusal::ClientDaily => (429, "that is your lot for today".to_string()),
            Refusal::DailyCap => (429, "the printer has had enough for one day".to_string()),
            Refusal::Paused => (503, "printing is paused".to_string()),
            Refusal::Printer(why) => (503, why.clone()),
        }
    }
}

/// A refusal carries the code that fits: the one for a wrong password, an empty message or
/// one that is too long; one for every limit that is reached; and one for what is no
/// fault of the sender's. The words name the number that the sender needs.
pub proof fn refusals_fit(r: Refusal)
    ensures
        r.code() == 401 <==> r is Password,
        r.code() == 400 <==> r is Empty,
        r.code() == 413 <==> r is TooLong,
        r.code() == 429 <==> r is Cooldown || r is ClientDaily || r is DailyCap,
        r.code() == 503 <==> r is Paused || r is Printer,
        r matches Refusal::TooLong(max) ==> text::holds(r.words(), text::decimal(max as nat)),
        r matches Refusal::Cooldown(secs) ==> text::holds(r.words(), text::decimal(secs as nat)),
        r matches Refusal::Printer(why) ==> r.words() == why@,
        r matches Refusal::TooLong(max) ==> r.words() == "too long \u{2014} "@ + text::decimal(
            max as nat,
        ) + " characters at most"@,
        r matches Refusal::Cooldown(secs) ==> r.words() == "hold on \u{2014} "@ + text::decimal(
            secs as nat,
        ) + "s before the next one"@,
{
    match r {
        Refusal::TooLong(max) => {
            let (a, n) = ("too long \u{2014} "@, text::decimal(max as nat));
            assert(r.words().subrange(a.len() as int, (a.len() + n.len()) as int) =~= n);
            assert(text::stands_at(r.words(), n, a.len() as int));
        },
        Refusal::Cooldown(secs) => {
            let (a, n) = ("hold on \u{2014} "@, text::decimal(secs as nat));
            assert(r.words().subrange(a.len() as int, (a.len() + n.len()) as int) =~= n);
            assert(text::stands_at(r.words(), n, a.len() as int));
        },
        _ => {},
    }
}

} // verus!
