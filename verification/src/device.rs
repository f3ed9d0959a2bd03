//! What the device says of itself: which of its endpoints a job goes to, and what
//! its status bytes mean.

use crate::printer::{DLE, EOT};
use crate::text;
use crate::text::same;
use vstd::prelude::*;

verus! {

// --- endpoints -------------------------------------------------------------

/// One endpoint of the device.
#[derive(Clone, Copy, PartialEq, Eq, Structural)]
pub struct Endpoint {
    pub address: u8,
    pub bulk: bool,
    /// Towards the device, rather than from it.
    pub out: bool,
    pub max_packet: usize,
}

/// One interface of the device: its number, and the endpoints of each of its
/// settings.
pub struct Interface {
    pub number: u8,
    pub settings: Vec<Vec<Endpoint>>,
}

/// The endpoints that a job is written to and answers are read from.
#[derive(Clone, Copy, PartialEq, Eq, Structural)]
pub struct Port {
    pub interface: u8,
    pub ep_out: u8,
    pub ep_in: Option<u8>,
    pub in_max_packet: usize,
}

/// The first bulk endpoint of that direction.
pub open spec fn first_bulk(endpoints: Seq<Endpoint>, out: bool) -> Option<Endpoint>
    decreases endpoints.len(),
{
    if endpoints.len() == 0 {
        None
    } else if first_bulk(endpoints.drop_last(), out) is Some {
        first_bulk(endpoints.drop_last(), out)
    } else if endpoints.last().bulk && endpoints.last().out == out {
        Some(endpoints.last())
    } else {
        None
    }
}

/// The port of one setting: it takes a bulk endpoint out, and answers come from
/// the bulk endpoint in, where there is one.
pub open spec fn setting_port(number: u8, endpoints: Seq<Endpoint>) -> Option<Port> {
    match first_bulk(endpoints, true) {
        None => None,
        Some(to) => Some(
            match first_bulk(endpoints, false) {
                None => Port {
                    interface: number,
                    ep_out: to.address,
                    ep_in: None,
                    in_max_packet: 64,
                },
                Some(from) => Port {
                    interface: number,
                    ep_out: to.address,
                    ep_in: Some(from.address),
                    in_max_packet: from.max_packet,
                },
            },
        ),
    }
}

/// The port of the first setting that has one.
pub open spec fn settings_port(number: u8, settings: Seq<Vec<Endpoint>>) -> Option<Port>
    decreases settings.len(),
{
    if settings.len() == 0 {
        None
    } else if settings_port(number, settings.drop_last()) is Some {
        settings_port(number, settings.drop_last())
    } else {
        setting_port(number, settings.last()@)
    }
}

/// The port of the first interface that has one.
pub open spec fn device_port(interfaces: Seq<Interface>) -> Option<Port>
    decreases interfaces.len(),
{
    if interfaces.len() == 0 {
        None
    } else if device_port(interfaces.drop_last()) is Some {
        device_port(interfaces.drop_last())
    } else {
        settings_port(interfaces.last().number, interfaces.last().settings@)
    }
}

proof fn lemma_first_bulk(endpoints: Seq<Endpoint>, out: bool)
    ensures
        first_bulk(endpoints, out) is Some <==> exists|i: int|
            0 <= i < endpoints.len() && (#[trigger] endpoints[i]).bulk && endpoints[i].out == out,
    decreases endpoints.len(),
{
    if endpoints.len() > 0 {
        let init = endpoints.drop_last();
        lemma_first_bulk(init, out);
        if exists|i: int|
            0 <= i < endpoints.len() && (#[trigger] endpoints[i]).bulk && endpoints[i].out == out {
            let i = choose|i: int|
                0 <= i < endpoints.len() && (#[trigger] endpoints[i]).bulk && endpoints[i].out
                    == out;
            if i < init.len() {
                assert(init[i] == endpoints[i]);
            }
        }
        if first_bulk(init, out) is Some {
            let i = choose|i: int|
                0 <= i < init.len() && (#[trigger] init[i]).bulk && init[i].out == out;
            assert(endpoints[i] == init[i]);
        }
    }
}

proof fn lemma_settings_port(number: u8, settings: Seq<Vec<Endpoint>>)
    ensures
        settings_port(number, settings) is Some <==> exists|j: int|
            0 <= j < settings.len() && first_bulk((#[trigger] settings[j])@, true) is Some,
    decreases settings.len(),
{
    if settings.len() > 0 {
        let init = settings.drop_last();
        lemma_settings_port(number, init);
        if settings_port(number, init) is Some {
            let j = choose|j: int|
                0 <= j < init.len() && first_bulk((#[trigger] init[j])@, true) is Some;
            assert(settings[j] == init[j]);
        }
        if exists|j: int|
            0 <= j < settings.len() && first_bulk((#[trigger] settings[j])@, true) is Some {
            let j = choose|j: int|
                0 <= j < settings.len() && first_bulk((#[trigger] settings[j])@, true) is Some;
            if j < init.len() {
                assert(init[j] == settings[j]);
            }
        }
    }
}

/// A device can be printed to if, and only if, some setting of some interface
/// has a bulk endpoint out.
pub proof fn port_wherever_there_is_a_bulk_endpoint_out(interfaces: Seq<Interface>)
    ensures
        device_port(interfaces) is Some <==> exists|i: int, j: int, k: int|
            0 <= i < interfaces.len() && 0 <= j < interfaces[i].settings@.len() && 0 <= k
                < interfaces[i].settings@[j]@.len() && (
            #[trigger] interfaces[i].settings@[j]@[k]).bulk && interfaces[i].settings@[j]@[k].out,
    decreases interfaces.len(),
{
    if interfaces.len() > 0 {
        let init = interfaces.drop_last();
        let last = interfaces.last();
        port_wherever_there_is_a_bulk_endpoint_out(init);
        lemma_settings_port(last.number, last.settings@);
        if device_port(init) is Some {
            let (i, j, k) = choose|i: int, j: int, k: int|
                0 <= i < init.len() && 0 <= j < init[i].settings@.len() && 0 <= k
                    < init[i].settings@[j]@.len() && (#[trigger] init[i].settings@[j]@[k]).bulk
                    && init[i].settings@[j]@[k].out;
            assert(interfaces[i].settings@[j]@[k].bulk && interfaces[i].settings@[j]@[k].out);
        } else if device_port(interfaces) is Some {
            let i = interfaces.len() - 1;
            let j = choose|j: int|
                0 <= j < last.settings@.len() && first_bulk((#[trigger] last.settings@[j])@, true)
                    is Some;
            lemma_first_bulk(last.settings@[j]@, true);
            let k = choose|k: int|
                0 <= k < last.settings@[j]@.len() && (#[trigger] last.settings@[j]@[k]).bulk
                    && last.settings@[j]@[k].out == true;
            assert(interfaces[i].settings@[j]@[k].bulk && interfaces[i].settings@[j]@[k].out);
        }
        if exists|i: int, j: int, k: int|
            0 <= i < interfaces.len() && 0 <= j < interfaces[i].settings@.len() && 0 <= k
                < interfaces[i].settings@[j]@.len() && (
            #[trigger] interfaces[i].settings@[j]@[k]).bulk && interfaces[i].settings@[j]@[k].out {
            let (i, j, k) = choose|i: int, j: int, k: int|
                0 <= i < interfaces.len() && 0 <= j < interfaces[i].settings@.len() && 0 <= k
                    < interfaces[i].settings@[j]@.len() && (
                #[trigger] interfaces[i].settings@[j]@[k]).bulk
                    && interfaces[i].settings@[j]@[k].out;
            if i < init.len() {
                assert(init[i].settings@[j]@[k].bulk && init[i].settings@[j]@[k].out);
            } else {
                lemma_first_bulk(last.settings@[j]@, true);
                assert(last.settings@[j]@[k].bulk && last.settings@[j]@[k].out == true);
                assert(first_bulk(last.settings@[j]@, true) is Some);
            }
        }
    }
}

/// Whether that endpoint is the first bulk one of its direction.
pub open spec fn is_first_bulk(endpoints: Seq<Endpoint>, k: int, out: bool) -> bool {
    &&& 0 <= k < endpoints.len()
    &&& endpoints[k].bulk && endpoints[k].out == out
    &&& forall|i: int| 0 <= i < k ==> !((#[trigger] endpoints[i]).bulk && endpoints[i].out == out)
}

proof fn lemma_first_bulk_is_first(endpoints: Seq<Endpoint>, out: bool)
    ensures
        match first_bulk(endpoints, out) {
            Some(found) => exists|k: int| #[trigger]
                is_first_bulk(endpoints, k, out) && endpoints[k] == found,
            None => forall|i: int|
                0 <= i < endpoints.len() ==> !((#[trigger] endpoints[i]).bulk && endpoints[i].out
                    == out),
        },
    decreases endpoints.len(),
{
    if endpoints.len() > 0 {
        let init = endpoints.drop_last();
        lemma_first_bulk_is_first(init, out);
        assert(forall|i: int| 0 <= i < init.len() ==> #[trigger] endpoints[i] == init[i]);
        match first_bulk(init, out) {
            Some(found) => {
                let k = choose|k: int| #[trigger]
                    is_first_bulk(init, k, out) && init[k] == found;
                assert(is_first_bulk(endpoints, k, out) && endpoints[k] == found);
            },
            None => {
                let last = endpoints.len() - 1;
                if endpoints[last].bulk && endpoints[last].out == out {
                    assert(is_first_bulk(endpoints, last, out));
                }
            },
        }
    }
}

/// The port of a setting is its first bulk endpoint out and its first bulk endpoint in,
/// in whatever order the two stand. Without one out there is no port; without one in
/// there are no answers, and 64 bytes are room enough for none.
pub proof fn a_port_is_the_first_endpoints(number: u8, endpoints: Seq<Endpoint>)
    ensures
        match setting_port(number, endpoints) {
            None => forall|i: int|
                0 <= i < endpoints.len() ==> !((#[trigger] endpoints[i]).bulk && endpoints[i].out),
            Some(port) => {
                &&& port.interface == number
                &&& exists|k: int| #[trigger]
                    is_first_bulk(endpoints, k, true) && endpoints[k].address == port.ep_out
                &&& match port.ep_in {
                    Some(address) => exists|k: int| #[trigger]
                        is_first_bulk(endpoints, k, false) && endpoints[k].address == address
                            && endpoints[k].max_packet == port.in_max_packet,
                    None => port.in_max_packet == 64 && forall|i: int|
                        0 <= i < endpoints.len() ==> !((#[trigger] endpoints[i]).bulk
                            && !endpoints[i].out),
                }
            },
        },
{
    lemma_first_bulk_is_first(endpoints, true);
    lemma_first_bulk_is_first(endpoints, false);
}

/// A device is printed to at the first setting, of the first interface, that has a
/// port.
pub proof fn a_device_is_printed_to_at_its_first_port(interfaces: Seq<Interface>)
    ensures
        device_port(interfaces) matches Some(port) ==> exists|i: int, j: int| #[trigger]
            is_first_port(interfaces, i, j) && setting_port(
                interfaces[i].number,
                interfaces[i].settings@[j]@,
            ) == Some(port),
    decreases interfaces.len(),
{
    if interfaces.len() > 0 {
        let init = interfaces.drop_last();
        let last = interfaces.len() - 1;
        a_device_is_printed_to_at_its_first_port(init);
        if device_port(init) is Some {
            let (i, j) = choose|i: int, j: int| #[trigger]
                is_first_port(init, i, j) && setting_port(
                    init[i].number,
                    init[i].settings@[j]@,
                ) == device_port(init);
            assert(forall|a: int| 0 <= a < init.len() ==> #[trigger] interfaces[a] == init[a]);
            assert(is_first_port(interfaces, i, j));
        } else if device_port(interfaces) is Some {
            let settings = interfaces[last].settings@;
            let j = lemma_first_setting(interfaces[last].number, settings);
            assert forall|a: int, b: int|
                0 <= a < last && 0 <= b < interfaces[a].settings@.len() implies (
            #[trigger] setting_port(interfaces[a].number, interfaces[a].settings@[b]@)) is None by {
                lemma_no_port(init, a, b);
                assert(init[a] == interfaces[a]);
            }
            assert(is_first_port(interfaces, last, j));
        }
    }
}

/// Whether that setting has a port, and none before it has.
pub open spec fn is_first_port(interfaces: Seq<Interface>, i: int, j: int) -> bool {
    &&& 0 <= i < interfaces.len()
    &&& 0 <= j < interfaces[i].settings@.len()
    &&& setting_port(interfaces[i].number, interfaces[i].settings@[j]@) is Some
    &&& forall|b: int|
        0 <= b < j ==> (#[trigger] setting_port(interfaces[i].number, interfaces[i].settings@[b]@))
            is None
    &&& forall|a: int, b: int|
        0 <= a < i && 0 <= b < interfaces[a].settings@.len() ==> (#[trigger] setting_port(
            interfaces[a].number,
            interfaces[a].settings@[b]@,
        )) is None
}

proof fn lemma_first_setting(number: u8, settings: Seq<Vec<Endpoint>>) -> (j: int)
    requires
        settings_port(number, settings) is Some,
    ensures
        0 <= j < settings.len(),
        setting_port(number, settings[j]@) == settings_port(number, settings),
        forall|b: int| 0 <= b < j ==> (#[trigger] setting_port(number, settings[b]@)) is None,
    decreases settings.len(),
{
    let init = settings.drop_last();
    if settings_port(number, init) is Some {
        let j = lemma_first_setting(number, init);
        assert(forall|b: int| 0 <= b < init.len() ==> #[trigger] settings[b] == init[b]);
        j
    } else {
        assert forall|b: int| 0 <= b < init.len() implies (#[trigger] setting_port(
            number,
            settings[b]@,
        )) is None by {
            lemma_no_setting(number, init, b);
            assert(init[b] == settings[b]);
        }
        settings.len() - 1
    }
}

proof fn lemma_no_setting(number: u8, settings: Seq<Vec<Endpoint>>, b: int)
    requires
        settings_port(number, settings) is None,
        0 <= b < settings.len(),
    ensures
        setting_port(number, settings[b]@) is None,
    decreases settings.len(),
{
    if b < settings.len() - 1 {
        lemma_no_setting(number, settings.drop_last(), b);
        assert(settings.drop_last()[b] == settings[b]);
    }
}

proof fn lemma_no_port(interfaces: Seq<Interface>, a: int, b: int)
    requires
        device_port(interfaces) is None,
        0 <= a < interfaces.len(),
        0 <= b < interfaces[a].settings@.len(),
    ensures
        setting_port(interfaces[a].number, interfaces[a].settings@[b]@) is None,
    decreases interfaces.len(),
{
    if a < interfaces.len() - 1 {
        lemma_no_port(interfaces.drop_last(), a, b);
        assert(interfaces.drop_last()[a] == interfaces[a]);
    } else {
        lemma_no_setting(interfaces[a].number, interfaces[a].settings@, b);
    }
}

fn find_bulk(endpoints: &Vec<Endpoint>, out: bool) -> (r: Option<Endpoint>)
    ensures
        r == first_bulk(endpoints@, out),
{
    let mut found: Option<Endpoint> = None;
    for i in 0..endpoints.len()
        invariant
            found == first_bulk(endpoints@.take(i as int), out),
    {
        assert(endpoints@.take(i + 1).drop_last() =~= endpoints@.take(i as int));
        let ep = endpoints[i];
        if found.is_none() && ep.bulk && ep.out == out {
            found = Some(ep);
        }
    }
    assert(endpoints@.take(endpoints@.len() as int) =~= endpoints@);
    found
}

fn find_setting(number: u8, settings: &Vec<Vec<Endpoint>>) -> (r: Option<Port>)
    ensures
        r == settings_port(number, settings@),
{
    let mut found: Option<Port> = None;
    for i in 0..settings.len()
        invariant
            found == settings_port(number, settings@.take(i as int)),
    {
        assert(settings@.take(i + 1).drop_last() =~= settings@.take(i as int));
        if found.is_none() {
            if let Some(to) = find_bulk(&settings[i], true) {
                found = Some(
                    match find_bulk(&settings[i], false) {
                        None => Port {
                            interface: number,
                            ep_out: to.address,
                            ep_in: None,
                            in_max_packet: 64,
                        },
                        Some(from) => Port {
                            interface: number,
                            ep_out: to.address,
                            ep_in: Some(from.address),
                            in_max_packet: from.max_packet,
                        },
                    },
                );
            }
        }
    }
    assert(settings@.take(settings@.len() as int) =~= settings@);
    found
}

/// The port to print to: the first interface, and its first setting, with a bulk
/// endpoint out.
pub fn find_port(interfaces: &[Interface]) -> (r: Option<Port>)
    ensures
        r == device_port(interfaces@),
{
    let mut found: Option<Port> = None;
    for i in 0..interfaces.len()
        invariant
            found == device_port(interfaces@.take(i as int)),
    {
        assert(interfaces@.take(i + 1).drop_last() =~= interfaces@.take(i as int));
        if found.is_none() {
            found = find_setting(interfaces[i].number, &interfaces[i].settings);
        }
    }
    assert(interfaces@.take(interfaces@.len() as int) =~= interfaces@);
    found
}

// --- status ----------------------------------------------------------------

/// The real-time status request `n`.
pub fn status_request(n: u8) -> (r: [u8; 3])
    ensures
        r@ == seq![DLE, EOT, n],
{
    let r = [DLE, EOT, n];
    assert(r@ =~= seq![DLE, EOT, n]);
    r
}

/// What to do after reading from the device.
#[derive(Clone, Copy, PartialEq, Eq, Structural)]
pub enum Answer {
    /// It answered.
    Byte(u8),
    /// Read once more.
    Again,
    /// It does not answer.
    Silent,
}

/// A status request that was sent, and how many reads it is still worth.
pub struct Query {
    pub left: u8,
}

impl Query {
    /// A request is worth three reads.
    pub fn new() -> (r: Query)
        ensures
            r.left == 3,
    {
        Query { left: 3 }
    }

    /// Takes in what one read brought. The answer is the last byte of the first
    /// read that brought any; a failed read counts like an empty one.
    pub fn read(&mut self, got: Option<&[u8]>) -> (r: Answer)
        requires
            old(self).left > 0,
        ensures
            final(self).left == old(self).left - 1,
            r == (match got {
                Some(bytes) if bytes@.len() > 0 => Answer::Byte(bytes@.last()),
                _ => if old(self).left > 1 {
                    Answer::Again
                } else {
                    Answer::Silent
                },
            }),
    {
        self.left = self.left - 1;
        if let Some(bytes) = got {
            if bytes.len() > 0 {
                return Answer::Byte(bytes[bytes.len() - 1]);
            }
        }
        if self.left > 0 {
            Answer::Again
        } else {
            Answer::Silent
        }
    }
}

/// What the answers to the status requests 1, 4 and 2 complain of, in that order.
/// A request without an answer complains of nothing.
pub open spec fn complaints(
    printer: Option<u8>,
    paper: Option<u8>,
    offline: Option<u8>,
) -> Seq<Seq<char>> {
    (match printer {
        Some(s) if s & 0x08 != 0 => seq!["printer is offline"@],
        _ => Seq::empty(),
    }) + (match paper {
        Some(p) if p & 0x60 != 0 => seq!["out of paper"@],
        Some(p) if p & 0x0c != 0 => seq!["paper nearly out"@],
        _ => Seq::empty(),
    }) + (match offline {
        Some(o) if o & 0x04 != 0 => seq!["cover is open"@],
        _ => Seq::empty(),
    }) + (match offline {
        Some(o) if o & 0x40 != 0 => seq!["printer is in an error state"@],
        _ => Seq::empty(),
    })
}

fn complain(problems: &mut Vec<String>, problem: &str)
    ensures
        text::views(final(problems)@) == text::views(old(problems)@).push(problem@),
{
    problems.push(problem.to_string());
    assert(text::views(problems@) =~= text::views(old(problems)@).push(problem@));
}

/// What is wrong with the printer, from its answers to the status requests 1, 4
/// and 2. An empty list means it is ready.
pub fn problems_of(printer: Option<u8>, paper: Option<u8>, offline: Option<u8>) -> (r: Vec<String>)
    ensures
        text::views(r@) == complaints(printer, paper, offline),
{
    let mut problems: Vec<String> = Vec::new();
    if let Some(s) = printer {
        if s & 0x08 != 0 {
            complain(&mut problems, "printer is offline");
        }
    }
    if let Some(p) = paper {
        if p & 0x60 != 0 {
            complain(&mut problems, "out of paper");
        } else if p & 0x0c != 0 {
            complain(&mut problems, "paper nearly out");
        }
    }
    if let Some(o) = offline {
        if o & 0x04 != 0 {
            complain(&mut problems, "cover is open");
        }
        if o & 0x40 != 0 {
            complain(&mut problems, "printer is in an error state");
        }
    }
    assert(text::views(problems@) =~= complaints(printer, paper, offline));
    problems
}

/// Only an open cover, an empty roll or an error state stops a print. The near-end
/// sensor trips with metres still on the roll, so it is a warning.
pub open spec fn blocks(problem: Seq<char>) -> bool {
    problem == "cover is open"@ || problem == "out of paper"@ || problem
        == "printer is in an error state"@
}

pub open spec fn blocking(problems: Seq<Seq<char>>) -> Seq<Seq<char>> {
    problems.filter(|p: Seq<char>| blocks(p))
}

/// Whether the problem stops a print.
pub fn is_blocking(problem: &str) -> (r: bool)
    ensures
        r == blocks(problem@),
{
    same(problem, "cover is open") || same(problem, "out of paper") || same(
        problem,
        "printer is in an error state",
    )
}

/// The problems that stop a print, without the warnings.
pub fn blockers(problems: &[String]) -> (r: Vec<String>)
    ensures
        text::views(r@) == blocking(text::views(problems@)),
{
    let mut out: Vec<String> = Vec::new();
    let ghost all = text::views(problems@);
    proof {
        reveal(Seq::filter);
    }
    assert(text::views(out@) =~= blocking(all.take(0)));
    for i in 0..problems.len()
        invariant
            all == text::views(problems@),
            text::views(out@) == blocking(all.take(i as int)),
    {
        proof {
            reveal(Seq::filter);
        }
        assert(all.take(i + 1).drop_last() =~= all.take(i as int));
        assert(all.take(i + 1).last() == problems@[i as int]@);
        if is_blocking(problems[i].as_str()) {
            complain(&mut out, problems[i].as_str());
        }
    }
    assert(all.take(problems@.len() as int) =~= all);
    out
}

/// A warning is not a refusal: a printer with paper, its cover shut and no error
/// is not stopped by anything, however little paper is left and whatever its
/// online bit says.
pub proof fn warnings_do_not_block(printer: Option<u8>, paper: Option<u8>, offline: Option<u8>)
    requires
        paper matches Some(p) ==> p & 0x60 == 0,
        offline matches Some(o) ==> o & 0x04 == 0 && o & 0x40 == 0,
    ensures
        blocking(complaints(printer, paper, offline)) == Seq::<Seq<char>>::empty(),
{
    reveal_strlit("printer is offline");
    reveal_strlit("out of paper");
    reveal_strlit("paper nearly out");
    reveal_strlit("cover is open");
    reveal_strlit("printer is in an error state");
    let all = complaints(printer, paper, offline);
    assert("printer is offline"@.len() == 18);
    assert("paper nearly out"@.len() == 16);
    assert(forall|i: int| 0 <= i < all.len() ==> !blocks(#[trigger] all[i]));
    all.lemma_all_neg_filter_empty(|p: Seq<char>| blocks(p));
    assert(blocking(all).len() == 0);
}

/// What does stop a print: an empty roll, an open cover or an error state, each
/// whatever else holds.
pub proof fn real_trouble_blocks(printer: Option<u8>, paper: Option<u8>, offline: Option<u8>)
    requires
        ({
            ||| (paper matches Some(p) && p & 0x60 != 0)
            ||| (offline matches Some(o) && (o & 0x04 != 0 || o & 0x40 != 0))
        }),
    ensures
        blocking(complaints(printer, paper, offline)).len() > 0,
{
    let all = complaints(printer, paper, offline);
    let a = (match printer {
        Some(s) if s & 0x08 != 0 => 1int,
        _ => 0,
    });
    let b = (match paper {
        Some(p) if p & 0x60 != 0 => 1int,
        Some(p) if p & 0x0c != 0 => 1int,
        _ => 0,
    });
    let i = if paper matches Some(p) && p & 0x60 != 0 {
        a
    } else {
        a + b
    };
    assert(blocks(all[i]));
    all.lemma_filter_contains(|p: Seq<char>| blocks(p), i);
    assert(blocking(all).contains(all[i]));
}

/// Each sensor complains for itself, whatever the others say: offline by bit 3 of the
/// first answer; out of paper by bits 5 and 6 of the second, or nearly out by bits 2 and
/// 3; the cover by bit 2 and an error by bit 6 of the third. No answer is no complaint,
/// and nothing else is complained of.
pub proof fn each_sensor_complains_for_itself(
    printer: Option<u8>,
    paper: Option<u8>,
    offline: Option<u8>,
)
    ensures
        ({
            let all = complaints(printer, paper, offline);
            let off = printer matches Some(s) && s & 0x08 != 0;
            let out = paper matches Some(p) && p & 0x60 != 0;
            let low = paper matches Some(p) && p & 0x60 == 0 && p & 0x0c != 0;
            let open = offline matches Some(o) && o & 0x04 != 0;
            let error = offline matches Some(o) && o & 0x40 != 0;
            &&& all.contains("printer is offline"@) <==> off
            &&& all.contains("out of paper"@) <==> out
            &&& all.contains("paper nearly out"@) <==> low
            &&& all.contains("cover is open"@) <==> open
            &&& all.contains("printer is in an error state"@) <==> error
            &&& all.len() == one_if(off) + one_if(out) + one_if(low) + one_if(open) + one_if(error)
        }),
{
    reveal_strlit("printer is offline");
    reveal_strlit("out of paper");
    reveal_strlit("paper nearly out");
    reveal_strlit("cover is open");
    reveal_strlit("printer is in an error state");
    assert("printer is offline"@.len() == 18);
    assert("out of paper"@.len() == 12);
    assert("paper nearly out"@.len() == 16);
    assert("cover is open"@.len() == 13);
    assert("printer is in an error state"@.len() == 28);
    let all = complaints(printer, paper, offline);
    let a = one_if(printer matches Some(s) && s & 0x08 != 0);
    let b = one_if(paper matches Some(p) && (p & 0x60 != 0 || p & 0x0c != 0));
    let c = one_if(offline matches Some(o) && o & 0x04 != 0);
    let d = one_if(offline matches Some(o) && o & 0x40 != 0);
    assert(all.len() == a + b + c + d);
    if a == 1 {
        assert(all[0] == "printer is offline"@);
    }
    if b == 1 {
        assert(all[a] == "out of paper"@ || all[a] == "paper nearly out"@);
        assert(all.contains(all[a]));
    }
    if c == 1 {
        assert(all[a + b] == "cover is open"@);
    }
    if d == 1 {
        assert(all[a + b + c] == "printer is in an error state"@);
    }
}

pub open spec fn one_if(b: bool) -> int {
    if b {
        1
    } else {
        0
    }
}

} // verus!
