//! Choosing the port to read from.
use vstd::prelude::*;
use vstd::utf8::is_ascii_chars;

use crate::args::RunArgs;
use crate::numbers::{
    decimal, flex_number, hex4, law_decimal_is_accepted, law_hex_is_accepted, parse_u16_flex,
};
use crate::ports::{texts, PortInfo, PortType};
use crate::subseq::{
    chars_at, contains_chars, law_found_only_where_it_stands, law_found_wherever_it_stands, occurs,
    occurs_at,
};
use crate::text::{chars_of, joined, law_ascii_lower_case, lowercase, to_lowercase};

verus! {

/// The identifier that a selector asks for; one that is no number asks for
/// nothing.
pub open spec fn wanted_id(selector: Option<String>) -> Option<u16> {
    match selector {
        Some(s) => flex_number(s@),
        None => None,
    }
}

/// `actual` is the identifier that the selector asks for, if it asks for one.
pub open spec fn id_ok(selector: Option<String>, actual: u16) -> bool {
    wanted_id(selector) matches Some(v) ==> actual == v
}

/// The selector's text stands somewhere in the device's text, whatever the case
/// of the letters. A device without that text does not match.
pub open spec fn text_ok(selector: Option<String>, actual: Option<String>) -> bool {
    selector matches Some(s) ==> actual matches Some(t) && occurs(lowercase(t@), lowercase(s@))
}

/// Something is asked for that only a USB device can have.
pub open spec fn asks_for_usb(args: RunArgs) -> bool {
    ||| wanted_id(args.vid) is Some
    ||| wanted_id(args.pid) is Some
    ||| args.manufacturer is Some
    ||| args.product is Some
    ||| args.serial is Some
}

/// The port meets every criterion that was given; each of them applies on its
/// own.
pub open spec fn port_matches(args: RunArgs, p: PortInfo) -> bool {
    match p.port_type {
        PortType::UsbPort(usb) => {
            &&& id_ok(args.vid, usb.vid)
            &&& id_ok(args.pid, usb.pid)
            &&& text_ok(args.manufacturer, usb.manufacturer)
            &&& text_ok(args.product, usb.product)
            &&& text_ok(args.serial, usb.serial_number)
        },
        _ => !asks_for_usb(args),
    }
}

/// The names of the ports that meet every criterion, in the order of `ports`.
pub open spec fn matching(args: RunArgs, ports: Seq<PortInfo>) -> Seq<Seq<char>> {
    ports.filter(|p: PortInfo| port_matches(args, p)).map_values(|p: PortInfo| p.port_name@)
}

/// `prefix` stands at the beginning of `s`.
pub open spec fn has_prefix(s: Seq<char>, prefix: Seq<char>) -> bool {
    occurs_at(s, prefix, 0)
}

/// A port's name without the prefix by which the two names of one device
/// differ.
pub open spec fn unified(name: Seq<char>) -> Seq<char> {
    if has_prefix(name, "/dev/cu."@) {
        name.skip(8)
    } else if has_prefix(name, "/dev/tty."@) {
        name.skip(9)
    } else {
        name
    }
}

/// All of `names` name the same device.
pub open spec fn same_device(names: Seq<Seq<char>>) -> bool {
    forall|i: int| 0 <= i < names.len() ==> unified(#[trigger] names[i]) == unified(names[0])
}

/// What a selection can come to.
pub enum Selection {
    /// The port of this name.
    Found(Seq<char>),
    /// There are no ports at all.
    NoPorts,
    /// No port meets the criteria.
    NoMatch,
    /// Ports of different devices do; these are their names.
    Ambiguous(Seq<Seq<char>>),
}

/// What the selection comes to: a port that was named is taken as it is;
/// otherwise the matching ports must belong to one device, and the first of
/// them is taken.
pub open spec fn selection(args: RunArgs, ports: Seq<PortInfo>) -> Selection {
    let names = matching(args, ports);
    if args.port is Some {
        Selection::Found(args.port->0@)
    } else if ports.len() == 0 {
        Selection::NoPorts
    } else if names.len() == 0 {
        Selection::NoMatch
    } else if same_device(names) {
        Selection::Found(names[0])
    } else {
        Selection::Ambiguous(names)
    }
}

/// Why no port was selected.
#[derive(Debug)]
pub enum SelectError {
    NoPorts,
    NoMatch,
    Ambiguous(Vec<String>),
}

/// What a result of `select_port` says.
pub open spec fn outcome(r: Result<String, SelectError>) -> Selection {
    match r {
        Ok(name) => Selection::Found(name@),
        Err(SelectError::NoPorts) => Selection::NoPorts,
        Err(SelectError::NoMatch) => Selection::NoMatch,
        Err(SelectError::Ambiguous(names)) => Selection::Ambiguous(texts(names@)),
    }
}

/// The text of an error.
pub open spec fn error_text(e: SelectError) -> Seq<char> {
    match e {
        SelectError::NoPorts => "no serial ports detected"@,
        SelectError::NoMatch => "no serial port matched the given selectors"@,
        SelectError::Ambiguous(names) => "multiple serial ports match the given selectors: "@
            + joined(texts(names@), ", "@),
    }
}

impl SelectError {
    /// The text of the error.
    pub fn message(&self) -> (r: String)
        ensures
            r@ == error_text(*self),
    {
        match self {
            SelectError::NoPorts => "no serial ports detected".to_owned(),
            SelectError::NoMatch => "no serial port matched the given selectors".to_owned(),
            SelectError::Ambiguous(names) => {
                let mut out: String =
                    "multiple serial ports match the given selectors: ".to_owned();
                let ghost head = out@;
                let ghost all = texts(names@);
                let n: usize = names.len();
                let mut i: usize = 0;
                assert(all.take(0) =~= Seq::<Seq<char>>::empty());
                assert(out@ =~= head + joined(all.take(0), ", "@));
                while i < n
                    invariant
                        n == names@.len(),
                        i <= n,
                        all == texts(names@),
                        out@ == head + joined(all.take(i as int), ", "@),
                    decreases n - i,
                {
                    if i > 0 {
                        out.append(", ");
                    }
                    out.append(names[i].as_str());
                    proof {
                        let longer = all.take(i + 1);
                        assert(longer.drop_last() =~= all.take(i as int));
                        assert(longer.last() == names@[i as int]@);
                        assert(out@ =~= head + joined(longer, ", "@));
                    }
                    i = i + 1;
                }
                assert(all.take(n as int) =~= all);
                out
            },
        }
    }
}

/// The criteria in the form in which ports are held against them.
struct Criteria {
    vid: Option<u16>,
    pid: Option<u16>,
    manufacturer: Option<Vec<char>>,
    product: Option<Vec<char>>,
    serial: Option<Vec<char>>,
}

/// `wanted` is the selector's text in lower case.
spec fn lowered(wanted: Option<Vec<char>>, selector: Option<String>) -> bool {
    match selector {
        Some(s) => wanted matches Some(w) && w@ == lowercase(s@),
        None => wanted is None,
    }
}

impl Criteria {
    /// These are the criteria that `args` gives.
    spec fn of(self, args: RunArgs) -> bool {
        &&& self.vid == wanted_id(args.vid)
        &&& self.pid == wanted_id(args.pid)
        &&& lowered(self.manufacturer, args.manufacturer)
        &&& lowered(self.product, args.product)
        &&& lowered(self.serial, args.serial)
    }

    fn new(args: &RunArgs) -> (r: Criteria)
        ensures
            r.of(*args),
    {
        Criteria {
            vid: parse_id(&args.vid),
            pid: parse_id(&args.pid),
            manufacturer: lower(&args.manufacturer),
            product: lower(&args.product),
            serial: lower(&args.serial),
        }
    }

    /// Whether the port meets every criterion.
    fn admits(&self, info: &PortInfo, args: Ghost<RunArgs>) -> (r: bool)
        requires
            self.of(args@),
        ensures
            r == port_matches(args@, *info),
    {
        match &info.port_type {
            PortType::UsbPort(usb) => {
                self.vid.unwrap_or(usb.vid) == usb.vid && self.pid.unwrap_or(usb.pid) == usb.pid
                    && stands_in(&self.manufacturer, &usb.manufacturer, Ghost(args@.manufacturer))
                    && stands_in(&self.product, &usb.product, Ghost(args@.product)) && stands_in(
                    &self.serial,
                    &usb.serial_number,
                    Ghost(args@.serial),
                )
            },
            _ => self.vid.is_none() && self.pid.is_none() && self.manufacturer.is_none()
                && self.product.is_none() && self.serial.is_none(),
        }
    }
}

/// The identifier that a selector asks for.
fn parse_id(selector: &Option<String>) -> (r: Option<u16>)
    ensures
        r == wanted_id(*selector),
{
    match selector {
        Some(s) => parse_u16_flex(s.as_str()),
        None => None,
    }
}

/// A selector's text in lower case.
fn lower(selector: &Option<String>) -> (r: Option<Vec<char>>)
    ensures
        lowered(r, *selector),
{
    match selector {
        Some(s) => Some(chars_of(to_lowercase(s.as_str()).as_str())),
        None => None,
    }
}

/// Whether the wanted text, in lower case already, stands in the device's text.
fn stands_in(
    wanted: &Option<Vec<char>>,
    actual: &Option<String>,
    selector: Ghost<Option<String>>,
) -> (r: bool)
    requires
        lowered(*wanted, selector@),
    ensures
        r == text_ok(selector@, *actual),
{
    match wanted {
        None => true,
        Some(w) => match actual {
            None => false,
            Some(t) => {
                let text: Vec<char> = chars_of(to_lowercase(t.as_str()).as_str());
                contains_chars(text.as_slice(), w.as_slice())
            },
        },
    }
}

/// Whether `name` begins with `prefix`.
fn begins_with(name: &Vec<char>, prefix: &str) -> (r: bool)
    ensures
        r == has_prefix(name@, prefix@),
{
    let p: Vec<char> = chars_of(prefix);
    p.len() <= name.len() && chars_at(name.as_slice(), p.as_slice(), 0)
}

/// A port's name without the prefix by which the two names of one device
/// differ.
pub fn unify_name(name: &str) -> (r: &str)
    ensures
        r@ == unified(name@),
{
    let chars: Vec<char> = chars_of(name);
    proof {
        reveal_strlit("/dev/cu.");
        reveal_strlit("/dev/tty.");
    }
    if begins_with(&chars, "/dev/cu.") {
        name.substring_char(8, chars.len())
    } else if begins_with(&chars, "/dev/tty.") {
        name.substring_char(9, chars.len())
    } else {
        name
    }
}

/// Whether the ports have to be enumerated to select one of them.
pub fn needs_enumeration(args: &RunArgs) -> (r: bool)
    ensures
        r == (args.port is None),
{
    args.port.is_none()
}

/// Selects the port to read from among `ports`.
pub fn select_port(args: &RunArgs, ports: &Vec<PortInfo>) -> (r: Result<String, SelectError>)
    ensures
        outcome(r) == selection(*args, ports@),
{
    if let Some(port) = &args.port {
        return Ok(port.clone());
    }
    let n: usize = ports.len();
    if n == 0 {
        return Err(SelectError::NoPorts);
    }
    let criteria: Criteria = Criteria::new(args);
    let mut matches: Vec<String> = Vec::new();
    let mut i: usize = 0;
    assert(texts(matches@) =~= matching(*args, ports@.take(0)));
    while i < n
        invariant
            n == ports@.len(),
            i <= n,
            criteria.of(*args),
            texts(matches@) == matching(*args, ports@.take(i as int)),
        decreases n - i,
    {
        let ghost before = matches@;
        proof {
            lemma_matching_next(*args, ports@, i as int);
        }
        if criteria.admits(&ports[i], Ghost(*args)) {
            matches.push(ports[i].port_name.clone());
            assert(texts(matches@) =~= texts(before).push(ports@[i as int].port_name@));
        }
        i = i + 1;
    }
    assert(ports@.take(n as int) =~= ports@);
    let ghost names = texts(matches@);
    let m: usize = matches.len();
    if m == 0 {
        return Err(SelectError::NoMatch);
    }
    assert(names[0] == matches@[0]@);
    let first: String = unify_name(matches[0].as_str()).to_owned();
    let mut k: usize = 0;
    while k < m
        invariant
            m == matches@.len(),
            m > 0,
            k <= m,
            names == texts(matches@),
            names == matching(*args, ports@),
            n == ports@.len(),
            n > 0,
            args.port is None,
            first@ == unified(names[0]),
            forall|j: int| 0 <= j < k ==> unified(#[trigger] names[j]) == unified(names[0]),
        decreases m - k,
    {
        assert(names[k as int] == matches@[k as int]@);
        if unify_name(matches[k].as_str()).to_owned() != first {
            return Err(SelectError::Ambiguous(matches));
        }
        k = k + 1;
    }
    Ok(matches[0].clone())
}

/// One more port adds its name where it matches.
proof fn lemma_matching_next(args: RunArgs, ports: Seq<PortInfo>, i: int)
    requires
        0 <= i < ports.len(),
    ensures
        matching(args, ports.take(i + 1)) == if port_matches(args, ports[i]) {
            matching(args, ports.take(i)).push(ports[i].port_name@)
        } else {
            matching(args, ports.take(i))
        },
{
    reveal(Seq::filter);
    assert(ports.take(i + 1).drop_last() =~= ports.take(i));
    assert(ports.take(i + 1).last() == ports[i]);
    assert(matching(args, ports.take(i + 1)) =~= if port_matches(args, ports[i]) {
        matching(args, ports.take(i)).push(ports[i].port_name@)
    } else {
        matching(args, ports.take(i))
    });
}

/// A port that was named is taken whatever ports there are, so they need not be
/// enumerated.
pub proof fn law_named_port_is_taken(args: RunArgs, ports: Seq<PortInfo>)
    requires
        args.port is Some,
    ensures
        selection(args, ports) == Selection::Found(args.port->0@),
{
}

/// A matching name is the name of a port that meets every criterion.
proof fn lemma_matching_sound(args: RunArgs, ports: Seq<PortInfo>, k: int) -> (i: int)
    requires
        0 <= k < matching(args, ports).len(),
    ensures
        0 <= i < ports.len(),
        port_matches(args, ports[i]),
        ports[i].port_name@ == matching(args, ports)[k],
{
    let pred = |p: PortInfo| port_matches(args, p);
    let kept = ports.filter(pred);
    assert(kept.contains(kept[k]));
    ports.lemma_filter_pred(pred, k);
    ports.lemma_filter_contains_rev(pred, kept[k]);
    let i: int = choose|i: int| 0 <= i < ports.len() && ports[i] == kept[k];
    i
}

/// The names of the ports that meet every criterion are all there.
proof fn lemma_matching_complete(args: RunArgs, ports: Seq<PortInfo>, i: int)
    requires
        0 <= i < ports.len(),
        port_matches(args, ports[i]),
    ensures
        matching(args, ports).contains(ports[i].port_name@),
{
    let pred = |p: PortInfo| port_matches(args, p);
    let kept = ports.filter(pred);
    ports.lemma_filter_contains(pred, i);
    let k: int = choose|k: int| 0 <= k < kept.len() && kept[k] == ports[i];
    assert(matching(args, ports)[k] == ports[i].port_name@);
}

/// The first matching name is that of the first port that meets every
/// criterion.
proof fn lemma_first_match(args: RunArgs, ports: Seq<PortInfo>) -> (i: int)
    requires
        matching(args, ports).len() > 0,
    ensures
        0 <= i < ports.len(),
        port_matches(args, ports[i]),
        ports[i].port_name@ == matching(args, ports)[0],
        forall|j: int| 0 <= j < i ==> !port_matches(args, #[trigger] ports[j]),
    decreases ports.len(),
{
    let found: int = lemma_matching_sound(args, ports, 0);
    assert(0 <= found < ports.len());
    let last: int = ports.len() - 1;
    let fewer = ports.take(last);
    lemma_matching_next(args, ports, last);
    assert(ports.take(last + 1) =~= ports);
    if matching(args, fewer).len() > 0 {
        let i: int = lemma_first_match(args, fewer);
        assert forall|j: int| 0 <= j < i implies !port_matches(args, #[trigger] ports[j]) by {
            assert(!port_matches(args, fewer[j]));
        }
        i
    } else {
        assert forall|j: int| 0 <= j < last implies !port_matches(args, #[trigger] ports[j]) by {
            if port_matches(args, fewer[j]) {
                lemma_matching_complete(args, fewer, j);
            }
        }
        last
    }
}

/// A port that is found without having been named is there and meets every
/// criterion, and no port before it does.
pub proof fn law_found_port_is_first_match(args: RunArgs, ports: Seq<PortInfo>, name: Seq<char>)
    requires
        args.port is None,
        selection(args, ports) == Selection::Found(name),
    ensures
        exists|i: int|
            0 <= i < ports.len() && port_matches(args, #[trigger] ports[i])
                && ports[i].port_name@ == name && forall|j: int|
                0 <= j < i ==> !port_matches(args, #[trigger] ports[j]),
{
    let i: int = lemma_first_match(args, ports);
    assert(ports[i].port_name@ == name);
}

/// Nothing is picked arbitrarily: without a named port, one is found exactly
/// where a port meets every criterion and all that do belong to one device.
pub proof fn law_found_iff_one_device(args: RunArgs, ports: Seq<PortInfo>)
    requires
        args.port is None,
    ensures
        selection(args, ports) is Found <==> {
            &&& exists|i: int| 0 <= i < ports.len() && port_matches(args, #[trigger] ports[i])
            &&& forall|i: int, j: int|
                0 <= i < ports.len() && 0 <= j < ports.len() && port_matches(
                    args,
                    #[trigger] ports[i],
                ) && port_matches(args, #[trigger] ports[j]) ==> unified(ports[i].port_name@)
                    == unified(ports[j].port_name@)
        },
{
    let names = matching(args, ports);
    if selection(args, ports) is Found {
        let i: int = lemma_matching_sound(args, ports, 0);
        assert(port_matches(args, ports[i]));
        assert forall|i: int, j: int|
            0 <= i < ports.len() && 0 <= j < ports.len() && port_matches(args, #[trigger] ports[i])
                && port_matches(args, #[trigger] ports[j]) implies unified(ports[i].port_name@)
            == unified(ports[j].port_name@) by {
            lemma_matching_complete(args, ports, i);
            lemma_matching_complete(args, ports, j);
            let a: int = choose|a: int| 0 <= a < names.len() && names[a] == ports[i].port_name@;
            let b: int = choose|b: int| 0 <= b < names.len() && names[b] == ports[j].port_name@;
            assert(unified(names[a]) == unified(names[b]));
        }
    } else if names.len() > 0 {
        let k: int = choose|k: int|
            0 <= k < names.len() && unified(#[trigger] names[k]) != unified(names[0]);
        let i: int = lemma_matching_sound(args, ports, k);
        let j: int = lemma_matching_sound(args, ports, 0);
        assert(unified(ports[i].port_name@) != unified(ports[j].port_name@));
    } else {
        assert forall|i: int| 0 <= i < ports.len() implies !port_matches(
            args,
            #[trigger] ports[i],
        ) by {
            if port_matches(args, ports[i]) {
                lemma_matching_complete(args, ports, i);
            }
        }
    }
}

/// `fewer` asks for nothing that `args` does not ask for too.
pub open spec fn asks_less(fewer: RunArgs, args: RunArgs) -> bool {
    &&& fewer.vid is None || fewer.vid == args.vid
    &&& fewer.pid is None || fewer.pid == args.pid
    &&& fewer.manufacturer is None || fewer.manufacturer == args.manufacturer
    &&& fewer.product is None || fewer.product == args.product
    &&& fewer.serial is None || fewer.serial == args.serial
}

/// Criteria apply together: one more can only rule ports out.
pub proof fn law_criteria_narrow(fewer: RunArgs, args: RunArgs, p: PortInfo)
    requires
        asks_less(fewer, args),
    ensures
        port_matches(args, p) ==> port_matches(fewer, p),
{
}

/// Vendor, product, names and serial number are properties of USB devices: once
/// one is asked for, no other port matches.
pub proof fn law_only_usb_has_identity(args: RunArgs, p: PortInfo)
    requires
        asks_for_usb(args),
        port_matches(args, p),
    ensures
        p.port_type is UsbPort,
{
}

/// Two selectors that differ in the case of letters only.
pub open spec fn same_but_case(a: Option<String>, b: Option<String>) -> bool {
    match (a, b) {
        (Some(s), Some(t)) => lowercase(s@) == lowercase(t@),
        (None, None) => true,
        _ => false,
    }
}

/// The case of letters in a manufacturer's name, a product's name or a serial
/// number does not matter.
pub proof fn law_letter_case_does_not_matter(a: RunArgs, b: RunArgs, ports: Seq<PortInfo>)
    requires
        a.port == b.port,
        a.vid == b.vid,
        a.pid == b.pid,
        same_but_case(a.manufacturer, b.manufacturer),
        same_but_case(a.product, b.product),
        same_but_case(a.serial, b.serial),
    ensures
        selection(a, ports) == selection(b, ports),
{
    let f = |p: PortInfo| port_matches(a, p);
    let g = |p: PortInfo| port_matches(b, p);
    assert(f =~= g);
}

/// The two names that one device has, `/dev/cu.x` and `/dev/tty.x`, name the
/// same device.
pub proof fn law_twin_names_are_one_device(x: Seq<char>)
    ensures
        unified("/dev/cu."@ + x) == x,
        unified("/dev/tty."@ + x) == x,
{
    reveal_strlit("/dev/cu.");
    reveal_strlit("/dev/tty.");
    let cu = "/dev/cu."@;
    let tty = "/dev/tty."@;
    assert((cu + x).subrange(0, 8) =~= cu);
    assert((tty + x).subrange(0, 9) =~= tty);
    assert((tty + x).subrange(0, 8)[5] == 't');
    assert(!has_prefix(tty + x, cu));
    assert((cu + x).skip(8) =~= x);
    assert((tty + x).skip(9) =~= x);
}

/// What a port must have to match: a USB device the identifiers that are given
/// and, for each text that is given, that text of its own with the given one
/// somewhere in it, both in lower case; another port matches only where nothing
/// is asked for. An identifier that is no number asks for nothing.
pub proof fn law_matching_ports(args: RunArgs, p: PortInfo)
    ensures
        port_matches(args, p) <==> match p.port_type {
            PortType::UsbPort(usb) => {
                &&& args.vid matches Some(s) ==> flex_number(s@) is None || flex_number(s@) == Some(
                    usb.vid,
                )
                &&& args.pid matches Some(s) ==> flex_number(s@) is None || flex_number(s@) == Some(
                    usb.pid,
                )
                &&& args.manufacturer matches Some(s) ==> usb.manufacturer matches Some(t)
                    && exists|x: Seq<char>, y: Seq<char>|
                    lowercase(t@) == #[trigger] (x + lowercase(s@) + y)
                &&& args.product matches Some(s) ==> usb.product matches Some(t) && exists|
                    x: Seq<char>,
                    y: Seq<char>,
                |
                    lowercase(t@) == #[trigger] (x + lowercase(s@) + y)
                &&& args.serial matches Some(s) ==> usb.serial_number matches Some(t) && exists|
                    x: Seq<char>,
                    y: Seq<char>,
                |
                    lowercase(t@) == #[trigger] (x + lowercase(s@) + y)
            },
            _ => {
                &&& args.vid matches Some(s) ==> flex_number(s@) is None
                &&& args.pid matches Some(s) ==> flex_number(s@) is None
                &&& args.manufacturer is None
                &&& args.product is None
                &&& args.serial is None
            },
        },
{
    if let PortType::UsbPort(usb) = p.port_type {
        lemma_text_ok(args.manufacturer, usb.manufacturer);
        lemma_text_ok(args.product, usb.product);
        lemma_text_ok(args.serial, usb.serial_number);
    }
}

/// A text meets a selector exactly where it is something, the selector's text
/// and something, all in lower case.
proof fn lemma_text_ok(selector: Option<String>, actual: Option<String>)
    ensures
        text_ok(selector, actual) <==> (selector matches Some(s) ==> actual matches Some(t)
            && exists|x: Seq<char>, y: Seq<char>|
            lowercase(t@) == #[trigger] (x + lowercase(s@) + y)),
{
    if let (Some(s), Some(t)) = (selector, actual) {
        let hay = lowercase(t@);
        let needle = lowercase(s@);
        if occurs(hay, needle) {
            law_found_only_where_it_stands(hay, needle);
        }
        if exists|x: Seq<char>, y: Seq<char>| hay == #[trigger] (x + needle + y) {
            let (x, y) = choose|x: Seq<char>, y: Seq<char>| hay == #[trigger] (x + needle + y);
            law_found_wherever_it_stands(x, needle, y);
        }
    }
}

/// Any part of a device's text selects it, whether it stands at the beginning,
/// in the middle or at the end, and in any case of letters: a device whose
/// manufacturer, product or serial number is `a + s + b` meets every selector
/// that differs from `s` in the case of ASCII letters only.
pub proof fn law_any_part_of_a_text_selects(
    args: RunArgs,
    p: PortInfo,
    selector: Seq<char>,
    a: Seq<char>,
    s: Seq<char>,
    b: Seq<char>,
)
    requires
        p.port_type is UsbPort,
        args.vid is None,
        args.pid is None,
        is_ascii_chars(a),
        is_ascii_chars(s),
        is_ascii_chars(b),
        selector.len() == s.len(),
        forall|i: int|
            0 <= i < s.len() ==> {
                ||| #[trigger] selector[i] == s[i]
                ||| 'A' <= selector[i] <= 'Z' && selector[i] as int + 32 == s[i] as int
                ||| 'A' <= s[i] <= 'Z' && s[i] as int + 32 == selector[i] as int
            },
        ({
            let usb = p.port_type->UsbPort_0;
            ||| {
                &&& args.manufacturer matches Some(x)
                &&& x@ == selector
                &&& args.product is None
                &&& args.serial is None
                &&& usb.manufacturer matches Some(t)
                &&& t@ == a + s + b
            }
            ||| {
                &&& args.product matches Some(x)
                &&& x@ == selector
                &&& args.manufacturer is None
                &&& args.serial is None
                &&& usb.product matches Some(t)
                &&& t@ == a + s + b
            }
            ||| {
                &&& args.serial matches Some(x)
                &&& x@ == selector
                &&& args.manufacturer is None
                &&& args.product is None
                &&& usb.serial_number matches Some(t)
                &&& t@ == a + s + b
            }
        }),
    ensures
        port_matches(args, p),
        args.port is None ==> selection(args, seq![p]) == Selection::Found(p.port_name@),
{
    assert forall|i: int| 0 <= i < selector.len() implies '\0' <= #[trigger] selector[i]
        <= '\u{7f}' by {
        assert('\0' <= s[i] <= '\u{7f}');
    }
    assert(is_ascii_chars(selector));
    let whole = a + s + b;
    assert forall|i: int| 0 <= i < whole.len() implies '\0' <= #[trigger] whole[i] <= '\u{7f}' by {
        if i < a.len() {
            assert(whole[i] == a[i]);
        } else if i < a.len() + s.len() {
            assert(whole[i] == s[i - a.len()]);
        } else {
            assert(whole[i] == b[i - a.len() - s.len()]);
        }
    }
    assert(is_ascii_chars(whole));
    law_ascii_lower_case(selector);
    law_ascii_lower_case(s);
    assert forall|i: int| 0 <= i < s.len() implies lowercase(selector)[i] == lowercase(s)[i] by {
        assert(selector[i] == s[i] || 'A' <= selector[i] <= 'Z' && selector[i] as int + 32
            == s[i] as int || 'A' <= s[i] <= 'Z' && s[i] as int + 32 == selector[i] as int);
    }
    assert(lowercase(selector) =~= lowercase(s));
    assert(lowercase(whole) =~= lowercase(a) + lowercase(s) + lowercase(b));
    law_found_wherever_it_stands(lowercase(a), lowercase(s), lowercase(b));
    assert(port_matches(args, p));
    if args.port is None {
        law_one_port(args, p);
    }
}

/// A USB device is selected by its identifiers, given as the list of devices
/// shows them or in decimal; each of the two applies without the other, and
/// another identifier does not select it.
pub proof fn law_identifiers_select(args: RunArgs, p: PortInfo, n: u16)
    requires
        p.port_type is UsbPort,
        args.manufacturer is None,
        args.product is None,
        args.serial is None,
    ensures
        ({
            let usb = p.port_type->UsbPort_0;
            let names = |s: Seq<char>|
                s == decimal(n as nat) || s == seq!['0', 'x'] + hex4(n) || s == seq!['0', 'X']
                    + hex4(n);
            &&& args.pid is None && (args.vid matches Some(s) && names(s@)) ==> (port_matches(
                args,
                p,
            ) <==> usb.vid == n)
            &&& args.vid is None && (args.pid matches Some(s) && names(s@)) ==> (port_matches(
                args,
                p,
            ) <==> usb.pid == n)
        }),
{
    law_decimal_is_accepted(n);
    law_hex_is_accepted(n);
}

/// The only port there is is found exactly where it matches.
pub proof fn law_one_port(args: RunArgs, p: PortInfo)
    requires
        args.port is None,
    ensures
        selection(args, seq![p]) == if port_matches(args, p) {
            Selection::Found(p.port_name@)
        } else {
            Selection::NoMatch
        },
{
    law_matches_keep_their_order(args, seq![], p, seq![]);
    assert(Seq::<PortInfo>::empty() + seq![p] + seq![] =~= seq![p]);
    assert(matching(args, seq![]) =~= Seq::<Seq<char>>::empty());
    assert(matching(args, seq![p]) =~= if port_matches(args, p) {
        seq![p.port_name@]
    } else {
        seq![]
    });
}

/// The matching names are those of the matching ports, each in its place among
/// the others; a port that does not match leaves no trace.
pub proof fn law_matches_keep_their_order(
    args: RunArgs,
    a: Seq<PortInfo>,
    p: PortInfo,
    b: Seq<PortInfo>,
)
    ensures
        port_matches(args, p) ==> matching(args, a + seq![p] + b) == matching(args, a) + seq![
            p.port_name@,
        ] + matching(args, b),
        !port_matches(args, p) ==> matching(args, a + seq![p] + b) == matching(args, a) + matching(
            args,
            b,
        ),
        matching(args, seq![]) == Seq::<Seq<char>>::empty(),
{
    lemma_matching_concat(args, a + seq![p], b);
    lemma_matching_next(args, a + seq![p], a.len() as int);
    assert((a + seq![p]).take(a.len() as int + 1) =~= a + seq![p]);
    assert((a + seq![p]).take(a.len() as int) =~= a);
    assert(matching(args, seq![]) =~= Seq::<Seq<char>>::empty());
    if port_matches(args, p) {
        assert(matching(args, a).push(p.port_name@) =~= matching(args, a) + seq![p.port_name@]);
    }
}

proof fn lemma_matching_concat(args: RunArgs, a: Seq<PortInfo>, b: Seq<PortInfo>)
    ensures
        matching(args, a + b) == matching(args, a) + matching(args, b),
    decreases b.len(),
{
    if b.len() == 0 {
        assert(a + b =~= a);
        assert(matching(args, b) =~= Seq::<Seq<char>>::empty());
        assert(matching(args, a) + matching(args, b) =~= matching(args, a));
    } else {
        let last: int = b.len() - 1;
        lemma_matching_concat(args, a, b.take(last));
        lemma_matching_next(args, b, last);
        lemma_matching_next(args, a + b, a.len() + last);
        assert(b.take(last + 1) =~= b);
        assert((a + b).take(a.len() + last + 1) =~= a + b);
        assert((a + b).take(a.len() + last) =~= a + b.take(last));
        assert(matching(args, a + b) =~= matching(args, a) + matching(args, b));
    }
}

/// Why nothing is found: there are no ports, none of them matches, or ports of
/// different devices do, and then the error names all that match, in their
/// order.
pub proof fn law_errors_say_why(args: RunArgs, ports: Seq<PortInfo>)
    requires
        args.port is None,
    ensures
        selection(args, ports) is NoPorts <==> ports.len() == 0,
        selection(args, ports) is NoMatch <==> ports.len() > 0 && forall|i: int|
            0 <= i < ports.len() ==> !port_matches(args, #[trigger] ports[i]),
        selection(args, ports) is Ambiguous <==> exists|i: int, j: int|
            0 <= i < ports.len() && 0 <= j < ports.len() && port_matches(args, #[trigger] ports[i])
                && port_matches(args, #[trigger] ports[j]) && unified(ports[i].port_name@)
                != unified(ports[j].port_name@),
        selection(args, ports) matches Selection::Ambiguous(names) ==> names == matching(
            args,
            ports,
        ),
{
    law_found_iff_one_device(args, ports);
    let names = matching(args, ports);
    if names.len() > 0 {
        let i: int = lemma_matching_sound(args, ports, 0);
        assert(port_matches(args, ports[i]));
    } else {
        assert forall|i: int| 0 <= i < ports.len() implies !port_matches(
            args,
            #[trigger] ports[i],
        ) by {
            if port_matches(args, ports[i]) {
                lemma_matching_complete(args, ports, i);
            }
        }
    }
}

/// A name with neither prefix is left as it is.
pub proof fn law_other_names_are_kept(name: Seq<char>)
    requires
        forall|x: Seq<char>| name != #[trigger] ("/dev/cu."@ + x),
        forall|x: Seq<char>| name != #[trigger] ("/dev/tty."@ + x),
    ensures
        unified(name) == name,
{
    reveal_strlit("/dev/cu.");
    reveal_strlit("/dev/tty.");
    if has_prefix(name, "/dev/cu."@) {
        assert(name =~= "/dev/cu."@ + name.skip(8));
    }
    if has_prefix(name, "/dev/tty."@) {
        assert(name =~= "/dev/tty."@ + name.skip(9));
    }
}

/// What the result says is what it holds.
pub proof fn law_result_says_what_it_holds(name: String, names: Vec<String>)
    ensures
        outcome(Ok(name)) == Selection::Found(name@),
        outcome(Err(SelectError::NoPorts)) == Selection::NoPorts,
        outcome(Err(SelectError::NoMatch)) == Selection::NoMatch,
        outcome(Err(SelectError::Ambiguous(names))) == Selection::Ambiguous(
            names@.map_values(|s: String| s@),
        ),
{
}

/// The error on several devices names all of them behind its text.
pub proof fn law_ambiguity_names_the_ports(names: Vec<String>)
    ensures
        error_text(SelectError::Ambiguous(names))
            == "multiple serial ports match the given selectors: "@ + joined(
            names@.map_values(|s: String| s@),
            ", "@,
        ),
        error_text(SelectError::NoPorts) == "no serial ports detected"@,
        error_text(SelectError::NoMatch) == "no serial port matched the given selectors"@,
{
}

} // verus!
