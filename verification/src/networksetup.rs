//! Reading the output of macOS's `networksetup` tool: the ordered list of
//! network services with their hardware ports and devices, the list of all
//! network services, and the lookup of the service that drives a device.

use vstd::prelude::*;
use vstd::utf8::*;
use crate::error::ServiceError;
use crate::text::{is_first_occurrence, lemma_first_occurrence_unique, occurs_at, is_single_line, lemma_split_first_line, lemma_split_single_line, lemma_trim_idempotent, utf8_error_of, chars_of, decode_text, find_in, find_str, is_ascii_char, line_bounds, split_lines, string_of, trim, trim_bounds};

verus! {

/// A network service as `networksetup -listnetworkserviceorder` lists it:
/// its name, its hardware port and its device.
pub type ServiceEntry = (String, String, String);

/// The characters of a [`ServiceEntry`].
pub type EntryView = (Seq<char>, Seq<char>, Seq<char>);

pub open spec fn entry_view(e: ServiceEntry) -> EntryView {
    (e.0@, e.1@, e.2@)
}

pub open spec fn entries_view(v: Seq<ServiceEntry>) -> Seq<EntryView> {
    v.map_values(|e: ServiceEntry| entry_view(e))
}

pub open spec fn opt_view(o: Option<String>) -> Option<Seq<char>> {
    match o {
        Some(s) => Some(s@),
        None => None,
    }
}

pub open spec fn opt_entry_view(o: Option<ServiceEntry>) -> Option<EntryView> {
    match o {
        Some(e) => Some(entry_view(e)),
        None => None,
    }
}

/// The label before a hardware port: `Port:`.
pub open spec fn port_label() -> Seq<char> {
    seq!['P', 'o', 'r', 't', ':']
}

/// The label before a device: `, Device:`.
pub open spec fn device_label() -> Seq<char> {
    seq![',', ' ', 'D', 'e', 'v', 'i', 'c', 'e', ':']
}

/// A line that the listing's parser looks at: one that starts with `(`.
pub open spec fn is_item_line(line: Seq<char>) -> bool {
    line.len() > 0 && line[0] == '('
}

/// What lies between the opening and the closing bracket of a detail line.
pub open spec fn bracket_inner(line: Seq<char>) -> Seq<char> {
    line.subrange(1, line.len() - 1)
}

/// Whether the parser's slicing of `line` stays within character boundaries
/// and in order. Only a detail line (one that follows a service's name) is
/// sliced in ways that can fail: it must hold at least two characters and end
/// in a one-byte character, and where both labels occur, the port label must
/// end before the device label starts.
pub open spec fn step_slices_ok(pending: Option<Seq<char>>, line: Seq<char>) -> bool {
    (is_item_line(line) && pending is Some) ==> {
        &&& line.len() >= 2
        &&& is_ascii_char(line.last())
        &&& match (
            find_str(bracket_inner(line), port_label()),
            find_str(bracket_inner(line), device_label()),
        ) {
            (Some(pi), Some(di)) => pi + 5 <= di,
            _ => true,
        }
    }
}

/// One line of the listing: the name of the service that waits for its
/// detail line, and the entry that the line completes, if any.
///
/// A line that does not start with `(` changes nothing. With no service
/// waiting, a line such as `(1) Wi-Fi` names one: what follows its first
/// `)`, trimmed. With a service waiting, a line such as
/// `(Hardware Port: Wi-Fi, Device: en0)` completes it with the trimmed text
/// between `Port:` and `, Device:` and the trimmed text after `, Device:` up
/// to the closing bracket; a line without both labels leaves it waiting.
pub open spec fn order_step(pending: Option<Seq<char>>, line: Seq<char>) -> (
    Option<Seq<char>>,
    Option<EntryView>,
) {
    if !is_item_line(line) {
        (pending, None)
    } else {
        match pending {
            None => match find_str(line, seq![')']) {
                Some(ri) => (Some(trim(line.skip(ri + 1))), None),
                None => (None, None),
            },
            Some(service) => {
                let inner = bracket_inner(line);
                match (find_str(inner, port_label()), find_str(inner, device_label())) {
                    (Some(pi), Some(di)) => (
                        None,
                        Some(
                            (service, trim(inner.subrange(pi + 5, di)), trim(inner.skip(di + 9))),
                        ),
                    ),
                    _ => (pending, None),
                }
            },
        }
    }
}

/// The entries that `lines` complete, starting with `pending` waiting.
pub open spec fn order_entries(lines: Seq<Seq<char>>, pending: Option<Seq<char>>) -> Seq<
    EntryView,
>
    decreases lines.len(),
{
    if lines.len() == 0 {
        seq![]
    } else {
        let (next, entry) = order_step(pending, lines[0]);
        let rest = order_entries(lines.drop_first(), next);
        match entry {
            Some(e) => seq![e] + rest,
            None => rest,
        }
    }
}

/// Whether every line of `lines` is sliced within bounds.
pub open spec fn order_slices_ok(lines: Seq<Seq<char>>, pending: Option<Seq<char>>) -> bool
    decreases lines.len(),
{
    lines.len() == 0 || (step_slices_ok(pending, lines[0]) && order_slices_ok(
        lines.drop_first(),
        order_step(pending, lines[0]).0,
    ))
}

/// The services that a `networksetup -listnetworkserviceorder` listing
/// names, in order; its first line is a hint and is skipped.
pub open spec fn service_order(text: Seq<char>) -> Seq<EntryView> {
    order_entries(split_lines(text).skip(1), None)
}

/// Whether the listing can be read without slicing out of bounds.
pub open spec fn service_order_ok(text: Seq<char>) -> bool {
    order_slices_ok(split_lines(text).skip(1), None)
}

pub proof fn lemma_split_lines_nonempty(s: Seq<char>)
    ensures
        split_lines(s).len() >= 1,
{
}

/// A text with no whitespace at either end.
pub open spec fn is_trimmed(s: Seq<char>) -> bool {
    trim(s) == s
}

proof fn lemma_order_entries_trimmed(lines: Seq<Seq<char>>, pending: Option<Seq<char>>)
    requires
        pending matches Some(p) ==> is_trimmed(p),
    ensures
        forall|k: int|
            0 <= k < order_entries(lines, pending).len() ==> {
                let e = #[trigger] order_entries(lines, pending)[k];
                is_trimmed(e.0) && is_trimmed(e.1) && is_trimmed(e.2)
            },
    decreases lines.len(),
{
    if lines.len() > 0 {
        let line = lines[0];
        let (next, entry) = order_step(pending, line);
        if is_item_line(line) {
            match pending {
                None => {
                    match find_str(line, seq![')']) {
                        Some(ri) => lemma_trim_idempotent(line.skip(ri + 1)),
                        None => {},
                    }
                },
                Some(service) => {
                    let inner = bracket_inner(line);
                    match (find_str(inner, port_label()), find_str(inner, device_label())) {
                        (Some(pi), Some(di)) => {
                            lemma_trim_idempotent(inner.subrange(pi + 5, di));
                            lemma_trim_idempotent(inner.skip(di + 9));
                        },
                        _ => {},
                    }
                },
            }
        }
        lemma_order_entries_trimmed(lines.drop_first(), next);
        let rest = order_entries(lines.drop_first(), next);
        match entry {
            Some(e) => {
                assert forall|k: int| 0 <= k < order_entries(lines, pending).len() implies {
                    let f = #[trigger] order_entries(lines, pending)[k];
                    is_trimmed(f.0) && is_trimmed(f.1) && is_trimmed(f.2)
                } by {
                    if k > 0 {
                        assert(order_entries(lines, pending)[k] == rest[k - 1]);
                    }
                }
            },
            None => {},
        }
    }
}

/// Every service, hardware port and device that the listing yields is
/// trimmed: none starts or ends with whitespace.
pub proof fn law_service_order_trimmed(text: Seq<char>)
    ensures
        forall|k: int|
            0 <= k < service_order(text).len() ==> {
                let e = #[trigger] service_order(text)[k];
                is_trimmed(e.0) && is_trimmed(e.1) && is_trimmed(e.2)
            },
{
    lemma_order_entries_trimmed(split_lines(text).skip(1), None);
}

proof fn lemma_insert_non_item_line(
    lines: Seq<Seq<char>>,
    pending: Option<Seq<char>>,
    i: int,
    x: Seq<char>,
)
    requires
        0 <= i <= lines.len(),
        !is_item_line(x),
    ensures
        order_entries(lines.insert(i, x), pending) == order_entries(lines, pending),
        order_slices_ok(lines.insert(i, x), pending) == order_slices_ok(lines, pending),
    decreases i,
{
    let ins = lines.insert(i, x);
    if i == 0 {
        assert(ins[0] == x);
        assert(ins.drop_first() =~= lines);
    } else {
        assert(ins[0] == lines[0]);
        assert(ins.drop_first() =~= lines.drop_first().insert(i - 1, x));
        lemma_insert_non_item_line(lines.drop_first(), order_step(pending, lines[0]).0, i - 1, x);
    }
}

/// A line that does not start with `(`, inserted anywhere after the hint
/// line, changes neither the services read from the listing nor whether it
/// can be read.
pub proof fn law_non_item_lines_ignored(text1: Seq<char>, text2: Seq<char>, i: int, x: Seq<char>)
    requires
        1 <= i <= split_lines(text1).len(),
        split_lines(text2) == split_lines(text1).insert(i, x),
        !is_item_line(x),
    ensures
        service_order(text2) == service_order(text1),
        service_order_ok(text2) == service_order_ok(text1),
{
    lemma_split_lines_nonempty(text1);
    assert(split_lines(text2).skip(1) =~= split_lines(text1).skip(1).insert(i - 1, x));
    lemma_insert_non_item_line(split_lines(text1).skip(1), None, i - 1, x);
}

/// Lines that do not start with `(`, inserted together anywhere after the
/// hint line, change neither the services read from the listing nor whether
/// it can be read.
pub proof fn law_non_item_blocks_ignored(
    text1: Seq<char>,
    text2: Seq<char>,
    i: int,
    extra: Seq<Seq<char>>,
)
    requires
        1 <= i <= split_lines(text1).len(),
        split_lines(text2) == split_lines(text1).take(i) + extra + split_lines(text1).skip(i),
        forall|k: int| 0 <= k < extra.len() ==> !is_item_line(#[trigger] extra[k]),
    ensures
        service_order(text2) == service_order(text1),
        service_order_ok(text2) == service_order_ok(text1),
{
    let lines = split_lines(text1).skip(1);
    lemma_split_lines_nonempty(text1);
    assert(split_lines(text2).skip(1) =~= lines.take(i - 1) + extra + lines.skip(i - 1));
    lemma_insert_non_item_block(lines, None, i - 1, extra);
}

proof fn lemma_insert_non_item_block(
    lines: Seq<Seq<char>>,
    pending: Option<Seq<char>>,
    i: int,
    extra: Seq<Seq<char>>,
)
    requires
        0 <= i <= lines.len(),
        forall|k: int| 0 <= k < extra.len() ==> !is_item_line(#[trigger] extra[k]),
    ensures
        order_entries(lines.take(i) + extra + lines.skip(i), pending) == order_entries(
            lines,
            pending,
        ),
        order_slices_ok(lines.take(i) + extra + lines.skip(i), pending) == order_slices_ok(
            lines,
            pending,
        ),
    decreases extra.len(),
{
    if extra.len() == 0 {
        assert(lines.take(i) + extra + lines.skip(i) =~= lines);
    } else {
        let shorter = extra.drop_last();
        let base = lines.take(i) + shorter + lines.skip(i);
        assert(lines.take(i) + extra + lines.skip(i) =~= base.insert(
            i + shorter.len(),
            extra.last(),
        ));
        assert(!is_item_line(extra[extra.len() - 1]));
        lemma_insert_non_item_line(base, pending, i + shorter.len(), extra.last());
        assert forall|k: int| 0 <= k < shorter.len() implies !is_item_line(#[trigger] shorter[k]) by {
            assert(shorter[k] == extra[k]);
        }
        lemma_insert_non_item_block(lines, pending, i, shorter);
    }
}

/// The first line of the listing, the hint, never changes what is read from
/// it, whatever it holds.
pub proof fn law_hint_line_ignored(h1: Seq<char>, h2: Seq<char>, rest: Seq<char>)
    requires
        is_single_line(h1),
        is_single_line(h2),
    ensures
        service_order(h1 + seq!['\n'] + rest) == service_order(h2 + seq!['\n'] + rest),
        service_order_ok(h1 + seq!['\n'] + rest) == service_order_ok(h2 + seq!['\n'] + rest),
{
    lemma_split_first_line(h1, rest);
    lemma_split_first_line(h2, rest);
    assert((seq![h1] + split_lines(rest)).skip(1) =~= split_lines(rest));
    assert((seq![h2] + split_lines(rest)).skip(1) =~= split_lines(rest));
}

/// A listing of a single line (no `'\n'`) names no services.
pub proof fn law_single_line_listing_is_empty(text: Seq<char>)
    requires
        is_single_line(text),
    ensures
        service_order(text) == Seq::<EntryView>::empty(),
        service_order_ok(text),
{
    lemma_split_single_line(text);
    assert(seq![text].skip(1) =~= Seq::<Seq<char>>::empty());
}

/// A line that names a service: `(`, a number free of `)`, `)`, and the name.
pub open spec fn service_line(number: Seq<char>, name: Seq<char>) -> Seq<char> {
    seq!['('] + number + seq![')'] + name
}

/// What lies between the brackets of a detail line: some text, `Port:`, the
/// port, `, Device:`, and the device.
pub open spec fn detail_inner(
    lead: Seq<char>,
    port: Seq<char>,
    device: Seq<char>,
) -> Seq<char> {
    lead + port_label() + port + device_label() + device
}

/// A detail line: its inner text in brackets.
pub open spec fn detail_line(lead: Seq<char>, port: Seq<char>, device: Seq<char>) -> Seq<char> {
    seq!['('] + detail_inner(lead, port, device) + seq![')']
}

/// The labels of a detail line occur first where the line puts them: no
/// `Port:` starts inside the leading text, and no `, Device:` starts before
/// the device label.
pub open spec fn labels_in_place(lead: Seq<char>, port: Seq<char>, device: Seq<char>) -> bool {
    let inner = detail_inner(lead, port, device);
    &&& forall|j: int| 0 <= j < lead.len() ==> !#[trigger] occurs_at(inner, port_label(), j)
    &&& forall|j: int|
        0 <= j < lead.len() + 5 + port.len() ==> !#[trigger] occurs_at(inner, device_label(), j)
}

/// With no service waiting, a service line makes the text after its first
/// `)`, trimmed, the waiting service, whatever that text holds (brackets
/// included), and completes no entry.
pub proof fn law_service_named_after_first_bracket(number: Seq<char>, name: Seq<char>)
    requires
        forall|j: int| 0 <= j < number.len() ==> number[j] != ')',
    ensures
        order_step(None, service_line(number, name)) == (
            Some(trim(name)),
            None::<EntryView>,
        ),
        step_slices_ok(None, service_line(number, name)),
{
    let line = service_line(number, name);
    let r: int = (number.len() + 1) as int;
    assert(line[0] == '(');
    assert(line.subrange(r, r + 1) =~= seq![')']);
    assert forall|j: int| 0 <= j < r implies !occurs_at(line, seq![')'], j) by {
        assert(line.subrange(j, j + 1)[0] == line[j]);
        if j > 0 {
            assert(line[j] == number[j - 1]);
        }
    }
    lemma_first_occurrence_unique(line, seq![')'], r);
    assert(line.skip(r + 1) =~= name);
}

/// With a service waiting, a detail line whose labels stand in place
/// completes it with the trimmed port and the trimmed device, whatever they
/// hold (an empty device too), and leaves no service waiting.
pub proof fn law_detail_line_completes_service(
    service: Seq<char>,
    lead: Seq<char>,
    port: Seq<char>,
    device: Seq<char>,
)
    requires
        labels_in_place(lead, port, device),
    ensures
        order_step(Some(service), detail_line(lead, port, device)) == (
            None::<Seq<char>>,
            Some((service, trim(port), trim(device))),
        ),
        step_slices_ok(Some(service), detail_line(lead, port, device)),
{
    let inner = detail_inner(lead, port, device);
    let line = detail_line(lead, port, device);
    let pi = lead.len() as int;
    let di: int = (lead.len() + 5 + port.len()) as int;
    assert(line[0] == '(');
    assert(line.last() == ')');
    assert(bracket_inner(line) =~= inner);
    assert(inner.subrange(pi, pi + 5) =~= port_label());
    assert(inner.subrange(di, di + 9) =~= device_label());
    lemma_first_occurrence_unique(inner, port_label(), pi);
    lemma_first_occurrence_unique(inner, device_label(), di);
    assert(inner.subrange(pi + 5, di) =~= port);
    assert(inner.skip(di + 9) =~= device);
}

/// A service line followed by its detail line yields one entry, made of the
/// service's name and the detail line's port and device, and the listing
/// goes on after them as if they were not there.
pub proof fn law_service_and_detail_make_an_entry(
    number: Seq<char>,
    name: Seq<char>,
    lead: Seq<char>,
    port: Seq<char>,
    device: Seq<char>,
    rest: Seq<Seq<char>>,
)
    requires
        forall|j: int| 0 <= j < number.len() ==> number[j] != ')',
        labels_in_place(lead, port, device),
    ensures
        order_entries(
            seq![service_line(number, name), detail_line(lead, port, device)] + rest,
            None,
        ) == seq![(trim(name), trim(port), trim(device))] + order_entries(rest, None),
        order_slices_ok(
            seq![service_line(number, name), detail_line(lead, port, device)] + rest,
            None,
        ) == order_slices_ok(rest, None),
{
    let sl = service_line(number, name);
    let dl = detail_line(lead, port, device);
    law_service_named_after_first_bracket(number, name);
    law_detail_line_completes_service(trim(name), lead, port, device);
    let lines = seq![sl, dl] + rest;
    let tail = lines.drop_first();
    assert(lines[0] == sl);
    assert(tail[0] == dl);
    assert(tail.drop_first() =~= rest);
    lemma_order_unfold(tail, Some(trim(name)));
    lemma_order_unfold(lines, None);
}

proof fn lemma_order_unfold(lines: Seq<Seq<char>>, pending: Option<Seq<char>>)
    requires
        lines.len() > 0,
    ensures
        order_entries(lines, pending) == match order_step(pending, lines[0]).1 {
            Some(e) => seq![e] + order_entries(
                lines.drop_first(),
                order_step(pending, lines[0]).0,
            ),
            None => order_entries(lines.drop_first(), order_step(pending, lines[0]).0),
        },
        order_slices_ok(lines, pending) == (step_slices_ok(pending, lines[0]) && order_slices_ok(
            lines.drop_first(),
            order_step(pending, lines[0]).0,
        )),
{
}

/// With no service waiting, a line that starts with `(` but holds no `)`
/// changes nothing.
pub proof fn law_unclosed_line_names_nothing(line: Seq<char>)
    requires
        line.len() > 0,
        line[0] == '(',
        forall|j: int| 0 <= j < line.len() ==> line[j] != ')',
    ensures
        order_step(None, line) == (None::<Seq<char>>, None::<EntryView>),
        step_slices_ok(None, line),
{
    assert forall|j: int| !is_first_occurrence(line, seq![')'], j) by {
        if occurs_at(line, seq![')'], j) {
            assert(line.subrange(j, j + 1)[0] == line[j]);
        }
    }
}

/// With a service waiting, a bracketed line that lacks one of the two labels
/// leaves the service waiting and completes nothing.
pub proof fn law_detail_without_labels_keeps_waiting(service: Seq<char>, line: Seq<char>)
    requires
        line.len() >= 2,
        line[0] == '(',
        (forall|j: int| !occurs_at(bracket_inner(line), port_label(), j)) || (forall|j: int|
            !occurs_at(bracket_inner(line), device_label(), j)),
    ensures
        order_step(Some(service), line) == (Some(service), None::<EntryView>),
{
}

/// With a service waiting, a bracketed line is sliced out of bounds when it
/// is a lone `(`, when it ends in a character of more than one byte, or when
/// its first `, Device:` starts before its first `Port:` ends.
pub proof fn law_detail_slicing_failures(service: Seq<char>, line: Seq<char>, pi: int, di: int)
    requires
        line.len() > 0,
        line[0] == '(',
    ensures
        line.len() < 2 ==> !step_slices_ok(Some(service), line),
        line.len() >= 2 && (line.last() as u32) >= 0x80 ==> !step_slices_ok(Some(service), line),
        line.len() >= 2 && is_first_occurrence(bracket_inner(line), port_label(), pi)
            && is_first_occurrence(bracket_inner(line), device_label(), di) && pi + 5 > di
            ==> !step_slices_ok(Some(service), line),
{
    if line.len() >= 2 && is_first_occurrence(bracket_inner(line), port_label(), pi)
        && is_first_occurrence(bracket_inner(line), device_label(), di) {
        lemma_first_occurrence_unique(bracket_inner(line), port_label(), pi);
        lemma_first_occurrence_unique(bracket_inner(line), device_label(), di);
    }
}

/// The listing's services are read from the lines after the first one, all
/// of them: the hint line alone is skipped.
pub proof fn law_listing_reads_after_hint(h: Seq<char>, rest: Seq<char>)
    requires
        is_single_line(h),
    ensures
        service_order(h + seq!['\n'] + rest) == order_entries(split_lines(rest), None),
        service_order_ok(h + seq!['\n'] + rest) == order_slices_ok(split_lines(rest), None),
{
    lemma_split_first_line(h, rest);
    assert((seq![h] + split_lines(rest)).skip(1) =~= split_lines(rest));
}

/// One line `v[a..b]` of the listing, with `pending` waiting: `None` where
/// the line would be sliced out of bounds, else the service that waits after
/// it and the entry that it completes.
fn order_step_exec(
    v: &Vec<char>,
    a: usize,
    b: usize,
    pending: Option<String>,
    close: &Vec<char>,
    port: &Vec<char>,
    device: &Vec<char>,
) -> (r: Option<(Option<String>, Option<ServiceEntry>)>)
    requires
        a <= b <= v.len(),
        close@ == seq![')'],
        port@ == port_label(),
        device@ == device_label(),
    ensures
        r is Some <==> step_slices_ok(opt_view(pending), v@.subrange(a as int, b as int)),
        r matches Some(x) ==> (opt_view(x.0), opt_entry_view(x.1)) == order_step(
            opt_view(pending),
            v@.subrange(a as int, b as int),
        ),
{
    let ghost line = v@.subrange(a as int, b as int);
    if !(a < b && v[a] == '(') {
        return Some((pending, None));
    }
    assert(is_item_line(line));
    match pending {
        None => {
            match find_in(v, a, b, close) {
                Some(ri) => {
                    assert(line.skip(ri - a + 1) =~= v@.subrange(ri + 1, b as int));
                    let (x, y) = trim_bounds(v, ri + 1, b);
                    let service = string_of(v, x, y);
                    Some((Some(service), None))
                },
                None => Some((None, None)),
            }
        },
        Some(service) => {
            if !(b - a >= 2 && (v[b - 1] as u32) < 0x80) {
                return None;
            }
            assert(line.last() == v@[b - 1]);
            let ghost inner = bracket_inner(line);
            assert(inner =~= v@.subrange(a + 1, b - 1));
            let pi = find_in(v, a + 1, b - 1, port);
            let di = find_in(v, a + 1, b - 1, device);
            match (pi, di) {
                (Some(pi), Some(di)) => {
                    if pi + 5 > di {
                        return None;
                    }
                    assert(inner.subrange(pi - (a + 1) + 5, di - (a + 1)) =~= v@.subrange(
                        pi + 5,
                        di as int,
                    ));
                    assert(inner.skip(di - (a + 1) + 9) =~= v@.subrange(di + 9, b - 1));
                    let (px, py) = trim_bounds(v, pi + 5, di);
                    let (dx, dy) = trim_bounds(v, di + 9, b - 1);
                    let port_name = string_of(v, px, py);
                    let device_name = string_of(v, dx, dy);
                    Some((None, Some((service, port_name, device_name))))
                },
                _ => Some((Some(service), None)),
            }
        },
    }
}

/// The services that the listing `text` names, in order, or `None` where
/// reading it would slice a line out of bounds.
pub fn service_order_from_text(text: &String) -> (r: Option<Vec<ServiceEntry>>)
    ensures
        r is Some <==> service_order_ok(text@),
        r matches Some(v) ==> entries_view(v@) == service_order(text@),
{
    let v = chars_of(text);
    let bounds = line_bounds(&v);
    let ghost lines = split_lines(v@);
    proof {
        lemma_split_lines_nonempty(text@);
    }
    assert forall|m: int| #![trigger bounds@[m]] 0 <= m < bounds@.len() implies bounds@[m].0 <= bounds@[m].1 <= v.len()
        && v@.subrange(bounds@[m].0 as int, bounds@[m].1 as int) == lines[m] by {
        assert(v@.subrange(bounds@[m].0 as int, bounds@[m].1 as int) == split_lines(v@)[m]);
    }
    let close: Vec<char> = vec![')'];
    let port: Vec<char> = vec!['P', 'o', 'r', 't', ':'];
    let device: Vec<char> = vec![',', ' ', 'D', 'e', 'v', 'i', 'c', 'e', ':'];
    let mut out: Vec<ServiceEntry> = Vec::new();
    let mut pending: Option<String> = None;
    let mut k: usize = 1;
    while k < bounds.len()
        invariant
            v@ == text@,
            lines == split_lines(v@),
            bounds@.len() == lines.len(),
            forall|m: int|
                #![trigger bounds@[m]]
                0 <= m < bounds@.len() ==> bounds@[m].0 <= bounds@[m].1 <= v.len()
                    && v@.subrange(bounds@[m].0 as int, bounds@[m].1 as int) == lines[m],
            1 <= k <= bounds.len(),
            close@ == seq![')'],
            port@ == port_label(),
            device@ == device_label(),
            entries_view(out@) + order_entries(lines.skip(k as int), opt_view(pending))
                == order_entries(lines.skip(1), None),
            order_slices_ok(lines.skip(1), None) == order_slices_ok(
                lines.skip(k as int),
                opt_view(pending),
            ),
        decreases bounds.len() - k,
    {
        let (a, b) = bounds[k];
        let ghost here = lines.skip(k as int);
        assert(here[0] == lines[k as int]);
        assert(here.drop_first() =~= lines.skip(k + 1));
        let ghost old_out = out@;
        let ghost old_pending = opt_view(pending);
        match order_step_exec(&v, a, b, pending, &close, &port, &device) {
            None => {
                return None;
            },
            Some((next, entry)) => {
                match entry {
                    Some(e) => {
                        out.push(e);
                        assert(entries_view(out@) =~= entries_view(old_out).push(entry_view(e)));
                        assert(entries_view(out@) + order_entries(lines.skip(k + 1), opt_view(next))
                            =~= entries_view(old_out) + order_entries(here, old_pending));
                    },
                    None => {},
                }
                pending = next;
            },
        }
        k = k + 1;
    }
    assert(lines.skip(k as int) =~= Seq::<Seq<char>>::empty());
    assert(entries_view(out@) + Seq::<EntryView>::empty() =~= entries_view(out@));
    Some(out)
}

/// Whether the listing `stdout` can be read by [`listnetworkserviceorder`]:
/// it is not UTF-8 (which that function reports as an error), or none of its
/// lines is sliced out of bounds.
pub fn service_order_listing_ok(stdout: &Vec<u8>) -> (r: bool)
    ensures
        r == (valid_utf8(stdout@) ==> service_order_ok(decode_utf8(stdout@))),
{
    match decode_text(stdout.clone()) {
        Err(_) => true,
        Ok(text) => service_order_from_text(&text).is_some(),
    }
}

/// The services that the output of `networksetup -listnetworkserviceorder`
/// lists, each with its hardware port and device, in the order given.
pub fn listnetworkserviceorder(stdout: Vec<u8>) -> (r: Result<Vec<ServiceEntry>, ServiceError>)
    requires
        valid_utf8(stdout@) ==> service_order_ok(decode_utf8(stdout@)),
    ensures
        r is Ok <==> valid_utf8(stdout@),
        r matches Ok(v) ==> entries_view(v@) == service_order(decode_utf8(stdout@)),
        r matches Err(e) ==> e == utf8_error_of(stdout@),
{
    let ghost bytes = stdout@;
    match decode_text(stdout) {
        Err(e) => Err(e),
        Ok(text) => match service_order_from_text(&text) {
            Some(v) => Ok(v),
            None => {
                assert(false);
                Ok(Vec::new())
            },
        },
    }
}

/// The first service of the listing whose device is `device`.
pub open spec fn server_by_order(entries: Seq<EntryView>, device: Seq<char>) -> Option<Seq<char>>
    decreases entries.len(),
{
    if entries.len() == 0 {
        None
    } else if entries[0].2 == device {
        Some(entries[0].0)
    } else {
        server_by_order(entries.drop_first(), device)
    }
}

/// The service that `server_by_order` finds is the one of the first entry
/// with that device; it finds none when no entry has that device.
pub proof fn law_server_by_order_is_first_match(entries: Seq<EntryView>, device: Seq<char>)
    ensures
        match server_by_order(entries, device) {
            Some(s) => exists|k: int|
                0 <= k < entries.len() && entries[k].0 == s && entries[k].2 == device && (forall|
                    j: int,
                | 0 <= j < k ==> entries[j].2 != device),
            None => forall|k: int| 0 <= k < entries.len() ==> entries[k].2 != device,
        },
    decreases entries.len(),
{
    if entries.len() > 0 && entries[0].2 != device {
        let rest = entries.drop_first();
        law_server_by_order_is_first_match(rest, device);
        match server_by_order(rest, device) {
            Some(s) => {
                let k = choose|k: int|
                    0 <= k < rest.len() && rest[k].0 == s && rest[k].2 == device && (forall|j: int|
                        0 <= j < k ==> rest[j].2 != device);
                assert(entries[k + 1] == rest[k]);
                assert forall|j: int| 0 <= j < k + 1 implies entries[j].2 != device by {
                    if j > 0 {
                        assert(entries[j] == rest[j - 1]);
                    }
                }
            },
            None => {
                assert forall|k: int| 0 <= k < entries.len() implies entries[k].2 != device by {
                    if k > 0 {
                        assert(entries[k] == rest[k - 1]);
                    }
                }
            },
        }
    }
}

/// The name of the first service in `services` whose device is `device`.
pub fn get_server_by_order(services: &Vec<ServiceEntry>, device: String) -> (r: Result<
    String,
    ServiceError,
>)
    ensures
        match server_by_order(entries_view(services@), device@) {
            Some(s) => r matches Ok(name) && name@ == s,
            None => r == Err::<String, ServiceError>(ServiceError::NoNetworkService),
        },
{
    let ghost all = entries_view(services@);
    assert(all.skip(0) =~= all);
    let mut i: usize = 0;
    while i < services.len()
        invariant
            i <= services.len(),
            all == entries_view(services@),
            server_by_order(all, device@) == server_by_order(all.skip(i as int), device@),
        decreases services.len() - i,
    {
        assert(all.skip(i as int)[0] == entry_view(services@[i as int]));
        assert(all.skip(i as int).drop_first() =~= all.skip(i + 1));
        if services[i].2.eq(&device) {
            return Ok(services[i].0.clone());
        }
        i = i + 1;
    }
    assert(all.skip(i as int).len() == 0);
    Err(ServiceError::NoNetworkService)
}

/// The second line of a `networksetup -listallnetworkservices` listing (its
/// first line is a hint), if there is one.
pub open spec fn first_listed_service(text: Seq<char>) -> Option<Seq<char>> {
    let lines = split_lines(text);
    if lines.len() >= 2 {
        Some(lines[1])
    } else {
        None
    }
}

/// The service that `default_network_service_by_ns` reads depends on the
/// second line alone: not on the hint line, nor on any line after it.
pub proof fn law_second_line_decides(h: Seq<char>, x: Seq<char>, t: Seq<char>)
    requires
        is_single_line(h),
        is_single_line(x),
        t.len() == 0 || t[0] == '\n',
    ensures
        first_listed_service(h + seq!['\n'] + (x + t)) == Some(x),
{
    lemma_split_first_line(h, x + t);
    if t.len() == 0 {
        assert(x + t =~= x);
        lemma_split_single_line(x);
    } else {
        assert(x + t =~= x + seq!['\n'] + t.skip(1));
        lemma_split_first_line(x, t.skip(1));
    }
}

/// A listing of a single line names no service.
pub proof fn law_single_line_names_no_service(text: Seq<char>)
    requires
        is_single_line(text),
    ensures
        first_listed_service(text) is None,
{
    lemma_split_single_line(text);
}

/// The first network service in the output of
/// `networksetup -listallnetworkservices`, whose first line is a hint.
pub fn default_network_service_by_ns(stdout: Vec<u8>) -> (r: Result<String, ServiceError>)
    ensures
        !valid_utf8(stdout@) ==> r == Err::<String, ServiceError>(utf8_error_of(stdout@)),
        valid_utf8(stdout@) ==> match first_listed_service(decode_utf8(stdout@)) {
            Some(x) => r matches Ok(s) && s@ == x,
            None => r == Err::<String, ServiceError>(ServiceError::NoNetworkService),
        },
{
    match decode_text(stdout) {
        Err(e) => Err(e),
        Ok(text) => {
            let v = chars_of(&text);
            let bounds = line_bounds(&v);
            if bounds.len() >= 2 {
                let (a, b) = bounds[1];
                assert(v@.subrange(a as int, b as int) == split_lines(v@)[1]);
                Ok(string_of(&v, a, b))
            } else {
                Err(ServiceError::NoNetworkService)
            }
        },
    }
}

} // verus!
