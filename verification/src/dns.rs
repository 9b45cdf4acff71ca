//! Pointing the default network service at the proxy's DNS server, and
//! restoring the DNS servers that it had before.

use vstd::prelude::*;
use vstd::utf8::*;
use crate::error::ServiceError;
use crate::text::{
    chars_of, decode_text, is_white_space, lemma_split_single_line, line_bounds, split_lines,
    string_of, trim, trim_bounds, trim_end, trim_start, utf8_error_of, utf8_longer_than,
};

verus! {

/// The characters of each string of `v`.
pub open spec fn strings_view(v: Seq<String>) -> Seq<Seq<char>> {
    v.map_values(|s: String| s@)
}

/// What the service remembers of the DNS servers that `set_dns` replaced:
/// the output of `networksetup -getdnsservers`, or `Empty` when it said that
/// no servers were set.
#[derive(Debug)]
pub struct DNSStatus {
    pub dns: Option<String>,
}

impl View for DNSStatus {
    type V = Option<Seq<char>>;

    open spec fn view(&self) -> Option<Seq<char>> {
        match self.dns {
            Some(v) => Some(v@),
            None => None,
        }
    }
}

impl DNSStatus {
    /// The status of a service that has replaced no DNS servers.
    pub fn new() -> (r: Self)
        ensures
            r@ is None,
    {
        DNSStatus { dns: None }
    }
}

impl Default for DNSStatus {
    fn default() -> (r: Self)
        ensures
            r@ is None,
    {
        DNSStatus { dns: None }
    }
}

/// The non-empty lines of `lines`, trimmed, in order.
pub open spec fn server_lines(lines: Seq<Seq<char>>) -> Seq<Seq<char>>
    decreases lines.len(),
{
    if lines.len() == 0 {
        seq![]
    } else {
        let t = trim(lines[0]);
        let rest = server_lines(lines.drop_first());
        if t.len() > 0 {
            seq![t] + rest
        } else {
            rest
        }
    }
}

/// Whether `s` holds a whitespace character.
pub open spec fn has_white_space(s: Seq<char>) -> bool {
    exists|i: int| 0 <= i < s.len() && is_white_space(s[i])
}

/// Whether every line is a single word, as the addresses that
/// `networksetup -getdnsservers` prints one per line are; its message that no
/// servers are set is a sentence.
pub open spec fn is_server_list(servers: Seq<Seq<char>>) -> bool {
    forall|k: int| 0 <= k < servers.len() ==> !has_white_space(#[trigger] servers[k])
}

/// Whether `output`, trimmed, is longer than one IPv4 address (15 bytes).
pub open spec fn is_long_output(output: Seq<char>) -> bool {
    encode_utf8(trim(output)).len() > 15
}

/// The servers that `output` lists, one per line, when it lists any.
pub open spec fn listed_servers(output: Seq<char>) -> Seq<Seq<char>> {
    server_lines(split_lines(output))
}

/// What `set_dns` remembers of the output of `networksetup -getdnsservers`:
/// `Empty` (which clears the servers when set again) when the output is long
/// and not a list of servers, as the message that no servers are set is;
/// otherwise the output as it came. A long output that lists servers (several
/// of them, or an IPv6 address) is kept as well, so that it can be restored.
pub open spec fn recorded_dns(output: Seq<char>) -> Seq<char> {
    if is_long_output(output) && !is_server_list(listed_servers(output)) {
        "Empty"@
    } else {
        output
    }
}

/// The status after `set_dns` read `output` as the current DNS servers.
pub open spec fn spec_after_set_dns(output: Seq<char>) -> Option<Seq<char>> {
    Some(recorded_dns(output))
}

/// The arguments that set the DNS servers recorded as `dns` again: one per
/// server where it lists two or more servers (which one argument cannot
/// carry), else the record itself as one argument.
pub open spec fn restore_args(dns: Seq<char>) -> Seq<Seq<char>> {
    let servers = listed_servers(dns);
    if servers.len() >= 2 && is_server_list(servers) {
        servers
    } else {
        seq![dns]
    }
}

/// The arguments that `unset_dns` restores in a status: those of the record,
/// unless nothing, or an empty text, is recorded.
pub open spec fn dns_to_restore(status: Option<Seq<char>>) -> Option<Seq<Seq<char>>> {
    match status {
        Some(d) => if d.len() > 0 {
            Some(restore_args(d))
        } else {
            None
        },
        None => None,
    }
}

/// Whether `v[from..to]` holds a whitespace character.
fn holds_white_space(v: &Vec<char>, from: usize, to: usize) -> (r: bool)
    requires
        from <= to <= v.len(),
    ensures
        r == has_white_space(v@.subrange(from as int, to as int)),
{
    let ghost s = v@.subrange(from as int, to as int);
    let mut i: usize = from;
    while i < to
        invariant
            from <= i <= to <= v.len(),
            s == v@.subrange(from as int, to as int),
            forall|j: int| 0 <= j < i - from ==> !is_white_space(s[j]),
        decreases to - i,
    {
        if crate::text::is_whitespace_char(v[i]) {
            assert(is_white_space(s[i - from]));
            return true;
        }
        i = i + 1;
    }
    false
}

proof fn lemma_server_list_push(old: Seq<Seq<char>>, w: Seq<char>)
    ensures
        is_server_list(old.push(w)) == (is_server_list(old) && !has_white_space(w)),
{
    let new = old.push(w);
    if is_server_list(old) && !has_white_space(w) {
        assert forall|k: int| 0 <= k < new.len() implies !has_white_space(#[trigger] new[k]) by {
            if k < old.len() {
                assert(new[k] == old[k]);
            }
        }
    }
    if !is_server_list(old) {
        let k = choose|k: int| 0 <= k < old.len() && has_white_space(#[trigger] old[k]);
        assert(new[k] == old[k]);
    }
    if has_white_space(w) {
        assert(new[old.len() as int] == w);
    }
}

/// The trimmed non-empty lines of `text`, and whether each is one word.
fn server_list(text: &String) -> (r: (Vec<String>, bool))
    ensures
        strings_view(r.0@) == server_lines(split_lines(text@)),
        r.1 == is_server_list(strings_view(r.0@)),
{
    let chars = chars_of(text);
    let bounds = line_bounds(&chars);
    let ghost lines = split_lines(chars@);
    assert(lines.skip(0) =~= lines);
    assert forall|m: int| #![trigger bounds@[m]] 0 <= m < bounds@.len() implies bounds@[m].0
        <= bounds@[m].1 <= chars.len() && chars@.subrange(bounds@[m].0 as int, bounds@[m].1 as int)
        == lines[m] by {
        assert(chars@.subrange(bounds@[m].0 as int, bounds@[m].1 as int) == split_lines(chars@)[m]);
    }
    let mut servers: Vec<String> = Vec::new();
    let mut one_word_each = true;
    let mut k: usize = 0;
    while k < bounds.len()
        invariant
            k <= bounds.len(),
            bounds@.len() == lines.len(),
            lines == split_lines(chars@),
            forall|m: int|
                #![trigger bounds@[m]]
                0 <= m < bounds@.len() ==> bounds@[m].0 <= bounds@[m].1 <= chars.len()
                    && chars@.subrange(bounds@[m].0 as int, bounds@[m].1 as int) == lines[m],
            strings_view(servers@) + server_lines(lines.skip(k as int)) == server_lines(lines),
            one_word_each == is_server_list(strings_view(servers@)),
        decreases bounds.len() - k,
    {
        let (a, b) = bounds[k];
        let ghost here = lines.skip(k as int);
        assert(here[0] == lines[k as int]);
        assert(here.drop_first() =~= lines.skip(k + 1));
        let ghost old_servers = strings_view(servers@);
        let (x, y) = trim_bounds(&chars, a, b);
        if x < y {
            let spaced = holds_white_space(&chars, x, y);
            let word = string_of(&chars, x, y);
            servers.push(word);
            assert(strings_view(servers@) =~= old_servers.push(trim(lines[k as int])));
            assert(strings_view(servers@) + server_lines(lines.skip(k + 1)) =~= old_servers
                + server_lines(here));
            proof {
                lemma_server_list_push(old_servers, trim(lines[k as int]));
            }
            if spaced {
                one_word_each = false;
            }
        }
        k = k + 1;
    }
    assert(lines.skip(k as int) =~= Seq::<Seq<char>>::empty());
    assert(strings_view(servers@) + Seq::<Seq<char>>::empty() =~= strings_view(servers@));
    assert(chars@ == text@);
    (servers, one_word_each)
}

/// Remembers the DNS servers that `networksetup -getdnsservers` printed as
/// `output`, before `set_dns` replaces them. Output that is not UTF-8 is an
/// error, and then nothing changes.
pub fn set_dns(status: &mut DNSStatus, output: Vec<u8>) -> (r: Result<(), ServiceError>)
    ensures
        valid_utf8(output@) ==> r is Ok && final(status)@ == spec_after_set_dns(
            decode_utf8(output@),
        ),
        !valid_utf8(output@) ==> r == Err::<(), ServiceError>(utf8_error_of(output@))
            && *final(status) == *old(status),
{
    match decode_text(output) {
        Err(e) => Err(e),
        Ok(text) => {
            let chars = chars_of(&text);
            let (a, b) = trim_bounds(&chars, 0, chars.len());
            assert(chars@.subrange(0, chars@.len() as int) =~= text@);
            let long = utf8_longer_than(&chars, a, b, 15);
            let (_servers, one_word_each) = server_list(&text);
            let origin = if long && !one_word_each {
                String::from_str("Empty")
            } else {
                text
            };
            status.dns = Some(origin);
            Ok(())
        },
    }
}

/// The arguments that put back the DNS servers that `set_dns` remembered:
/// `None` when it remembered nothing, or an empty text.
pub fn unset_dns(status: &DNSStatus) -> (r: Option<Vec<String>>)
    ensures
        match r {
            Some(v) => dns_to_restore(status@) == Some(strings_view(v@)),
            None => dns_to_restore(status@) is None,
        },
{
    match &status.dns {
        Some(dns) => {
            if dns.as_str().is_empty() {
                None
            } else {
                let (servers, one_word_each) = server_list(dns);
                if servers.len() >= 2 && one_word_each {
                    Some(servers)
                } else {
                    let mut args: Vec<String> = Vec::new();
                    args.push(dns.clone());
                    assert(strings_view(args@) =~= seq![dns@]);
                    Some(args)
                }
            }
        },
        None => None,
    }
}

/// The DNS servers that `set_dns` points the default network service at.
pub fn proxy_dns_servers() -> (r: Vec<String>)
    ensures
        strings_view(r@) == seq!["223.5.5.5"@],
{
    let mut v: Vec<String> = Vec::new();
    v.push(String::from_str("223.5.5.5"));
    assert(strings_view(v@) =~= seq!["223.5.5.5"@]);
    v
}

/// The `networksetup` arguments that print the DNS servers of `service`.
pub fn get_dns_servers_args(service: &str) -> (r: Vec<String>)
    ensures
        strings_view(r@) == seq!["-getdnsservers"@, service@],
{
    let mut args: Vec<String> = Vec::new();
    args.push(String::from_str("-getdnsservers"));
    args.push(String::from_str(service));
    assert(strings_view(args@) =~= seq!["-getdnsservers"@, service@]);
    args
}

/// The `networksetup` arguments that set the DNS servers of `service` to
/// `servers`, one argument each.
pub fn set_dns_servers_args(service: &str, servers: &Vec<String>) -> (r: Vec<String>)
    ensures
        strings_view(r@) == seq!["-setdnsservers"@, service@] + strings_view(servers@),
{
    let mut args: Vec<String> = Vec::new();
    args.push(String::from_str("-setdnsservers"));
    args.push(String::from_str(service));
    let ghost head = seq!["-setdnsservers"@, service@];
    assert(strings_view(args@) =~= head);
    let mut i: usize = 0;
    while i < servers.len()
        invariant
            i <= servers.len(),
            head == seq!["-setdnsservers"@, service@],
            strings_view(args@) == head + strings_view(servers@).take(i as int),
        decreases servers.len() - i,
    {
        let ghost old_args = args@;
        let c = servers[i].clone();
        assert(c@ == servers@[i as int]@);
        args.push(c);
        assert(strings_view(args@) =~= strings_view(old_args).push(c@));
        assert(strings_view(servers@).take(i + 1) =~= strings_view(servers@).take(i as int).push(
            servers@[i as int]@,
        ));
        i = i + 1;
    }
    assert(strings_view(servers@).take(i as int) =~= strings_view(servers@));
    args
}

proof fn lemma_marker_restores_itself()
    ensures
        restore_args("Empty"@) == seq!["Empty"@],
{
    reveal_strlit("Empty");
    let e: Seq<char> = "Empty"@;
    lemma_split_single_line(e);
    assert(seq![e].drop_first() =~= Seq::<Seq<char>>::empty());
    assert(server_lines(Seq::<Seq<char>>::empty()) == Seq::<Seq<char>>::empty());
    assert(listed_servers(e) == server_lines(seq![e]));
    assert(listed_servers(e).len() <= 1);
}

/// After `set_dns` has read the current DNS servers, `unset_dns` sets them
/// again: each listed server as its own argument when the output lists two
/// or more; `Empty` when the output is long and says that there are none;
/// otherwise the output itself, as one argument; and nothing when the output
/// was empty.
pub proof fn law_unset_restores_what_set_recorded(output: Seq<char>)
    ensures
        dns_to_restore(spec_after_set_dns(output)) == if output.len() == 0 {
            None::<Seq<Seq<char>>>
        } else if listed_servers(output).len() >= 2 && is_server_list(listed_servers(output)) {
            Some(listed_servers(output))
        } else if is_long_output(output) && !is_server_list(listed_servers(output)) {
            Some(seq!["Empty"@])
        } else {
            Some(seq![output])
        },
{
    reveal_strlit("Empty");
    lemma_marker_restores_itself();
    if output.len() == 0 {
        assert(trim(output) == output);
        assert(encode_utf8(output) =~= Seq::<u8>::empty());
    }
}

/// For output of at most 15 bytes once trimmed, `set_dns` remembers the
/// output exactly as it came.
pub proof fn law_short_output_recorded_as_read(output: Seq<char>)
    requires
        encode_utf8(trim(output)).len() <= 15,
    ensures
        recorded_dns(output) == output,
{
}

/// Every server listed is a line of the text, trimmed and not empty; and
/// every line of the text that is not empty once trimmed is listed.
pub proof fn law_server_lines_are_trimmed_lines(lines: Seq<Seq<char>>)
    ensures
        forall|j: int|
            0 <= j < server_lines(lines).len() ==> (#[trigger] server_lines(lines)[j]).len() > 0
                && exists|k: int| 0 <= k < lines.len() && server_lines(lines)[j] == trim(lines[k]),
        forall|k: int|
            0 <= k < lines.len() && trim(#[trigger] lines[k]).len() > 0 ==> exists|j: int|
                0 <= j < server_lines(lines).len() && server_lines(lines)[j] == trim(lines[k]),
    decreases lines.len(),
{
    if lines.len() > 0 {
        let d = lines.drop_first();
        law_server_lines_are_trimmed_lines(d);
        let rest = server_lines(d);
        let t = trim(lines[0]);
        assert forall|j: int| 0 <= j < server_lines(lines).len() implies (
        #[trigger] server_lines(lines)[j]).len() > 0 && exists|k: int|
            0 <= k < lines.len() && server_lines(lines)[j] == trim(lines[k]) by {
            if t.len() > 0 && j == 0 {
                assert(server_lines(lines)[0] == trim(lines[0]));
            } else {
                let jj = if t.len() > 0 {
                    j - 1
                } else {
                    j
                };
                assert(server_lines(lines)[j] == rest[jj]);
                let k = choose|k: int| 0 <= k < d.len() && rest[jj] == trim(d[k]);
                assert(d[k] == lines[k + 1]);
            }
        }
        assert forall|k: int| 0 <= k < lines.len() && trim(#[trigger] lines[k]).len() > 0 implies exists|
            j: int,
        | 0 <= j < server_lines(lines).len() && server_lines(lines)[j] == trim(lines[k]) by {
            if k == 0 {
                assert(server_lines(lines)[0] == t);
            } else {
                assert(d[k - 1] == lines[k]);
                let j = choose|j: int| 0 <= j < rest.len() && rest[j] == trim(d[k - 1]);
                if t.len() > 0 {
                    assert(server_lines(lines)[j + 1] == rest[j]);
                } else {
                    assert(server_lines(lines)[j] == rest[j]);
                }
            }
        }
    }
}

/// Long output with a line that holds whitespace inside (a sentence, such as
/// the message that no servers are set) is remembered as `Empty`.
pub proof fn law_long_sentence_recorded_as_marker(output: Seq<char>, k: int, i: int)
    requires
        encode_utf8(trim(output)).len() > 15,
        0 <= k < split_lines(output).len(),
        0 <= i < trim(split_lines(output)[k]).len(),
        is_white_space(trim(split_lines(output)[k])[i]),
    ensures
        recorded_dns(output) == "Empty"@,
{
    let lines = split_lines(output);
    law_server_lines_are_trimmed_lines(lines);
    assert(trim(lines[k]).len() > 0);
    let j = choose|j: int| 0 <= j < server_lines(lines).len() && server_lines(lines)[j] == trim(lines[k]);
    assert(has_white_space(server_lines(lines)[j]));
}

/// Output whose lines are each at most one word once trimmed (a list of
/// servers) is remembered as it came, however long.
pub proof fn law_server_list_recorded_as_read(output: Seq<char>)
    requires
        forall|k: int, i: int|
            0 <= k < split_lines(output).len() && 0 <= i < trim(split_lines(output)[k]).len()
                ==> !is_white_space(#[trigger] trim(split_lines(output)[k])[i]),
    ensures
        recorded_dns(output) == output,
{
    let lines = split_lines(output);
    law_server_lines_are_trimmed_lines(lines);
    assert forall|j: int| 0 <= j < server_lines(lines).len() implies !has_white_space(
        #[trigger] server_lines(lines)[j],
    ) by {
        let k = choose|k: int| 0 <= k < lines.len() && server_lines(lines)[j] == trim(lines[k]);
        if has_white_space(server_lines(lines)[j]) {
            let i = choose|i: int|
                0 <= i < server_lines(lines)[j].len() && is_white_space(server_lines(lines)[j][i]);
            assert(!is_white_space(trim(lines[k])[i]));
        }
    }
}

/// Given the servers that the output lists, one per line: when there are two
/// or more, `unset_dns` sets exactly those servers again after `set_dns`;
/// a single server is set again by the output it was read from.
pub proof fn law_restores_listed_servers(output: Seq<char>, servers: Seq<Seq<char>>)
    requires
        listed_servers(output) == servers,
        is_server_list(servers),
        servers.len() >= 1,
    ensures
        servers.len() >= 2 ==> dns_to_restore(spec_after_set_dns(output)) == Some(servers),
        servers.len() == 1 ==> dns_to_restore(spec_after_set_dns(output)) == Some(seq![output]),
{
    law_unset_restores_what_set_recorded(output);
    if output.len() == 0 {
        lemma_split_single_line(output);
        assert(trim_start(output) == output);
        assert(trim_end(output) == output);
        assert(seq![output].drop_first() =~= Seq::<Seq<char>>::empty());
        assert(server_lines(Seq::<Seq<char>>::empty()) == Seq::<Seq<char>>::empty());
        assert(server_lines(seq![output]).len() == 0);
    }
}

} // verus!
