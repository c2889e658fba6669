//! The server that questions for names are passed on to.

use vstd::prelude::*;

use crate::addr::{ip_of, parse_ip, IpAddr};
use crate::text::{
    blank, blanks_go_from_the_start, chars, is_text, lacks, lemma_position_is, lines, lines_of,
    pieces, separates, slices, solid, split, trim, trimmed, trimmed_end, white_space_by_number,
    words, words_of, words_stand_between_white_space,
};

verus! {

/// The name server that a line of resolv.conf names: the address after the word `nameserver`.
/// What follows a `#` is a remark.
pub open spec fn nameserver(line: Seq<char>) -> Option<IpAddr> {
    let fields = words_of(trimmed(pieces(line, '#')[0]), false);
    if fields.len() >= 2 && fields[0] == "nameserver"@ {
        ip_of(fields[1])
    } else {
        None
    }
}

/// The first name server that the lines name.
pub open spec fn first_nameserver(lines: Seq<Seq<char>>) -> Option<IpAddr>
    decreases lines.len(),
{
    if lines.len() == 0 {
        None
    } else if nameserver(lines[0]) is Some {
        nameserver(lines[0])
    } else {
        first_nameserver(lines.skip(1))
    }
}

/// An address with the port for DNS.
pub open spec fn dns_socket(ip: IpAddr) -> Seq<char> {
    match ip {
        IpAddr::V4(_) => ip.text() + ":53"@,
        IpAddr::V6(_) => "["@ + ip.text() + "]:53"@,
    }
}

/// The server that questions are passed on to: the one that was asked for; else the first name
/// server in resolv.conf, where that can be read and has one; else a public one.
pub open spec fn upstream(asked_for: Option<Seq<char>>, resolv_conf: Option<Seq<char>>) -> Seq<
    char,
> {
    match (asked_for, resolv_conf) {
        (Some(addr), _) => addr,
        (None, Some(text)) => match first_nameserver(lines_of(text)) {
            Some(ip) => dns_socket(ip),
            None => "1.1.1.1:53"@,
        },
        (None, None) => "1.1.1.1:53"@,
    }
}

fn parse_nameserver(line: &[char]) -> (r: Option<IpAddr>)
    ensures
        r == nameserver(line@),
{
    let parts = split(line, '#');
    assert(slices(parts@)[0] == parts@[0]@);
    let fields = words(trim(parts[0]), false);
    if fields.len() < 2 {
        return None;
    }
    assert(slices(fields@)[0] == fields@[0]@);
    assert(slices(fields@)[1] == fields@[1]@);
    if !is_text(fields[0], "nameserver") {
        return None;
    }
    parse_ip(fields[1])
}

/// The first name server in the text of resolv.conf, with the port for DNS.
pub fn resolve_upstream_from_resolv_conf(contents: &str) -> (r: Option<String>)
    ensures
        match r {
            Some(addr) => first_nameserver(lines_of(contents@)) matches Some(ip) && addr@
                == dns_socket(ip),
            None => first_nameserver(lines_of(contents@)) is None,
        },
{
    let text = chars(contents);
    let lines = lines(text.as_slice());
    let ghost all = slices(lines@);
    let mut i: usize = 0;
    assert(all.skip(0) =~= all);
    while i < lines.len()
        invariant
            i <= lines.len(),
            all == slices(lines@),
            all == lines_of(contents@),
            first_nameserver(all) == first_nameserver(all.skip(i as int)),
        decreases lines.len() - i,
    {
        assert(all[i as int] == lines@[i as int]@);
        assert(all.skip(i as int).skip(1) =~= all.skip(i + 1));
        if let Some(ip) = parse_nameserver(lines[i]) {
            let mut out = String::new();
            assert(out@ =~= seq![]);
            match ip {
                IpAddr::V4(_) => {
                    ip.push_text(&mut out);
                    out.append(":53");
                },
                IpAddr::V6(_) => {
                    out.append("[");
                    ip.push_text(&mut out);
                    out.append("]:53");
                },
            }
            assert(out@ =~= dns_socket(ip));
            return Some(out);
        }
        i = i + 1;
    }
    None
}

/// The server that questions are passed on to. `resolv_conf` is the text of that file, where it
/// could be read.
pub fn choose_upstream(asked_for: Option<String>, resolv_conf: Option<String>) -> (r: String)
    ensures
        r@ == upstream(
            match asked_for {
                Some(s) => Some(s@),
                None => None,
            },
            match resolv_conf {
                Some(s) => Some(s@),
                None => None,
            },
        ),
{
    match (asked_for, resolv_conf) {
        (Some(addr), _) => addr,
        (None, Some(text)) => match resolve_upstream_from_resolv_conf(text.as_str()) {
            Some(addr) => addr,
            None => "1.1.1.1:53".to_owned(),
        },
        (None, None) => "1.1.1.1:53".to_owned(),
    }
}

// ---------------------------------------------------------------------------
// Laws

/// The first line that names a server decides; where none does there is no server.
pub proof fn the_first_named_server_is_taken(lines: Seq<Seq<char>>, k: int)
    ensures
        0 <= k < lines.len() && nameserver(lines[k]) is Some && (forall|i: int|
            0 <= i < k ==> nameserver(#[trigger] lines[i]) is None) ==> first_nameserver(lines)
            == nameserver(lines[k]),
        (forall|i: int|
            0 <= i < lines.len() ==> nameserver(#[trigger] lines[i]) is None) ==> first_nameserver(
            lines,
        ) is None,
    decreases lines.len(),
{
    if lines.len() > 0 && nameserver(lines[0]) is None {
        let rest = lines.skip(1);
        the_first_named_server_is_taken(rest, k - 1);
        if 0 <= k < lines.len() && nameserver(lines[k]) is Some && (forall|i: int|
            0 <= i < k ==> nameserver(#[trigger] lines[i]) is None) {
            assert(rest[k - 1] == lines[k]);
            assert forall|i: int| 0 <= i < k - 1 implies nameserver(#[trigger] rest[i]) is None by {
                assert(rest[i] == lines[i + 1]);
            }
        }
        if forall|i: int| 0 <= i < lines.len() ==> nameserver(#[trigger] lines[i]) is None {
            assert forall|i: int| 0 <= i < rest.len() implies nameserver(
                #[trigger] rest[i],
            ) is None by {
                assert(rest[i] == lines[i + 1]);
            }
        }
    }
}

/// What follows a `#` does not matter.
pub proof fn remarks_name_no_server(code: Seq<char>, remark: Seq<char>)
    requires
        lacks(code, '#'),
    ensures
        nameserver(code + "#"@ + remark) == nameserver(code),
{
    reveal_strlit("#");
    let line = code + "#"@ + remark;
    lemma_position_is(line, '#', code.len() as int);
    lemma_position_is(code, '#', code.len() as int);
    assert(line.take(code.len() as int) =~= code);
}

proof fn lemma_trimmed_behind(t: Seq<char>, rest: Seq<char>) -> (n: int)
    requires
        t.len() > 0 && !separates(t.last(), false),
    ensures
        0 <= n <= rest.len(),
        trimmed_end(t + rest) == t + rest.take(n),
    decreases rest.len(),
{
    let s = t + rest;
    white_space_by_number(s.last());
    if rest.len() == 0 {
        assert(s =~= t);
        assert(t + rest.take(0) =~= t);
        0
    } else if separates(s.last(), false) {
        let n = lemma_trimmed_behind(t, rest.drop_last());
        assert(s.drop_last() =~= t + rest.drop_last());
        assert(rest.drop_last().take(n) =~= rest.take(n));
        n
    } else {
        assert(rest.take(rest.len() as int) =~= rest);
        rest.len() as int
    }
}

/// A line names the server whose address stands behind its first word, where that is
/// `nameserver`. What stands behind the address does not matter.
pub proof fn lines_name_servers(
    a: Seq<char>,
    word: Seq<char>,
    b: Seq<char>,
    w: Seq<char>,
    rest: Seq<char>,
)
    requires
        blank(a, false),
        word.len() > 0 && solid(word, false),
        b.len() > 0 && blank(b, false),
        w.len() > 0 && solid(w, false),
        rest.len() > 0 ==> separates(rest[0], false),
        lacks(a + word + (b + w + rest), '#'),
    ensures
        nameserver(a + word + (b + w + rest)) == if word == "nameserver"@ {
            ip_of(w)
        } else {
            None
        },
{
    let line = a + word + (b + w + rest);
    lemma_position_is(line, '#', line.len() as int);
    let tail = word + (b + w + rest);
    assert(line =~= a + tail);
    assert(tail[0] == word[0]);
    blanks_go_from_the_start(a, tail, false);
    let core = word + b + w;
    assert(tail =~= core + rest);
    assert(core.last() == w.last());
    let n = lemma_trimmed_behind(core, rest);
    let end = rest.take(n);
    let none: Seq<char> = seq![];
    assert(trimmed(line) =~= none + word + (b + w + end));
    words_stand_between_white_space(none, word, b + w + end, false);
    words_stand_between_white_space(b, w, end, false);
    let fields = words_of(trimmed(line), false);
    assert(fields[0] == word);
    assert(fields[1] == w);
}

/// The port for DNS stands behind the address, and brackets around one of IPv6.
pub proof fn servers_are_asked_at_their_port(ip: IpAddr)
    ensures
        ip is V4 ==> dns_socket(ip) == ip.text() + ":"@ + "53"@,
        ip is V6 ==> dns_socket(ip) == "["@ + ip.text() + "]"@ + ":"@ + "53"@,
{
    reveal_strlit(":");
    reveal_strlit("53");
    reveal_strlit(":53");
    reveal_strlit("]");
    reveal_strlit("]:53");
    assert(":53"@ =~= ":"@ + "53"@);
    assert("]:53"@ =~= "]"@ + ":"@ + "53"@);
    assert(ip.text() + ":"@ + "53"@ =~= ip.text() + ":53"@);
    assert("["@ + ip.text() + "]"@ + ":"@ + "53"@ =~= "["@ + ip.text() + "]:53"@);
}

/// A server that was asked for is taken as it is; resolv.conf matters only where none was, and
/// the public server only where resolv.conf names none.
pub proof fn servers_asked_for_come_first(
    asked_for: Option<Seq<char>>,
    resolv_conf: Option<Seq<char>>,
)
    ensures
        asked_for matches Some(addr) ==> upstream(asked_for, resolv_conf) == addr,
        asked_for is None && resolv_conf is None ==> upstream(asked_for, resolv_conf)
            == "1.1.1.1:53"@,
        asked_for is None ==> (resolv_conf matches Some(text) ==> (first_nameserver(
            lines_of(text),
        ) matches Some(ip) ==> upstream(asked_for, resolv_conf) == dns_socket(ip))),
        asked_for is None ==> (resolv_conf matches Some(text) ==> first_nameserver(
            lines_of(text),
        ) is None ==> upstream(asked_for, resolv_conf) == "1.1.1.1:53"@),
{
}

} // verus!
