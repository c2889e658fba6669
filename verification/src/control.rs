//! The control socket: the requests that the daemon takes, and the replies that it gives.
//!
//! A request is one line. `STATS` and `INFO` stand alone; `CREATE` is followed by a name, a
//! subnet and a list of domain patterns, `REMOVE` by a name, with tabs between them. A reply
//! begins with `OK` or `ERR` and a tab, except that the reply to `STATS` is the report itself.

use vstd::prelude::*;

use crate::text::{
    after, begins, blank, blanks_go_from_the_end, chars, decimal, digit_value, find, is_space,
    is_text, lacks, lemma_decimal_reads_back, lemma_numeral, lemma_one_piece, lemma_position_is,
    parse_uint, pieces, position, push_decimal, separates, slices, split, string_of, strip_prefix,
    texts, trailing_characters_go, trim, trim_end, trim_trailing, trimmed, trimmed_end,
    what_follows_a_beginning, white_space_by_number, whole_number, without_trailing, ParseIntError,
};

verus! {

/// Where the daemon listens for requests.
pub const CONTROL_SOCKET_PATH: &'static str = "/run/dockerwall.sock";

// ---------------------------------------------------------------------------
// Requests

/// A request to the daemon.
#[derive(Debug)]
pub enum Request {
    /// Asks for the report on resolved domains.
    Stats,
    /// Asks for the port of the DNS proxy.
    Info,
    /// Creates an ipset, and registers its network where the subnet is not empty.
    Create { name: String, subnet: String, patterns: Vec<String> },
    /// Removes an ipset.
    Remove { name: String },
    /// A creation or removal without the name of an ipset.
    MissingName,
    /// A creation that ends after the name.
    MissingSubnet,
    /// A creation that ends after the subnet.
    MissingDomains,
    /// Anything else.
    Unknown,
}

/// What a request is.
pub enum RequestModel {
    Stats,
    Info,
    Create { name: Seq<char>, subnet: Seq<char>, patterns: Seq<Seq<char>> },
    Remove { name: Seq<char> },
    MissingName,
    MissingSubnet,
    MissingDomains,
    Unknown,
}

impl View for Request {
    type V = RequestModel;

    open spec fn view(&self) -> RequestModel {
        match self {
            Request::Stats => RequestModel::Stats,
            Request::Info => RequestModel::Info,
            Request::Create { name, subnet, patterns } => RequestModel::Create {
                name: name@,
                subnet: subnet@,
                patterns: texts(patterns@),
            },
            Request::Remove { name } => RequestModel::Remove { name: name@ },
            Request::MissingName => RequestModel::MissingName,
            Request::MissingSubnet => RequestModel::MissingSubnet,
            Request::MissingDomains => RequestModel::MissingDomains,
            Request::Unknown => RequestModel::Unknown,
        }
    }
}

/// The texts that are not empty once the white space around them is gone.
pub open spec fn trimmed_items(items: Seq<Seq<char>>) -> Seq<Seq<char>>
    decreases items.len(),
{
    if items.len() == 0 {
        seq![]
    } else {
        let front = trimmed_items(items.drop_last());
        let item = trimmed(items.last());
        if item.len() > 0 {
            front.push(item)
        } else {
            front
        }
    }
}

/// The patterns in a list with commas between them.
pub open spec fn patterns_of(raw: Seq<char>) -> Seq<Seq<char>> {
    trimmed_items(pieces(raw, ','))
}

/// The request to create an ipset, from what follows the word.
pub open spec fn create_request(rest: Seq<char>) -> RequestModel {
    let i = position(rest, '\t');
    if i >= rest.len() {
        RequestModel::MissingSubnet
    } else {
        let name = trimmed(rest.take(i));
        let behind = rest.skip(i + 1);
        let j = position(behind, '\t');
        if j >= behind.len() {
            RequestModel::MissingDomains
        } else if name.len() == 0 {
            RequestModel::MissingName
        } else {
            RequestModel::Create {
                name,
                subnet: trimmed(behind.take(j)),
                patterns: patterns_of(behind.skip(j + 1)),
            }
        }
    }
}

/// The request that a line makes.
pub open spec fn request_of(line: Seq<char>) -> RequestModel {
    let command = without_trailing(line, '\n');
    if command == "STATS"@ {
        RequestModel::Stats
    } else if command == "INFO"@ {
        RequestModel::Info
    } else if let Some(rest) = after(command, "CREATE\t"@) {
        create_request(rest)
    } else if let Some(rest) = after(command, "REMOVE\t"@) {
        let name = trimmed(rest);
        if name.len() == 0 {
            RequestModel::MissingName
        } else {
            RequestModel::Remove { name }
        }
    } else {
        RequestModel::Unknown
    }
}

/// The patterns in a list with commas between them.
fn parse_patterns(raw: &[char]) -> (r: Vec<String>)
    ensures
        texts(r@) == patterns_of(raw@),
{
    let items = split(raw, ',');
    let ghost all = slices(items@);
    let mut out: Vec<String> = Vec::new();
    let mut i: usize = 0;
    assert(all.take(0) =~= seq![]);
    assert(texts(out@) =~= seq![]);
    while i < items.len()
        invariant
            i <= items.len(),
            all == slices(items@),
            texts(out@) == trimmed_items(all.take(i as int)),
        decreases items.len() - i,
    {
        let ghost before = out@;
        proof {
            assert(all[i as int] == items@[i as int]@);
            assert(all.take(i + 1).drop_last() =~= all.take(i as int));
            assert(all.take(i + 1).last() == all[i as int]);
        }
        let item = trim(items[i]);
        if item.len() > 0 {
            out.push(string_of(item));
            assert(texts(out@) =~= texts(before).push(item@));
        }
        i = i + 1;
    }
    assert(all.take(i as int) =~= all);
    out
}

/// The request to create an ipset, from what follows the word.
fn parse_create(rest: &[char]) -> (r: Request)
    ensures
        r@ == create_request(rest@),
{
    let i: usize = find(rest, '\t');
    if i == rest.len() {
        return Request::MissingSubnet;
    }
    let front: &[char] = &rest[0..i];
    let behind: &[char] = &rest[i + 1..rest.len()];
    assert(front@ =~= rest@.take(i as int));
    assert(behind@ =~= rest@.skip(i + 1));
    let name = trim(front);
    let j: usize = find(behind, '\t');
    if j == behind.len() {
        return Request::MissingDomains;
    }
    if name.len() == 0 {
        return Request::MissingName;
    }
    let middle: &[char] = &behind[0..j];
    let raw: &[char] = &behind[j + 1..behind.len()];
    assert(middle@ =~= behind@.take(j as int));
    assert(raw@ =~= behind@.skip(j + 1));
    Request::Create {
        name: string_of(name),
        subnet: string_of(trim(middle)),
        patterns: parse_patterns(raw),
    }
}

/// The request that a line makes.
pub fn parse_request(line: &str) -> (r: Request)
    ensures
        r@ == request_of(line@),
{
    let line = chars(line);
    let command = trim_trailing(line.as_slice(), '\n');
    if is_text(command, "STATS") {
        return Request::Stats;
    }
    if is_text(command, "INFO") {
        return Request::Info;
    }
    if let Some(rest) = strip_prefix(command, "CREATE\t") {
        return parse_create(rest);
    }
    if let Some(rest) = strip_prefix(command, "REMOVE\t") {
        let name = trim(rest);
        if name.len() == 0 {
            return Request::MissingName;
        }
        return Request::Remove { name: string_of(name) };
    }
    Request::Unknown
}

// ---------------------------------------------------------------------------
// Replies

/// Why a request ends without a reply.
#[derive(Clone, Copy, Debug, PartialEq, Eq, Structural)]
pub enum ControlError {
    MissingSubnet,
    MissingDomains,
}

impl ControlError {
    /// The error in words.
    pub open spec fn text(self) -> Seq<char> {
        match self {
            ControlError::MissingSubnet => "missing subnet"@,
            ControlError::MissingDomains => "missing domains"@,
        }
    }

    /// The error in words.
    pub fn message(&self) -> (r: String)
        ensures
            r@ == self.text(),
    {
        match self {
            ControlError::MissingSubnet => "missing subnet".to_owned(),
            ControlError::MissingDomains => "missing domains".to_owned(),
        }
    }
}

/// The reply to `INFO`.
pub open spec fn info_reply(dns_port: u16) -> Seq<char> {
    "OK\t"@ + decimal(dns_port as nat) + "\n"@
}

/// The reply to a request. `report` is the report that `STATS` asks for.
pub open spec fn reply_to(request: RequestModel, dns_port: u16, report: Seq<char>) -> Result<
    Seq<char>,
    ControlError,
> {
    match request {
        RequestModel::Stats => Ok(report),
        RequestModel::Info => Ok(info_reply(dns_port)),
        RequestModel::Create { .. } => Ok("OK\tcreated\n"@),
        RequestModel::Remove { .. } => Ok("OK\tremoved\n"@),
        RequestModel::MissingName => Ok("ERR\tmissing ipset name\n"@),
        RequestModel::MissingSubnet => Err(ControlError::MissingSubnet),
        RequestModel::MissingDomains => Err(ControlError::MissingDomains),
        RequestModel::Unknown => Ok("ERR\tunknown command\n"@),
    }
}

/// The reply to `INFO`.
pub fn info_reply_text(dns_port: u16) -> (r: String)
    ensures
        r@ == info_reply(dns_port),
{
    let mut out = "OK\t".to_owned();
    push_decimal(&mut out, dns_port as u64);
    out.append("\n");
    out
}

/// Why a reply is no success.
#[derive(Debug)]
pub enum ResponseError {
    /// The daemon refused the request, with these words.
    Rejected(String),
    /// The reply is none that the daemon gives.
    Invalid,
    /// The port in the reply is no port.
    BadPort(ParseIntError),
}

/// What went wrong with a request, in words.
pub open spec fn response_error_text(e: ResponseError) -> Seq<char> {
    match e {
        ResponseError::Rejected(message) => message@,
        ResponseError::Invalid => "invalid daemon response"@,
        ResponseError::BadPort(error) => error.text(),
    }
}

impl ResponseError {
    /// The error in words.
    pub fn message(&self) -> (r: String)
        ensures
            r@ == response_error_text(*self),
    {
        match self {
            ResponseError::Rejected(message) => message.clone(),
            ResponseError::Invalid => "invalid daemon response".to_owned(),
            ResponseError::BadPort(error) => error.message(),
        }
    }
}

/// The words with which a reply refuses the request.
pub open spec fn refusal(response: Seq<char>) -> Option<Seq<char>> {
    after(trimmed_end(response), "ERR\t"@)
}

/// Whether a reply says that a command was done.
pub fn check_command_response(response: &str) -> (r: Result<(), ResponseError>)
    ensures
        match r {
            Ok(()) => begins(response@, "OK\t"@),
            Err(ResponseError::Rejected(message)) => !begins(response@, "OK\t"@) && refusal(
                response@,
            ) == Some(message@),
            Err(ResponseError::Invalid) => !begins(response@, "OK\t"@) && refusal(
                response@,
            ) is None,
            Err(ResponseError::BadPort(_)) => false,
        },
{
    let response = chars(response);
    if let Some(_) = strip_prefix(response.as_slice(), "OK\t") {
        return Ok(());
    }
    match strip_prefix(trim_end(response.as_slice()), "ERR\t") {
        Some(message) => Err(ResponseError::Rejected(string_of(message))),
        None => Err(ResponseError::Invalid),
    }
}

/// The port that a reply to `INFO` names.
pub open spec fn port_in(response: Seq<char>) -> Option<Result<nat, ParseIntError>> {
    match after(response, "OK\t"@) {
        Some(rest) => Some(whole_number(trimmed_end(rest), u16::MAX as nat)),
        None => None,
    }
}

/// The port of the DNS proxy, from the reply to `INFO`.
pub fn parse_port_response(response: &str) -> (r: Result<u16, ResponseError>)
    ensures
        match r {
            Ok(port) => port_in(response@) == Some(Ok::<nat, ParseIntError>(port as nat)),
            Err(ResponseError::BadPort(error)) => port_in(response@) == Some(
                Err::<nat, ParseIntError>(error),
            ),
            Err(ResponseError::Rejected(message)) => port_in(response@) is None && refusal(
                response@,
            ) == Some(message@),
            Err(ResponseError::Invalid) => port_in(response@) is None && refusal(
                response@,
            ) is None,
        },
{
    let response = chars(response);
    if let Some(rest) = strip_prefix(response.as_slice(), "OK\t") {
        return match parse_uint(trim_end(rest), 0xffff) {
            Ok(port) => Ok(port as u16),
            Err(error) => Err(ResponseError::BadPort(error)),
        };
    }
    match strip_prefix(trim_end(response.as_slice()), "ERR\t") {
        Some(message) => Err(ResponseError::Rejected(string_of(message))),
        None => Err(ResponseError::Invalid),
    }
}

// ---------------------------------------------------------------------------
// Laws

/// The reply to `INFO` reads back as the port that it names.
pub proof fn info_reply_reads_back(dns_port: u16)
    ensures
        port_in(info_reply(dns_port)) == Some(Ok::<nat, ParseIntError>(dns_port as nat)),
{
    reveal_strlit("OK\t");
    reveal_strlit("\n");
    let n = decimal(dns_port as nat);
    let reply = info_reply(dns_port);
    let rest = n.push('\n');
    assert(reply =~= "OK\t"@ + rest);
    assert(reply.take(3) =~= "OK\t"@);
    assert(reply.skip(3) =~= rest);
    lemma_numeral(dns_port as nat, 10);
    assert(digit_value(n[n.len() - 1], 10) is Some);
    assert(rest.drop_last() =~= n);
    assert(trimmed_end(n) == n);
    assert(trimmed_end(rest) == n);
    lemma_decimal_reads_back(dns_port as nat, u16::MAX as nat);
}

/// A client learns from the reply whether its command was done: the replies to commands that
/// were done begin with `OK`; the others tell in words what was wrong.
pub proof fn replies_tell_success_and_refusal(request: RequestModel, dns_port: u16, report: Seq<char>)
    ensures
        request is Create || request is Remove || request is Info ==> begins(
            reply_to(request, dns_port, report)->Ok_0,
            "OK\t"@,
        ),
        request is MissingName ==> !begins(reply_to(request, dns_port, report)->Ok_0, "OK\t"@)
            && refusal(reply_to(request, dns_port, report)->Ok_0) == Some("missing ipset name"@),
        request is Unknown ==> !begins(reply_to(request, dns_port, report)->Ok_0, "OK\t"@)
            && refusal(reply_to(request, dns_port, report)->Ok_0) == Some("unknown command"@),
{
    let reply = reply_to(request, dns_port, report)->Ok_0;
    reveal_strlit("OK\t");
    reveal_strlit("ERR\t");
    match request {
        RequestModel::Create { .. } => {
            reveal_strlit("OK\tcreated\n");
            assert(reply.take(3) =~= "OK\t"@);
        },
        RequestModel::Remove { .. } => {
            reveal_strlit("OK\tremoved\n");
            assert(reply.take(3) =~= "OK\t"@);
        },
        RequestModel::Info => {
            assert(reply.take(3) =~= "OK\t"@);
        },
        RequestModel::MissingName => {
            reveal_strlit("ERR\tmissing ipset name\n");
            reveal_strlit("missing ipset name");
            assert(reply =~= "ERR\t"@ + "missing ipset name"@.push('\n'));
            lemma_refusal("missing ipset name"@);
        },
        RequestModel::Unknown => {
            reveal_strlit("ERR\tunknown command\n");
            reveal_strlit("unknown command");
            assert(reply =~= "ERR\t"@ + "unknown command"@.push('\n'));
            lemma_refusal("unknown command"@);
        },
        _ => {},
    }
}

proof fn lemma_refusal(message: Seq<char>)
    requires
        message.len() > 0,
        !is_space(message.last()),
    ensures
        !begins("ERR\t"@ + message.push('\n'), "OK\t"@),
        refusal("ERR\t"@ + message.push('\n')) == Some(message),
{
    reveal_strlit("OK\t");
    reveal_strlit("ERR\t");
    let reply = "ERR\t"@ + message.push('\n');
    let text = "ERR\t"@ + message;
    assert(reply.take(3)[0] == 'E');
    assert("OK\t"@[0] == 'O');
    assert(reply.drop_last() =~= text);
    assert(text.last() == message.last());
    assert(trimmed_end(text) == text);
    assert(trimmed_end(reply) == text);
    assert(text.take(4) =~= "ERR\t"@);
    assert(text.skip(4) =~= message);
}

/// Whether a text is line feeds alone.
pub open spec fn line_feeds(s: Seq<char>) -> bool {
    forall|i: int| 0 <= i < s.len() ==> #[trigger] s[i] == '\n'
}

proof fn lemma_command(body: Seq<char>, nl: Seq<char>)
    requires
        body.len() > 0 ==> body.last() != '\n',
        line_feeds(nl),
    ensures
        without_trailing(body + nl, '\n') == body,
{
    trailing_characters_go(body, nl, '\n');
}

proof fn lemma_first_field(a: Seq<char>, rest: Seq<char>)
    requires
        lacks(a, '\t'),
    ensures
        position(a + "\t"@ + rest, '\t') == a.len(),
        (a + "\t"@ + rest).take(a.len() as int) == a,
        (a + "\t"@ + rest).skip(a.len() as int + 1) == rest,
        position(a, '\t') == a.len(),
{
    reveal_strlit("\t");
    let s = a + "\t"@ + rest;
    lemma_position_is(s, '\t', a.len() as int);
    lemma_position_is(a, '\t', a.len() as int);
    assert(s.take(a.len() as int) =~= a);
    assert(s.skip(a.len() as int + 1) =~= rest);
}

proof fn lemma_creation(rest: Seq<char>, nl: Seq<char>)
    requires
        rest.len() > 0 ==> rest.last() != '\n',
        line_feeds(nl),
    ensures
        request_of("CREATE\t"@ + rest + nl) == create_request(rest),
{
    reveal_strlit("CREATE\t");
    reveal_strlit("STATS");
    reveal_strlit("INFO");
    let body = "CREATE\t"@ + rest;
    lemma_command(body, nl);
    what_follows_a_beginning(body, "CREATE\t"@, rest);
    assert(body[0] == 'C');
}

/// A line with `CREATE` and three fields behind it, with tabs between them, asks for a set: the
/// first field is its name, the second its subnet, without the white space around them, and the
/// third its list of patterns. Line feeds at the end of the line do not matter. A name has to be
/// there.
pub proof fn creations_have_three_fields(
    a: Seq<char>,
    b: Seq<char>,
    c: Seq<char>,
    nl: Seq<char>,
)
    requires
        lacks(a, '\t'),
        lacks(b, '\t'),
        c.len() > 0 ==> c.last() != '\n',
        line_feeds(nl),
    ensures
        trimmed(a).len() == 0 ==> request_of(
            "CREATE\t"@ + (a + "\t"@ + (b + "\t"@ + c)) + nl,
        ) is MissingName,
        trimmed(a).len() > 0 ==> (request_of(
            "CREATE\t"@ + (a + "\t"@ + (b + "\t"@ + c)) + nl,
        ) matches RequestModel::Create { name, subnet, patterns } && name == trimmed(a) && subnet
            == trimmed(b) && patterns == patterns_of(c)),
{
    reveal_strlit("\t");
    let behind = b + "\t"@ + c;
    let rest = a + "\t"@ + behind;
    assert(rest.last() == if c.len() > 0 {
        c.last()
    } else {
        '\t'
    });
    lemma_creation(rest, nl);
    lemma_first_field(a, behind);
    lemma_first_field(b, c);
}

/// A line with `CREATE` and one field asks for no set, for want of a subnet; one with two fields
/// for want of domains.
pub proof fn creations_without_their_fields(a: Seq<char>, b: Seq<char>, nl: Seq<char>)
    requires
        lacks(a, '\t'),
        lacks(b, '\t'),
        a.len() > 0 ==> a.last() != '\n',
        b.len() > 0 ==> b.last() != '\n',
        line_feeds(nl),
    ensures
        request_of("CREATE\t"@ + a + nl) is MissingSubnet,
        request_of("CREATE\t"@ + (a + "\t"@ + b) + nl) is MissingDomains,
{
    reveal_strlit("\t");
    let rest = a + "\t"@ + b;
    assert(rest.last() == if b.len() > 0 {
        b.last()
    } else {
        '\t'
    });
    lemma_creation(a, nl);
    lemma_creation(rest, nl);
    lemma_first_field(a, b);
    lemma_first_field(b, seq![]);
}

/// A line with `REMOVE` and a name behind it asks for a set to be removed.
pub proof fn removals_have_a_name(a: Seq<char>, nl: Seq<char>)
    requires
        a.len() > 0 ==> a.last() != '\n',
        line_feeds(nl),
    ensures
        trimmed(a).len() == 0 ==> request_of("REMOVE\t"@ + a + nl) is MissingName,
        trimmed(a).len() > 0 ==> (request_of("REMOVE\t"@ + a + nl) matches RequestModel::Remove {
            name,
        } && name == trimmed(a)),
{
    reveal_strlit("CREATE\t");
    reveal_strlit("REMOVE\t");
    reveal_strlit("STATS");
    reveal_strlit("INFO");
    let body = "REMOVE\t"@ + a;
    lemma_command(body, nl);
    what_follows_a_beginning(body, "REMOVE\t"@, a);
    assert(body[0] == 'R');
    assert(body.take(7)[0] == 'R');
    assert("CREATE\t"@[0] == 'C');
}

/// `STATS` and `INFO` stand alone on their lines. A line with none of the four words is unknown.
pub proof fn other_lines_are_unknown(body: Seq<char>, nl: Seq<char>)
    requires
        body.len() > 0 ==> body.last() != '\n',
        line_feeds(nl),
    ensures
        request_of(body + nl) is Stats <==> body == "STATS"@,
        request_of(body + nl) is Info <==> body == "INFO"@,
        request_of(body + nl) is Unknown <==> body != "STATS"@ && body != "INFO"@ && !begins(
            body,
            "CREATE\t"@,
        ) && !begins(body, "REMOVE\t"@),
{
    reveal_strlit("STATS");
    reveal_strlit("INFO");
    reveal_strlit("CREATE\t");
    reveal_strlit("REMOVE\t");
    lemma_command(body, nl);
    assert("STATS"@[0] == 'S');
    assert("INFO"@[0] == 'I');
    if begins(body, "CREATE\t"@) {
        assert(body[0] == body.take(7)[0]);
    }
    if begins(body, "REMOVE\t"@) {
        assert(body[0] == body.take(7)[0]);
    }
}

proof fn lemma_trimmed_items(a: Seq<Seq<char>>, b: Seq<Seq<char>>, item: Seq<char>)
    ensures
        trimmed_items(a + b) == trimmed_items(a) + trimmed_items(b),
        trimmed_items(seq![item]) == if trimmed(item).len() > 0 {
            seq![trimmed(item)]
        } else {
            seq![]
        },
    decreases b.len(),
{
    let none: Seq<Seq<char>> = seq![];
    assert(seq![item].drop_last() =~= none);
    assert(trimmed_items(none) =~= none);
    assert(none.push(trimmed(item)) =~= seq![trimmed(item)]);
    if b.len() == 0 {
        assert(a + b =~= a);
        assert(trimmed_items(a) + trimmed_items(b) =~= trimmed_items(a));
    } else {
        lemma_trimmed_items(a, b.drop_last(), item);
        assert((a + b).drop_last() =~= a + b.drop_last());
        assert(trimmed_items(a + b) =~= trimmed_items(a) + trimmed_items(b));
    }
}

/// The patterns of a list are those of the item before its first comma, and then those of what
/// follows. An item is one pattern, without the white space around it, and none where nothing
/// else is left.
pub proof fn every_item_is_a_pattern(item: Seq<char>, rest: Seq<char>)
    requires
        lacks(item, ','),
    ensures
        patterns_of(item + ","@ + rest) == patterns_of(item) + patterns_of(rest),
        patterns_of(item) == if trimmed(item).len() > 0 {
            seq![trimmed(item)]
        } else {
            seq![]
        },
{
    reveal_strlit(",");
    let s = item + ","@ + rest;
    lemma_position_is(s, ',', item.len() as int);
    assert(s.take(item.len() as int) =~= item);
    assert(s.skip(item.len() as int + 1) =~= rest);
    lemma_one_piece(item, ',');
    lemma_trimmed_items(seq![item], pieces(rest, ','), item);
}

/// A reply refuses a request in the words behind `ERR` and a tab. White space at its end does
/// not matter. No other reply refuses one.
pub proof fn refusals_tell_why(message: Seq<char>, b: Seq<char>, response: Seq<char>)
    requires
        message.len() > 0 && !is_space(message.last()),
        blank(b, false),
    ensures
        refusal("ERR\t"@ + message + b) == Some(message),
        refusal(response) matches Some(m) ==> trimmed_end(response) == "ERR\t"@ + m,
        refusal(response) is None ==> !begins(trimmed_end(response), "ERR\t"@),
{
    reveal_strlit("ERR\t");
    let text = "ERR\t"@ + message;
    white_space_by_number(message.last());
    assert(text.last() == message.last());
    blanks_go_from_the_end(text, b);
    what_follows_a_beginning(text, "ERR\t"@, message);
    if let Some(m) = refusal(response) {
        what_follows_a_beginning(trimmed_end(response), "ERR\t"@, m);
    }
}

/// A reply names a port in digits behind `OK` and a tab. White space at its end does not matter.
/// No other reply names one.
pub proof fn ports_stand_behind_ok(t: Seq<char>, b: Seq<char>, response: Seq<char>)
    requires
        t.len() > 0 ==> !separates(t.last(), false),
        blank(b, false),
    ensures
        port_in("OK\t"@ + (t + b)) == Some(whole_number(t, 65535)),
        port_in(response) is Some <==> begins(response, "OK\t"@),
{
    what_follows_a_beginning("OK\t"@ + (t + b), "OK\t"@, t + b);
    blanks_go_from_the_end(t, b);
}

/// Every request but two has its reply; the two end without one.
pub proof fn requests_have_their_replies(request: RequestModel, dns_port: u16, report: Seq<char>)
    ensures
        ({
            let reply = reply_to(request, dns_port, report);
            &&& request is Stats ==> reply == Ok::<Seq<char>, ControlError>(report)
            &&& request is Info ==> reply == Ok::<Seq<char>, ControlError>(
                "OK\t"@ + decimal(dns_port as nat) + "\n"@,
            )
            &&& request is Create ==> reply == Ok::<Seq<char>, ControlError>(
                "OK\t"@ + "created"@ + "\n"@,
            )
            &&& request is Remove ==> reply == Ok::<Seq<char>, ControlError>(
                "OK\t"@ + "removed"@ + "\n"@,
            )
            &&& reply == Err::<Seq<char>, ControlError>(ControlError::MissingSubnet)
                <==> request is MissingSubnet
            &&& reply == Err::<Seq<char>, ControlError>(ControlError::MissingDomains)
                <==> request is MissingDomains
        }),
{
    reveal_strlit("OK\t");
    reveal_strlit("\n");
    reveal_strlit("created");
    reveal_strlit("removed");
    reveal_strlit("OK\tcreated\n");
    reveal_strlit("OK\tremoved\n");
    assert("OK\tcreated\n"@ =~= "OK\t"@ + "created"@ + "\n"@);
    assert("OK\tremoved\n"@ =~= "OK\t"@ + "removed"@ + "\n"@);
}

/// Requests without a reply end with these words.
pub proof fn requests_without_a_reply_end_in_words(e: ControlError)
    ensures
        e == ControlError::MissingSubnet ==> e.text() == "missing subnet"@,
        e == ControlError::MissingDomains ==> e.text() == "missing domains"@,
{
}

/// A reply that is no success is told in words: those of the daemon where it refused, and else
/// those that say what is wrong with the reply.
pub proof fn failures_are_told_in_words(e: ResponseError)
    ensures
        e matches ResponseError::Rejected(message) ==> response_error_text(e) == message@,
        e is Invalid ==> response_error_text(e) == "invalid daemon response"@,
        e matches ResponseError::BadPort(error) ==> response_error_text(e) == error.text(),
{
}

} // verus!
