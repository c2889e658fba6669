//! The requests that a client sends to the daemon.

use vstd::prelude::*;

use crate::control::{create_request, patterns_of, request_of, trimmed_items, RequestModel};
use crate::text::{
    joined, lacks, lemma_one_piece, lemma_pieces_of_joined, lemma_position_is, pieces, position,
    push_joined, texts, trimmed, without_trailing,
};

verus! {

/// The request to create an ipset.
pub open spec fn create_line(
    name: Seq<char>,
    subnet: Option<Seq<char>>,
    patterns: Seq<Seq<char>>,
) -> Seq<char> {
    let subnet = match subnet {
        Some(subnet) => subnet,
        None => seq![],
    };
    "CREATE\t"@ + name + "\t"@ + subnet + "\t"@ + joined(patterns, ","@) + "\n"@
}

/// The request to remove an ipset.
pub open spec fn remove_line(name: Seq<char>) -> Seq<char> {
    "REMOVE\t"@ + name + "\n"@
}

/// The request to create an ipset.
pub fn create_payload(name: &str, subnet: Option<&str>, allowed_domains: &Vec<String>) -> (r: String)
    ensures
        r@ == create_line(
            name@,
            match subnet {
                Some(subnet) => Some(subnet@),
                None => None,
            },
            texts(allowed_domains@),
        ),
{
    let mut out = "CREATE\t".to_owned();
    out.append(name);
    out.append("\t");
    if let Some(subnet) = subnet {
        out.append(subnet);
    }
    out.append("\t");
    push_joined(&mut out, allowed_domains, ",");
    out.append("\n");
    proof {
        if subnet is None {
            assert("CREATE\t"@ + name@ + "\t"@ + seq![] =~= "CREATE\t"@ + name@ + "\t"@);
        }
    }
    out
}

/// The request to remove an ipset.
pub fn remove_payload(name: &str) -> (r: String)
    ensures
        r@ == remove_line(name@),
{
    let mut out = "REMOVE\t".to_owned();
    out.append(name);
    out.append("\n");
    out
}

// ---------------------------------------------------------------------------
// Laws

/// Whether a text can stand between tabs in a request: no tab and no line feed stands in it,
/// and no white space at its ends.
pub open spec fn is_field(s: Seq<char>) -> bool {
    lacks(s, '\t') && lacks(s, '\n') && trimmed(s) == s
}

/// Whether a text can stand in the list of patterns of a request: it is not empty, no comma
/// and no line feed stands in it, and no white space at its ends.
pub open spec fn is_item(s: Seq<char>) -> bool {
    s.len() > 0 && lacks(s, ',') && lacks(s, '\n') && trimmed(s) == s
}

proof fn lemma_items(items: Seq<Seq<char>>)
    requires
        forall|i: int| 0 <= i < items.len() ==> is_item(#[trigger] items[i]),
    ensures
        trimmed_items(items) == items,
        lacks(joined(items, ","@), '\n'),
    decreases items.len(),
{
    reveal_strlit(",");
    if items.len() > 0 {
        let front = items.drop_last();
        assert forall|i: int| 0 <= i < front.len() implies is_item(#[trigger] front[i]) by {
            assert(is_item(items[i]));
        }
        lemma_items(front);
        assert(is_item(items[items.len() - 1]));
        assert(front.push(items.last()) =~= items);
        let j = joined(items, ","@);
        if items.len() > 1 {
            let f = joined(front, ","@);
            assert(j =~= f + ","@ + items.last());
            assert forall|i: int| 0 <= i < j.len() implies j[i] != '\n' by {
                if i < f.len() {
                    assert(j[i] == f[i]);
                } else if i > f.len() {
                    assert(j[i] == items.last()[i - f.len() - 1]);
                }
            }
        }
    } else {
        assert(trimmed_items(items) =~= items);
    }
}

/// The patterns of a list are those that were joined.
proof fn lemma_patterns(items: Seq<Seq<char>>)
    requires
        forall|i: int| 0 <= i < items.len() ==> is_item(#[trigger] items[i]),
    ensures
        patterns_of(joined(items, ","@)) == items,
{
    reveal_strlit(",");
    assert(","@ =~= seq![',']);
    lemma_items(items);
    if items.len() > 0 {
        assert forall|i: int| 0 <= i < items.len() implies lacks(#[trigger] items[i], ',') by {
            assert(is_item(items[i]));
        }
        lemma_pieces_of_joined(items, ',');
    } else {
        let none: Seq<char> = seq![];
        lemma_one_piece(none, ',');
        let p = pieces(none, ',');
        assert(p.drop_last() =~= seq![]);
        assert(p.last() == none);
        assert(trimmed(none) == none);
        assert(trimmed_items(p) =~= items);
    }
}

/// What follows the word in the request to create an ipset reads back.
proof fn lemma_create_rest(name: Seq<char>, subnet: Seq<char>, patterns: Seq<Seq<char>>)
    requires
        name.len() > 0,
        is_field(name),
        is_field(subnet),
        forall|i: int| 0 <= i < patterns.len() ==> is_item(#[trigger] patterns[i]),
    ensures
        create_request(name.push('\t') + (subnet.push('\t') + joined(patterns, ","@)))
            == (RequestModel::Create { name, subnet, patterns }),
{
    let list = joined(patterns, ","@);
    let behind = subnet.push('\t') + list;
    let rest = name.push('\t') + behind;
    assert forall|j: int| 0 <= j < name.len() implies rest[j] != '\t' by {
        assert(rest[j] == name[j]);
    }
    assert(rest[name.len() as int] == '\t');
    lemma_position_is(rest, '\t', name.len() as int);
    assert(rest.take(name.len() as int) =~= name);
    assert(rest.skip(name.len() as int + 1) =~= behind);
    assert forall|j: int| 0 <= j < subnet.len() implies behind[j] != '\t' by {
        assert(behind[j] == subnet[j]);
    }
    assert(behind[subnet.len() as int] == '\t');
    lemma_position_is(behind, '\t', subnet.len() as int);
    assert(behind.take(subnet.len() as int) =~= subnet);
    assert(behind.skip(subnet.len() as int + 1) =~= list);
    lemma_patterns(patterns);
}

/// The request that a client writes to create an ipset is one line, and the daemon reads it as
/// that request.
pub proof fn create_request_reads_back(
    name: Seq<char>,
    subnet: Option<Seq<char>>,
    patterns: Seq<Seq<char>>,
)
    requires
        name.len() > 0,
        is_field(name),
        subnet is Some ==> is_field(subnet->0),
        forall|i: int| 0 <= i < patterns.len() ==> is_item(#[trigger] patterns[i]),
    ensures
        position(create_line(name, subnet, patterns), '\n') == create_line(
            name,
            subnet,
            patterns,
        ).len() - 1,
        request_of(create_line(name, subnet, patterns)) == (RequestModel::Create {
            name,
            subnet: match subnet {
                Some(subnet) => subnet,
                None => seq![],
            },
            patterns,
        }),
{
    let line = create_line(name, subnet, patterns);
    let net = match subnet {
        Some(subnet) => subnet,
        None => seq![],
    };
    assert(is_field(net)) by {
        if subnet is None {
            assert(trimmed(net) == net);
        }
    }
    let list = joined(patterns, ","@);
    let rest = name.push('\t') + (net.push('\t') + list);
    reveal_strlit("CREATE\t");
    reveal_strlit("\t");
    reveal_strlit("\n");
    reveal_strlit("STATS");
    reveal_strlit("INFO");
    let command = "CREATE\t"@ + rest;
    assert("\t"@ =~= seq!['\t']);
    assert(line =~= command.push('\n'));
    lemma_items(patterns);
    assert(lacks(rest, '\n')) by {
        assert forall|i: int| 0 <= i < rest.len() implies rest[i] != '\n' by {
            let a = name.len() as int;
            let b = a + 1 + net.len();
            if i < a {
                assert(rest[i] == name[i]);
            } else if a < i < b {
                assert(rest[i] == net[i - a - 1]);
            } else if i > b {
                assert(rest[i] == list[i - b - 1]);
            }
        }
    }
    assert forall|i: int| 0 <= i < line.len() - 1 implies line[i] != '\n' by {
        assert(line[i] == command[i]);
        if i >= 7 {
            assert(command[i] == rest[i - 7]);
        }
    }
    lemma_position_is(line, '\n', line.len() - 1);
    assert(line.drop_last() =~= command);
    assert(command.last() == line[command.len() - 1]);
    assert(without_trailing(command, '\n') == command);
    assert(without_trailing(line, '\n') == command);
    assert(command[0] == 'C');
    assert("STATS"@[0] == 'S');
    assert("INFO"@[0] == 'I');
    assert(command.take(7) =~= "CREATE\t"@);
    assert(command.skip(7) =~= rest);
    lemma_create_rest(name, net, patterns);
}

/// The request that a client writes to remove an ipset is one line, and the daemon reads it as
/// that request.
pub proof fn remove_request_reads_back(name: Seq<char>)
    requires
        name.len() > 0,
        lacks(name, '\n'),
        trimmed(name) == name,
    ensures
        position(remove_line(name), '\n') == remove_line(name).len() - 1,
        request_of(remove_line(name)) == (RequestModel::Remove { name }),
{
    let line = remove_line(name);
    reveal_strlit("REMOVE\t");
    reveal_strlit("CREATE\t");
    reveal_strlit("\n");
    reveal_strlit("STATS");
    reveal_strlit("INFO");
    let command = "REMOVE\t"@ + name;
    assert(line =~= command.push('\n'));
    assert forall|i: int| 0 <= i < line.len() - 1 implies line[i] != '\n' by {
        assert(line[i] == command[i]);
        if i >= 7 {
            assert(command[i] == name[i - 7]);
        }
    }
    lemma_position_is(line, '\n', line.len() - 1);
    assert(line.drop_last() =~= command);
    assert(command.last() == line[command.len() - 1]);
    assert(without_trailing(command, '\n') == command);
    assert(without_trailing(line, '\n') == command);
    assert(command[0] == 'R');
    assert("STATS"@[0] == 'S');
    assert("INFO"@[0] == 'I');
    assert(command.take(7)[0] == 'R');
    assert("CREATE\t"@[0] == 'C');
    assert(command.take(7) =~= "REMOVE\t"@);
    assert(command.skip(7) =~= name);
}

} // verus!
