//! The stream of records that a daemon may send.

use vstd::prelude::*;

use crate::text::{
    blank, blanks_go_from_both_ends, blanks_go_from_the_end, chars, is_text, push_chars, separates,
    trim, trim_end, trimmed, trimmed_end,
};

verus! {

/// Whether the daemon agreed to send records.
pub open spec fn agreed(response: Seq<char>) -> bool {
    trimmed_end(response) == "OK"@
}

/// What is said of a daemon that did not agree.
pub open spec fn rejection(response: Seq<char>) -> Seq<char> {
    "daemon rejected record stream: "@ + trimmed(response)
}

/// Takes the first line of the daemon's response to a request for records.
pub fn check_record_response(response: &str) -> (r: Result<(), String>)
    ensures
        match r {
            Ok(()) => agreed(response@),
            Err(message) => !agreed(response@) && message@ == rejection(response@),
        },
{
    let text = chars(response);
    if is_text(trim_end(text.as_slice()), "OK") {
        return Ok(());
    }
    let mut message = "daemon rejected record stream: ".to_owned();
    push_chars(&mut message, trim(text.as_slice()));
    Err(message)
}

/// A daemon agrees by `OK`, behind which white space may stand, and by nothing else. One that
/// does not agree is quoted, without the white space around what it said.
pub proof fn only_ok_agrees(a: Seq<char>, t: Seq<char>, b: Seq<char>)
    requires
        blank(a, false),
        blank(b, false),
        t.len() > 0 ==> !separates(t[0], false) && !separates(t.last(), false),
    ensures
        agreed(t + b) <==> t == "OK"@,
        rejection(a + t + b) == "daemon rejected record stream: "@ + t,
{
    blanks_go_from_the_end(t, b);
    blanks_go_from_both_ends(a, t, b);
}

} // verus!
