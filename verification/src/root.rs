//! Whether the program runs as root of the host, by what the kernel tells of the process.

use vstd::prelude::*;

use crate::text::{
    after, begins, chars, is_text, lines, lines_of, slices, strip_prefix, words, words_of,
};

verus! {

/// Why the process is not taken for root of the host.
#[derive(Clone, Copy, Debug, PartialEq, Eq, Structural)]
pub enum RootError {
    /// The effective user is not told.
    UnknownUid,
    /// The effective user is not root.
    NotRoot,
    /// It is not told which user of the host root stands for.
    UnknownMapping,
    /// The effective user is root of a user namespace alone.
    NamespaceRoot,
}

impl RootError {
    /// The error in words.
    pub open spec fn text(self) -> Seq<char> {
        match self {
            RootError::UnknownUid => "could not determine effective UID"@,
            RootError::NotRoot => "rootless Podman preparation must run as host root"@,
            RootError::UnknownMapping => "could not determine host UID mapping"@,
            RootError::NamespaceRoot => {
                "rootless Podman preparation must run as host root, not a user namespace root"@
            },
        }
    }

    /// The error in words.
    pub fn message(&self) -> (r: String)
        ensures
            r@ == self.text(),
    {
        match self {
            RootError::UnknownUid => "could not determine effective UID".to_owned(),
            RootError::NotRoot => {
                "rootless Podman preparation must run as host root".to_owned()
            },
            RootError::UnknownMapping => "could not determine host UID mapping".to_owned(),
            RootError::NamespaceRoot => {
                "rootless Podman preparation must run as host root, not a user namespace root".to_owned()
            },
        }
    }
}

/// The first line that begins with `Uid:`; `None` where there is none.
pub open spec fn uid_line(lines: Seq<Seq<char>>) -> Option<Seq<char>>
    decreases lines.len(),
{
    if lines.len() == 0 {
        None
    } else if after(lines[0], "Uid:"@) is Some {
        Some(lines[0])
    } else {
        uid_line(lines.skip(1))
    }
}

/// Whether the effective user is root, by the status of the process: the third word of the line
/// on users is 0.
pub open spec fn effective_root(status: Seq<char>) -> Result<(), RootError> {
    match uid_line(lines_of(status)) {
        None => Err(RootError::UnknownUid),
        Some(line) => {
            let fields = words_of(line, false);
            if fields.len() < 3 {
                Err(RootError::UnknownUid)
            } else if fields[2] != "0"@ {
                Err(RootError::NotRoot)
            } else {
                Ok(())
            }
        },
    }
}

/// Whether root of the process is root of the host, by the user mapping of the process: the
/// second word of its first line is 0.
pub open spec fn root_of_host(uid_map: Seq<char>) -> Result<(), RootError> {
    let lines = lines_of(uid_map);
    if lines.len() == 0 {
        Err(RootError::UnknownMapping)
    } else {
        let fields = words_of(lines[0], false);
        if fields.len() < 2 {
            Err(RootError::UnknownMapping)
        } else if fields[1] != "0"@ {
            Err(RootError::NamespaceRoot)
        } else {
            Ok(())
        }
    }
}

fn find_uid_line<'a>(lines: &Vec<&'a [char]>) -> (r: Option<&'a [char]>)
    ensures
        match r {
            Some(line) => uid_line(slices(lines@)) == Some(line@),
            None => uid_line(slices(lines@)) is None,
        },
{
    let ghost all = slices(lines@);
    let mut i: usize = 0;
    assert(all.skip(0) =~= all);
    while i < lines.len()
        invariant
            i <= lines.len(),
            all == slices(lines@),
            uid_line(all) == uid_line(all.skip(i as int)),
        decreases lines.len() - i,
    {
        assert(all[i as int] == lines@[i as int]@);
        assert(all.skip(i as int).skip(1) =~= all.skip(i + 1));
        if strip_prefix(lines[i], "Uid:").is_some() {
            return Some(lines[i]);
        }
        i = i + 1;
    }
    None
}

/// Whether the effective user is root, by the status of the process.
pub fn check_effective_uid(status: &str) -> (r: Result<(), RootError>)
    ensures
        r == effective_root(status@),
{
    let text = chars(status);
    let lines = lines(text.as_slice());
    match find_uid_line(&lines) {
        None => Err(RootError::UnknownUid),
        Some(line) => {
            let fields = words(line, false);
            if fields.len() < 3 {
                return Err(RootError::UnknownUid);
            }
            assert(slices(fields@)[2] == fields@[2]@);
            if !is_text(fields[2], "0") {
                return Err(RootError::NotRoot);
            }
            Ok(())
        },
    }
}

/// Whether root of the process is root of the host, by the user mapping of the process.
pub fn check_uid_map(uid_map: &str) -> (r: Result<(), RootError>)
    ensures
        r == root_of_host(uid_map@),
{
    let text = chars(uid_map);
    let lines = lines(text.as_slice());
    if lines.len() == 0 {
        return Err(RootError::UnknownMapping);
    }
    assert(slices(lines@)[0] == lines@[0]@);
    let fields = words(lines[0], false);
    if fields.len() < 2 {
        return Err(RootError::UnknownMapping);
    }
    assert(slices(fields@)[1] == fields@[1]@);
    if !is_text(fields[1], "0") {
        return Err(RootError::NamespaceRoot);
    }
    Ok(())
}

// ---------------------------------------------------------------------------
// Laws

proof fn lemma_uid_line(lines: Seq<Seq<char>>, k: int)
    ensures
        0 <= k < lines.len() && after(lines[k], "Uid:"@) is Some && (forall|i: int|
            0 <= i < k ==> after(#[trigger] lines[i], "Uid:"@) is None) ==> uid_line(lines)
            == Some(lines[k]),
        (forall|i: int|
            0 <= i < lines.len() ==> after(#[trigger] lines[i], "Uid:"@) is None) ==> uid_line(
            lines,
        ) is None,
    decreases lines.len(),
{
    if lines.len() > 0 && after(lines[0], "Uid:"@) is None {
        let rest = lines.skip(1);
        lemma_uid_line(rest, k - 1);
        if 0 <= k < lines.len() && after(lines[k], "Uid:"@) is Some && (forall|i: int|
            0 <= i < k ==> after(#[trigger] lines[i], "Uid:"@) is None) {
            assert(rest[k - 1] == lines[k]);
            assert forall|i: int| 0 <= i < k - 1 implies after(
                #[trigger] rest[i],
                "Uid:"@,
            ) is None by {
                assert(rest[i] == lines[i + 1]);
            }
        }
        if forall|i: int| 0 <= i < lines.len() ==> after(#[trigger] lines[i], "Uid:"@) is None {
            assert forall|i: int| 0 <= i < rest.len() implies after(
                #[trigger] rest[i],
                "Uid:"@,
            ) is None by {
                assert(rest[i] == lines[i + 1]);
            }
        }
    }
}

/// The first line that begins with `Uid:` decides on the effective user: it is root if and only
/// if the third word of the line is 0. Without such a line, or without such a word, nothing is
/// known.
pub proof fn the_third_word_is_the_effective_user(status: Seq<char>, k: int)
    requires
        forall|i: int| 0 <= i < k ==> !begins(#[trigger] lines_of(status)[i], "Uid:"@),
        0 <= k <= lines_of(status).len(),
        k < lines_of(status).len() ==> begins(lines_of(status)[k], "Uid:"@),
    ensures
        ({
            let lines = lines_of(status);
            let told = k < lines.len() && words_of(lines[k], false).len() >= 3;
            &&& effective_root(status) is Ok <==> told && words_of(lines[k], false)[2] == "0"@
            &&& effective_root(status) == Err::<(), RootError>(RootError::NotRoot) <==> told
                && words_of(lines[k], false)[2] != "0"@
            &&& effective_root(status) == Err::<(), RootError>(RootError::UnknownUid) <==> !told
        }),
{
    lemma_uid_line(lines_of(status), k);
}

/// The first line of the user mapping decides: root of the process is root of the host if and
/// only if the second word of the line is 0. Without such a word nothing is known.
pub proof fn the_second_word_is_the_user_of_the_host(uid_map: Seq<char>)
    ensures
        ({
            let lines = lines_of(uid_map);
            let told = lines.len() > 0 && words_of(lines[0], false).len() >= 2;
            &&& root_of_host(uid_map) is Ok <==> told && words_of(lines[0], false)[1] == "0"@
            &&& root_of_host(uid_map) == Err::<(), RootError>(RootError::NamespaceRoot) <==> told
                && words_of(lines[0], false)[1] != "0"@
            &&& root_of_host(uid_map) == Err::<(), RootError>(RootError::UnknownMapping) <==> !told
        }),
{
}

/// Who is not root of the host is told so in these words.
pub proof fn others_than_root_are_told_in_words(e: RootError)
    ensures
        e == RootError::UnknownUid ==> e.text() == "could not determine effective UID"@,
        e == RootError::NotRoot ==> e.text() == "rootless Podman preparation must run as host root"@,
        e == RootError::UnknownMapping ==> e.text() == "could not determine host UID mapping"@,
        e == RootError::NamespaceRoot ==> e.text() == "rootless Podman preparation must run as host root, not a user namespace root"@,
{
}

} // verus!
