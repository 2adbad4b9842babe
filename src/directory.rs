//! Validation of an export directory and selection of its message files.
use vstd::prelude::*;
use crate::error::ConversationError;

verus! {

/// The fixed start of a message file's name.
pub const FILE_PREFIX: &'static str = "message_";

/// The fixed end of a message file's name.
pub const FILE_SUFFIX: &'static str = ".json";

/// One entry of a directory listing.
#[derive(Clone, Debug)]
pub struct DirEntry {
    /// The full path of the entry.
    pub path: String,
    /// The entry's name within the directory.
    pub file_name: String,
    /// Whether the entry is a regular file.
    pub is_file: bool,
}

/// An export directory together with its message files.
#[derive(Clone, Debug)]
pub struct ConversationDirectory {
    pub path: String,
    pub message_file_paths: Vec<String>,
}

pub open spec fn is_digit(c: char) -> bool {
    '0' <= c <= '9'
}

/// Whether `q` occurs in `s` at position `at`.
pub open spec fn occurs_at(s: Seq<char>, q: Seq<char>, at: int) -> bool {
    0 <= at && at + q.len() <= s.len() && s.subrange(at, at + q.len()) == q
}

/// Whether `name` reads `message_<digits>.json` with at least one digit.
pub open spec fn is_message_file_name(name: Seq<char>) -> bool {
    let p = FILE_PREFIX@.len();
    let x = FILE_SUFFIX@.len();
    &&& name.len() > p + x
    &&& occurs_at(name, FILE_PREFIX@, 0)
    &&& occurs_at(name, FILE_SUFFIX@, name.len() - x)
    &&& forall|k: int| p <= k < name.len() - x ==> is_digit(#[trigger] name[k])
}

/// Whether a listing entry is a message file.
pub open spec fn is_message_file(e: DirEntry) -> bool {
    e.is_file && is_message_file_name(e.file_name@)
}

/// The paths of the message files of a listing, in listing order.
pub open spec fn message_paths(es: Seq<DirEntry>) -> Seq<Seq<char>>
    decreases es.len(),
{
    if es.len() == 0 {
        Seq::empty()
    } else if is_message_file(es.last()) {
        message_paths(es.drop_last()).push(es.last().path@)
    } else {
        message_paths(es.drop_last())
    }
}

fn occurs_in_at(s: &str, q: &str, at: usize) -> (r: bool)
    ensures
        r == occurs_at(s@, q@, at as int),
{
    let n = s.unicode_len();
    let m = q.unicode_len();
    if at > n || m > n - at {
        return false;
    }
    let mut k: usize = 0;
    while k < m
        invariant
            n == s@.len(),
            m == q@.len(),
            at + m <= n,
            k <= m,
            forall|j: int| 0 <= j < k ==> s@[at + j] == q@[j],
        decreases m - k,
    {
        if s.get_char(at + k) != q.get_char(k) {
            assert(s@.subrange(at as int, at + m)[k as int] != q@[k as int]);
            return false;
        }
        k = k + 1;
    }
    assert(s@.subrange(at as int, at + m) =~= q@);
    true
}

/// Whether `name` is the name of a message file: `message_<digits>.json`.
pub fn message_file_name(name: &String) -> (r: bool)
    ensures
        r == is_message_file_name(name@),
{
    let s = name.as_str();
    let n = s.unicode_len();
    let p = FILE_PREFIX.unicode_len();
    let x = FILE_SUFFIX.unicode_len();
    if x >= n || n - x <= p {
        return false;
    }
    if !occurs_in_at(s, FILE_PREFIX, 0) || !occurs_in_at(s, FILE_SUFFIX, n - x) {
        return false;
    }
    let mut k: usize = p;
    while k < n - x
        invariant
            n == name@.len(),
            s@ == name@,
            p == FILE_PREFIX@.len(),
            x == FILE_SUFFIX@.len(),
            n > p + x,
            p <= k <= n - x,
            forall|j: int| p <= j < k ==> is_digit(#[trigger] name@[j]),
        decreases n - x - k,
    {
        let c = s.get_char(k);
        if !('0' <= c && c <= '9') {
            return false;
        }
        k = k + 1;
    }
    true
}

impl ConversationDirectory {
    /// Validates a directory from its listing: fails with `NotADirectory` when
    /// the path is no directory, with `NoConversationFiles` when no entry is a
    /// file named `message_<digits>.json`, and otherwise keeps the paths of
    /// exactly those entries.
    pub fn from_listing(path: String, is_dir: bool, entries: &Vec<DirEntry>) -> (r: Result<
        Self,
        ConversationError,
    >)
        ensures
            !is_dir ==> r matches Err(ConversationError::NotADirectory),
            is_dir && message_paths(entries@).len() == 0 ==> r matches Err(
                ConversationError::NoConversationFiles,
            ),
            is_dir && message_paths(entries@).len() > 0 ==> (r matches Ok(d) && d.path@ == path@
                && d.message_file_paths@.map_values(|p: String| p@) == message_paths(entries@)),
    {
        if !is_dir {
            return Err(ConversationError::NotADirectory);
        }
        let mut paths: Vec<String> = Vec::new();
        let mut i: usize = 0;
        while i < entries.len()
            invariant
                i <= entries@.len(),
                paths@.map_values(|p: String| p@) == message_paths(entries@.take(i as int)),
            decreases entries@.len() - i,
        {
            let e = &entries[i];
            proof {
                assert(entries@.take(i + 1).drop_last() =~= entries@.take(i as int));
                assert(entries@.take(i + 1).last() == *e);
            }
            if e.is_file && message_file_name(&e.file_name) {
                let ghost before = paths@;
                paths.push(e.path.clone());
                proof {
                    assert(paths@.map_values(|p: String| p@) =~= before.map_values(|p: String| p@).push(e.path@));
                }
            }
            i = i + 1;
        }
        proof {
            assert(entries@.take(i as int) =~= entries@);
        }
        if paths.len() == 0 {
            Err(ConversationError::NoConversationFiles)
        } else {
            Ok(ConversationDirectory { path, message_file_paths: paths })
        }
    }
}

} // verus!
