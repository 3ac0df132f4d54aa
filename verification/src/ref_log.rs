//! Ref logs: what a reference led to over time.

use vstd::prelude::*;
use vstd::slice::slice_subrange;

use crate::helpers::fs::path_translate;
use crate::repo::{chars_are_partial_id, is_lower_hex, partial_id};
use crate::sorting::{sort_items, stable_sort};
use crate::text::{
    chars_of, find_char, first_index, join, lemma_first_index_is, opt_str, opt_text, same_text,
    string_of, texts,
};

verus! {

broadcast use vstd::string::group_string_axioms;

/// An entry in a ref log.
#[derive(Debug)]
pub struct RefLogEntry {
    /// The previous commit ID, if there was one.
    pub old_object_id: Option<String>,
    /// The new commit ID.
    pub new_object_id: String,
    /// The name and email of the committer, and the timestamp of the event.
    pub committer: String,
    /// The ref log message.
    pub message: String,
}

/// What an entry holds.
pub struct LogView {
    /// The previous commit ID.
    pub old_object_id: Option<Seq<char>>,
    /// The new commit ID.
    pub new_object_id: Seq<char>,
    /// Who and when.
    pub committer: Seq<char>,
    /// The message.
    pub message: Seq<char>,
}

impl View for RefLogEntry {
    type V = LogView;

    open spec fn view(&self) -> LogView {
        LogView {
            old_object_id: opt_text(self.old_object_id),
            new_object_id: self.new_object_id@,
            committer: self.committer@,
            message: self.message@,
        }
    }
}

/// Forty zeros, which stand for no object.
pub open spec fn zero_id() -> Seq<char> {
    "0000000000000000000000000000000000000000"@
}

/// An entry as a line of a log.
pub open spec fn log_line(e: LogView) -> Seq<char> {
    (match e.old_object_id {
        Some(id) => id,
        None => zero_id(),
    }) + " "@ + e.new_object_id + " "@ + e.committer + "\t"@ + e.message
}

/// Whether all characters are zeros.
pub open spec fn all_zeros(s: Seq<char>) -> bool {
    forall|i: int| 0 <= i < s.len() ==> #[trigger] s[i] == '0'
}

/// The entry that a line of a log holds: two full object IDs, each followed by a space, then
/// the committer, and the message behind the first tab.
pub open spec fn parse_log_line(s: Seq<char>) -> Option<LogView> {
    let tab = first_index(s, '\t', 0);
    if s.len() < 83 || !partial_id(s.take(40)) || s[40] != ' ' || !partial_id(s.subrange(41, 81))
        || s[81] != ' ' {
        None
    } else {
        Some(
            LogView {
                old_object_id: if all_zeros(s.take(40)) {
                    None
                } else {
                    Some(s.take(40))
                },
                new_object_id: s.subrange(41, 81),
                committer: s.subrange(82, tab),
                message: if tab >= s.len() {
                    Seq::empty()
                } else {
                    s.skip(tab + 1)
                },
            },
        )
    }
}

fn chars_are_zeros(cs: &[char]) -> (r: bool)
    ensures
        r == all_zeros(cs@),
{
    let mut i: usize = 0;
    while i < cs.len()
        invariant
            i <= cs@.len(),
            forall|j: int| 0 <= j < i ==> #[trigger] cs@[j] == '0',
        decreases cs@.len() - i,
    {
        if cs[i] != '0' {
            return false;
        }
        i = i + 1;
    }
    true
}

proof fn lemma_tab_after_ids(s: Seq<char>)
    requires
        parse_log_line(s) is Some,
    ensures
        82 <= first_index(s, '\t', 0) <= s.len(),
{
    crate::text::lemma_first_index(s, '\t', 0);
    let tab = first_index(s, '\t', 0);
    if tab < 82 {
        if tab < 40 {
            assert(s.take(40)[tab] == s[tab]);
        } else if 41 <= tab < 81 {
            assert(s.subrange(41, 81)[tab - 41] == s[tab]);
        }
        assert(is_lower_hex('\t') || s[tab] == ' ');
    }
}

impl RefLogEntry {
    /// An entry with the given contents.
    pub fn new(
        old_object_id: Option<&str>,
        new_object_id: &str,
        committer: &str,
        message: &str,
    ) -> (r: Self)
        ensures
            r@ == (LogView {
                old_object_id: opt_str(old_object_id),
                new_object_id: new_object_id@,
                committer: committer@,
                message: message@,
            }),
    {
        let old = match old_object_id {
            Some(id) => Some(id.to_string()),
            None => None,
        };
        RefLogEntry {
            old_object_id: old,
            new_object_id: new_object_id.to_string(),
            committer: committer.to_string(),
            message: message.to_string(),
        }
    }

    /// The entry that a line of a log holds.
    pub fn from_str(value: &str) -> (r: Result<Self, &'static str>)
        ensures
            match r {
                Ok(e) => parse_log_line(value@) == Some(e@),
                Err(e) => parse_log_line(value@) is None && e@ == "mangled ref log entry"@,
            },
    {
        let cs = chars_of(value);
        if cs.len() < 83 {
            return Err("mangled ref log entry");
        }
        let old_id = slice_subrange(&cs, 0, 40);
        assert(old_id@ =~= value@.take(40));
        let new_id = slice_subrange(&cs, 41, 81);
        if !chars_are_partial_id(old_id) || !chars_are_partial_id(new_id) || cs[40] != ' '
            || cs[81] != ' ' {
            return Err("mangled ref log entry");
        }
        proof {
            lemma_tab_after_ids(value@);
        }
        let old_object_id = if chars_are_zeros(old_id) {
            None
        } else {
            Some(string_of(old_id))
        };
        let tab: usize = find_char(&cs, '\t', 0);
        let committer = string_of(slice_subrange(&cs, 82, tab));
        let message = if tab >= cs.len() {
            String::new()
        } else {
            let rest = slice_subrange(&cs, tab + 1, cs.len());
            assert(rest@ =~= value@.skip(tab + 1));
            string_of(rest)
        };
        Ok(RefLogEntry { old_object_id, new_object_id: string_of(new_id), committer, message })
    }

    /// The entry as a line of a log.
    pub fn to_string(&self) -> (r: String)
        ensures
            r@ == log_line(self@),
    {
        let mut out = match &self.old_object_id {
            Some(id) => id.clone(),
            None => "0000000000000000000000000000000000000000".to_string(),
        };
        out.append(" ");
        out.append(self.new_object_id.as_str());
        out.append(" ");
        out.append(self.committer.as_str());
        out.append("\t");
        out.append(self.message.as_str());
        out
    }
}

/// Whether a text is a full object ID.
pub open spec fn full_id(id: Seq<char>) -> bool {
    id.len() == 40 && partial_id(id)
}

/// Reading a line of a log gives back the entry that was written: where both IDs are full ones,
/// the old one not that of no object, and the committer holds no tab.
pub proof fn theorem_log_round_trip(e: LogView)
    requires
        full_id(e.new_object_id),
        e.old_object_id matches Some(id) ==> full_id(id) && !all_zeros(id),
        !e.committer.contains('\t'),
    ensures
        parse_log_line(log_line(e)) == Some(e),
{
    reveal_strlit("0000000000000000000000000000000000000000");
    reveal_strlit(" ");
    reveal_strlit("\t");
    let old = match e.old_object_id {
        Some(id) => id,
        None => zero_id(),
    };
    assert(old.len() == 40);
    let s = log_line(e);
    let new = e.new_object_id;
    assert(s =~= old + seq![' '] + new + seq![' '] + e.committer + seq!['\t'] + e.message);
    assert(s.take(40) =~= old);
    assert(s.subrange(41, 81) =~= new);
    assert(s[40] == ' ');
    assert(s[81] == ' ');
    let tab = 82 + e.committer.len() as int;
    assert forall|j: int| 0 <= j < tab implies s[j] != '\t' by {
        if j < 40 {
            assert(s[j] == old[j]);
            assert(is_lower_hex(old[j]));
        } else if 41 <= j < 81 {
            assert(s[j] == new[j - 41]);
            assert(is_lower_hex(new[j - 41]));
        } else if 82 <= j {
            assert(s[j] == e.committer[j - 82]);
            if s[j] == '\t' {
                assert(e.committer.contains('\t'));
            }
        }
    }
    assert(s[tab] == '\t');
    lemma_first_index_is(s, '\t', 0, tab);
    assert(s.subrange(82, tab) =~= e.committer);
    assert(s.skip(tab + 1) =~= e.message);
    assert(partial_id(old));
    match e.old_object_id {
        Some(id) => {},
        None => {
            assert(all_zeros(old));
        },
    }
}

/// The ref logs below a directory.
pub struct RefLog {
    /// The directory.
    pub base_path: String,
}

/// The path of the log of a local branch, or of `HEAD` for none, below the directory of the
/// logs.
pub open spec fn log_path(branch_name: Option<Seq<char>>) -> Seq<Seq<char>> {
    match branch_name {
        None => seq!["HEAD"@],
        Some(n) => seq!["refs"@, "heads"@, n],
    }
}

/// A line to add at the end of a file, which is given by the components of its path.
#[derive(Debug)]
pub struct LogAppend {
    /// The components of the path below the directory of the logs.
    pub path: Vec<String>,
    /// The line, with the line feed that ends it.
    pub line: String,
}

impl RefLog {
    /// The ref logs below the given directory.
    pub fn new(path: &str) -> (r: Self)
        ensures
            r.base_path@ == path@,
    {
        RefLog { base_path: path.to_string() }
    }

    /// The path of the log of a local branch, or of `HEAD` for none.
    pub fn ref_log_file_path(branch_name: Option<&str>) -> (r: Vec<String>)
        ensures
            texts(r@) == log_path(opt_str(branch_name)),
    {
        let mut path: Vec<String> = Vec::new();
        match branch_name {
            None => {
                path.push("HEAD".to_string());
            },
            Some(n) => {
                path.push("refs".to_string());
                path.push("heads".to_string());
                path.push(n.to_string());
            },
        }
        assert(texts(path@) =~= log_path(opt_str(branch_name)));
        path
    }

    /// What to add to which logs for an entry: the line of the entry to the log of the branch,
    /// and also to that of `HEAD` where there is a branch.
    pub fn write(&self, entry: &RefLogEntry, branch_name: Option<&str>) -> (r: Vec<LogAppend>)
        ensures
            r@.len() == if branch_name is Some {
                2int
            } else {
                1
            },
            texts(r@[0].path@) == log_path(opt_str(branch_name)),
            branch_name is Some ==> texts(r@[1].path@) == log_path(None),
            forall|i: int|
                0 <= i < r@.len() ==> (#[trigger] r@[i]).line@ == log_line(entry@).push('\n'),
    {
        let mut line = entry.to_string();
        line.push('\n');
        let mut out: Vec<LogAppend> = Vec::new();
        out.push(LogAppend { path: RefLog::ref_log_file_path(branch_name), line: line.clone() });
        if branch_name.is_some() {
            out.push(LogAppend { path: RefLog::ref_log_file_path(None), line });
        }
        out
    }

    /// The path of the log to look for to tell whether a reference has one: `HEAD` names that of
    /// `HEAD`, anything else that of a local branch.
    pub fn check_exists(&self, branch_name: &str) -> (r: Vec<String>)
        ensures
            texts(r@) == if branch_name@ == "HEAD"@ {
                log_path(None)
            } else {
                log_path(Some(branch_name@))
            },
    {
        if same_text(branch_name, "HEAD") {
            RefLog::ref_log_file_path(None)
        } else {
            RefLog::ref_log_file_path(Some(branch_name))
        }
    }

    /// The names of the logs, sorted, from the paths of their files below the directory of the
    /// logs.
    pub fn list_ref_logs(&self, files: &[Vec<String>]) -> (r: Vec<String>)
        ensures
            exists|names: Seq<String>|
                r@ == stable_sort(names) && texts(names) == Seq::new(
                    files@.len(),
                    |i: int| join(texts(files@[i]@), seq!['/']),
                ),
    {
        let mut names: Vec<String> = Vec::new();
        let mut i: usize = 0;
        while i < files.len()
            invariant
                i <= files@.len(),
                names@.len() == i,
                forall|j: int|
                    0 <= j < i ==> (#[trigger] names@[j])@ == join(texts(files@[j]@), seq!['/']),
            decreases files@.len() - i,
        {
            names.push(path_translate(files[i].as_slice()));
            i = i + 1;
        }
        assert(texts(names@) =~= Seq::new(
            files@.len(),
            |i: int| join(texts(files@[i]@), seq!['/']),
        ));
        let ghost before = names@;
        sort_items(&mut names);
        assert(names@ == stable_sort(before));
        names
    }
}

/// What is read from a line is what the line says: with a tab in it, it is the line of what was
/// read.
pub proof fn theorem_read_entry_has_its_line(s: Seq<char>)
    requires
        s.contains('\t'),
    ensures
        parse_log_line(s) matches Some(e) ==> log_line(e) == s,
{
    reveal_strlit(" ");
    reveal_strlit("\t");
    reveal_strlit("0000000000000000000000000000000000000000");
    if let Some(e) = parse_log_line(s) {
        crate::text::lemma_first_index(s, '\t', 0);
        let tab = first_index(s, '\t', 0);
        let k = choose|k: int| 0 <= k < s.len() && s[k] == '\t';
        assert(tab < s.len());
        let t = log_line(e);
        assert(tab > 81) by {
            if tab < 40 {
                assert(crate::repo::is_lower_hex(s.take(40)[tab]));
            } else if 40 < tab < 81 {
                assert(crate::repo::is_lower_hex(s.subrange(41, 81)[tab - 41]));
            }
        }
        let id = match e.old_object_id {
            Some(id) => id,
            None => zero_id(),
        };
        assert(id =~= s.take(40)) by {
            if e.old_object_id is None {
                assert forall|i: int| 0 <= i < 40 implies zero_id()[i] == s.take(40)[i] by {
                    assert(s.take(40)[i] == '0');
                }
            }
        }
        assert(t.len() == s.len());
        assert forall|i: int| 0 <= i < s.len() implies s[i] == t[i] by {
            if i < 40 {
                assert(s.take(40)[i] == s[i]);
            } else if 40 < i < 81 {
                assert(s.subrange(41, 81)[i - 41] == s[i]);
            }
        }
        assert(t =~= s);
    }
}

} // verus!
