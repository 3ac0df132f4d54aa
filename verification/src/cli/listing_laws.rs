//! What holds of the lines that commands show.

use vstd::prelude::*;

use crate::cli::branches::{line_for, lines_for};
use crate::cli::listing::{
    detail_lines, entry_lines, ignored_paths, index_lines, remote_lines, url_lines, RemoteInfo,
};
use crate::cli::log::label_message;
use crate::cli::staging::{staged_changes, unstaged_changes, FileState};
use crate::cli::tree_listing::{entry_line, is_directory, tree_lines};
use crate::ignore::{is_ignored, IgnoreInfo};
use crate::index::{has_path, Index, IndexEntry};
use crate::numerals::{numeral, parsed_number, theorem_parse_padded_numeral, zero_padded};
use crate::objects::tree::NodeView;
use crate::objects::StoredView;
use crate::repo::flatten::path_below;
use crate::repo::model::{object_at, Fault};
use crate::stores::backends::ObjectMap;
use crate::stores::{BranchSpec, BranchView};
use crate::text::laws::{theorem_replace_char, theorem_trim};
use crate::text::{
    is_white, lemma_filter_contains, lemma_first_index_is, lemma_push_contains, replace_char, texts,
    until,
};

verus! {

/// The paths of a list that are ignored are all those that the rules ignore, in their order.
pub proof fn theorem_ignored_paths(info: IgnoreInfo, paths: Seq<Seq<char>>)
    ensures
        ignored_paths(info, paths) == paths.filter(|p: Seq<char>| is_ignored(info, p)),
        forall|p: Seq<char>| #[trigger]
            ignored_paths(info, paths).contains(p) <==> paths.contains(p) && is_ignored(info, p),
    decreases paths.len(),
{
    reveal(Seq::filter);
    if paths.len() > 0 {
        theorem_ignored_paths(info, paths.drop_last());
    }
    assert forall|p: Seq<char>| #[trigger]
        ignored_paths(info, paths).contains(p) <==> paths.contains(p) && is_ignored(info, p) by {
        lemma_filter_contains(paths, |p: Seq<char>| is_ignored(info, p), p);
    }
}

/// An index is shown entry by entry: the lines for further entries come behind, and those for one
/// entry are its path, and behind it the details where they are asked for.
pub proof fn theorem_entry_lines(a: Seq<IndexEntry>, b: Seq<IndexEntry>, verbose: bool)
    ensures
        entry_lines(a + b, verbose) == entry_lines(a, verbose) + entry_lines(b, verbose),
        forall|e: IndexEntry| #[trigger]
            entry_lines(seq![e], verbose) == if verbose {
                seq![e.object_name@] + detail_lines(e)
            } else {
                seq![e.object_name@]
            },
    decreases b.len(),
{
    if b.len() == 0 {
        assert(a + b =~= a);
        assert(entry_lines(a, verbose) + entry_lines(b, verbose) =~= entry_lines(a, verbose));
    } else {
        theorem_entry_lines(a, b.drop_last(), verbose);
        assert((a + b).drop_last() =~= a + b.drop_last());
        assert(entry_lines(a + b, verbose) =~= entry_lines(a, verbose) + entry_lines(b, verbose));
    }
    assert forall|e: IndexEntry| #[trigger]
        entry_lines(seq![e], verbose) == if verbose {
            seq![e.object_name@] + detail_lines(e)
        } else {
            seq![e.object_name@]
        } by {
        let one = seq![e];
        assert(one.drop_last() =~= Seq::empty());
        assert(entry_lines(one.drop_last(), verbose) =~= Seq::empty());
        assert(entry_lines(one.drop_last(), verbose).push(e.object_name@)
            =~= seq![e.object_name@]);
    }
}

/// The paths of the entries are what an index is shown as where no details are asked for.
pub proof fn theorem_entry_paths(entries: Seq<IndexEntry>)
    ensures
        entry_lines(entries, false) == entries.map_values(|e: IndexEntry| e.object_name@),
    decreases entries.len(),
{
    if entries.len() > 0 {
        theorem_entry_paths(entries.drop_last());
        assert(entry_lines(entries, false) =~= entries.map_values(|e: IndexEntry| e.object_name@));
    } else {
        assert(entry_lines(entries, false) =~= entries.map_values(|e: IndexEntry| e.object_name@));
    }
}

/// Remotes are shown one after the other: by their names, or by all their addresses for fetching
/// and behind them all those for pushing.
pub proof fn theorem_remote_lines(a: Seq<RemoteInfo>, b: Seq<RemoteInfo>, verbose: bool)
    ensures
        remote_lines(a + b, verbose) == remote_lines(a, verbose) + remote_lines(b, verbose),
        forall|r: RemoteInfo| #[trigger]
            remote_lines(seq![r], verbose) == if verbose {
                url_lines(r.name@, texts(r.fetch_urls@), "fetch"@) + url_lines(
                    r.name@,
                    texts(r.push_urls@),
                    "push"@,
                )
            } else {
                seq![r.name@]
            },
    decreases b.len(),
{
    if b.len() == 0 {
        assert(a + b =~= a);
        assert(remote_lines(a, verbose) + remote_lines(b, verbose) =~= remote_lines(a, verbose));
    } else {
        theorem_remote_lines(a, b.drop_last(), verbose);
        assert((a + b).drop_last() =~= a + b.drop_last());
        assert(remote_lines(a + b, verbose) =~= remote_lines(a, verbose) + remote_lines(
            b,
            verbose,
        ));
    }
    assert forall|r: RemoteInfo| #[trigger]
        remote_lines(seq![r], verbose) == if verbose {
            url_lines(r.name@, texts(r.fetch_urls@), "fetch"@) + url_lines(
                r.name@,
                texts(r.push_urls@),
                "push"@,
            )
        } else {
            seq![r.name@]
        } by {
        let one = seq![r];
        assert(one.drop_last() =~= Seq::empty());
        assert(remote_lines(one.drop_last(), verbose) =~= Seq::empty());
        if verbose {
            assert(remote_lines(one, verbose) =~= url_lines(
                r.name@,
                texts(r.fetch_urls@),
                "fetch"@,
            ) + url_lines(r.name@, texts(r.push_urls@), "push"@));
        } else {
            assert(remote_lines(one, verbose) =~= seq![r.name@]);
        }
    }
}

/// Branches are shown one after the other: a local one always, any other one where all are asked
/// for.
pub proof fn theorem_branch_lines(
    a: Seq<BranchSpec>,
    b: Seq<BranchSpec>,
    current: Option<BranchView>,
    list_all: bool,
)
    ensures
        lines_for(a + b, current, list_all) == lines_for(a, current, list_all) + lines_for(
            b,
            current,
            list_all,
        ),
        forall|x: BranchSpec| #[trigger]
            lines_for(seq![x], current, list_all) == if x@.location is Local || list_all {
                seq![line_for(x@, current)]
            } else {
                Seq::empty()
            },
    decreases b.len(),
{
    if b.len() == 0 {
        assert(a + b =~= a);
        assert(lines_for(a, current, list_all) + lines_for(b, current, list_all) =~= lines_for(
            a,
            current,
            list_all,
        ));
    } else {
        theorem_branch_lines(a, b.drop_last(), current, list_all);
        assert((a + b).drop_last() =~= a + b.drop_last());
        assert(lines_for(a + b, current, list_all) =~= lines_for(a, current, list_all) + lines_for(
            b,
            current,
            list_all,
        ));
    }
    assert forall|x: BranchSpec| #[trigger]
        lines_for(seq![x], current, list_all) == if x@.location is Local || list_all {
            seq![line_for(x@, current)]
        } else {
            Seq::empty()
        } by {
        let one = seq![x];
        assert(one.drop_last() =~= Seq::empty());
        let none = lines_for(one.drop_last(), current, list_all);
        assert(none =~= Seq::empty());
        assert(none.push(line_for(x@, current)) =~= seq![line_for(x@, current)]);
    }
}

/// What was committed and is not in the index are the committed files whose paths no entry has,
/// with the IDs that were committed.
pub proof fn theorem_unlisted_files(
    committed: Map<Seq<char>, Seq<char>>,
    entries: Seq<IndexEntry>,
)
    ensures
        ({
            let rest = staged_changes(committed, entries).1;
            &&& forall|p: Seq<char>| #[trigger]
                rest.contains_key(p) <==> committed.contains_key(p) && !has_path(entries, p)
            &&& forall|p: Seq<char>| #[trigger] rest.contains_key(p) ==> rest[p] == committed[p]
        }),
    decreases entries.len(),
{
    if entries.len() > 0 {
        let before = entries.drop_last();
        let n = entries.len() - 1;
        let name = entries[n].object_name@;
        theorem_unlisted_files(committed, before);
        let rest = staged_changes(committed, entries).1;
        assert forall|p: Seq<char>| #[trigger] rest.contains_key(p) <==> committed.contains_key(p)
            && !has_path(entries, p) by {
            lemma_has_path_next(entries, p);
            let less = staged_changes(committed, before).1;
            assert(less.contains_key(p) <==> committed.contains_key(p) && !has_path(before, p));
        }
        assert forall|p: Seq<char>| #[trigger] rest.contains_key(p) implies rest[p]
            == committed[p] by {
            let less = staged_changes(committed, before).1;
            assert(less.contains_key(p));
        }
    }
}

proof fn lemma_has_path_next(entries: Seq<IndexEntry>, p: Seq<char>)
    requires
        entries.len() > 0,
    ensures
        has_path(entries, p) <==> has_path(entries.drop_last(), p)
            || entries.last().object_name@ == p,
{
    let before = entries.drop_last();
    if has_path(before, p) {
        let i = choose|i: int| 0 <= i < before.len() && (#[trigger] before[i]).object_name@ == p;
        assert(entries[i].object_name@ == p);
    }
    if has_path(entries, p) {
        let i = choose|i: int| 0 <= i < entries.len() && (#[trigger] entries[i]).object_name@ == p;
        if i < before.len() {
            assert(before[i].object_name@ == p);
        }
    }
    assert(entries[entries.len() - 1] == entries.last());
}

/// The line for an entry of the index that is not as it was committed.
pub open spec fn staged_line(committed: Map<Seq<char>, Seq<char>>, e: IndexEntry) -> Option<
    Seq<char>,
> {
    if !committed.contains_key(e.object_name@) {
        Some("\tadded:      "@ + e.object_name@)
    } else if committed[e.object_name@] != e.object_id@ {
        Some("\tmodified:   "@ + e.object_name@)
    } else {
        None
    }
}

/// Whether no two entries have the same path.
pub open spec fn paths_differ(entries: Seq<IndexEntry>) -> bool {
    forall|i: int, j: int|
        0 <= i < j < entries.len() ==> (#[trigger] entries[i]).object_name@ != (
        #[trigger] entries[j]).object_name@
}

/// Of an index in which each path occurs once, the entries that are shown as changed are those
/// that were not committed, as added, and those that were committed with another ID, as modified:
/// all of them, each compared with what was committed under its own path.
pub proof fn theorem_staged_changes(
    committed: Map<Seq<char>, Seq<char>>,
    entries: Seq<IndexEntry>,
    line: Seq<char>,
)
    requires
        paths_differ(entries),
    ensures
        staged_changes(committed, entries).0.contains(line) <==> exists|i: int|
            0 <= i < entries.len() && staged_line(committed, #[trigger] entries[i]) == Some(line),
    decreases entries.len(),
{
    if entries.len() > 0 {
        let before = entries.drop_last();
        let n = entries.len() - 1;
        let e = entries[n];
        assert(paths_differ(before)) by {
            assert forall|i: int, j: int| 0 <= i < j < before.len() implies (
            #[trigger] before[i]).object_name@ != (#[trigger] before[j]).object_name@ by {
                assert(entries[i].object_name@ != entries[j].object_name@);
            }
        }
        theorem_staged_changes(committed, before, line);
        theorem_unlisted_files(committed, before);
        assert(!has_path(before, e.object_name@)) by {
            if has_path(before, e.object_name@) {
                let i = choose|i: int|
                    0 <= i < before.len() && (#[trigger] before[i]).object_name@ == e.object_name@;
                assert(entries[i].object_name@ != entries[n].object_name@);
            }
        }
        let (old_lines, rest) = staged_changes(committed, before);
        let lines = staged_changes(committed, entries).0;
        assert(rest.contains_key(e.object_name@) <==> committed.contains_key(e.object_name@));
        assert(lines == match staged_line(committed, e) {
            Some(l) => old_lines.push(l),
            None => old_lines,
        });
        lemma_push_contains(old_lines, staged_line(committed, e), line);
        if exists|i: int|
            0 <= i < before.len() && staged_line(committed, #[trigger] before[i]) == Some(line) {
            let i = choose|i: int|
                0 <= i < before.len() && staged_line(committed, #[trigger] before[i]) == Some(
                    line,
                );
            assert(entries[i] == before[i]);
        }
        if exists|i: int|
            0 <= i < entries.len() && staged_line(committed, #[trigger] entries[i]) == Some(line) {
            let i = choose|i: int|
                0 <= i < entries.len() && staged_line(committed, #[trigger] entries[i]) == Some(
                    line,
                );
            if i < n {
                assert(before[i] == entries[i]);
            }
        }
    }
}

/// The line for a file that is not in the worktree as the index records it.
pub open spec fn unstaged_line(e: IndexEntry, state: FileState) -> Option<Seq<char>> {
    match state {
        FileState::Missing => Some("\tdeleted: "@ + e.object_name@),
        FileState::Modified => Some("\tmodified:   "@ + e.object_name@),
        FileState::Same => None,
    }
}

/// The files that are shown are those that are missing and those with other contents: all of
/// them, and no file that is as the index records it.
pub proof fn theorem_unstaged_changes(
    entries: Seq<IndexEntry>,
    states: Seq<FileState>,
    line: Seq<char>,
)
    requires
        states.len() == entries.len(),
    ensures
        unstaged_changes(entries, states).contains(line) <==> exists|i: int|
            0 <= i < entries.len() && unstaged_line(#[trigger] entries[i], states[i]) == Some(
                line,
            ),
{
    lemma_unstaged(entries, states, line);
}

proof fn lemma_unstaged(entries: Seq<IndexEntry>, states: Seq<FileState>, line: Seq<char>)
    requires
        states.len() >= entries.len(),
    ensures
        unstaged_changes(entries, states).contains(line) <==> exists|i: int|
            0 <= i < entries.len() && unstaged_line(#[trigger] entries[i], states[i]) == Some(
                line,
            ),
    decreases entries.len(),
{
    if entries.len() > 0 {
        let before = entries.drop_last();
        let n = entries.len() - 1;
        lemma_unstaged(before, states, line);
        lemma_push_contains(
            unstaged_changes(before, states),
            unstaged_line(entries[n], states[n]),
            line,
        );
        if exists|i: int|
            0 <= i < before.len() && unstaged_line(#[trigger] before[i], states[i]) == Some(line) {
            let i = choose|i: int|
                0 <= i < before.len() && unstaged_line(#[trigger] before[i], states[i]) == Some(
                    line,
                );
            assert(entries[i] == before[i]);
        }
        if exists|i: int|
            0 <= i < entries.len() && unstaged_line(#[trigger] entries[i], states[i]) == Some(
                line,
            ) {
            let i = choose|i: int|
                0 <= i < entries.len() && unstaged_line(#[trigger] entries[i], states[i]) == Some(
                    line,
                );
            if i < n {
                assert(before[i] == entries[i]);
            }
        }
    }
}

/// The changes of further files are shown behind those of the first ones.
pub proof fn theorem_unstaged_changes_follow(
    a: Seq<IndexEntry>,
    b: Seq<IndexEntry>,
    s: Seq<FileState>,
    t: Seq<FileState>,
)
    requires
        s.len() == a.len(),
        t.len() == b.len(),
    ensures
        unstaged_changes(a + b, s + t) == unstaged_changes(a, s) + unstaged_changes(b, t),
    decreases b.len(),
{
    if b.len() == 0 {
        assert(a + b =~= a);
        assert(s + t =~= s);
        assert(unstaged_changes(a, s) + unstaged_changes(b, t) =~= unstaged_changes(a, s));
    } else {
        let b1 = b.drop_last();
        theorem_unstaged_changes_follow(a, b1, s, t.drop_last());
        lemma_unstaged_states(a + b1, s + t.drop_last(), s + t);
        lemma_unstaged_states(b1, t.drop_last(), t);
        assert((a + b).drop_last() =~= a + b1);
        assert((s + t)[(a + b).len() - 1] == t[b.len() - 1]);
        assert(unstaged_changes(a + b, s + t) =~= unstaged_changes(a, s) + unstaged_changes(b, t));
    }
}

proof fn lemma_unstaged_states(
    entries: Seq<IndexEntry>,
    s: Seq<FileState>,
    t: Seq<FileState>,
)
    requires
        s.len() >= entries.len(),
        t.len() >= entries.len(),
        forall|i: int| 0 <= i < entries.len() ==> #[trigger] s[i] == t[i],
    ensures
        unstaged_changes(entries, s) == unstaged_changes(entries, t),
    decreases entries.len(),
{
    if entries.len() > 0 {
        lemma_unstaged_states(entries.drop_last(), s, t);
        assert(s[entries.len() - 1] == t[entries.len() - 1]);
    }
}

/// A tree is listed entry by entry: the lines for further entries come behind.
pub proof fn theorem_tree_lines_follow(
    objects: Seq<ObjectMap>,
    a: Seq<NodeView>,
    b: Seq<NodeView>,
    prefix: Seq<char>,
    recursive: bool,
    steps: nat,
)
    ensures
        tree_lines(objects, a + b, prefix, recursive, steps) == match (
            tree_lines(objects, a, prefix, recursive, steps),
            tree_lines(objects, b, prefix, recursive, steps),
        ) {
            (Some(first), Some(second)) => Some(first + second),
            _ => None,
        },
    decreases b.len(),
{
    let first = tree_lines(objects, a, prefix, recursive, steps);
    if b.len() == 0 {
        assert(a + b =~= a);
        assert(tree_lines(objects, b, prefix, recursive, steps) == Some(
            Seq::<Seq<char>>::empty(),
        ));
        if first is Some {
            assert(first->0 + Seq::<Seq<char>>::empty() =~= first->0);
        }
    } else {
        theorem_tree_lines_follow(objects, a, b.drop_last(), prefix, recursive, steps);
        assert((a + b).drop_last() =~= a + b.drop_last());
        assert((a + b).last() == b.last());
        let second = tree_lines(objects, b.drop_last(), prefix, recursive, steps);
        if first is Some && second is Some {
            let node = b.last();
            let path = path_below(prefix, node.name);
            let x = first->0;
            let y = second->0;
            if recursive && is_directory(node.mode) {
                if let Ok(Some(StoredView::Tree(below))) = object_at(objects, node.object_id) {
                    if steps > 0 {
                        if let Some(more) = tree_lines(
                            objects,
                            below,
                            path,
                            recursive,
                            (steps - 1) as nat,
                        ) {
                            assert((x + y) + more =~= x + (y + more));
                        }
                    }
                }
            } else {
                let line = entry_line(node, path);
                assert((x + y).push(line) =~= x + y.push(line));
            }
        }
    }
}

/// An entry of a tree that is a directory is listed, where the directories below are asked for, as
/// the lines for what it holds, with its own path in front of their names; any other entry as one
/// line with its path: that of the directory, a slash and its name.
pub proof fn theorem_tree_line(
    objects: Seq<ObjectMap>,
    node: NodeView,
    dir: Seq<char>,
    below: Seq<NodeView>,
    recursive: bool,
    steps: nat,
)
    ensures
        ({
            let path = if dir.len() == 0 {
                node.name
            } else {
                dir + seq!['/'] + node.name
            };
            let lines = tree_lines(objects, seq![node], dir, recursive, steps);
            &&& !recursive || node.mode >= 0o100000 ==> lines == Some(
                seq![entry_line(node, path)],
            )
            &&& recursive && node.mode < 0o100000 && steps > 0 && object_at(
                objects,
                node.object_id,
            ) == Ok::<Option<StoredView>, Fault>(Some(StoredView::Tree(below))) ==> lines
                == tree_lines(objects, below, path, recursive, (steps - 1) as nat)
        }),
{
    let one = seq![node];
    let path = path_below(dir, node.name);
    let none = Seq::<Seq<char>>::empty();
    assert(one.drop_last() =~= Seq::empty());
    assert(tree_lines(objects, one.drop_last(), dir, recursive, steps) == Some(none));
    assert(none.push(entry_line(node, path)) =~= seq![entry_line(node, path)]);
    if steps > 0 {
        if let Some(more) = tree_lines(objects, below, path, recursive, (steps - 1) as nat) {
            assert(none + more =~= more);
        }
    }
}

/// Without details, an index is shown as the paths of its entries.
pub proof fn theorem_index_paths(index: Index)
    ensures
        index_lines(index, false) == index.entries@.map_values(
            |e: IndexEntry| e.object_name@,
        ),
{
    theorem_entry_paths(index.entries@);
    assert(index_lines(index, false) =~= entry_lines(index.entries@, false));
}

/// The line for an entry of a tree starts with its mode in six octal digits, and ends with its ID
/// and, behind a tab, its path; between them stands what it is by its mode.
pub proof fn theorem_entry_line(node: NodeView, path: Seq<char>)
    requires
        0 <= node.mode < 0o1000000,
    ensures
        ({
            let line = entry_line(node, path);
            &&& parsed_number(line.take(6), 8) == Some(node.mode as nat)
            &&& line.skip(6) == (if node.mode < 0o100000 {
                " tree "@
            } else {
                " blob "@
            }) + node.object_id + seq!['\t'] + path
        }),
{
    let digits = zero_padded(numeral(node.mode as nat, 8), 6);
    let line = entry_line(node, path);
    reveal_strlit("\t");
    assert("\t"@ =~= seq!['\t']);
    lemma_six_digits(node.mode as nat);
    theorem_parse_padded_numeral(node.mode as nat, 8, 6);
    assert(line.take(6) =~= digits);
    assert(line.skip(6) =~= (if node.mode < 0o100000 {
        " tree "@
    } else {
        " blob "@
    }) + node.object_id + seq!['\t'] + path);
}

proof fn lemma_six_digits(n: nat)
    requires
        n < 0o1000000,
    ensures
        zero_padded(numeral(n, 8), 6).len() == 6,
{
    reveal_with_fuel(numeral, 7);
    assert(n / 8 < 0o100000);
    assert(n / 8 / 8 < 0o10000);
    assert(n / 8 / 8 / 8 < 0o1000);
    assert(n / 8 / 8 / 8 / 8 < 0o100);
    assert(n / 8 / 8 / 8 / 8 / 8 < 8);
}

/// Whether a text has none of the characters that a label gives a meaning of their own.
pub open spec fn is_plain(s: Seq<char>) -> bool {
    !s.contains('\\') && !s.contains('"') && !s.contains('\n')
}

proof fn lemma_plain_replaced(a: Seq<char>, c: char, b: Seq<char>, with: Seq<char>)
    requires
        !a.contains(c),
        !b.contains(c),
    ensures
        replace_char(a + seq![c] + b, c, with) == a + with + b,
{
    theorem_replace_char(a + seq![c], b, c, with);
    theorem_replace_char(a, seq![c], c, with);
    theorem_replace_char(b, b, c, with);
}

proof fn lemma_none(a: Seq<char>, m: Seq<char>, b: Seq<char>, c: char)
    requires
        !a.contains(c),
        !m.contains(c),
        !b.contains(c),
    ensures
        !(a + m + b).contains(c),
{
    let s = a + m + b;
    if s.contains(c) {
        let i = choose|i: int| 0 <= i < s.len() && s[i] == c;
        if i < a.len() {
            assert(a[i] == c);
        } else if i < a.len() + m.len() {
            assert(m[i - a.len()] == c);
        } else {
            assert(b[i - a.len() - m.len()] == c);
        }
    }
}

/// A label shows the first line of a message without the white space around the message; a quote
/// and a backslash in it have a backslash in front.
pub proof fn theorem_label_message(a: Seq<char>, b: Seq<char>)
    requires
        is_plain(a),
        is_plain(b),
        a.len() > 0,
        b.len() > 0,
        !is_white(a[0]),
        !is_white(b.last()),
    ensures
        label_message(a + seq!['"'] + b) == a + seq!['\\', '"'] + b,
        label_message(a + seq!['\\'] + b) == a + seq!['\\', '\\'] + b,
        label_message(a + seq!['\n'] + b) == a,
{
    let none = Seq::<char>::empty();
    reveal_strlit("\\\\");
    reveal_strlit("\\\"");
    let slashes = "\\\\"@;
    let quote = "\\\""@;
    assert(slashes =~= seq!['\\', '\\']);
    assert(quote =~= seq!['\\', '"']);
    let q = a + seq!['"'] + b;
    let s = a + seq!['\\'] + b;
    let n = a + seq!['\n'] + b;
    assert(none + q + none =~= q);
    assert(none + s + none =~= s);
    assert(none + n + none =~= n);
    theorem_trim(none, q, none);
    theorem_trim(none, s, none);
    theorem_trim(none, n, none);
    lemma_none(a, seq!['"'], b, '\\');
    theorem_replace_char(q, none, '\\', slashes);
    lemma_plain_replaced(a, '"', b, quote);
    lemma_none(a, quote, b, '\n');
    lemma_until(a + quote + b, none);
    lemma_plain_replaced(a, '\\', b, slashes);
    lemma_none(a, slashes, b, '"');
    theorem_replace_char(a + slashes + b, none, '"', quote);
    lemma_none(a, slashes, b, '\n');
    lemma_until(a + slashes + b, none);
    lemma_none(a, seq!['\n'], b, '\\');
    lemma_none(a, seq!['\n'], b, '"');
    theorem_replace_char(n, none, '\\', slashes);
    theorem_replace_char(n, none, '"', quote);
    lemma_until(a, b);
}

proof fn lemma_until(a: Seq<char>, b: Seq<char>)
    requires
        !a.contains('\n'),
    ensures
        until(a + seq!['\n'] + b, '\n') == a,
        until(a, '\n') == a,
{
    let s = a + seq!['\n'] + b;
    let n = a.len() as int;
    assert forall|j: int| 0 <= j < n implies s[j] != '\n' && a[j] != '\n' by {
        if a[j] == '\n' {
            assert(a.contains('\n'));
        }
    }
    assert(s[n] == '\n');
    lemma_first_index_is(s, '\n', 0, n);
    lemma_first_index_is(a, '\n', 0, n);
    assert(s.take(n) =~= a);
    assert(a.take(n) =~= a);
}

} // verus!
