//! What holds of the commits and tags that commands make.

use vstd::prelude::*;

use crate::cli::branches::{change_line, logs_change};
use crate::cli::staging::{commit_bytes, commit_data, commit_log_message};
use crate::cli::tags::{tag_bytes, tag_name, tagged};
use crate::helpers::laws::theorem_first_line_of_text;
use crate::helpers::timestamped;
use crate::moments::Timestamp;
use crate::objects::commit_laws::{theorem_commit_is_read, theorem_tag_is_read};
use crate::objects::kvlm::field_values;
use crate::objects::raw::{object_name, DataView};
use crate::objects::{KindView, StoredView};
use crate::ref_log::{
    all_zeros, full_id, log_line, parse_log_line, theorem_log_round_trip, LogAppend, LogView,
};
use crate::repo::model::{first_of, stored_view, RepoView};
use crate::stores::laws::theorem_reference_has_its_path;
use crate::stores::{
    ref_text, target_text, theorem_ref_round_trip, writable_ref, RefView, TagView, TargetView,
};
use crate::text::{join, starts_with, texts, theorem_join_split, trim, trim_end};

verus! {

/// A commit that is made of a tree is read as one with that tree, with the commit that it follows
/// as its only parent, or none where it follows none, with its author and its committer each with
/// the moment at which it was made, and with its message without the white space around it.
pub proof fn theorem_made_commit_is_read(
    tree_id: Seq<char>,
    parent_id: Option<Seq<char>>,
    author: Seq<char>,
    committer: Seq<char>,
    moment: Timestamp,
    message: Seq<char>,
)
    requires
        trim_end(tree_id) == tree_id,
        parent_id matches Some(p) ==> trim_end(p) == p,
    ensures
        stored_view(
            commit_data(commit_bytes(tree_id, parent_id, author, committer, moment, message)),
        ) matches Ok(StoredView::Commit(fields, text)) && first_of(fields, "tree"@) == Some(tree_id)
            && field_values(fields, "parent"@) == (match parent_id {
            Some(p) => seq![p],
            None => Seq::<Seq<char>>::empty(),
        }) && first_of(fields, "author"@) == Some(
            timestamped(author, moment.spec_secs(), moment.spec_offset()),
        ) && first_of(fields, "committer"@) == Some(
            timestamped(committer, moment.spec_secs(), moment.spec_offset()),
        ) && text == trim(message) + seq!['\n'],
{
    theorem_commit_is_read(
        tree_id,
        parent_id,
        author,
        committer,
        moment.spec_secs(),
        moment.spec_offset(),
        message,
    );
    assert(trim(message).push('\n') =~= trim(message) + seq!['\n']);
}

/// A tag that is made for an object is read as one of that object, with its name and its message.
pub proof fn theorem_made_tag_is_read(
    target: Seq<char>,
    name: Seq<char>,
    message: Seq<char>,
    author: Seq<char>,
    moment: Timestamp,
)
    requires
        trim_end(target) == target,
        trim_end(name) == name,
    ensures
        ({
            let bytes = tag_bytes(target, name, Some(message + seq!['\n']), author, moment);
            let data = DataView { kind: KindView::Tag, size: bytes.len() as int, data: bytes };
            stored_view(data) matches Ok(StoredView::Tag(fields, text)) && first_of(
                fields,
                "object"@,
            ) == Some(target) && first_of(fields, "tag"@) == Some(name) && first_of(
                fields,
                "tagger"@,
            ) == Some(timestamped(author, moment.spec_secs(), moment.spec_offset())) && text
                == message + seq!['\n']
        }),
{
    let text = message + seq!['\n'];
    assert(text.last() == '\n');
    assert(crate::helpers::with_newline(text) == text);
    theorem_tag_is_read(target, name, author, moment.spec_secs(), moment.spec_offset(), text);
    let fields = seq![
        crate::objects::single("object"@, target),
        crate::objects::single("type"@, "commit"@),
        crate::objects::single("tag"@, name),
        crate::objects::single(
            "tagger"@,
            timestamped(author, moment.spec_secs(), moment.spec_offset()),
        ),
    ];
    crate::objects::commit_laws::lemma_field_names();
    crate::objects::kvlm_laws::theorem_first_field_counts(fields, "tag"@, 2);
    crate::objects::kvlm_laws::theorem_first_field_counts(fields, "tagger"@, 3);
}

/// What is added to a ref log about a change is read as what the reference led to, what it leads to
/// now, who changed it and when, and why.
pub proof fn theorem_logged_change_is_read(
    before: Option<Seq<char>>,
    after: Seq<char>,
    committer: Seq<char>,
    message: Seq<char>,
    moment: Timestamp,
)
    requires
        full_id(after),
        before matches Some(id) ==> full_id(id) && !all_zeros(id),
        !timestamped(committer, moment.spec_secs(), moment.spec_offset()).contains('\t'),
    ensures
        ({
            let line = change_line(before, after, committer, message, moment);
            &&& line.last() == '\n'
            &&& parse_log_line(line.drop_last()) == Some(
                LogView {
                    old_object_id: before,
                    new_object_id: after,
                    committer: timestamped(committer, moment.spec_secs(), moment.spec_offset()),
                    message,
                },
            )
        }),
{
    let e = LogView {
        old_object_id: before,
        new_object_id: after,
        committer: timestamped(committer, moment.spec_secs(), moment.spec_offset()),
        message,
    };
    theorem_log_round_trip(e);
    assert(change_line(before, after, committer, message, moment).drop_last() =~= log_line(e));
}

/// The ref log says of a commit that it is one, and the first line of its message.
pub proof fn theorem_commit_log_message(line: Seq<char>, rest: Seq<char>)
    requires
        !line.contains('\n'),
        line.len() > 0 ==> line.last() != '\r',
    ensures
        commit_log_message(line + seq!['\n'] + rest) == "commit"@ + seq![':', ' '] + trim(line),
        commit_log_message(line) == "commit"@ + seq![':', ' '] + trim(line),
{
    theorem_first_line_of_text(line, rest);
}

/// A tag without a message leads to the object that it was made for, one with a message to the
/// stored form of the tag, which is there afterwards; no other reference changes.
pub proof fn theorem_tag_is_made(
    before: RepoView,
    after: RepoView,
    name: Seq<char>,
    id: Seq<char>,
    tag: Option<Seq<u8>>,
    other: RefView,
)
    requires
        tagged(before, after, "refs/tags/"@ + name, id, tag),
        writable_ref(RefView::Tag(TagView { name, peeled: false })),
        before.objects.len() > 0,
    ensures
        ({
            let r = RefView::Tag(TagView { name, peeled: false });
            &&& after.refs.contains_key(r)
            &&& tag is None && !starts_with(id, "ref: "@) ==> after.refs[r] == TargetView::Object(
                id,
            ) && after.objects == before.objects
            &&& tag matches Some(bytes) ==> target_text(after.refs[r]) == object_name(
                KindView::Tag,
                bytes.len() as int,
                bytes,
            ) && after.objects[0].contains_key(target_text(after.refs[r]))
            &&& other != r ==> after.refs.contains_key(other) == before.refs.contains_key(other)
                && (after.refs.contains_key(other) ==> after.refs[other] == before.refs[other])
        }),
{
    let r = RefView::Tag(TagView { name, peeled: false });
    theorem_ref_round_trip(r);
    assert("refs/tags/"@ + name =~= ref_text(r));
    let leads_to = match tag {
        Some(bytes) => tag_name(bytes),
        None => id,
    };
    theorem_reference_has_its_path(leads_to);
}

/// What is said of a change of a reference goes to the log with the path of the reference, and to
/// that of `HEAD` where this is asked for.
pub proof fn theorem_logs_of_a_change(
    appends: Seq<LogAppend>,
    line: Seq<char>,
    reference: RefView,
    also_head: bool,
)
    requires
        logs_change(appends, line, reference, also_head),
    ensures
        join(texts(appends.last().path@), seq!['/']) == ref_text(reference),
        appends.last().line@ == line,
        also_head <==> appends.len() == 2,
        also_head ==> texts(appends[0].path@) == seq!["HEAD"@] && appends[0].line@ == line,
{
    theorem_join_split(ref_text(reference), '/');
    assert(appends[appends.len() - 1].line@ == line);
}

} // verus!
