//! What holds of commits and tags that are made and then read.

use vstd::prelude::*;

use crate::helpers::{timestamped, with_newline};
use crate::interop::moment_text;
use crate::numerals::{lemma_numeral, numeral, zero_padded};
use crate::objects::errors::ObjectError;
use crate::objects::kvlm::{field_index, field_values, kvlm_bytes, lemma_field_index, FieldsView};
use crate::objects::kvlm_laws::{storable_fields, storable_name, theorem_kvlm_round_trip};
use crate::objects::{
    commit_fields, raw_readable, read_contents, single, KindView, StoredView,
};
use crate::text::{is_white, trim, trim_end};

verus! {

proof fn lemma_timestamped_ends(name: Seq<char>, secs: int, offset: int)
    ensures
        trim_end(timestamped(name, secs, offset)) == timestamped(name, secs, offset),
{
    let size = if offset < 0 {
        -offset
    } else {
        offset
    };
    let minutes = (size + 30) / 60;
    let digits = numeral((minutes % 60) as nat, 10);
    lemma_numeral((minutes % 60) as nat, 10);
    let padded = zero_padded(digits, 2);
    assert(padded.last() == digits.last());
    assert(digits.last() == digits[digits.len() - 1]);
    let s = timestamped(name, secs, offset);
    assert(moment_text(secs, offset).last() == padded.last());
    assert(s.last() == padded.last());
    assert(crate::numerals::digit_value(s.last()) < 10);
    assert(!is_white(s.last()));
}

pub(crate) proof fn lemma_field_names()
    ensures
        storable_name("tree"@) && storable_name("parent"@) && storable_name("author"@)
            && storable_name("committer"@),
        storable_name("object"@) && storable_name("type"@) && storable_name("tag"@)
            && storable_name("tagger"@),
        "tree"@ != "parent"@ && "tree"@ != "author"@ && "tree"@ != "committer"@,
        "parent"@ != "author"@ && "parent"@ != "committer"@ && "author"@ != "committer"@,
        "object"@ != "type"@ && "object"@ != "tag"@ && "object"@ != "tagger"@,
        "type"@ != "tag"@ && "type"@ != "tagger"@ && "tag"@ != "tagger"@,
{
    reveal_strlit("tree");
    reveal_strlit("parent");
    reveal_strlit("author");
    reveal_strlit("committer");
    reveal_strlit("object");
    reveal_strlit("type");
    reveal_strlit("tag");
    reveal_strlit("tagger");
    assert("tree"@.len() == 4 && "parent"@.len() == 6 && "author"@.len() == 6 && "committer"@.len()
        == 9);
    assert("parent"@[0] == 'p' && "author"@[0] == 'a');
    assert("object"@.len() == 6 && "type"@.len() == 4 && "tag"@.len() == 3 && "tagger"@.len()
        == 6);
    assert("object"@[0] == 'o' && "tagger"@[0] == 't');
}

proof fn lemma_field_at(fields: FieldsView, name: Seq<char>, i: int)
    requires
        0 <= i < fields.len(),
        fields[i].0 == name,
        forall|j: int| 0 <= j < i ==> (#[trigger] fields[j]).0 != name,
    ensures
        field_values(fields, name) == fields[i].1,
{
    lemma_field_index(fields, name);
    let k = field_index(fields, name);
    if k < i {
        assert(fields[k].0 != name);
    }
}

proof fn lemma_no_field(fields: FieldsView, name: Seq<char>)
    requires
        forall|j: int| 0 <= j < fields.len() ==> (#[trigger] fields[j]).0 != name,
    ensures
        field_values(fields, name) == Seq::<Seq<char>>::empty(),
{
    lemma_field_index(fields, name);
}

/// A commit that was made and stored is read with the fields and the message that it was made
/// with: its tree, its parent if it has one, and its author and committer with their moments.
pub proof fn theorem_commit_is_read(
    tree_id: Seq<char>,
    parent_id: Option<Seq<char>>,
    author: Seq<char>,
    committer: Seq<char>,
    secs: int,
    offset: int,
    message: Seq<char>,
)
    requires
        trim_end(tree_id) == tree_id,
        parent_id matches Some(p) ==> trim_end(p) == p,
    ensures
        ({
            let a = timestamped(author, secs, offset);
            let c = timestamped(committer, secs, offset);
            let fields = commit_fields(tree_id, parent_id, a, c);
            let text = trim(message).push('\n');
            let data = kvlm_bytes(fields, text);
            &&& raw_readable(KindView::Commit, data)
            &&& read_contents(KindView::Commit, data) == Ok::<StoredView, ObjectError>(
                StoredView::Commit(fields, text),
            )
            &&& field_values(fields, "tree"@) == seq![tree_id]
            &&& field_values(fields, "parent"@) == match parent_id {
                Some(p) => seq![p],
                None => Seq::<Seq<char>>::empty(),
            }
            &&& field_values(fields, "author"@) == seq![a]
            &&& field_values(fields, "committer"@) == seq![c]
        }),
{
    let a = timestamped(author, secs, offset);
    let c = timestamped(committer, secs, offset);
    let fields = commit_fields(tree_id, parent_id, a, c);
    let text = trim(message).push('\n');
    lemma_timestamped_ends(author, secs, offset);
    lemma_timestamped_ends(committer, secs, offset);
    lemma_field_names();
    match parent_id {
        Some(p) => {
            assert(fields =~= seq![
                single("tree"@, tree_id),
                single("parent"@, p),
                single("author"@, a),
                single("committer"@, c),
            ]);
            assert(storable_fields(fields));
            lemma_field_at(fields, "tree"@, 0);
            lemma_field_at(fields, "parent"@, 1);
            lemma_field_at(fields, "author"@, 2);
            lemma_field_at(fields, "committer"@, 3);
        },
        None => {
            assert(fields =~= seq![
                single("tree"@, tree_id),
                single("author"@, a),
                single("committer"@, c),
            ]);
            assert(storable_fields(fields));
            lemma_field_at(fields, "tree"@, 0);
            lemma_no_field(fields, "parent"@);
            lemma_field_at(fields, "author"@, 1);
            lemma_field_at(fields, "committer"@, 2);
        },
    }
    assert(with_newline(text) == text);
    theorem_kvlm_round_trip(fields, text);
}

/// A tag that was made and stored is read with the target, the name and the message that it was
/// made with, where the message ends with a line feed.
pub proof fn theorem_tag_is_read(
    target: Seq<char>,
    name: Seq<char>,
    tagger: Seq<char>,
    secs: int,
    offset: int,
    message: Seq<char>,
)
    requires
        trim_end(target) == target,
        trim_end(name) == name,
        with_newline(message) == message,
    ensures
        ({
            let fields = seq![
                single("object"@, target),
                single("type"@, "commit"@),
                single("tag"@, name),
                single("tagger"@, timestamped(tagger, secs, offset)),
            ];
            let data = kvlm_bytes(fields, message);
            &&& raw_readable(KindView::Tag, data)
            &&& read_contents(KindView::Tag, data) == Ok::<StoredView, ObjectError>(
                StoredView::Tag(fields, message),
            )
            &&& field_values(fields, "object"@) == seq![target]
        }),
{
    let fields = seq![
        single("object"@, target),
        single("type"@, "commit"@),
        single("tag"@, name),
        single("tagger"@, timestamped(tagger, secs, offset)),
    ];
    lemma_timestamped_ends(tagger, secs, offset);
    lemma_field_names();
    reveal_strlit("commit");
    assert("commit"@.last() == 't');
    assert(trim_end("commit"@) == "commit"@);
    assert(storable_fields(fields));
    lemma_field_at(fields, "object"@, 0);
    theorem_kvlm_round_trip(fields, message);
}

} // verus!
