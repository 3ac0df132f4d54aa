//! What holds of the objects of a repository and of the names for them.

use vstd::prelude::*;

use crate::helpers::fs::{file_of_path, parent_path};
use crate::helpers::{read_timestamp, TimestampError};
use crate::index::IndexEntry;
use crate::objects::delta::{delta_applies, delta_result};
use crate::objects::delta_laws::{add_commands, size_bytes, theorem_added_data_is_made};
use crate::moments::Timestamp;
use crate::objects::kvlm::{field_values, FieldsView};
use crate::objects::raw::DataView;
use crate::objects::tree::NodeView;
use crate::objects::{KindView, StoredView};
use crate::repo::checkout::checkout_target_of;
use crate::repo::commits::{commit_moment, commit_number, newest_first};
use crate::repo::ignored::{ignore_contents, ignore_files_of, is_ignore_file};
use crate::repo::model::{
    first_of, follow, is_candidate, is_sole_candidate, is_stored, local_branch, lookup, object_at,
    raw_object, stored_view, unpeeled_tag, whole_object, Fault, RepoView, STEP_LIMIT,
};
use crate::repo::partial_id;
use crate::stores::backends::ObjectMap;
use crate::stores::{BranchView, LocationView, RefView, TargetView};
use crate::text::{after_last, ends_with, lemma_after_last, lemma_after_last_is, starts_with, trim};

verus! {

/// An object is the one in the first store that has its ID, and is missing where no store has it.
pub proof fn theorem_first_store_counts(objects: Seq<ObjectMap>, id: Seq<char>, i: int)
    ensures
        0 <= i < objects.len() && objects[i].contains_key(id) && (forall|j: int|
            0 <= j < i ==> !(#[trigger] objects[j]).contains_key(id)) ==> lookup(objects, id)
            == Some(objects[i][id]),
        (lookup(objects, id) is None) == !is_stored(objects, id),
    decreases objects.len(),
{
    if objects.len() > 0 {
        let rest = objects.skip(1);
        theorem_first_store_counts(rest, id, i - 1);
        if 0 < i < objects.len() && forall|j: int|
            0 <= j < i ==> !(#[trigger] objects[j]).contains_key(id) {
            assert(!objects[0].contains_key(id));
            assert(rest[i - 1] == objects[i]);
            assert forall|j: int| 0 <= j < i - 1 implies !(#[trigger] rest[j]).contains_key(id) by {
                assert(!objects[j + 1].contains_key(id));
            }
        }
        if is_stored(rest, id) {
            let k = choose|k: int| 0 <= k < rest.len() && (#[trigger] rest[k]).contains_key(id);
            assert(objects[k + 1].contains_key(id));
        }
        if is_stored(objects, id) && !objects[0].contains_key(id) {
            let k = choose|k: int|
                0 <= k < objects.len() && (#[trigger] objects[k]).contains_key(id);
            assert(rest[k - 1].contains_key(id));
        }
        if objects[0].contains_key(id) {
            assert(is_stored(objects, id));
        }
    }
}

/// What is read is never changes to another object.
pub proof fn theorem_read_object_is_whole(objects: Seq<ObjectMap>, id: Seq<char>, steps: nat)
    ensures
        whole_object(objects, id, steps) matches Ok(Some(d)) ==> !(d.kind is Delta),
        (whole_object(objects, id, steps) == Ok::<Option<DataView>, Fault>(None)) == (lookup(
            objects,
            id,
        ) is None),
    decreases steps,
{
    if let Some(d) = lookup(objects, id) {
        if let KindView::Delta(base) = d.kind {
            if steps > 0 {
                theorem_read_object_is_whole(objects, base, (steps - 1) as nat);
            }
        }
    }
}

/// Whether objects are stored as changes, each to the one before it, the first of them to an object
/// that is stored whole; `made` is what each of them is.
pub open spec fn is_chain(
    objects: Seq<ObjectMap>,
    ids: Seq<Seq<char>>,
    made: Seq<Seq<u8>>,
    kind: KindView,
) -> bool {
    &&& ids.len() > 0
    &&& made.len() == ids.len()
    &&& !(kind is Delta)
    &&& lookup(objects, ids[0]) matches Some(d) && d.kind == kind && d.data == made[0]
    &&& forall|i: int|
        0 < i < ids.len() ==> (lookup(objects, #[trigger] ids[i]) matches Some(d) && d.kind
            == KindView::Delta(ids[i - 1]) && delta_applies(made[i - 1], d.data) && made[i]
            == delta_result(made[i - 1], d.data))
}

/// An object at the end of a chain of changes is what the changes make of the object at its start,
/// one after the other, and is of the kind of that object.
pub proof fn theorem_chain_is_followed(
    objects: Seq<ObjectMap>,
    ids: Seq<Seq<char>>,
    made: Seq<Seq<u8>>,
    kind: KindView,
    steps: nat,
)
    requires
        is_chain(objects, ids, made, kind),
        steps >= ids.len() - 1,
    ensures
        whole_object(objects, ids.last(), steps) matches Ok(Some(d)) && d.kind == kind && d.data
            == made.last(),
    decreases ids.len(),
{
    if ids.len() > 1 {
        let a = ids.drop_last();
        let b = made.drop_last();
        assert forall|i: int| 0 < i < a.len() implies (lookup(
            objects,
            #[trigger] a[i],
        ) matches Some(d) && d.kind == KindView::Delta(a[i - 1]) && delta_applies(b[i - 1], d.data)
            && b[i] == delta_result(b[i - 1], d.data)) by {
            assert(a[i] == ids[i]);
        }
        theorem_chain_is_followed(objects, a, b, kind, (steps - 1) as nat);
        let n = ids.len() - 1;
        assert(lookup(objects, ids[n]) is Some);
    }
}

/// An object that is stored as changes which add all its bytes is read as these bytes.
pub proof fn theorem_added_object_is_read(
    objects: Seq<ObjectMap>,
    id: Seq<char>,
    base: Seq<char>,
    size: int,
    data: Seq<u8>,
    n: nat,
    m: nat,
)
    requires
        lookup(objects, id) == Some(
            DataView {
                kind: KindView::Delta(base),
                size,
                data: size_bytes(n) + size_bytes(m) + add_commands(data),
            },
        ),
        lookup(objects, base) matches Some(d) && !(d.kind is Delta),
    ensures
        raw_object(objects, id) matches Ok(Some(d)) && d.data == data && d.kind == lookup(
            objects,
            base,
        )->0.kind && d.size == size,
{
    let b = lookup(objects, base)->0;
    theorem_added_data_is_made(b.data, data, n, m);
    assert(whole_object(objects, base, (STEP_LIMIT - 1) as nat) == Ok::<Option<DataView>, Fault>(
        Some(b),
    ));
}

/// What a name is followed to is of the kind that was asked for.
pub proof fn theorem_followed_is_of_kind(
    objects: Seq<ObjectMap>,
    id: Seq<char>,
    kind: KindView,
    follow_tags: bool,
    steps: nat,
)
    ensures
        follow(objects, id, kind, follow_tags, steps) matches Ok(found) ==> (raw_object(
            objects,
            found,
        ) matches Ok(Some(d)) && d.kind == kind),
        !follow_tags ==> (follow(objects, id, kind, follow_tags, steps) matches Ok(found) ==> found
            == id),
        (raw_object(objects, id) matches Ok(Some(d)) && d.kind == kind) ==> follow(
            objects,
            id,
            kind,
            follow_tags,
            steps,
        ) == Ok::<Seq<char>, Fault>(id),
    decreases steps,
{
    if let Ok(Some(d)) = raw_object(objects, id) {
        if d.kind != kind && follow_tags && steps > 0 {
            if let Ok(v) = stored_view(d) {
                if let Ok(next) = crate::repo::model::next_object(v, kind) {
                    theorem_followed_is_of_kind(
                        objects,
                        next,
                        kind,
                        follow_tags,
                        (steps - 1) as nat,
                    );
                }
            }
        }
    }
}

/// A commit is followed to its tree, where a tree is asked for.
pub proof fn theorem_commit_leads_to_tree(
    objects: Seq<ObjectMap>,
    id: Seq<char>,
    commit: DataView,
    tree: Seq<char>,
    data: DataView,
    steps: nat,
)
    requires
        raw_object(objects, id) == Ok::<Option<DataView>, Fault>(Some(commit)),
        commit.kind is Commit,
        stored_view(commit) matches Ok(StoredView::Commit(fields, _)) && first_of(fields, "tree"@)
            == Some(tree),
        raw_object(objects, tree) == Ok::<Option<DataView>, Fault>(Some(data)),
        data.kind is Tree,
        steps > 0,
    ensures
        follow(objects, id, KindView::Tree, true, steps) == Ok::<Seq<char>, Fault>(tree),
{
    theorem_followed_is_of_kind(objects, tree, KindView::Tree, true, (steps - 1) as nat);
}

/// A tag is followed to what its object is followed to, unless a tag is asked for.
pub proof fn theorem_tag_is_followed(
    objects: Seq<ObjectMap>,
    id: Seq<char>,
    tag: DataView,
    target: Seq<char>,
    kind: KindView,
    steps: nat,
)
    requires
        raw_object(objects, id) == Ok::<Option<DataView>, Fault>(Some(tag)),
        tag.kind is Tag,
        !(kind is Tag),
        stored_view(tag) matches Ok(StoredView::Tag(fields, _)) && first_of(fields, "object"@)
            == Some(target),
        steps > 0,
    ensures
        follow(objects, id, kind, true, steps) == follow(
            objects,
            target,
            kind,
            true,
            (steps - 1) as nat,
        ),
        follow(objects, id, kind, false, steps) == Err::<Seq<char>, Fault>(Fault::NotFound),
{
}

/// A name stands for the object that a branch with that name leads to, where no tag has the name
/// and no object ID starts with it, whatever branches of remotes have it.
pub proof fn theorem_branch_name_stands_for_its_object(
    repo: RepoView,
    name: Seq<char>,
    id: Seq<char>,
)
    requires
        trim(name) == name,
        name.len() > 0,
        name != "HEAD"@,
        !partial_id(name),
        !repo.refs.contains_key(unpeeled_tag(name)),
        repo.refs.contains_key(local_branch(name)),
        repo.refs[local_branch(name)] == TargetView::Object(id),
    ensures
        is_sole_candidate(repo, name, id),
{
}

/// A name stands for the object that the branch of a remote with that name leads to, where nothing
/// else has the name.
pub proof fn theorem_remote_branch_name_stands_for_its_object(
    repo: RepoView,
    remote: Seq<char>,
    name: Seq<char>,
    id: Seq<char>,
)
    requires
        trim(name) == name,
        name.len() > 0,
        name != "HEAD"@,
        !partial_id(name),
        !repo.refs.contains_key(unpeeled_tag(name)),
        ({
            let b = RefView::Branch(BranchView { location: LocationView::Remote(remote), name });
            repo.refs.contains_key(b) && repo.refs[b] == TargetView::Object(id)
        }),
        forall|b: BranchView|
            b.name == name && #[trigger] repo.refs.contains_key(RefView::Branch(b)) ==> b.location
                == LocationView::Remote(remote),
    ensures
        is_sole_candidate(repo, name, id),
{
    let b = BranchView { location: LocationView::Remote(remote), name };
    assert(crate::repo::model::leads_to(repo.refs, RefView::Branch(b), id));
    assert(is_candidate(repo, name, id));
    assert forall|other: Seq<char>| #[trigger] is_candidate(repo, name, other) implies other
        == id by {
        let x = choose|x: BranchView|
            x.location is Remote && x.name == name && #[trigger] crate::repo::model::leads_to(
                repo.refs,
                RefView::Branch(x),
                other,
            );
        assert(repo.refs.contains_key(RefView::Branch(x)));
        assert(x == b);
    }
}

/// The start of the ID of an object stands for the object, where no other object has an ID that
/// starts so and no reference has it as its name; and where two objects do, it stands for none.
pub proof fn theorem_start_of_id_stands_for_object(
    repo: RepoView,
    name: Seq<char>,
    id: Seq<char>,
    other: Seq<char>,
)
    requires
        trim(name) == name,
        partial_id(name),
        starts_with(id, name),
        is_stored(repo.objects, id),
    ensures
        is_candidate(repo, name, id),
        starts_with(other, name) && is_stored(repo.objects, other) && other != id
            ==> !exists|x: Seq<char>| is_sole_candidate(repo, name, x),
        (!repo.refs.contains_key(unpeeled_tag(name)) && !repo.refs.contains_key(local_branch(name))
            && (forall|b: BranchView|
            b.name == name ==> !#[trigger] repo.refs.contains_key(RefView::Branch(b))) && (forall|
            x: Seq<char>,
        |
            #[trigger] is_stored(repo.objects, x) && starts_with(x, name) ==> x == id))
            ==> is_sole_candidate(repo, name, id),
{
    reveal_strlit("HEAD");
    if name == "HEAD"@ {
        assert(crate::repo::is_lower_hex(name[0]));
    }
    assert(is_candidate(repo, name, id));
    if starts_with(other, name) && is_stored(repo.objects, other) && other != id {
        assert(is_candidate(repo, name, other));
    }
}

/// The ignore files of an index are all its entries with the name of one, each with the directory
/// that it is in and its contents, in their order: those of further entries come behind.
pub proof fn theorem_ignore_files(repo: RepoView, a: Seq<IndexEntry>, b: Seq<IndexEntry>)
    ensures
        ignore_files_of(repo, a + b) == match (ignore_files_of(repo, a), ignore_files_of(repo, b)) {
            (Some(first), Some(second)) => Some(first + second),
            _ => None,
        },
        forall|e: IndexEntry| #[trigger]
            ignore_files_of(repo, seq![e]) == if !is_ignore_file(e.object_name@) {
                Some(Seq::empty())
            } else {
                match ignore_contents(repo, e) {
                    Some(data) => Some(seq![(parent_path(e.object_name@), data)]),
                    None => None,
                }
            },
    decreases b.len(),
{
    let none = Seq::<(Seq<char>, Seq<u8>)>::empty();
    if b.len() == 0 {
        assert(a + b =~= a);
        if let Some(first) = ignore_files_of(repo, a) {
            assert(first + none =~= first);
        }
    } else {
        theorem_ignore_files(repo, a, b.drop_last());
        assert((a + b).drop_last() =~= a + b.drop_last());
        assert((a + b).last() == b.last());
        if let Some(first) = ignore_files_of(repo, a) {
            if let Some(second) = ignore_files_of(repo, b.drop_last()) {
                if let Some(data) = ignore_contents(repo, b.last()) {
                    let file = (parent_path(b.last().object_name@), data);
                    assert((first + second).push(file) =~= first + second.push(file));
                }
            }
        }
    }
    assert forall|e: IndexEntry| #[trigger]
        ignore_files_of(repo, seq![e]) == if !is_ignore_file(e.object_name@) {
            Some(Seq::empty())
        } else {
            match ignore_contents(repo, e) {
                Some(data) => Some(seq![(parent_path(e.object_name@), data)]),
                None => None,
            }
        } by {
        let one = seq![e];
        assert(one.drop_last() =~= Seq::empty());
        assert(ignore_files_of(repo, one.drop_last()) == Some(none));
        if let Some(data) = ignore_contents(repo, e) {
            let file = (parent_path(e.object_name@), data);
            assert(none.push(file) =~= seq![file]);
        }
    }
}

/// A commit with a tree is checked out as the entries of that tree.
pub proof fn theorem_commit_is_checked_out_as_its_tree(
    objects: Seq<ObjectMap>,
    id: Seq<char>,
    tree: Seq<char>,
    nodes: Seq<NodeView>,
)
    requires
        object_at(objects, id) matches Ok(Some(StoredView::Commit(fields, _))) && first_of(
            fields,
            "tree"@,
        ) == Some(tree),
        object_at(objects, tree) == Ok::<Option<StoredView>, Fault>(Some(StoredView::Tree(nodes))),
    ensures
        checkout_target_of(objects, id) == crate::repo::checkout::TargetView::Entries(nodes),
{
}

/// What is not a commit with a tree is not checked out.
pub proof fn theorem_only_commits_are_checked_out(objects: Seq<ObjectMap>, id: Seq<char>)
    ensures
        checkout_target_of(objects, id) is Entries ==> (object_at(objects, id) matches Ok(
            Some(StoredView::Commit(fields, _)),
        ) && first_of(fields, "tree"@) matches Some(tree) && object_at(objects, tree) matches Ok(
            Some(StoredView::Tree(_)),
        )),
{
}

/// Of two commits with moments the newer one comes first.
pub proof fn theorem_newer_commit_comes_first(
    objects: Seq<ObjectMap>,
    ids: Seq<Seq<char>>,
    now: Timestamp,
    i: int,
    j: int,
    a: FieldsView,
    b: FieldsView,
    first: int,
    second: int,
)
    requires
        newest_first(objects, ids, now),
        0 <= i < j < ids.len(),
        object_at(objects, ids[i]) matches Ok(Some(StoredView::Commit(fields, _))) && fields == a,
        object_at(objects, ids[j]) matches Ok(Some(StoredView::Commit(fields, _))) && fields == b,
        commit_moment(a) == Some(first),
        commit_moment(b) == Some(second),
    ensures
        first >= second,
{
    assert(commit_number(objects, ids[i], now) >= commit_number(objects, ids[j], now));
}

/// A file is an ignore file by its name alone, in whatever directory it is.
pub proof fn theorem_ignore_file_names(path: Seq<char>)
    ensures
        is_ignore_file(path) <==> file_of_path(path) == ".gitignore"@,
{
    reveal_strlit(".gitignore");
    reveal_strlit("/.gitignore");
    let name = ".gitignore"@;
    let end = "/.gitignore"@;
    let n = path.len() as int;
    assert(end =~= seq!['/'] + name);
    lemma_after_last(path, '/');
    if path == name {
        lemma_after_last_is(path, '/', 0);
        assert(file_of_path(path) =~= name);
    }
    if ends_with(path, end) {
        assert forall|j: int| n - 11 <= j < n implies path[j] == end[j - (n - 11)] by {
            assert(path.skip(n - 11)[j - (n - 11)] == path[j]);
        }
        lemma_after_last_is(path, '/', n - 10);
        assert(file_of_path(path) =~= name);
    }
    if file_of_path(path) == name {
        let i = after_last(path, '/');
        assert(path.skip(i) == name);
        if i == 0 {
            assert(path.skip(0) =~= path);
        } else {
            assert(path.skip(n - 11) =~= end) by {
                assert forall|j: int| 0 <= j < 11 implies path[n - 11 + j] == end[j] by {
                    if j > 0 {
                        assert(path.skip(i)[j - 1] == path[n - 11 + j]);
                    }
                }
            }
        }
    }
}

/// The first value of a field is the one that comes first, and there is none where it has no value.
pub proof fn theorem_first_value(fields: FieldsView, name: Seq<char>)
    ensures
        first_of(fields, name) is None <==> field_values(fields, name).len() == 0,
        first_of(fields, name) matches Some(v) ==> v == field_values(fields, name)[0],
{
}

/// The moment of a commit is the one behind its committer.
pub proof fn theorem_moment_of_commit(
    fields: FieldsView,
    committer: Seq<char>,
    secs: int,
    offset: int,
)
    requires
        field_values(fields, "committer"@).len() > 0,
        field_values(fields, "committer"@)[0] == committer,
        read_timestamp(committer) == Ok::<(int, int), TimestampError>((secs, offset)),
    ensures
        commit_moment(fields) == Some(secs),
{
}

} // verus!
