//! What holds of the names of references and of tables of objects and references.

use vstd::prelude::*;
use vstd::utf8::encode_utf8;

use crate::objects::raw::RawObject;
use crate::sorting::{bytes_lt, in_order, key_lt, key_of, lemma_bytes_irreflexive};
use crate::stores::tables::{object_map, ref_map};
use crate::stores::{
    branch_text, location_key, parse_branch, parse_ref, parse_tag, parse_target, ref_text, tag_text,
    target_text, BranchSpec, LocationView, RefView, TargetedRef,
};
use crate::text::{first_index, lemma_first_index, starts_with};

verus! {

/// The branch that a path names has that path.
pub proof fn theorem_branch_has_its_path(s: Seq<char>)
    ensures
        parse_branch(s) matches Some(b) ==> branch_text(b) == s && b.name.len() > 0,
{
    reveal_strlit("refs/heads/");
    reveal_strlit("refs/heads");
    reveal_strlit("refs/remotes/");
    reveal_strlit("/");
    if let Some(b) = parse_branch(s) {
        match b.location {
            LocationView::Local => {
                assert(s.take(11) == "refs/heads/"@);
                let t = branch_text(b);
                assert(t.len() == s.len());
                assert forall|i: int| 0 <= i < s.len() implies s[i] == t[i] by {
                    if i < 11 {
                        assert(s.take(11)[i] == s[i]);
                    }
                }
                assert(t =~= s);
            },
            LocationView::Remote(r) => {
                assert(s.take(13) == "refs/remotes/"@);
                let rest = s.skip(13);
                lemma_first_index(rest, '/', 0);
                let n = first_index(rest, '/', 0);
                assert(r == rest.take(n));
                assert(r.len() == n);
                let t = branch_text(b);
                assert(n < rest.len());
                assert(rest[n] == '/');
                assert(t.len() == s.len());
                assert forall|i: int| 0 <= i < s.len() implies s[i] == t[i] by {
                    if i < 13 {
                        assert(s.take(13)[i] == s[i]);
                    } else if i < 13 + n {
                        assert(r[i - 13] == rest[i - 13]);
                    } else if i == 13 + n {
                        assert(rest[n] == s[i]);
                    }
                }
                assert(t =~= s);
            },
        }
    }
}

/// The tag that a path names has that path.
pub proof fn theorem_tag_has_its_path(s: Seq<char>)
    ensures
        parse_tag(s) matches Some(t) ==> tag_text(t) == s,
{
    reveal_strlit("refs/tags/");
    reveal_strlit("^{}");
    if let Some(t) = parse_tag(s) {
        let rest = s.skip(10);
        let u = tag_text(t);
        assert(s.take(10) == "refs/tags/"@);
        if t.peeled {
            assert(rest.skip(rest.len() - 3) == "^{}"@);
            assert(u.len() == s.len());
            assert forall|i: int| 0 <= i < s.len() implies s[i] == u[i] by {
                if i < 10 {
                    assert(s.take(10)[i] == s[i]);
                } else if i >= s.len() - 3 {
                    assert(rest.skip(rest.len() - 3)[i - (s.len() - 3)] == s[i]);
                }
            }
        } else {
            assert(u.len() == s.len());
            assert forall|i: int| 0 <= i < s.len() implies s[i] == u[i] by {
                if i < 10 {
                    assert(s.take(10)[i] == s[i]);
                }
            }
        }
        assert(u =~= s);
    }
}

/// The reference that a path names has that path, and what a text leads to has that text: no two
/// paths name the same reference.
pub proof fn theorem_reference_has_its_path(s: Seq<char>)
    ensures
        parse_ref(s) matches Some(r) ==> ref_text(r) == s,
        parse_target(s) matches Some(t) ==> target_text(t) == s,
{
    theorem_branch_has_its_path(s);
    theorem_tag_has_its_path(s);
    reveal_strlit("ref: ");
    if starts_with(s, "ref: "@) {
        let rest = s.skip(5);
        theorem_branch_has_its_path(rest);
        theorem_tag_has_its_path(rest);
        if parse_ref(rest) is Some {
            assert("ref: "@ + rest =~= s) by {
                assert(s.take(5) == "ref: "@);
                assert forall|i: int| 0 <= i < 5 implies s[i] == "ref: "@[i] by {
                    assert(s.take(5)[i] == s[i]);
                }
            }
        }
    }
}

/// A table of references has for each reference what the last one with its name leads to, and no
/// other references.
pub proof fn theorem_last_reference_counts(s: Seq<TargetedRef>, r: RefView, i: int)
    ensures
        0 <= i < s.len() && s[i]@.spec == r && (forall|j: int|
            i < j < s.len() ==> (#[trigger] s[j])@.spec != r) ==> ref_map(s).contains_key(r)
            && ref_map(s)[r] == s[i]@.target,
        (forall|j: int| 0 <= j < s.len() ==> (#[trigger] s[j])@.spec != r) ==> !ref_map(
            s,
        ).contains_key(r),
    decreases s.len(),
{
    if s.len() > 0 {
        let before = s.drop_last();
        let n = s.len() - 1;
        theorem_last_reference_counts(before, r, i);
        if 0 <= i < s.len() && s[i]@.spec == r && forall|j: int|
            i < j < s.len() ==> (#[trigger] s[j])@.spec != r {
            if i < n {
                assert(s[n]@.spec != r);
                assert(before[i] == s[i]);
                assert forall|j: int| i < j < before.len() implies (#[trigger] before[j])@.spec
                    != r by {
                    assert(s[j]@.spec != r);
                }
            }
        }
        if forall|j: int| 0 <= j < s.len() ==> (#[trigger] s[j])@.spec != r {
            assert(s[n]@.spec != r);
            assert forall|j: int| 0 <= j < before.len() implies (#[trigger] before[j])@.spec
                != r by {
                assert(s[j]@.spec != r);
            }
        }
    }
}

/// A table of objects has for each ID the first object with it, and no other objects.
pub proof fn theorem_first_object_counts(s: Seq<RawObject>, id: Seq<char>, i: int)
    ensures
        0 <= i < s.len() && s[i].object_id@ == id && (forall|j: int|
            0 <= j < i ==> (#[trigger] s[j]).object_id@ != id) ==> object_map(s).contains_key(id)
            && object_map(s)[id] == s[i].content@,
        (forall|j: int| 0 <= j < s.len() ==> (#[trigger] s[j]).object_id@ != id) ==> !object_map(
            s,
        ).contains_key(id),
    decreases s.len(),
{
    if s.len() > 0 {
        let before = s.drop_last();
        let n = s.len() - 1;
        theorem_first_object_counts(before, id, i);
        if 0 <= i < s.len() && s[i].object_id@ == id && forall|j: int|
            0 <= j < i ==> (#[trigger] s[j]).object_id@ != id {
            if i < n {
                assert(before[i] == s[i]);
                assert forall|j: int| 0 <= j < i implies (#[trigger] before[j]).object_id@
                    != id by {
                    assert(s[j].object_id@ != id);
                }
            } else {
                assert forall|j: int| 0 <= j < before.len() implies (
                #[trigger] before[j]).object_id@ != id by {
                    assert(s[j].object_id@ != id);
                }
            }
        }
        if forall|j: int| 0 <= j < s.len() ==> (#[trigger] s[j]).object_id@ != id {
            assert(s[n].object_id@ != id);
            assert forall|j: int| 0 <= j < before.len() implies (#[trigger] before[j]).object_id@
                != id by {
                assert(s[j].object_id@ != id);
            }
        }
    }
}

/// Branches in their order are the local ones first and then those of remotes, the ones of the same
/// place in the order of the bytes of their names.
pub proof fn theorem_order_of_branches(s: Seq<BranchSpec>, i: int, j: int)
    requires
        in_order(s, key_of::<BranchSpec>()),
        0 <= i < j < s.len(),
    ensures
        s[j].location@ is Local ==> s[i].location@ is Local,
        s[i].location@ == s[j].location@ ==> !bytes_lt(
            encode_utf8(s[j].name@),
            encode_utf8(s[i].name@),
        ),
{
    let key = key_of::<BranchSpec>();
    assert(!key_lt(key(s[j]), key(s[i])));
    lemma_bytes_irreflexive(location_key(s[i].location@));
}

} // verus!
