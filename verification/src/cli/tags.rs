//! The command that makes tags.

use vstd::prelude::*;

use crate::helpers::{is_ref_name_legal, legal_ref_name, timestamped};
use crate::moments::Timestamp;
use crate::objects::kvlm::kvlm_bytes;
use crate::objects::raw::{object_name, DataView};
use crate::objects::{single, GitObject, KindView, Tag};
use crate::repo::model::{stands_for, RepoView};
use crate::repo::{find_result, RepoError, Repository};
use crate::stores::backends::{with_object, ObjectStore, RefStore};
use crate::stores::{parse_ref, parse_target};
use crate::text::{concat_texts, opt_str};

verus! {

broadcast use vstd::string::group_string_axioms;

/// The bytes that a new tag is stored as.
pub open spec fn tag_bytes(
    target: Seq<char>,
    name: Seq<char>,
    message: Option<Seq<char>>,
    author: Seq<char>,
    moment: Timestamp,
) -> Seq<u8> {
    kvlm_bytes(
        seq![
            single("object"@, target),
            single("type"@, "commit"@),
            single("tag"@, name),
            single("tagger"@, timestamped(author, moment.spec_secs(), moment.spec_offset())),
        ],
        match message {
            Some(m) => m,
            None => "CV: The user forgot to enter the message"@,
        },
    )
}

/// The ID of a tag.
pub open spec fn tag_name(bytes: Seq<u8>) -> Seq<char> {
    object_name(KindView::Tag, bytes.len() as int, bytes)
}

/// Why a tag cannot be made.
#[derive(Debug)]
pub enum TagError {
    /// The name is not one that a reference can have.
    IllegalName,
    /// The repository could not be read or written.
    Repo(RepoError),
}

impl<L: ObjectStore, P: ObjectStore, R: RefStore> Repository<L, P, R> {
    /// Makes a tag for the object that a name stands for: one with a message, or else only a
    /// reference.
    pub fn create_tag(
        &mut self,
        name: &str,
        target: &str,
        chunky: bool,
        message: Option<&str>,
        author: &str,
        moment: &Timestamp,
    ) -> (r: Result<(), TagError>)
        ensures
            final(self).packs == old(self).packs,
            final(self).head == old(self).head,
            ({
                let repo = old(self)@;
                let path = "refs/tags/"@ + name@;
                match r {
                    Err(TagError::IllegalName) => !legal_ref_name(name@) && *final(self)
                        == *old(self),
                    Err(TagError::Repo(e)) => legal_ref_name(name@) && {
                        ||| find_result(repo, target@, None, true, old(self).reliable(), Err(e))
                            && *final(self) == *old(self)
                        ||| exists|id: Seq<char>| #[trigger]
                            stands_for(repo, target@, id) && {
                                let named = parse_ref(path) is Some && parse_target(
                                    if chunky {
                                        tag_name(
                                            tag_bytes(
                                                id,
                                                name@,
                                                opt_str(message),
                                                author@,
                                                *moment,
                                            ),
                                        )
                                    } else {
                                        id
                                    },
                                ) is Some;
                                match e {
                                    RepoError::Store(_) => {
                                        ||| chunky
                                            && !old(self).loose_object_store.accepts_writes()
                                        ||| named && !old(self).ref_store.accepts_writes()
                                    },
                                    RepoError::Name(_) => !named && final(self)@.refs == repo.refs,
                                    _ => false,
                                }
                            }
                    },
                    Ok(_) => {
                        &&& legal_ref_name(name@)
                        &&& exists|id: Seq<char>| #[trigger]
                            stands_for(repo, target@, id) && tagged(
                                repo,
                                final(self)@,
                                path,
                                id,
                                if chunky {
                                    Some(
                                        tag_bytes(id, name@, opt_str(message), author@, *moment),
                                    )
                                } else {
                                    None
                                },
                            )
                    },
                }
            }),
    {
        if !is_ref_name_legal(name) {
            return Err(TagError::IllegalName);
        }
        let ghost before = self@;
        let id = match self.find_object(target, None, true) {
            Err(e) => {
                return Err(TagError::Repo(e));
            },
            Ok(id) => id,
        };
        assert(stands_for(before, target@, id@));
        let path = concat_texts("refs/tags/", name);
        let mut leads_to = id.clone();
        if chunky {
            let tag = Tag::new(id.as_str(), name, message, author, moment);
            let ghost bytes = tag_bytes(id@, name@, opt_str(message), author@, *moment);
            assert(tag.content() == bytes);
            match self.write_object(&tag) {
                Err(e) => {
                    return Err(TagError::Repo(RepoError::Store(e)));
                },
                Ok(tag_id) => {
                    leads_to = tag_id;
                },
            }
        }
        let ghost middle = self@;
        proof {
            if chunky {
                let bytes = tag_bytes(id@, name@, opt_str(message), author@, *moment);
                assert(middle.objects =~= before.objects.update(
                    0,
                    with_object(
                        before.objects[0],
                        tag_name(bytes),
                        DataView { kind: KindView::Tag, size: bytes.len() as int, data: bytes },
                    ),
                ));
            }
        }
        match self.create_ref(path.as_str(), leads_to.as_str()) {
            Err(e) => Err(TagError::Repo(e)),
            Ok(_) => {
                assert(self@.objects =~= middle.objects);
                Ok(())
            },
        }
    }
}

/// Whether a repository is another one with a tag added: a reference to an object, or to the
/// stored form of a tag with a message.
pub open spec fn tagged(
    before: RepoView,
    after: RepoView,
    path: Seq<char>,
    id: Seq<char>,
    tag: Option<Seq<u8>>,
) -> bool {
    let leads_to = match tag {
        Some(bytes) => tag_name(bytes),
        None => id,
    };
    &&& parse_ref(path) is Some
    &&& parse_target(leads_to) is Some
    &&& after.refs == before.refs.insert(parse_ref(path)->0, parse_target(leads_to)->0)
    &&& after.objects == match tag {
        Some(bytes) => before.objects.update(
            0,
            with_object(
                before.objects[0],
                tag_name(bytes),
                DataView { kind: KindView::Tag, size: bytes.len() as int, data: bytes },
            ),
        ),
        None => before.objects,
    }
}

} // verus!
