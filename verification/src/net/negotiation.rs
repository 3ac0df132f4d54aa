//! How a client finds out what a server has, and what it asks for.

use vstd::prelude::*;

use crate::moments::Timestamp;
use crate::net::answers::{
    load_capabilities_body_v2, load_refs_capabilities_body_v1, load_v1, load_v2_capabilities,
    read_discovery_header, read_header, targeted_views, PackFetchResponse, RemoteServerInfo,
    ResponseView,
};
use crate::net::client::{
    capability_views, CapabilityView, FetchError, HttpFetchClient, ProtocolVersion,
};
use crate::net::common::{
    add_common, common_len, listed_in, new_common, retain_common, set_items, CommonObjects,
};
use crate::net::{decode_lines, PktLineIterator, Stream};
use crate::repo::commits::{
    all_reachable, come, commit_parents, fresh, has_come, is_commit, is_start,
    lemma_commit_stored, lemma_done_grows, lemma_starts_reachable, lemma_step_reachable,
    lemma_walk_begins, lemma_walk_goes_on, newest_first, reachable, stored_ids, theorem_commit_comes_once,
    walk_wf, walks, Commits, WalkError,
};
use crate::repo::{RepoError, Repository};
use crate::stores::backends::{ObjectStore, RefStore};
use crate::stores::TargetedView;
use crate::text::texts;

verus! {

broadcast use vstd::string::group_string_axioms;

/// What the first answer of a server leads to.
pub enum Discovery {
    /// The references are known.
    Refs(RemoteServerInfo),
    /// The capabilities are known, and the references have to be asked for.
    AskForRefs,
}

/// What the first answer of a server says.
pub enum DiscoveryView {
    /// References and capabilities, in the first version of the protocol.
    First(Seq<TargetedView>, Seq<CapabilityView>),
    /// Capabilities, in the second version of the protocol.
    Second(Seq<CapabilityView>),
}

/// What the first answer of a server says, where a version of the protocol may be asked for.
pub open spec fn read_discovery(s: Stream, asked: Option<ProtocolVersion>) -> Result<
    DiscoveryView,
    FetchError,
> {
    match read_header(s) {
        Err(e) => Err(e),
        Ok((version, first, rest)) => if asked matches Some(v) && v != version {
            Err(FetchError::WrongVersion)
        } else {
            match version {
                ProtocolVersion::V1 => match load_v1(
                    (seq![first] + rest.0, rest.1),
                    Seq::empty(),
                    Seq::empty(),
                ) {
                    Err(e) => Err(e),
                    Ok((refs, caps)) => Ok(DiscoveryView::First(refs, caps)),
                },
                ProtocolVersion::V2 => match load_v2_capabilities(rest, Seq::empty()) {
                    Err(e) => Err(e),
                    Ok(caps) => Ok(DiscoveryView::Second(caps)),
                },
            }
        },
    }
}

impl HttpFetchClient {
    /// Reads the first answer of the server.  The client then knows the capabilities of the
    /// server, and the version of the protocol where it did not before.
    pub fn read_discovery_response(&mut self, body: &[u8]) -> (r: Result<Discovery, FetchError>)
        ensures
            final(self).base_url == old(self).base_url,
            ({
                let said = read_discovery(decode_lines(body@), old(self).protocol_version);
                match r {
                    Err(e) => said == Err::<DiscoveryView, FetchError>(e)
                        && final(self).capabilities@ == old(self).capabilities@,
                    Ok(Discovery::Refs(info)) => {
                        &&& said matches Ok(DiscoveryView::First(refs, caps))
                        &&& targeted_views(info.refs@) == (said->Ok_0)->First_0
                        &&& capability_views(final(self).capabilities@) == capability_views(
                            old(self).capabilities@,
                        ) + (said->Ok_0)->First_1
                        &&& final(self).protocol_version == Some(ProtocolVersion::V1)
                    },
                    Ok(Discovery::AskForRefs) => {
                        &&& said == Ok::<DiscoveryView, FetchError>(
                            DiscoveryView::Second(capability_views(final(self).capabilities@)),
                        )
                        &&& final(self).protocol_version == Some(ProtocolVersion::V2)
                    },
                }
            }),
    {
        let mut lines = PktLineIterator::from(body);
        let (version, first_line) = match read_discovery_header(&mut lines) {
            Err(e) => {
                return Err(e);
            },
            Ok(found) => found,
        };
        match self.protocol_version {
            Some(asked) => {
                if asked != version {
                    return Err(FetchError::WrongVersion);
                }
            },
            None => {
                self.protocol_version = Some(version);
            },
        }
        match version {
            ProtocolVersion::V1 => match load_refs_capabilities_body_v1(first_line, lines) {
                Err(e) => Err(e),
                Ok((info, mut caps)) => {
                    let ghost before = self.capabilities@;
                    let ghost new = caps@;
                    self.capabilities.append(&mut caps);
                    assert(capability_views(before + new) =~= capability_views(before)
                        + capability_views(new));
                    Ok(Discovery::Refs(info))
                },
            },
            ProtocolVersion::V2 => match load_capabilities_body_v2(lines) {
                Err(e) => Err(e),
                Ok(caps) => {
                    self.capabilities = caps;
                    Ok(Discovery::AskForRefs)
                },
            },
        }
    }
}

/// Objects with others appended, in order, but for those that are there already.
pub open spec fn appended(items: Seq<Seq<char>>, more: Seq<Seq<char>>) -> Seq<Seq<char>>
    decreases more.len(),
{
    if more.len() == 0 {
        items
    } else {
        let before = appended(items, more.drop_last());
        if before.contains(more.last()) {
            before
        } else {
            before.push(more.last())
        }
    }
}

/// Whether objects are others with the commits appended, in order, that a walk gave meanwhile.
pub open spec fn adds_walk<L: ObjectStore, P: ObjectStore, R: RefStore>(
    before: Commits<L, P, R>,
    after: Commits<L, P, R>,
    items: Seq<Seq<char>>,
    items_then: Seq<Seq<char>>,
) -> bool {
    exists|out: Seq<Seq<char>>| #[trigger]
        walks(
            before.repo@.objects,
            texts(before.prune@),
            texts(before.queue@),
            texts(before.seen@),
            out,
            texts(after.queue@),
            texts(after.seen@),
        ) && items_then == appended(items, out)
}

/// Adds commits of a walk to the common objects, in the order of the walk, until there are as
/// many as asked for; whether there may be more.
pub fn top_up_common_objects<'a, L: ObjectStore, P: ObjectStore, R: RefStore>(
    common_objects: &mut CommonObjects,
    walk: &mut Commits<'a, L, P, R>,
    to_level: usize,
) -> (r: Result<bool, WalkError>)
    requires
        walk_wf(texts(old(walk).queue@), texts(old(walk).seen@)),
    ensures
        walk_wf(texts(final(walk).queue@), texts(final(walk).seen@)),
        final(walk).repo == old(walk).repo,
        final(walk).prune == old(walk).prune,
        forall|starts: Seq<Seq<char>>|
            #[trigger] all_reachable(
                old(walk).repo@.objects,
                texts(old(walk).prune@),
                starts,
                texts(old(walk).seen@),
            ) ==> all_reachable(
                old(walk).repo@.objects,
                texts(old(walk).prune@),
                starts,
                texts(final(walk).seen@),
            ),
        r == Ok::<bool, WalkError>(true) ==> set_items(*final(common_objects)).len() == if set_items(
            *old(common_objects),
        ).len() > to_level {
            set_items(*old(common_objects)).len()
        } else {
            to_level as nat
        },
        r == Ok::<bool, WalkError>(false) ==> final(walk).queue@.len() == 0
            && set_items(*final(common_objects)).len() < to_level,
        r is Ok ==> forall|x: Seq<char>| #[trigger]
            set_items(*final(common_objects)).contains(x) <==> set_items(
                *old(common_objects),
            ).contains(x) || (has_come(
                texts(final(walk).queue@),
                texts(final(walk).seen@),
                x,
            ) && !has_come(texts(old(walk).queue@), texts(old(walk).seen@), x)),
        r is Ok ==> adds_walk(
            *old(walk),
            *final(walk),
            set_items(*old(common_objects)),
            set_items(*final(common_objects)),
        ),
        r is Err && old(walk).repo.reliable() ==> exists|x: Seq<char>|
            has_come(texts(final(walk).queue@), texts(final(walk).seen@), x) && !(
            #[trigger] is_commit(old(walk).repo@.objects, x)),
{
    let ghost objects = walk.repo@.objects;
    let ghost before = come(texts(walk.queue@), texts(walk.seen@));
    let ghost had = set_items(*common_objects);
    let ghost mut out: Seq<Seq<char>> = Seq::empty();
    let ghost first_queue = texts(walk.queue@);
    let ghost first_seen = texts(walk.seen@);
    proof {
        walk.repo.lemma_stored_finite();
        lemma_walk_begins(objects, texts(walk.prune@), first_queue, first_seen);
    }
    while common_len(common_objects) < to_level
        invariant
            walk.repo == old(walk).repo,
            walk.prune == old(walk).prune,
            objects == walk.repo@.objects,
            forall|starts: Seq<Seq<char>>|
                #[trigger] all_reachable(
                    objects,
                    texts(old(walk).prune@),
                    starts,
                    texts(old(walk).seen@),
                ) ==> all_reachable(
                    objects,
                    texts(old(walk).prune@),
                    starts,
                    texts(walk.seen@),
                ),
            stored_ids(objects).finite(),
            had == set_items(*old(common_objects)),
            first_queue == texts(old(walk).queue@),
            first_seen == texts(old(walk).seen@),
            walks(
                objects,
                texts(walk.prune@),
                first_queue,
                first_seen,
                out,
                texts(walk.queue@),
                texts(walk.seen@),
            ),
            set_items(*common_objects) == appended(had, out),
            if had.len() > to_level {
                set_items(*common_objects) == had
            } else {
                set_items(*common_objects).len() <= to_level
            },
            before == come(texts(old(walk).queue@), texts(old(walk).seen@)),
            before.subset_of(come(texts(walk.queue@), texts(walk.seen@))),
            walk_wf(texts(walk.queue@), texts(walk.seen@)),
            forall|x: Seq<char>| #[trigger]
                set_items(*common_objects).contains(x) <==> had.contains(x) || (come(
                    texts(walk.queue@),
                    texts(walk.seen@),
                ).contains(x) && !before.contains(x)),
        decreases
            stored_ids(objects).difference(come(texts(walk.queue@), texts(walk.seen@))).len(),
            walk.queue@.len(),
    {
        let ghost queue = texts(walk.queue@);
        let ghost seen = texts(walk.seen@);
        let ghost prune = texts(walk.prune@);
        let ghost items = set_items(*common_objects);
        match walk.next() {
            None => {
                assert forall|x: Seq<char>| #[trigger] items.contains(x) implies (had.contains(x)
                    || has_come(queue, seen, x)) by {}
                return Ok(false);
            },
            Some(Err(e)) => {
                proof {
                    let none = Seq::<Seq<char>>::empty();
                    theorem_commit_comes_once(queue, seen, none, none, prune);
                    assert(queue.skip(1) + none =~= queue.skip(1));
                    assert(seen + none =~= seen);
                    assert(come(texts(walk.queue@), texts(walk.seen@)).contains(queue[0]));
                    assert(has_come(texts(walk.queue@), texts(walk.seen@), queue[0]));
                    if old(walk).repo.reliable() {
                        assert(!is_commit(objects, queue[0]));
                    }
                }
                return Err(e);
            },
            Some(Ok(id)) => {
                proof {
                    let parents = commit_parents(objects, id@)->0;
                    let new = fresh(parents, seen, prune);
                    assert(queue[0] == id@);
                    theorem_commit_comes_once(queue, seen, new, parents, prune);
                    lemma_commit_stored(objects, id@);
                    lemma_done_grows(objects, come(queue, seen), id@);
                    lemma_walk_goes_on(objects, prune, first_queue, first_seen, out, queue, seen);
                    assert(out.push(id@).drop_last() =~= out);
                    out = out.push(id@);
                    assert(queue.contains(id@));
                    assert forall|starts: Seq<Seq<char>>|
                        #[trigger] all_reachable(
                            objects,
                            prune,
                            starts,
                            texts(old(walk).seen@),
                        ) implies all_reachable(objects, prune, starts, seen + new) by {
                        lemma_step_reachable(objects, prune, starts, seen, id@, parents);
                    }
                }
                let ghost name = id@;
                add_common(common_objects, id);
                proof {
                    let now = set_items(*common_objects);
                    let done = come(texts(walk.queue@), texts(walk.seen@));
                    assert(done == come(queue, seen).insert(name));
                    assert forall|x: Seq<char>| #[trigger]
                        now.contains(x) <==> had.contains(x) || (done.contains(x)
                            && !before.contains(x)) by {
                        assert(items.contains(x) <==> had.contains(x) || (come(
                            queue,
                            seen,
                        ).contains(x) && !before.contains(x)));
                        if items.contains(x) && !items.contains(name) {
                            let k = choose|k: int| 0 <= k < items.len() && items[k] == x;
                            assert(now[k] == x);
                        }
                        if x == name && !items.contains(name) {
                            assert(now[items.len() as int] == name);
                        }
                        assert(!before.contains(name));
                    }
                }
            },
        }
    }
    Ok(true)
}

/// Whether a walk through a repository starts with the given commits: those that references lead
/// to, each once, as far as the stores can be read.
pub open spec fn starts_from<L: ObjectStore, P: ObjectStore, R: RefStore>(
    repo: Repository<L, P, R>,
    starts: Seq<Seq<char>>,
) -> bool {
    &&& starts.no_duplicates()
    &&& forall|id: Seq<char>| #[trigger]
        starts.contains(id) ==> is_start(repo@, None, Seq::empty(), id)
    &&& repo.reliable() ==> forall|id: Seq<char>|
        is_start(repo@, None, Seq::empty(), id) ==> #[trigger] starts.contains(id)
}

/// Whether the references of a repository lead to something that cannot be read as a commit.
pub open spec fn reaches_unreadable<L: ObjectStore, P: ObjectStore, R: RefStore>(
    repo: Repository<L, P, R>,
) -> bool {
    exists|starts: Seq<Seq<char>>, id: Seq<char>|
        starts_from(repo, starts) && #[trigger] reachable(
            repo@.objects,
            Seq::empty(),
            starts,
            id,
        ) && !is_commit(repo@.objects, id)
}

/// Keeps those common objects that a server acknowledges.
pub fn scrub_common_objects(common_objects: &mut CommonObjects, acked: &[String])
    ensures
        set_items(*final(common_objects)) == set_items(*old(common_objects)).filter(
            listed_in(texts(acked@)),
        ),
{
    retain_common(common_objects, acked)
}

/// How many common objects are sent after a number of them was not enough.
pub open spec fn next_level(n: int) -> int {
    if n < 400 {
        n * 2
    } else if n + 400 <= usize::MAX {
        n + 400
    } else {
        usize::MAX as int
    }
}

/// Why the objects that are here already could not be told to a server.
#[derive(Debug)]
pub enum NegotiationError {
    /// The references could not be read.
    Repo(RepoError),
    /// A commit could not be read.
    Walk(WalkError),
    /// The server needs more information, and there is none.
    NothingMoreToSend,
}

/// Finds out with a server which objects are here already.
pub struct Negotiation<'a, L: ObjectStore, P: ObjectStore, R: RefStore> {
    /// The objects that both sides may have.
    pub common_objects: CommonObjects,
    /// The commits that have not been sent yet.
    pub walk: Commits<'a, L, P, R>,
    /// Whether there may be such commits.
    pub more: bool,
    /// How many common objects are to be sent.
    pub topup_size: usize,
    /// Whether to tell the server that there is no more information.
    pub provide_done: bool,
}

/// What to do after an answer of a server.
#[derive(Debug)]
pub enum NegotiationStep {
    /// Ask again.
    Ask,
    /// Read the pack.
    ReadPack,
}

/// The objects that an answer acknowledges.
pub open spec fn acknowledged_in(response: ResponseView) -> Seq<Seq<char>> {
    match response {
        ResponseView::InfoNeeded(ids) => ids,
        ResponseView::Ready(ids) => ids,
        ResponseView::Pack(_) => Seq::empty(),
    }
}

impl<'a, L: ObjectStore, P: ObjectStore, R: RefStore> Negotiation<'a, L, P, R> {
    /// Each commit that comes later comes once, and the references lead to all that come.
    pub open spec fn wf(&self) -> bool {
        &&& walk_wf(texts(self.walk.queue@), texts(self.walk.seen@))
        &&& texts(self.walk.prune@) == Seq::<Seq<char>>::empty()
        &&& exists|starts: Seq<Seq<char>>| #[trigger] self.came_from(starts)
    }

    /// Whether lines of descent lead from the given commits to all that are known so far.
    pub open spec fn came_from(&self, starts: Seq<Seq<char>>) -> bool {
        starts_from(*self.walk.repo, starts) && all_reachable(
            self.walk.repo@.objects,
            Seq::empty(),
            starts,
            texts(self.walk.seen@),
        )
    }

    /// Whether a commit of the repository has been sent, or is to be sent next.
    pub open spec fn has_sent(&self, id: Seq<char>) -> bool {
        has_come(texts(self.walk.queue@), texts(self.walk.seen@), id)
    }

    /// The start: as many commits are sent as the references of the repository lead to.
    pub fn start(repo: &'a Repository<L, P, R>) -> (r: Result<Self, NegotiationError>)
        ensures
            match r {
                Ok(n) => {
                    &&& n.wf()
                    &&& n.walk.repo == repo
                    &&& !n.provide_done
                    &&& exists|starts: Seq<Seq<char>>, out: Seq<Seq<char>>|
                        n.came_from(starts) && n.topup_size == starts.len() && (repo.reliable()
                            ==> exists|now: Timestamp| #[trigger]
                            newest_first(repo@.objects, starts, now)) && #[trigger] walks(
                            repo@.objects,
                            Seq::empty(),
                            starts,
                            starts,
                            out,
                            texts(n.walk.queue@),
                            texts(n.walk.seen@),
                        ) && set_items(n.common_objects) == appended(Seq::empty(), out)
                    &&& n.more ==> set_items(n.common_objects).len() == n.topup_size
                    &&& n.more == (set_items(n.common_objects).len() >= n.topup_size)
                    &&& !n.more ==> n.walk.queue@.len() == 0
                    &&& forall|x: Seq<char>| #[trigger]
                        set_items(n.common_objects).contains(x) <==> n.has_sent(x)
                },
                Err(NegotiationError::Repo(_)) => !repo.reliable(),
                Err(NegotiationError::Walk(_)) => !repo.reliable() || reaches_unreadable(*repo),
                Err(NegotiationError::NothingMoreToSend) => false,
            },
    {
        let mut walk = match repo.commits(None) {
            Err(e) => {
                return Err(NegotiationError::Repo(e));
            },
            Ok(walk) => walk,
        };
        let topup_size: usize = walk.queue_length();
        let mut common_objects = new_common();
        let ghost starts = texts(walk.queue@);
        proof {
            lemma_starts_reachable(repo@.objects, Seq::empty(), starts);
            assert(starts_from(*repo, starts));
            assert(all_reachable(repo@.objects, texts(walk.prune@), starts, texts(walk.seen@)));
        }
        match top_up_common_objects(&mut common_objects, &mut walk, topup_size) {
            Err(e) => {
                proof {
                    if repo.reliable() {
                        let id = choose|id: Seq<char>|
                            has_come(texts(walk.queue@), texts(walk.seen@), id) && !(
                            #[trigger] is_commit(repo@.objects, id));
                        assert(reachable(repo@.objects, Seq::empty(), starts, id));
                    }
                }
                Err(NegotiationError::Walk(e))
            },
            Ok(more) => {
                let n = Negotiation { common_objects, walk, more, topup_size, provide_done: false };
                assert(n.came_from(starts));
                assert(starts.len() == topup_size);
                Ok(n)
            },
        }
    }

    /// What to do after an answer: of the common objects those stay that it acknowledges, and
    /// more are added while there are some; the server is told when there are no more, or once
    /// it is ready.
    pub fn answer(&mut self, response: &PackFetchResponse) -> (r: Result<
        NegotiationStep,
        NegotiationError,
    >)
        requires
            old(self).wf(),
        ensures
            final(self).wf(),
            final(self).walk.repo == old(self).walk.repo,
            match r {
                Ok(NegotiationStep::ReadPack) => response@ is Pack && *final(self) == *old(self),
                Err(NegotiationError::NothingMoreToSend) => response@ is InfoNeeded
                    && old(self).provide_done && *final(self) == *old(self),
                Err(NegotiationError::Repo(_)) => false,
                Err(NegotiationError::Walk(_)) => {
                    &&& old(self).more
                    &&& !(response@ is Pack)
                    &&& response@ is InfoNeeded ==> !old(self).provide_done
                    &&& !old(self).walk.repo.reliable() || reaches_unreadable(
                        *old(self).walk.repo,
                    )
                },
                Ok(NegotiationStep::Ask) => {
                    let kept = set_items(old(self).common_objects).filter(
                        listed_in(acknowledged_in(response@)),
                    );
                    &&& !(response@ is Pack)
                    &&& response@ is InfoNeeded ==> !old(self).provide_done
                    &&& if old(self).more {
                        &&& final(self).topup_size == next_level(old(self).topup_size as int)
                        &&& final(self).provide_done == (old(self).provide_done
                            || response@ is Ready)
                        &&& final(self).more == (set_items(final(self).common_objects).len()
                            >= final(self).topup_size)
                        &&& adds_walk(
                            old(self).walk,
                            final(self).walk,
                            kept,
                            set_items(final(self).common_objects),
                        )
                        &&& final(self).more ==> set_items(final(self).common_objects).len()
                            == if kept.len() > final(self).topup_size {
                            kept.len()
                        } else {
                            final(self).topup_size as nat
                        }
                        &&& !final(self).more ==> final(self).walk.queue@.len() == 0
                        &&& forall|x: Seq<char>| #[trigger]
                            set_items(final(self).common_objects).contains(x) <==> kept.contains(x)
                                || (final(self).has_sent(x) && !old(self).has_sent(x))
                    } else {
                        &&& set_items(final(self).common_objects) == kept
                        &&& final(self).provide_done
                        &&& !final(self).more
                        &&& final(self).topup_size == old(self).topup_size
                        &&& final(self).walk == old(self).walk
                    }
                },
            },
    {
        let ghost starts = choose|starts: Seq<Seq<char>>| #[trigger] old(self).came_from(starts);
        match response {
            PackFetchResponse::Pack(_) => {
                return Ok(NegotiationStep::ReadPack);
            },
            PackFetchResponse::InfoNeeded(acked) => {
                if self.provide_done {
                    return Err(NegotiationError::NothingMoreToSend);
                }
                scrub_common_objects(&mut self.common_objects, acked.as_slice());
            },
            PackFetchResponse::Ready(acked) => {
                scrub_common_objects(&mut self.common_objects, acked.as_slice());
                self.provide_done = true;
            },
        }
        if !self.more {
            self.provide_done = true;
            assert(self.came_from(starts));
            return Ok(NegotiationStep::Ask);
        }
        self.topup_size = if self.topup_size < 400 {
            self.topup_size * 2
        } else if self.topup_size <= usize::MAX - 400 {
            self.topup_size + 400
        } else {
            usize::MAX
        };
        match top_up_common_objects(&mut self.common_objects, &mut self.walk, self.topup_size) {
            Err(e) => {
                proof {
                    assert(self.came_from(starts));
                    if self.walk.repo.reliable() {
                        let objects = self.walk.repo@.objects;
                        let id = choose|id: Seq<char>|
                            has_come(texts(self.walk.queue@), texts(self.walk.seen@), id) && !(
                            #[trigger] is_commit(objects, id));
                        assert(reachable(objects, Seq::empty(), starts, id));
                    }
                }
                Err(NegotiationError::Walk(e))
            },
            Ok(more) => {
                self.more = more;
                assert(self.came_from(starts));
                Ok(NegotiationStep::Ask)
            },
        }
    }
}

} // verus!
