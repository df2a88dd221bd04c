//! The in-memory state engine: sessions, their point rings, the tag
//! index, the two expiration queues, tokens and users.
//!
//! All mutation goes through this store.  Every mutating operation pushes
//! what it wants broadcast onto an outbox; the caller drains the outbox
//! and sends the updates on its channel, so subscribers observe them in
//! call order.  Persistence is handed out the same way: operations return
//! the metadata to write or the ids to delete, and memory stays
//! authoritative within a run.

use vstd::prelude::*;

use crate::bounded_set::{bs_step, BoundedSet};
use crate::coords::BoxCoords;
use crate::shareid::{Log, Options};
use crate::shims::{bcrypt_outcome, bcrypt_verify, fresh_id, string_chars};
use crate::tags::{Tag, TagAux, TagAuxV, Tags, TagsAux, TagVisibility};
use crate::updates::{
    Fetch, FetchId, Location, TimeUsec, Update, UpdateChange, UpdateContext, UpdateMeta,
};

verus! {

/// The opaque token a publisher holds for one session.
#[derive(Debug)]
pub struct SessionId(pub String);

impl View for SessionId {
    type V = Seq<char>;

    open spec fn view(&self) -> Seq<char> {
        self.0@
    }
}

impl Clone for SessionId {
    fn clone(&self) -> (r: SessionId)
        ensures
            r == *self,
    {
        SessionId(self.0.clone())
    }
}

impl PartialEq for SessionId {
    fn eq(&self, other: &SessionId) -> (r: bool) {
        String::eq(&self.0, &other.0)
    }
}

impl vstd::std_specs::cmp::PartialEqSpecImpl for SessionId {
    open spec fn obeys_eq_spec() -> bool {
        true
    }

    open spec fn eq_spec(&self, other: &SessionId) -> bool {
        self@ == other@
    }
}

/// One publisher's session: its identity, tags, bounded point ring and
/// expiry settings.
#[derive(Debug)]
pub struct Session {
    pub session_id: SessionId,
    pub locations: Vec<Location>,
    pub expires_at_us: i64,
    pub fetch_id: FetchId,
    pub tags: TagsAux,
    pub max_points: usize,
    pub max_point_age_us: Option<i64>,
    /// Whether the oldest point is enrolled in the point-expiry queue.
    pub added_to_expiration: bool,
    /// Set when a stop was requested on a `no_stop` session.
    pub reject_data: bool,
    /// When true the session survives an explicit stop.
    pub no_stop: bool,
    pub log: Option<Log>,
    pub name: Option<String>,
}

impl Session {
    pub fn session_id(&self) -> (r: &SessionId)
        ensures
            r == &self.session_id,
    {
        &self.session_id
    }

    pub fn locations(&self) -> (r: &Vec<Location>)
        ensures
            r == &self.locations,
    {
        &self.locations
    }

    pub fn expires_at(&self) -> (r: i64)
        ensures
            r == self.expires_at_us,
    {
        self.expires_at_us
    }

    pub fn fetch_id(&self) -> (r: &FetchId)
        ensures
            r == &self.fetch_id,
    {
        &self.fetch_id
    }

    pub fn tags(&self) -> (r: &TagsAux)
        ensures
            r == &self.tags,
    {
        &self.tags
    }

    pub fn max_points(&self) -> (r: usize)
        ensures
            r == self.max_points,
    {
        self.max_points
    }

    pub fn max_point_age(&self) -> (r: Option<i64>)
        ensures
            r == self.max_point_age_us,
    {
        self.max_point_age_us
    }

    pub fn reject_data(&self) -> (r: bool)
        ensures
            r == self.reject_data,
    {
        self.reject_data
    }

    pub fn no_stop(&self) -> (r: bool)
        ensures
            r == self.no_stop,
    {
        self.no_stop
    }
}

/// The durable image of a session; points are not persisted.
#[derive(Debug)]
pub struct SessionMeta {
    pub session_id: SessionId,
    pub expires_at_us: i64,
    pub fetch_id: FetchId,
    pub tags: TagsAux,
    pub max_points: usize,
    pub max_point_age_us: Option<i64>,
    pub reject_data: bool,
    pub no_stop: bool,
    pub log: Option<Log>,
    pub name: Option<String>,
}

/// One update to broadcast, with the context it was emitted under.
#[derive(Debug)]
pub struct Emitted {
    pub context: UpdateContext,
    pub update: Update,
}

/// Whether the session carries this tag with public visibility.
pub open spec fn has_pub(s: Session, t: Seq<char>) -> bool {
    s.tags@.contains(TagAuxV { name: t, public: true })
}

/// The views of a vector of visibility-qualified tags.
pub open spec fn views_of(items: Seq<TagAux>) -> Seq<TagAuxV> {
    items.map_values(|x: TagAux| x@)
}

/// How many of the sessions carry this tag with public visibility.
pub open spec fn pub_count(ss: Seq<Session>, t: Seq<char>) -> int
    decreases ss.len(),
{
    if ss.len() == 0 {
        0
    } else {
        pub_count(ss.drop_last(), t) + if has_pub(ss.last(), t) {
            1int
        } else {
            0int
        }
    }
}

pub proof fn lemma_pub_count_bounds(ss: Seq<Session>, t: Seq<char>)
    ensures
        0 <= pub_count(ss, t) <= ss.len(),
    decreases ss.len(),
{
    if ss.len() > 0 {
        lemma_pub_count_bounds(ss.drop_last(), t);
    }
}

/// Removing one session lowers the count by that session's contribution.
pub proof fn lemma_pub_count_remove(ss: Seq<Session>, i: int, t: Seq<char>)
    requires
        0 <= i < ss.len(),
    ensures
        pub_count(ss.remove(i), t) == pub_count(ss, t) - (if has_pub(ss[i], t) {
            1int
        } else {
            0int
        }),
    decreases ss.len(),
{
    if i == ss.len() - 1 {
        assert(ss.remove(i) =~= ss.drop_last());
    } else {
        assert(ss.remove(i).drop_last() =~= ss.drop_last().remove(i));
        assert(ss.remove(i).last() == ss.last());
        lemma_pub_count_remove(ss.drop_last(), i, t);
    }
}

/// Replacing one session by one with the same tags keeps every count.
pub proof fn lemma_pub_count_update(ss: Seq<Session>, i: int, s2: Session, t: Seq<char>)
    requires
        0 <= i < ss.len(),
        s2.tags@ == ss[i].tags@,
    ensures
        pub_count(ss.update(i, s2), t) == pub_count(ss, t),
    decreases ss.len(),
{
    if i == ss.len() - 1 {
        assert(ss.update(i, s2).drop_last() =~= ss.drop_last());
        assert(ss.update(i, s2).last() == s2);
    } else {
        assert(ss.update(i, s2).drop_last() =~= ss.drop_last().update(i, s2));
        assert(ss.update(i, s2).last() == ss.last());
        lemma_pub_count_update(ss.drop_last(), i, s2, t);
    }
}

/// The total reference count the tag index holds for a tag.
pub open spec fn rc(pt: Seq<(Tag, u64)>, t: Seq<char>) -> int
    decreases pt.len(),
{
    if pt.len() == 0 {
        0
    } else {
        rc(pt.drop_last(), t) + if pt.last().0@ == t {
            pt.last().1 as int
        } else {
            0int
        }
    }
}

pub proof fn lemma_rc_update(pt: Seq<(Tag, u64)>, k: int, v2: u64, t: Seq<char>)
    requires
        0 <= k < pt.len(),
    ensures
        rc(pt.update(k, (pt[k].0, v2)), t) == rc(pt, t) + (if pt[k].0@ == t {
            v2 - pt[k].1
        } else {
            0int
        }),
    decreases pt.len(),
{
    let pt2 = pt.update(k, (pt[k].0, v2));
    if k == pt.len() - 1 {
        assert(pt2.drop_last() =~= pt.drop_last());
        assert(pt2.last() == (pt[k].0, v2));
    } else {
        assert(pt2.drop_last() =~= pt.drop_last().update(k, (pt[k].0, v2)));
        assert(pt2.last() == pt.last());
        lemma_rc_update(pt.drop_last(), k, v2, t);
    }
}

pub proof fn lemma_rc_remove(pt: Seq<(Tag, u64)>, k: int, t: Seq<char>)
    requires
        0 <= k < pt.len(),
    ensures
        rc(pt.remove(k), t) == rc(pt, t) - (if pt[k].0@ == t {
            pt[k].1 as int
        } else {
            0int
        }),
    decreases pt.len(),
{
    if k == pt.len() - 1 {
        assert(pt.remove(k) =~= pt.drop_last());
    } else {
        assert(pt.remove(k).drop_last() =~= pt.drop_last().remove(k));
        assert(pt.remove(k).last() == pt.last());
        lemma_rc_remove(pt.drop_last(), k, t);
    }
}

pub proof fn lemma_rc_nonneg(pt: Seq<(Tag, u64)>, t: Seq<char>)
    ensures
        rc(pt, t) >= 0,
    decreases pt.len(),
{
    if pt.len() > 0 {
        lemma_rc_nonneg(pt.drop_last(), t);
    }
}

/// If some entry carries the tag with a positive count, the total is
/// positive.
pub proof fn lemma_rc_entry_pos(pt: Seq<(Tag, u64)>, k: int)
    requires
        0 <= k < pt.len(),
        pt[k].1 > 0,
    ensures
        rc(pt, pt[k].0@) > 0,
    decreases pt.len(),
{
    lemma_rc_nonneg(pt.drop_last(), pt[k].0@);
    if k < pt.len() - 1 {
        lemma_rc_entry_pos(pt.drop_last(), k);
    }
}

/// If the total is positive, some entry carries the tag.
pub proof fn lemma_rc_pos_entry(pt: Seq<(Tag, u64)>, t: Seq<char>)
    requires
        rc(pt, t) > 0,
    ensures
        exists|k: int| 0 <= k < pt.len() && (#[trigger] pt[k]).0@ == t,
    decreases pt.len(),
{
    if pt.len() > 0 {
        if pt.last().0@ == t {
            assert(pt[pt.len() - 1].0@ == t);
        } else {
            lemma_rc_pos_entry(pt.drop_last(), t);
            let k = choose|k: int|
                0 <= k < pt.drop_last().len() && (#[trigger] pt.drop_last()[k]).0@ == t;
            assert(pt[k].0@ == t);
        }
    }
}

/// The errors a point post can meet.
#[derive(Debug, Clone, Copy, PartialEq, Eq, Structural)]
pub enum Error {
    /// No live session accepts data under this id.
    NoSuchSession,
    /// The session's time ran out; it was removed.
    SessionExpired,
}

/// Why authentication failed to come to a verdict.
#[derive(Debug, Clone, Copy, PartialEq, Eq, Structural)]
pub enum AuthError {
    /// The user is not in the password table.
    UnknownUser,
    /// The stored bcrypt hash could not be parsed.
    HashUnreadable,
}

/// What the password file's lines mean: each line is trimmed; empty
/// lines and lines without a colon are skipped; the rest split at the
/// first colon into a trimmed user and a trimmed stored password.
pub open spec fn user_lines_spec(lines: Seq<Seq<char>>) -> Seq<(Seq<char>, Seq<char>)>
    decreases lines.len(),
{
    if lines.len() == 0 {
        Seq::empty()
    } else {
        let rest = user_lines_spec(lines.drop_last());
        let t = crate::tags::trimmed(lines.last());
        if t.len() == 0 {
            rest
        } else {
            match crate::shareid::split_colon(t) {
                Option::Some(kv) => rest + seq![
                    (crate::tags::trimmed(kv.0), crate::tags::trimmed(kv.1)),
                ],
                Option::None => rest,
            }
        }
    }
}

/// Parse the lines of a password file into user and stored-password
/// pairs, as `user_lines_spec` reads them.
#[verifier::rlimit(100)]
pub fn parse_user_lines(lines: &Vec<String>) -> (r: Vec<(String, String)>)
    ensures
        r@.map_values(|p: (String, String)| (p.0@, p.1@)) == user_lines_spec(
            lines@.map_values(|l: String| l@),
        ),
{
    let ghost lv = lines@.map_values(|l: String| l@);
    let n = lines.len();
    let mut out: Vec<(String, String)> = Vec::new();
    let mut i: usize = 0;
    proof {
        assert(lv.subrange(0, 0) =~= Seq::<Seq<char>>::empty());
    }
    while i < n
        invariant
            0 <= i <= n,
            n == lines@.len(),
            lv == lines@.map_values(|l: String| l@),
            out@.map_values(|p: (String, String)| (p.0@, p.1@)) == user_lines_spec(
                lv.subrange(0, i as int),
            ),
        decreases n - i,
    {
        proof {
            assert(lv.subrange(0, i + 1).drop_last() =~= lv.subrange(0, i as int));
            assert(lv.subrange(0, i + 1).last() == lv[i as int]);
        }
        let chars = string_chars(lines[i].as_str());
        let t = crate::tags::trim_chars(&chars);
        let tn = t.len();
        if tn > 0 {
            let mut ci: usize = 0;
            loop
                invariant
                    0 <= ci <= tn,
                    tn == t@.len(),
                    forall|k: int| 0 <= k < ci ==> t@[k] != ':',
                ensures
                    0 <= ci <= tn,
                    forall|k: int| 0 <= k < ci ==> t@[k] != ':',
                    ci < tn ==> t@[ci as int] == ':',
                    ci == tn ==> forall|k: int| 0 <= k < tn ==> t@[k] != ':',
                decreases tn - ci,
            {
                if ci >= tn {
                    break;
                }
                if t[ci] == ':' {
                    break;
                }
                ci = ci + 1;
            }
            if ci < tn {
                proof {
                    crate::shareid::lemma_split_colon_at(t@, ci as int);
                }
                let mut kvec: Vec<char> = Vec::new();
                let mut a: usize = 0;
                while a < ci
                    invariant
                        0 <= a <= ci <= tn,
                        tn == t@.len(),
                        kvec@ == t@.subrange(0, a as int),
                    decreases ci - a,
                {
                    kvec.push(t[a]);
                    proof {
                        assert(kvec@ =~= t@.subrange(0, a + 1));
                    }
                    a = a + 1;
                }
                let mut vvec: Vec<char> = Vec::new();
                let mut b: usize = ci + 1;
                while b < tn
                    invariant
                        ci + 1 <= b <= tn,
                        tn == t@.len(),
                        vvec@ == t@.subrange(ci + 1, b as int),
                    decreases tn - b,
                {
                    vvec.push(t[b]);
                    proof {
                        assert(vvec@ =~= t@.subrange(ci + 1, b + 1));
                    }
                    b = b + 1;
                }
                let k2 = crate::tags::trim_chars(&kvec);
                let v2 = crate::tags::trim_chars(&vvec);
                let pair = (
                    crate::shims::chars_to_string(&k2),
                    crate::shims::chars_to_string(&v2),
                );
                out.push(pair);
                proof {
                    assert(out@.map_values(|p: (String, String)| (p.0@, p.1@))
                        =~= user_lines_spec(lv.subrange(0, i + 1)));
                }
            } else {
                proof {
                    crate::shareid::lemma_split_colon_none(t@);
                    assert(out@.map_values(|p: (String, String)| (p.0@, p.1@))
                        =~= user_lines_spec(lv.subrange(0, i + 1)));
                }
            }
        } else {
            proof {
                assert(out@.map_values(|p: (String, String)| (p.0@, p.1@)) =~= user_lines_spec(
                    lv.subrange(0, i + 1),
                ));
            }
        }
        i = i + 1;
    }
    proof {
        assert(lv.subrange(0, n as int) =~= lv);
    }
    out
}

/// Whether two strings are equal, scanning the whole common length
/// rather than stopping at the first mismatch, so the time depends only
/// on the lengths.
pub fn full_scan_eq(a: &String, b: &String) -> (r: bool)
    ensures
        r == (a@ == b@),
{
    let av = string_chars(a.as_str());
    let bv = string_chars(b.as_str());
    let na = av.len();
    let nb = bv.len();
    let mut same = na == nb;
    let limit = if na < nb {
        na
    } else {
        nb
    };
    let mut i: usize = 0;
    while i < limit
        invariant
            0 <= i <= limit,
            limit <= na == av@.len(),
            limit <= nb == bv@.len(),
            av@ == a@,
            bv@ == b@,
            limit == if na < nb {
                na
            } else {
                nb
            },
            same == (na == nb && forall|k: int| 0 <= k < i ==> a@[k] == b@[k]),
        decreases limit - i,
    {
        if av[i] != bv[i] {
            same = false;
        }
        i = i + 1;
    }
    proof {
        if same {
            assert(a@ =~= b@);
        }
    }
    same
}

/// The stored password of the last matching line: a later duplicate
/// overrides an earlier one, as insertion into a keyed table would.
pub open spec fn lookup_user(users: Seq<(String, String)>, u: Seq<char>) -> Option<Seq<char>>
    decreases users.len(),
{
    if users.len() == 0 {
        None
    } else if users.last().0@ == u {
        Some(users.last().1@)
    } else {
        lookup_user(users.drop_last(), u)
    }
}

/// What authentication answers: unknown user and unreadable hash are
/// errors; otherwise a stored value starting with `$` is checked as a
/// bcrypt hash and anything else by plain equality.
pub open spec fn auth_spec(
    users: Seq<(String, String)>,
    u: Seq<char>,
    p: Seq<char>,
) -> Result<bool, AuthError> {
    match lookup_user(users, u) {
        Option::None => Err(AuthError::UnknownUser),
        Option::Some(stored) => {
            if stored.len() > 0 && stored[0] == '$' {
                match bcrypt_outcome(p, stored) {
                    Result::Ok(b) => Ok(b),
                    Result::Err(()) => Err(AuthError::HashUnreadable),
                }
            } else {
                Ok(stored == p)
            }
        },
    }
}

/// The shared mutable core: all sessions, the tag index, the expiry
/// queues, tokens, users and the outbox of updates still to broadcast.
pub struct State {
    pub sessions: Vec<Session>,
    pub session_expirations: Vec<(i64, SessionId)>,
    pub data_expirations: Vec<(i64, SessionId)>,
    pub public_tags: Vec<(Tag, u64)>,
    pub next_fetch_id: u32,
    pub users: Vec<(String, String)>,
    pub tokens: BoundedSet<String>,
    pub outbox: Vec<Emitted>,
    pub default_tag: Tag,
    pub max_points: usize,
    pub default_points: usize,
    pub default_max_point_age_us: Option<i64>,
    pub update_interval_us: i64,
    pub box_coords: Option<BoxCoords>,
}

impl State {
    #[verifier::inline]
    pub open spec fn sessions_view(&self) -> Seq<Session> {
        self.sessions@
    }

    #[verifier::inline]
    pub open spec fn session_exp_view(&self) -> Seq<(i64, SessionId)> {
        self.session_expirations@
    }

    #[verifier::inline]
    pub open spec fn data_exp_view(&self) -> Seq<(i64, SessionId)> {
        self.data_expirations@
    }

    #[verifier::inline]
    pub open spec fn tag_index_view(&self) -> Seq<(Tag, u64)> {
        self.public_tags@
    }

    #[verifier::inline]
    pub open spec fn next_fetch_view(&self) -> u32 {
        self.next_fetch_id
    }

    #[verifier::inline]
    pub open spec fn users_view(&self) -> Seq<(String, String)> {
        self.users@
    }

    #[verifier::inline]
    pub open spec fn tokens_view(&self) -> Seq<Seq<char>> {
        self.tokens.elements()
    }

    #[verifier::inline]
    pub open spec fn outbox_view(&self) -> Seq<Emitted> {
        self.outbox@
    }

    #[verifier::inline]
    pub open spec fn max_points_cap(&self) -> usize {
        self.max_points
    }

    #[verifier::inline]
    pub open spec fn default_points_view(&self) -> usize {
        self.default_points
    }

    #[verifier::inline]
    pub open spec fn default_age_view(&self) -> Option<i64> {
        self.default_max_point_age_us
    }

    /// Whether a live session carries this id.
    pub open spec fn has_session(&self, sid: Seq<char>) -> bool {
        exists|i: int|
            0 <= i < self.sessions_view().len() && (#[trigger] self.sessions_view()[i]).session_id@
                == sid
    }

    /// Session ids never repeat among live sessions.
    pub open spec fn ids_unique(&self) -> bool {
        forall|i: int, j: int|
            0 <= i < j < self.sessions_view().len() ==> (#[trigger] self.sessions_view()[i]).session_id@
                != (#[trigger] self.sessions_view()[j]).session_id@
    }

    /// Fetch ids never repeat and stay below the counter.
    pub open spec fn fetch_ids_ok(&self) -> bool {
        &&& forall|i: int, j: int|
            0 <= i < j < self.sessions_view().len() ==> (#[trigger] self.sessions_view()[i]).fetch_id.0
                != (#[trigger] self.sessions_view()[j]).fetch_id.0
        &&& forall|i: int|
            0 <= i < self.sessions_view().len() ==> (#[trigger] self.sessions_view()[i]).fetch_id.0
                < self.next_fetch_view()
    }

    /// No session ring ever exceeds its cap.
    pub open spec fn rings_ok(&self) -> bool {
        forall|i: int|
            0 <= i < self.sessions_view().len() ==> (#[trigger] self.sessions_view()[i]).locations@.len()
                <= self.sessions_view()[i].max_points
    }

    /// Point ages are never negative.
    pub open spec fn ages_ok(&self) -> bool {
        forall|i: int|
            0 <= i < self.sessions_view().len() ==> match (
            #[trigger] self.sessions_view()[i]).max_point_age_us {
                Some(a) => a >= 0,
                None => true,
            }
    }

    /// The tag index counts, for every tag, exactly the live sessions
    /// that carry it publicly; entries are positive and keys unique.
    pub open spec fn tag_index_ok(&self) -> bool {
        &&& forall|t: Seq<char>| rc(self.tag_index_view(), t) == pub_count(self.sessions_view(), t)
        &&& forall|k: int|
            0 <= k < self.tag_index_view().len() ==> (#[trigger] self.tag_index_view()[k]).1 > 0
        &&& forall|k: int, l: int|
            0 <= k < l < self.tag_index_view().len() ==> (#[trigger] self.tag_index_view()[k]).0@
                != (#[trigger] self.tag_index_view()[l]).0@
    }

    /// Every live session has its expiry instant in the session queue,
    /// and every queue entry naming a live session carries that session's
    /// instant.
    pub open spec fn session_exp_ok(&self) -> bool {
        &&& forall|i: int|
            0 <= i < self.sessions_view().len() ==> exists|k: int|
                0 <= k < self.session_exp_view().len() && (#[trigger] self.session_exp_view()[k]).0
                    == (#[trigger] self.sessions_view()[i]).expires_at_us
                    && self.session_exp_view()[k].1@ == self.sessions_view()[i].session_id@
        &&& forall|k: int, i: int|
            0 <= k < self.session_exp_view().len() && 0 <= i < self.sessions_view().len() && (
            #[trigger] self.session_exp_view()[k]).1@ == (
            #[trigger] self.sessions_view()[i]).session_id@
                ==> self.session_exp_view()[k].0 == self.sessions_view()[i].expires_at_us
    }

    /// A session with an age limit and points is enrolled: some queue
    /// entry fires no later than its front point expires.
    pub open spec fn data_exp_ok(&self) -> bool {
        forall|i: int|
            0 <= i < self.sessions_view().len() && (#[trigger] self.sessions_view()[i]).max_point_age_us
                is Some && self.sessions_view()[i].locations@.len() > 0 ==> {
                &&& self.sessions_view()[i].added_to_expiration
                &&& exists|k: int|
                    0 <= k < self.data_exp_view().len() && (#[trigger] self.data_exp_view()[k]).1@
                        == self.sessions_view()[i].session_id@ && self.data_exp_view()[k].0
                        <= self.sessions_view()[i].locations@[0].time_us
                        + self.sessions_view()[i].max_point_age_us->0
            }
    }

    /// An empty ring is never marked as enrolled for point expiry.
    pub open spec fn flags_ok(&self) -> bool {
        forall|i: int|
            0 <= i < self.sessions_view().len() && (#[trigger] self.sessions_view()[i]).locations@.len()
                == 0 ==> !self.sessions_view()[i].added_to_expiration
    }

    /// The whole store is well formed.
    pub open spec fn wf(&self) -> bool {
        &&& self.ids_unique()
        &&& self.fetch_ids_ok()
        &&& self.rings_ok()
        &&& self.ages_ok()
        &&& self.tag_index_ok()
        &&& self.session_exp_ok()
        &&& self.data_exp_ok()
        &&& self.flags_ok()
        &&& self.max_points_cap() >= 1
        &&& match self.default_age_view() {
            Some(a) => a >= 0,
            None => true,
        }
        &&& match self.box_coords {
            Some(b) => b.wf(),
            None => true,
        }
    }

    /// A fresh store with no sessions.
    pub fn new(
        users: Vec<(String, String)>,
        default_tag: Tag,
        max_points: usize,
        default_points: usize,
        default_max_point_age_us: Option<i64>,
        update_interval_us: i64,
        box_coords: Option<BoxCoords>,
        token_capacity: usize,
    ) -> (r: State)
        requires
            max_points >= 1,
            token_capacity >= 1,
            match default_max_point_age_us {
                Some(a) => a >= 0,
                None => true,
            },
            match box_coords {
                Some(b) => b.wf(),
                None => true,
            },
        ensures
            r.wf(),
            r.sessions_view() == Seq::<Session>::empty(),
            r.outbox_view() == Seq::<Emitted>::empty(),
            r.tokens_view() == Seq::<Seq<char>>::empty(),
            r.users_view() == users@,
            r.next_fetch_view() == 0,
            r.max_points_cap() == max_points,
            r.default_points_view() == default_points,
            r.default_age_view() == default_max_point_age_us,
            r.update_interval_us == update_interval_us,
            r.box_coords == box_coords,
            r.default_tag == default_tag,
    {
        let r = State {
            sessions: Vec::new(),
            session_expirations: Vec::new(),
            data_expirations: Vec::new(),
            public_tags: Vec::new(),
            next_fetch_id: 0,
            users,
            tokens: BoundedSet::new(token_capacity),
            outbox: Vec::new(),
            default_tag,
            max_points,
            default_points,
            default_max_point_age_us,
            update_interval_us,
            box_coords,
        };
        proof {
            assert forall|t: Seq<char>| rc(r.tag_index_view(), t) == pub_count(
                r.sessions_view(),
                t,
            ) by {}
        }
        r
    }

    /// How many sessions are live.
    pub fn num_sessions(&self) -> (r: usize)
        ensures
            r == self.sessions_view().len(),
    {
        self.sessions.len()
    }

    /// The live sessions, oldest first.
    pub fn sessions(&self) -> (r: &Vec<Session>)
        ensures
            r@ == self.sessions_view(),
    {
        &self.sessions
    }

    /// Take out everything queued for the broadcast channel.
    pub fn take_outbox(&mut self) -> (r: Vec<Emitted>)
        ensures
            r@ == old(self).outbox_view(),
            *final(self) == (State { outbox: final(self).outbox, ..*old(self) }),
            final(self).outbox_view() == Seq::<Emitted>::empty(),
    {
        let mut out: Vec<Emitted> = Vec::new();
        core::mem::swap(&mut out, &mut self.outbox);
        out
    }

    /// Mint the next fetch id.
    pub fn generate_fetch_id(&mut self) -> (r: FetchId)
        requires
            old(self).next_fetch_view() < u32::MAX,
        ensures
            r.0 == old(self).next_fetch_view(),
            *final(self) == (State { next_fetch_id: final(self).next_fetch_id, ..*old(self) }),
            final(self).next_fetch_view() == old(self).next_fetch_view() + 1,
    {
        let id = FetchId(self.next_fetch_id);
        self.next_fetch_id = self.next_fetch_id + 1;
        id
    }

    /// Whether this token was minted recently enough to still be held.
    pub fn check_token(&self, token: &String) -> (r: bool)
        ensures
            r == self.tokens_view().contains(token@),
    {
        self.tokens.contains(token)
    }

    /// Check a user's password; see `auth_spec`.
    pub fn authenticate(&self, user: &String, password: &String) -> (r: Result<bool, AuthError>)
        ensures
            r == auth_spec(self.users_view(), user@, password@),
    {
        let n = self.users.len();
        let ghost us = self.users@;
        let mut i: usize = n;
        proof {
            assert(us.subrange(0, n as int) =~= us);
        }
        while i > 0
            invariant
                0 <= i <= n,
                n == us.len(),
                us == self.users@,
                lookup_user(us, user@) == lookup_user(us.subrange(0, i as int), user@),
            decreases i,
        {
            proof {
                assert(us.subrange(0, i as int).drop_last() =~= us.subrange(0, i - 1));
                assert(us.subrange(0, i as int).last() == us[i - 1]);
            }
            if String::eq(&self.users[i - 1].0, user) {
                let stored = &self.users[i - 1].1;
                let sc = string_chars(stored.as_str());
                if sc.len() > 0 && sc[0] == '$' {
                    return match bcrypt_verify(password.as_str(), stored.as_str()) {
                        Ok(b) => Ok(b),
                        Err(()) => Err(AuthError::HashUnreadable),
                    };
                } else {
                    return Ok(full_scan_eq(stored, password));
                }
            }
            i = i - 1;
        }
        proof {
            assert(us.subrange(0, 0) =~= Seq::<(String, String)>::empty());
        }
        Err(AuthError::UnknownUser)
    }

    /// Authenticate, and on success mint a 16-character token the stream
    /// endpoint will accept.
    pub fn create_token(&mut self, user: &String, password: &String) -> (r: Result<
        Option<String>,
        AuthError,
    >)
        ensures
            *final(self) == (State { tokens: final(self).tokens, ..*old(self) }),
            match auth_spec(old(self).users_view(), user@, password@) {
                Result::Ok(true) => {
                    &&& r matches Ok(Some(t))
                    &&& t@.len() == 16
                    &&& forall|i: int|
                        0 <= i < t@.len() ==> crate::shims::ascii_alphanumeric(#[trigger] t@[i])
                    &&& final(self).tokens_view() == bs_step(
                        old(self).tokens_view(),
                        old(self).tokens.cursor() as int,
                        old(self).tokens.capacity() as int,
                        t@,
                    ).0
                    &&& final(self).tokens_view().contains(t@)
                },
                Result::Ok(false) => r == Result::<Option<String>, AuthError>::Ok(
                    Option::<String>::None,
                ) && final(self).tokens == old(self).tokens,
                Result::Err(e) => r == Result::<Option<String>, AuthError>::Err(e)
                    && final(self).tokens == old(self).tokens,
            },
    {
        match self.authenticate(user, password) {
            Err(e) => Err(e),
            Ok(false) => Ok(None),
            Ok(true) => {
                let token = fresh_id();
                let tok2 = token.clone();
                self.tokens.insert(tok2);
                proof {
                    let stepped = bs_step(
                        old(self).tokens_view(),
                        old(self).tokens.cursor() as int,
                        old(self).tokens.capacity() as int,
                        token@,
                    ).0;
                    if old(self).tokens_view().contains(token@) {
                        assert(stepped.contains(token@));
                    } else if old(self).tokens_view().len() == old(self).tokens.capacity() {
                        assert(stepped[old(self).tokens.cursor() as int] == token@);
                    } else {
                        assert(stepped.last() == token@);
                    }
                }
                Ok(Some(token))
            },
        }
    }

    /// One entry of the tag index holds at most the whole count.
    proof fn lemma_entry_le_rc(pt: Seq<(Tag, u64)>, k: int)
        requires
            0 <= k < pt.len(),
        ensures
            pt[k].1 as int <= rc(pt, pt[k].0@),
        decreases pt.len(),
    {
        lemma_rc_nonneg(pt.drop_last(), pt[k].0@);
        if k < pt.len() - 1 {
            Self::lemma_entry_le_rc(pt.drop_last(), k);
        }
    }

    /// Count one more public use of the tag.
    fn add_public_tag(&mut self, tag: Tag)
        requires
            rc(old(self).tag_index_view(), tag@) < u64::MAX,
            forall|k: int|
                0 <= k < old(self).tag_index_view().len() ==> (#[trigger] old(self).tag_index_view()[k]).1 > 0,
            forall|k: int, l: int|
                0 <= k < l < old(self).tag_index_view().len() ==> (#[trigger] old(self).tag_index_view()[k]).0@ != (#[trigger] old(self).tag_index_view()[l]).0@,
        ensures
            *final(self) == (State { public_tags: final(self).public_tags, ..*old(self) }),
            forall|t: Seq<char>|
                rc(final(self).tag_index_view(), t) == rc(old(self).tag_index_view(), t) + (
                if t == tag@ {
                    1int
                } else {
                    0int
                }),
            forall|k: int|
                0 <= k < final(self).tag_index_view().len() ==> (#[trigger] final(self).tag_index_view()[k]).1 > 0,
            forall|k: int, l: int|
                0 <= k < l < final(self).tag_index_view().len() ==> (#[trigger] final(self).tag_index_view()[k]).0@ != (#[trigger] final(self).tag_index_view()[l]).0@,
    {
        let ghost pt = self.public_tags@;
        let n = self.public_tags.len();
        let mut k: usize = 0;
        loop
            invariant
                0 <= k <= n,
                n == pt.len(),
                pt == self.public_tags@,
                forall|j: int| 0 <= j < k ==> (#[trigger] pt[j]).0@ != tag@,
            ensures
                0 <= k <= n,
                pt == self.public_tags@,
                k < n ==> pt[k as int].0@ == tag@,
                k == n ==> forall|j: int| 0 <= j < n ==> (#[trigger] pt[j]).0@ != tag@,
            decreases n - k,
        {
            if k >= n {
                break;
            }
            if self.public_tags[k].0 == tag {
                break;
            }
            k = k + 1;
        }
        if k < n {
            let v = self.public_tags[k].1;
            proof {
                Self::lemma_entry_le_rc(pt, k as int);
            }
            let key = self.public_tags[k].0.clone();
            let mut pts: Vec<(Tag, u64)> = Vec::new();
            core::mem::swap(&mut pts, &mut self.public_tags);
            pts.set(k, (key, v + 1));
            self.public_tags = pts;
            proof {
                assert(self.public_tags@ =~= pt.update(k as int, (pt[k as int].0, (v + 1) as u64)));
                assert forall|t: Seq<char>|
                    rc(self.public_tags@, t) == rc(pt, t) + (if t == tag@ {
                        1int
                    } else {
                        0int
                    }) by {
                    lemma_rc_update(pt, k as int, (v + 1) as u64, t);
                }
            }
        } else {
            let mut pts: Vec<(Tag, u64)> = Vec::new();
            core::mem::swap(&mut pts, &mut self.public_tags);
            pts.push((tag, 1));
            self.public_tags = pts;
            proof {
                assert(self.public_tags@.drop_last() =~= pt);
                assert forall|t: Seq<char>|
                    rc(self.public_tags@, t) == rc(pt, t) + (if t == tag@ {
                        1int
                    } else {
                        0int
                    }) by {}
            }
        }
    }

    /// Count one public use of the tag less; a tag counted down to
    /// nothing leaves the index.
    fn remove_public_tag(&mut self, tag: &Tag)
        requires
            forall|k: int|
                0 <= k < old(self).tag_index_view().len() ==> (#[trigger] old(self).tag_index_view()[k]).1 > 0,
            forall|k: int, l: int|
                0 <= k < l < old(self).tag_index_view().len() ==> (#[trigger] old(self).tag_index_view()[k]).0@ != (#[trigger] old(self).tag_index_view()[l]).0@,
        ensures
            *final(self) == (State { public_tags: final(self).public_tags, ..*old(self) }),
            forall|t: Seq<char>|
                rc(final(self).tag_index_view(), t) == rc(old(self).tag_index_view(), t) - (
                if t == tag@ && rc(old(self).tag_index_view(), tag@) > 0 {
                    1int
                } else {
                    0int
                }),
            forall|k: int|
                0 <= k < final(self).tag_index_view().len() ==> (#[trigger] final(self).tag_index_view()[k]).1 > 0,
            forall|k: int, l: int|
                0 <= k < l < final(self).tag_index_view().len() ==> (#[trigger] final(self).tag_index_view()[k]).0@ != (#[trigger] final(self).tag_index_view()[l]).0@,
    {
        let ghost pt = self.public_tags@;
        let n = self.public_tags.len();
        let mut k: usize = 0;
        loop
            invariant
                0 <= k <= n,
                n == pt.len(),
                pt == self.public_tags@,
                forall|j: int| 0 <= j < k ==> (#[trigger] pt[j]).0@ != tag@,
            ensures
                0 <= k <= n,
                pt == self.public_tags@,
                k < n ==> pt[k as int].0@ == tag@,
                k == n ==> forall|j: int| 0 <= j < n ==> (#[trigger] pt[j]).0@ != tag@,
            decreases n - k,
        {
            if k >= n {
                break;
            }
            if self.public_tags[k].0 == *tag {
                break;
            }
            k = k + 1;
        }
        if k < n {
            proof {
                assert(old(self).tag_index_view()[k as int].1 > 0);
                lemma_rc_entry_pos(pt, k as int);
            }
            let v = self.public_tags[k].1;
            if v == 1 {
                let mut pts: Vec<(Tag, u64)> = Vec::new();
                core::mem::swap(&mut pts, &mut self.public_tags);
                pts.remove(k);
                self.public_tags = pts;
                proof {
                    assert forall|t: Seq<char>|
                        rc(self.public_tags@, t) == rc(pt, t) - (if t == tag@ && rc(pt, tag@) > 0 {
                            1int
                        } else {
                            0int
                        }) by {
                        lemma_rc_remove(pt, k as int, t);
                    }
                }
            } else {
                let key = self.public_tags[k].0.clone();
                let mut pts: Vec<(Tag, u64)> = Vec::new();
                core::mem::swap(&mut pts, &mut self.public_tags);
                pts.set(k, (key, v - 1));
                self.public_tags = pts;
                proof {
                    assert(self.public_tags@ =~= pt.update(
                        k as int,
                        (pt[k as int].0, (v - 1) as u64),
                    ));
                    assert forall|t: Seq<char>|
                        rc(self.public_tags@, t) == rc(pt, t) - (if t == tag@ && rc(pt, tag@) > 0 {
                            1int
                        } else {
                            0int
                        }) by {
                        lemma_rc_update(pt, k as int, (v - 1) as u64, t);
                    }
                }
            }
        } else {
            proof {
                assert forall|t: Seq<char>|
                    rc(self.public_tags@, t) == rc(pt, t) - (if t == tag@ && rc(pt, tag@) > 0 {
                        1int
                    } else {
                        0int
                    }) by {
                    if t == tag@ && rc(pt, tag@) > 0 {
                        lemma_rc_pos_entry(pt, tag@);
                    }
                }
            }
        }
    }

    /// Queue an update for the broadcast channel.
    fn emit(&mut self, context: UpdateContext, update: Update)
        ensures
            *final(self) == (State { outbox: final(self).outbox, ..*old(self) }),
            final(self).outbox@ == old(self).outbox@.push(
                Emitted { context: context, update: update },
            ),
    {
        self.outbox.push(Emitted { context, update });
    }

    /// Whether a live session or a queue entry already uses this id.
    fn id_in_use(&self, sid: &SessionId) -> (r: bool)
        ensures
            r == (self.has_session(sid@) || (exists|k: int|
                0 <= k < self.session_exp_view().len() && (#[trigger] self.session_exp_view()[k]).1@
                    == sid@) || (exists|k: int|
                0 <= k < self.data_exp_view().len() && (#[trigger] self.data_exp_view()[k]).1@
                    == sid@)),
    {
        let n = self.sessions.len();
        let mut i: usize = 0;
        while i < n
            invariant
                0 <= i <= n,
                n == self.sessions@.len(),
                forall|j: int| 0 <= j < i ==> (#[trigger] self.sessions@[j]).session_id@ != sid@,
            decreases n - i,
        {
            if self.sessions[i].session_id == *sid {
                return true;
            }
            i = i + 1;
        }
        let m = self.session_expirations.len();
        let mut k: usize = 0;
        while k < m
            invariant
                0 <= k <= m,
                m == self.session_expirations@.len(),
                forall|j: int|
                    0 <= j < k ==> (#[trigger] self.session_expirations@[j]).1@ != sid@,
            decreases m - k,
        {
            if self.session_expirations[k].1 == *sid {
                proof {
                    assert(self.session_exp_view()[k as int].1@ == sid@);
                }
                return true;
            }
            k = k + 1;
        }
        let d = self.data_expirations.len();
        let mut l: usize = 0;
        while l < d
            invariant
                0 <= l <= d,
                d == self.data_expirations@.len(),
                forall|j: int| 0 <= j < l ==> (#[trigger] self.data_expirations@[j]).1@ != sid@,
            decreases d - l,
        {
            if self.data_expirations[l].1 == *sid {
                proof {
                    assert(self.data_exp_view()[l as int].1@ == sid@);
                }
                return true;
            }
            l = l + 1;
        }
        false
    }

    /// Raise the tag index by one for every public tag of the items.
    fn bump_public_tags(&mut self, items: &Vec<TagAux>)
        requires
            views_of(items@).no_duplicates(),
            forall|t: Seq<char>|
                rc(old(self).tag_index_view(), t) < u64::MAX - 1,
            forall|k: int|
                0 <= k < old(self).tag_index_view().len() ==> (#[trigger] old(self).tag_index_view()[k]).1 > 0,
            forall|k: int, l: int|
                0 <= k < l < old(self).tag_index_view().len() ==> (#[trigger] old(self).tag_index_view()[k]).0@ != (#[trigger] old(self).tag_index_view()[l]).0@,
        ensures
            *final(self) == (State { public_tags: final(self).public_tags, ..*old(self) }),
            forall|t: Seq<char>|
                rc(final(self).tag_index_view(), t) == rc(old(self).tag_index_view(), t) + (
                if views_of(items@).to_set().contains(TagAuxV { name: t, public: true }) {
                    1int
                } else {
                    0int
                }),
            forall|k: int|
                0 <= k < final(self).tag_index_view().len() ==> (#[trigger] final(self).tag_index_view()[k]).1 > 0,
            forall|k: int, l: int|
                0 <= k < l < final(self).tag_index_view().len() ==> (#[trigger] final(self).tag_index_view()[k]).0@ != (#[trigger] final(self).tag_index_view()[l]).0@,
    {
        let n = items.len();
        let ghost iv = views_of(items@);
        let mut i: usize = 0;
        while i < n
            invariant
                0 <= i <= n,
                n == items@.len(),
                iv == views_of(items@),
                iv.no_duplicates(),
                forall|t: Seq<char>| rc(old(self).tag_index_view(), t) < u64::MAX - 1,
                *self == (State { public_tags: self.public_tags, ..*old(self) }),
                forall|t: Seq<char>|
                    rc(self.tag_index_view(), t) == rc(old(self).tag_index_view(), t) + (
                    if iv.subrange(0, i as int).to_set().contains(
                        TagAuxV { name: t, public: true },
                    ) {
                        1int
                    } else {
                        0int
                    }),
                forall|k: int|
                    0 <= k < self.tag_index_view().len() ==> (#[trigger] self.tag_index_view()[k]).1
                        > 0,
                forall|k: int, l: int|
                    0 <= k < l < self.tag_index_view().len() ==> (
                    #[trigger] self.tag_index_view()[k]).0@ != (
                    #[trigger] self.tag_index_view()[l]).0@,
            decreases n - i,
        {
            proof {
                assert(iv.subrange(0, i + 1) =~= iv.subrange(0, i as int).push(iv[i as int]));
                iv.subrange(0, i as int).lemma_push_to_set_commute(iv[i as int]);
            }
            if items[i].is_public() {
                let tag = items[i].as_tag();
                proof {
                    if iv.subrange(0, i as int).to_set().contains(
                        TagAuxV { name: tag@, public: true },
                    ) {
                        let j = choose|j: int|
                            0 <= j < i && iv.subrange(0, i as int)[j] == (TagAuxV {
                                name: tag@,
                                public: true,
                            });
                        assert(iv[j] == iv[i as int]);
                        assert(false);
                    }
                }
                self.add_public_tag(tag);
            }
            i = i + 1;
        }
        proof {
            assert(iv.subrange(0, n as int) =~= iv);
        }
    }

    /// Lower the tag index by one for every public tag of the items.
    fn drop_public_tags(&mut self, items: &Vec<TagAux>)
        requires
            views_of(items@).no_duplicates(),
            forall|t: Seq<char>|
                views_of(items@).to_set().contains(TagAuxV { name: t, public: true }) ==> rc(
                    old(self).tag_index_view(),
                    t,
                ) >= 1,
            forall|k: int|
                0 <= k < old(self).tag_index_view().len() ==> (#[trigger] old(self).tag_index_view()[k]).1 > 0,
            forall|k: int, l: int|
                0 <= k < l < old(self).tag_index_view().len() ==> (#[trigger] old(self).tag_index_view()[k]).0@ != (#[trigger] old(self).tag_index_view()[l]).0@,
        ensures
            *final(self) == (State { public_tags: final(self).public_tags, ..*old(self) }),
            forall|t: Seq<char>|
                rc(final(self).tag_index_view(), t) == rc(old(self).tag_index_view(), t) - (
                if views_of(items@).to_set().contains(TagAuxV { name: t, public: true }) {
                    1int
                } else {
                    0int
                }),
            forall|k: int|
                0 <= k < final(self).tag_index_view().len() ==> (#[trigger] final(self).tag_index_view()[k]).1 > 0,
            forall|k: int, l: int|
                0 <= k < l < final(self).tag_index_view().len() ==> (#[trigger] final(self).tag_index_view()[k]).0@ != (#[trigger] final(self).tag_index_view()[l]).0@,
    {
        let n = items.len();
        let ghost iv = views_of(items@);
        let mut i: usize = 0;
        while i < n
            invariant
                0 <= i <= n,
                n == items@.len(),
                iv == views_of(items@),
                iv.no_duplicates(),
                forall|t: Seq<char>|
                    views_of(items@).to_set().contains(TagAuxV { name: t, public: true }) ==> rc(
                        old(self).tag_index_view(),
                        t,
                    ) >= 1,
                *self == (State { public_tags: self.public_tags, ..*old(self) }),
                forall|t: Seq<char>|
                    rc(self.tag_index_view(), t) == rc(old(self).tag_index_view(), t) - (
                    if iv.subrange(0, i as int).to_set().contains(
                        TagAuxV { name: t, public: true },
                    ) {
                        1int
                    } else {
                        0int
                    }),
                forall|k: int|
                    0 <= k < self.tag_index_view().len() ==> (#[trigger] self.tag_index_view()[k]).1
                        > 0,
                forall|k: int, l: int|
                    0 <= k < l < self.tag_index_view().len() ==> (
                    #[trigger] self.tag_index_view()[k]).0@ != (
                    #[trigger] self.tag_index_view()[l]).0@,
            decreases n - i,
        {
            proof {
                assert(iv.subrange(0, i + 1) =~= iv.subrange(0, i as int).push(iv[i as int]));
                iv.subrange(0, i as int).lemma_push_to_set_commute(iv[i as int]);
            }
            if items[i].is_public() {
                let tag = items[i].as_tag();
                proof {
                    if iv.subrange(0, i as int).to_set().contains(
                        TagAuxV { name: tag@, public: true },
                    ) {
                        let j = choose|j: int|
                            0 <= j < i && iv.subrange(0, i as int)[j] == (TagAuxV {
                                name: tag@,
                                public: true,
                            });
                        assert(iv[j] == iv[i as int]);
                        assert(false);
                    }
                    assert(iv.to_set().contains(TagAuxV { name: tag@, public: true })) by {
                        assert(iv[i as int] == (TagAuxV { name: tag@, public: true }));
                    }
                }
                self.remove_public_tag(&tag);
            }
            i = i + 1;
        }
        proof {
            assert(iv.subrange(0, n as int) =~= iv);
        }
    }

    /// A session's tags contribute to the count of each of its public
    /// tags.
    proof fn lemma_member_pub_count(ss: Seq<Session>, i: int, t: Seq<char>)
        requires
            0 <= i < ss.len(),
            has_pub(ss[i], t),
        ensures
            pub_count(ss, t) >= 1,
    {
        lemma_pub_count_remove(ss, i, t);
        lemma_pub_count_bounds(ss.remove(i), t);
    }

    /// Announce a new or restated session to subscribers: an `AddFetch`
    /// carrying its descriptor and its own public tags, in the context of
    /// all its tags.
    pub fn add_fetch(
        &mut self,
        fetch_id: FetchId,
        tags_aux: TagsAux,
        max_points: usize,
        max_point_age_us: Option<i64>,
        name: Option<String>,
        now_us: i64,
    )
        ensures
            *final(self) == (State { outbox: final(self).outbox, ..*old(self) }),
            final(self).outbox@.len() == old(self).outbox@.len() + 1,
            final(self).outbox@.subrange(0, old(self).outbox@.len() as int) == old(self).outbox@,
            ({
                let em = final(self).outbox@.last();
                &&& em.context@.tags == tags_aux@.map(|t: TagAuxV| t.name)
                &&& em.context@.is_heartbeat == false
                &&& em.update@.meta == (UpdateMeta {
                    server_time: TimeUsec(now_us),
                    interval: 0,
                })
                &&& em.update@.changes == seq![
                    crate::updates::UpdateChangeV::AddFetch {
                        fetches: seq![
                            (
                                fetch_id,
                                crate::updates::FetchV {
                                    tags: tags_aux@.map(|t: TagAuxV| t.name),
                                    max_points: max_points as int,
                                    max_point_age_us: match max_point_age_us {
                                        Some(a) => Some(a as int),
                                        None => None,
                                    },
                                    name: match name {
                                        Some(ref nm) => Some(nm@),
                                        None => None,
                                    },
                                },
                            ),
                        ],
                        public: Set::new(
                            |n: Seq<char>| tags_aux@.contains(TagAuxV { name: n, public: true }),
                        ),
                    },
                ]
            }),
    {
        let public = tags_aux.public_tags();
        let tags = tags_aux.as_tags();
        let context_tags = tags_aux.as_tags();
        let ghost target_fetch = crate::updates::FetchV {
            tags: tags_aux@.map(|t: TagAuxV| t.name),
            max_points: max_points as int,
            max_point_age_us: match max_point_age_us {
                Some(a) => Some(a as int),
                None => None,
            },
            name: match name {
                Some(ref nm) => Some(nm@),
                None => None,
            },
        };
        let fetch = Fetch { tags, max_points, max_point_age_us, name };
        proof {
            assert(fetch@ == target_fetch);
        }
        let mut fetches: Vec<(FetchId, Fetch)> = Vec::new();
        fetches.push((fetch_id, fetch));
        proof {
            assert(fetches@.map_values(|e: (FetchId, Fetch)| (e.0, e.1@)) =~= seq![
                (fetch_id, target_fetch),
            ]);
        }
        let change = UpdateChange::AddFetch { fetches, public };
        let ghost target_change = crate::updates::UpdateChangeV::AddFetch {
            fetches: seq![(fetch_id, target_fetch)],
            public: Set::new(
                |n: Seq<char>| tags_aux@.contains(TagAuxV { name: n, public: true }),
            ),
        };
        proof {
            assert(change@ == target_change);
        }
        let mut changes: Vec<UpdateChange> = Vec::new();
        changes.push(change);
        proof {
            assert(changes@.map_values(|c: UpdateChange| c@) =~= seq![target_change]);
        }
        let update = Update {
            meta: UpdateMeta { server_time: TimeUsec(now_us), interval: 0 },
            changes,
        };
        let context = UpdateContext { tags: context_tags, is_heartbeat: false };
        self.emit(context, update);
        proof {
            assert(final(self).outbox@.subrange(0, old(self).outbox@.len() as int) =~= old(self).outbox@);
        }
    }

    /// The cap, with at least one point, applied to the asked-for count
    /// or the default.
    pub open spec fn clamp_points(&self, asked: Option<int>) -> int {
        let base = match asked {
            Some(p) => p,
            None => self.default_points as int,
        };
        let floored = if base < 1 {
            1int
        } else {
            base
        };
        if floored > self.max_points as int {
            self.max_points as int
        } else {
            floored
        }
    }

    /// Open a session: allocate identity, clamp its point cap, register
    /// its expiry, count its public tags, and announce it.  Hands back the
    /// new id and the metadata to persist.  Fails only if no unused
    /// session id could be drawn.
    #[verifier::rlimit(100)]
    pub fn add_session(
        &mut self,
        expires_at_us: i64,
        tags_aux: TagsAux,
        options: Options,
        now_us: i64,
    ) -> (r: Result<(SessionId, SessionMeta), ()>)
        requires
            old(self).wf(),
            old(self).next_fetch_view() < u32::MAX,
            old(self).sessions_view().len() + 2 < usize::MAX,
            match options.max_point_age_us {
                Some(a) => a >= 0,
                None => true,
            },
        ensures
            final(self).wf(),
            *final(self) == (State {
                sessions: final(self).sessions,
                session_expirations: final(self).session_expirations,
                public_tags: final(self).public_tags,
                outbox: final(self).outbox,
                next_fetch_id: final(self).next_fetch_id,
                ..*old(self)
            }),
            r is Err ==> *final(self) == *old(self),
            r matches Ok((sid, meta)) ==> {
                let s = final(self).sessions_view().last();
                &&& final(self).sessions_view() == old(self).sessions_view().push(s)
                &&& !old(self).has_session(sid@)
                &&& sid@.len() == 16
                &&& s.session_id@ == sid@
                &&& s.fetch_id.0 == old(self).next_fetch_view()
                &&& final(self).next_fetch_view() == old(self).next_fetch_view() + 1
                &&& s.locations@ == Seq::<Location>::empty()
                &&& s.expires_at_us == expires_at_us
                &&& s.max_points as int == old(self).clamp_points(options@.max_points)
                &&& s.max_point_age_us == (match options.max_point_age_us {
                    Some(a) => Some(a),
                    None => old(self).default_age_view(),
                })
                &&& s.no_stop == options.no_stop
                &&& !s.reject_data
                &&& s.tags@ == (if tags_aux@ =~= Set::<TagAuxV>::empty() {
                    Set::<TagAuxV>::empty().insert(
                        TagAuxV { name: old(self).default_tag@, public: true },
                    )
                } else {
                    tags_aux@
                })
                &&& meta.session_id@ == sid@
                &&& meta.expires_at_us == expires_at_us
                &&& meta.fetch_id == s.fetch_id
                &&& meta.tags@ == s.tags@
                &&& meta.max_points == s.max_points
                &&& meta.max_point_age_us == s.max_point_age_us
                &&& meta.reject_data == s.reject_data
                &&& meta.no_stop == s.no_stop
                &&& final(self).outbox_view().len() == old(self).outbox_view().len() + 1
                &&& final(self).outbox_view().subrange(0, old(self).outbox_view().len() as int)
                    == old(self).outbox_view()
                &&& ({
                    let em = final(self).outbox_view().last();
                    &&& em.context@.tags == s.tags@.map(|t: TagAuxV| t.name)
                    &&& em.context@.is_heartbeat == false
                    &&& em.update@.meta == (UpdateMeta {
                        server_time: TimeUsec(now_us),
                        interval: 0,
                    })
                    &&& em.update@.changes == seq![
                        crate::updates::UpdateChangeV::AddFetch {
                            fetches: seq![
                                (
                                    s.fetch_id,
                                    crate::updates::FetchV {
                                        tags: s.tags@.map(|t: TagAuxV| t.name),
                                        max_points: s.max_points as int,
                                        max_point_age_us: match s.max_point_age_us {
                                            Some(a) => Some(a as int),
                                            None => None,
                                        },
                                        name: match s.name {
                                            Some(ref nm) => Some(nm@),
                                            None => None,
                                        },
                                    },
                                ),
                            ],
                            public: Set::new(
                                |n: Seq<char>| s.tags@.contains(TagAuxV { name: n, public: true }),
                            ),
                        },
                    ]
                })
            },
    {
        let mut tags_aux = tags_aux;
        if tags_aux.is_empty() {
            tags_aux.insert(
                TagAux { name: self.default_tag.clone(), visibility: TagVisibility::Public },
            );
        }
        let ghost tv = tags_aux@;

        // Draw an id no live session and no queue entry uses; queue
        // entries are checked so a stale entry can never name a new
        // session.
        let mut session_id_opt: Option<SessionId> = None;
        let mut attempt: usize = 0;
        while attempt < 32
            invariant
                *self == *old(self),
                match session_id_opt {
                    Some(ref sid) => {
                        &&& !self.has_session(sid@)
                        &&& forall|k: int|
                            0 <= k < self.session_exp_view().len() ==> (
                            #[trigger] self.session_exp_view()[k]).1@ != sid@
                        &&& forall|k: int|
                            0 <= k < self.data_exp_view().len() ==> (
                            #[trigger] self.data_exp_view()[k]).1@ != sid@
                        &&& sid@.len() == 16
                    },
                    None => true,
                },
            decreases 32 - attempt,
        {
            let candidate = SessionId(fresh_id());
            if !self.id_in_use(&candidate) {
                session_id_opt = Some(candidate);
                break;
            }
            attempt = attempt + 1;
        }
        let session_id = match session_id_opt {
            Some(sid) => sid,
            None => {
                return Err(());
            },
        };

        let base = match options.max_points {
            Some(p) => p,
            None => self.default_points,
        };
        let floored: usize = if base < 1 {
            1
        } else {
            base
        };
        let max_points: usize = if floored > self.max_points {
            self.max_points
        } else {
            floored
        };
        let max_point_age_us = match options.max_point_age_us {
            Some(a) => Some(a),
            None => self.default_max_point_age_us,
        };

        let fetch_id = self.generate_fetch_id();
        let tag_items = tags_aux.items_cloned();
        proof {
            assert(views_of(tag_items@) =~= tag_items@.map_values(|t: TagAux| t@));
            assert(views_of(tag_items@).to_set() == tv);
        }
        let meta_tags = tags_aux.clone();

        let new_session = Session {
            session_id: session_id.clone(),
            locations: Vec::new(),
            expires_at_us,
            fetch_id,
            tags: tags_aux,
            max_points,
            max_point_age_us,
            added_to_expiration: false,
            reject_data: false,
            no_stop: options.no_stop,
            log: options.log,
            name: match options.name {
                Some(ref nm) => Some(nm.clone()),
                None => None,
            },
        };
        let meta = SessionMeta {
            session_id: session_id.clone(),
            expires_at_us,
            fetch_id,
            tags: meta_tags,
            max_points,
            max_point_age_us,
            reject_data: false,
            no_stop: options.no_stop,
            log: options.log,
            name: options.name,
        };

        let ghost old_ss = self.sessions@;
        self.sessions.push(new_session);
        self.session_expirations.push((expires_at_us, session_id.clone()));
        proof {
            assert(self.sessions@.drop_last() =~= old_ss);
            assert forall|t: Seq<char>|
                pub_count(self.sessions@, t) == pub_count(old_ss, t) + (if tv.contains(
                    TagAuxV { name: t, public: true },
                ) {
                    1int
                } else {
                    0int
                }) by {}
            assert(self.public_tags@ == old(self).public_tags@);
            assert forall|k: int|
                0 <= k < self.tag_index_view().len() implies (#[trigger] self.tag_index_view()[k]).1
                    > 0 by {
                assert(old(self).tag_index_view()[k].1 > 0);
            }
            assert forall|k: int, l: int|
                0 <= k < l < self.tag_index_view().len() implies (
                #[trigger] self.tag_index_view()[k]).0@ != (
                #[trigger] self.tag_index_view()[l]).0@ by {
                assert(old(self).tag_index_view()[k].0@ != old(self).tag_index_view()[l].0@);
            }
            assert forall|t: Seq<char>| rc(self.tag_index_view(), t) < u64::MAX - 1 by {
                lemma_pub_count_bounds(old_ss, t);
                assert(rc(old(self).tag_index_view(), t) == pub_count(old_ss, t));
            }
        }
        self.bump_public_tags(&tag_items);
        let ghost pt_after_bump = self.public_tags@;
        let ghost ss_after_bump = self.sessions@;
        proof {
            assert forall|t: Seq<char>|
                rc(pt_after_bump, t) == rc(old(self).public_tags@, t) + (if tv.contains(
                    TagAuxV { name: t, public: true },
                ) {
                    1int
                } else {
                    0int
                }) by {
                assert(views_of(tag_items@).to_set() == tv);
            }
        }

        let name_for_fetch = match &self.sessions[self.sessions.len() - 1].name {
            Some(nm) => Some(nm.clone()),
            None => None,
        };
        let fetch_tags = self.sessions[self.sessions.len() - 1].tags.clone();
        self.add_fetch(fetch_id, fetch_tags, max_points, max_point_age_us, name_for_fetch, now_us);

        proof {
            let s = final(self).sessions_view().last();
            assert(final(self).sessions_view() =~= old(self).sessions_view().push(s));
            assert(s.tags@ == tv);
            assert(final(self).public_tags@ == pt_after_bump);
            assert(final(self).sessions_view() == ss_after_bump);
            assert forall|t: Seq<char>|
                rc(final(self).tag_index_view(), t) == pub_count(final(self).sessions_view(), t) by {
                assert(rc(pt_after_bump, t) == rc(old(self).public_tags@, t) + (if tv.contains(
                    TagAuxV { name: t, public: true },
                ) {
                    1int
                } else {
                    0int
                }));
                assert(rc(old(self).public_tags@, t) == pub_count(old_ss, t));
                assert(pub_count(final(self).sessions_view(), t) == pub_count(old_ss, t) + (
                if tv.contains(TagAuxV { name: t, public: true }) {
                    1int
                } else {
                    0int
                }));
            }
            assert(final(self).session_exp_view() =~= old(self).session_exp_view().push(
                (expires_at_us, s.session_id),
            ));
            assert forall|i: int| #![trigger final(self).sessions_view()[i]]
                0 <= i < final(self).sessions_view().len() implies exists|k: int|
                0 <= k < final(self).session_exp_view().len() && (#[trigger] final(self).session_exp_view()[k]).0 == final(self).sessions_view()[i].expires_at_us && final(self).session_exp_view()[k].1@ == final(self).sessions_view()[i].session_id@ by {
                if i < old(self).sessions_view().len() {
                    let k = choose|k: int|
                        0 <= k < old(self).session_exp_view().len() && (#[trigger] old(self).session_exp_view()[k]).0 == old(self).sessions_view()[i].expires_at_us
                            && old(self).session_exp_view()[k].1@ == old(self).sessions_view()[i].session_id@;
                    assert(final(self).session_exp_view()[k].0 == final(self).sessions_view()[i].expires_at_us);
                } else {
                    let k = final(self).session_exp_view().len() - 1;
                    assert(final(self).session_exp_view()[k].0 == final(self).sessions_view()[i].expires_at_us);
                }
            }
            assert forall|i: int| #![trigger final(self).sessions_view()[i]]
                0 <= i < final(self).sessions_view().len() && final(self).sessions_view()[i].max_point_age_us is Some && final(self).sessions_view()[i].locations@.len() > 0 implies {
                &&& final(self).sessions_view()[i].added_to_expiration
                &&& exists|k: int|
                    0 <= k < final(self).data_exp_view().len() && (#[trigger] final(self).data_exp_view()[k]).1@ == final(self).sessions_view()[i].session_id@ && final(self).data_exp_view()[k].0 <= final(self).sessions_view()[i].locations@[0].time_us
                    + final(self).sessions_view()[i].max_point_age_us->0
            } by {
                assert(i < old(self).sessions_view().len());
                let k = choose|k: int|
                    0 <= k < old(self).data_exp_view().len() && (#[trigger] old(self).data_exp_view()[k]).1@ == old(self).sessions_view()[i].session_id@ && old(self).data_exp_view()[k].0 <= old(self).sessions_view()[i].locations@[0].time_us + old(self).sessions_view()[i].max_point_age_us->0;
                assert(final(self).data_exp_view()[k].1@ == final(self).sessions_view()[i].session_id@);
            }
            assert(final(self).wf());
        }
        Ok((session_id, meta))
    }

    /// Remove a session outright: uncount its public tags, emit
    /// `ExpireFetch`, and hand back whether it existed, so the caller can
    /// delete it from persistence.  Its expiry-queue entries stay and are
    /// skipped lazily.
    pub fn remove_session(&mut self, session_id: &SessionId, now_us: i64) -> (r: bool)
        requires
            old(self).wf(),
        ensures
            final(self).wf(),
            *final(self) == (State {
                sessions: final(self).sessions,
                public_tags: final(self).public_tags,
                outbox: final(self).outbox,
                ..*old(self)
            }),
            r == old(self).has_session(session_id@),
            !r ==> *final(self) == *old(self),
            r ==> ({
                let i = choose|i: int|
                    0 <= i < old(self).sessions_view().len() && (#[trigger] old(self).sessions_view()[i]).session_id@ == session_id@;
                &&& final(self).sessions_view() == old(self).sessions_view().remove(i)
                &&& final(self).next_fetch_view() == old(self).next_fetch_view()
                &&& final(self).outbox_view().len() == old(self).outbox_view().len() + 1
                &&& final(self).outbox_view().subrange(0, old(self).outbox_view().len() as int)
                    == old(self).outbox_view()
                &&& ({
                    let em = final(self).outbox_view().last();
                    let s = old(self).sessions_view()[i];
                    &&& em.context@.tags == s.tags@.map(|t: TagAuxV| t.name)
                    &&& em.context@.is_heartbeat == false
                    &&& em.update@.meta == (UpdateMeta {
                        server_time: TimeUsec(now_us),
                        interval: 0,
                    })
                    &&& em.update@.changes == seq![
                        crate::updates::UpdateChangeV::ExpireFetch { fetch_id: s.fetch_id },
                    ]
                })
            }),
    {
        let n = self.sessions.len();
        let mut i: usize = 0;
        loop
            invariant
                0 <= i <= n,
                n == self.sessions@.len(),
                forall|j: int| 0 <= j < i ==> (#[trigger] self.sessions@[j]).session_id@
                    != session_id@,
            ensures
                0 <= i <= n,
                i < n ==> self.sessions@[i as int].session_id@ == session_id@,
                i == n ==> forall|j: int|
                    0 <= j < n ==> (#[trigger] self.sessions@[j]).session_id@ != session_id@,
            decreases n - i,
        {
            if i >= n {
                break;
            }
            if self.sessions[i].session_id == *session_id {
                break;
            }
            i = i + 1;
        }
        if i >= n {
            return false;
        }
        proof {
            assert(old(self).has_session(session_id@));
            let w = choose|w: int|
                0 <= w < old(self).sessions_view().len() && (#[trigger] old(self).sessions_view()[w]).session_id@ == session_id@;
            assert(w == i as int);
        }

        let tag_items = self.sessions[i].tags.items_cloned();
        proof {
            assert(views_of(tag_items@) =~= tag_items@.map_values(|t: TagAux| t@));
            assert(views_of(tag_items@).to_set() == self.sessions@[i as int].tags@);
        }
        let context_tags = self.sessions[i].tags.as_tags();
        let fetch_id = self.sessions[i].fetch_id;
        let ghost removed = self.sessions@[i as int];
        let ghost old_ss = self.sessions@;

        let mut ss: Vec<Session> = Vec::new();
        core::mem::swap(&mut ss, &mut self.sessions);
        ss.remove(i);
        self.sessions = ss;
        proof {
            assert(self.sessions@ =~= old_ss.remove(i as int));
            assert(self.public_tags@ == old(self).public_tags@);
            assert forall|t: Seq<char>|
                views_of(tag_items@).to_set().contains(TagAuxV { name: t, public: true })
                implies rc(self.tag_index_view(), t) >= 1 by {
                Self::lemma_member_pub_count(old_ss, i as int, t);
                assert(rc(old(self).tag_index_view(), t) == pub_count(old_ss, t));
            }
            assert forall|k: int|
                0 <= k < self.tag_index_view().len() implies (#[trigger] self.tag_index_view()[k]).1
                    > 0 by {
                assert(old(self).tag_index_view()[k].1 > 0);
            }
            assert forall|k: int, l: int|
                0 <= k < l < self.tag_index_view().len() implies (
                #[trigger] self.tag_index_view()[k]).0@ != (
                #[trigger] self.tag_index_view()[l]).0@ by {
                assert(old(self).tag_index_view()[k].0@ != old(self).tag_index_view()[l].0@);
            }
        }
        self.drop_public_tags(&tag_items);
        let ghost pt_after_drop = self.public_tags@;
        proof {
            assert forall|t: Seq<char>|
                rc(pt_after_drop, t) == pub_count(self.sessions@, t) by {
                lemma_pub_count_remove(old_ss, i as int, t);
                assert(rc(old(self).public_tags@, t) == pub_count(old_ss, t));
                assert(views_of(tag_items@).to_set() == removed.tags@);
            }
        }

        let mut changes: Vec<UpdateChange> = Vec::new();
        changes.push(UpdateChange::ExpireFetch { fetch_id });
        let update = Update {
            meta: UpdateMeta { server_time: TimeUsec(now_us), interval: 0 },
            changes,
        };
        let context = UpdateContext { tags: context_tags, is_heartbeat: false };
        self.emit(context, update);
        proof {
            assert(final(self).outbox_view().subrange(0, old(self).outbox_view().len() as int)
                =~= old(self).outbox_view());
            assert(final(self).outbox_view().last().update@.changes =~= seq![
                crate::updates::UpdateChangeV::ExpireFetch { fetch_id: removed.fetch_id },
            ]);
            assert forall|a: int| #![trigger final(self).sessions_view()[a]]
                0 <= a < final(self).sessions_view().len() implies exists|k: int|
                0 <= k < final(self).session_exp_view().len() && (#[trigger] final(self).session_exp_view()[k]).0 == final(self).sessions_view()[a].expires_at_us && final(self).session_exp_view()[k].1@ == final(self).sessions_view()[a].session_id@ by {
                let b = if a < i as int {
                    a
                } else {
                    a + 1
                };
                assert(final(self).sessions_view()[a] == old(self).sessions_view()[b]);
                let k = choose|k: int|
                    0 <= k < old(self).session_exp_view().len() && (#[trigger] old(self).session_exp_view()[k]).0 == old(self).sessions_view()[b].expires_at_us && old(self).session_exp_view()[k].1@ == old(self).sessions_view()[b].session_id@;
                assert(final(self).session_exp_view()[k].0 == final(self).sessions_view()[a].expires_at_us);
            }
            assert forall|a: int| #![trigger final(self).sessions_view()[a]]
                0 <= a < final(self).sessions_view().len() && final(self).sessions_view()[a].max_point_age_us is Some && final(self).sessions_view()[a].locations@.len() > 0 implies {
                &&& final(self).sessions_view()[a].added_to_expiration
                &&& exists|k: int|
                    0 <= k < final(self).data_exp_view().len() && (#[trigger] final(self).data_exp_view()[k]).1@ == final(self).sessions_view()[a].session_id@ && final(self).data_exp_view()[k].0 <= final(self).sessions_view()[a].locations@[0].time_us
                    + final(self).sessions_view()[a].max_point_age_us->0
            } by {
                let b = if a < i as int {
                    a
                } else {
                    a + 1
                };
                assert(final(self).sessions_view()[a] == old(self).sessions_view()[b]);
                let k = choose|k: int|
                    0 <= k < old(self).data_exp_view().len() && (#[trigger] old(self).data_exp_view()[k]).1@ == old(self).sessions_view()[b].session_id@ && old(self).data_exp_view()[k].0 <= old(self).sessions_view()[b].locations@[0].time_us + old(self).sessions_view()[b].max_point_age_us->0;
                assert(final(self).data_exp_view()[k].1@ == final(self).sessions_view()[a].session_id@);
            }
            assert forall|t: Seq<char>|
                rc(final(self).tag_index_view(), t) == pub_count(final(self).sessions_view(), t) by {
                assert(rc(pt_after_drop, t) == pub_count(self.sessions@, t));
            }
            assert(final(self).wf());
        }
        true
    }

    /// Ask to stop a session.  A `no_stop` session merely starts
    /// rejecting data and lives on until its expiry; any other session is
    /// removed.  Hands back whether to delete it from persistence.
    pub fn request_remove_session(&mut self, session_id: &SessionId, now_us: i64) -> (r: bool)
        requires
            old(self).wf(),
        ensures
            final(self).wf(),
            !old(self).has_session(session_id@) ==> *final(self) == *old(self) && !r,
            old(self).has_session(session_id@) ==> ({
                let i = choose|i: int|
                    0 <= i < old(self).sessions_view().len() && (#[trigger] old(self).sessions_view()[i]).session_id@ == session_id@;
                let s = old(self).sessions_view()[i];
                if s.no_stop {
                    &&& !r
                    &&& *final(self) == (State { sessions: final(self).sessions, ..*old(self) })
                    &&& final(self).sessions_view() == old(self).sessions_view().update(
                        i,
                        Session { reject_data: true, ..s },
                    )
                } else {
                    &&& r
                    &&& *final(self) == (State {
                        sessions: final(self).sessions,
                        public_tags: final(self).public_tags,
                        outbox: final(self).outbox,
                        ..*old(self)
                    })
                    &&& final(self).sessions_view() == old(self).sessions_view().remove(i)
                    &&& final(self).outbox_view().len() == old(self).outbox_view().len() + 1
                    &&& final(self).outbox_view().subrange(
                        0,
                        old(self).outbox_view().len() as int,
                    ) == old(self).outbox_view()
                    &&& ({
                        let em = final(self).outbox_view().last();
                        &&& em.context@.tags == s.tags@.map(|t: TagAuxV| t.name)
                        &&& em.context@.is_heartbeat == false
                        &&& em.update@.meta == (UpdateMeta {
                            server_time: TimeUsec(now_us),
                            interval: 0,
                        })
                        &&& em.update@.changes == seq![
                            crate::updates::UpdateChangeV::ExpireFetch { fetch_id: s.fetch_id },
                        ]
                    })
                }
            }),
    {
        let n = self.sessions.len();
        let mut i: usize = 0;
        loop
            invariant
                0 <= i <= n,
                n == self.sessions@.len(),
                forall|j: int|
                    0 <= j < i ==> (#[trigger] self.sessions@[j]).session_id@ != session_id@,
            ensures
                0 <= i <= n,
                i < n ==> self.sessions@[i as int].session_id@ == session_id@,
                i == n ==> forall|j: int|
                    0 <= j < n ==> (#[trigger] self.sessions@[j]).session_id@ != session_id@,
            decreases n - i,
        {
            if i >= n {
                break;
            }
            if self.sessions[i].session_id == *session_id {
                break;
            }
            i = i + 1;
        }
        if i >= n {
            return false;
        }
        proof {
            let w = choose|w: int|
                0 <= w < old(self).sessions_view().len() && (#[trigger] old(self).sessions_view()[w]).session_id@ == session_id@;
            assert(w == i as int);
        }
        if self.sessions[i].no_stop {
            let ghost old_ss = self.sessions@;
            let ghost s_old = self.sessions@[i as int];
            let mut ss: Vec<Session> = Vec::new();
            core::mem::swap(&mut ss, &mut self.sessions);
            let mut s = ss.remove(i);
            s.reject_data = true;
            ss.insert(i, s);
            self.sessions = ss;
            proof {
                let s2 = self.sessions@[i as int];
                assert(self.sessions@ =~= old_ss.update(i as int, s2));
                assert(s2 == (Session { reject_data: true, ..s_old }));
                assert(s2.tags@ == s_old.tags@);
                assert(s2.session_id@ == s_old.session_id@);
                assert(s2.fetch_id == s_old.fetch_id);
                assert(s2.locations@ == s_old.locations@);
                assert(s2.max_points == s_old.max_points);
                assert(s2.max_point_age_us == s_old.max_point_age_us);
                assert(s2.added_to_expiration == s_old.added_to_expiration);
                assert forall|t: Seq<char>|
                    rc(self.tag_index_view(), t) == pub_count(self.sessions@, t) by {
                    lemma_pub_count_update(old_ss, i as int, s2, t);
                }
                assert forall|a: int| #![trigger self.sessions@[a]]
                    0 <= a < self.sessions@.len() implies exists|k: int|
                    0 <= k < self.session_exp_view().len() && (#[trigger] self.session_exp_view()[k]).0
                        == self.sessions@[a].expires_at_us && self.session_exp_view()[k].1@
                        == self.sessions@[a].session_id@ by {
                    let k = choose|k: int|
                        0 <= k < old(self).session_exp_view().len() && (#[trigger] old(self).session_exp_view()[k]).0 == old(self).sessions_view()[a].expires_at_us
                            && old(self).session_exp_view()[k].1@ == old(self).sessions_view()[a].session_id@;
                    assert(self.session_exp_view()[k].0 == self.sessions@[a].expires_at_us);
                }
                assert forall|a: int| #![trigger self.sessions@[a]]
                    0 <= a < self.sessions@.len() && self.sessions@[a].max_point_age_us is Some
                    && self.sessions@[a].locations@.len() > 0 implies {
                    &&& self.sessions@[a].added_to_expiration
                    &&& exists|k: int|
                        0 <= k < self.data_exp_view().len() && (#[trigger] self.data_exp_view()[k]).1@
                            == self.sessions@[a].session_id@ && self.data_exp_view()[k].0
                            <= self.sessions@[a].locations@[0].time_us
                            + self.sessions@[a].max_point_age_us->0
                } by {
                    assert(old(self).sessions_view()[a].max_point_age_us is Some && old(self).sessions_view()[a].locations@.len() > 0);
                    let k = choose|k: int|
                        0 <= k < old(self).data_exp_view().len() && (#[trigger] old(self).data_exp_view()[k]).1@ == old(self).sessions_view()[a].session_id@ && old(self).data_exp_view()[k].0 <= old(self).sessions_view()[a].locations@[0].time_us
                        + old(self).sessions_view()[a].max_point_age_us->0;
                    assert(self.data_exp_view()[k].1@ == self.sessions@[a].session_id@);
                }
                assert(final(self).wf());
            }
            false
        } else {
            self.remove_session(session_id, now_us)
        }
    }

    /// Append to a bounded ring: the oldest point falls out when the cap
    /// is passed.
    pub open spec fn ring_push(locs: Seq<Location>, p: Location, cap: int) -> Seq<Location> {
        let pushed = locs.push(p);
        if pushed.len() > cap {
            pushed.drop_first()
        } else {
            pushed
        }
    }

    /// A point older than the session's age limit.
    pub open spec fn point_expired(p: Location, age: int, now: int) -> bool {
        p.time_us + age < now
    }

    /// The ring with its expired front points popped: the maximal suffix
    /// whose first point, if any, is not expired, order preserved.
    pub open spec fn drop_expired_prefix(locs: Seq<Location>, age: int, now: int) -> Seq<Location>
        decreases locs.len(),
    {
        if locs.len() > 0 && Self::point_expired(locs[0], age, now) {
            Self::drop_expired_prefix(locs.drop_first(), age, now)
        } else {
            locs
        }
    }

    /// A maximal expired prefix of length `k` is what
    /// `drop_expired_prefix` removes.
    proof fn lemma_drop_expired_at(locs: Seq<Location>, age: int, now: int, k: int)
        requires
            0 <= k <= locs.len(),
            forall|j: int| 0 <= j < k ==> Self::point_expired(#[trigger] locs[j], age, now),
            k == locs.len() || !Self::point_expired(locs[k], age, now),
        ensures
            Self::drop_expired_prefix(locs, age, now) == locs.skip(k),
        decreases k,
    {
        if k == 0 {
            assert(locs.skip(0) =~= locs);
        } else {
            let t = locs.drop_first();
            Self::lemma_drop_expired_at(t, age, now, k - 1);
            assert(t.skip(k - 1) =~= locs.skip(k));
        }
    }

    /// The point with its coordinates wrapped into the configured box.
    pub open spec fn wrap_point(b: Option<BoxCoords>, p: Location) -> Location {
        match b {
            Some(bc) => Location {
                lat: crate::coords::wrap_spec(p.lat as int, bc.lat1 as int, bc.lat2 as int) as i64,
                lon: crate::coords::wrap_spec(p.lon as int, bc.lng1 as int, bc.lng2 as int) as i64,
                ..p
            },
            None => p,
        }
    }

    /// Take one point for a session: wrap it, append it to the ring
    /// (evicting the oldest over the cap), enroll the front for point
    /// expiry, and emit an `Add`.  A missing or data-rejecting session is
    /// `NoSuchSession`; a session past its time is removed and the post
    /// answered `SessionExpired`.
    #[verifier::rlimit(100)]
    pub fn add_location(&mut self, session_id: &SessionId, point: Location, now_us: i64) -> (r:
        Result<(), Error>)
        requires
            old(self).wf(),
        ensures
            final(self).wf(),
            *final(self) == (State {
                sessions: final(self).sessions,
                public_tags: final(self).public_tags,
                data_expirations: final(self).data_expirations,
                outbox: final(self).outbox,
                ..*old(self)
            }),
            !old(self).has_session(session_id@) ==> r == Result::<(), Error>::Err(
                Error::NoSuchSession,
            ) && *final(self) == *old(self),
            old(self).has_session(session_id@) ==> ({
                let i = choose|i: int|
                    0 <= i < old(self).sessions_view().len() && (#[trigger] old(self).sessions_view()[i]).session_id@ == session_id@;
                let s = old(self).sessions_view()[i];
                if s.reject_data {
                    r == Result::<(), Error>::Err(Error::NoSuchSession) && *final(self) == *old(self)
                } else if s.expires_at_us < now_us {
                    &&& r == Result::<(), Error>::Err(Error::SessionExpired)
                    &&& final(self).sessions_view() == old(self).sessions_view().remove(i)
                    &&& final(self).outbox_view().len() == old(self).outbox_view().len() + 1
                    &&& ({
                        let em = final(self).outbox_view().last();
                        &&& em.context@.tags == s.tags@.map(|t: TagAuxV| t.name)
                        &&& em.context@.is_heartbeat == false
                        &&& em.update@.meta == (UpdateMeta {
                            server_time: TimeUsec(now_us),
                            interval: 0,
                        })
                        &&& em.update@.changes == seq![
                            crate::updates::UpdateChangeV::ExpireFetch { fetch_id: s.fetch_id },
                        ]
                    })
                } else {
                    let p2 = Self::wrap_point(old(self).box_coords, point);
                    let s2 = final(self).sessions_view()[i];
                    &&& r == Result::<(), Error>::Ok(())
                    &&& final(self).sessions_view() == old(self).sessions_view().update(i, s2)
                    &&& s2.locations@ == Self::ring_push(s.locations@, p2, s.max_points as int)
                    &&& s2.session_id@ == s.session_id@
                    &&& s2.expires_at_us == s.expires_at_us
                    &&& s2.fetch_id == s.fetch_id
                    &&& s2.tags@ == s.tags@
                    &&& s2.max_points == s.max_points
                    &&& s2.max_point_age_us == s.max_point_age_us
                    &&& s2.reject_data == s.reject_data
                    &&& s2.no_stop == s.no_stop
                    &&& final(self).outbox_view().len() == old(self).outbox_view().len() + 1
                    &&& final(self).outbox_view().subrange(
                        0,
                        old(self).outbox_view().len() as int,
                    ) == old(self).outbox_view()
                    &&& ({
                        let em = final(self).outbox_view().last();
                        &&& em.context@.tags == s.tags@.map(|t: TagAuxV| t.name)
                        &&& em.context@.is_heartbeat == false
                        &&& em.update@.meta == (UpdateMeta {
                            server_time: TimeUsec(now_us),
                            interval: 0,
                        })
                        &&& em.update@.changes == seq![
                            crate::updates::UpdateChangeV::Add {
                                points: seq![(s.fetch_id, seq![p2])],
                            },
                        ]
                    })
                }
            }),
    {
        let n = self.sessions.len();
        let mut i: usize = 0;
        loop
            invariant
                0 <= i <= n,
                n == self.sessions@.len(),
                forall|j: int|
                    0 <= j < i ==> (#[trigger] self.sessions@[j]).session_id@ != session_id@,
            ensures
                0 <= i <= n,
                i < n ==> self.sessions@[i as int].session_id@ == session_id@,
                i == n ==> forall|j: int|
                    0 <= j < n ==> (#[trigger] self.sessions@[j]).session_id@ != session_id@,
            decreases n - i,
        {
            if i >= n {
                break;
            }
            if self.sessions[i].session_id == *session_id {
                break;
            }
            i = i + 1;
        }
        if i >= n {
            return Err(Error::NoSuchSession);
        }
        proof {
            let w = choose|w: int|
                0 <= w < old(self).sessions_view().len() && (#[trigger] old(self).sessions_view()[w]).session_id@ == session_id@;
            assert(w == i as int);
        }
        if self.sessions[i].reject_data {
            return Err(Error::NoSuchSession);
        }
        if self.sessions[i].expires_at_us < now_us {
            self.remove_session(session_id, now_us);
            return Err(Error::SessionExpired);
        }

        let p2 = match self.box_coords {
            Some(b) => Location {
                lat: b.wrap_latitude(point.lat),
                lon: b.wrap_longitude(point.lon),
                acc: point.acc,
                spd: point.spd,
                provider: point.provider,
                time_us: point.time_us,
            },
            None => point,
        };
        proof {
            assert(p2 == Self::wrap_point(old(self).box_coords, point));
        }

        let ghost old_ss = self.sessions@;
        let ghost s_old = self.sessions@[i as int];
        let mut ss: Vec<Session> = Vec::new();
        core::mem::swap(&mut ss, &mut self.sessions);
        let mut s = ss.remove(i);
        let fetch_id = s.fetch_id;
        s.locations.push(p2);
        if s.locations.len() > s.max_points {
            s.locations.remove(0);
            s.added_to_expiration = false;
        }
        proof {
            assert(s.locations@ == Self::ring_push(s_old.locations@, p2, s_old.max_points as int));
            assert(s.locations@.len() <= s_old.max_points);
        }
        match s.max_point_age_us {
            Some(a) => {
                if !s.added_to_expiration && s.locations.len() > 0 {
                    let front_time = s.locations[0].time_us;
                    let sum = front_time as i128 + a as i128;
                    let at: i64 = if sum > i64::MAX as i128 {
                        i64::MAX
                    } else {
                        sum as i64
                    };
                    self.data_expirations.push((at, s.session_id.clone()));
                    s.added_to_expiration = true;
                }
            },
            None => {},
        }
        ss.insert(i, s);
        self.sessions = ss;

        let context_tags = self.sessions[i].tags.as_tags();
        let mut points_vec: Vec<(FetchId, Vec<Location>)> = Vec::new();
        let mut locs_one: Vec<Location> = Vec::new();
        locs_one.push(p2);
        proof {
            assert(locs_one@ =~= seq![p2]);
        }
        points_vec.push((fetch_id, locs_one));
        proof {
            assert(points_vec@.map_values(|e: (FetchId, Vec<Location>)| (e.0, e.1@)) =~= seq![
                (fetch_id, seq![p2]),
            ]);
        }
        let mut changes: Vec<UpdateChange> = Vec::new();
        changes.push(UpdateChange::Add { points: points_vec });
        proof {
            assert(changes@.map_values(|c: UpdateChange| c@) =~= seq![
                crate::updates::UpdateChangeV::Add { points: seq![(fetch_id, seq![p2])] },
            ]);
        }
        let update = Update {
            meta: UpdateMeta { server_time: TimeUsec(now_us), interval: 0 },
            changes,
        };
        let context = UpdateContext { tags: context_tags, is_heartbeat: false };
        self.emit(context, update);

        proof {
            let s2 = final(self).sessions_view()[i as int];
            assert(final(self).sessions_view() =~= old_ss.update(i as int, s2));
            assert(s2.tags@ == s_old.tags@);
            assert(final(self).outbox_view().subrange(0, old(self).outbox_view().len() as int)
                =~= old(self).outbox_view());
            assert(final(self).outbox_view().last().update@.changes =~= seq![
                crate::updates::UpdateChangeV::Add { points: seq![(s_old.fetch_id, seq![p2])] },
            ]);
            assert forall|t: Seq<char>|
                rc(final(self).public_tags@, t) == pub_count(final(self).sessions_view(), t) by {
                lemma_pub_count_update(old_ss, i as int, s2, t);
            }
            assert forall|a: int| #![trigger final(self).sessions_view()[a]]
                0 <= a < final(self).sessions_view().len() implies exists|k: int|
                0 <= k < final(self).session_exp_view().len() && (#[trigger] final(self).session_exp_view()[k]).0 == final(self).sessions_view()[a].expires_at_us && final(self).session_exp_view()[k].1@ == final(self).sessions_view()[a].session_id@ by {
                let k = choose|k: int|
                    0 <= k < old(self).session_exp_view().len() && (#[trigger] old(self).session_exp_view()[k]).0 == old(self).sessions_view()[a].expires_at_us && old(self).session_exp_view()[k].1@ == old(self).sessions_view()[a].session_id@;
                assert(final(self).session_exp_view()[k].0 == final(self).sessions_view()[a].expires_at_us);
            }
            assert forall|a: int| #![trigger final(self).sessions_view()[a]]
                0 <= a < final(self).sessions_view().len() && final(self).sessions_view()[a].max_point_age_us is Some && final(self).sessions_view()[a].locations@.len() > 0 implies {
                &&& final(self).sessions_view()[a].added_to_expiration
                &&& exists|k: int|
                    0 <= k < final(self).data_exp_view().len() && (#[trigger] final(self).data_exp_view()[k]).1@ == final(self).sessions_view()[a].session_id@ && final(self).data_exp_view()[k].0 <= final(self).sessions_view()[a].locations@[0].time_us
                    + final(self).sessions_view()[a].max_point_age_us->0
            } by {
                if a != i as int {
                    assert(final(self).sessions_view()[a] == old(self).sessions_view()[a]);
                    let k = choose|k: int|
                        0 <= k < old(self).data_exp_view().len() && (#[trigger] old(self).data_exp_view()[k]).1@ == old(self).sessions_view()[a].session_id@ && old(self).data_exp_view()[k].0 <= old(self).sessions_view()[a].locations@[0].time_us
                        + old(self).sessions_view()[a].max_point_age_us->0;
                    assert(final(self).data_exp_view()[k].1@ == final(self).sessions_view()[a].session_id@);
                } else {
                    if s2.added_to_expiration && !s_old.added_to_expiration {
                        // enrolled in this call: the pushed entry fits
                        let k = final(self).data_exp_view().len() - 1;
                        assert(final(self).data_exp_view()[k].1@ == s2.session_id@);
                    } else if s2.added_to_expiration && s_old.added_to_expiration
                        && s_old.locations@.len() + 1 <= s_old.max_points {
                        // no eviction: the old front is still the front
                        assert(s_old.locations@.len() > 0);
                        assert(s2.locations@[0] == s_old.locations@[0]);
                        let k = choose|k: int|
                            0 <= k < old(self).data_exp_view().len() && (#[trigger] old(self).data_exp_view()[k]).1@ == s_old.session_id@ && old(self).data_exp_view()[k].0 <= s_old.locations@[0].time_us
                            + s_old.max_point_age_us->0;
                        assert(final(self).data_exp_view()[k].1@ == s2.session_id@);
                    } else {
                        // eviction cleared the flag, then the new front
                        // was enrolled
                        let k = final(self).data_exp_view().len() - 1;
                        assert(final(self).data_exp_view()[k].1@ == s2.session_id@);
                    }
                }
            }
            assert(final(self).wf());
        }
        Ok(())
    }

    /// Everything about a session except its ring and its enrollment
    /// flag.
    pub open spec fn same_shell(a: Session, b: Session) -> bool {
        &&& a.session_id@ == b.session_id@
        &&& a.expires_at_us == b.expires_at_us
        &&& a.fetch_id == b.fetch_id
        &&& a.tags@ == b.tags@
        &&& a.max_points == b.max_points
        &&& a.max_point_age_us == b.max_point_age_us
        &&& a.reject_data == b.reject_data
        &&& a.no_stop == b.no_stop
    }

    /// Drop points older than the session's age limit from the front of
    /// its ring, and enroll the new front.  Sessions without an age
    /// limit, and unknown ids, are left alone.
    #[verifier::rlimit(100)]
    fn expire_data(&mut self, session_id: &SessionId, now_us: i64)
        requires
            old(self).wf(),
        ensures
            final(self).wf(),
            *final(self) == (State {
                sessions: final(self).sessions,
                data_expirations: final(self).data_expirations,
                ..*old(self)
            }),
            final(self).sessions@.len() == old(self).sessions@.len(),
            forall|k: int|
                0 <= k < old(self).data_exp_view().len() ==> final(self).data_exp_view()[k] == old(self).data_exp_view()[k],
            final(self).data_exp_view().len() >= old(self).data_exp_view().len(),
            forall|j: int| #![trigger final(self).sessions_view()[j]]
                0 <= j < old(self).sessions_view().len() ==> {
                    &&& Self::same_shell(
                        old(self).sessions_view()[j],
                        final(self).sessions_view()[j],
                    )
                    &&& (old(self).sessions_view()[j].session_id@ != session_id@ ==> final(self).sessions_view()[j] == old(self).sessions_view()[j])
                },
            forall|j: int| #![trigger final(self).sessions_view()[j]]
                0 <= j < final(self).sessions_view().len() && final(self).sessions_view()[j].session_id@ == session_id@ && final(self).sessions_view()[j].max_point_age_us is Some ==> (final(self).sessions_view()[j].locations@.len() == 0 || !Self::point_expired(
                final(self).sessions_view()[j].locations@[0],
                final(self).sessions_view()[j].max_point_age_us->0 as int,
                now_us as int,
            )),
            forall|j: int| #![trigger final(self).sessions_view()[j]]
                0 <= j < old(self).sessions_view().len() && old(self).sessions_view()[j].session_id@ == session_id@ ==> final(self).sessions_view()[j].locations@ == (
                match old(self).sessions_view()[j].max_point_age_us {
                    Some(a) => Self::drop_expired_prefix(
                        old(self).sessions_view()[j].locations@,
                        a as int,
                        now_us as int,
                    ),
                    None => old(self).sessions_view()[j].locations@,
                }),
    {
        let n = self.sessions.len();
        let mut i: usize = 0;
        loop
            invariant
                0 <= i <= n,
                n == self.sessions@.len(),
                forall|j: int|
                    0 <= j < i ==> (#[trigger] self.sessions@[j]).session_id@ != session_id@,
            ensures
                0 <= i <= n,
                i < n ==> self.sessions@[i as int].session_id@ == session_id@,
                i == n ==> forall|j: int|
                    0 <= j < n ==> (#[trigger] self.sessions@[j]).session_id@ != session_id@,
            decreases n - i,
        {
            if i >= n {
                break;
            }
            if self.sessions[i].session_id == *session_id {
                break;
            }
            i = i + 1;
        }
        if i >= n {
            return ;
        }
        let age = match self.sessions[i].max_point_age_us {
            Some(a) => a,
            None => {
                return ;
            },
        };
        proof {
            assert(age >= 0);
        }

        let ghost old_ss = self.sessions@;
        let ghost s_old = self.sessions@[i as int];
        let mut ss: Vec<Session> = Vec::new();
        core::mem::swap(&mut ss, &mut self.sessions);
        let mut s = ss.remove(i);
        let ghost locs0 = s.locations@;
        let n0 = s.locations.len();
        let mut cut: usize = 0;
        loop
            invariant
                n0 == locs0.len(),
                0 <= cut <= locs0.len(),
                s.locations@ == locs0.skip(cut as int),
                s == (Session {
                    locations: s.locations,
                    added_to_expiration: s.added_to_expiration,
                    ..s_old
                }),
                cut > 0 ==> !s.added_to_expiration,
                cut == 0 ==> s.added_to_expiration == s_old.added_to_expiration,
                forall|j: int|
                    0 <= j < cut ==> Self::point_expired(
                        #[trigger] locs0[j],
                        age as int,
                        now_us as int,
                    ),
                age >= 0,
            ensures
                n0 == locs0.len(),
                0 <= cut <= locs0.len(),
                s.locations@ == locs0.skip(cut as int),
                s == (Session {
                    locations: s.locations,
                    added_to_expiration: s.added_to_expiration,
                    ..s_old
                }),
                cut > 0 ==> !s.added_to_expiration,
                cut == 0 ==> s.added_to_expiration == s_old.added_to_expiration,
                forall|j: int|
                    0 <= j < cut ==> Self::point_expired(
                        #[trigger] locs0[j],
                        age as int,
                        now_us as int,
                    ),
                s.locations@.len() == 0 || !Self::point_expired(
                    s.locations@[0],
                    age as int,
                    now_us as int,
                ),
            decreases locs0.len() - cut,
        {
            if s.locations.len() == 0 {
                break;
            }
            let ft = s.locations[0].time_us;
            if !((ft as i128 + age as i128) < now_us as i128) {
                break;
            }
            s.locations.remove(0);
            s.added_to_expiration = false;
            proof {
                assert(s.locations@ =~= locs0.skip(cut + 1));
                assert(cut < n0);
            }
            cut = cut + 1;
        }
        proof {
            if cut < locs0.len() {
                assert(s.locations@[0] == locs0[cut as int]);
            }
            Self::lemma_drop_expired_at(locs0, age as int, now_us as int, cut as int);
        }
        let pushed_entry: bool;
        if s.locations.len() > 0 && !s.added_to_expiration {
            let front_time = s.locations[0].time_us;
            let sum = front_time as i128 + age as i128;
            let at: i64 = if sum > i64::MAX as i128 {
                i64::MAX
            } else {
                sum as i64
            };
            self.data_expirations.push((at, s.session_id.clone()));
            s.added_to_expiration = true;
            pushed_entry = true;
        } else {
            pushed_entry = false;
        }
        ss.insert(i, s);
        self.sessions = ss;

        proof {
            let s2 = final(self).sessions_view()[i as int];
            assert(final(self).sessions_view() =~= old_ss.update(i as int, s2));
            assert(s2.tags@ == s_old.tags@);
            assert forall|t: Seq<char>|
                rc(final(self).public_tags@, t) == pub_count(final(self).sessions_view(), t) by {
                lemma_pub_count_update(old_ss, i as int, s2, t);
            }
            assert forall|a: int| #![trigger final(self).sessions_view()[a]]
                0 <= a < final(self).sessions_view().len() implies exists|k: int|
                0 <= k < final(self).session_exp_view().len() && (#[trigger] final(self).session_exp_view()[k]).0 == final(self).sessions_view()[a].expires_at_us && final(self).session_exp_view()[k].1@ == final(self).sessions_view()[a].session_id@ by {
                let k = choose|k: int|
                    0 <= k < old(self).session_exp_view().len() && (#[trigger] old(self).session_exp_view()[k]).0 == old(self).sessions_view()[a].expires_at_us && old(self).session_exp_view()[k].1@ == old(self).sessions_view()[a].session_id@;
                assert(final(self).session_exp_view()[k].0 == final(self).sessions_view()[a].expires_at_us);
            }
            assert forall|a: int| #![trigger final(self).sessions_view()[a]]
                0 <= a < final(self).sessions_view().len() && final(self).sessions_view()[a].max_point_age_us is Some && final(self).sessions_view()[a].locations@.len() > 0 implies {
                &&& final(self).sessions_view()[a].added_to_expiration
                &&& exists|k: int|
                    0 <= k < final(self).data_exp_view().len() && (#[trigger] final(self).data_exp_view()[k]).1@ == final(self).sessions_view()[a].session_id@ && final(self).data_exp_view()[k].0 <= final(self).sessions_view()[a].locations@[0].time_us + final(self).sessions_view()[a].max_point_age_us->0
            } by {
                if a != i as int {
                    assert(final(self).sessions_view()[a] == old(self).sessions_view()[a]);
                    let k = choose|k: int|
                        0 <= k < old(self).data_exp_view().len() && (#[trigger] old(self).data_exp_view()[k]).1@ == old(self).sessions_view()[a].session_id@ && old(self).data_exp_view()[k].0 <= old(self).sessions_view()[a].locations@[0].time_us + old(self).sessions_view()[a].max_point_age_us->0;
                    assert(final(self).data_exp_view()[k].1@ == final(self).sessions_view()[a].session_id@);
                } else {
                    if pushed_entry {
                        let k = final(self).data_exp_view().len() - 1;
                        assert(final(self).data_exp_view()[k].1@ == s2.session_id@);
                    } else {
                        // nothing was dropped, so the old front and its
                        // entry still stand
                        assert(s2.added_to_expiration);
                        assert(cut == 0);
                        assert(s_old.added_to_expiration);
                        assert(s_old.locations@.len() > 0);
                        assert(s2.locations@ =~= s_old.locations@);
                        let k = choose|k: int|
                            0 <= k < old(self).data_exp_view().len() && (#[trigger] old(self).data_exp_view()[k]).1@ == s_old.session_id@ && old(self).data_exp_view()[k].0 <= s_old.locations@[0].time_us + s_old.max_point_age_us->0;
                        assert(final(self).data_exp_view()[k].1@ == s2.session_id@);
                    }
                }
            }
            assert(final(self).wf());
        }
    }

    /// Age out old points in every session: each ring loses its expired
    /// front points and the fresh fronts are re-enrolled.  Afterwards no
    /// session's oldest point is past its age limit.  Entries whose
    /// points are already gone stay in the queue and are skipped when
    /// they fire; unlike the session queue, this one is not pruned.
    pub fn remove_expired_data(&mut self, now_us: i64)
        requires
            old(self).wf(),
        ensures
            final(self).wf(),
            final(self).sessions_view().len() == old(self).sessions_view().len(),
            *final(self) == (State {
                sessions: final(self).sessions,
                data_expirations: final(self).data_expirations,
                ..*old(self)
            }),
            forall|j: int| #![trigger final(self).sessions_view()[j]]
                0 <= j < old(self).sessions_view().len() ==> Self::same_shell(
                    old(self).sessions_view()[j],
                    final(self).sessions_view()[j],
                ),
            forall|j: int| #![trigger final(self).sessions_view()[j]]
                0 <= j < final(self).sessions_view().len() && final(self).sessions_view()[j].max_point_age_us is Some && final(self).sessions_view()[j].locations@.len() > 0 ==> !Self::point_expired(
                final(self).sessions_view()[j].locations@[0],
                final(self).sessions_view()[j].max_point_age_us->0 as int,
                now_us as int,
            ),
            forall|j: int| #![trigger final(self).sessions_view()[j]]
                0 <= j < old(self).sessions_view().len() ==> final(self).sessions_view()[j].locations@ == (
                match old(self).sessions_view()[j].max_point_age_us {
                    Some(a) => Self::drop_expired_prefix(
                        old(self).sessions_view()[j].locations@,
                        a as int,
                        now_us as int,
                    ),
                    None => old(self).sessions_view()[j].locations@,
                }),
    {
        let n = self.sessions.len();
        let mut i: usize = 0;
        while i < n
            invariant
                0 <= i <= n,
                self.wf(),
                n == self.sessions@.len(),
                n == old(self).sessions@.len(),
                *self == (State {
                    sessions: self.sessions,
                    data_expirations: self.data_expirations,
                    ..*old(self)
                }),
                forall|j: int| #![trigger self.sessions@[j]]
                    0 <= j < n ==> Self::same_shell(
                        old(self).sessions_view()[j],
                        self.sessions@[j],
                    ),
                forall|j: int| #![trigger self.sessions@[j]]
                    0 <= j < i && self.sessions@[j].max_point_age_us is Some
                        && self.sessions@[j].locations@.len() > 0 ==> !Self::point_expired(
                        self.sessions@[j].locations@[0],
                        self.sessions@[j].max_point_age_us->0 as int,
                        now_us as int,
                    ),
                forall|j: int| #![trigger self.sessions@[j]]
                    0 <= j < i ==> self.sessions@[j].locations@ == (
                    match old(self).sessions_view()[j].max_point_age_us {
                        Some(a) => Self::drop_expired_prefix(
                            old(self).sessions_view()[j].locations@,
                            a as int,
                            now_us as int,
                        ),
                        None => old(self).sessions_view()[j].locations@,
                    }),
                forall|j: int| #![trigger self.sessions@[j]]
                    i <= j < self.sessions@.len() ==> self.sessions@[j] == old(self).sessions_view()[j],
            decreases n - i,
        {
            let sid = self.sessions[i].session_id.clone();
            let ghost pre = self.sessions@;
            self.expire_data(&sid, now_us);
            proof {
                assert forall|j: int| #![trigger self.sessions@[j]]
                    0 <= j < i + 1 && self.sessions@[j].max_point_age_us is Some
                        && self.sessions@[j].locations@.len() > 0 implies !Self::point_expired(
                    self.sessions@[j].locations@[0],
                    self.sessions@[j].max_point_age_us->0 as int,
                    now_us as int,
                ) by {
                    if j < i as int {
                        assert(pre[j].session_id@ != sid@);
                        assert(self.sessions@[j] == pre[j]);
                    } else {
                        assert(self.sessions@[j].session_id@ == sid@);
                    }
                }
                assert forall|j: int| #![trigger self.sessions@[j]]
                    0 <= j < i + 1 implies self.sessions@[j].locations@ == (
                match old(self).sessions_view()[j].max_point_age_us {
                    Some(a) => Self::drop_expired_prefix(
                        old(self).sessions_view()[j].locations@,
                        a as int,
                        now_us as int,
                    ),
                    None => old(self).sessions_view()[j].locations@,
                }) by {
                    if j < i as int {
                        assert(pre[j].session_id@ != sid@);
                        assert(self.sessions@[j] == pre[j]);
                    } else {
                        assert(pre[j] == old(self).sessions_view()[j]);
                        assert(pre[j].session_id@ == sid@);
                    }
                }
                assert forall|j: int| #![trigger self.sessions@[j]]
                    i + 1 <= j < self.sessions@.len() implies self.sessions@[j] == old(self).sessions_view()[j] by {
                    assert(pre[j] == old(self).sessions_view()[j]);
                    assert(pre[j].session_id@ != sid@);
                    assert(self.sessions@[j] == pre[j]);
                }
            }
            i = i + 1;
        }
    }

    /// The queue entries strictly after the cutoff, in order; every kept
    /// entry comes from the input and every late-enough input entry is
    /// kept.
    fn entries_after(entries: &Vec<(i64, SessionId)>, now_us: i64) -> (r: Vec<(i64, SessionId)>)
        ensures
            forall|k: int| 0 <= k < r@.len() ==> (#[trigger] r@[k]).0 > now_us,
            forall|k: int| 0 <= k < r@.len() ==> entries@.contains(#[trigger] r@[k]),
            forall|k: int|
                0 <= k < entries@.len() && (#[trigger] entries@[k]).0 > now_us ==> r@.contains(
                    entries@[k],
                ),
    {
        let n = entries.len();
        let mut r: Vec<(i64, SessionId)> = Vec::new();
        let mut i: usize = 0;
        while i < n
            invariant
                0 <= i <= n,
                n == entries@.len(),
                forall|k: int| 0 <= k < r@.len() ==> (#[trigger] r@[k]).0 > now_us,
                forall|k: int| 0 <= k < r@.len() ==> entries@.contains(#[trigger] r@[k]),
                forall|k: int|
                    0 <= k < i && (#[trigger] entries@[k]).0 > now_us ==> r@.contains(entries@[k]),
            decreases n - i,
        {
            if entries[i].0 > now_us {
                let ghost rl = r@.len();
                let ghost rpre = r@;
                r.push((entries[i].0, entries[i].1.clone()));
                proof {
                    assert(r@[rl as int] == entries@[i as int]);
                    assert(entries@.contains(entries@[i as int]));
                    assert forall|k: int|
                        0 <= k < i + 1 && (#[trigger] entries@[k]).0 > now_us implies r@.contains(
                        entries@[k],
                    ) by {
                        if k < i as int {
                            let k2 = choose|k2: int|
                                0 <= k2 < rpre.len() && #[trigger] rpre[k2] == entries@[k];
                            assert(r@[k2] == rpre[k2]);
                            assert(r@[k2] == entries@[k]);
                        } else {
                            assert(r@[rl as int] == entries@[k]);
                        }
                    }
                }
            }
            i = i + 1;
        }
        r
    }

    /// Remove every session whose time has run out, emitting
    /// `ExpireFetch` for each; the ids come back for deletion from
    /// persistence.  Queue entries that have fired are dropped.
    pub fn remove_expired_sessions(&mut self, now_us: i64) -> (r: Vec<SessionId>)
        requires
            old(self).wf(),
        ensures
            final(self).wf(),
            forall|i: int|
                0 <= i < final(self).sessions_view().len() ==> (#[trigger] final(self).sessions_view()[i]).expires_at_us > now_us,
            forall|j: int|
                0 <= j < old(self).sessions_view().len() && (#[trigger] old(self).sessions_view()[j]).expires_at_us > now_us ==> exists|i: int|
                    0 <= i < final(self).sessions_view().len() && (#[trigger] final(self).sessions_view()[i]) == old(self).sessions_view()[j],
            final(self).outbox_view().len() == old(self).outbox_view().len() + r@.len(),
            final(self).outbox_view().subrange(0, old(self).outbox_view().len() as int) == old(self).outbox_view(),
            forall|k: int|
                old(self).outbox_view().len() <= k < final(self).outbox_view().len() ==> {
                    let em = #[trigger] final(self).outbox_view()[k];
                    &&& em.update@.changes.len() == 1
                    &&& em.update@.changes[0] is ExpireFetch
                    &&& em.context@.is_heartbeat == false
                },
    {
        let mut removed: Vec<SessionId> = Vec::new();
        loop
            invariant
                self.wf(),
                forall|j: int|
                    0 <= j < old(self).sessions_view().len() && (#[trigger] old(self).sessions_view()[j]).expires_at_us > now_us ==> exists|i: int|
                        0 <= i < self.sessions@.len() && (#[trigger] self.sessions@[i]) == old(self).sessions_view()[j],
                self.outbox@.len() == old(self).outbox@.len() + removed@.len(),
                self.outbox@.subrange(0, old(self).outbox@.len() as int) == old(self).outbox@,
                forall|k: int|
                    old(self).outbox@.len() <= k < self.outbox@.len() ==> {
                        let em = #[trigger] self.outbox@[k];
                        &&& em.update@.changes.len() == 1
                        &&& em.update@.changes[0] is ExpireFetch
                        &&& em.context@.is_heartbeat == false
                    },
            ensures
                self.wf(),
                self.outbox@.len() == old(self).outbox@.len() + removed@.len(),
                self.outbox@.subrange(0, old(self).outbox@.len() as int) == old(self).outbox@,
                forall|k: int|
                    old(self).outbox@.len() <= k < self.outbox@.len() ==> {
                        let em = #[trigger] self.outbox@[k];
                        &&& em.update@.changes.len() == 1
                        &&& em.update@.changes[0] is ExpireFetch
                        &&& em.context@.is_heartbeat == false
                    },
                forall|i: int|
                    0 <= i < self.sessions@.len() ==> (#[trigger] self.sessions@[i]).expires_at_us
                        > now_us,
                forall|j: int|
                    0 <= j < old(self).sessions_view().len() && (#[trigger] old(self).sessions_view()[j]).expires_at_us > now_us ==> exists|i: int|
                        0 <= i < self.sessions@.len() && (#[trigger] self.sessions@[i]) == old(self).sessions_view()[j],
            decreases self.sessions@.len(),
        {
            // look for one due session
            let n = self.sessions.len();
            let mut i: usize = 0;
            let mut found: Option<SessionId> = None;
            while i < n
                invariant
                    0 <= i <= n,
                    n == self.sessions@.len(),
                    found is None ==> forall|j: int|
                        0 <= j < i ==> (#[trigger] self.sessions@[j]).expires_at_us > now_us,
                    match found {
                        Some(ref sid) => exists|j: int|
                            0 <= j < n && (#[trigger] self.sessions@[j]).session_id@ == sid@
                                && self.sessions@[j].expires_at_us <= now_us,
                        None => true,
                    },
                ensures
                    match found {
                        Some(ref sid) => exists|j: int|
                            0 <= j < n && (#[trigger] self.sessions@[j]).session_id@ == sid@
                                && self.sessions@[j].expires_at_us <= now_us,
                        None => forall|j: int|
                            0 <= j < n ==> (#[trigger] self.sessions@[j]).expires_at_us > now_us,
                    },
                decreases n - i,
            {
                if self.sessions[i].expires_at_us <= now_us {
                    found = Some(self.sessions[i].session_id.clone());
                    proof {
                        assert(self.sessions@[i as int].expires_at_us <= now_us);
                    }
                    break;
                }
                i = i + 1;
            }
            match found {
                None => {
                    break;
                },
                Some(sid) => {
                    let ghost pre = self.sessions@;
                    let ghost ob_pre = self.outbox@;
                    let was = self.remove_session(&sid, now_us);
                    proof {
                        assert(was);
                        assert(self.outbox@.subrange(0, ob_pre.len() as int) =~= ob_pre);
                        assert(self.outbox@.subrange(0, old(self).outbox@.len() as int) =~= old(self).outbox@);
                        assert(self.outbox@.last().update@.changes.len() == 1);
                        assert forall|k: int|
                            old(self).outbox@.len() <= k < self.outbox@.len() implies {
                            let em = #[trigger] self.outbox@[k];
                            &&& em.update@.changes.len() == 1
                            &&& em.update@.changes[0] is ExpireFetch
                            &&& em.context@.is_heartbeat == false
                        } by {
                            if k < ob_pre.len() {
                                assert(self.outbox@[k] == ob_pre[k]);
                            } else {
                                assert(self.outbox@[k] == self.outbox@.last());
                            }
                        }
                        let i0 = choose|i0: int|
                            0 <= i0 < pre.len() && (#[trigger] pre[i0]).session_id@ == sid@;
                        assert(self.sessions@ =~= pre.remove(i0));
                        assert(pre[i0].expires_at_us <= now_us) by {
                            let j0 = choose|j0: int|
                                0 <= j0 < pre.len() && (#[trigger] pre[j0]).session_id@ == sid@
                                    && pre[j0].expires_at_us <= now_us;
                            assert(j0 == i0);
                        }
                        assert forall|j: int|
                            0 <= j < old(self).sessions_view().len() && (#[trigger] old(self).sessions_view()[j]).expires_at_us > now_us implies exists|i2: int|
                            0 <= i2 < self.sessions@.len() && (#[trigger] self.sessions@[i2]) == old(self).sessions_view()[j] by {
                            let i1 = choose|i1: int|
                                0 <= i1 < pre.len() && (#[trigger] pre[i1]) == old(self).sessions_view()[j];
                            assert(i1 != i0);
                            let i2 = if i1 < i0 {
                                i1
                            } else {
                                i1 - 1
                            };
                            assert(self.sessions@[i2] == pre[i1]);
                        }
                    }
                    removed.push(sid);
                },
            }
        }
        removed
    }

    /// A restored session carries exactly its persisted metadata and an
    /// empty ring.
    #[verifier::opaque]
    pub open spec fn meta_matches(m: SessionMeta, s: Session) -> bool {
        &&& s.session_id@ == m.session_id@
        &&& s.expires_at_us == m.expires_at_us
        &&& s.fetch_id == m.fetch_id
        &&& s.tags@ == m.tags@
        &&& s.max_points == m.max_points
        &&& s.max_point_age_us == m.max_point_age_us
        &&& s.reject_data == m.reject_data
        &&& s.no_stop == m.no_stop
        &&& s.locations@ == Seq::<Location>::empty()
    }

    /// Every session-expiry entry names a live session; true while a
    /// store is being restored, before any removal.
    #[verifier::opaque]
    pub open spec fn exp_entries_live(&self) -> bool {
        forall|k: int|
            0 <= k < self.session_exp_view().len() ==> exists|j: int|
                0 <= j < self.sessions@.len() && (#[trigger] self.session_exp_view()[k]).1@ == (
                #[trigger] self.sessions@[j]).session_id@
    }

    /// Bring one persisted session back into the store.
    #[verifier::rlimit(100)]
    pub fn restore_one(&mut self, m: SessionMeta)
        requires
            old(self).wf(),
            old(self).exp_entries_live(),
            old(self).data_exp_view().len() == 0,
            !old(self).has_session(m.session_id@),
            forall|j: int|
                0 <= j < old(self).sessions@.len() ==> (#[trigger] old(self).sessions@[j]).fetch_id.0 != m.fetch_id.0,
            m.fetch_id.0 < u32::MAX,
            match m.max_point_age_us {
                Some(x) => x >= 0,
                None => true,
            },
            old(self).sessions@.len() + 2 < usize::MAX,
        ensures
            final(self).wf(),
            final(self).exp_entries_live(),
            final(self).data_exp_view().len() == 0,
            final(self).sessions@.len() == old(self).sessions@.len() + 1,
            final(self).sessions@.drop_last() == old(self).sessions@,
            Self::meta_matches(m, final(self).sessions@.last()),
            *final(self) == (State {
                sessions: final(self).sessions,
                session_expirations: final(self).session_expirations,
                public_tags: final(self).public_tags,
                next_fetch_id: final(self).next_fetch_id,
                ..*old(self)
            }),
    {
        if self.next_fetch_id <= m.fetch_id.0 {
            self.next_fetch_id = m.fetch_id.0 + 1;
        }
        let tag_items = m.tags.items_cloned();
        let ghost tv = m.tags@;
        let sid_for_queue = m.session_id.clone();
        let s = Session {
            session_id: m.session_id,
            locations: Vec::new(),
            expires_at_us: m.expires_at_us,
            fetch_id: m.fetch_id,
            tags: m.tags,
            max_points: m.max_points,
            max_point_age_us: m.max_point_age_us,
            added_to_expiration: false,
            reject_data: m.reject_data,
            no_stop: m.no_stop,
            log: m.log,
            name: m.name,
        };
        let ghost old_ss = self.sessions@;
        self.sessions.push(s);
        self.session_expirations.push((m.expires_at_us, sid_for_queue));
        proof {
            assert(self.sessions@.drop_last() =~= old_ss);
            assert(self.public_tags@ == old(self).public_tags@);
            assert forall|t: Seq<char>| rc(self.public_tags@, t) < u64::MAX - 1 by {
                lemma_pub_count_bounds(old_ss, t);
                assert(rc(old(self).public_tags@, t) == pub_count(old_ss, t));
            }
            assert(views_of(tag_items@) =~= tag_items@.map_values(|t: TagAux| t@));
            assert(views_of(tag_items@).to_set() == tv);
        }
        self.bump_public_tags(&tag_items);
        proof {
            reveal(State::meta_matches);
            reveal(State::exp_entries_live);
            let s2 = final(self).sessions@.last();
            assert(final(self).sessions@ =~= old_ss.push(s2));
            assert(s2.tags@ == tv);
            assert forall|t: Seq<char>|
                rc(final(self).public_tags@, t) == pub_count(final(self).sessions@, t) by {
                assert(rc(final(self).public_tags@, t) == rc(old(self).public_tags@, t) + (
                if tv.contains(TagAuxV { name: t, public: true }) {
                    1int
                } else {
                    0int
                }));
                assert(rc(old(self).public_tags@, t) == pub_count(old_ss, t));
            }
            assert forall|j: int| #![trigger final(self).sessions@[j]]
                0 <= j < final(self).sessions@.len() implies exists|k: int|
                0 <= k < final(self).session_exp_view().len() && (#[trigger] final(self).session_exp_view()[k]).0 == final(self).sessions@[j].expires_at_us && final(self).session_exp_view()[k].1@ == final(self).sessions@[j].session_id@ by {
                if j < old_ss.len() {
                    let k = choose|k: int|
                        0 <= k < old(self).session_exp_view().len() && (#[trigger] old(self).session_exp_view()[k]).0 == old(self).sessions@[j].expires_at_us && old(self).session_exp_view()[k].1@ == old(self).sessions@[j].session_id@;
                    assert(final(self).session_exp_view()[k].0 == final(self).sessions@[j].expires_at_us);
                } else {
                    let k = final(self).session_exp_view().len() - 1;
                    assert(final(self).session_exp_view()[k].0 == final(self).sessions@[j].expires_at_us);
                }
            }
            assert forall|k: int, j: int|
                0 <= k < final(self).session_exp_view().len() && 0 <= j < final(self).sessions@.len() && (#[trigger] final(self).session_exp_view()[k]).1@ == (#[trigger] final(self).sessions@[j]).session_id@ implies final(self).session_exp_view()[k].0 == final(self).sessions@[j].expires_at_us by {
                if k < old(self).session_exp_view().len() && j < old_ss.len() {
                    assert(old(self).session_exp_view()[k].1@ == old(self).sessions@[j].session_id@);
                } else if k < old(self).session_exp_view().len() {
                    let j2 = choose|j2: int|
                        0 <= j2 < old_ss.len() && (#[trigger] old(self).session_exp_view()[k]).1@
                            == (#[trigger] old(self).sessions@[j2]).session_id@;
                    assert(old(self).has_session(final(self).sessions@[j].session_id@));
                    assert(false);
                } else {
                    if j < old_ss.len() {
                        assert(old(self).has_session(final(self).session_exp_view()[k].1@));
                        assert(false);
                    }
                }
            }
            assert forall|k: int|
                0 <= k < final(self).session_exp_view().len() implies exists|j: int|
                0 <= j < final(self).sessions@.len() && (#[trigger] final(self).session_exp_view()[k]).1@ == (#[trigger] final(self).sessions@[j]).session_id@ by {
                if k < old(self).session_exp_view().len() {
                    let j = choose|j: int|
                        0 <= j < old_ss.len() && (#[trigger] old(self).session_exp_view()[k]).1@
                            == (#[trigger] old(self).sessions@[j]).session_id@;
                    assert(final(self).session_exp_view()[k].1@ == final(self).sessions@[j].session_id@);
                } else {
                    let j = final(self).sessions@.len() - 1;
                    assert(final(self).session_exp_view()[k].1@ == final(self).sessions@[j].session_id@);
                }
            }
            assert(final(self).wf());
        }
    }

    /// Every live session comes from a still-live handled meta.
    #[verifier::opaque]
    pub open spec fn rp_live_sound(
        ss: Seq<Session>,
        metas0: Seq<SessionMeta>,
        done_from: int,
        now: int,
    ) -> bool {
        forall|j: int| #![trigger ss[j]]
            0 <= j < ss.len() ==> exists|m: int|
                done_from <= m < metas0.len() && (#[trigger] metas0[m]).expires_at_us > now
                    && Self::meta_matches(metas0[m], ss[j])
    }

    /// Every still-live handled meta is back as a session.
    #[verifier::opaque]
    pub open spec fn rp_live_complete(
        ss: Seq<Session>,
        metas0: Seq<SessionMeta>,
        done_from: int,
        now: int,
    ) -> bool {
        forall|m: int| #![trigger metas0[m]]
            done_from <= m < metas0.len() && metas0[m].expires_at_us > now ==> exists|j: int|
                0 <= j < ss.len() && Self::meta_matches(metas0[m], #[trigger] ss[j])
    }

    /// Every expired handled meta's id is listed for deletion.
    #[verifier::opaque]
    pub open spec fn rp_expired_complete(
        expired: Seq<SessionId>,
        metas0: Seq<SessionMeta>,
        done_from: int,
        now: int,
    ) -> bool {
        forall|m: int| #![trigger metas0[m]]
            done_from <= m < metas0.len() && metas0[m].expires_at_us <= now ==> exists|b: int|
                0 <= b < expired.len() && (#[trigger] expired[b])@ == metas0[m].session_id@
    }

    /// Every id listed for deletion names an expired handled meta.
    #[verifier::opaque]
    pub open spec fn rp_expired_sound(
        expired: Seq<SessionId>,
        metas0: Seq<SessionMeta>,
        done_from: int,
        now: int,
    ) -> bool {
        forall|b: int|
            0 <= b < expired.len() ==> exists|m: int|
                done_from <= m < metas0.len() && (#[trigger] metas0[m]).expires_at_us <= now
                    && metas0[m].session_id@ == (#[trigger] expired[b])@
    }

    /// The bookkeeping of a restore in progress: with the metas past
    /// `done_from` handled, the store holds exactly the live ones and the
    /// expired list exactly the rest.
    pub open spec fn restore_progress(
        ss: Seq<Session>,
        expired: Seq<SessionId>,
        metas0: Seq<SessionMeta>,
        done_from: int,
        now: int,
    ) -> bool {
        &&& Self::rp_live_sound(ss, metas0, done_from, now)
        &&& Self::rp_live_complete(ss, metas0, done_from, now)
        &&& Self::rp_expired_complete(expired, metas0, done_from, now)
        &&& Self::rp_expired_sound(expired, metas0, done_from, now)
    }

    proof fn lemma_ls_live(
        pre_ss: Seq<Session>,
        new_ss: Seq<Session>,
        metas0: Seq<SessionMeta>,
        ml: int,
        now: int,
    )
        requires
            Self::rp_live_sound(pre_ss, metas0, 0, now),
            1 <= ml <= metas0.len(),
            new_ss.len() == pre_ss.len() + 1,
            new_ss.drop_last() == pre_ss,
            Self::meta_matches(metas0[ml - 1], new_ss.last()),
            metas0[ml - 1].expires_at_us > now,
        ensures
            Self::rp_live_sound(new_ss, metas0, 0, now),
    {
        reveal(State::rp_live_sound);
        assert forall|j: int| #![trigger new_ss[j]]
            0 <= j < new_ss.len() implies exists|m: int|
            0 <= m < metas0.len() && (#[trigger] metas0[m]).expires_at_us > now
                && Self::meta_matches(metas0[m], new_ss[j]) by {
            if j < pre_ss.len() {
                assert(new_ss[j] == pre_ss[j]);
                let m = choose|m: int|
                    0 <= m < metas0.len() && (#[trigger] metas0[m]).expires_at_us > now
                        && Self::meta_matches(metas0[m], pre_ss[j]);
                assert(Self::meta_matches(metas0[m], new_ss[j]));
            } else {
                assert(Self::meta_matches(metas0[ml - 1], new_ss[j]));
            }
        }
    }

    proof fn lemma_lc_live(
        pre_ss: Seq<Session>,
        new_ss: Seq<Session>,
        metas0: Seq<SessionMeta>,
        ml: int,
        now: int,
    )
        requires
            Self::rp_live_complete(pre_ss, metas0, ml, now),
            1 <= ml <= metas0.len(),
            new_ss.len() == pre_ss.len() + 1,
            new_ss.drop_last() == pre_ss,
            Self::meta_matches(metas0[ml - 1], new_ss.last()),
        ensures
            Self::rp_live_complete(new_ss, metas0, ml - 1, now),
    {
        reveal(State::rp_live_complete);
        assert forall|m: int| #![trigger metas0[m]]
            ml - 1 <= m < metas0.len() && metas0[m].expires_at_us > now implies exists|j: int|
            0 <= j < new_ss.len() && Self::meta_matches(metas0[m], #[trigger] new_ss[j]) by {
            if m == ml - 1 {
                let j = new_ss.len() - 1;
                assert(Self::meta_matches(metas0[m], new_ss[j]));
            } else {
                let j = choose|j: int|
                    0 <= j < pre_ss.len() && Self::meta_matches(metas0[m], #[trigger] pre_ss[j]);
                assert(Self::meta_matches(metas0[m], new_ss[j]));
            }
        }
    }

    proof fn lemma_ec_live(expired: Seq<SessionId>, metas0: Seq<SessionMeta>, ml: int, now: int)
        requires
            Self::rp_expired_complete(expired, metas0, ml, now),
            1 <= ml <= metas0.len(),
            metas0[ml - 1].expires_at_us > now,
        ensures
            Self::rp_expired_complete(expired, metas0, ml - 1, now),
    {
        reveal(State::rp_expired_complete);
        assert forall|m: int| #![trigger metas0[m]]
            ml - 1 <= m < metas0.len() && metas0[m].expires_at_us <= now implies exists|b: int|
            0 <= b < expired.len() && (#[trigger] expired[b])@ == metas0[m].session_id@ by {
            assert(m != ml - 1);
            let b = choose|b: int|
                0 <= b < expired.len() && (#[trigger] expired[b])@ == metas0[m].session_id@;
            assert(expired[b]@ == metas0[m].session_id@);
        }
    }

    proof fn lemma_lc_expired(ss: Seq<Session>, metas0: Seq<SessionMeta>, ml: int, now: int)
        requires
            Self::rp_live_complete(ss, metas0, ml, now),
            1 <= ml <= metas0.len(),
            metas0[ml - 1].expires_at_us <= now,
        ensures
            Self::rp_live_complete(ss, metas0, ml - 1, now),
    {
        reveal(State::rp_live_complete);
        assert forall|m: int| #![trigger metas0[m]]
            ml - 1 <= m < metas0.len() && metas0[m].expires_at_us > now implies exists|j: int|
            0 <= j < ss.len() && Self::meta_matches(metas0[m], #[trigger] ss[j]) by {
            assert(m != ml - 1);
            let j = choose|j: int|
                0 <= j < ss.len() && Self::meta_matches(metas0[m], #[trigger] ss[j]);
            assert(Self::meta_matches(metas0[m], ss[j]));
        }
    }

    proof fn lemma_ec_expired(
        epre: Seq<SessionId>,
        new_expired: Seq<SessionId>,
        metas0: Seq<SessionMeta>,
        ml: int,
        now: int,
    )
        requires
            Self::rp_expired_complete(epre, metas0, ml, now),
            1 <= ml <= metas0.len(),
            new_expired.len() == epre.len() + 1,
            new_expired.drop_last() == epre,
            new_expired.last()@ == metas0[ml - 1].session_id@,
            metas0[ml - 1].expires_at_us <= now,
        ensures
            Self::rp_expired_complete(new_expired, metas0, ml - 1, now),
    {
        reveal(State::rp_expired_complete);
        let elen = epre.len() as int;
        assert forall|m: int| #![trigger metas0[m]]
            ml - 1 <= m < metas0.len() && metas0[m].expires_at_us <= now implies exists|b: int|
            0 <= b < new_expired.len() && (#[trigger] new_expired[b])@ == metas0[m].session_id@ by {
            if m == ml - 1 {
                assert(new_expired[elen]@ == metas0[m].session_id@);
            } else {
                let b = choose|b: int|
                    0 <= b < epre.len() && (#[trigger] epre[b])@ == metas0[m].session_id@;
                assert(new_expired[b] == epre[b]);
                assert(new_expired[b]@ == metas0[m].session_id@);
            }
        }
    }

    proof fn lemma_es_expired(
        epre: Seq<SessionId>,
        new_expired: Seq<SessionId>,
        metas0: Seq<SessionMeta>,
        ml: int,
        now: int,
    )
        requires
            Self::rp_expired_sound(epre, metas0, 0, now),
            1 <= ml <= metas0.len(),
            new_expired.len() == epre.len() + 1,
            new_expired.drop_last() == epre,
            new_expired.last()@ == metas0[ml - 1].session_id@,
            metas0[ml - 1].expires_at_us <= now,
        ensures
            Self::rp_expired_sound(new_expired, metas0, 0, now),
    {
        reveal(State::rp_expired_sound);
        let elen = epre.len() as int;
        assert forall|b: int|
            0 <= b < new_expired.len() implies exists|m: int|
            0 <= m < metas0.len() && (#[trigger] metas0[m]).expires_at_us <= now
                && metas0[m].session_id@ == (#[trigger] new_expired[b])@ by {
            if b < elen {
                assert(new_expired[b] == epre[b]);
                let m = choose|m: int|
                    0 <= m < metas0.len() && (#[trigger] metas0[m]).expires_at_us <= now
                        && metas0[m].session_id@ == (#[trigger] epre[b])@;
                assert(metas0[m].session_id@ == new_expired[b]@);
            } else {
                assert(metas0[ml - 1].expires_at_us <= now);
                assert(metas0[ml - 1].session_id@ == new_expired[b]@);
                assert(0 <= ml - 1 < metas0.len());
            }
        }
    }

    /// Load the persisted sessions into a fresh store: each one still
    /// ahead of its expiry reappears with identical metadata and an empty
    /// ring; every other one comes back as an id to delete from
    /// persistence, and nothing else does.  The fetch counter moves past
    /// every loaded id.
    #[verifier::rlimit(100)]
    #[verifier::spinoff_prover]
    pub fn restore_sessions(&mut self, metas: Vec<SessionMeta>, now_us: i64) -> (r: Vec<SessionId>)
        requires
            old(self).wf(),
            old(self).sessions_view().len() == 0,
            old(self).session_exp_view().len() == 0,
            old(self).data_exp_view().len() == 0,
            old(self).tag_index_view().len() == 0,
            metas@.len() + 2 < usize::MAX,
            forall|a: int, b: int|
                0 <= a < b < metas@.len() ==> (#[trigger] metas@[a]).session_id@ != (
                #[trigger] metas@[b]).session_id@,
            forall|a: int, b: int|
                0 <= a < b < metas@.len() ==> (#[trigger] metas@[a]).fetch_id.0 != (
                #[trigger] metas@[b]).fetch_id.0,
            forall|a: int|
                0 <= a < metas@.len() ==> (#[trigger] metas@[a]).fetch_id.0 < u32::MAX,
            forall|a: int|
                0 <= a < metas@.len() ==> match (#[trigger] metas@[a]).max_point_age_us {
                    Some(x) => x >= 0,
                    None => true,
                },
        ensures
            final(self).wf(),
            final(self).sessions_view().len() <= metas@.len(),
            Self::restore_progress(
                final(self).sessions_view(),
                r@,
                metas@,
                0,
                now_us as int,
            ),
    {
        let ghost metas0 = metas@;
        let mut metas = metas;
        let mut expired: Vec<SessionId> = Vec::new();
        proof {
            reveal(State::exp_entries_live);
            assert(metas0.subrange(0, metas0.len() as int) =~= metas0);
            assert(Self::rp_live_sound(self.sessions@, metas0, 0, now_us as int)
                && Self::rp_expired_sound(expired@, metas0, 0, now_us as int)
                && Self::rp_live_complete(
                self.sessions@,
                metas0,
                metas@.len() as int,
                now_us as int,
            ) && Self::rp_expired_complete(expired@, metas0, metas@.len() as int, now_us as int))
                by {
                reveal(State::rp_live_sound);
                reveal(State::rp_live_complete);
                reveal(State::rp_expired_complete);
                reveal(State::rp_expired_sound);
            }
        }
        loop
            invariant
                self.wf(),
                self.exp_entries_live(),
                metas@ == metas0.subrange(0, metas@.len() as int),
                metas@.len() <= metas0.len(),
                metas0.len() + 2 < usize::MAX,
                self.sessions@.len() + metas@.len() <= metas0.len(),
                self.data_exp_view().len() == 0,
                forall|a: int, b: int|
                    0 <= a < b < metas0.len() ==> (#[trigger] metas0[a]).session_id@ != (
                    #[trigger] metas0[b]).session_id@,
                forall|a: int, b: int|
                    0 <= a < b < metas0.len() ==> (#[trigger] metas0[a]).fetch_id.0 != (
                    #[trigger] metas0[b]).fetch_id.0,
                forall|a: int|
                    0 <= a < metas0.len() ==> (#[trigger] metas0[a]).fetch_id.0 < u32::MAX,
                forall|a: int|
                    0 <= a < metas0.len() ==> match (#[trigger] metas0[a]).max_point_age_us {
                        Some(x) => x >= 0,
                        None => true,
                    },
                forall|j: int| #![trigger self.sessions@[j]]
                    0 <= j < self.sessions@.len() ==> (exists|m2: int|
                        metas@.len() <= m2 < metas0.len() && (#[trigger] metas0[m2]).session_id@
                            == self.sessions@[j].session_id@),
                forall|j: int| #![trigger self.sessions@[j]]
                    0 <= j < self.sessions@.len() ==> (exists|m2: int|
                        metas@.len() <= m2 < metas0.len() && (#[trigger] metas0[m2]).fetch_id.0
                            == self.sessions@[j].fetch_id.0),
                Self::rp_live_sound(self.sessions@, metas0, 0, now_us as int),
                Self::rp_expired_sound(expired@, metas0, 0, now_us as int),
                Self::rp_live_complete(self.sessions@, metas0, metas@.len() as int, now_us as int),
                Self::rp_expired_complete(expired@, metas0, metas@.len() as int, now_us as int),
            ensures
                metas@.len() == 0,
                self.wf(),
                self.sessions@.len() <= metas0.len(),
                Self::rp_live_sound(self.sessions@, metas0, 0, now_us as int),
                Self::rp_expired_sound(expired@, metas0, 0, now_us as int),
                Self::rp_live_complete(self.sessions@, metas0, 0, now_us as int),
                Self::rp_expired_complete(expired@, metas0, 0, now_us as int),
            decreases metas@.len(),
        {
            let ml = metas.len();
            if ml == 0 {
                break;
            }
            proof {
                assert(metas@[ml - 1] == metas0[ml - 1]);
            }
            let m = metas.pop().unwrap();
            let ghost mv = metas0[ml - 1];
            proof {
                assert(metas@ =~= metas0.subrange(0, metas@.len() as int));
            }
            if m.expires_at_us > now_us {
                proof {
                    if self.has_session(m.session_id@) {
                        let j = choose|j: int|
                            0 <= j < self.sessions@.len() && (#[trigger] self.sessions@[j]).session_id@
                                == m.session_id@;
                        let m2 = choose|m2: int|
                            metas@.len() + 1 <= m2 < metas0.len() && (
                            #[trigger] metas0[m2]).session_id@ == self.sessions@[j].session_id@;
                        assert(metas0[m2].session_id@ == metas0[ml - 1].session_id@);
                        assert(false);
                    }
                    assert forall|j: int|
                        0 <= j < self.sessions@.len() implies (#[trigger] self.sessions@[j]).fetch_id.0
                        != m.fetch_id.0 by {
                        let m2 = choose|m2: int|
                            metas@.len() + 1 <= m2 < metas0.len() && (
                            #[trigger] metas0[m2]).fetch_id.0 == self.sessions@[j].fetch_id.0;
                        assert(metas0[m2].fetch_id.0 != metas0[ml - 1].fetch_id.0);
                    }
                }
                let ghost pre_ss = self.sessions@;
                self.restore_one(m);
                proof {
                    assert(self.sessions@.drop_last() =~= pre_ss);
                    assert forall|j: int| #![trigger self.sessions@[j]]
                        0 <= j < self.sessions@.len() implies (exists|m2: int|
                        metas@.len() <= m2 < metas0.len() && (#[trigger] metas0[m2]).session_id@
                            == self.sessions@[j].session_id@) && (exists|m2: int|
                        metas@.len() <= m2 < metas0.len() && (#[trigger] metas0[m2]).fetch_id.0
                            == self.sessions@[j].fetch_id.0) by {
                        if j < pre_ss.len() {
                            assert(self.sessions@[j] == pre_ss[j]);
                            let m2 = choose|m2: int|
                                ml <= m2 < metas0.len() && (#[trigger] metas0[m2]).session_id@
                                    == pre_ss[j].session_id@;
                            assert(metas@.len() <= m2);
                            let m3 = choose|m3: int|
                                ml <= m3 < metas0.len() && (#[trigger] metas0[m3]).fetch_id.0
                                    == pre_ss[j].fetch_id.0;
                            assert(metas@.len() <= m3);
                        } else {
                            reveal(State::meta_matches);
                            assert(Self::meta_matches(mv, self.sessions@[j]));
                            assert(metas0[ml - 1].session_id@ == self.sessions@[j].session_id@);
                            assert(metas0[ml - 1].fetch_id.0 == self.sessions@[j].fetch_id.0);
                            assert(metas@.len() <= ml - 1 < metas0.len());
                        }
                    }
                    Self::lemma_ls_live(pre_ss, self.sessions@, metas0, ml as int, now_us as int);
                    Self::lemma_lc_live(pre_ss, self.sessions@, metas0, ml as int, now_us as int);
                    Self::lemma_ec_live(expired@, metas0, ml as int, now_us as int);
                }
            } else {
                let ghost elen = expired@.len();
                let ghost epre = expired@;
                expired.push(m.session_id);
                proof {
                    assert(expired@.drop_last() =~= epre);
                    assert(expired@[elen as int]@ == metas0[ml - 1].session_id@);
                    assert forall|j: int| #![trigger self.sessions@[j]]
                        0 <= j < self.sessions@.len() implies (exists|m2: int|
                        metas@.len() <= m2 < metas0.len() && (#[trigger] metas0[m2]).session_id@
                            == self.sessions@[j].session_id@) && (exists|m2: int|
                        metas@.len() <= m2 < metas0.len() && (#[trigger] metas0[m2]).fetch_id.0
                            == self.sessions@[j].fetch_id.0) by {
                        let m2 = choose|m2: int|
                            ml <= m2 < metas0.len() && (#[trigger] metas0[m2]).session_id@
                                == self.sessions@[j].session_id@;
                        assert(metas@.len() <= m2);
                        let m3 = choose|m3: int|
                            ml <= m3 < metas0.len() && (#[trigger] metas0[m3]).fetch_id.0
                                == self.sessions@[j].fetch_id.0;
                        assert(metas@.len() <= m3);
                    }
                    Self::lemma_lc_expired(self.sessions@, metas0, ml as int, now_us as int);
                    Self::lemma_ec_expired(epre, expired@, metas0, ml as int, now_us as int);
                    Self::lemma_es_expired(epre, expired@, metas0, ml as int, now_us as int);
                }
            }
        }
        proof {
            assert(metas0.subrange(0, 0) =~= Seq::<SessionMeta>::empty());
            assert(Self::restore_progress(
                self.sessions@,
                expired@,
                metas0,
                0,
                now_us as int,
            ));
        }
        expired
    }

    /// The tag names a session carries, public or private.
    pub open spec fn session_tag_names(s: Session) -> Set<Seq<char>> {
        s.tags@.map(|t: TagAuxV| t.name)
    }

    /// The fetch descriptors a fresh subscriber is shown: one per session
    /// sharing a tag with the filter, its tags cut down to the shared
    /// ones.
    pub open spec fn snap_fetches(ss: Seq<Session>, filter: Set<Seq<char>>) -> Seq<
        (FetchId, crate::updates::FetchV),
    >
        decreases ss.len(),
    {
        if ss.len() == 0 {
            Seq::empty()
        } else {
            let rest = Self::snap_fetches(ss.drop_last(), filter);
            let s = ss.last();
            let shared = Self::session_tag_names(s).intersect(filter);
            if shared != Set::<Seq<char>>::empty() {
                rest + seq![
                    (
                        s.fetch_id,
                        crate::updates::FetchV {
                            tags: shared,
                            max_points: s.max_points as int,
                            max_point_age_us: match s.max_point_age_us {
                                Some(a) => Some(a as int),
                                None => None,
                            },
                            name: match s.name {
                                Some(ref n) => Some(n@),
                                None => None,
                            },
                        },
                    ),
                ]
            } else {
                rest
            }
        }
    }

    /// The point rings a fresh subscriber is shown: those of the same
    /// sessions, in insertion order.
    pub open spec fn snap_points(ss: Seq<Session>, filter: Set<Seq<char>>) -> Seq<
        (FetchId, Seq<Location>),
    >
        decreases ss.len(),
    {
        if ss.len() == 0 {
            Seq::empty()
        } else {
            let rest = Self::snap_points(ss.drop_last(), filter);
            let s = ss.last();
            let shared = Self::session_tag_names(s).intersect(filter);
            if shared != Set::<Seq<char>>::empty() {
                rest + seq![(s.fetch_id, s.locations@)]
            } else {
                rest
            }
        }
    }

    /// The initial snapshot for a new subscriber: a `Reset`, the fetch
    /// descriptors of the sessions sharing a tag with the filter, and
    /// those sessions' point rings, with the public-tag universe.
    #[verifier::rlimit(100)]
    pub fn initial_update(&self, filter: &Tags, now_us: i64) -> (r: (UpdateContext, Update))
        requires
            self.wf(),
        ensures
            r.0@.tags == filter@,
            r.0@.is_heartbeat == false,
            r.1@.meta == (UpdateMeta { server_time: TimeUsec(now_us), interval: 0 }),
            r.1@.changes == seq![
                crate::updates::UpdateChangeV::Reset,
                crate::updates::UpdateChangeV::AddFetch {
                    fetches: Self::snap_fetches(self.sessions@, filter@),
                    public: Set::new(|t: Seq<char>| pub_count(self.sessions@, t) > 0),
                },
                crate::updates::UpdateChangeV::Add {
                    points: Self::snap_points(self.sessions@, filter@),
                },
            ],
    {
        let n = self.sessions.len();
        let ghost ss = self.sessions@;
        let mut fetches: Vec<(FetchId, Fetch)> = Vec::new();
        let mut points: Vec<(FetchId, Vec<Location>)> = Vec::new();
        let mut i: usize = 0;
        while i < n
            invariant
                0 <= i <= n,
                n == ss.len(),
                ss == self.sessions@,
                fetches@.map_values(|e: (FetchId, Fetch)| (e.0, e.1@)) == Self::snap_fetches(
                    ss.subrange(0, i as int),
                    filter@,
                ),
                points@.map_values(|e: (FetchId, Vec<Location>)| (e.0, e.1@)) == Self::snap_points(
                    ss.subrange(0, i as int),
                    filter@,
                ),
            decreases n - i,
        {
            proof {
                assert(ss.subrange(0, i + 1).drop_last() =~= ss.subrange(0, i as int));
                assert(ss.subrange(0, i + 1).last() == ss[i as int]);
            }
            let sess = &self.sessions[i];
            let shared = sess.tags.as_tags().intersect(filter);
            if !shared.is_empty() {
                let fetch = Fetch {
                    tags: shared,
                    max_points: sess.max_points,
                    max_point_age_us: sess.max_point_age_us,
                    name: match &sess.name {
                        Some(nm) => Some(nm.clone()),
                        None => None,
                    },
                };
                fetches.push((sess.fetch_id, fetch));
                let mut locs: Vec<Location> = Vec::new();
                let lm = sess.locations.len();
                let mut k: usize = 0;
                while k < lm
                    invariant
                        0 <= k <= lm,
                        lm == sess.locations@.len(),
                        locs@ == sess.locations@.subrange(0, k as int),
                    decreases lm - k,
                {
                    locs.push(sess.locations[k]);
                    proof {
                        assert(locs@ =~= sess.locations@.subrange(0, k + 1));
                    }
                    k = k + 1;
                }
                proof {
                    assert(locs@ =~= sess.locations@);
                }
                points.push((sess.fetch_id, locs));
                proof {
                    assert(fetches@.map_values(|e: (FetchId, Fetch)| (e.0, e.1@))
                        =~= Self::snap_fetches(ss.subrange(0, i + 1), filter@));
                    assert(points@.map_values(|e: (FetchId, Vec<Location>)| (e.0, e.1@))
                        =~= Self::snap_points(ss.subrange(0, i + 1), filter@));
                }
            } else {
                proof {
                    assert(fetches@.map_values(|e: (FetchId, Fetch)| (e.0, e.1@))
                        =~= Self::snap_fetches(ss.subrange(0, i + 1), filter@));
                    assert(points@.map_values(|e: (FetchId, Vec<Location>)| (e.0, e.1@))
                        =~= Self::snap_points(ss.subrange(0, i + 1), filter@));
                }
            }
            i = i + 1;
        }
        proof {
            assert(ss.subrange(0, n as int) =~= ss);
        }
        let public = self.public_tags();
        let mut changes: Vec<UpdateChange> = Vec::new();
        changes.push(UpdateChange::Reset);
        changes.push(UpdateChange::AddFetch { fetches, public });
        changes.push(UpdateChange::Add { points });
        proof {
            assert(changes@.map_values(|c: UpdateChange| c@) =~= seq![
                crate::updates::UpdateChangeV::Reset,
                crate::updates::UpdateChangeV::AddFetch {
                    fetches: Self::snap_fetches(self.sessions@, filter@),
                    public: Set::new(|t: Seq<char>| pub_count(self.sessions@, t) > 0),
                },
                crate::updates::UpdateChangeV::Add {
                    points: Self::snap_points(self.sessions@, filter@),
                },
            ]);
        }
        let update = Update {
            meta: UpdateMeta { server_time: TimeUsec(now_us), interval: 0 },
            changes,
        };
        let context = UpdateContext { tags: filter.clone_tags(), is_heartbeat: false };
        (context, update)
    }

    /// The tags currently advertised publicly: those carried publicly by
    /// at least one live session.
    pub fn public_tags(&self) -> (r: Tags)
        requires
            self.wf(),
        ensures
            r@ == Set::new(|t: Seq<char>| pub_count(self.sessions_view(), t) > 0),
    {
        let n = self.public_tags.len();
        let ghost pt = self.public_tags@;
        let mut r = Tags::new();
        let mut i: usize = 0;
        while i < n
            invariant
                0 <= i <= n,
                n == pt.len(),
                pt == self.public_tags@,
                self.wf(),
                r@ == pt.subrange(0, i as int).map_values(|e: (Tag, u64)| e.0@).to_set(),
            decreases n - i,
        {
            r.insert(self.public_tags[i].0.clone());
            proof {
                let f = |e: (Tag, u64)| e.0@;
                assert(pt.subrange(0, i + 1) =~= pt.subrange(0, i as int).push(pt[i as int]));
                assert(pt.subrange(0, i + 1).map_values(f) =~= pt.subrange(0, i as int).map_values(
                    f,
                ).push(f(pt[i as int])));
                pt.subrange(0, i as int).map_values(f).lemma_push_to_set_commute(f(pt[i as int]));
            }
            i = i + 1;
        }
        proof {
            assert(pt.subrange(0, n as int) =~= pt);
            let keys = pt.map_values(|e: (Tag, u64)| e.0@).to_set();
            let target = Set::new(|t: Seq<char>| pub_count(self.sessions_view(), t) > 0);
            assert forall|t: Seq<char>| keys.contains(t) implies target.contains(t) by {
                let names = pt.map_values(|e: (Tag, u64)| e.0@);
                let k = choose|k: int| 0 <= k < names.len() && #[trigger] names[k] == t;
                assert(self.tag_index_view()[k].1 > 0);
                lemma_rc_entry_pos(pt, k);
            }
            assert forall|t: Seq<char>| target.contains(t) implies keys.contains(t) by {
                lemma_rc_pos_entry(pt, t);
                let k = choose|k: int| 0 <= k < pt.len() && (#[trigger] pt[k]).0@ == t;
                assert(pt.map_values(|e: (Tag, u64)| e.0@)[k] == t);
            }
            assert(r@ =~= target);
        }
        r
    }
}

} // verus!
