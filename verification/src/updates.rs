//! Updates on the broadcast channel and the per-subscriber filter.
//!
//! Every mutation of the store emits an `Update` wrapped in an
//! `UpdateContext` that carries the source session's full tag set, so a
//! subscriber can filter without the store: a change is kept only when the
//! context's tags meet the subscriber's, and `AddFetch` entries are
//! rewritten to the shared tags.

use vstd::prelude::*;

use crate::tags::{Tag, Tags};

verus! {

/// The dense numeric handle subscribers use to correlate points with a
/// session.
#[derive(Debug, Clone, Copy, PartialEq, Eq, Structural, Hash, Default)]
pub struct FetchId(pub u32);

/// An instant in microseconds since the Unix epoch.
#[derive(Debug, Clone, Copy, PartialEq, Eq, Structural)]
pub struct TimeUsec(pub i64);

impl TimeUsec {
    /// The instant as microseconds since the epoch.
    pub fn micros(&self) -> (r: i64)
        ensures
            r == self.0,
    {
        self.0
    }
}

/// One location point.  Coordinates are micro-degrees, accuracy
/// millimetres, speed millimetres a second, the timestamp client-supplied
/// microseconds since the epoch and not trusted for ordering.
#[derive(Debug, Clone, Copy, PartialEq, Eq, Structural)]
pub struct Location {
    pub lat: i64,
    pub lon: i64,
    pub acc: Option<i64>,
    pub spd: Option<i64>,
    pub provider: u64,
    pub time_us: i64,
}

/// The view of a `Fetch`.
pub ghost struct FetchV {
    pub tags: Set<Seq<char>>,
    pub max_points: int,
    pub max_point_age_us: Option<int>,
    pub name: Option<Seq<char>>,
}

/// The per-session descriptor carried by an `AddFetch` change; its tags
/// are cut down to the subscriber's before delivery.
#[derive(Debug)]
pub struct Fetch {
    pub tags: Tags,
    pub max_points: usize,
    pub max_point_age_us: Option<i64>,
    pub name: Option<String>,
}

impl View for Fetch {
    type V = FetchV;

    open spec fn view(&self) -> FetchV {
        FetchV {
            tags: self.tags@,
            max_points: self.max_points as int,
            max_point_age_us: match self.max_point_age_us {
                Some(a) => Some(a as int),
                None => None,
            },
            name: match self.name {
                Some(ref n) => Some(n@),
                None => None,
            },
        }
    }
}

/// The view of an `UpdateChange`.
pub ghost enum UpdateChangeV {
    Reset,
    AddFetch { fetches: Seq<(FetchId, FetchV)>, public: Set<Seq<char>> },
    Add { points: Seq<(FetchId, Seq<Location>)> },
    ExpireFetch { fetch_id: FetchId },
}

/// One change of client state.
#[derive(Debug)]
pub enum UpdateChange {
    /// Drop all client state.
    Reset,
    /// New or restated sessions, and the public tags they advertise.
    AddFetch { fetches: Vec<(FetchId, Fetch)>, public: Tags },
    /// Points appended to sessions.
    Add { points: Vec<(FetchId, Vec<Location>)> },
    /// A session is gone.
    ExpireFetch { fetch_id: FetchId },
}

impl View for UpdateChange {
    type V = UpdateChangeV;

    open spec fn view(&self) -> UpdateChangeV {
        match self {
            UpdateChange::Reset => UpdateChangeV::Reset,
            UpdateChange::AddFetch { fetches, public } => UpdateChangeV::AddFetch {
                fetches: fetches@.map_values(|e: (FetchId, Fetch)| (e.0, e.1@)),
                public: public@,
            },
            UpdateChange::Add { points } => UpdateChangeV::Add {
                points: points@.map_values(|e: (FetchId, Vec<Location>)| (e.0, e.1@)),
            },
            UpdateChange::ExpireFetch { fetch_id } => UpdateChangeV::ExpireFetch {
                fetch_id: *fetch_id,
            },
        }
    }
}

/// Server time and heartbeat interval stamped on an update.
#[derive(Debug, Clone, Copy, PartialEq, Eq, Structural)]
pub struct UpdateMeta {
    pub server_time: TimeUsec,
    pub interval: u64,
}

/// The view of an `Update`.
pub ghost struct UpdateV {
    pub meta: UpdateMeta,
    pub changes: Seq<UpdateChangeV>,
}

/// One message to subscribers: a meta stamp and a list of changes.
#[derive(Debug)]
pub struct Update {
    pub meta: UpdateMeta,
    pub changes: Vec<UpdateChange>,
}

impl View for Update {
    type V = UpdateV;

    open spec fn view(&self) -> UpdateV {
        UpdateV { meta: self.meta, changes: self.changes@.map_values(|c: UpdateChange| c@) }
    }
}

/// The view of an `UpdateContext`.
pub ghost struct UpdateContextV {
    pub tags: Set<Seq<char>>,
    pub is_heartbeat: bool,
}

/// What an update was emitted about: the source session's full tag set,
/// or a heartbeat.
#[derive(Debug)]
pub struct UpdateContext {
    pub tags: Tags,
    pub is_heartbeat: bool,
}

impl View for UpdateContext {
    type V = UpdateContextV;

    open spec fn view(&self) -> UpdateContextV {
        UpdateContextV { tags: self.tags@, is_heartbeat: self.is_heartbeat }
    }
}

/// What one fetch entry becomes under a filter: kept with the shared tags
/// when some tag is shared, dropped otherwise.
pub open spec fn filter_fetches_spec(
    s: Seq<(FetchId, FetchV)>,
    filter: Set<Seq<char>>,
) -> Seq<(FetchId, FetchV)>
    decreases s.len(),
{
    if s.len() == 0 {
        Seq::empty()
    } else {
        let rest = filter_fetches_spec(s.drop_last(), filter);
        let e = s.last();
        let shared = e.1.tags.intersect(filter);
        if shared != Set::<Seq<char>>::empty() {
            rest + seq![(e.0, FetchV { tags: shared, ..e.1 })]
        } else {
            rest
        }
    }
}

/// What one change becomes under a subscriber's filter, given the
/// update's context: an `AddFetch` keeps only the entries sharing a tag
/// and is dropped once none is left; an `Add` or `ExpireFetch` is dropped
/// whole when the source session's tags are disjoint from the filter.
pub open spec fn filter_change_spec(
    c: UpdateChangeV,
    filter: Set<Seq<char>>,
    ctx: UpdateContextV,
) -> Option<UpdateChangeV> {
    match c {
        UpdateChangeV::Reset => Some(c),
        UpdateChangeV::AddFetch { fetches, public } => {
            let kept = filter_fetches_spec(fetches, filter);
            if kept.len() > 0 {
                Some(UpdateChangeV::AddFetch { fetches: kept, public })
            } else {
                None
            }
        },
        UpdateChangeV::Add { points } => if ctx.tags.intersect(filter) != Set::<
            Seq<char>,
        >::empty() {
            Some(c)
        } else {
            None
        },
        UpdateChangeV::ExpireFetch { fetch_id } => if ctx.tags.intersect(filter) != Set::<
            Seq<char>,
        >::empty() {
            Some(c)
        } else {
            None
        },
    }
}

/// The changes that survive the filter, in order.
pub open spec fn filter_changes_spec(
    cs: Seq<UpdateChangeV>,
    filter: Set<Seq<char>>,
    ctx: UpdateContextV,
) -> Seq<UpdateChangeV>
    decreases cs.len(),
{
    if cs.len() == 0 {
        Seq::empty()
    } else {
        let rest = filter_changes_spec(cs.drop_last(), filter, ctx);
        match filter_change_spec(cs.last(), filter, ctx) {
            Option::Some(c) => rest + seq![c],
            Option::None => rest,
        }
    }
}

/// What a whole update becomes for one subscriber: its filtered changes,
/// or nothing when they are empty and the update is no heartbeat.
pub open spec fn filter_update_spec(
    u: UpdateV,
    filter: Set<Seq<char>>,
    ctx: UpdateContextV,
) -> Option<UpdateV> {
    let cs = filter_changes_spec(u.changes, filter, ctx);
    if cs.len() > 0 || ctx.is_heartbeat {
        Some(UpdateV { meta: u.meta, changes: cs })
    } else {
        None
    }
}

/// No change for a foreign session survives the filter: whatever a kept
/// change says of points or expiry, the source session's tags met the
/// subscriber's; and every fetch entry a subscriber sees shares a tag
/// with it, its tag set already cut down to the shared ones.
pub proof fn lemma_filter_respects_tags(
    c: UpdateChangeV,
    filter: Set<Seq<char>>,
    ctx: UpdateContextV,
)
    ensures
        filter_change_spec(c, filter, ctx) matches Some(k) ==> match k {
            UpdateChangeV::ExpireFetch { fetch_id } => ctx.tags.intersect(filter) != Set::<
                Seq<char>,
            >::empty(),
            UpdateChangeV::Add { points } => ctx.tags.intersect(filter) != Set::<
                Seq<char>,
            >::empty(),
            UpdateChangeV::AddFetch { fetches, public } => fetches.len() > 0 && forall|i: int|
                0 <= i < fetches.len() ==> (#[trigger] fetches[i]).1.tags != Set::<
                    Seq<char>,
                >::empty() && fetches[i].1.tags.subset_of(filter),
            UpdateChangeV::Reset => true,
        },
{
    match c {
        UpdateChangeV::AddFetch { fetches, public } => {
            lemma_filter_fetches_shared(fetches, filter);
        },
        _ => {},
    }
}

proof fn lemma_filter_fetches_shared(s: Seq<(FetchId, FetchV)>, filter: Set<Seq<char>>)
    ensures
        forall|i: int|
            0 <= i < filter_fetches_spec(s, filter).len() ==> (#[trigger] filter_fetches_spec(
                s,
                filter,
            )[i]).1.tags != Set::<Seq<char>>::empty() && filter_fetches_spec(
                s,
                filter,
            )[i].1.tags.subset_of(filter),
    decreases s.len(),
{
    if s.len() > 0 {
        lemma_filter_fetches_shared(s.drop_last(), filter);
        let e = s.last();
        let shared = e.1.tags.intersect(filter);
        if shared != Set::<Seq<char>>::empty() {
            assert(shared.subset_of(filter));
        }
    }
}

impl Update {
    /// Cut an update down to what one subscriber should see; `None` when
    /// nothing of it remains and it is no heartbeat.
    pub fn filter_map(self, filter_tags: &Tags, update_context: &UpdateContext) -> (r: Option<
        Update,
    >)
        ensures
            match filter_update_spec(self@, filter_tags@, update_context@) {
                Option::Some(u) => r matches Some(x) && x@ == u,
                Option::None => r is None,
            },
    {
        let ghost uv = self@;
        let ghost filter = filter_tags@;
        let ghost ctx = update_context@;
        let Update { meta, changes } = self;
        let n = changes.len();
        let mut out: Vec<UpdateChange> = Vec::new();
        let ghost cs_all = uv.changes;

        let mut i: usize = 0;
        // consume the changes front to back
        let mut rest = changes;
        let ghost mut seen: int = 0;
        // Iterating by index keeps the vector intact; each kept change is
        // rewritten and pushed.
        let rn = rest.len();
        while i < rn
            invariant
                0 <= i <= rn,
                rn == rest@.len(),
                cs_all == rest@.map_values(|c: UpdateChange| c@),
                filter == filter_tags@,
                ctx == update_context@,
                out@.map_values(|c: UpdateChange| c@) == filter_changes_spec(
                    cs_all.subrange(0, i as int),
                    filter,
                    ctx,
                ),
            decreases rn - i,
        {
            let ghost pre = cs_all.subrange(0, i as int);
            proof {
                assert(cs_all.subrange(0, i + 1).drop_last() =~= pre);
                assert(cs_all.subrange(0, i + 1).last() == cs_all[i as int]);
            }
            let c = &rest[i];
            match c {
                UpdateChange::Reset => {
                    out.push(UpdateChange::Reset);
                    proof {
                        assert(out@.map_values(|c: UpdateChange| c@) =~= filter_changes_spec(
                            pre,
                            filter,
                            ctx,
                        ) + seq![UpdateChangeV::Reset]);
                    }
                },
                UpdateChange::AddFetch { fetches, public } => {
                    let fm = fetches.len();
                    let mut kept: Vec<(FetchId, Fetch)> = Vec::new();
                    let ghost fv = fetches@.map_values(|e: (FetchId, Fetch)| (e.0, e.1@));
                    let mut j: usize = 0;
                    while j < fm
                        invariant
                            0 <= j <= fm,
                            fm == fetches@.len(),
                            fv == fetches@.map_values(|e: (FetchId, Fetch)| (e.0, e.1@)),
                            filter == filter_tags@,
                            kept@.map_values(|e: (FetchId, Fetch)| (e.0, e.1@))
                                == filter_fetches_spec(fv.subrange(0, j as int), filter),
                        decreases fm - j,
                    {
                        proof {
                            assert(fv.subrange(0, j + 1).drop_last() =~= fv.subrange(0, j as int));
                            assert(fv.subrange(0, j + 1).last() == fv[j as int]);
                        }
                        let entry = &fetches[j];
                        let shared = entry.1.tags.intersect(filter_tags);
                        if !shared.is_empty() {
                            let nf = Fetch {
                                tags: shared,
                                max_points: entry.1.max_points,
                                max_point_age_us: entry.1.max_point_age_us,
                                name: match &entry.1.name {
                                    Some(nm) => Some(nm.clone()),
                                    None => None,
                                },
                            };
                            kept.push((entry.0, nf));
                            proof {
                                assert(kept@.map_values(|e: (FetchId, Fetch)| (e.0, e.1@))
                                    =~= filter_fetches_spec(fv.subrange(0, j as int), filter)
                                    + seq![
                                    (
                                        fv[j as int].0,
                                        FetchV {
                                            tags: fv[j as int].1.tags.intersect(filter),
                                            ..fv[j as int].1
                                        },
                                    ),
                                ]);
                            }
                        }
                        j = j + 1;
                    }
                    proof {
                        assert(fv.subrange(0, fm as int) =~= fv);
                    }
                    if kept.len() > 0 {
                        let pub2 = public.clone_tags();
                        out.push(UpdateChange::AddFetch { fetches: kept, public: pub2 });
                        proof {
                            assert(out@.map_values(|c: UpdateChange| c@) =~= filter_changes_spec(
                                pre,
                                filter,
                                ctx,
                            ) + seq![
                                UpdateChangeV::AddFetch {
                                    fetches: filter_fetches_spec(fv, filter),
                                    public: public@,
                                },
                            ]);
                        }
                    }
                },
                UpdateChange::Add { points } => {
                    let shared = update_context.tags.intersect(filter_tags);
                    if !shared.is_empty() {
                        let pm = points.len();
                        let mut cp: Vec<(FetchId, Vec<Location>)> = Vec::new();
                        let ghost pv = points@.map_values(
                            |e: (FetchId, Vec<Location>)| (e.0, e.1@),
                        );
                        let mut j: usize = 0;
                        while j < pm
                            invariant
                                0 <= j <= pm,
                                pm == points@.len(),
                                pv == points@.map_values(
                                    |e: (FetchId, Vec<Location>)| (e.0, e.1@),
                                ),
                                cp@.map_values(|e: (FetchId, Vec<Location>)| (e.0, e.1@))
                                    == pv.subrange(0, j as int),
                            decreases pm - j,
                        {
                            let entry = &points[j];
                            let mut locs: Vec<Location> = Vec::new();
                            let lm = entry.1.len();
                            let mut k: usize = 0;
                            while k < lm
                                invariant
                                    0 <= k <= lm,
                                    lm == entry.1@.len(),
                                    locs@ == entry.1@.subrange(0, k as int),
                                decreases lm - k,
                            {
                                locs.push(entry.1[k]);
                                proof {
                                    assert(locs@ =~= entry.1@.subrange(0, k + 1));
                                }
                                k = k + 1;
                            }
                            proof {
                                assert(locs@ =~= entry.1@);
                                assert(pv[j as int] == (entry.0, entry.1@));
                            }
                            cp.push((entry.0, locs));
                            proof {
                                assert(pv.subrange(0, j + 1) =~= pv.subrange(0, j as int).push(
                                    pv[j as int],
                                ));
                                assert(cp@.map_values(|e: (FetchId, Vec<Location>)| (e.0, e.1@))
                                    =~= pv.subrange(0, j + 1));
                            }
                            j = j + 1;
                        }
                        proof {
                            assert(pv.subrange(0, pm as int) =~= pv);
                        }
                        out.push(UpdateChange::Add { points: cp });
                        proof {
                            assert(out@.map_values(|c: UpdateChange| c@) =~= filter_changes_spec(
                                pre,
                                filter,
                                ctx,
                            ) + seq![UpdateChangeV::Add { points: pv }]);
                        }
                    }
                },
                UpdateChange::ExpireFetch { fetch_id } => {
                    let shared = update_context.tags.intersect(filter_tags);
                    if !shared.is_empty() {
                        out.push(UpdateChange::ExpireFetch { fetch_id: *fetch_id });
                        proof {
                            assert(out@.map_values(|c: UpdateChange| c@) =~= filter_changes_spec(
                                pre,
                                filter,
                                ctx,
                            ) + seq![UpdateChangeV::ExpireFetch { fetch_id: *fetch_id }]);
                        }
                    }
                },
            }
            i = i + 1;
        }
        proof {
            assert(cs_all.subrange(0, rn as int) =~= cs_all);
        }
        if out.len() > 0 || update_context.is_heartbeat {
            Some(Update { meta, changes: out })
        } else {
            None
        }
    }
}

impl Tags {
    /// A copy of the set.
    pub fn clone_tags(&self) -> (r: Tags)
        ensures
            r@ == self@,
    {
        let items = self.as_vec();
        let n = items.len();
        let mut out = Tags::new();
        let ghost names = items@.map_values(|t: Tag| t@);
        let mut i: usize = 0;
        while i < n
            invariant
                0 <= i <= n,
                n == items@.len(),
                names == items@.map_values(|t: Tag| t@),
                out@ == names.subrange(0, i as int).to_set(),
            decreases n - i,
        {
            out.insert(items[i].clone());
            proof {
                assert(names.subrange(0, i + 1) =~= names.subrange(0, i as int).push(
                    names[i as int],
                ));
                names.subrange(0, i as int).lemma_push_to_set_commute(names[i as int]);
            }
            i = i + 1;
        }
        proof {
            assert(names.subrange(0, n as int) =~= names);
        }
        out
    }
}

/// The public tags announced by the `AddFetch` changes of an update.
pub open spec fn announced_public(cs: Seq<UpdateChangeV>) -> Set<Seq<char>>
    decreases cs.len(),
{
    if cs.len() == 0 {
        Set::empty()
    } else {
        announced_public(cs.drop_last()) + (match cs.last() {
            UpdateChangeV::AddFetch { fetches, public } => public,
            _ => Set::empty(),
        })
    }
}

/// Merge the public tags announced by an update into a subscriber's set,
/// as auto-subscription does.
pub fn update_subscribed_tags(update: &Update, subscribed_tags: &mut Tags)
    ensures
        final(subscribed_tags)@ == old(subscribed_tags)@ + announced_public(update@.changes),
{
    let n = update.changes.len();
    let ghost cs = update@.changes;
    let mut i: usize = 0;
    while i < n
        invariant
            0 <= i <= n,
            n == update.changes@.len(),
            cs == update@.changes,
            subscribed_tags@ == old(subscribed_tags)@ + announced_public(
                cs.subrange(0, i as int),
            ),
        decreases n - i,
    {
        proof {
            assert(cs.subrange(0, i + 1).drop_last() =~= cs.subrange(0, i as int));
            assert(cs.subrange(0, i + 1).last() == cs[i as int]);
        }
        match &update.changes[i] {
            UpdateChange::AddFetch { fetches, public } => {
                subscribed_tags.merge(public);
                proof {
                    assert(subscribed_tags@ =~= old(subscribed_tags)@ + announced_public(
                        cs.subrange(0, i + 1),
                    ));
                }
            },
            _ => {
                proof {
                    assert(subscribed_tags@ =~= old(subscribed_tags)@ + announced_public(
                        cs.subrange(0, i + 1),
                    ));
                }
            },
        }
        i = i + 1;
    }
    proof {
        assert(cs.subrange(0, n as int) =~= cs);
    }
}

/// The periodic liveness tick: an update with no changes, marked as a
/// heartbeat, carrying the configured interval.
pub fn heartbeat_update(now_us: i64, interval_s: u64) -> (r: (UpdateContext, Update))
    ensures
        r.0@.tags == Set::<Seq<char>>::empty(),
        r.0@.is_heartbeat,
        r.1@.changes == Seq::<UpdateChangeV>::empty(),
        r.1@.meta == (UpdateMeta { server_time: TimeUsec(now_us), interval: interval_s }),
{
    let context = UpdateContext { tags: Tags::new(), is_heartbeat: true };
    let update = Update {
        meta: UpdateMeta { server_time: TimeUsec(now_us), interval: interval_s },
        changes: Vec::new(),
    };
    proof {
        assert(update@.changes =~= Seq::<UpdateChangeV>::empty());
    }
    (context, update)
}

/// The view of an `UpdateChangeWithContext`.
pub ghost struct UpdateChangeWithContextV {
    pub change: UpdateChangeV,
    pub context: UpdateContextV,
}

/// A change paired with the context it was emitted under, so updates from
/// different sources can be merged.
#[derive(Debug)]
pub struct UpdateChangeWithContext {
    pub change: UpdateChange,
    pub context: UpdateContext,
}

impl View for UpdateChangeWithContext {
    type V = UpdateChangeWithContextV;

    open spec fn view(&self) -> UpdateChangeWithContextV {
        UpdateChangeWithContextV { change: self.change@, context: self.context@ }
    }
}

/// The view of an `UpdateWithContext`.
pub ghost struct UpdateWithContextV {
    pub meta: UpdateMeta,
    pub updates: Seq<UpdateChangeWithContextV>,
}

/// An update whose changes each carry their context.
#[derive(Debug)]
pub struct UpdateWithContext {
    pub meta: UpdateMeta,
    pub updates: Vec<UpdateChangeWithContext>,
}

impl View for UpdateWithContext {
    type V = UpdateWithContextV;

    open spec fn view(&self) -> UpdateWithContextV {
        UpdateWithContextV {
            meta: self.meta,
            updates: self.updates@.map_values(|u: UpdateChangeWithContext| u@),
        }
    }
}

impl UpdateWithContext {
    /// Append the other update's changes after this one's, keeping this
    /// meta stamp.
    pub fn ingest(&mut self, other: UpdateWithContext)
        ensures
            final(self)@.meta == old(self)@.meta,
            final(self)@.updates == old(self)@.updates + other@.updates,
    {
        let UpdateWithContext { meta: _, updates: mut other_updates } = other;
        let ghost ov = other_updates@.map_values(|u: UpdateChangeWithContext| u@);
        let mut mine: Vec<UpdateChangeWithContext> = Vec::new();
        core::mem::swap(&mut mine, &mut self.updates);
        mine.append(&mut other_updates);
        proof {
            assert(mine@.map_values(|u: UpdateChangeWithContext| u@) =~= old(self)@.updates + ov);
        }
        self.updates = mine;
    }
}

} // verus!
