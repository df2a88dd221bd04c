//! The per-subscriber pipeline: auto-subscription, filtering, and the
//! windowed coalescer.
//!
//! The coalescer is a pure stream transform: it merges events whose
//! server times fall within one window of the last flush base, and flushes
//! the merged update, stamped with the current time, when an event lands
//! outside the window.  Heartbeats carry no changes but drive flushes.

use vstd::prelude::*;

use crate::tags::Tags;
use crate::updates::{
    announced_public, filter_update_spec, update_subscribed_tags, TimeUsec, Update, UpdateChange,
    UpdateChangeWithContext, UpdateChangeWithContextV, UpdateContext, UpdateContextV, UpdateMeta,
    UpdateV, UpdateWithContext, UpdateWithContextV,
};

verus! {

/// The view of a `Coalescer`.
pub ghost struct CoalescerV {
    pub window_us: int,
    pub t_prev: Option<int>,
    pub accum: Option<UpdateWithContextV>,
}

/// The changes buffered in a possible update.
pub open spec fn updates_of(o: Option<UpdateWithContextV>) -> Seq<UpdateChangeWithContextV> {
    match o {
        Option::Some(a) => a.updates,
        Option::None => Seq::empty(),
    }
}

/// One step of the coalescer: merge an event inside the window, flush on
/// one outside it.  `t_prev` is the server time of the last flush base;
/// the flushed update is stamped `now`.
pub open spec fn coalesce_step(st: CoalescerV, ev: UpdateWithContextV, now: int) -> (
    CoalescerV,
    Option<UpdateWithContextV>,
) {
    let t = ev.meta.server_time.0 as int;
    if st.t_prev matches Some(tp) && t - tp < st.window_us {
        let merged = match st.accum {
            Option::Some(a) => UpdateWithContextV { meta: a.meta, updates: a.updates + ev.updates },
            Option::None => ev,
        };
        (CoalescerV { accum: Some(merged), ..st }, None)
    } else {
        let out = match st.accum {
            Option::Some(a) => Some(
                UpdateWithContextV {
                    meta: UpdateMeta { server_time: TimeUsec(now as i64), ..a.meta },
                    updates: a.updates,
                },
            ),
            Option::None => None,
        };
        (CoalescerV { t_prev: Some(t), accum: Some(ev), window_us: st.window_us }, out)
    }
}

/// A lag indication: flush whatever is buffered, stamped `now`, and start
/// over.
pub open spec fn lag_step(st: CoalescerV, now: int) -> (CoalescerV, Option<UpdateWithContextV>) {
    let out = match st.accum {
        Option::Some(a) => Some(
            UpdateWithContextV {
                meta: UpdateMeta { server_time: TimeUsec(now as i64), ..a.meta },
                updates: a.updates,
            },
        ),
        Option::None => None,
    };
    (CoalescerV { t_prev: None, accum: None, window_us: st.window_us }, out)
}

/// Merges bursts of updates into one per window.
#[derive(Debug)]
pub struct Coalescer {
    window_us: i64,
    t_prev: Option<i64>,
    accum: Option<UpdateWithContext>,
}

impl View for Coalescer {
    type V = CoalescerV;

    closed spec fn view(&self) -> CoalescerV {
        CoalescerV {
            window_us: self.window_us as int,
            t_prev: match self.t_prev {
                Some(t) => Some(t as int),
                None => None,
            },
            accum: match self.accum {
                Some(ref a) => Some(a@),
                None => None,
            },
        }
    }
}

impl Coalescer {
    /// A fresh coalescer over the given window.
    pub fn new(window_us: i64) -> (r: Coalescer)
        ensures
            r@ == (CoalescerV { window_us: window_us as int, t_prev: None, accum: None }),
    {
        Coalescer { window_us, t_prev: None, accum: None }
    }

    /// Take one event in; yield the flushed update when the event falls
    /// outside the window.
    pub fn on_event(&mut self, ev: UpdateWithContext, now_us: i64) -> (r: Option<
        UpdateWithContext,
    >)
        ensures
            final(self)@ == coalesce_step(old(self)@, ev@, now_us as int).0,
            match coalesce_step(old(self)@, ev@, now_us as int).1 {
                Option::Some(u) => r matches Some(x) && x@ == u,
                Option::None => r is None,
            },
    {
        let t = ev.meta.server_time.micros();
        let within = match self.t_prev {
            Some(tp) => (t as i128 - tp as i128) < self.window_us as i128,
            None => false,
        };
        if within {
            let mut accum: Option<UpdateWithContext> = None;
            core::mem::swap(&mut accum, &mut self.accum);
            match accum {
                Some(mut a) => {
                    a.ingest(ev);
                    self.accum = Some(a);
                },
                None => {
                    self.accum = Some(ev);
                },
            }
            None
        } else {
            let mut accum: Option<UpdateWithContext> = None;
            core::mem::swap(&mut accum, &mut self.accum);
            let out = match accum {
                Some(mut a) => {
                    a.meta.server_time = TimeUsec(now_us);
                    Some(a)
                },
                None => None,
            };
            self.t_prev = Some(t);
            self.accum = Some(ev);
            out
        }
    }

    /// The broadcast lagged: flush what is buffered and start over; the
    /// caller surfaces the lag to its client.
    pub fn on_lagged(&mut self, now_us: i64) -> (r: Option<UpdateWithContext>)
        ensures
            final(self)@ == lag_step(old(self)@, now_us as int).0,
            match lag_step(old(self)@, now_us as int).1 {
                Option::Some(u) => r matches Some(x) && x@ == u,
                Option::None => r is None,
            },
    {
        let mut accum: Option<UpdateWithContext> = None;
        core::mem::swap(&mut accum, &mut self.accum);
        self.t_prev = None;
        match accum {
            Some(mut a) => {
                a.meta.server_time = TimeUsec(now_us);
                Some(a)
            },
            None => None,
        }
    }
}

/// A whole run of the coalescer over timed events.
pub open spec fn coalesce_run(st: CoalescerV, evs: Seq<(UpdateWithContextV, int)>) -> (
    CoalescerV,
    Seq<UpdateWithContextV>,
)
    decreases evs.len(),
{
    if evs.len() == 0 {
        (st, Seq::empty())
    } else {
        let p = coalesce_run(st, evs.drop_last());
        let s2 = coalesce_step(p.0, evs.last().0, evs.last().1);
        (
            s2.0,
            p.1 + match s2.1 {
                Option::Some(u) => seq![u],
                Option::None => Seq::empty(),
            },
        )
    }
}

/// All changes carried by a sequence of outputs, in order.
pub open spec fn outputs_changes(os: Seq<UpdateWithContextV>) -> Seq<UpdateChangeWithContextV>
    decreases os.len(),
{
    if os.len() == 0 {
        Seq::empty()
    } else {
        outputs_changes(os.drop_last()) + os.last().updates
    }
}

/// All changes carried by a sequence of timed events, in order.
pub open spec fn events_changes(evs: Seq<(UpdateWithContextV, int)>) -> Seq<
    UpdateChangeWithContextV,
>
    decreases evs.len(),
{
    if evs.len() == 0 {
        Seq::empty()
    } else {
        events_changes(evs.drop_last()) + evs.last().0.updates
    }
}

/// The coalescer loses, duplicates and reorders nothing: over any run,
/// the changes of the flushed outputs followed by what is still buffered
/// are exactly what was buffered at the start followed by the changes of
/// the incoming events, in order.
pub proof fn lemma_coalescer_conserves(st: CoalescerV, evs: Seq<(UpdateWithContextV, int)>)
    ensures
        outputs_changes(coalesce_run(st, evs).1) + updates_of(coalesce_run(st, evs).0.accum)
            == updates_of(st.accum) + events_changes(evs),
    decreases evs.len(),
{
    if evs.len() == 0 {
        assert(outputs_changes(coalesce_run(st, evs).1) + updates_of(st.accum) =~= updates_of(
            st.accum,
        ) + events_changes(evs));
    } else {
        lemma_coalescer_conserves(st, evs.drop_last());
        let p = coalesce_run(st, evs.drop_last());
        let ev = evs.last().0;
        let s2 = coalesce_step(p.0, ev, evs.last().1);
        match s2.1 {
            Option::Some(u) => {
                assert(p.1.push(u).drop_last() =~= p.1);
                assert(coalesce_run(st, evs).1 =~= p.1.push(u));
                assert(outputs_changes(p.1.push(u)) == outputs_changes(p.1) + u.updates);
                assert(u.updates == updates_of(p.0.accum));
                assert(updates_of(coalesce_run(st, evs).0.accum) == ev.updates);
                assert(events_changes(evs) == events_changes(evs.drop_last()) + ev.updates);
                assert(outputs_changes(coalesce_run(st, evs).1) == outputs_changes(p.1)
                    + updates_of(p.0.accum));
                assert(outputs_changes(p.1) + updates_of(p.0.accum) == updates_of(st.accum)
                    + events_changes(evs.drop_last()));
                assert((updates_of(st.accum) + events_changes(evs.drop_last())) + ev.updates
                    =~= updates_of(st.accum) + (events_changes(evs.drop_last()) + ev.updates));
                assert(outputs_changes(coalesce_run(st, evs).1) + updates_of(
                    coalesce_run(st, evs).0.accum,
                ) == (updates_of(st.accum) + events_changes(evs.drop_last())) + ev.updates);
                assert(outputs_changes(coalesce_run(st, evs).1) + updates_of(
                    coalesce_run(st, evs).0.accum,
                ) == updates_of(st.accum) + events_changes(evs));
            },
            Option::None => {
                assert(coalesce_run(st, evs).1 =~= p.1);
                assert(outputs_changes(coalesce_run(st, evs).1) + updates_of(
                    coalesce_run(st, evs).0.accum,
                ) =~= updates_of(st.accum) + events_changes(evs));
            },
        }
    }
}

/// Flushed outputs carry the flush times: over a run whose flush times
/// never decrease, consecutive outputs' server times never decrease
/// either, and none exceeds the last flush time.
pub proof fn lemma_coalescer_monotone(st: CoalescerV, evs: Seq<(UpdateWithContextV, int)>)
    requires
        forall|i: int, j: int| 0 <= i < j < evs.len() ==> evs[i].1 <= evs[j].1,
        forall|i: int| 0 <= i < evs.len() ==> i64::MIN <= #[trigger] evs[i].1 <= i64::MAX,
    ensures
        forall|i: int, j: int|
            0 <= i < j < coalesce_run(st, evs).1.len() ==> coalesce_run(
                st,
                evs,
            ).1[i].meta.server_time.0 <= coalesce_run(st, evs).1[j].meta.server_time.0,
        evs.len() > 0 ==> forall|i: int|
            0 <= i < coalesce_run(st, evs).1.len() ==> coalesce_run(
                st,
                evs,
            ).1[i].meta.server_time.0 <= evs.last().1,
    decreases evs.len(),
{
    if evs.len() > 0 {
        lemma_coalescer_monotone(st, evs.drop_last());
        let p = coalesce_run(st, evs.drop_last());
        let s2 = coalesce_step(p.0, evs.last().0, evs.last().1);
        let outs = coalesce_run(st, evs).1;
        if evs.len() > 1 {
            assert(evs.drop_last().last() == evs[evs.len() - 2]);
            assert(evs[evs.len() - 2].1 <= evs.last().1);
        }
        match s2.1 {
            Option::Some(u) => {
                assert(outs =~= p.1.push(u));
                assert(u.meta.server_time.0 == evs.last().1 as i64);
            },
            Option::None => {
                assert(outs =~= p.1);
            },
        }
    }
}

/// The view of a `Subscriber`.
pub ghost struct SubscriberV {
    pub subscribed: Set<Seq<char>>,
    pub auto_subscribe: bool,
    pub coalescer: CoalescerV,
}

/// Pair every change of an update with one context.
pub open spec fn attach_context_spec(u: UpdateV, ctx: UpdateContextV) -> UpdateWithContextV {
    UpdateWithContextV {
        meta: u.meta,
        updates: u.changes.map_values(
            |c: crate::updates::UpdateChangeV| UpdateChangeWithContextV { change: c, context: ctx },
        ),
    }
}

/// What one live broadcast event does to a subscriber: grow the filter on
/// auto-subscription, filter the update, and rewrite the context to the
/// shared tags.  `None` when nothing of the update concerns this
/// subscriber.
pub open spec fn subscriber_filtered(
    subscribed: Set<Seq<char>>,
    auto: bool,
    ctx: UpdateContextV,
    u: UpdateV,
) -> (Set<Seq<char>>, Option<UpdateWithContextV>) {
    let tags2 = if auto {
        subscribed + announced_public(u.changes)
    } else {
        subscribed
    };
    let shared_ctx = UpdateContextV {
        tags: ctx.tags.intersect(tags2),
        is_heartbeat: ctx.is_heartbeat,
    };
    match filter_update_spec(u, tags2, ctx) {
        Option::Some(fu) => (tags2, Some(attach_context_spec(fu, shared_ctx))),
        Option::None => (tags2, None),
    }
}

/// One subscriber's state: its effective tag filter, whether new public
/// tags join it, and the coalescer.
#[derive(Debug)]
pub struct Subscriber {
    pub subscribed: Tags,
    pub auto_subscribe: bool,
    pub coalescer: Coalescer,
}

impl View for Subscriber {
    type V = SubscriberV;

    open spec fn view(&self) -> SubscriberV {
        SubscriberV {
            subscribed: self.subscribed@,
            auto_subscribe: self.auto_subscribe,
            coalescer: self.coalescer@,
        }
    }
}

impl Subscriber {
    /// A subscriber with the given filter; one made with no tags follows
    /// the public tags as they appear.
    pub fn new(subscribed: Tags, auto_subscribe: bool, window_us: i64) -> (r: Subscriber)
        ensures
            r@.subscribed == subscribed@,
            r@.auto_subscribe == auto_subscribe,
            r@.coalescer == (CoalescerV {
                window_us: window_us as int,
                t_prev: None,
                accum: None,
            }),
    {
        Subscriber { subscribed, auto_subscribe, coalescer: Coalescer::new(window_us) }
    }

    /// Take one live broadcast event through the filter and the
    /// coalescer; yield at most one update for the client.
    pub fn handle(&mut self, context: &UpdateContext, update: Update, now_us: i64) -> (r: Option<
        UpdateWithContext,
    >)
        ensures
            final(self)@.auto_subscribe == old(self)@.auto_subscribe,
            final(self)@.subscribed == subscriber_filtered(
                old(self)@.subscribed,
                old(self)@.auto_subscribe,
                context@,
                update@,
            ).0,
            match subscriber_filtered(
                old(self)@.subscribed,
                old(self)@.auto_subscribe,
                context@,
                update@,
            ).1 {
                Option::Some(ev) => {
                    &&& final(self)@.coalescer == coalesce_step(
                        old(self)@.coalescer,
                        ev,
                        now_us as int,
                    ).0
                    &&& match coalesce_step(old(self)@.coalescer, ev, now_us as int).1 {
                        Option::Some(u) => r matches Some(x) && x@ == u,
                        Option::None => r is None,
                    }
                },
                Option::None => final(self)@.coalescer == old(self)@.coalescer && r is None,
            },
    {
        let ghost uv = update@;
        if self.auto_subscribe {
            update_subscribed_tags(&update, &mut self.subscribed);
        }
        let shared = context.tags.intersect(&self.subscribed);
        let shared_ctx = UpdateContext { tags: shared, is_heartbeat: context.is_heartbeat };
        match update.filter_map(&self.subscribed, context) {
            Some(fu) => {
                let ev = attach_context(fu, shared_ctx);
                self.coalescer.on_event(ev, now_us)
            },
            None => None,
        }
    }
}

/// Pair every change of an update with the given context.
pub fn attach_context(update: Update, ctx: UpdateContext) -> (r: UpdateWithContext)
    ensures
        r@ == attach_context_spec(update@, ctx@),
{
    let ghost cs = update@.changes;
    let ghost cv = ctx@;
    let Update { meta, changes } = update;
    let n = changes.len();
    // Reverse the changes by popping, then pop again to restore order,
    // moving each change out without a clone.
    let mut rest = changes;
    let mut rev: Vec<UpdateChange> = Vec::new();
    proof {
        assert(cs.subrange(0, n as int) =~= cs);
    }
    loop
        invariant
            rest@.len() + rev@.len() == n,
            n == cs.len(),
            rest@.map_values(|c: UpdateChange| c@) == cs.subrange(0, rest@.len() as int),
            forall|k: int| 0 <= k < rev@.len() ==> (#[trigger] rev@[k])@ == cs[n - 1 - k],
        ensures
            rest@.len() == 0,
            rev@.len() == n,
            forall|k: int| 0 <= k < rev@.len() ==> (#[trigger] rev@[k])@ == cs[n - 1 - k],
        decreases rest@.len(),
    {
        let m = rest.len();
        if m == 0 {
            break;
        }
        proof {
            assert(rest@.map_values(|c: UpdateChange| c@)[m - 1] == cs[m - 1]);
            assert(rest@[m - 1]@ == cs[m - 1]);
        }
        let c = rest.pop().unwrap();
        rev.push(c);
        proof {
            assert(rest@.map_values(|c: UpdateChange| c@) =~= cs.subrange(0, rest@.len() as int));
        }
    }
    let mut updates: Vec<UpdateChangeWithContext> = Vec::new();
    loop
        invariant
            updates@.len() + rev@.len() == n,
            n == cs.len(),
            cv == ctx@,
            forall|k: int| 0 <= k < rev@.len() ==> (#[trigger] rev@[k])@ == cs[n - 1 - k],
            forall|k: int|
                0 <= k < updates@.len() ==> (#[trigger] updates@[k])@
                    == (UpdateChangeWithContextV { change: cs[k], context: cv }),
        ensures
            rev@.len() == 0,
            updates@.len() == n,
            forall|k: int|
                0 <= k < updates@.len() ==> (#[trigger] updates@[k])@
                    == (UpdateChangeWithContextV { change: cs[k], context: cv }),
        decreases rev@.len(),
    {
        let m = rev.len();
        if m == 0 {
            break;
        }
        proof {
            assert(rev@[m - 1]@ == cs[n - m as int]);
        }
        let c = rev.pop().unwrap();
        let c_ctx = UpdateContext { tags: ctx.tags.clone_tags(), is_heartbeat: ctx.is_heartbeat };
        updates.push(UpdateChangeWithContext { change: c, context: c_ctx });
    }
    proof {
        assert(forall|k: int|
            0 <= k < updates@.len() ==> updates@.map_values(|u: UpdateChangeWithContext| u@)[k]
                == (#[trigger] updates@[k])@);
        assert(updates@.map_values(|u: UpdateChangeWithContext| u@) =~= cs.map_values(
            |c: crate::updates::UpdateChangeV| UpdateChangeWithContextV {
                change: c,
                context: cv,
            },
        ));
    }
    UpdateWithContext { meta, updates }
}

} // verus!
