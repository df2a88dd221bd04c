use ducktracker::shareid::Options;
use ducktracker::state::{Error, SessionId, SessionMeta, State};
use ducktracker::subscriber::Coalescer;
use ducktracker::tags::{Tag, TagVisibility, Tags, TagsAux};
use ducktracker::updates::{
    FetchId, Location, TimeUsec, Update, UpdateChange, UpdateContext, UpdateMeta,
    UpdateChangeWithContext, UpdateWithContext,
};

fn fresh_state() -> State {
    State::new(
        vec![("user".to_string(), "pw".to_string())],
        Tag("duck".to_string()),
        3,
        3,
        None,
        100_000,
        None,
        100,
    )
}

fn point(time_us: i64) -> Location {
    Location { lat: 1, lon: 2, acc: None, spd: None, provider: 0, time_us }
}

fn tag_set(names: &[&str]) -> Tags {
    let mut t = Tags::new();
    for n in names {
        t.insert(Tag(n.to_string()));
    }
    t
}

fn make_update(changes: Vec<UpdateChange>, time_us: i64) -> Update {
    Update { meta: UpdateMeta { server_time: TimeUsec(time_us), interval: 0 }, changes }
}

#[test]
fn ring_keeps_last_points_and_emits() {
    // one session capped at three points; the fourth evicts the first
    let mut st = fresh_state();
    let lid = Some("pub:alpha,priv:beta,points:3".to_string());
    let (tags, opts) = TagsAux::parse_share_id(&lid).unwrap();
    let (sid, meta) = st.add_session(60_000_000, tags, opts, 0).unwrap();
    assert_eq!(meta.fetch_id, FetchId(0));
    for i in 1..=4 {
        st.add_location(&sid, point(i), i).unwrap();
    }
    let sessions = st.sessions();
    assert_eq!(sessions.len(), 1);
    let locs = sessions[0].locations();
    assert_eq!(locs.len(), 3);
    assert_eq!(locs[0].time_us, 2);
    assert_eq!(locs[1].time_us, 3);
    assert_eq!(locs[2].time_us, 4);
    // one AddFetch and four Add updates sit in the outbox, in call order
    let out = st.take_outbox();
    assert_eq!(out.len(), 5);
    assert!(matches!(out[0].update.changes[0], UpdateChange::AddFetch { .. }));
    assert!(matches!(out[4].update.changes[0], UpdateChange::Add { .. }));
}

#[test]
fn fetch_ids_increase() {
    let mut st = fresh_state();
    let (t1, o1) = TagsAux::parse_share_id(&Some("pub:a".to_string())).unwrap();
    let (t2, o2) = TagsAux::parse_share_id(&Some("pub:b".to_string())).unwrap();
    let (_, m1) = st.add_session(60_000_000, t1, o1, 0).unwrap();
    let (_, m2) = st.add_session(60_000_000, t2, o2, 0).unwrap();
    assert_eq!(m1.fetch_id, FetchId(0));
    assert_eq!(m2.fetch_id, FetchId(1));
}

#[test]
fn public_tags_follow_live_sessions() {
    let mut st = fresh_state();
    assert_eq!(st.public_tags().len(), 0);
    let (tags, opts) = TagsAux::parse_share_id(&Some("pub:gamma".to_string())).unwrap();
    let (sid, _) = st.add_session(60_000_000, tags, opts, 0).unwrap();
    let pubs = st.public_tags();
    assert_eq!(pubs.len(), 1);
    assert!(pubs.contains(&Tag("gamma".to_string())));
    assert!(st.remove_session(&sid, 1));
    assert_eq!(st.public_tags().len(), 0);
}

#[test]
fn default_tag_injected_when_share_id_has_no_tags() {
    let mut st = fresh_state();
    let (tags, opts) = TagsAux::parse_share_id(&Some("points:2".to_string())).unwrap();
    assert_eq!(tags.len(), 0);
    st.add_session(60_000_000, tags, opts, 0).unwrap();
    let pubs = st.public_tags();
    assert!(pubs.contains(&Tag("duck".to_string())));
}

#[test]
fn stop_respects_no_stop() {
    let mut st = fresh_state();
    let (tags, opts) = TagsAux::parse_share_id(&Some("pub:a,nostop".to_string())).unwrap();
    let (sid, _) = st.add_session(60_000_000, tags, opts, 0).unwrap();
    st.request_remove_session(&sid, 1);
    // the session survives but rejects data
    assert_eq!(st.sessions().len(), 1);
    assert!(st.sessions()[0].reject_data());
    assert_eq!(st.add_location(&sid, point(5), 5), Err(Error::NoSuchSession));
}

#[test]
fn expired_session_is_removed_on_post() {
    let mut st = fresh_state();
    let (tags, opts) = TagsAux::parse_share_id(&Some("pub:a".to_string())).unwrap();
    let (sid, _) = st.add_session(1_000, tags, opts, 0).unwrap();
    st.take_outbox();
    assert_eq!(st.add_location(&sid, point(5), 2_000), Err(Error::SessionExpired));
    assert_eq!(st.sessions().len(), 0);
    let out = st.take_outbox();
    assert_eq!(out.len(), 1);
    assert!(matches!(out[0].update.changes[0], UpdateChange::ExpireFetch { .. }));
}

#[test]
fn expiry_sweep_removes_due_sessions() {
    let mut st = fresh_state();
    let (t1, o1) = TagsAux::parse_share_id(&Some("pub:a".to_string())).unwrap();
    let (t2, o2) = TagsAux::parse_share_id(&Some("pub:b".to_string())).unwrap();
    let (sid1, _) = st.add_session(1_000, t1, o1, 0).unwrap();
    let (_sid2, _) = st.add_session(60_000_000, t2, o2, 0).unwrap();
    let removed = st.remove_expired_sessions(2_000);
    assert_eq!(removed.len(), 1);
    assert_eq!(removed[0].0, sid1.0);
    assert_eq!(st.sessions().len(), 1);
    assert!(st.sessions()[0].expires_at() > 2_000);
}

#[test]
fn point_age_expiry_clears_old_points() {
    // max_point_age two seconds; at 2.1 s the ring is empty
    let mut st = fresh_state();
    let (tags, opts) = TagsAux::parse_share_id(&Some("pub:a,expire:2s".to_string())).unwrap();
    let (sid, _) = st.add_session(60_000_000, tags, opts, 0).unwrap();
    st.add_location(&sid, point(0), 0).unwrap();
    assert_eq!(st.sessions()[0].locations().len(), 1);
    st.remove_expired_data(2_100_000);
    assert_eq!(st.sessions()[0].locations().len(), 0);
}

#[test]
fn tokens_round_trip() {
    let mut st = fresh_state();
    let token = st
        .create_token(&"user".to_string(), &"pw".to_string())
        .unwrap()
        .unwrap();
    assert_eq!(token.len(), 16);
    assert!(st.check_token(&token));
    assert!(!st.check_token(&"nope".to_string()));
    assert_eq!(st.create_token(&"user".to_string(), &"bad".to_string()), Ok(None));
    assert!(st.create_token(&"ghost".to_string(), &"pw".to_string()).is_err());
}

#[test]
fn restore_brings_back_live_sessions_only() {
    let mut tags = TagsAux::new();
    tags.insert(ducktracker::tags::TagAux::new("alpha", TagVisibility::Public).unwrap());
    let live = SessionMeta {
        session_id: SessionId("liveliveliveLive".to_string()),
        expires_at_us: 60_000_000,
        fetch_id: FetchId(7),
        tags,
        max_points: 3,
        max_point_age_us: None,
        reject_data: false,
        no_stop: false,
        log: None,
        name: Some("Ann".to_string()),
    };
    let gone = SessionMeta {
        session_id: SessionId("gonegonegonegone".to_string()),
        expires_at_us: 1_000,
        fetch_id: FetchId(3),
        tags: TagsAux::new(),
        max_points: 3,
        max_point_age_us: None,
        reject_data: false,
        no_stop: false,
        log: None,
        name: None,
    };
    let mut st = fresh_state();
    let to_delete = st.restore_sessions(vec![live, gone], 10_000);
    assert_eq!(st.sessions().len(), 1);
    let s = &st.sessions()[0];
    assert_eq!(s.session_id().0, "liveliveliveLive");
    assert_eq!(*s.fetch_id(), FetchId(7));
    assert_eq!(s.locations().len(), 0);
    assert_eq!(to_delete.len(), 1);
    assert_eq!(to_delete[0].0, "gonegonegonegone");
    // the next fetch id moves past every loaded one
    let (t2, o2) = TagsAux::parse_share_id(&Some("pub:x".to_string())).unwrap();
    let (_, m) = st.add_session(60_000_000, t2, o2, 20_000).unwrap();
    assert_eq!(m.fetch_id, FetchId(8));
    // the restored public tag is advertised again
    assert!(st.public_tags().contains(&Tag("alpha".to_string())));
}

#[test]
fn user_lines_parse_and_last_duplicate_wins() {
    let lines = vec![
        "  ann : first ".to_string(),
        "".to_string(),
        "no-colon-line".to_string(),
        "bob:pw2".to_string(),
        "ann:second".to_string(),
    ];
    let users = ducktracker::state::parse_user_lines(&lines);
    assert_eq!(users.len(), 3);
    assert_eq!(users[0], ("ann".to_string(), "first".to_string()));
    let st = State::new(
        users,
        Tag("duck".to_string()),
        3,
        3,
        None,
        100_000,
        None,
        100,
    );
    // the later line overrides the earlier one
    assert_eq!(st.authenticate(&"ann".to_string(), &"second".to_string()), Ok(true));
    assert_eq!(st.authenticate(&"ann".to_string(), &"first".to_string()), Ok(false));
}

#[test]
fn heartbeat_is_empty_and_marked() {
    let (ctx, u) = ducktracker::updates::heartbeat_update(42, 7);
    assert!(ctx.is_heartbeat);
    assert_eq!(ctx.tags.len(), 0);
    assert_eq!(u.changes.len(), 0);
    assert_eq!(u.meta.server_time, TimeUsec(42));
    assert_eq!(u.meta.interval, 7);
}

#[test]
fn response_bodies_have_the_protocol_shape() {
    let stop = ducktracker::models::StopResponse {};
    assert_eq!(stop.to_client(), "OK\n");
    let post = ducktracker::models::PostResponse {
        public_url: "http://localhost".to_string(),
        target_ids: vec!["a".to_string(), "b".to_string()],
    };
    assert_eq!(post.to_client(), "OK\nhttp://localhost?a,b\n");
    let create = ducktracker::models::CreateResponse {
        status: "OK".to_string(),
        session_id: SessionId("s1".to_string()),
        share_link: "http://h/#pub:a".to_string(),
        share_id: ducktracker::models::ShareId("pub:a".to_string()),
    };
    assert_eq!(create.to_client(), "OK\ns1\nhttp://h/#pub:a\npub:a\n");
}

#[test]
fn snapshot_lists_matching_sessions_only() {
    let mut st = fresh_state();
    let (tags, opts) =
        TagsAux::parse_share_id(&Some("pub:alpha,priv:beta,points:3".to_string())).unwrap();
    let (sid, _) = st.add_session(60_000_000, tags, opts, 0).unwrap();
    for i in 1..=4 {
        st.add_location(&sid, point(i), i).unwrap();
    }
    let (ctx, snap) = st.initial_update(&tag_set(&["alpha"]), 10);
    assert!(!ctx.is_heartbeat);
    assert_eq!(snap.changes.len(), 3);
    assert!(matches!(snap.changes[0], UpdateChange::Reset));
    match &snap.changes[1] {
        UpdateChange::AddFetch { fetches, public } => {
            assert_eq!(fetches.len(), 1);
            assert_eq!(fetches[0].0, FetchId(0));
            // the private tag is cut away
            assert_eq!(fetches[0].1.tags.len(), 1);
            assert!(fetches[0].1.tags.contains(&Tag("alpha".to_string())));
            assert!(public.contains(&Tag("alpha".to_string())));
        }
        _ => panic!("expected AddFetch"),
    }
    match &snap.changes[2] {
        UpdateChange::Add { points } => {
            assert_eq!(points.len(), 1);
            let ring = &points[0].1;
            assert_eq!(ring.len(), 3);
            assert_eq!(ring[0].time_us, 2);
            assert_eq!(ring[2].time_us, 4);
        }
        _ => panic!("expected Add"),
    }
    // a disjoint filter sees no session at all
    let (_, empty_snap) = st.initial_update(&tag_set(&["other"]), 10);
    match &empty_snap.changes[1] {
        UpdateChange::AddFetch { fetches, .. } => assert_eq!(fetches.len(), 0),
        _ => panic!("expected AddFetch"),
    }
}

#[test]
fn filter_drops_foreign_changes() {
    // a post to an alpha-tagged session reaches the alpha subscriber and
    // not the beta subscriber; same for the stop
    let ctx = UpdateContext { tags: tag_set(&["alpha"]), is_heartbeat: false };
    let expire = make_update(vec![UpdateChange::ExpireFetch { fetch_id: FetchId(0) }], 10);
    let for_a = expire.filter_map(&tag_set(&["alpha"]), &ctx);
    assert!(for_a.is_some());
    let expire2 = make_update(vec![UpdateChange::ExpireFetch { fetch_id: FetchId(0) }], 10);
    let ctx2 = UpdateContext { tags: tag_set(&["alpha"]), is_heartbeat: false };
    let for_b = expire2.filter_map(&tag_set(&["beta"]), &ctx2);
    assert!(for_b.is_none());
    // a post to the session is dropped whole for the beta subscriber
    let add = make_update(
        vec![UpdateChange::Add { points: vec![(FetchId(0), vec![point(1)])] }],
        10,
    );
    let ctx3 = UpdateContext { tags: tag_set(&["alpha"]), is_heartbeat: false };
    assert!(add.filter_map(&tag_set(&["beta"]), &ctx3).is_none());
    let add2 = make_update(
        vec![UpdateChange::Add { points: vec![(FetchId(0), vec![point(1)])] }],
        10,
    );
    let ctx4 = UpdateContext { tags: tag_set(&["alpha"]), is_heartbeat: false };
    assert!(add2.filter_map(&tag_set(&["alpha"]), &ctx4).is_some());
}

#[test]
fn filter_rewrites_fetch_tags() {
    // the private tag is cut out of the descriptor a subscriber sees
    let fetch = ducktracker::updates::Fetch {
        tags: tag_set(&["alpha", "beta"]),
        max_points: 3,
        max_point_age_us: None,
        name: None,
    };
    let change = UpdateChange::AddFetch { fetches: vec![(FetchId(0), fetch)], public: Tags::new() };
    let ctx = UpdateContext { tags: tag_set(&["alpha", "beta"]), is_heartbeat: false };
    let u = make_update(vec![change], 10);
    let got = u.filter_map(&tag_set(&["alpha"]), &ctx).unwrap();
    match &got.changes[0] {
        UpdateChange::AddFetch { fetches, .. } => {
            assert_eq!(fetches.len(), 1);
            assert_eq!(fetches[0].1.tags.len(), 1);
            assert!(fetches[0].1.tags.contains(&Tag("alpha".to_string())));
        }
        _ => panic!("expected AddFetch"),
    }
}

fn event(changes: Vec<UpdateChange>, time_us: i64) -> UpdateWithContext {
    let updates = changes
        .into_iter()
        .map(|c| UpdateChangeWithContext {
            change: c,
            context: UpdateContext { tags: Tags::new(), is_heartbeat: false },
        })
        .collect();
    UpdateWithContext {
        meta: UpdateMeta { server_time: TimeUsec(time_us), interval: 0 },
        updates,
    }
}

#[test]
fn coalescer_merges_a_burst_into_one_update() {
    // five posts inside one window come out as a single update
    let mut c = Coalescer::new(100_000);
    for i in 0..5 {
        let ev = event(
            vec![UpdateChange::Add { points: vec![(FetchId(0), vec![point(i)])] }],
            i,
        );
        assert!(c.on_event(ev, i).is_none());
    }
    // a later heartbeat-driven event flushes the burst
    let burst = c.on_event(event(vec![], 200_000), 200_001).unwrap();
    assert_eq!(burst.updates.len(), 5);
    assert_eq!(burst.meta.server_time, TimeUsec(200_001));
}

#[test]
fn coalescer_lag_flushes_and_resets() {
    let mut c = Coalescer::new(100_000);
    let ev = event(vec![UpdateChange::Reset], 10);
    assert!(c.on_event(ev, 10).is_none());
    let flushed = c.on_lagged(50).unwrap();
    assert_eq!(flushed.updates.len(), 1);
    assert_eq!(flushed.meta.server_time, TimeUsec(50));
    // nothing is buffered after the reset
    assert!(c.on_lagged(60).is_none());
}
