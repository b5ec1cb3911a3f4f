use tag_aggregator::client::{ClientAction, PumpOutcome, ReplicaState, ReplicationClient};
use tag_aggregator::client::send_to_dbus_server;
use tag_aggregator::config::{ClientConfig, Connection};
use tag_aggregator::data::{Entry, Tree};
use tag_aggregator::log::{insert_entry, run_web_server, Request, ServerReply, ServerState, VersionedDelta};
use tag_aggregator::store::{add_entry, EntryStore};
use tag_aggregator::Error;

fn entry(name: &str, url: &str) -> Entry {
    Entry::new(name.to_string(), url.to_string())
}

fn delta(category: &str, pairs: &[(&str, &str)]) -> Tree {
    let mut t = Tree::new();
    for (name, url) in pairs {
        t.add(category.to_string(), entry(name, url));
    }
    t
}

fn entries_of<'a>(t: &'a Tree, category: &str) -> &'a [Entry] {
    for (c, es) in t.cats.iter() {
        if c == category {
            return es.as_slice();
        }
    }
    &[]
}

#[test]
fn versions_run_from_one_with_no_gaps() {
    let mut state = ServerState::new(Vec::new());
    for expected in 1u64..=5 {
        let v = insert_entry(&mut state, delta("work", &[("a", "http://a")]));
        assert_eq!(v, expected);
    }
    assert!(ServerState::log_is_wf(&state.log));
    for (k, vd) in state.log.iter().enumerate() {
        assert_eq!(vd.version, k as u64 + 1);
    }
}

#[test]
fn submission_sets_the_change_flag() {
    let mut state = ServerState::new(Vec::new());
    assert!(!state.updated);
    insert_entry(&mut state, delta("work", &[("a", "http://a")]));
    assert!(state.updated);
    assert!(state.take_updated());
    assert!(!state.take_updated());
    state.mark_updated();
    assert!(state.take_updated());
}

#[test]
fn since_returns_exactly_the_tail() {
    let mut state = ServerState::new(Vec::new());
    insert_entry(&mut state, delta("work", &[("a", "http://a")]));
    insert_entry(&mut state, delta("work", &[("b", "http://b")]));
    insert_entry(&mut state, delta("home", &[("c", "http://c")]));

    let whole = state.since(None);
    assert_eq!(whole.len(), 3);

    let tail = state.since(Some(2));
    assert_eq!(tail.len(), 1);
    assert_eq!(tail[0].version, 3);

    let empty = state.since(Some(3));
    assert!(empty.is_empty());
    let beyond = state.since(Some(100));
    assert!(beyond.is_empty());
}

#[test]
fn full_catchup_reaches_the_latest_version() {
    let mut state = ServerState::new(Vec::new());
    insert_entry(&mut state, delta("work", &[("a", "http://a")]));
    insert_entry(&mut state, delta("work", &[("b", "http://b")]));
    insert_entry(&mut state, delta("home", &[("c", "http://c")]));

    let mut replica = ReplicaState::new();
    let r = send_to_dbus_server(&mut replica, state.since(None));
    assert!(r.is_ok());
    assert_eq!(replica.pos, Some(3));
    let work = entries_of(&replica.store.tree, "work");
    assert_eq!(work.len(), 2);
    assert_eq!(work[0].name, "a");
    assert_eq!(work[1].name, "b");
    let home = entries_of(&replica.store.tree, "home");
    assert_eq!(home.len(), 1);
    assert_eq!(home[0].url, "http://c");
}

#[test]
fn submit_since_apply_scenario() {
    let mut state = ServerState::new(Vec::new());
    let v1 = insert_entry(&mut state, delta("work", &[("ACME report", "http://x/1")]));
    assert_eq!(v1, 1);
    let v2 = insert_entry(&mut state, delta("work", &[("Q2 notes", "http://x/2")]));
    assert_eq!(v2, 2);

    let tail = state.since(Some(1));
    assert_eq!(tail.len(), 1);
    assert_eq!(tail[0].version, 2);
    let tail_work = entries_of(&tail[0].delta, "work");
    assert_eq!(tail_work.len(), 1);
    assert_eq!(tail_work[0].name, "Q2 notes");
    assert_eq!(tail_work[0].url, "http://x/2");

    let mut replica = ReplicaState::restore(
        delta("work", &[("ACME report", "http://x/1")]),
        Some(1),
    );
    send_to_dbus_server(&mut replica, tail).unwrap();
    assert_eq!(replica.pos, Some(2));
    let work = entries_of(&replica.store.tree, "work");
    assert_eq!(work.len(), 2);
    assert_eq!(work[0].name, "ACME report");
    assert_eq!(work[0].url, "http://x/1");
    assert_eq!(work[1].name, "Q2 notes");
    assert_eq!(work[1].url, "http://x/2");
}

#[test]
fn replaying_a_version_twice_changes_nothing() {
    let d = delta("work", &[("a", "http://a"), ("b", "http://b")]);
    let tail = vec![VersionedDelta { version: 3, delta: d.duplicate() }];

    // The crash case: version 3 was fully applied, but pos still says 2.
    let mut replica = ReplicaState::restore(d.duplicate(), Some(2));
    let again: Vec<VersionedDelta> = tail.iter().map(|vd| vd.duplicate()).collect();
    send_to_dbus_server(&mut replica, again).unwrap();
    assert_eq!(replica.pos, Some(3));
    let work = entries_of(&replica.store.tree, "work");
    assert_eq!(work.len(), 2);
    assert_eq!(work[0].name, "a");
    assert_eq!(work[1].name, "b");
}

#[test]
fn stale_versions_are_discarded() {
    let mut replica = ReplicaState::restore(Tree::new(), Some(5));
    let tail = vec![VersionedDelta { version: 4, delta: delta("work", &[("old", "http://o")]) }];
    send_to_dbus_server(&mut replica, tail).unwrap();
    assert_eq!(replica.pos, Some(5));
    assert!(entries_of(&replica.store.tree, "work").is_empty());
}

#[test]
fn the_high_water_mark_never_rewinds() {
    let mut replica = ReplicaState::new();
    assert_eq!(replica.current_version(), 0);
    replica.set_version(5);
    assert_eq!(replica.pos, Some(5));
    replica.set_version(3);
    assert_eq!(replica.pos, Some(5));
    replica.set_version(6);
    assert_eq!(replica.pos, Some(6));
}

#[test]
fn add_entry_appends_in_order() {
    let mut store = EntryStore::new();
    assert!(add_entry(&mut store, "work".to_string(), "a".to_string(), "http://a".to_string()));
    assert!(add_entry(&mut store, "work".to_string(), "b".to_string(), "http://b".to_string()));
    assert!(add_entry(&mut store, "home".to_string(), "c".to_string(), "http://c".to_string()));
    let work = entries_of(&store.tree, "work");
    assert_eq!(work.len(), 2);
    assert_eq!(work[0].name, "a");
    assert_eq!(work[1].name, "b");
    assert_eq!(entries_of(&store.tree, "home").len(), 1);
}

#[test]
fn add_entry_keeps_duplicate_appends() {
    // A direct append is an event, not a set insertion: only replay
    // deduplicates.
    let mut store = EntryStore::new();
    add_entry(&mut store, "work".to_string(), "a".to_string(), "http://a".to_string());
    add_entry(&mut store, "work".to_string(), "a".to_string(), "http://a".to_string());
    assert_eq!(entries_of(&store.tree, "work").len(), 2);
}

#[test]
fn notices_reach_at_most_one_subscriber() {
    let mut store = EntryStore::new();
    add_entry(&mut store, "work".to_string(), "a".to_string(), "http://a".to_string());
    assert!(!store.notice_pending, "without a subscriber the notice is dropped");
    store.subscribe();
    add_entry(&mut store, "work".to_string(), "b".to_string(), "http://b".to_string());
    assert!(store.take_notice());
    assert!(!store.take_notice(), "notices are not queued");
    store.unsubscribe();
    add_entry(&mut store, "work".to_string(), "c".to_string(), "http://c".to_string());
    assert!(!store.take_notice());
}

#[test]
fn snapshot_is_a_consistent_copy() {
    let mut store = EntryStore::new();
    add_entry(&mut store, "work".to_string(), "a".to_string(), "http://a".to_string());
    let snap = store.snapshot();
    add_entry(&mut store, "work".to_string(), "b".to_string(), "http://b".to_string());
    assert_eq!(entries_of(&snap, "work").len(), 1);
    assert_eq!(entries_of(&store.tree, "work").len(), 2);
}

#[test]
fn the_dispatcher_routes_each_request() {
    let mut state = ServerState::new(Vec::new());

    match run_web_server(&mut state, Request::Fetch) {
        ServerReply::Log(l) => assert!(l.is_empty()),
        _ => panic!("fetch must return the log"),
    }
    match run_web_server(&mut state, Request::Submit(delta("work", &[("a", "http://a")]))) {
        ServerReply::Accepted(v) => assert_eq!(v, 1),
        _ => panic!("a submission must be accepted"),
    }
    assert!(state.updated);
    match run_web_server(&mut state, Request::Malformed) {
        ServerReply::Rejected => {},
        _ => panic!("a malformed submission must be rejected"),
    }
    match run_web_server(&mut state, Request::Unknown) {
        ServerReply::NotFound => {},
        _ => panic!("an unknown route must answer not-found"),
    }
    assert_eq!(state.log.len(), 1, "rejected and unknown requests leave the log alone");
}

#[test]
fn a_streamed_frame_reaches_the_replica() {
    let mut state = ServerState::new(Vec::new());
    insert_entry(&mut state, delta("work", &[("a", "http://a")]));
    let frame = state.poll(None).expect("the change flag was set");
    assert!(state.poll(None).is_none(), "the flag is cleared once the frame is produced");

    let mut client = ReplicationClient::new(ReplicaState::new());
    client.start_connect();
    match client.on_connected() {
        ClientAction::Fetch(pos) => assert_eq!(pos, None),
        _ => panic!("connecting must trigger a catch-up fetch"),
    }
    // Deliver the frame one byte at a time: every prefix is Incomplete.
    for (i, b) in frame.iter().enumerate() {
        client.feed(&[*b]);
        if i + 1 < frame.len() {
            match client.pump() {
                Ok(PumpOutcome::NeedMoreData) => {},
                _ => panic!("a truncated frame must read as incomplete"),
            }
        }
    }
    match client.pump() {
        Ok(PumpOutcome::Progressed) => {},
        _ => panic!("the whole frame must decode and replay"),
    }
    assert_eq!(client.replica.pos, Some(1));
    assert_eq!(entries_of(&client.replica.store.tree, "work").len(), 1);
    assert!(client.buf.is_empty());
}

#[test]
fn the_stream_frames_only_the_unsent_tail() {
    let mut state = ServerState::new(Vec::new());
    insert_entry(&mut state, delta("work", &[("ACME report", "http://x/1")]));
    insert_entry(&mut state, delta("work", &[("Q2 notes", "http://x/2")]));

    // The connection was already sent version 1.
    let frame = state.poll(Some(1)).expect("the change flag was set");

    let mut client = ReplicationClient::new(ReplicaState::restore(
        delta("work", &[("ACME report", "http://x/1")]),
        Some(1),
    ));
    client.start_connect();
    client.on_connected();
    client.feed(&frame);
    match client.pump() {
        Ok(PumpOutcome::Progressed) => {},
        _ => panic!("the tail frame must decode and replay"),
    }
    assert_eq!(client.replica.pos, Some(2));
    let work = entries_of(&client.replica.store.tree, "work");
    assert_eq!(work.len(), 2);
    assert_eq!(work[1].name, "Q2 notes");

    // A frame of an already-seen tail replays to nothing new.
    state.mark_updated();
    let empty_tail = state.poll(Some(2)).expect("the flag was re-raised");
    client.feed(&empty_tail);
    match client.pump() {
        Ok(PumpOutcome::Progressed) => {},
        _ => panic!("an empty tail still decodes"),
    }
    assert_eq!(client.replica.pos, Some(2));
    assert_eq!(entries_of(&client.replica.store.tree, "work").len(), 2);
}

#[test]
fn a_corrupt_stream_resets_the_connection() {
    let mut client = ReplicationClient::new(ReplicaState::new());
    client.start_connect();
    client.on_connected();
    // A complete frame whose declared 2-byte payload is not a message.
    client.feed(&[0, 0, 0, 0, 0, 0, 0, 2, 0xff, 0xff]);
    match client.pump() {
        Err(Error::MalformedFrame) => {},
        _ => panic!("garbage must read as a malformed frame"),
    }
    assert!(client.buf.is_empty());
    match client.on_connection_error() {
        ClientAction::Backoff => {},
        _ => panic!("after an error the loop backs off before reconnecting"),
    }
    assert_eq!(client.replica.pos, None, "the replica survives a reset untouched");
}

#[test]
fn error_descriptions_name_each_failure_class() {
    let all = [
        Error::LockFailure,
        Error::MalformedFrame,
        Error::NetworkError,
        Error::SerializationError,
    ];
    for (i, e) in all.iter().enumerate() {
        assert!(!e.describe().is_empty());
        for other in &all[i + 1..] {
            assert_ne!(e.describe(), other.describe());
        }
    }
    assert_eq!(Error::MalformedFrame.describe(), "wire data failed to decode");
}

#[test]
fn connection_scheme_follows_the_tls_switch() {
    let plain = Connection { use_tls: false, server_name: "replica.example".to_string(), port: 8080 };
    assert_eq!(plain.scheme(), "http");
    let tls = ClientConfig {
        conn: Connection { use_tls: true, server_name: "replica.example".to_string(), port: 443 },
    };
    assert_eq!(tls.conn.scheme(), "https");
}

#[test]
fn a_log_loaded_from_storage_is_validated() {
    let good = vec![
        VersionedDelta { version: 1, delta: Tree::new() },
        VersionedDelta { version: 2, delta: Tree::new() },
    ];
    assert!(ServerState::log_is_wf(&good));
    let gap = vec![
        VersionedDelta { version: 1, delta: Tree::new() },
        VersionedDelta { version: 3, delta: Tree::new() },
    ];
    assert!(!ServerState::log_is_wf(&gap));
    let from_zero = vec![VersionedDelta { version: 0, delta: Tree::new() }];
    assert!(!ServerState::log_is_wf(&from_zero));
}

#[test]
fn tree_well_formedness_is_checkable() {
    let mut t = Tree::new();
    t.add("work".to_string(), entry("a", "http://a"));
    t.add("home".to_string(), entry("b", "http://b"));
    assert!(t.is_wf());
    let mut broken = Tree::new();
    broken.cats.push(("work".to_string(), Vec::new()));
    broken.cats.push(("work".to_string(), Vec::new()));
    assert!(!broken.is_wf());
}

#[test]
fn interleaved_appends_keep_each_callers_order() {
    // Two writers, serialized in arrival order: the first appends a1 then
    // a2 to "work", the second appends b1 to "work" and b2 to "home". Each
    // category ends with exactly the entries sent to it, in arrival order,
    // so each writer's own order survives any interleaving.
    let mut store = EntryStore::new();
    add_entry(&mut store, "work".to_string(), "a1".to_string(), "http://a1".to_string());
    add_entry(&mut store, "work".to_string(), "b1".to_string(), "http://b1".to_string());
    add_entry(&mut store, "work".to_string(), "a2".to_string(), "http://a2".to_string());
    add_entry(&mut store, "home".to_string(), "b2".to_string(), "http://b2".to_string());

    let work = entries_of(&store.tree, "work");
    assert_eq!(work.len(), 3);
    assert_eq!(work[0].name, "a1");
    assert_eq!(work[1].name, "b1");
    assert_eq!(work[2].name, "a2");
    let home = entries_of(&store.tree, "home");
    assert_eq!(home.len(), 1);
    assert_eq!(home[0].name, "b2");
}

#[test]
fn categories_are_found_by_name() {
    let mut t = Tree::new();
    t.add("work".to_string(), entry("a", "http://a"));
    t.add("home".to_string(), entry("b", "http://b"));
    assert_eq!(t.find_cat(&"work".to_string()), Some(0));
    assert_eq!(t.find_cat(&"home".to_string()), Some(1));
    assert_eq!(t.find_cat(&"other".to_string()), None);
    assert!(t.contains_entry(&"work".to_string(), &entry("a", "http://a")));
    assert!(!t.contains_entry(&"work".to_string(), &entry("b", "http://b")));
}

#[test]
fn entries_compare_by_value() {
    let a = entry("a", "http://a");
    let b = a.duplicate();
    assert!(a.same_as(&b));
    assert!(!a.same_as(&entry("a", "http://other")));
    assert!(!a.same_as(&entry("other", "http://a")));
}
