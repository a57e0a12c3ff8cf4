use kiro_rs::sticky::AcquireResult;
use kiro_rs::sticky::AvailableCredential;
use kiro_rs::sticky::RequestIdentity;
use kiro_rs::sticky::StickyTracker;
use kiro_rs::sticky::StreamGuard;

fn tracker(max_per_cred: u32, max_per_key: u32) -> StickyTracker {
    StickyTracker::new(max_per_cred, max_per_key, 30, 15)
}

fn creds(ids: &[u64]) -> Vec<AvailableCredential> {
    ids.iter()
        .map(|&id| AvailableCredential { id, supports_opus: true })
        .collect()
}

fn identity(key: &str) -> RequestIdentity {
    RequestIdentity { api_key: key.to_string(), session_id: None }
}

#[test]
fn test_basic_acquire_and_activate() {
    let mut t = tracker(2, 5);
    let available = creds(&[1, 2]);
    let id = identity("key-a");

    let result = t.try_acquire(&id, &available, 0);
    let (cred_id, stream_id) = match result {
        AcquireResult::Acquired { credential_id, stream_id } => (credential_id, stream_id),
        _ => panic!("expected Acquired"),
    };

    // Should be assigned to credential 1 (first available, lowest concurrency)
    assert_eq!(cred_id, 1);

    // Concurrency is already 1 after reservation (before activation)
    let snap = t.snapshot();
    let c1 = snap.credentials.iter().find(|c| c.id == 1).unwrap();
    assert_eq!(c1.active_count, 1);

    // Activate - concurrency stays at 1 (already counted at reservation)
    t.activate_stream(stream_id, 1);
    let snap = t.snapshot();
    let c1 = snap.credentials.iter().find(|c| c.id == 1).unwrap();
    assert_eq!(c1.active_count, 1);
}

#[test]
fn test_sticky_binding_reuse() {
    let mut t = tracker(2, 5);
    let available = creds(&[1, 2]);
    let id = identity("key-a");

    let r1 = t.try_acquire(&id, &available, 0);
    let cred1 = match r1 {
        AcquireResult::Acquired { credential_id, stream_id } => {
            t.activate_stream(stream_id, 0);
            credential_id
        }
        _ => panic!("expected Acquired"),
    };

    let r2 = t.try_acquire(&id, &available, 1);
    let cred2 = match r2 {
        AcquireResult::Acquired { credential_id, .. } => credential_id,
        _ => panic!("expected Acquired"),
    };
    assert_eq!(cred1, cred2);

    let stats = t.snapshot().stats;
    assert!(stats.hits >= 1);
}

#[test]
fn test_all_full_returns_429() {
    let mut t = tracker(1, 5);
    let available = creds(&[1]);

    let r1 = t.try_acquire(&identity("key-a"), &available, 0);
    match &r1 {
        AcquireResult::Acquired { stream_id, .. } => t.activate_stream(*stream_id, 0),
        _ => panic!("expected Acquired"),
    }

    let r2 = t.try_acquire(&identity("key-b"), &available, 1);
    match r2 {
        AcquireResult::AllFull { retry_after_millis } => {
            assert!(retry_after_millis >= 5000 && retry_after_millis < 10000);
        }
        _ => panic!("expected AllFull"),
    }

    let stats = t.snapshot().stats;
    assert_eq!(stats.rejections_429, 1);
}

#[test]
fn test_deactivate_frees_slot() {
    let mut t = tracker(1, 5);
    let available = creds(&[1]);

    let stream_id = match t.try_acquire(&identity("key-a"), &available, 0) {
        AcquireResult::Acquired { stream_id, .. } => stream_id,
        _ => panic!("expected Acquired"),
    };
    t.activate_stream(stream_id, 0);

    assert!(matches!(
        t.try_acquire(&identity("key-b"), &available, 1),
        AcquireResult::AllFull { .. }
    ));

    t.deactivate_stream(stream_id);

    assert!(matches!(
        t.try_acquire(&identity("key-b"), &available, 2),
        AcquireResult::Acquired { .. }
    ));
}

#[test]
fn test_stream_guard_drop_deactivates() {
    let mut t = tracker(1, 5);
    let available = creds(&[1]);

    let stream_id = match t.try_acquire(&identity("key-a"), &available, 0) {
        AcquireResult::Acquired { stream_id, .. } => stream_id,
        _ => panic!("expected Acquired"),
    };

    let mut guard = StreamGuard::new(stream_id);
    guard.activate(&mut t, 0);
    guard.release(&mut t);

    // Slot should be free
    assert!(matches!(
        t.try_acquire(&identity("key-b"), &available, 1),
        AcquireResult::Acquired { .. }
    ));
}

#[test]
fn test_stream_guard_drop_cancels_reservation() {
    let mut t = tracker(2, 5);
    let available = creds(&[1]);

    let stream_id = match t.try_acquire(&identity("key-a"), &available, 0) {
        AcquireResult::Acquired { stream_id, .. } => stream_id,
        _ => panic!("expected Acquired"),
    };

    // Release without activating - the reservation is cancelled
    let guard = StreamGuard::new(stream_id);
    guard.release(&mut t);

    assert_eq!(t.snapshot().active_stream_count, 0);
}

#[test]
fn test_queue_jump_same_key() {
    let mut t = tracker(2, 5);
    let available = creds(&[1]);

    let s1 = match t.try_acquire(&identity("key-a"), &available, 0) {
        AcquireResult::Acquired { stream_id, .. } => stream_id,
        _ => panic!("expected Acquired"),
    };
    t.activate_stream(s1, 0);

    let s2 = match t.try_acquire(&identity("key-b"), &available, 1) {
        AcquireResult::Acquired { stream_id, .. } => stream_id,
        _ => panic!("expected Acquired"),
    };
    t.activate_stream(s2, 1);

    // Credential is full (2/2). key-a already has an active stream, so it
    // can queue-jump
    let r = t.try_acquire(&identity("key-a"), &available, 2);
    match r {
        AcquireResult::Acquired { .. } => {
            let stats = t.snapshot().stats;
            assert!(stats.queue_jumps >= 1);
        }
        _ => panic!("expected queue jump Acquired"),
    }
}

#[test]
fn test_zombie_cleanup() {
    // 0-minute timeout: an activated stream is immediately a zombie
    let mut t = StickyTracker::new(10, 10, 30, 0);
    let available = creds(&[1]);

    let stream_id = match t.try_acquire(&identity("key-a"), &available, 0) {
        AcquireResult::Acquired { stream_id, .. } => stream_id,
        _ => panic!("expected Acquired"),
    };
    t.activate_stream(stream_id, 0);

    let removed = t.cleanup_zombies(10);
    assert_eq!(removed, 1);
    assert_eq!(t.snapshot().active_stream_count, 0);
}

#[test]
fn test_expired_binding_cleanup() {
    // 0-minute expiry
    let mut t = StickyTracker::new(10, 10, 0, 15);
    let available = creds(&[1]);

    let stream_id = match t.try_acquire(&identity("key-a"), &available, 0) {
        AcquireResult::Acquired { stream_id, .. } => stream_id,
        _ => panic!("expected Acquired"),
    };
    t.activate_stream(stream_id, 0);
    t.deactivate_stream(stream_id);

    // Binding exists but has expired under the 0-minute TTL
    let removed = t.cleanup_expired_bindings(10);
    assert_eq!(removed, 1);
}

#[test]
fn test_snapshot_and_stream_snapshots() {
    let mut t = tracker(5, 5);
    let available = creds(&[1, 2]);

    let s1 = match t.try_acquire(&identity("key-a"), &available, 0) {
        AcquireResult::Acquired { stream_id, .. } => stream_id,
        _ => panic!("expected Acquired"),
    };
    t.activate_stream(s1, 0);

    let snap = t.snapshot();
    assert_eq!(snap.active_stream_count, 1);
    assert!(!snap.credentials.is_empty());

    let streams = t.stream_snapshots(0);
    assert_eq!(streams.len(), 1);
    assert_eq!(streams[0].api_key, "key-a");
    assert!(streams[0].activated);
}

#[test]
fn test_reservation_counts_toward_concurrency() {
    // max_per_credential = 1: a single reservation blocks further acquires
    let mut t = tracker(1, 5);
    let available = creds(&[1]);

    let _stream_id = match t.try_acquire(&identity("key-a"), &available, 0) {
        AcquireResult::Acquired { stream_id, .. } => stream_id,
        _ => panic!("expected Acquired"),
    };

    let r2 = t.try_acquire(&identity("key-b"), &available, 1);
    assert!(
        matches!(r2, AcquireResult::AllFull { .. }),
        "reservation should count toward concurrency limit"
    );
}

#[test]
fn test_cancel_reservation_frees_slot() {
    let mut t = tracker(1, 5);
    let available = creds(&[1]);

    let stream_id = match t.try_acquire(&identity("key-a"), &available, 0) {
        AcquireResult::Acquired { stream_id, .. } => stream_id,
        _ => panic!("expected Acquired"),
    };

    assert!(matches!(
        t.try_acquire(&identity("key-b"), &available, 1),
        AcquireResult::AllFull { .. }
    ));

    t.cancel_reservation(stream_id);

    assert!(matches!(
        t.try_acquire(&identity("key-b"), &available, 2),
        AcquireResult::Acquired { .. }
    ));
}

#[test]
fn test_zombie_cleanup_respects_reservation_timeout() {
    // zombie timeout 0 minutes, but the reservation timeout is 2 minutes
    let mut t = StickyTracker::new(10, 10, 30, 0);
    let available = creds(&[1]);

    let _stream_id = match t.try_acquire(&identity("key-a"), &available, 0) {
        AcquireResult::Acquired { stream_id, .. } => stream_id,
        _ => panic!("expected Acquired"),
    };

    // An unactivated reservation must not be cleaned before the hard
    // two-minute limit
    let removed = t.cleanup_zombies(10);
    assert_eq!(removed, 0, "unactivated reservation should use longer timeout");
    assert_eq!(t.snapshot().active_stream_count, 1);
}

#[test]
fn sticky_hit_assigns_sequential_stream_ids() {
    let mut t = tracker(2, 5);
    let available = creds(&[1, 2]);
    let id = identity("A");

    match t.try_acquire(&id, &available, 0) {
        AcquireResult::Acquired { credential_id, stream_id } => {
            assert_eq!(credential_id, 1);
            assert_eq!(stream_id, 1);
            t.activate_stream(stream_id, 0);
        }
        _ => panic!("expected Acquired"),
    }
    match t.try_acquire(&id, &available, 1) {
        AcquireResult::Acquired { credential_id, stream_id } => {
            assert_eq!(credential_id, 1);
            assert_eq!(stream_id, 2);
        }
        _ => panic!("expected Acquired"),
    }
    assert!(t.snapshot().stats.hits >= 1);
}

#[test]
fn reservation_then_cancel_lets_other_key_in() {
    let mut t = tracker(1, 5);
    let available = creds(&[1]);

    let sid = match t.try_acquire(&identity("A"), &available, 0) {
        AcquireResult::Acquired { stream_id, .. } => stream_id,
        _ => panic!("expected Acquired"),
    };
    assert!(matches!(
        t.try_acquire(&identity("B"), &available, 1),
        AcquireResult::AllFull { .. }
    ));
    t.cancel_reservation(sid);
    assert!(matches!(
        t.try_acquire(&identity("B"), &available, 2),
        AcquireResult::Acquired { .. }
    ));
}

#[test]
fn bound_credential_expires_with_ttl() {
    let mut t = StickyTracker::new(2, 5, 1, 15);
    let available = creds(&[1]);
    let sid = match t.try_acquire(&identity("A"), &available, 0) {
        AcquireResult::Acquired { stream_id, .. } => stream_id,
        _ => panic!("expected Acquired"),
    };
    t.deactivate_stream(sid);
    assert_eq!(t.get_bound_credential("A", 30_000), Some(1));
    assert_eq!(t.get_bound_credential("A", 120_001), None);
}
