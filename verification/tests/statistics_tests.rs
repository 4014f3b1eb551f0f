//! Statistics, event-dispatch and keyring-naming tests.

use sync_core::events::{library_event_action, LibraryAction, LibraryManagerEvent};
use sync_core::keyring::{AppleKeyring, Identifier};
use sync_core::statistics::{update_library_statistics, Volume};

#[test]
fn statistics_sum_volumes_exactly() {
    let volumes = vec![
        Volume { total_capacity: 1000, available_capacity: 250 },
        Volume { total_capacity: 500, available_capacity: 500 },
        Volume { total_capacity: 0, available_capacity: 0 },
    ];
    let s = update_library_statistics(&volumes, 1234, 99, 1_700_000_000);
    assert_eq!(s.id, 1);
    assert_eq!(s.total_bytes_capacity, 1500);
    assert_eq!(s.total_bytes_free, 750);
    assert_eq!(s.total_bytes_used, 750);
    assert_eq!(s.library_db_size, 1234);
    assert_eq!(s.preview_media_bytes, 99);
    assert_eq!(s.total_object_count, 0);
    assert_eq!(s.total_unique_bytes, 0);
    assert_eq!(s.date_captured, 1_700_000_000);
}

#[test]
fn statistics_with_no_volumes_are_zero() {
    let s = update_library_statistics(&vec![], 0, 0, 0);
    assert_eq!(s.total_bytes_capacity, 0);
    assert_eq!(s.total_bytes_free, 0);
    assert_eq!(s.total_bytes_used, 0);
}

#[test]
fn every_event_maps_to_its_action() {
    assert_eq!(
        library_event_action(&LibraryManagerEvent::Load(1)),
        LibraryAction::Load(1)
    );
    assert_eq!(
        library_event_action(&LibraryManagerEvent::InstancesModified(2)),
        LibraryAction::Load(2)
    );
    assert_eq!(
        library_event_action(&LibraryManagerEvent::Edit(3)),
        LibraryAction::Edit(3)
    );
    assert_eq!(
        library_event_action(&LibraryManagerEvent::Delete(4)),
        LibraryAction::Delete(4)
    );
}

#[test]
fn apple_account_joins_id_and_usage() {
    let ident = Identifier { id: "0123-4567", usage: "secret key", application: "app" };
    assert_eq!(ident.to_apple_account(), "0123-4567 - secret key");
}

#[test]
fn apple_keyring_handle_is_constructed() {
    let _k = AppleKeyring::new();
}
