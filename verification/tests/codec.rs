use lolraft::ballot::{BallotStore, Vote};
use lolraft::clock::Clock;
use lolraft::command::Command;
use lolraft::entry::Entry;
use lolraft::error::Error;
use lolraft::index_key::{compare_keys, comparator_fn, index_key, key_index};
use lolraft::membership::Membership;
use lolraft::storage::{
    ballot_record, entry_record, parse_entry_record, parse_tag_record, tag_record, Namespace,
    StorageBuilder,
};
use lolraft::wire::{copy_bytes, get_u64, put_u64, same_bytes};
use std::cmp::Ordering;

#[test]
fn ballot_round_trip() {
    let v = Vote { cur_term: 7, voted_for: Some(3) };
    let bytes = v.encode();
    assert_eq!(bytes, vec![7, 0, 0, 0, 0, 0, 0, 0, 1, 3, 0, 0, 0, 0, 0, 0, 0]);
    assert_eq!(Vote::decode(&bytes), Ok(v));
    let none = Vote { cur_term: 258, voted_for: None };
    assert_eq!(none.encode(), vec![2, 1, 0, 0, 0, 0, 0, 0, 0]);
    assert_eq!(Vote::decode(&none.encode()), Ok(none));
}

#[test]
fn ballot_of_first_boot() {
    assert_eq!(Vote::new(), Vote { cur_term: 0, voted_for: None });
    assert_eq!(BallotStore::new().load_ballot(), Vote { cur_term: 0, voted_for: None });
}

#[test]
fn malformed_ballot_is_refused() {
    assert_eq!(Vote::decode(&[]), Err(Error::BadLogState));
    assert_eq!(Vote::decode(&[0; 8]), Err(Error::BadLogState));
    assert_eq!(Vote::decode(&[0, 0, 0, 0, 0, 0, 0, 0, 2]), Err(Error::BadLogState));
    assert_eq!(Vote::decode(&[0, 0, 0, 0, 0, 0, 0, 0, 1]), Err(Error::BadLogState));
    assert_eq!(Vote::decode(&[0; 17]), Err(Error::BadLogState));
    assert_eq!(Vote::decode(&[0; 10]), Err(Error::BadLogState));
}

#[test]
fn saved_ballot_survives_restart() {
    let mut s = BallotStore::new();
    s.save_ballot(Vote { cur_term: 1, voted_for: Some(42) });
    s.save_ballot(Vote { cur_term: 9, voted_for: Some(5) });
    let disk = s.persist();
    let after = BallotStore::recover(&disk).unwrap();
    assert_eq!(after.load_ballot(), Vote { cur_term: 9, voted_for: Some(5) });
    assert!(BallotStore::recover(&[1, 2, 3]).is_err());
}

#[test]
fn entry_round_trip() {
    let e = Entry {
        prev_clock: Clock { term: 1, index: 2 },
        this_clock: Clock { term: 3, index: 4 },
        command: vec![9, 8, 7],
    };
    let bytes = e.encode();
    assert_eq!(bytes.len(), 35);
    assert_eq!(&bytes[0..8], &[1, 0, 0, 0, 0, 0, 0, 0]);
    assert_eq!(&bytes[8..16], &[2, 0, 0, 0, 0, 0, 0, 0]);
    assert_eq!(&bytes[16..24], &[3, 0, 0, 0, 0, 0, 0, 0]);
    assert_eq!(&bytes[24..32], &[4, 0, 0, 0, 0, 0, 0, 0]);
    assert_eq!(&bytes[32..], &[9, 8, 7]);
    let d = Entry::decode(&bytes).unwrap();
    assert!(d.same_as(&e));
    assert_eq!(d.encode(), bytes);
    assert!(Entry::decode(&bytes[..31]).is_none());
    let empty = Entry::decode(&bytes[..32]).unwrap();
    assert!(empty.command.is_empty());
    assert!(!empty.same_as(&e));
    assert!(e.duplicate().same_as(&e));
}

#[test]
fn command_encodings() {
    assert_eq!(Command::Noop.encode(), vec![0]);
    let m = Membership::from_ids(&vec![2, 1]);
    assert_eq!(
        Command::Snapshot { membership: m.duplicate() }.encode(),
        vec![1, 2, 0, 0, 0, 0, 0, 0, 0, 1, 0, 0, 0, 0, 0, 0, 0, 2, 0, 0, 0, 0, 0, 0, 0]
    );
    assert_eq!(
        Command::ClusterConfiguration { membership: Membership::new() }.encode(),
        vec![2, 0, 0, 0, 0, 0, 0, 0, 0]
    );
    assert_eq!(Command::User { bytes: vec![97, 98] }.encode(), vec![3, 97, 98]);
    assert_eq!(Command::Kernel { bytes: vec![] }.encode(), vec![4]);
}

#[test]
fn command_round_trip() {
    let commands = vec![
        Command::Noop,
        Command::Snapshot { membership: Membership::from_ids(&vec![5, 1, 9]) },
        Command::ClusterConfiguration { membership: Membership::from_ids(&vec![0]) },
        Command::User { bytes: vec![0, 1, 2, 255] },
        Command::Kernel { bytes: vec![7; 100] },
    ];
    for c in commands {
        let bytes = c.encode();
        let d = Command::decode(&bytes).unwrap();
        assert_eq!(d.encode(), bytes);
        match (&c, &d) {
            (Command::Noop, Command::Noop) => {}
            (Command::Snapshot { membership: a }, Command::Snapshot { membership: b }) => {
                assert!(a.same_as(b))
            }
            (
                Command::ClusterConfiguration { membership: a },
                Command::ClusterConfiguration { membership: b },
            ) => assert!(a.same_as(b)),
            (Command::User { bytes: a }, Command::User { bytes: b }) => assert_eq!(a, b),
            (Command::Kernel { bytes: a }, Command::Kernel { bytes: b }) => assert_eq!(a, b),
            _ => panic!("decoded another kind of command"),
        }
    }
}

#[test]
fn unknown_tag_is_refused() {
    assert!(matches!(Command::decode(&[5]), Err(Error::BadLogState)));
    assert!(matches!(Command::decode(&[255, 1, 2]), Err(Error::BadLogState)));
    assert!(matches!(Command::decode(&[]), Err(Error::BadLogState)));
}

#[test]
fn malformed_payload_is_refused() {
    // a no-op with a payload
    assert!(matches!(Command::decode(&[0, 0]), Err(Error::BadLogState)));
    // a membership without its count
    assert!(matches!(Command::decode(&[1, 1, 0, 0]), Err(Error::BadLogState)));
    // a membership shorter than its count says
    assert!(matches!(
        Command::decode(&[2, 1, 0, 0, 0, 0, 0, 0, 0]),
        Err(Error::BadLogState)
    ));
    // a membership longer than its count says
    assert!(matches!(
        Command::decode(&[2, 0, 0, 0, 0, 0, 0, 0, 0, 1]),
        Err(Error::BadLogState)
    ));
    // members out of order
    let mut bytes = vec![1u8, 2, 0, 0, 0, 0, 0, 0, 0];
    bytes.extend_from_slice(&[2, 0, 0, 0, 0, 0, 0, 0]);
    bytes.extend_from_slice(&[1, 0, 0, 0, 0, 0, 0, 0]);
    assert!(matches!(Command::decode(&bytes), Err(Error::BadLogState)));
    // a member listed twice
    let mut bytes = vec![1u8, 2, 0, 0, 0, 0, 0, 0, 0];
    bytes.extend_from_slice(&[1, 0, 0, 0, 0, 0, 0, 0]);
    bytes.extend_from_slice(&[1, 0, 0, 0, 0, 0, 0, 0]);
    assert!(matches!(Command::decode(&bytes), Err(Error::BadLogState)));
}

#[test]
fn only_bad_log_state_is_fatal() {
    assert!(Error::BadLogState.fatal());
    assert!(!Error::BadReplicationStream.fatal());
    assert!(!Error::BadSnapshotChunk.fatal());
    assert!(!Error::EntryNotFound(3).fatal());
    assert!(!Error::LeaderUnknown.fatal());
    assert!(!Error::PeerNotFound(1).fatal());
    assert!(!Error::ProcessNotFound(2).fatal());
}

#[test]
fn index_keys_are_little_endian() {
    assert_eq!(index_key(1), vec![1, 0, 0, 0, 0, 0, 0, 0]);
    assert_eq!(index_key(258), vec![2, 1, 0, 0, 0, 0, 0, 0]);
    assert_eq!(index_key(u64::MAX), vec![255; 8]);
    assert_eq!(key_index(&[2, 1, 0, 0, 0, 0, 0, 0]), Some(258));
    assert_eq!(key_index(&[2, 1, 0, 0, 0, 0, 0, 0, 77]), Some(258));
    assert_eq!(key_index(&[2, 1, 0]), None);
    for i in [0u64, 1, 255, 256, 65535, 1 << 40, u64::MAX] {
        assert_eq!(key_index(&index_key(i)), Some(i));
    }
}

#[test]
fn comparator_orders_by_index() {
    // byte-wise these keys compare the other way round
    assert_eq!(comparator_fn(&index_key(1), &index_key(256)), Ordering::Less);
    assert_eq!(comparator_fn(&index_key(256), &index_key(1)), Ordering::Greater);
    assert_eq!(comparator_fn(&index_key(77), &index_key(77)), Ordering::Equal);
    assert_eq!(comparator_fn(&index_key(0), &index_key(u64::MAX)), Ordering::Less);
    assert_eq!(compare_keys(&index_key(5), &index_key(4)), Some(Ordering::Greater));
    assert_eq!(compare_keys(&[1, 2], &index_key(4)), None);
    let mut keys: Vec<Vec<u8>> = [300u64, 2, 70000, 1, 256].iter().map(|i| index_key(*i)).collect();
    keys.sort_by(|a, b| comparator_fn(a, b));
    let sorted: Vec<u64> = keys.iter().map(|k| key_index(k).unwrap()).collect();
    assert_eq!(sorted, vec![1, 2, 256, 300, 70000]);
}

#[test]
fn wire_helpers() {
    let mut out = vec![9u8];
    put_u64(&mut out, 0x0102030405060708);
    assert_eq!(out, vec![9, 8, 7, 6, 5, 4, 3, 2, 1]);
    assert_eq!(get_u64(&out, 1), 0x0102030405060708);
    assert!(same_bytes(&copy_bytes(&out), &out));
    assert!(!same_bytes(&out, &vec![9u8]));
    assert!(!same_bytes(&vec![1, 2], &vec![1, 3]));
}

#[test]
fn persisted_layout() {
    let b = StorageBuilder::new("/tmp/lol/disk1.db");
    assert_eq!(b.path(), "/tmp/lol/disk1.db");
    let initial = b.initial_records();
    assert_eq!(initial.len(), 1);
    assert_eq!(initial[0].namespace, Namespace::Ctrl);
    assert_eq!(initial[0].key, b"ballot".to_vec());
    assert_eq!(Vote::decode(&initial[0].value), Ok(Vote { cur_term: 0, voted_for: None }));
    assert_eq!(Namespace::Entries.name(), "entries");
    assert_eq!(Namespace::Tags.name(), "tags");
    assert_eq!(Namespace::Ctrl.name(), "ctrl");

    let v = Vote { cur_term: 1, voted_for: Some(11) };
    let r = ballot_record(&v);
    assert_eq!(r.key, b"ballot".to_vec());
    assert_eq!(Vote::decode(&r.value), Ok(v));

    let e = Entry {
        prev_clock: Clock { term: 0, index: 4 },
        this_clock: Clock { term: 2, index: 5 },
        command: Command::Noop.encode(),
    };
    let r = entry_record(5, &e);
    assert_eq!(r.namespace, Namespace::Entries);
    assert_eq!(r.key, vec![5, 0, 0, 0, 0, 0, 0, 0]);
    let (i, back) = parse_entry_record(&r.key, &r.value).unwrap();
    assert_eq!(i, 5);
    assert!(back.same_as(&e));
    assert!(matches!(parse_entry_record(&[1], &r.value), Err(Error::BadLogState)));
    assert!(matches!(parse_entry_record(&r.key, &[1, 2, 3]), Err(Error::BadLogState)));

    let r = tag_record(258, &vec![7, 8]);
    assert_eq!(r.namespace, Namespace::Tags);
    assert_eq!(r.key, vec![2, 1, 0, 0, 0, 0, 0, 0]);
    assert_eq!(r.value, vec![7, 8]);
    assert_eq!(parse_tag_record(&r.key, &r.value), Ok((258, vec![7, 8])));
    assert_eq!(parse_tag_record(&[2, 1], &r.value), Err(Error::BadLogState));
}
