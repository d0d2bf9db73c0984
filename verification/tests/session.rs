use dense::protocol::party::{Session, ID_LEN, READ_LIMIT};

const YES: [u8; 8] = [1, 0, 0, 0, 0, 0, 0, 0];
const NO: [u8; 8] = [0; 8];

#[test]
fn session_starts_empty() {
    assert!(Session::<3>::new(3).is_none());
    assert!(Session::<0>::new(0).is_none());
    let session = Session::<3>::new(2).unwrap();
    assert_eq!(session.me(), 2);
    assert_eq!(session.pending(), 2);
    assert!(!session.established());
    for peer in 0..4 {
        assert!(!session.is_connected(peer));
    }
    assert_eq!(session.greeting(), vec![2, 0, 0, 0, 0, 0, 0, 0]);
    assert_eq!(ID_LEN, 8);
    assert_eq!(READ_LIMIT, 1024);
    assert!(Session::<1>::new(0).unwrap().established());
}

#[test]
fn listener_takes_each_lower_peer_once() {
    let mut session = Session::<4>::new(2).unwrap();
    // a peer that claims the listener's own id or a higher one is refused
    assert_eq!(session.accept(&[2, 0, 0, 0, 0, 0, 0, 0]), (NO.to_vec(), None));
    assert_eq!(session.accept(&[3, 0, 0, 0, 0, 0, 0, 0]), (NO.to_vec(), None));
    assert_eq!(session.accept(&[1, 1, 0, 0, 0, 0, 0, 0]), (NO.to_vec(), None));
    assert_eq!(session.accept(&[0xff; 8]), (NO.to_vec(), None));
    assert_eq!(session.pending(), 2);
    // a lower peer is taken
    assert_eq!(session.accept(&[1, 0, 0, 0, 0, 0, 0, 0]), (YES.to_vec(), Some(1)));
    assert!(session.is_connected(1));
    assert_eq!(session.pending(), 1);
    // but not a second time
    assert_eq!(session.accept(&[1, 0, 0, 0, 0, 0, 0, 0]), (NO.to_vec(), None));
    assert_eq!(session.pending(), 1);
    assert_eq!(session.accept(&[0; 8]), (YES.to_vec(), Some(0)));
    assert_eq!(session.pending(), 0);
    assert!(!session.established());
    assert!(!session.is_connected(2));
}

#[test]
fn connector_goes_by_the_answer() {
    let mut session = Session::<4>::new(1).unwrap();
    assert!(!session.acknowledged(2, &NO));
    assert!(!session.is_connected(2));
    assert!(session.acknowledged(2, &YES));
    assert!(session.is_connected(2));
    assert!(session.acknowledged(3, &[0, 0, 0, 0, 0, 0, 0, 0x80]));
    assert!(session.is_connected(3));
    assert!(!session.established());
    assert_eq!(session.accept(&session.greeting()), (NO.to_vec(), None));
    assert_eq!(session.accept(&[0; 8]), (YES.to_vec(), Some(0)));
    assert!(session.established());
    assert!(!session.is_connected(1));
    assert_eq!(session.me(), 1);
}

#[test]
fn two_parties_meet() {
    let mut low = Session::<2>::new(0).unwrap();
    let mut high = Session::<2>::new(1).unwrap();
    assert_eq!(low.other(), 1);
    assert_eq!(high.other(), 0);
    assert_eq!(low.pending(), 0);
    assert_eq!(high.pending(), 1);
    let (answer, slot) = high.accept(&low.greeting());
    assert_eq!(slot, Some(0));
    assert!(low.acknowledged(1, &answer));
    assert!(low.established());
    assert!(high.established());
}
