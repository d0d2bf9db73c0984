use dense::protocol::ot::{co15, np01, Choice, Step};
use std::collections::VecDeque;

/// One side of a run: its steps, what it awaits and what came of it.
struct Side<T> {
    awaiting: bool,
    outcome: Option<T>,
    pushed: Vec<Vec<u8>>,
}

impl<T> Side<T> {
    fn new() -> Self {
        Side { awaiting: false, outcome: None, pushed: Vec::new() }
    }

    /// Makes steps until the side is done or has to wait for the peer;
    /// says whether any was made.
    fn advance(
        &mut self,
        step: &mut impl FnMut(Option<&[u8]>) -> Step<T>,
        inbox: &mut VecDeque<Vec<u8>>,
        outbox: &mut VecDeque<Vec<u8>>,
        order: &mut Vec<(bool, usize)>,
        sender: bool,
    ) -> bool {
        let mut moved = false;
        while self.outcome.is_none() {
            let pulled = if self.awaiting {
                match inbox.pop_front() {
                    Some(message) => Some(message),
                    None => break,
                }
            } else {
                None
            };
            self.awaiting = false;
            moved = true;
            match step(pulled.as_deref()) {
                Step::Push(bytes) => {
                    order.push((sender, bytes.len()));
                    self.pushed.push(bytes.clone());
                    outbox.push_back(bytes);
                }
                Step::Pull => self.awaiting = true,
                Step::Done(outcome) => self.outcome = Some(outcome),
                Step::Refused => panic!("a step was refused"),
            }
        }
        moved
    }
}

/// Runs a sender and a receiver against each other. Gives what the
/// receiver read, what each side pushed, and the pushes in their order:
/// who pushed, and how many bytes.
fn exchange<T>(
    mut sender: impl FnMut(Option<&[u8]>) -> Step<()>,
    mut receiver: impl FnMut(Option<&[u8]>) -> Step<T>,
) -> (T, Vec<Vec<u8>>, Vec<Vec<u8>>, Vec<(bool, usize)>) {
    let mut to_receiver = VecDeque::new();
    let mut to_sender = VecDeque::new();
    let mut order = Vec::new();
    let mut s = Side::<()>::new();
    let mut r = Side::<T>::new();
    loop {
        let a = s.advance(&mut sender, &mut to_sender, &mut to_receiver, &mut order, true);
        let b = r.advance(&mut receiver, &mut to_receiver, &mut to_sender, &mut order, false);
        if s.outcome.is_some() && r.outcome.is_some() {
            break;
        }
        assert!(a || b, "both sides wait");
    }
    assert!(to_receiver.is_empty() && to_sender.is_empty());
    (r.outcome.unwrap(), s.pushed, r.pushed, order)
}

fn patterns<const N: usize, const L: usize>() -> [[u8; L]; N] {
    let mut messages = [[0u8; L]; N];
    for i in 0..N {
        for k in 0..L {
            messages[i][k] = (i * 29 + k * 5 + 3) as u8;
        }
    }
    messages
}

fn co15_run<const N: usize, const L: usize>() {
    let messages = patterns::<N, L>();
    for c in 0..N {
        let mut sender = co15::Sender::new().unwrap();
        let mut reception = co15::Reception::<N>::new(Choice::new(c).unwrap());
        let (read, sent, answered, order) = exchange(
            |pulled| sender.step(pulled, &messages),
            |pulled| reception.step::<L>(pulled),
        );
        assert_eq!(read, messages[c]);
        // the sender pushes its point and the messages under their pads,
        // the receiver its point in between
        assert_eq!(order, vec![(true, 33), (false, 33), (true, N * L)]);
        assert_eq!(sent[0].as_slice(), sender.hello());
        assert_eq!(sent.len(), 2);
        assert_eq!(answered.len(), 1);
        // the run is over
        assert!(matches!(sender.step(None, &messages), Step::Refused));
        assert!(matches!(reception.step::<L>(None), Step::Refused));
    }
}

fn np01_run<const N: usize, const L: usize>() {
    let messages = patterns::<N, L>();
    for c in 0..N {
        let mut sender = np01::Sender::new(N).unwrap();
        let mut reception = np01::Reception::<N>::new(Choice::new(c).unwrap());
        let (read, sent, answered, order) = exchange(
            |pulled| sender.step(pulled, &messages),
            |pulled| reception.step::<L>(pulled),
        );
        assert_eq!(read, messages[c]);
        assert_eq!(
            order,
            vec![(true, (N - 1) * 33), (false, 33), (true, 33), (true, N * L)]
        );
        assert_eq!(sent[0], sender.masks());
        assert_eq!(sent[1], sender.public().unwrap());
        assert_eq!(answered.len(), 1);
        assert!(matches!(sender.step(None, &messages), Step::Refused));
        assert!(matches!(reception.step::<L>(None), Step::Refused));
    }
}

#[test]
fn co15_runs_step_by_step() {
    co15_run::<2, 1>();
    co15_run::<2, 64>();
    co15_run::<4, 16>();
    co15_run::<4, 4>();
    co15_run::<16, 32>();
}

#[test]
fn np01_runs_step_by_step() {
    np01_run::<2, 1>();
    np01_run::<2, 64>();
    np01_run::<4, 16>();
    np01_run::<4, 4>();
    np01_run::<16, 32>();
}

#[test]
fn co15_sender_refuses_what_is_not_due() {
    let messages = [[7u8; 4], [8u8; 4]];
    let mut sender = co15::Sender::new().unwrap();
    // a message where none is due
    assert!(matches!(sender.step(Some(&[2u8; 33]), &messages), Step::Refused));
    // the sender is where it was
    let hello = sender.hello().to_vec();
    assert!(matches!(sender.step(None, &messages), Step::Push(s) if s == hello));
    assert!(matches!(sender.step(None, &messages), Step::Pull));
    // nothing where the receiver's point is due, and bytes that are no point
    assert!(matches!(sender.step(None, &messages), Step::Refused));
    assert!(matches!(sender.step(Some(&[0xffu8; 33]), &messages), Step::Refused));
    assert!(matches!(sender.step(Some(&[]), &messages), Step::Refused));
    // a point is answered with the messages under their pads
    let mut reception = co15::Reception::<2>::new(Choice::new(1).unwrap());
    assert!(matches!(reception.step::<4>(None), Step::Pull));
    let point = match reception.step::<4>(Some(&hello)) {
        Step::Push(point) => point,
        _ => panic!("the sender's point was refused"),
    };
    let ciphers = match sender.step(Some(&point), &messages) {
        Step::Push(ciphers) => ciphers,
        _ => panic!("the receiver's point was refused"),
    };
    assert_eq!(ciphers, sender.ciphers(&point, &messages).unwrap());
    assert!(matches!(sender.step(Some(&point), &messages), Step::Refused));
    assert!(matches!(sender.step(None, &messages), Step::Done(())));
    // the receiver refuses what has not the length, and reads its choice
    assert!(matches!(reception.step::<4>(Some(&ciphers)), Step::Refused));
    assert!(matches!(reception.step::<4>(None), Step::Pull));
    assert!(matches!(reception.step::<4>(None), Step::Refused));
    assert!(matches!(reception.step::<4>(Some(&ciphers[..7])), Step::Refused));
    assert!(matches!(reception.step::<4>(Some(&ciphers)), Step::Done(m) if m == [8u8; 4]));
    assert!(matches!(reception.step::<4>(Some(&ciphers)), Step::Refused));
}

#[test]
fn co15_receiver_refuses_what_is_no_point() {
    let mut reception = co15::Reception::<2>::new(Choice::new(0).unwrap());
    // nothing is due before the first step
    assert!(matches!(reception.step::<4>(Some(&[2u8; 33])), Step::Refused));
    assert!(matches!(reception.step::<4>(None), Step::Pull));
    assert!(matches!(reception.step::<4>(Some(&[0xffu8; 33])), Step::Refused));
    assert!(matches!(reception.step::<4>(Some(&[2u8; 5])), Step::Refused));
    // the run goes on with a point
    let sender = co15::Sender::new().unwrap();
    assert!(matches!(reception.step::<4>(Some(sender.hello())), Step::Push(p) if p.len() == 33));
    reception.wipe();
}

#[test]
fn np01_parties_refuse_what_is_not_due() {
    let messages = [[1u8; 4], [2u8; 4], [3u8; 4]];
    let mut sender = np01::Sender::new(3).unwrap();
    let mut reception = np01::Reception::<3>::new(Choice::new(2).unwrap());
    assert!(matches!(sender.step(Some(&[2u8; 33]), &messages), Step::Refused));
    let masks = match sender.step(None, &messages) {
        Step::Push(masks) => masks,
        _ => panic!("no masks"),
    };
    assert_eq!(masks.len(), 66);
    assert!(matches!(sender.step(None, &messages), Step::Pull));
    assert!(matches!(reception.step::<4>(None), Step::Pull));
    // masks of the wrong length
    assert!(matches!(reception.step::<4>(Some(&masks[..65])), Step::Refused));
    let answer = match reception.step::<4>(Some(&masks)) {
        Step::Push(answer) => answer,
        _ => panic!("the masks were refused"),
    };
    // an answer that is no public key
    assert!(matches!(sender.step(Some(&[0xffu8; 33]), &messages), Step::Refused));
    let public = match sender.step(Some(&answer), &messages) {
        Step::Push(public) => public,
        _ => panic!("the answer was refused"),
    };
    assert_eq!(public, sender.public().unwrap());
    let ciphers = match sender.step(None, &messages) {
        Step::Push(ciphers) => ciphers,
        _ => panic!("no messages"),
    };
    assert_eq!(ciphers, sender.ciphers(&answer, &messages).unwrap());
    assert!(matches!(sender.step(None, &messages), Step::Done(())));
    assert!(matches!(reception.step::<4>(None), Step::Pull));
    assert!(matches!(reception.step::<4>(Some(&public)), Step::Pull));
    assert!(matches!(reception.step::<4>(Some(&ciphers[..5])), Step::Refused));
    assert!(matches!(reception.step::<4>(Some(&ciphers)), Step::Done(m) if m == [3u8; 4]));
    reception.wipe();
}
