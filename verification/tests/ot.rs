use dense::protocol::ot::curve::index_scalar;
use dense::protocol::ot::functionality::{
    Receiver as PlainReceiver, Sender as PlainSender, Trust,
};
use dense::protocol::ot::{co15, mask, np01, to_array, Choice};

/// `N` distinct messages of `L` bytes.
fn patterns<const N: usize, const L: usize>() -> [[u8; L]; N] {
    let mut messages = [[0u8; L]; N];
    for i in 0..N {
        for k in 0..L {
            messages[i][k] = (i * 31 + k * 7 + 1) as u8;
        }
    }
    messages
}

/// Runs the transfer of Chou and Orlandi for every choice.
fn co15_round_trips<const N: usize, const L: usize>() {
    let messages = patterns::<N, L>();
    for c in 0..N {
        let choice = Choice::<N>::new(c).unwrap();
        let sender = co15::Sender::new().unwrap();
        let receiver = co15::Receiver::<N>::new(sender.hello(), &choice).unwrap();
        let ciphers = sender.ciphers(receiver.reply(), &messages).unwrap();
        assert_eq!(ciphers.len(), N * L);
        let result: [u8; L] = receiver.decrypt(&ciphers).unwrap();
        assert_eq!(result, messages[c]);
    }
}

/// Runs the transfer of Naor and Pinkas for every choice.
fn np01_round_trips<const N: usize, const L: usize>() {
    let messages = patterns::<N, L>();
    for c in 0..N {
        let choice = Choice::<N>::new(c).unwrap();
        let sender = np01::Sender::new(N).unwrap();
        let masks = sender.masks();
        assert_eq!(masks.len(), (N - 1) * 33);
        let receiver = np01::Receiver::<N>::new(&masks, &choice).unwrap();
        let sender_pk = sender.public().unwrap();
        let ciphers = sender.ciphers(receiver.reply(), &messages).unwrap();
        assert_eq!(ciphers.len(), N * L);
        let result: [u8; L] = receiver.decrypt(&sender_pk, &ciphers).unwrap();
        assert_eq!(result, messages[c]);
    }
}

#[test]
fn co15_test_correctness() {
    let msgs = &[[0u8; 4], [1u8; 4], [2u8; 4], [3u8; 4]];
    let index = 2;
    let choice = Choice::<4>::new(index).unwrap();
    let sender = co15::Sender::new().unwrap();
    let receiver = co15::Receiver::new(sender.hello(), &choice).unwrap();
    let ciphers = sender.ciphers(receiver.reply(), msgs).unwrap();
    let result: [u8; 4] = receiver.decrypt(&ciphers).unwrap();
    assert_eq!(result, msgs[index]);
    assert_eq!(result, [2, 2, 2, 2]);
}

#[test]
fn np01_test_correctness() {
    let msgs = &[[0u8; 4], [1u8; 4], [2u8; 4], [3u8; 4]];
    let index = 2;
    let choice = Choice::<4>::new(index).unwrap();
    let sender = np01::Sender::new(4).unwrap();
    let receiver = np01::Receiver::new(&sender.masks(), &choice).unwrap();
    let ciphers = sender.ciphers(receiver.reply(), msgs).unwrap();
    let result: [u8; 4] = receiver.decrypt(&sender.public().unwrap(), &ciphers).unwrap();
    assert_eq!(result, msgs[index]);
    assert_eq!(result, [2, 2, 2, 2]);
}

#[test]
fn ot_functionality_test_correctness() {
    let msgs = &[[0u8; 4], [1u8; 4]];
    let index = 1;
    let choice = Choice::<2>::new(index).unwrap();
    let message = PlainSender::message(msgs);
    let request = PlainReceiver::request(&choice);
    let reply = Trust::run::<2, 4>(&message, &request).unwrap();
    let result: [u8; 4] = PlainReceiver::accept(&reply).unwrap();
    assert_eq!(result, msgs[index]);
}

#[test]
fn co15_round_trip_two_messages() {
    co15_round_trips::<2, 1>();
    co15_round_trips::<2, 16>();
    co15_round_trips::<2, 32>();
    co15_round_trips::<2, 64>();
}

#[test]
fn co15_round_trip_four_messages() {
    co15_round_trips::<4, 1>();
    co15_round_trips::<4, 16>();
    co15_round_trips::<4, 32>();
    co15_round_trips::<4, 64>();
}

#[test]
fn co15_round_trip_sixteen_messages() {
    co15_round_trips::<16, 1>();
    co15_round_trips::<16, 16>();
    co15_round_trips::<16, 32>();
    co15_round_trips::<16, 64>();
}

#[test]
fn np01_round_trip_two_messages() {
    np01_round_trips::<2, 1>();
    np01_round_trips::<2, 16>();
    np01_round_trips::<2, 32>();
    np01_round_trips::<2, 64>();
}

#[test]
fn np01_round_trip_four_messages() {
    np01_round_trips::<4, 1>();
    np01_round_trips::<4, 16>();
    np01_round_trips::<4, 32>();
    np01_round_trips::<4, 64>();
}

#[test]
fn np01_round_trip_sixteen_messages() {
    np01_round_trips::<16, 1>();
    np01_round_trips::<16, 16>();
    np01_round_trips::<16, 32>();
    np01_round_trips::<16, 64>();
}

#[test]
fn co15_messages_depend_on_their_inputs_only() {
    let y = index_scalar(0x1234_5678);
    let x = index_scalar(0x9abc_def0);
    let first = co15::Sender::from_secret(y.clone()).unwrap();
    let second = co15::Sender::from_secret(y).unwrap();
    // the sender's first message is its point
    assert_eq!(first.hello(), second.hello());
    assert_eq!(first.hello().len(), 33);
    // the scalar one gives the generator of the curve
    let generator = co15::Sender::from_secret(index_scalar(1)).unwrap();
    let g = [
        0x02u8, 0x79, 0xbe, 0x66, 0x7e, 0xf9, 0xdc, 0xbb, 0xac, 0x55, 0xa0, 0x62, 0x95, 0xce, 0x87,
        0x0b, 0x07, 0x02, 0x9b, 0xfc, 0xdb, 0x2d, 0xce, 0x28, 0xd9, 0x59, 0xf2, 0x81, 0x5b, 0x16,
        0xf8, 0x17, 0x98,
    ];
    assert_eq!(generator.hello(), &g[..]);
    // the receiver's message depends on the sender's point, its scalar and
    // its choice
    let zero = Choice::<2>::new(0).unwrap();
    let one = Choice::<2>::new(1).unwrap();
    let r0 = co15::Receiver::answer(first.hello(), x.clone(), &zero).unwrap();
    let r0_again = co15::Receiver::answer(second.hello(), x.clone(), &zero).unwrap();
    let r1 = co15::Receiver::answer(first.hello(), x.clone(), &one).unwrap();
    assert_eq!(r0.reply(), r0_again.reply());
    assert_ne!(r0.reply(), r1.reply());
    // for the choice zero the receiver's point is x G
    let xg = co15::Sender::from_secret(x).unwrap();
    assert_eq!(r0.reply(), xg.hello());
    // the sender's second message is a function of its scalar, the
    // receiver's point and the messages
    let a = [[1u8; 8], [2u8; 8]];
    let b = [[1u8; 8], [3u8; 8]];
    let ca = first.ciphers(r0.reply(), &a).unwrap();
    let cb = first.ciphers(r0.reply(), &b).unwrap();
    assert_eq!(ca, second.ciphers(r0_again.reply(), &a).unwrap());
    // the block of the first message does not change with the second
    assert_eq!(ca[..8], cb[..8]);
    assert_ne!(ca[8..], cb[8..]);
    // the receiver reads its choice and nothing of the other message
    assert_eq!(r0.decrypt::<8>(&ca), Some([1u8; 8]));
    assert_eq!(r0.decrypt::<8>(&cb), Some([1u8; 8]));
    assert_eq!(r1.decrypt::<8>(&first.ciphers(r1.reply(), &a).unwrap()), Some([2u8; 8]));
    assert_ne!(r1.decrypt::<8>(&ca), Some([2u8; 8]));
}

#[test]
fn co15_hashes_each_point_in_its_compressed_encoding() {
    let zero = Choice::<2>::new(0).unwrap();
    let one = Choice::<2>::new(1).unwrap();
    let messages = [[1u8; 8], [2u8; 8]];
    // a sender whose point has an even second coordinate
    let mut y = 0x1234u64;
    let sender = loop {
        let sender = co15::Sender::from_secret(index_scalar(y)).unwrap();
        if sender.hello()[0] == 2 {
            break sender;
        }
        y += 1;
    };
    // and a receiver whose point has one
    let mut x = 0x5678u64;
    let receiver = loop {
        let receiver = co15::Receiver::answer(sender.hello(), index_scalar(x), &one).unwrap();
        if receiver.reply()[0] == 2 {
            break receiver;
        }
        x += 1;
    };
    let ciphers = sender.ciphers(receiver.reply(), &messages).unwrap();
    assert_eq!(receiver.decrypt::<8>(&ciphers), Some([2u8; 8]));
    // the same points, written with the first coordinate alone
    let mut compact_r = receiver.reply().to_vec();
    compact_r[0] = 5;
    assert_eq!(sender.ciphers(&compact_r, &messages).unwrap(), ciphers);
    let mut compact_s = sender.hello().to_vec();
    compact_s[0] = 5;
    let other = co15::Receiver::answer(&compact_s, index_scalar(x), &one).unwrap();
    assert_eq!(other.reply(), receiver.reply());
    assert_eq!(other.decrypt::<8>(&ciphers), Some([2u8; 8]));
    // another point gives other pads
    let elsewhere = co15::Receiver::answer(sender.hello(), index_scalar(x), &zero).unwrap();
    assert_ne!(sender.ciphers(elsewhere.reply(), &messages).unwrap(), ciphers);
}

#[test]
fn co15_refuses_malformed_messages() {
    let choice = Choice::<2>::new(1).unwrap();
    let sender = co15::Sender::new().unwrap();
    let messages = [[5u8; 4], [6u8; 4]];
    // no point
    assert!(co15::Receiver::<2>::new(&[0xffu8; 33], &choice).is_none());
    assert!(co15::Receiver::<2>::new(&[2u8; 5], &choice).is_none());
    assert!(sender.ciphers(&[0xffu8; 33], &messages).is_none());
    assert!(sender.ciphers(&[], &messages).is_none());
    // no scalar: the order of the group and beyond
    assert!(co15::Sender::from_secret(vec![0xff; 32]).is_none());
    assert!(co15::Sender::from_secret(vec![1; 31]).is_none());
    // a message of the wrong length
    let receiver = co15::Receiver::<2>::new(sender.hello(), &choice).unwrap();
    let ciphers = sender.ciphers(receiver.reply(), &messages).unwrap();
    assert!(receiver.decrypt::<4>(&ciphers[..7]).is_none());
    assert!(receiver.decrypt::<3>(&ciphers).is_none());
    assert_eq!(receiver.decrypt::<4>(&ciphers), Some([6u8; 4]));
}

#[test]
fn np01_refuses_malformed_messages() {
    let choice = Choice::<3>::new(2).unwrap();
    let sender = np01::Sender::new(3).unwrap();
    let masks = sender.masks();
    let messages = [[5u8; 4], [6u8; 4], [7u8; 4]];
    assert!(np01::Receiver::<3>::new(&masks[..65], &choice).is_none());
    assert!(np01::Receiver::<3>::new(&[0xffu8; 66], &choice).is_none());
    assert!(np01::Receiver::<3>::answer(&masks, vec![0; 32], &choice).is_none());
    let receiver = np01::Receiver::<3>::new(&masks, &choice).unwrap();
    assert!(sender.ciphers(&[0xffu8; 33], &messages).is_none());
    let ciphers = sender.ciphers(receiver.reply(), &messages).unwrap();
    let pk = sender.public().unwrap();
    assert!(receiver.decrypt::<4>(&[0u8; 33], &ciphers).is_none());
    assert!(receiver.decrypt::<4>(&pk, &ciphers[..11]).is_none());
    assert_eq!(receiver.decrypt::<4>(&pk, &ciphers), Some([7u8; 4]));
    // a sender that holds a point of the receiver's own answer cannot
    // derive the secret for it
    let broken = np01::Sender::from_parts(vec![receiver.reply().to_vec()], index_scalar(5));
    assert!(broken.ciphers(receiver.reply(), &[[0u8; 1], [1u8; 1]]).is_none());
    assert!(np01::Sender::from_parts(vec![], vec![0; 32]).public().is_none());
}

#[test]
fn np01_first_choice_always_has_a_receiver() {
    let zero = Choice::<3>::new(0).unwrap();
    // for the first choice the masks are not read: only their length counts
    let receiver = np01::Receiver::<3>::new(&[0u8; 66], &zero).unwrap();
    assert_eq!(receiver.reply().len(), 33);
    assert!(np01::Receiver::<3>::new(&[0u8; 65], &zero).is_none());
    // a drawn sender has a public key
    let sender = np01::Sender::new(3).unwrap();
    assert_eq!(sender.public().unwrap().len(), 33);
}

#[test]
fn np01_first_choice_sends_the_public_key() {
    let secret = index_scalar(77);
    let sender = np01::Sender::from_parts(vec![], secret.clone());
    let zero = Choice::<1>::new(0).unwrap();
    let receiver = np01::Receiver::<1>::answer(&[], secret, &zero).unwrap();
    assert_eq!(receiver.reply(), &sender.public().unwrap()[..]);
    let ciphers = sender.ciphers(receiver.reply(), &[[9u8; 2]]).unwrap();
    assert_eq!(receiver.decrypt::<2>(&sender.public().unwrap(), &ciphers), Some([9u8; 2]));
}

#[test]
fn mask_is_an_exclusive_or() {
    assert_eq!(mask(&[1, 2, 3], &[0xff, 0x0f, 3, 9]), vec![0xfe, 0x0d, 0]);
    assert_eq!(mask(&[1, 2, 3], &[0xff]), vec![0xfe]);
    assert_eq!(mask(&[], &[0xff]), Vec::<u8>::new());
    let message = [10u8, 20, 30, 40];
    let pad = [7u8, 77, 177, 250, 3];
    assert_eq!(mask(&mask(&message, &pad), &pad), message.to_vec());
    assert_eq!(to_array::<3>(&[7, 8, 9]), [7, 8, 9]);
}

#[test]
fn index_scalars_are_big_endian() {
    let mut expected = [0u8; 32];
    expected[31] = 0x04;
    expected[30] = 0x03;
    expected[29] = 0x02;
    expected[28] = 0x01;
    assert_eq!(index_scalar(0x0102_0304), expected.to_vec());
    assert_eq!(index_scalar(0), vec![0u8; 32]);
    let mut top = vec![0u8; 24];
    top.extend_from_slice(&[0xff; 8]);
    assert_eq!(index_scalar(u64::MAX), top);
}

#[test]
fn trusted_party_selects_the_block() {
    let message = [1u8, 2, 3, 4, 5, 6];
    assert_eq!(Trust::run::<3, 2>(&message, &[1, 0, 0, 0, 0, 0, 0, 0]), Some(vec![3, 4]));
    assert_eq!(Trust::run::<3, 2>(&message, &[2, 0, 0, 0, 0, 0, 0, 0]), Some(vec![5, 6]));
    assert_eq!(Trust::run::<3, 2>(&message, &[3, 0, 0, 0, 0, 0, 0, 0]), None);
    assert_eq!(Trust::run::<3, 2>(&message, &[0, 1, 0, 0, 0, 0, 0, 0]), None);
    assert_eq!(Trust::run::<3, 2>(&message, &[0xff; 8]), None);
    assert_eq!(Trust::run::<3, 2>(&message, &[1, 0, 0, 0]), None);
    assert_eq!(Trust::run::<2, 3>(&message, &[1, 0, 0, 0, 0, 0, 0, 0]), Some(vec![4, 5, 6]));
    assert_eq!(Trust::run::<2, 4>(&message, &[1, 0, 0, 0, 0, 0, 0, 0]), None);
    assert_eq!(Trust::run::<6, 0>(&message, &[9, 0, 0, 0, 0, 0, 0, 0]), Some(vec![]));
    assert_eq!(PlainSender::message(&[[1u8, 2], [3, 4], [5, 6]]), message.to_vec());
    assert_eq!(
        PlainReceiver::request(&Choice::<300>::new(258).unwrap()),
        vec![2, 1, 0, 0, 0, 0, 0, 0]
    );
    assert_eq!(PlainReceiver::accept::<2>(&[8, 9]), Some([8, 9]));
    assert_eq!(PlainReceiver::accept::<2>(&[8, 9, 10]), None);
}

#[test]
fn wiped_secrets_are_gone() {
    let messages = [[5u8; 4], [6u8; 4]];
    let choice = Choice::<2>::new(1).unwrap();
    let mut sender = co15::Sender::from_secret(index_scalar(5)).unwrap();
    let mut receiver = co15::Receiver::answer(sender.hello(), index_scalar(9), &choice).unwrap();
    let hello = sender.hello().to_vec();
    let reply = receiver.reply().to_vec();
    let ciphers = sender.ciphers(&reply, &messages).unwrap();
    assert_eq!(receiver.decrypt::<4>(&ciphers), Some(messages[1]));
    sender.wipe();
    receiver.wipe();
    // what was sent stays, what was secret does not
    assert_eq!(sender.hello(), &hello[..]);
    assert_eq!(receiver.reply(), &reply[..]);
    assert_ne!(sender.ciphers(&reply, &messages), Some(ciphers.clone()));
    assert_ne!(receiver.decrypt::<4>(&ciphers), Some(messages[1]));
    let mut bytes = vec![1u8, 2, 3];
    dense::protocol::ot::wipe(&mut bytes);
    assert_eq!(bytes, vec![0u8; 3]);
    let mut sender = np01::Sender::from_parts(vec![], index_scalar(3));
    assert!(sender.public().is_some());
    sender.wipe();
    assert!(sender.public().is_none());
    let first = Choice::<1>::new(0).unwrap();
    let mut receiver = np01::Receiver::answer(&[], index_scalar(3), &first).unwrap();
    let pk = receiver.reply().to_vec();
    assert_eq!(receiver.decrypt::<1>(&pk, &[7]).map(|m| m.len()), Some(1));
    receiver.wipe();
    assert_eq!(receiver.decrypt::<1>(&pk, &[7]), None);
}

#[test]
fn np01_sender_draws_one_point_for_each_message_but_the_first() {
    for n in [0usize, 1] {
        let sender = np01::Sender::new(n).unwrap();
        assert!(sender.masks().is_empty());
        assert_eq!(sender.public().unwrap().len(), 33);
    }
    for n in [2usize, 3, 7] {
        let sender = np01::Sender::new(n).unwrap();
        assert_eq!(sender.masks().len(), (n - 1) * 33);
        assert_eq!(sender.public().unwrap().len(), 33);
    }
}

#[test]
fn drawn_parties_hold_what_belongs_to_their_scalars() {
    let zero = Choice::<2>::new(0).unwrap();
    let one = Choice::<2>::new(1).unwrap();
    let sender = co15::Sender::new().unwrap();
    assert_eq!(sender.hello().len(), 33);
    for choice in [&zero, &one] {
        let receiver = co15::Receiver::<2>::new(sender.hello(), choice).unwrap();
        assert_eq!(receiver.reply().len(), 33);
        assert_ne!(receiver.reply(), sender.hello());
    }
    let other = np01::Sender::new(2).unwrap();
    let masks = other.masks();
    for choice in [&zero, &one] {
        let receiver = np01::Receiver::<2>::new(&masks, choice).unwrap();
        assert_eq!(receiver.reply().len(), 33);
    }
    assert!(np01::Receiver::<2>::new(&masks[..32], &one).is_none());
    assert!(np01::Receiver::<2>::new(&[], &zero).is_none());
    assert!(np01::Receiver::<1>::new(&[], &Choice::<1>::new(0).unwrap()).is_some());
}
