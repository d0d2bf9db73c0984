use dense::math::uint::{Odd, Uint};
use dense::protocol::ot::Choice;

#[test]
fn uint_basics() {
    assert_eq!(Uint::<2>::zero().limbs, [0, 0]);
    assert_eq!(Uint::<2>::one().limbs, [1, 0]);
    assert_eq!(Uint::<3>::from_u64(7).limbs, [7, 0, 0]);
    assert!(Uint::<2>::zero().is_zero());
    assert!(!Uint::<2>::one().is_zero());
    assert!(!Uint::<2> { limbs: [0, 1] }.is_zero());
    assert!(Uint::<2> { limbs: [3, 1] }.is_odd());
    assert!(!Uint::<2> { limbs: [2, 1] }.is_odd());
    assert!(Uint::<2> { limbs: [2, 1] }.equals(&Uint { limbs: [2, 1] }));
    assert!(!Uint::<2> { limbs: [2, 1] }.equals(&Uint { limbs: [2, 0] }));
}

#[test]
fn odd_takes_odd_numbers_only() {
    assert!(Odd::new(Uint::<1>::from_u64(4)).is_none());
    assert!(Odd::new(Uint::<1>::from_u64(0)).is_none());
    let odd = Odd::new(Uint::<1>::from_u64(5)).unwrap();
    assert_eq!(odd.get(), Uint::from_u64(5));
}

#[test]
fn choice_is_in_range() {
    assert!(Choice::<4>::new(4).is_none());
    assert!(Choice::<4>::new(usize::MAX).is_none());
    assert!(Choice::<0>::new(0).is_none());
    assert_eq!(Choice::<4>::new(3).unwrap().get(), 3);
    assert_eq!(Choice::<4>::new(0).unwrap().get(), 0);
}
