//! The experience curve.

use delt_core::lvl::Lvl;

#[test]
fn default_level_is_one() {
    assert_eq!(Lvl::default().0, 1);
}

#[test]
fn to_xp_small_levels() {
    assert_eq!(Lvl(0).to_xp(), 1);
    assert_eq!(Lvl(1).to_xp(), 2);
    assert_eq!(Lvl(2).to_xp(), 7);
    assert_eq!(Lvl(10).to_xp(), 22026);
    assert_eq!(Lvl(20).to_xp(), 485165195);
}

#[test]
fn to_xp_clamps_at_the_ends() {
    assert_eq!(Lvl(-3).to_xp(), 0);
    assert_eq!(Lvl(89).to_xp(), u128::MAX);
}

#[test]
fn from_xp_small_values() {
    assert_eq!(Lvl::from_xp(0).0, 0);
    assert_eq!(Lvl::from_xp(1).0, 1);
    assert_eq!(Lvl::from_xp(2).0, 2);
    assert_eq!(Lvl::from_xp(6).0, 2);
    assert_eq!(Lvl::from_xp(7).0, 3);
    assert_eq!(Lvl::from_xp(22026).0, 11);
}

#[test]
fn level_survives_the_round_trip() {
    for n in 1..=20 {
        let xp = Lvl(n).to_xp();
        assert!(Lvl::from_xp(xp).0 >= n);
    }
}
