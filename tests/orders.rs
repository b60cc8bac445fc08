use orders::{
    Binary, BinaryRef, CardinalRef, ChainI, ChainIRef, ChainRef, Order, OrderOwned, OrderRef,
    PartialOrderManual, Specific, Tied, TiedIRef, TiedRef,
};
use rand::rngs::StdRng;
use rand::SeedableRng;

#[test]
fn chain_ref_checks_permutation() {
    assert!(ChainRef::try_new(&[1, 0, 2]).is_some());
    assert!(ChainRef::try_new(&[1, 1, 2]).is_none());
    assert!(ChainRef::try_new(&[0, 3, 1]).is_none());
    let c = ChainRef::new(&[2, 0, 1]);
    assert_eq!(c.elements(), 3);
    assert_eq!(c.top(2), &[2, 0]);
    let i = c.to_incomplete();
    assert_eq!(i.elements(), 3);
    assert_eq!(i.order(), &[2, 0, 1]);
    assert_eq!(c.to_owned().order(), &[2, 0, 1]);
}

#[test]
fn chain_incomplete_basics() {
    assert!(ChainIRef::try_new(4, &[3, 1]).is_some());
    assert!(ChainIRef::try_new(4, &[4, 1]).is_none());
    assert!(ChainIRef::try_new(4, &[1, 1]).is_none());
    let c = ChainIRef::new(4, &[3, 1, 2]);
    assert_eq!(c.len(), 3);
    assert!(!c.is_empty());
    assert_eq!(c.winner(), 3);
    assert_eq!(c.top(2).order(), &[3, 1]);
    let owned = c.to_owned();
    assert_eq!(owned.elements(), 4);
    assert_eq!(owned.len(), 3);
    assert_eq!(owned.as_ref(), c);
    let t = c.to_tied(&[true, false]);
    assert_eq!(t.elements(), 4);
    assert_eq!(t.winners(), &[3, 1]);
}

#[test]
fn chain_owned_clone_from_ref() {
    let mut a = ChainI::new(3, vec![0]);
    assert!(ChainI::try_new(3, vec![0, 3]).is_none());
    a.clone_from_ref(ChainIRef::new(5, &[4, 2, 1]));
    assert_eq!(a.elements(), 5);
    assert_eq!(a.as_ref().order(), &[4, 2, 1]);
}

#[test]
fn chain_random_is_valid() {
    let mut rng = StdRng::seed_from_u64(4);
    for _ in 0..20 {
        let c = ChainI::random(&mut rng, 6);
        assert_eq!(c.elements(), 6);
        assert!(c.len() < 6);
        assert!(orders::unique_and_bounded(6, c.as_ref().order()));
    }
    assert_eq!(ChainI::random(&mut rng, 0).len(), 0);
}

#[test]
fn chain_to_partial() {
    let c = ChainI::new(4, vec![2, 0]);
    let p = c.to_partial();
    assert_eq!(p.elements(), 4);
    assert!(p.lt(0, 2));
    assert!(!p.lt(2, 0));
    assert!(p.le(1, 1));
    assert!(p.incomparable(1, 3));
    assert!(p.incomparable(0, 1));
    assert!(p.eq(3, 3));
}

#[test]
fn tied_checks_input() {
    assert!(Tied::try_new(vec![1, 0], vec![true]).is_some());
    assert!(Tied::try_new(vec![1, 0], vec![]).is_none());
    assert!(Tied::try_new(vec![1, 1], vec![true]).is_none());
    assert!(Tied::try_new(vec![], vec![]).is_some());
    assert!(TiedRef::try_new(&[0, 2, 1], &[false, false]).is_some());
    assert!(TiedRef::try_new(&[0, 3, 1], &[false, false]).is_none());
}

#[test]
fn tied_new_tied_all_winners() {
    let t = Tied::new_tied(10);
    assert_eq!(t.as_ref().winners().len(), 10);
    assert_eq!(t.order(), &[0, 1, 2, 3, 4, 5, 6, 7, 8, 9]);
    assert_eq!(Tied::new_tied(0).len(), 0);
}

#[test]
fn tied_winners_and_groups() {
    let t = TiedRef::new(&[2, 0, 1, 3], &[true, false, true]);
    assert_eq!(t.elements(), 4);
    assert_eq!(t.winners(), &[2, 0]);
    let groups = t.iter_groups();
    assert_eq!(groups, vec![&[2, 0][..], &[1, 3][..]]);
    let single = TiedRef::new(&[1, 0, 2], &[false, false]);
    assert_eq!(single.winners(), &[1]);
    assert_eq!(single.iter_groups().len(), 3);
    let empty = TiedRef::new(&[], &[]);
    assert!(empty.iter_groups().is_empty());
    assert!(empty.winners().is_empty());
}

#[test]
fn tied_winner_in_top_group() {
    let mut rng = StdRng::seed_from_u64(8);
    let t = TiedRef::new(&[3, 1, 0, 2], &[true, true, false]);
    for _ in 0..10 {
        let w = t.winner(&mut rng);
        assert_eq!(w.elements(), 4);
        assert!([3, 1, 0].contains(&w.value()));
    }
}

#[test]
fn tied_random_is_valid() {
    let mut rng = StdRng::seed_from_u64(6);
    let t = Tied::random(&mut rng, 7);
    assert_eq!(t.len(), 7);
    assert_eq!(t.tied().len(), 6);
    assert!(orders::unique_and_bounded(7, t.order()));
    assert_eq!(Tied::random(&mut rng, 0).len(), 0);
}

#[test]
fn tied_clone_from_ref() {
    let mut t = Tied::new(vec![0], vec![]);
    t.clone_from_ref(TiedRef::new(&[1, 2, 0], &[true, false]));
    assert_eq!(t.order(), &[1, 2, 0]);
    assert_eq!(t.tied(), &[true, false]);
    let r = TiedRef::new(&[1, 0], &[false]).to_owned();
    assert_eq!(r.order(), &[1, 0]);
}

#[test]
fn tied_to_partial() {
    let t = Tied::new(vec![2, 0, 1, 3], vec![true, false, true]);
    let p = t.to_partial();
    assert!(p.lt(1, 2));
    assert!(p.lt(3, 0));
    assert!(!p.lt(0, 3));
    assert!(p.incomparable(2, 0));
    assert!(p.incomparable(1, 3));
}

#[test]
fn tied_from_cardinal() {
    let scores = [1, 5, 1, 7];
    let t = Tied::from_cardinal(CardinalRef::new(&scores));
    assert_eq!(t.order()[0], 3);
    assert_eq!(t.order()[1], 1);
    assert_eq!(t.tied(), &[false, false, true]);
    let mut low = t.order()[2..].to_vec();
    low.sort();
    assert_eq!(low, vec![0, 2]);
}

#[test]
fn tied_incomplete_winners() {
    let t = TiedIRef::new(6, &[5, 2, 0], &[true, false]);
    assert_eq!(t.elements(), 6);
    assert_eq!(t.winners(), &[5, 2]);
}

#[test]
fn specific_order() {
    let s = Specific::new(2, 4);
    assert_eq!(s.value(), 2);
    assert_eq!(s.elements(), 4);
    assert_eq!(s.len(), 1);
    let p = s.to_partial();
    assert!(p.lt(0, 2));
    assert!(p.lt(3, 2));
    assert!(p.incomparable(0, 1));
    let mut rng = StdRng::seed_from_u64(12);
    let mut seen = [false; 3];
    for _ in 0..30 {
        let r = Specific::random(&mut rng, 3);
        assert!(r.value() < 3);
        seen[r.value()] = true;
    }
    assert!(seen.iter().filter(|&&b| b).count() >= 2);
}

#[test]
fn cardinal_and_binary() {
    let c = CardinalRef::new(&[3, 0, 5, 2]);
    assert_eq!(c.len(), 4);
    assert!(!c.is_empty());
    let b = c.to_binary(3);
    assert_eq!(b.values(), &[true, false, true, false]);
    assert_eq!(c.to_owned().values(), &[3, 0, 5, 2]);
    let r = BinaryRef::new(&[true, false]);
    assert_eq!(r.len(), 2);
    assert!(BinaryRef::new(&[]).is_empty());
    assert_eq!(r.to_owned().values(), &[true, false]);
    let owned = Binary::new(vec![false]);
    assert_eq!(owned.as_ref().values(), &[false]);
}

#[test]
fn partial_order_finish_checks() {
    let mut m = PartialOrderManual::new(3);
    m.set(0, 1);
    m.set(1, 2);
    assert!(m.finish().is_none());
    let mut m = PartialOrderManual::new(3);
    m.set(0, 1);
    m.set(1, 2);
    m.set(0, 2);
    let p = m.finish().unwrap();
    assert!(p.lt(0, 2));
    assert!(!p.lt(2, 0));
    let mut m = PartialOrderManual::new(2);
    m.set(1, 1);
    assert!(m.finish().is_none());
}
