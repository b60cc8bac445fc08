use orders::{
    sort_using, unique_and_bounded, AddError, CardinalDense, ChainIDense, ChainIRef, ChainRef,
    TiedDense, TiedRef, TotalDense,
};
use rand::rngs::StdRng;
use rand::SeedableRng;

fn is_permutation(v: &[usize]) -> bool {
    unique_and_bounded(v.len(), v)
}

#[test]
fn collect_empty() {
    let v: Vec<TiedRef> = Vec::new();
    let res: Option<TiedDense> = TiedDense::from_refs(v);
    assert!(res.is_none());
}

#[test]
fn sort_using_empty() {
    sort_using::<usize, usize>(&mut [], &mut []);
}

#[test]
fn total_generate_three_elements() {
    let mut rng = StdRng::seed_from_u64(7);
    let mut d = TotalDense::new(3);
    assert_eq!(d.len(), 0);
    d.generate_uniform(&mut rng, 5);
    assert_eq!(d.len(), 5);
    for i in 0..5 {
        let o = d.get(i).order();
        assert_eq!(o.len(), 3);
        let mut sorted = o.to_vec();
        sorted.sort();
        assert_eq!(sorted, vec![0, 1, 2]);
    }
}

#[test]
fn total_generate_shuffles() {
    let mut rng = StdRng::seed_from_u64(11);
    let mut d = TotalDense::new(10);
    d.generate_uniform(&mut rng, 20);
    assert_eq!(d.len(), 20);
    let identity: Vec<usize> = (0..10).collect();
    let mut moved = false;
    for i in 0..20 {
        let o = d.get(i).order();
        assert!(is_permutation(o));
        if o != identity.as_slice() {
            moved = true;
        }
    }
    assert!(moved);
}

#[test]
fn total_generate_no_elements() {
    let mut rng = StdRng::seed_from_u64(1);
    let mut d = TotalDense::new(0);
    d.generate_uniform(&mut rng, 4);
    assert_eq!(d.len(), 0);
    assert!(d.is_empty());
}

#[test]
fn total_push_wrong_elements() {
    let mut d = TotalDense::new(4);
    d.push(ChainRef::new(&[3, 1, 0, 2])).unwrap();
    let res = d.push(ChainRef::new(&[2, 0, 1]));
    assert_eq!(res, Err(AddError::Elements));
    assert_eq!(d.len(), 1);
}

#[test]
fn total_push_and_get() {
    let mut d = TotalDense::new(3);
    assert_eq!(d.push(ChainRef::new(&[2, 0, 1])), Ok(()));
    assert_eq!(d.push(ChainRef::new(&[0, 1, 2])), Ok(()));
    assert_eq!(d.len(), 2);
    assert_eq!(d.get(0).order(), &[2, 0, 1]);
    assert_eq!(d.get(1).order(), &[0, 1, 2]);
    assert!(d.try_get(2).is_none());
}

#[test]
fn total_push_to_empty_universe() {
    let mut d = TotalDense::new(0);
    assert_eq!(d.push(ChainRef::new(&[])), Err(AddError::Elements));
    assert_eq!(d.len(), 0);
}

#[test]
fn total_remove_element() {
    let mut d = TotalDense::new(4);
    d.push(ChainRef::new(&[3, 1, 0, 2])).unwrap();
    d.push(ChainRef::new(&[1, 2, 3, 0])).unwrap();
    assert_eq!(d.remove_element(1), Ok(()));
    assert_eq!(d.elements(), 3);
    assert_eq!(d.len(), 2);
    assert_eq!(d.get(0).order(), &[2, 0, 1]);
    assert_eq!(d.get(1).order(), &[1, 2, 0]);
}

#[test]
fn total_remove_missing_element() {
    let mut d = TotalDense::new(2);
    d.push(ChainRef::new(&[1, 0])).unwrap();
    assert!(d.remove_element(2).is_err());
    assert_eq!(d.elements(), 2);
    assert_eq!(d.get(0).order(), &[1, 0]);
}

#[test]
fn total_remove_last_element() {
    let mut d = TotalDense::new(1);
    d.push(ChainRef::new(&[0])).unwrap();
    assert_eq!(d.remove_element(0), Ok(()));
    assert_eq!(d.elements(), 0);
    assert_eq!(d.len(), 0);
}

#[test]
fn total_remove_keeps_permutations() {
    let mut rng = StdRng::seed_from_u64(3);
    let mut d = TotalDense::new(6);
    d.generate_uniform(&mut rng, 8);
    d.remove_element(2).unwrap();
    assert_eq!(d.elements(), 5);
    assert_eq!(d.len(), 8);
    for i in 0..8 {
        let o = d.get(i).order();
        assert_eq!(o.len(), 5);
        assert!(is_permutation(o));
    }
}

#[test]
fn tied_from_total_has_no_ties() {
    let mut d = TotalDense::new(3);
    d.push(ChainRef::new(&[2, 0, 1])).unwrap();
    d.push(ChainRef::new(&[1, 2, 0])).unwrap();
    let t = TiedDense::from_total(d);
    assert_eq!(t.elements(), 3);
    assert_eq!(t.len(), 2);
    assert_eq!(t.get(0).order(), &[2, 0, 1]);
    assert_eq!(t.get(0).tied(), &[false, false]);
    assert_eq!(t.get(1).order(), &[1, 2, 0]);
    assert_eq!(t.get(1).tied(), &[false, false]);
}

#[test]
fn tied_generate_valid() {
    let mut rng = StdRng::seed_from_u64(5);
    let mut d = TiedDense::new(6);
    d.generate_uniform(&mut rng, 30);
    assert_eq!(d.len(), 30);
    let mut seen_true = false;
    let mut seen_false = false;
    for i in 0..30 {
        let o = d.get(i);
        assert!(is_permutation(o.order()));
        assert_eq!(o.order().len(), 6);
        assert_eq!(o.tied().len(), 5);
        for &t in o.tied() {
            if t {
                seen_true = true;
            } else {
                seen_false = true;
            }
        }
    }
    assert!(seen_true && seen_false);
}

#[test]
fn tied_generate_no_elements() {
    let mut rng = StdRng::seed_from_u64(2);
    let mut d = TiedDense::new(0);
    d.generate_uniform(&mut rng, 3);
    assert_eq!(d.len(), 0);
}

#[test]
fn tied_push_wrong_elements() {
    let mut d = TiedDense::new(4);
    let res = d.push(TiedRef::new(&[2, 0, 1], &[true, false]));
    assert_eq!(res, Err(AddError::Elements));
    assert_eq!(d.len(), 0);
}

#[test]
fn tied_remove_merges_ties() {
    let mut d = TiedDense::new(4);
    d.push(TiedRef::new(&[0, 1, 2, 3], &[true, false, true])).unwrap();
    d.push(TiedRef::new(&[0, 1, 2, 3], &[true, true, false])).unwrap();
    d.remove_element(1).unwrap();
    assert_eq!(d.elements(), 3);
    assert_eq!(d.len(), 2);
    assert_eq!(d.get(0).order(), &[0, 1, 2]);
    assert_eq!(d.get(0).tied(), &[false, true]);
    assert_eq!(d.get(1).order(), &[0, 1, 2]);
    assert_eq!(d.get(1).tied(), &[true, false]);
}

#[test]
fn tied_remove_at_ends() {
    let mut d = TiedDense::new(4);
    d.push(TiedRef::new(&[2, 0, 3, 1], &[true, false, true])).unwrap();
    d.push(TiedRef::new(&[3, 0, 1, 2], &[false, true, true])).unwrap();
    d.remove_element(2).unwrap();
    assert_eq!(d.get(0).order(), &[0, 2, 1]);
    assert_eq!(d.get(0).tied(), &[false, true]);
    assert_eq!(d.get(1).order(), &[2, 0, 1]);
    assert_eq!(d.get(1).tied(), &[false, true]);
}

#[test]
fn tied_remove_missing_element() {
    let mut d = TiedDense::new(3);
    d.push(TiedRef::new(&[2, 0, 1], &[true, false])).unwrap();
    assert_eq!(d.remove_element(3), Err("Element not in collection"));
    assert_eq!(d.elements(), 3);
    assert_eq!(d.get(0).tied(), &[true, false]);
}

#[test]
fn tied_remove_only_element() {
    let mut d = TiedDense::new(1);
    d.push(TiedRef::new(&[0], &[])).unwrap();
    d.push(TiedRef::new(&[0], &[])).unwrap();
    d.remove_element(0).unwrap();
    assert_eq!(d.elements(), 0);
    assert_eq!(d.len(), 0);
}

#[test]
fn tied_from_refs_mismatch() {
    let a = [0, 1, 2];
    let b = [1, 0];
    let refs = vec![TiedRef::new(&a, &[false, true]), TiedRef::new(&b, &[true])];
    assert!(TiedDense::from_refs(refs).is_none());
}

#[test]
fn tied_from_refs_packs() {
    let a = [0, 1, 2];
    let b = [2, 1, 0];
    let refs = vec![TiedRef::new(&a, &[false, true]), TiedRef::new(&b, &[true, true])];
    let d = TiedDense::from_refs(refs).unwrap();
    assert_eq!(d.elements(), 3);
    assert_eq!(d.len(), 2);
    assert_eq!(d.get(1).order(), &[2, 1, 0]);
    assert_eq!(d.get(1).tied(), &[true, true]);
}

#[test]
fn cardinal_scores_by_tie_group() {
    let mut d = TiedDense::new(4);
    d.push(TiedRef::new(&[2, 0, 1, 3], &[true, false, true])).unwrap();
    let c = CardinalDense::try_from_tied(d).unwrap();
    assert_eq!(c.len(), 1);
    assert_eq!(c.min(), 0);
    assert_eq!(c.max(), 3);
    // Element 2 and 0 form the top group, 1 and 3 the next one.
    assert_eq!(c.get(0).values(), &[3, 2, 3, 2]);
}

#[test]
fn cardinal_scores_no_ties() {
    let mut d = TiedDense::new(3);
    d.push(TiedRef::new(&[1, 2, 0], &[false, false])).unwrap();
    d.push(TiedRef::new(&[0, 1, 2], &[true, true])).unwrap();
    let c = CardinalDense::try_from_tied(d).unwrap();
    assert_eq!(c.get(0).values(), &[0, 2, 1]);
    assert_eq!(c.get(1).values(), &[2, 2, 2]);
}

#[test]
fn specific_winners_from_top_group() {
    let mut rng = StdRng::seed_from_u64(9);
    let mut d = TiedDense::new(4);
    for _ in 0..10 {
        d.push(TiedRef::new(&[3, 1, 0, 2], &[true, false, true])).unwrap();
    }
    d.push(TiedRef::new(&[2, 1, 0, 3], &[false, true, true])).unwrap();
    let s = d.to_specific_using(&mut rng);
    assert_eq!(s.elements(), 4);
    assert_eq!(s.len(), 11);
    let mut saw = [false; 4];
    for i in 0..10 {
        let w = s.try_get(i).unwrap().value();
        assert!(w == 3 || w == 1);
        saw[w] = true;
    }
    assert!(saw[3] && saw[1]);
    assert_eq!(s.try_get(10).unwrap().value(), 2);
}

#[test]
fn chain_dense_push_and_get() {
    let mut d = ChainIDense::new(5);
    d.push(ChainIRef::new(5, &[4, 1])).unwrap();
    d.push(ChainIRef::new(5, &[])).unwrap();
    d.push(ChainIRef::new(5, &[0, 2, 3])).unwrap();
    assert_eq!(d.len(), 3);
    assert_eq!(d.get(0).order(), &[4, 1]);
    assert!(d.get(1).is_empty());
    assert_eq!(d.get(2).order(), &[0, 2, 3]);
    assert!(d.try_get(3).is_none());
    assert_eq!(d.push(ChainIRef::new(4, &[1])), Err(AddError::Elements));
    assert_eq!(d.len(), 3);
}

#[test]
fn chain_dense_generate_valid() {
    let mut rng = StdRng::seed_from_u64(13);
    let mut d = ChainIDense::new(5);
    d.generate_uniform(&mut rng, 40);
    assert_eq!(d.len(), 40);
    let mut lengths = [false; 6];
    for i in 0..40 {
        let o = d.get(i);
        assert!(o.len() >= 1 && o.len() <= 5);
        assert!(unique_and_bounded(5, o.order()));
        lengths[o.len()] = true;
    }
    assert!(lengths.iter().filter(|&&b| b).count() >= 2);
}

#[test]
fn chain_dense_from_total() {
    let mut t = TotalDense::new(3);
    t.push(ChainRef::new(&[1, 0, 2])).unwrap();
    t.push(ChainRef::new(&[2, 1, 0])).unwrap();
    let d = ChainIDense::from_total(t);
    assert_eq!(d.elements(), 3);
    assert_eq!(d.len(), 2);
    assert_eq!(d.get(0).order(), &[1, 0, 2]);
    assert_eq!(d.get(1).order(), &[2, 1, 0]);
}

#[test]
fn chain_dense_remove_element() {
    let mut d = ChainIDense::new(5);
    d.push(ChainIRef::new(5, &[4, 1])).unwrap();
    d.push(ChainIRef::new(5, &[0, 2, 3])).unwrap();
    assert_eq!(d.remove_element(2), Ok(()));
    assert_eq!(d.elements(), 4);
    assert_eq!(d.get(0).order(), &[3, 1]);
    assert_eq!(d.get(1).order(), &[0, 2]);
    assert!(d.remove_element(4).is_err());
}
