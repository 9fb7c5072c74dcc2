use rectangular_promotion::{Error, LatticeWord, ScentIter, TableauCyclicDescentIter};

fn collect_scents(mut it: ScentIter) -> Vec<usize> {
    let mut v = Vec::new();
    while let Some(x) = it.next() {
        v.push(x);
    }
    v
}

fn collect_cyclic(mut it: TableauCyclicDescentIter) -> Vec<usize> {
    let mut v = Vec::new();
    while let Some(x) = it.next() {
        v.push(x);
    }
    v
}

#[test]
fn scents() {
    let raw_lattice_word = vec![0, 1, 0, 0, 1];
    let lattice_word = LatticeWord::new(raw_lattice_word).unwrap();

    let descents = collect_scents(lattice_word.descents());

    assert_eq!(&*descents, &[2]);

    let ascents = collect_scents(lattice_word.ascents());

    assert_eq!(&*ascents, &[1, 4]);
}

#[test]
fn tableau_cyclic_descents() {
    let raw_lattice_word = vec![0, 0, 1, 0, 1, 2, 2, 1, 0, 2, 1, 2];
    let tableau_cyclic_descents = collect_cyclic(
        LatticeWord::new(raw_lattice_word)
            .unwrap()
            .tableau_cyclic_descents()
            .unwrap(),
    );

    assert_eq!(&*tableau_cyclic_descents, &[2, 4, 5, 9, 11]);

    let raw_lattice_word = vec![0, 0, 0, 1, 0, 1, 2, 2, 1, 1, 2, 2];
    let tableau_cyclic_descents = collect_cyclic(
        LatticeWord::new(raw_lattice_word)
            .unwrap()
            .tableau_cyclic_descents()
            .unwrap(),
    );

    assert_eq!(&*tableau_cyclic_descents, &[3, 5, 6, 10, 12]);

    let raw_lattice_word = vec![1, 1, 1, 2, 1, 2, 3, 3, 2, 2, 3, 3];
    let tableau_cyclic_descents = collect_cyclic(
        LatticeWord::new(raw_lattice_word)
            .unwrap()
            .tableau_cyclic_descents()
            .unwrap(),
    );

    assert_eq!(&*tableau_cyclic_descents, &[3, 5, 6, 10, 12]);
}

#[test]
fn promotion() {
    let raw_lattice_word = vec![0, 0, 1, 0, 1, 2, 2, 1, 0, 2, 1, 2];
    let lattice_word = LatticeWord::new(raw_lattice_word).unwrap();

    let first_promotion = lattice_word.promotion().unwrap();

    assert_eq!(
        first_promotion.as_bytes().as_slice(),
        &[0, 0, 0, 1, 0, 1, 2, 2, 1, 1, 2, 2]
    );

    let second_promotion = first_promotion.promotion().unwrap();

    assert_eq!(
        second_promotion.as_bytes().as_slice(),
        &[0, 1, 0, 0, 1, 0, 1, 2, 2, 2, 1, 2]
    );

    let raw_lattice_word = vec![1, 1, 2, 1, 2, 3, 3, 2, 1, 3, 2, 3];
    let lattice_word = LatticeWord::new(raw_lattice_word).unwrap();

    assert_eq!(
        lattice_word.promotion().unwrap().as_bytes().as_slice(),
        &[1, 1, 1, 2, 1, 2, 3, 3, 2, 2, 3, 3]
    );
}

#[test]
fn major_index_is_ascent_sum() {
    let lattice_word = LatticeWord::new(vec![0, 1, 0, 0, 1]).unwrap();
    // Ascents sit at positions 1 and 4; this library's major index sums them.
    assert_eq!(lattice_word.major_index(), 5);

    let lattice_word = LatticeWord::new(vec![0, 0, 1, 0, 1, 2, 2, 1, 0, 2, 1, 2]).unwrap();
    // Ascents: 2, 4, 5, 9, 11.
    assert_eq!(lattice_word.major_index(), 31);

    let empty = LatticeWord::new(vec![]).unwrap();
    assert_eq!(empty.major_index(), 0);
}

#[test]
fn construction_rejects_ballot_violation() {
    assert!(matches!(
        LatticeWord::new(vec![1, 0]),
        Err(Error::NotALatticeWord)
    ));
    assert!(matches!(
        LatticeWord::new(vec![0, 1, 1]),
        Err(Error::NotALatticeWord)
    ));
    // Shifted alphabets are allowed: validity is relative to the minimum.
    assert!(LatticeWord::new(vec![1, 2, 1, 2]).is_ok());
    assert!(matches!(
        LatticeWord::new(vec![2, 1]),
        Err(Error::NotALatticeWord)
    ));
    assert!(LatticeWord::new(vec![]).is_ok());
}

#[test]
fn non_rectangular_content_is_rejected() {
    // Content [3, 1] is not rectangular.
    let lattice_word = LatticeWord::new(vec![0, 1, 0, 0]).unwrap();
    assert!(matches!(
        lattice_word.promotion(),
        Err(Error::NotRectangular)
    ));
    assert!(matches!(
        lattice_word.tableau_cyclic_descents(),
        Err(Error::NotRectangular)
    ));
    assert_eq!(lattice_word.promotion_order(), Err(Error::NotRectangular));
}

#[test]
fn promotion_round_trip() {
    // Repeated promotion returns to the original word after its promotion
    // order many steps, and no earlier.
    let original = LatticeWord::new(vec![0, 0, 1, 0, 1, 2, 2, 1, 0, 2, 1, 2]).unwrap();
    let order = original.promotion_order().unwrap();
    assert!(order >= 1);

    let mut word = original.promotion().unwrap();
    let mut steps = 1usize;
    while word.as_bytes() != original.as_bytes() {
        word = word.promotion().unwrap();
        steps += 1;
        assert!(steps <= order);
    }
    assert_eq!(steps, order);
}

#[test]
fn empty_word_promotes_to_itself() {
    let empty = LatticeWord::new(vec![]).unwrap();
    let promoted = empty.promotion().unwrap();
    assert_eq!(promoted.as_bytes().len(), 0);
    assert_eq!(empty.promotion_order(), Ok(1));
}

#[test]
fn into_variants_match() {
    let word = LatticeWord::new(vec![0, 1, 0, 0, 1]).unwrap();
    let descents = collect_scents(word.descents());
    let ascents = collect_scents(word.ascents());
    let word2 = LatticeWord::new(vec![0, 1, 0, 0, 1]).unwrap();
    assert_eq!(collect_scents(word2.into_descents()), descents);
    let word3 = LatticeWord::new(vec![0, 1, 0, 0, 1]).unwrap();
    assert_eq!(collect_scents(word3.into_ascents()), ascents);

    let word4 = LatticeWord::new(vec![0, 0, 1, 0, 1, 2, 2, 1, 0, 2, 1, 2]).unwrap();
    assert_eq!(
        collect_cyclic(word4.into_tableau_cyclic_descents().unwrap()),
        vec![2, 4, 5, 9, 11]
    );
}

#[test]
fn word_bytes_iterate() {
    let word = LatticeWord::new(vec![0, 1, 0, 0, 1]).unwrap();
    let mut it = rectangular_promotion::IntoIter::new(word.as_bytes().clone());
    let mut collected = Vec::new();
    while let Some(b) = it.next() {
        collected.push(b);
    }
    assert_eq!(collected, vec![0, 1, 0, 0, 1]);
}

#[test]
fn reusable_tracking_shape_matches() {
    let mut tracking = Vec::new();
    let word = LatticeWord::new(vec![0, 0, 1, 0, 1, 2, 2, 1, 0, 2, 1, 2]).unwrap();
    let via_buffer = collect_cyclic(
        word.tableau_cyclic_descents_with_tracking_shape(&mut tracking)
            .unwrap(),
    );
    assert_eq!(via_buffer, vec![2, 4, 5, 9, 11]);

    let word = LatticeWord::new(vec![1, 1, 1, 2, 1, 2, 3, 3, 2, 2, 3, 3]).unwrap();
    let via_buffer = collect_cyclic(
        word.tableau_cyclic_descents_with_tracking_shape(&mut tracking)
            .unwrap(),
    );
    assert_eq!(via_buffer, vec![3, 5, 6, 10, 12]);
}

#[test]
fn cyclic_descent_count_survives_promotion() {
    // The number of cyclic descents is the statistic promotion preserves;
    // check it around the full promotion orbit of both example words.
    for raw in [
        vec![0, 0, 1, 0, 1, 2, 2, 1, 0, 2, 1, 2],
        vec![1, 1, 1, 2, 1, 2, 3, 3, 2, 2, 3, 3],
    ] {
        let original = LatticeWord::new(raw).unwrap();
        let expected = collect_cyclic(original.tableau_cyclic_descents().unwrap()).len();
        let order = original.promotion_order().unwrap();
        let mut word = original;
        for _ in 0..order {
            word = word.promotion().unwrap();
            let count = collect_cyclic(word.tableau_cyclic_descents().unwrap()).len();
            assert_eq!(count, expected);
        }
    }
}

#[test]
fn unchecked_new_wraps_without_scan() {
    let word = LatticeWord::unchecked_new(vec![0, 1, 0, 1, 0]);
    assert_eq!(word.as_bytes().as_slice(), &[0, 1, 0, 1, 0]);
}
