use rectangular_promotion::{Error, LatticeWord, LatticeWords};

#[test]
fn basic_case() {
    let lattice_words = LatticeWords::new(vec![3, 2]).unwrap();
    let mut iter = lattice_words.iter();

    assert_eq!(iter.next().unwrap().as_bytes().as_slice(), &[0, 1, 0, 1, 0]);
    assert_eq!(iter.next().unwrap().as_bytes().as_slice(), &[0, 0, 1, 1, 0]);
    assert_eq!(iter.next().unwrap().as_bytes().as_slice(), &[0, 1, 0, 0, 1]);
    assert_eq!(iter.next().unwrap().as_bytes().as_slice(), &[0, 0, 1, 0, 1]);
    assert_eq!(iter.next().unwrap().as_bytes().as_slice(), &[0, 0, 0, 1, 1]);
    assert!(iter.next().is_none());
}

#[test]
fn empty_case() {
    let lattice_words = LatticeWords::new(vec![]).unwrap();
    let mut iter = lattice_words.iter();

    assert_eq!(iter.next().unwrap().as_bytes().as_slice(), &[] as &[u8]);
    assert!(iter.next().is_none());
}

#[test]
fn large_count() {
    let mut iter = LatticeWords::new(vec![4, 4, 4, 4]).unwrap().into_streaming_iter();
    let mut n = 0;

    while iter.next() {
        n += 1;
    }

    assert_eq!(n, 24024);
}


#[test]
fn enumerated_words_are_valid_distinct_and_of_content() {
    let lattice_words = LatticeWords::new(vec![4, 4, 4, 4]).unwrap();
    let mut iter = lattice_words.streaming_iter();
    let mut seen: Vec<Vec<u8>> = Vec::new();

    while iter.next() {
        let word = iter.word().clone();
        // Every yielded word satisfies the ballot property.
        assert!(LatticeWord::new(word.clone()).is_ok());
        // Every yielded word has the content [4, 4, 4, 4].
        let mut counts = [0usize; 4];
        for &symbol in word.iter() {
            counts[symbol as usize] += 1;
        }
        assert_eq!(counts, [4, 4, 4, 4]);
        seen.push(word);
    }

    assert_eq!(seen.len(), 24024);
    seen.sort();
    seen.dedup();
    assert_eq!(seen.len(), 24024);
}

#[test]
fn exhaustion_is_permanent() {
    let lattice_words = LatticeWords::new(vec![2, 1]).unwrap();
    let mut iter = lattice_words.streaming_iter();
    let mut n = 0;
    while iter.next() {
        n += 1;
    }
    assert_eq!(n, 2);
    assert!(!iter.next());
    assert!(!iter.next());
}

#[test]
fn weight_is_validated_and_trimmed() {
    assert!(matches!(
        LatticeWords::new(vec![1, 2]),
        Err(Error::InvalidContent)
    ));
    assert!(matches!(
        LatticeWords::new(vec![3, 1, 2]),
        Err(Error::InvalidContent)
    ));

    let lattice_words = LatticeWords::new(vec![2, 1, 0, 0]).unwrap();
    assert_eq!(lattice_words.weight().as_slice(), &[2, 1]);

    let all_zero = LatticeWords::new(vec![0, 0]).unwrap();
    assert_eq!(all_zero.weight().len(), 0);
}

#[test]
fn largest_alphabet() {
    // 255 rows of width one: the single lattice word runs through every
    // row index once, in order.
    let weight = vec![1u8; 255];
    let lattice_words = LatticeWords::new(weight).unwrap();
    let mut iter = lattice_words.streaming_iter();
    assert!(iter.next());
    let first: Vec<u8> = iter.word().clone();
    let expected: Vec<u8> = (0..=254).collect();
    assert_eq!(first, expected);
    assert!(!iter.next());
}

#[test]
fn streaming_iter_yields_same_words_as_iter() {
    let lattice_words = LatticeWords::new(vec![3, 2]).unwrap();
    let mut streaming = lattice_words.streaming_iter();
    let mut owned = lattice_words.iter();

    loop {
        let advanced = streaming.next();
        match owned.next() {
            Some(word) => {
                assert!(advanced);
                assert_eq!(word.as_bytes(), streaming.word());
            }
            None => {
                assert!(!advanced);
                break;
            }
        }
    }
}
