use recapn::allocator::{space, Alloc, AllocLen, Fixed, Global, Growing, Never, Scratch, Segment, Word};

fn len(n: u32) -> AllocLen {
    AllocLen::new(n).unwrap()
}

/// Allocates a segment of at least `size` words, hands it to `check` and gives it back.
fn alloc_then<A: Alloc>(alloc: &mut A, size: u32, check: impl FnOnce(&mut Segment)) {
    let mut segment = alloc.allocate(len(size)).unwrap();
    check(&mut segment);
    alloc.dealloc(segment);
}

#[test]
fn global_alloc() {
    let mut alloc = Global;
    alloc_then(&mut alloc, 5, |segment| {
        assert_eq!(segment.as_slice(), &[Word::null(); 5]);
    });
}

#[test]
fn fixed_alloc() {
    let mut fixed = Fixed::new(len(5), Global);
    alloc_then(&mut fixed, 1, |segment| {
        assert_eq!(segment.as_slice(), &[Word::null(); 5]);
    });
    alloc_then(&mut fixed, 7, |segment| {
        assert_eq!(segment.as_slice(), &[Word::null(); 7]);
    });
}

#[test]
fn growing_alloc() {
    let mut growing = Growing::new(len(1), Global);
    alloc_then(&mut growing, 1, |segment| {
        assert_eq!(segment.as_slice(), &[Word::null(); 1]);
    });
    // next one will be 2
    alloc_then(&mut growing, 1, |segment| {
        assert_eq!(segment.as_slice(), &[Word::null(); 2]);
    });
    // next one would be 4, but the request for 5 is bigger, so that is used
    alloc_then(&mut growing, 5, |segment| {
        assert_eq!(segment.as_slice(), &[Word::null(); 5]);
    });
    // next one would be 9
    alloc_then(&mut growing, 1, |segment| {
        assert_eq!(segment.as_slice(), &[Word::null(); 9]);
    });
}

#[test]
fn scratch_alloc() {
    let mut static_space = space::<5>();
    {
        let mut scratch = Scratch::with_space(&mut static_space, Global);
        alloc_then(&mut scratch, 1, |segment| {
            assert_eq!(segment.as_slice(), &[Word::null(); 5]);
            for i in 0..5 {
                segment.set(i, Word([255; 8]));
            }
        });
        // next one won't use scratch space
        alloc_then(&mut scratch, 1, |segment| {
            assert_eq!(segment.as_slice(), &[Word::null(); 1]);
        });
    }
    // the space was written; handed out again, it is zero
    let mut scratch = Scratch::with_space(&mut static_space, Global);
    alloc_then(&mut scratch, 1, |segment| {
        assert_eq!(segment.as_slice(), &[Word::null(); 5]);
    });
}

#[test]
fn scratch_too_small_uses_next_allocator() {
    let mut static_space = space::<2>();
    let mut scratch = Scratch::with_space(&mut static_space, Global);
    alloc_then(&mut scratch, 3, |segment| {
        assert_eq!(segment.as_slice(), &[Word::null(); 3]);
    });
    // the scratch space is still there for a request that fits
    alloc_then(&mut scratch, 2, |segment| {
        assert_eq!(segment.as_slice(), &[Word::null(); 2]);
    });
}

#[test]
fn never_alloc_gives_nothing() {
    let mut never = Never;
    assert!(never.allocate(len(1)).is_none());
}
