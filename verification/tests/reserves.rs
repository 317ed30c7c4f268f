use arrayref::{
    reserve, reserve_fixed, reserve_fixed_mut, reserve_mut, reserve_tail, reserve_tail_fixed,
    reserve_tail_fixed_mut, reserve_tail_mut, OutOfBounds,
};

#[test]
fn reserve_takes_the_front() {
    let mut data: &[u16] = &[0, 1, 2, 3, 4, 5, 6, 7, 8, 9];
    let head = reserve(&mut data, 5).unwrap();
    assert_eq!(head, &[0, 1, 2, 3, 4][..]);
    assert_eq!(data, &[5, 6, 7, 8, 9][..]);
    for (i, j) in data.iter().zip(head) {
        assert_eq!(*i, *j + 5);
    }
}

#[test]
fn reserve_tail_takes_the_back() {
    let mut data: &[u16] = &[0, 1, 2, 3, 4, 5, 6, 7, 8, 9];
    let tail = reserve_tail(&mut data, 5).unwrap();
    assert_eq!(tail, &[5, 6, 7, 8, 9][..]);
    assert_eq!(data, &[0, 1, 2, 3, 4][..]);
    for (i, j) in data.iter().zip(tail) {
        assert_eq!(*i + 5, *j);
    }
}

#[test]
fn reserve_round_trip_reassembles() {
    let orig: Vec<u32> = (0..17).collect();
    let mut h: &[u32] = &orig;
    let head = reserve(&mut h, 6).unwrap();
    let mut joined: Vec<u32> = head.to_vec();
    joined.extend_from_slice(h);
    assert_eq!(joined, orig);

    let mut h2: &[u32] = &orig;
    let tail = reserve_tail(&mut h2, 6).unwrap();
    let mut joined2: Vec<u32> = h2.to_vec();
    joined2.extend_from_slice(tail);
    assert_eq!(joined2, orig);
}

#[test]
fn reserve_exhaustion_consumes_once() {
    let orig: Vec<u32> = (0..10).collect();
    let mut h: &[u32] = &orig;
    let mut out: Vec<u32> = Vec::new();
    while !h.is_empty() {
        let k = if h.len() < 3 { h.len() } else { 3 };
        out.extend_from_slice(reserve(&mut h, k).unwrap());
    }
    assert_eq!(out, orig);
}

#[test]
fn reserve_exhaustion_mixed_ends() {
    let orig: Vec<u32> = (0..11).collect();
    let mut h: &[u32] = &orig;
    let mut front: Vec<u32> = Vec::new();
    let mut back: Vec<u32> = Vec::new();
    let mut take_front = true;
    while !h.is_empty() {
        let k = if h.len() < 2 { h.len() } else { 2 };
        if take_front {
            front.extend_from_slice(reserve(&mut h, k).unwrap());
        } else {
            let piece = reserve_tail(&mut h, k).unwrap();
            let mut rebuilt: Vec<u32> = piece.to_vec();
            rebuilt.extend_from_slice(&back);
            back = rebuilt;
        }
        take_front = !take_front;
    }
    front.extend_from_slice(&back);
    assert_eq!(front, orig);
}

#[test]
fn reserve_past_the_end_fails() {
    let mut data: &[u8] = &[1, 2, 3];
    assert_eq!(reserve(&mut data, 4), Err(OutOfBounds));
    assert_eq!(data, &[1, 2, 3][..]);
    assert_eq!(reserve_tail(&mut data, 4), Err(OutOfBounds));
    assert_eq!(data, &[1, 2, 3][..]);
    let mut m: [u8; 3] = [1, 2, 3];
    let mut h: &mut [u8] = &mut m;
    assert!(reserve_mut(&mut h, 4).is_err());
    assert_eq!(h, &mut [1, 2, 3][..]);
    assert!(reserve_tail_mut(&mut h, 4).is_err());
    assert_eq!(h, &mut [1, 2, 3][..]);
}

#[test]
fn reserve_mut_takes_writable_front() {
    let mut data: &mut [isize] = &mut [0, 1, 2, 3, 4, 0, 6, 7, 8, 9];
    let head = reserve_mut(&mut data, 5).unwrap();
    for i in head.iter_mut().skip(1) {
        *i += 5;
    }
    assert_eq!(head, data);
}

#[test]
fn reserve_tail_mut_takes_writable_back() {
    let mut data: &mut [u16] = &mut [0, 1, 2, 3, 4, 0, 6, 7, 8, 9];
    let tail = reserve_tail_mut(&mut data, 5).unwrap();
    for i in tail.iter_mut().skip(1) {
        *i -= 5;
    }
    assert_eq!(tail, data);
}

#[test]
fn reserve_fixed_gives_arrays() {
    let mut data: &[u16] = &[0, 1, 2, 3, 4, 4, 3, 2, 1, 0];
    let head: &[u16; 5] = reserve_fixed::<u16, 5>(&mut data).unwrap();
    let tail: &[u16; 5] = reserve_tail_fixed::<u16, 5>(&mut data).unwrap();
    assert!(data.is_empty());
    for (i, j) in head.iter().zip(tail.iter()) {
        assert_eq!(*i + *j, 4);
    }
    let mut short: &[u16] = &[1, 2, 3];
    assert_eq!(reserve_fixed::<u16, 4>(&mut short), Err(OutOfBounds));
    assert_eq!(reserve_tail_fixed::<u16, 4>(&mut short), Err(OutOfBounds));
    assert_eq!(short, &[1, 2, 3][..]);
}

#[test]
fn reserve_fixed_mut_gives_writable_arrays() {
    let mut store: [u16; 10] = [0, 1, 2, 3, 4, 0, 6, 7, 8, 9];
    let mut data: &mut [u16] = &mut store;
    let head: &mut [u16; 5] = reserve_fixed_mut::<u16, 5>(&mut data).unwrap();
    for i in head.iter_mut().skip(1) {
        *i += 5;
    }
    assert_eq!(&head[..], &data[..]);
    let tail: &mut [u16; 5] = reserve_tail_fixed_mut::<u16, 5>(&mut data).unwrap();
    tail.fill(7);
    assert!(data.is_empty());
    assert_eq!(store, [0, 6, 7, 8, 9, 7, 7, 7, 7, 7]);
}

#[test]
fn reserve_fixed_mut_past_the_end_fails() {
    let mut m: [u8; 3] = [1, 2, 3];
    let mut h: &mut [u8] = &mut m;
    assert!(reserve_fixed_mut::<u8, 4>(&mut h).is_err());
    assert!(reserve_tail_fixed_mut::<u8, 4>(&mut h).is_err());
    assert_eq!(h, &mut [1, 2, 3][..]);
}
