use pcg_mwc::{Mwc128XXA32, Mwc256XXA64};
use pcg_mwc::mwc32::MULTIPLIER;

fn word_stream32(g: &mut Mwc128XXA32, n: usize) -> Vec<u32> {
    let mut out = Vec::new();
    for _ in 0..n {
        out.push(g.next());
    }
    out
}

#[test]
fn known_vector_new_1_1_32() {
    let mut g = Mwc128XXA32::new(1, 1);
    assert_eq!(g.next(), 0xbdb07ddf);
    assert_eq!(g.next(), 0x98dd9bd1);
    assert_eq!(g.next(), 0x16b4cb3a);
    assert_eq!(g.next(), 0x1ed6f2f7);
}

#[test]
fn cross_width_vectors_differ() {
    let mut wide = Mwc256XXA64::new(1, 1);
    let mut narrow = Mwc128XXA32::new(1, 1);
    assert_ne!(wide.next_u64() as u32, narrow.next());
}

#[test]
fn next_u64_concatenates_32() {
    let mut g = Mwc128XXA32::new(1, 1);
    assert_eq!(g.next_u64(), 0xbdb07ddf98dd9bd1);
    let mut a = Mwc128XXA32::new(4, 2);
    let mut b = a.clone();
    let high = b.next() as u64;
    let low = b.next() as u64;
    assert_eq!(a.next_u64(), (high << 32) | low);
}

#[test]
fn next_u32_matches_next_32() {
    let mut a = Mwc128XXA32::new(21, 42);
    let mut b = a.clone();
    for _ in 0..8 {
        assert_eq!(a.next_u32(), b.next());
    }
}

#[test]
fn determinism_from_seed_32() {
    let mut seed = [0u8; 16];
    for i in 0..16 {
        seed[i] = (7 * i + 2) as u8;
    }
    let mut a = Mwc128XXA32::from_seed(seed);
    let mut b = Mwc128XXA32::from_seed(seed);
    assert!(a == b);
    let wa = word_stream32(&mut a, 64);
    let wb = word_stream32(&mut b, 64);
    assert_eq!(wa, wb);
    assert!(a == b);
}

#[test]
fn from_seed_all_zero_nondegenerate_32() {
    let mut g = Mwc128XXA32::from_seed([0u8; 16]);
    // the all-zero seed derives lanes (0, 0, 1) and carry 5, then primes
    let mut h = Mwc128XXA32::from_parts(0, 0, 1, 5);
    for _ in 0..6 {
        h.next();
    }
    assert!(g == h);
    assert_eq!(g.next(), 0x0a311474);
    assert_eq!(g.next(), 0x96ff621a);
    assert_eq!(g.next(), 0x31d91174);
    assert_eq!(g.next(), 0x8856fdcb);
    let (_, _, _, c) = g.state_parts();
    assert!(c > 0 && c < MULTIPLIER);
}

#[test]
fn batch_matches_single_steps_32() {
    let mut batched = Mwc128XXA32::new(5, 9);
    let mut stepped = batched.clone();
    for _ in 0..8 {
        let batch = batched.gen6();
        for &w in batch.iter() {
            assert_eq!(stepped.next(), w);
        }
        assert!(batched == stepped);
    }
}

#[test]
fn fill_bytes_matches_words_32() {
    let mut seed = [0u8; 16];
    for i in 0..16 {
        seed[i] = (5 * i + 3) as u8;
    }
    for &len in [0usize, 1, 3, 7, 8, 24, 26, 1024].iter() {
        let mut filler = Mwc128XXA32::from_seed(seed);
        let mut buf = vec![0u8; len];
        filler.fill_bytes(&mut buf);
        let mut direct = Mwc128XXA32::from_seed(seed);
        let words = word_stream32(&mut direct, (len + 3) / 4);
        for i in 0..len {
            let expected = (words[i / 4] >> (8 * (i % 4))) as u8;
            assert_eq!(buf[i], expected, "length {} byte {}", len, i);
        }
    }
}

#[test]
fn carry_stays_in_range_32() {
    let mut g = Mwc128XXA32::new(1, 1);
    for _ in 0..1000 {
        g.next();
        let (_, _, _, c) = g.state_parts();
        assert!(c > 0);
        assert!(c < MULTIPLIER);
    }
}

#[test]
fn state_roundtrip_32() {
    let mut g = Mwc128XXA32::new(3, 7);
    for _ in 0..10 {
        g.next();
    }
    let (x1, x2, x3, c) = g.state_parts();
    let mut h = Mwc128XXA32::from_parts(x1, x2, x3, c);
    assert!(g == h);
    for _ in 0..16 {
        assert_eq!(g.next(), h.next());
    }
}

#[test]
fn try_fill_bytes_never_fails_32() {
    let mut a = Mwc128XXA32::new(11, 13);
    let mut b = a.clone();
    let mut buf_a = vec![0u8; 29];
    let mut buf_b = vec![0u8; 29];
    assert!(a.try_fill_bytes(&mut buf_a).is_ok());
    b.fill_bytes(&mut buf_b);
    assert_eq!(buf_a, buf_b);
    assert!(a == b);
}
