use pcg_mwc::gen32::Gen32;
use pcg_mwc::gen16::{Gen16, PCG};
use pcg_mwc::gen8::{Gen, Gen8, Lcg, Xoshiro};

#[test]
fn gen32_default_vector() {
    let mut g = Gen32::default();
    assert_eq!(g.next(), 0x000000cd);
    assert_eq!(g.next(), 0x89a1acc7);
    assert_eq!(g.next(), 0x3ac9d172);
    assert_eq!(g.next(), 0x9a247de1);
    assert_eq!(g.next(), 0xb037e9cd);
    assert_eq!(g.next(), 0xe71591cd);
}

#[test]
fn gen32_next_u64_concatenates() {
    let mut g = Gen32::default();
    assert_eq!(g.next_u64(), 0x000000cd89a1acc7);
}

#[test]
fn gen32_batch_matches_single_steps() {
    let mut batched = Gen32::default();
    let mut stepped = Gen32::default();
    for _ in 0..8 {
        let batch = batched.gen4();
        for &w in batch.iter() {
            assert_eq!(stepped.next(), w);
        }
        assert!(batched == stepped);
    }
}

#[test]
fn gen32_fill_bytes_matches_words() {
    for &len in [0usize, 1, 3, 5, 8, 16, 33, 256].iter() {
        let mut filler = Gen32::default();
        let mut buf = vec![0u8; len];
        filler.fill_bytes(&mut buf);
        let mut direct = Gen32::default();
        let mut words = Vec::new();
        for _ in 0..(len + 3) / 4 {
            words.push(direct.next());
        }
        for i in 0..len {
            let expected = (words[i / 4] >> (8 * (i % 4))) as u8;
            assert_eq!(buf[i], expected, "length {} byte {}", len, i);
        }
    }
}

#[test]
fn gen32_try_fill_bytes_never_fails() {
    let mut a = Gen32::default();
    let mut b = Gen32::default();
    let mut buf_a = vec![0u8; 13];
    let mut buf_b = vec![0u8; 13];
    assert!(a.try_fill_bytes(&mut buf_a).is_ok());
    b.fill_bytes(&mut buf_b);
    assert_eq!(buf_a, buf_b);
}

#[test]
fn gen16_vector() {
    let mut g = Gen16::new(1, 2, 3);
    assert_eq!(g.next(), 6);
    assert_eq!(g.next(), 52598);
    assert_eq!(g.next(), 65087);
    assert_eq!(g.next(), 20502);
    assert_eq!(g.next(), 4741);
    assert_eq!(g.next(), 2037);
}

#[test]
fn pcg_vector() {
    let mut g = PCG::default();
    assert_eq!(g.next(), 0x9186);
    assert_eq!(g.next(), 0x91b9);
    assert_eq!(g.next(), 0x43d8);
    assert_eq!(g.next(), 0x093e);
    assert_eq!(g.next(), 0xb034);
    assert_eq!(g.next(), 0x2bdd);
}

#[test]
fn lcg_default_vector() {
    let mut g = Lcg::default();
    let outs: Vec<u8> = (0..6).map(|_| g.next()).collect();
    assert_eq!(outs, vec![32, 170, 94, 182, 2, 120]);
}

#[test]
fn lcg_reset_selects_increment() {
    let mut g = Lcg::default();
    g.reset(true);
    let first: Vec<u8> = (0..6).map(|_| g.next()).collect();
    assert_eq!(first, vec![5, 39, 26, 170, 97, 23]);
    g.reset(false);
    let second: Vec<u8> = (0..6).map(|_| g.next()).collect();
    assert_eq!(second, vec![119, 2, 164, 27, 124, 103]);
}

#[test]
fn xoshiro_default_vector() {
    let mut g = Xoshiro::default();
    let outs: Vec<u8> = (0..6).map(|_| g.next()).collect();
    assert_eq!(outs, vec![63, 74, 238, 123, 246, 23]);
}

#[test]
fn xoshiro_reset_vector() {
    let mut g = Xoshiro::default();
    g.reset(true);
    let outs: Vec<u8> = (0..6).map(|_| g.next()).collect();
    assert_eq!(outs, vec![97, 116, 6, 236, 89, 231]);
}

#[test]
fn gen8_default_vector() {
    let mut g = Gen8::default();
    let outs: Vec<u8> = (0..6).map(|_| g.next()).collect();
    assert_eq!(outs, vec![69, 66, 197, 122, 138, 157]);
}

#[test]
fn gen8_reset_selects_multiplier() {
    let mut g = Gen8::default();
    g.reset(true);
    let first: Vec<u8> = (0..6).map(|_| g.next()).collect();
    assert_eq!(first, vec![124, 128, 150, 232, 230, 208]);
    g.reset(false);
    let second: Vec<u8> = (0..6).map(|_| g.next()).collect();
    assert_eq!(second, vec![99, 138, 102, 42, 146, 207]);
}

#[test]
fn gen8_determinism_across_reset() {
    let mut a = Gen8::default();
    let mut b = Gen8::default();
    a.reset(false);
    b.reset(false);
    for _ in 0..64 {
        assert_eq!(a.next(), b.next());
    }
}
