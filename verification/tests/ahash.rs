use std::hash::{BuildHasher, Hash, Hasher};
use dstd::ahash::{
    convert_from_pair, convert_to_pair, folded_multiply, read_last_u128, read_last_u32,
    read_last_u64, read_small, read_u128, read_u16, read_u32, read_u64, rotate_left, AHasher,
    MULTIPLE,
};

const K1: u128 = (5u128 << 64) | 3;
const K2: u128 = (11u128 << 64) | 7;

fn hash_bytes(data: &[u8]) -> u64 {
    let mut h = AHasher::test_with_keys(K1, K2);
    h.write(data);
    h.finish()
}

#[test]
fn folded_multiply_xors_the_product_halves() {
    assert_eq!(folded_multiply(0x1234_5678_9abc_def0, MULTIPLE), 0x8b9c_cbe6_0b16_7471);
    assert_eq!(folded_multiply(1 << 32, 1 << 32), 1);
    assert_eq!(folded_multiply(3, 5), 15);
    assert_eq!(folded_multiply(0, u64::MAX), 0);
}

#[test]
fn rotate_left_takes_the_amount_modulo_64() {
    assert_eq!(rotate_left(1, 1), 2);
    assert_eq!(rotate_left(1, 65), 2);
    assert_eq!(rotate_left(0x8000_0000_0000_0000, 1), 1);
    assert_eq!(rotate_left(0xdead_beef, 0), 0xdead_beef);
    assert_eq!(rotate_left(0xdead_beef, 64), 0xdead_beef);
}

#[test]
fn pairs_split_and_join_low_half_first() {
    let x: u128 = (0x1111_2222_3333_4444u128 << 64) | 0x5555_6666_7777_8888;
    let p = convert_to_pair(x);
    assert_eq!(p, [0x5555_6666_7777_8888, 0x1111_2222_3333_4444]);
    assert_eq!(convert_from_pair(p), x);
}

#[test]
fn slice_readers_are_little_endian() {
    let data: Vec<u8> = (1..=20).collect();
    let (a, rest) = read_u16(&data);
    assert_eq!(a, 0x0201);
    assert_eq!(rest.len(), 18);
    assert_eq!(read_u32(&data).0, 0x0403_0201);
    assert_eq!(read_u64(&data).0, 0x0807_0605_0403_0201);
    assert_eq!(read_u128(&data).0, 0x100f_0e0d_0c0b_0a09_0807_0605_0403_0201);
    assert_eq!(read_u128(&data).1, &data[16..]);
    assert_eq!(read_last_u32(&data), 0x1413_1211);
    assert_eq!(read_last_u64(&data), 0x1413_1211_100f_0e0d);
    assert_eq!(read_last_u128(&data), 0x1413_1211_100f_0e0d_0c0b_0a09_0807_0605);
}

#[test]
fn read_small_packs_short_slices() {
    assert_eq!(read_small(&[]), [0, 0]);
    assert_eq!(read_small(&[7]), [7, 7]);
    assert_eq!(read_small(&[1, 2, 3]), [0x0201, 3]);
    assert_eq!(read_small(&[1, 2, 3, 4, 5]), [0x0403_0201, 0x0504_0302]);
}

#[test]
fn hasher_gives_the_reference_values() {
    assert_eq!(hash_bytes(b""), 0x99a9_d4ef_984e_98a5);
    assert_eq!(hash_bytes(b"a"), 0x7333_89c4_fdd6_984d);
    assert_eq!(hash_bytes(b"hello"), 0xfa4b_c71e_9bff_fd45);
    assert_eq!(hash_bytes(b"hello world!"), 0xf286_7acf_ec6e_931b);
    assert_eq!(hash_bytes(b"The quick brown fox jumps over the lazy dog"), 0x8053_97f1_f375_a92b);
}

#[test]
fn hasher_word_writes_give_the_reference_values() {
    let mut h = AHasher::test_with_keys(K1, K2);
    h.write_u64(42);
    assert_eq!(h.finish(), 0x3dcd_0442_329d_b6b9);

    let mut h = AHasher::test_with_keys(K1, K2);
    h.write_u128(7);
    assert_eq!(h.finish(), 0x1400_0000);

    let mut h = AHasher::new_with_keys(K1, K2);
    h.write(b"hello");
    assert_eq!(h.finish(), 0xb0db_1d59_9d13_3dac);

    let mut h = AHasher::new_with_keys(0, 0);
    h.write_u64(42);
    assert_eq!(h.finish(), 0x5769_3133_30f8_9306);
}

#[test]
fn small_word_writes_agree_with_u64() {
    let mut a = AHasher::test_with_keys(K1, K2);
    a.write_u8(200);
    let mut b = AHasher::test_with_keys(K1, K2);
    b.write_u64(200);
    let mut c = AHasher::test_with_keys(K1, K2);
    c.write_u16(200);
    let mut d = AHasher::test_with_keys(K1, K2);
    d.write_u32(200);
    let mut e = AHasher::test_with_keys(K1, K2);
    e.write_usize(200);
    assert_eq!(a.finish(), b.finish());
    assert_eq!(c.finish(), b.finish());
    assert_eq!(d.finish(), b.finish());
    assert_eq!(e.finish(), b.finish());
}

#[test]
fn hasher_from_four_keys() {
    let a = AHasher::new(3, 5, 7, 11);
    let b = AHasher::test_with_keys(K1, K2);
    assert_eq!(a.finish(), b.finish());
}

#[test]
fn std_hasher_interface_matches() {
    let mut a = AHasher::test_with_keys(K1, K2);
    42u64.hash(&mut a);
    assert_eq!(Hasher::finish(&a), 0x3dcd_0442_329d_b6b9);

    let rs = dstd::random_state::RandomState::from_keys(&[1, 2, 3, 4], &[5, 6, 7, 8], 9);
    for k in [0u64, 1, 77, u64::MAX] {
        assert_eq!(BuildHasher::hash_one(&rs, k), rs.hash_one(&k));
    }
    for k in [-3i32, 0, 1 << 20] {
        assert_eq!(BuildHasher::hash_one(&rs, k), rs.hash_one(&k));
    }
    assert_eq!(BuildHasher::hash_one(&rs, 'x'), rs.hash_one(&'x'));
    assert_eq!(BuildHasher::hash_one(&rs, true), rs.hash_one(&true));
    assert_eq!(BuildHasher::hash_one(&rs, (3u8, 4u16)), rs.hash_one(&(3u8, 4u16)));
}

#[test]
fn random_states_differ_between_maps() {
    let a = dstd::random_state::RandomState::system();
    let b = dstd::random_state::RandomState::system();
    assert_ne!(a.hash_one(&1u64), b.hash_one(&1u64));
}

#[test]
fn keys_derive_from_the_seeds() {
    let rs = dstd::random_state::RandomState::from_keys(&[1, 2, 3, 4], &[5, 6, 7, 8], 9);
    assert_eq!(rs.hash_one(&77u64), 0xb039_71d7_fc8e_ba13);
    let h = rs.build_hasher();
    let direct = AHasher::new(
        0xf29e_9d25_3575_bd37,
        0xdf85_9858_31b9_0b85,
        0x7939_5187_660d_2834,
        0x55c7_448d_a786_e9dc,
    );
    assert_eq!(h.finish(), direct.finish());
}

#[test]
fn seeds_are_little_endian_words_of_the_bytes() {
    let bytes: [u8; 64] = core::array::from_fn(|i| i as u8);
    let seeds = dstd::random_state::seeds_from_bytes(&bytes);
    assert_eq!(seeds[0][0], 0x0706_0504_0302_0100);
    assert_eq!(seeds[0][3], 0x1f1e_1d1c_1b1a_1918);
    assert_eq!(seeds[1][0], 0x2726_2524_2322_2120);
    assert_eq!(seeds[1][3], 0x3f3e_3d3c_3b3a_3938);
    let rs = dstd::random_state::RandomState::new(&seeds, 5);
    let same = dstd::random_state::RandomState::from_keys(&seeds[0], &seeds[1], 5);
    assert_eq!(rs.hash_one(&1u64), same.hash_one(&1u64));
}
