use data_structures::bloom::BloomFilter;

/// A filter for `n_items` items in a bitmap of `bitmap_cap` bytes, with the
/// number of hashes that suits the two.
fn new(bitmap_cap: usize, n_items: usize) -> BloomFilter<Vec<u8>> {
    let bits = (bitmap_cap as f64) * 8.0;
    let k = (bits / (n_items as f64) * f64::ln(2.0)).ceil() as u32;
    BloomFilter::with_hashes(bitmap_cap, std::cmp::max(k, 1))
}

fn random_key() -> Vec<u8> {
    (0..16).map(|_| rand::random::<u8>()).collect()
}

#[test]
fn test_set() {
    let mut bloom = new(10, 80);
    let key: &Vec<u8> = &random_key();
    assert_eq!(bloom.check(key), false);

    bloom.set(&key);
    assert_eq!(bloom.check(key), true);
}

#[test]
fn test_clear() {
    let mut bloom = new(10, 80);
    let key: &Vec<u8> = &random_key();
    bloom.set(key);
    assert_eq!(bloom.check(&key), true);

    bloom.clear();
    assert_eq!(bloom.check(&key), false);
}

#[test]
fn test_check_and_set() {
    let mut bloom = new(10, 80);
    let key: &Vec<u8> = &random_key();
    assert_eq!(bloom.check_and_set(&key), false);
    assert_eq!(bloom.check_and_set(&key), true);
}

#[test]
fn test_load() {
    let mut first = new(10, 80);
    let key: &Vec<u8> = &random_key();
    first.set(&key);
    assert_eq!(first.check(&key), true);

    let cloned = BloomFilter::from_existing(
        &first.bitmap(),
        first.number_of_bits(),
        first.number_of_hashes(),
        first.sip_keys(),
    );
    assert_eq!(cloned.check(&key), true);
}

#[test]
fn bloom_places_of_given_hashes() {
    // 16 bits and 3 places: the hashes 5 and 9 give the places 5, 9 and
    // (5 + 2 * 9) % 16 = 7.
    let mut bloom: BloomFilter<u8> = BloomFilter::with_hashes(2, 3);
    assert_eq!(bloom.number_of_bits(), 16);
    assert_eq!(bloom.number_of_hashes(), 3);
    assert_eq!(bloom.bitmap(), vec![0, 0]);
    assert!(!bloom.check_hashed(5, 9));
    bloom.set_hashed(5, 9);
    assert!(bloom.check_hashed(5, 9));
    // bits 5 and 7 of the first byte and bit 1 of the second, the most
    // significant first
    assert_eq!(bloom.bitmap(), vec![0b0000_0101, 0b0100_0000]);
    assert!(!bloom.check_hashed(5, 8));
    assert!(!bloom.check_and_set_hashed(7, 0));
    assert!(bloom.check_and_set_hashed(7, 0));
    bloom.clear();
    assert_eq!(bloom.bitmap(), vec![0, 0]);
    assert!(!bloom.check_hashed(5, 9));
}

#[test]
fn bloom_places_wrap_round() {
    // The third place is (h0 + (2 * h1) % 0xffffffffffffffc5) % bits, all
    // in 64 bits: 2 * 2^63 is 0 there, and u64::MAX + 1 as well.
    let mut bloom: BloomFilter<u8> = BloomFilter::with_hashes(1, 3);
    bloom.set_hashed(u64::MAX, 1 << 63);
    // places 15 % 8 = 7, 0 and (u64::MAX + 0) % 8 = 7
    assert_eq!(bloom.bitmap(), vec![0b1000_0001]);
    bloom.clear();
    bloom.set_hashed(u64::MAX, 1);
    // places 7, 1 and (u64::MAX + 2) wrapped = 1
    assert_eq!(bloom.bitmap(), vec![0b0100_0001]);
}

#[test]
fn bloom_from_existing_takes_the_bits_over() {
    let keys = [(1, 2), (3, 4)];
    let bloom: BloomFilter<String> = BloomFilter::from_existing(&[0b1010_0000, 0b0001_0010], 16, 2, keys);
    assert_eq!(bloom.bitmap(), vec![0b1010_0000, 0b0001_0010]);
    assert_eq!(bloom.sip_keys(), keys);
    assert_eq!(bloom.number_of_bits(), 16);
    // bits 0 and 2 are set, bit 1 is not
    assert!(bloom.check_hashed(0, 2));
    assert!(!bloom.check_hashed(0, 1));
    assert!(bloom.check_hashed(11, 14));
}

#[test]
fn bloom_holds_what_was_set() {
    let mut bloom: BloomFilter<String> = BloomFilter::with_hashes(64, 4);
    let words: Vec<String> = (0..40).map(|i| format!("word-{}", i)).collect();
    for w in &words {
        bloom.set(w);
    }
    for w in &words {
        assert!(bloom.check(w));
    }
    let loaded: BloomFilter<String> = BloomFilter::from_existing(
        &bloom.bitmap(),
        bloom.number_of_bits(),
        bloom.number_of_hashes(),
        bloom.sip_keys(),
    );
    for w in &words {
        assert!(loaded.check(w));
    }
}

#[test]
fn bloom_without_hashes_holds_everything() {
    let mut bloom: BloomFilter<u32> = BloomFilter::with_hashes(1, 0);
    assert!(bloom.check(&7));
    bloom.set(&7);
    assert_eq!(bloom.bitmap(), vec![0]);
}
