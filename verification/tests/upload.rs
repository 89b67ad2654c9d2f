use yoursunny_summer_host_storage::{get_ones_table, upload, BitCounter, BitCounts};

#[test]
fn ones_table() {
    let ones_table = get_ones_table();
    assert_eq!(ones_table[0x00], 0);
    assert_eq!(ones_table[0x08], 1);
    assert_eq!(ones_table[0x11], 2);
    assert_eq!(ones_table[0x70], 3);
    assert_eq!(ones_table[0xC3], 4);
    assert_eq!(ones_table[0xFF], 8);
}

#[test]
fn empty() {
    let input = [0u8; 0];
    let counts = upload(&input);
    assert_eq!(counts.cnt0, 0);
    assert_eq!(counts.cnt1, 0);
}

#[test]
fn same_octets() {
    let ones_table = get_ones_table();
    for b in 0..256 {
        let input = [b as u8; 100_000];
        let counts = upload(&input);
        assert_eq!(counts.cnt1, ((ones_table[b] as usize) * input.len()) as u64);
        assert_eq!(counts.cnt0, (8 * input.len()) as u64 - counts.cnt1);
    }
}

#[test]
fn ones_table_counts_set_bits() {
    let ones_table = get_ones_table();
    for b in 0..=255u8 {
        assert_eq!(ones_table[b as usize] as u32, b.count_ones());
    }
}

#[test]
fn ones_table_is_always_the_same() {
    assert_eq!(get_ones_table(), get_ones_table());
}

#[test]
fn mixed_octets() {
    let counts = upload(&[0x00, 0x08, 0x11, 0x70, 0xC3, 0xFF]);
    assert_eq!(counts, BitCounts { cnt0: 48 - 18, cnt1: 18 });
}

#[test]
fn counter_starts_empty() {
    let counter = BitCounter::new();
    assert_eq!(counter.counts(), BitCounts { cnt0: 0, cnt1: 0 });
    assert_eq!(counter.room(), u64::MAX / 8);
}

#[test]
fn counter_takes_chunks() {
    let data: Vec<u8> = (0..5000u32).map(|i| (i * 7 + 3) as u8).collect();
    let whole = upload(&data);
    for size in [1usize, 2, 3, 1024, 4999, 5000] {
        let mut counter = BitCounter::new();
        for chunk in data.chunks(size) {
            assert!(chunk.len() as u64 <= counter.room());
            counter.feed(chunk);
        }
        assert_eq!(counter.counts(), whole);
        assert_eq!(counter.room(), u64::MAX / 8 - data.len() as u64);
    }
}

#[test]
fn counter_takes_empty_chunks() {
    let mut counter = BitCounter::new();
    counter.feed(&[]);
    counter.feed(&[0xF0]);
    counter.feed(&[]);
    assert_eq!(counter.counts(), BitCounts { cnt0: 4, cnt1: 4 });
}
