use yoursunny_summer_host_storage::{
    download, stream_len, upload, write_pages, BitCounts, Reconstructor, PAGESZ,
};

fn stream(counts: &BitCounts) -> Vec<u8> {
    let mut buf = Vec::new();
    download(&mut buf, counts);
    buf
}

fn paged(counts: &BitCounts) -> Vec<Vec<u8>> {
    let mut pages = Vec::new();
    let mut r = Reconstructor::new(counts);
    while let Some(page) = r.next_page() {
        pages.push(page.to_vec());
    }
    pages
}

#[test]
fn whole_pages() {
    let mut buf = Vec::new();
    let counts = BitCounts {
        cnt0: (3 * PAGESZ * 8) as u64,
        cnt1: (2 * PAGESZ * 8) as u64,
    };
    download(&mut buf, &counts);

    assert_eq!(buf.len(), 3 * PAGESZ + 2 * PAGESZ);
    let middle_index = 3 * PAGESZ;
    assert!(buf[..middle_index].iter().all(|v| *v == 0x00));
    assert!(buf[middle_index..].iter().all(|v| *v == 0xFF));
}

#[test]
fn middle_bytes() {
    let mut buf = Vec::new();
    let counts = BitCounts {
        cnt0: ((3 * PAGESZ + 5) * 8 + 6) as u64,
        cnt1: (2 + (7 + 2 * PAGESZ) * 8) as u64,
    };
    download(&mut buf, &counts);

    assert_eq!(buf.len(), 3 * PAGESZ + 5 + 1 + 7 + 2 * PAGESZ);
    let middle_index = 3 * PAGESZ + 5;
    assert!(buf[..middle_index].iter().all(|v| *v == 0x00));
    assert_eq!(buf[middle_index], 0b00000011);
    assert!(buf[middle_index + 1..].iter().all(|v| *v == 0xFF));
}

#[test]
fn small_stream() {
    let counts = BitCounts { cnt0: 0x12, cnt1: 0x1e };
    assert_eq!(counts.total_bytes(), 6);
    assert_eq!(stream_len(&counts), 6);
    assert_eq!(stream(&counts), vec![0x00, 0x00, 0x3F, 0xFF, 0xFF, 0xFF]);
}

#[test]
fn empty_stream() {
    let counts = BitCounts { cnt0: 0, cnt1: 0 };
    assert_eq!(counts.total_bytes(), 0);
    assert_eq!(stream(&counts), Vec::<u8>::new());
    assert!(paged(&counts).is_empty());
}

#[test]
fn only_zeros_or_only_ones() {
    assert_eq!(stream(&BitCounts { cnt0: 24, cnt1: 0 }), vec![0x00, 0x00, 0x00]);
    assert_eq!(stream(&BitCounts { cnt0: 0, cnt1: 16 }), vec![0xFF, 0xFF]);
    assert_eq!(stream(&BitCounts { cnt0: 8, cnt1: 8 }), vec![0x00, 0xFF]);
}

#[test]
fn every_boundary_byte() {
    let expected = [0x7Fu8, 0x3F, 0x1F, 0x0F, 0x07, 0x03, 0x01];
    for extra0 in 1..8u64 {
        let counts = BitCounts { cnt0: 8 + extra0, cnt1: 8 - extra0 + 8 };
        assert_eq!(stream(&counts), vec![0x00, expected[extra0 as usize - 1], 0xFF]);
    }
}

#[test]
fn download_appends() {
    let mut buf = vec![0xAB, 0xCD];
    download(&mut buf, &BitCounts { cnt0: 4, cnt1: 12 });
    assert_eq!(buf, vec![0xAB, 0xCD, 0x0F, 0xFF]);
}

#[test]
fn leftover_bits_that_fill_no_byte() {
    assert_eq!(stream(&BitCounts { cnt0: 1, cnt1: 0 }), vec![0x7F]);
    assert_eq!(stream_len(&BitCounts { cnt0: 1, cnt1: 0 }), 1);
    assert_eq!(BitCounts { cnt0: 1, cnt1: 0 }.total_bytes(), 0);
    assert_eq!(stream(&BitCounts { cnt0: 9, cnt1: 10 }), vec![0x00, 0x7F, 0xFF]);
}

#[test]
fn length_is_an_eighth_of_the_bits() {
    for cnt0 in 0..200u64 {
        for cnt1 in 0..200u64 {
            if (cnt0 + cnt1) % 8 == 0 {
                let counts = BitCounts { cnt0, cnt1 };
                assert_eq!(stream(&counts).len() as u64, (cnt0 + cnt1) / 8);
                assert_eq!(stream_len(&counts), (cnt0 + cnt1) / 8);
                assert_eq!(counts.total_bytes(), (cnt0 + cnt1) / 8);
            }
        }
    }
}

#[test]
fn bits_are_zeros_then_ones() {
    let counts = BitCounts { cnt0: 21, cnt1: 19 };
    let buf = stream(&counts);
    for i in 0..40usize {
        let bit = (buf[i / 8] >> (7 - i % 8)) & 1;
        assert_eq!(bit == 1, i >= 21);
    }
}

#[test]
fn counting_the_stream_gives_the_counts() {
    for cnt0 in [0u64, 1, 7, 8, 9, 1000, 8191, 8192, 8193] {
        for extra in 0..8u64 {
            let cnt1 = 5 * 8 + (8 - cnt0 % 8) % 8 + 8 * extra;
            let counts = BitCounts { cnt0, cnt1 };
            assert_eq!(upload(&stream(&counts)), counts);
        }
    }
}

#[test]
fn write_pages_repeats_the_page() {
    let mut buf = vec![9u8];
    write_pages(&mut buf, &[1, 2], 3);
    assert_eq!(buf, vec![9, 1, 2, 1, 2, 1, 2]);
    write_pages(&mut buf, &[7], 0);
    assert_eq!(buf, vec![9, 1, 2, 1, 2, 1, 2]);
}

#[test]
fn pages_join_to_the_stream() {
    let counts = BitCounts {
        cnt0: ((3 * PAGESZ + 5) * 8 + 6) as u64,
        cnt1: (2 + (7 + 2 * PAGESZ) * 8) as u64,
    };
    let pages = paged(&counts);
    assert!(pages.iter().all(|p| !p.is_empty() && p.len() <= PAGESZ));
    let lens: Vec<usize> = pages.iter().map(|p| p.len()).collect();
    assert_eq!(lens, vec![PAGESZ, PAGESZ, PAGESZ, 5, 1, PAGESZ, PAGESZ, 7]);
    assert_eq!(pages.concat(), stream(&counts));
}

#[test]
fn pages_of_a_short_stream() {
    let pages = paged(&BitCounts { cnt0: 0x12, cnt1: 0x1e });
    assert_eq!(pages, vec![vec![0x00, 0x00], vec![0x3F], vec![0xFF, 0xFF, 0xFF]]);
}

#[test]
fn pages_end_for_good() {
    let mut r = Reconstructor::new(&BitCounts { cnt0: 8, cnt1: 0 });
    assert_eq!(r.next_page(), Some(&[0x00u8][..]));
    assert_eq!(r.next_page(), None);
    assert_eq!(r.next_page(), None);
}

#[test]
fn counts_beyond_thirty_two_bits() {
    let counts = BitCounts { cnt0: 1 << 40, cnt1: (1 << 35) + 8 };
    assert_eq!(counts.total_bytes(), (1 << 37) + (1 << 32) + 1);
    assert_eq!(stream_len(&counts), (1 << 37) + (1 << 32) + 1);
    let mut r = Reconstructor::new(&counts);
    assert_eq!(r.next_page(), Some(&[0x00u8; PAGESZ][..]));

    let counts = BitCounts { cnt0: u64::MAX, cnt1: u64::MAX };
    assert_eq!(counts.total_bytes(), u64::MAX / 8 * 2 + 1);
    assert_eq!(stream_len(&counts), u64::MAX / 8 * 2 + 1);
}
