use steg_ecc::ecc::{decode_ecc, encode_ecc, read_le_u64, DATA_LEN, PARITY_LEN};
use steg_ecc::layout::CHANNELS;
use steg_ecc::spiral::spiral_coord;
use steg_ecc::stego::{decode_pixels, encode_pixels};
use steg_ecc::StegError;

const SIDE: usize = 256;

/// An opaque carrier with varied channel values.
fn carrier(width: usize, height: usize) -> Vec<u8> {
    let mut px = Vec::with_capacity(width * height * CHANNELS);
    let mut state: u32 = 0x1234_5678;
    for i in 0..width * height * CHANNELS {
        state = state.wrapping_mul(1_103_515_245).wrapping_add(12_345);
        if i % CHANNELS == 3 {
            px.push(255);
        } else {
            px.push((state >> 16) as u8);
        }
    }
    px
}

fn round_trip_on_carrier(data: &[u8]) {
    let mut px = carrier(SIDE, SIDE);
    encode_pixels(&mut px, SIDE, SIDE, data).unwrap();
    let decoded = decode_pixels(&px, SIDE, SIDE).unwrap();
    assert_eq!(&data[..], decoded);
}

/// Flips every bit of byte `m` of block `k` in the pixels that carry it.
fn corrupt_byte(px: &mut [u8], region: usize, k: usize, m: usize) {
    for t in 0..8 {
        let j = 8 * m + t;
        let s = CHANNELS * (k * region + j) + j % 3;
        px[s] ^= 1;
    }
}

#[test]
fn test_hello_world() {
    round_trip_on_carrier(b"hello world!");
}

#[test]
fn test_various_lengths() {
        let data = b"my hovercraft is full of eels!";
        round_trip_on_carrier(&data[..]);

        let data = b"Victorious warriors win first and then go to war, while defeated warriors go \
        to war first and then seek to win";
        round_trip_on_carrier(&data[..]);

        let data = b"Governments of the Industrial World, you weary giants of flesh and steel, I come from Cyberspace, the new home of Mind. On behalf of the future, I ask you of the past to leave us alone. You are not welcome among us. You have no sovereignty where we gather.\r\n\r\nWe have no elected government, nor are we likely to have one, so I address you with no greater authority than that with which liberty itself always speaks. I declare the global social space we are building to be naturally independent of the tyrannies you seek to impose on us. You have no moral right to rule us nor do you possess any methods of enforcement we have true reason to fear.\r\n\r\nGovernments derive their just powers from the consent of the governed. You have neither solicited nor received ours. We did not invite you. You do not know us, nor do you know our world. Cyberspace does not lie within your borders. Do not think that you can build it, as though it were a public construction project. You cannot. It is an act of nature and it grows itself through our collective actions.\r\n\r\nYou have not engaged in our great and gathering conversation, nor did you create the wealth of our marketplaces. You do not know our culture, our ethics, or the unwritten codes that already provide our society more order than could be obtained by any of your impositions.\r\n\r\nYou claim there are problems among us that you need to solve. You use this claim as an excuse to invade our precincts. Many of these problems don\'t exist. Where there are real conflicts, where there are wrongs, we will identify them and address them by our means. We are forming our own Social Contract. This governance will arise according to the conditions of our world, not yours. Our world is different.\r\n\r\nCyberspace consists of transactions, relationships, and thought itself, arrayed like a standing wave in the web of our communications. Ours is a world that is both everywhere and nowhere, but it is not where bodies live.\r\n\r\nWe are creating a world that all may enter without privilege or prejudice accorded by race, economic power, military force, or station of birth.\r\n\r\nWe are creating a world where anyone, anywhere may express his or her beliefs, no matter how singular, without fear of being coerced into silence or conformity.\r\n\r\nYour legal concepts of property, expression, identity, movement, and context do not apply to us. They are all based on matter, and there is no matter here.\r\n\r\nOur identities have no bodies, so, unlike you, we cannot obtain order by physical coercion. We believe that from ethics, enlightened self-interest, and the commonweal, our governance will emerge. Our identities may be distributed across many of your jurisdictions. The only law that all our constituent cultures would generally recognize is the Golden Rule. We hope we will be able to build our particular solutions on that basis. But we cannot accept the solutions you are attempting to impose.\r\n\r\nIn the United States, you have today created a law, the Telecommunications Reform Act, which repudiates your own Constitution and insults the dreams of Jefferson, Washington, Mill, Madison, DeToqueville, and Brandeis. These dreams must now be born anew in us.\r\n\r\nYou are terrified of your own children, since they are natives in a world where you will always be immigrants. Because you fear them, you entrust your bureaucracies with the parental responsibilities you are too cowardly to confront yourselves. In our world, all the sentiments and expressions of humanity, from the debasing to the angelic, are parts of a seamless whole, the global conversation of bits. We cannot separate the air that chokes from the air upon which wings beat.\r\n\r\nIn China, Germany, France, Russia, Singapore, Italy and the United States, you are trying to ward off the virus of liberty by erecting guard posts at the frontiers of Cyberspace. These may keep out the contagion for a small time, but they will not work in a world that will soon be blanketed in bit-bearing media.\r\n\r\nYour increasingly obsolete information industries would perpetuate themselves by proposing laws, in America and elsewhere, that claim to own speech itself throughout the world. These laws would declare ideas to be another industrial product, no more noble than pig iron. In our world, whatever the human mind may create can be reproduced and distributed infinitely at no cost. The global conveyance of thought no longer requires your factories to accomplish.\r\n\r\nThese increasingly hostile and colonial measures place us in the same position as those previous lovers of freedom and self-determination who had to reject the authorities of distant, uninformed powers. We must declare our virtual selves immune to your sovereignty, even as we continue to consent to your rule over our bodies. We will spread ourselves across the Planet so that no one can arrest our thoughts.\r\n\r\nWe will create a civilization of the Mind in Cyberspace. May it be more humane and fair than the world your governments have made before.";
        round_trip_on_carrier(&data[..]);
}

#[test]
fn round_trip_of_empty_payload() {
    let mut px = carrier(32, 32);
    encode_pixels(&mut px, 32, 32, b"").unwrap();
    assert_eq!(decode_pixels(&px, 32, 32).unwrap(), Vec::<u8>::new());
}

#[test]
fn hello_world_on_smallest_carrier() {
    // Blocks of 40 and 44 bytes: each of the two regions needs 352 pixels.
    let mut px = carrier(704, 1);
    encode_pixels(&mut px, 704, 1, b"hello world!").unwrap();
    assert_eq!(decode_pixels(&px, 704, 1).unwrap(), b"hello world!".to_vec());
}

#[test]
fn one_pixel_short_is_refused_unchanged() {
    let mut px = carrier(703, 1);
    let before = px.clone();
    assert_eq!(encode_pixels(&mut px, 703, 1, b"hello world!"), Err(StegError::InsufficientCapacity));
    assert_eq!(px, before);
}

#[test]
fn carrier_below_bit_count_is_refused_unchanged() {
    // 12 bytes need (40 + 44) * 8 = 672 bits; 600 pixels only hold 600.
    let mut px = carrier(30, 20);
    let before = px.clone();
    assert_eq!(encode_pixels(&mut px, 30, 20, b"hello world!"), Err(StegError::InsufficientCapacity));
    assert_eq!(px, before);
}

#[test]
fn embedding_touches_only_lowest_bits_of_colour() {
    let original = carrier(SIDE, SIDE);
    let mut px = original.clone();
    encode_pixels(&mut px, SIDE, SIDE, b"my hovercraft is full of eels!").unwrap();
    let mut changed = 0;
    for i in 0..px.len() {
        assert_eq!(px[i] >> 1, original[i] >> 1);
        if i % CHANNELS == 3 {
            assert_eq!(px[i], original[i]);
        }
        if px[i] != original[i] {
            changed += 1;
        }
    }
    assert!(changed > 0);
}

#[test]
fn block_count_uses_ceiling() {
    assert_eq!(encode_ecc(&[7u8; 223]).len(), 2);
    assert_eq!(encode_ecc(&[7u8; 446]).len(), 3);
    assert_eq!(encode_ecc(&[7u8; 447]).len(), 4);
    assert_eq!(encode_ecc(&[]).len(), 1);
    let blocks = encode_ecc(&[7u8; 300]);
    assert_eq!(blocks[1].len(), DATA_LEN + PARITY_LEN);
    assert_eq!(blocks[2].len(), 300 - DATA_LEN + PARITY_LEN);
}

#[test]
fn exact_multiple_of_block_data_round_trips() {
    let data: Vec<u8> = (0..446u32).map(|i| (i * 7 + 3) as u8).collect();
    round_trip_on_carrier(&data);
}

#[test]
fn header_block_holds_length_and_parity() {
    let blocks = encode_ecc(b"hello world!");
    assert_eq!(blocks[0].len(), 40);
    assert_eq!(&blocks[0][..8], &12u64.to_le_bytes()[..]);
    assert_eq!(read_le_u64(&blocks[0]), 12);
    assert_eq!(&blocks[1][..12], b"hello world!");
    assert_ne!(&blocks[1][12..], &[0u8; 32][..]);
}

#[test]
fn decode_ecc_corrects_damaged_block() {
    let blocks = encode_ecc(b"hello world!");
    let mut damaged = blocks[1].clone();
    damaged[0] ^= 0xFF;
    damaged[5] ^= 0x10;
    let out = decode_ecc(&vec![damaged]).unwrap();
    assert_eq!(out, b"hello world!".to_vec());
}

#[test]
fn decode_ecc_joins_data_regions() {
    let blocks = encode_ecc(&[1u8; 250]);
    let out = decode_ecc(&blocks[1..].to_vec()).unwrap();
    assert_eq!(out, vec![1u8; 250]);
}

#[test]
fn sixteen_damaged_bytes_are_corrected() {
    let data = vec![0x5Au8; 600];
    let mut px = carrier(SIDE, SIDE);
    encode_pixels(&mut px, SIDE, SIDE, &data).unwrap();
    let region = SIDE * SIDE / 4;
    for m in 0..16 {
        corrupt_byte(&mut px, region, 2, m * 13);
    }
    assert_eq!(decode_pixels(&px, SIDE, SIDE).unwrap(), data);
}

#[test]
fn seventeen_damaged_bytes_fail_the_decode() {
    let data = vec![0x5Au8; 600];
    let mut px = carrier(SIDE, SIDE);
    encode_pixels(&mut px, SIDE, SIDE, &data).unwrap();
    let region = SIDE * SIDE / 4;
    for m in 0..17 {
        corrupt_byte(&mut px, region, 2, m * 13);
    }
    assert_eq!(decode_pixels(&px, SIDE, SIDE), Err(StegError::CorruptedBlock));
}

#[test]
fn damaged_header_is_corrected() {
    let mut px = carrier(SIDE, SIDE);
    encode_pixels(&mut px, SIDE, SIDE, b"hello world!").unwrap();
    for m in 0..16 {
        corrupt_byte(&mut px, 0, 0, m * 2);
    }
    assert_eq!(decode_pixels(&px, SIDE, SIDE).unwrap(), b"hello world!".to_vec());
}

#[test]
fn noise_fails_as_corrupted() {
    let px = carrier(64, 64);
    assert_eq!(decode_pixels(&px, 64, 64), Err(StegError::CorruptedBlock));
}

#[test]
fn too_small_for_a_header() {
    let px = carrier(319, 1);
    assert_eq!(decode_pixels(&px, 319, 1), Err(StegError::InsufficientCapacity));
}

#[test]
fn length_beyond_carrier_is_malformed() {
    let data = vec![9u8; 2000];
    let mut px = carrier(SIDE, SIDE);
    encode_pixels(&mut px, SIDE, SIDE, &data).unwrap();
    let head = px[..1000 * CHANNELS].to_vec();
    assert_eq!(decode_pixels(&head, 1000, 1), Err(StegError::MalformedHeader));
}

#[test]
fn blank_carrier_reads_as_empty_payload() {
    let px = vec![0u8; 64 * 64 * CHANNELS];
    assert_eq!(decode_pixels(&px, 64, 64).unwrap(), Vec::<u8>::new());
}

/// Walks the spiral by moving and turning, without any arithmetic on rings.
fn reference_walk(w: usize, h: usize) -> Vec<(u32, u32)> {
    let mut seen = vec![false; w * h];
    let mut out = Vec::with_capacity(w * h);
    let dirs: [(i64, i64); 4] = [(0, 1), (1, 0), (0, -1), (-1, 0)];
    let (mut x, mut y, mut d) = (0i64, 0i64, 0usize);
    loop {
        seen[y as usize * w + x as usize] = true;
        out.push((x as u32, y as u32));
        if out.len() == w * h {
            return out;
        }
        let mut moved = false;
        for _ in 0..4 {
            let (nx, ny) = (x + dirs[d].0, y + dirs[d].1);
            let inside = nx >= 0 && ny >= 0 && (nx as usize) < w && (ny as usize) < h;
            if inside && !seen[ny as usize * w + nx as usize] {
                x = nx;
                y = ny;
                moved = true;
                break;
            }
            d = (d + 1) % 4;
        }
        assert!(moved);
    }
}

fn check_spiral(w: u32, h: u32) {
    let walk = reference_walk(w as usize, h as usize);
    let mut seen = vec![false; (w * h) as usize];
    for i in 0..(w as u64 * h as u64) {
        let (x, y) = spiral_coord(w, h, i).unwrap();
        assert!(x < w && y < h);
        let cell = (y * w + x) as usize;
        assert!(!seen[cell]);
        seen[cell] = true;
        assert_eq!((x, y), walk[i as usize]);
    }
    assert!(seen.iter().all(|s| *s));
    assert_eq!(spiral_coord(w, h, w as u64 * h as u64), None);
}

#[test]
fn spiral_visits_every_cell_once() {
    for (w, h) in [(128, 128), (128, 256), (256, 128), (100, 99), (101, 97), (113, 39)] {
        check_spiral(w, h);
    }
}

#[test]
fn spiral_on_strips_and_small_grids() {
    for (w, h) in [(1, 1), (1, 7), (7, 1), (2, 2), (2, 5), (5, 2), (3, 3), (4, 6), (9, 4)] {
        check_spiral(w, h);
    }
}

#[test]
fn spiral_three_by_three() {
    let expected = [(0, 0), (0, 1), (0, 2), (1, 2), (2, 2), (2, 1), (2, 0), (1, 0), (1, 1)];
    for (i, c) in expected.iter().enumerate() {
        assert_eq!(spiral_coord(3, 3, i as u64), Some(*c));
    }
    assert_eq!(spiral_coord(3, 3, 9), None);
    assert_eq!(spiral_coord(0, 5, 0), None);
}

#[test]
fn spiral_on_large_grid() {
    let (w, h) = (60_000u32, 50_000u32);
    assert_eq!(spiral_coord(w, h, 0), Some((0, 0)));
    assert_eq!(spiral_coord(w, h, 49_999), Some((0, 49_999)));
    assert_eq!(spiral_coord(w, h, 50_000), Some((1, 49_999)));
    // The first cell of ring 1 follows the 2 * (59_999 + 49_999) cells of ring 0.
    assert_eq!(spiral_coord(w, h, 219_996), Some((1, 1)));
    assert_eq!(spiral_coord(w, h, 219_995), Some((1, 0)));
    let last = w as u64 * h as u64 - 1;
    let (x, y) = spiral_coord(w, h, last).unwrap();
    assert!(x < w && y < h);
}
