use fragnet::envelope::Image;
use fragnet::steg::{decode_img, encode_img, ByteMask, Decoder, Encoder, StegError};

#[test]
fn byte_mask_rejects_bad_widths() {
    assert_eq!(ByteMask::new(0).unwrap_err(), StegError::InvalidNumberOfBits);
    assert_eq!(ByteMask::new(9).unwrap_err(), StegError::InvalidNumberOfBits);
    for bits in 1..=8u8 {
        assert!(ByteMask::new(bits).is_ok());
    }
}

#[test]
fn byte_mask_fields_for_each_width() {
    let m = ByteMask::new(2).unwrap();
    assert_eq!((m.bits, m.mask, m.chunks), (2, 0x03, 4));
    let m = ByteMask::new(3).unwrap();
    assert_eq!((m.bits, m.mask, m.chunks), (3, 0x07, 3));
    let m = ByteMask::new(8).unwrap();
    assert_eq!((m.bits, m.mask, m.chunks), (8, 0xff, 1));
}

#[test]
fn byte_mask_walks_two_bit_chunks_high_first() {
    let mut m = ByteMask::new(2).unwrap();
    m.set_byte(0b11_01_00_10);
    assert_eq!(m.next(), Some(0b11));
    assert_eq!(m.next(), Some(0b01));
    assert_eq!(m.next(), Some(0b00));
    assert_eq!(m.next(), Some(0b10));
    assert_eq!(m.next(), None);
}

#[test]
fn byte_mask_pads_the_final_three_bit_chunk() {
    let mut m = ByteMask::new(3).unwrap();
    m.set_byte(0b101_110_01);
    assert_eq!(m.next(), Some(0b101));
    assert_eq!(m.next(), Some(0b110));
    // only two bits remain for the final chunk
    assert_eq!(m.next(), Some(0b01));
    assert_eq!(m.next(), None);
}

#[test]
fn join_chunks_inverts_the_walk() {
    for bits in 1..=8u8 {
        let mut m = ByteMask::new(bits).unwrap();
        for byte in [0x00u8, 0x5a, 0xa5, 0xff, 0x01, 0x80] {
            m.set_byte(byte);
            let mut chunks = Vec::new();
            while let Some(c) = m.next() {
                chunks.push(c);
            }
            assert_eq!(chunks.len(), m.chunks as usize);
            assert_eq!(m.join_chunks(&chunks), byte, "bits={bits} byte={byte}");
        }
    }
}

#[test]
fn encoder_rejects_an_oversized_secret() {
    let mask = ByteMask::new(2).unwrap();
    // 3 secret bytes need 12 carrier bytes; 11 are not enough
    let r = Encoder::new(vec![0u8; 11], vec![1, 2, 3], mask);
    assert!(matches!(r, Err(StegError::SecretTooLarge)));
    assert!(Encoder::new(vec![0u8; 12], vec![1, 2, 3], mask).is_ok());
}

#[test]
fn low_bit_embedding_round_trips() {
    for bits in 1..=8u8 {
        let mask = ByteMask::new(bits).unwrap();
        let carrier: Vec<u8> = (0..64u32).map(|i| (i * 37 + 11) as u8).collect();
        let secret = vec![0x42u8, 0x9d, 0x01, 0xfe];
        let enc = Encoder::new(carrier, secret.clone(), mask).unwrap();
        let stego = enc.encode_bytes();
        let dec = Decoder::new(stego, mask);
        let out = dec.decode_bytes();
        // the recovered stream ends with the secret (zero bytes may precede
        // it when the secret itself starts with zero chunks)
        assert!(out.len() >= secret.len(), "bits={bits}");
        assert_eq!(&out[out.len() - secret.len()..], secret.as_slice(), "bits={bits}");
        assert!(out[..out.len() - secret.len()].iter().all(|&b| b == 0), "bits={bits}");
    }
}

#[test]
fn low_bit_embedding_keeps_high_bits() {
    let mask = ByteMask::new(2).unwrap();
    let carrier: Vec<u8> = (0..16u32).map(|i| (i as u8) << 4).collect();
    let enc = Encoder::new(carrier.clone(), vec![0xff], mask).unwrap();
    let stego = enc.encode_bytes();
    assert_eq!(stego.len(), carrier.len());
    for (s, c) in stego.iter().zip(carrier.iter()) {
        assert_eq!(s & !0x03, c & !0x03);
    }
    // the last four carrier bytes hold the secret byte's four chunks
    assert_eq!(&stego[12..], &[0xc3, 0xd3, 0xe3, 0xf3]);
}

#[test]
fn alpha_channel_embedding_round_trips() {
    let img = Image { width: 3, height: 2, data: vec![7u8; 24] };
    let secret = vec![10, 20, 30, 40];
    let out = encode_img(&secret, &img).unwrap();
    assert_eq!(out.width, 3);
    assert_eq!(out.height, 2);
    let recovered = decode_img(&out);
    assert_eq!(recovered.len(), 6);
    assert_eq!(&recovered[..4], secret.as_slice());
    // pixels past the secret keep their alpha
    assert_eq!(&recovered[4..], &[7, 7]);
    // colour channels are untouched
    for (k, b) in out.data.iter().enumerate() {
        if k % 4 != 3 {
            assert_eq!(*b, 7);
        }
    }
}

#[test]
fn alpha_channel_embedding_rejects_an_oversized_secret() {
    let img = Image { width: 2, height: 1, data: vec![0u8; 8] };
    let r = encode_img(&vec![1, 2, 3], &img);
    assert!(matches!(r, Err(StegError::SecretTooLarge)));
}
