use radiant::{load, ByteReader, Image, LoadError};

/// A small generator of numbers that look random, the same on every run.
struct Numbers(u64);

impl Numbers {
    fn next(&mut self) -> u64 {
        self.0 ^= self.0 << 13;
        self.0 ^= self.0 >> 7;
        self.0 ^= self.0 << 17;
        self.0
    }

    fn below(&mut self, bound: u64) -> u64 {
        self.next() % bound
    }

    /// A byte, often one that means something to a decoder.
    fn byte(&mut self) -> u8 {
        const MARKED: [u8; 12] = [0, 1, 1, 1, 2, 2, 3, 8, 127, 128, 129, 136];
        if self.below(3) == 0 {
            self.next() as u8
        } else {
            MARKED[self.below(12) as usize]
        }
    }
}

fn decode(bytes: &[u8]) -> (Result<Image, LoadError>, usize) {
    let mut reader = ByteReader::new(bytes);
    let result = load(&mut reader);
    (result, bytes.len() - reader.remaining())
}

/// A stream with a sound header for an image of `width` by `height` and
/// `len` bytes of any kind after it.
fn noisy_stream(numbers: &mut Numbers, width: u64, height: u64, len: u64) -> Vec<u8> {
    let mut bytes = format!("#?RADIANCE\nFORMAT=32-bit_rle_rgbe\n\n-Y {height} +X {width}\n")
        .into_bytes();
    for _ in 0..len {
        bytes.push(numbers.byte());
    }
    bytes
}

#[test]
fn any_stream_decodes_to_a_whole_image_or_fails() {
    let mut numbers = Numbers(0x9e37_79b9_7f4a_7c15);
    let mut images = 0;
    for round in 0..4000 {
        let width = if round % 2 == 0 { numbers.below(4) } else { 8 + numbers.below(3) };
        let height = numbers.below(4);
        let len = numbers.below(48);
        let bytes = noisy_stream(&mut numbers, width, height, len);
        let (result, used) = decode(&bytes);
        assert!(used <= bytes.len());
        match result {
            Ok(image) => {
                images += 1;
                assert_eq!((image.width as u64, image.height as u64), (width, height));
                assert_eq!(image.data.len(), image.width * image.height);
            }
            Err(LoadError::Eof) => assert_eq!(used, bytes.len()),
            Err(LoadError::Rle) => assert!(width > 0 && height > 0),
            Err(error) => panic!("{error:?} in round {round}"),
        }
    }
    assert!(images > 100);
}

#[test]
fn any_stream_cut_short_decodes_alike_or_ends_early() {
    let mut numbers = Numbers(0x2545_f491_4f6c_dd1d);
    for round in 0..600 {
        let width = if round % 2 == 0 { 1 + numbers.below(3) } else { 8 };
        let height = 1 + numbers.below(2);
        let len = numbers.below(40);
        let bytes = noisy_stream(&mut numbers, width, height, len);
        let (whole, used) = decode(&bytes);
        for cut in 0..bytes.len() {
            let (short, _) = decode(&bytes[..cut]);
            match (&short, &whole) {
                (Err(LoadError::Eof), _) => {}
                (Ok(a), Ok(b)) => {
                    assert!(cut >= used);
                    assert_eq!((a.width, a.height, &a.data), (b.width, b.height, &b.data));
                }
                (Err(a), Err(b)) => assert_eq!(a, b),
                _ => panic!("round {round}, cut at {cut}: {short:?} but {whole:?}"),
            }
            if whole.is_ok() && cut < used {
                assert_eq!(short.unwrap_err(), LoadError::Eof);
            }
        }
    }
}

#[test]
fn bytes_after_the_image_change_nothing() {
    let mut numbers = Numbers(0x1234_5678_9abc_def1);
    for _ in 0..300 {
        let width = 1 + numbers.below(9);
        let bytes = noisy_stream(&mut numbers, width, 1, 60);
        let (whole, used) = decode(&bytes);
        if let Ok(image) = whole {
            let (again, used_again) = decode(&bytes[..used]);
            assert_eq!(used_again, used);
            assert_eq!(again.unwrap().data, image.data);
        }
    }
}
