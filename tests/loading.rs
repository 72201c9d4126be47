use cvtree::alphabet::encode;
use cvtree::bacteria::{Bacteria, Residual, Scratch};
use cvtree::error::CvError;
use cvtree::parser::Loader;
use cvtree::window::{slide, window_index_of, M1};

fn load(text: &str) -> (Result<Bacteria, CvError>, Scratch) {
    let mut scratch = Scratch::new();
    let r = Bacteria::from_bytes(text.as_bytes(), &mut scratch);
    (r, scratch)
}

fn res(index: u64, num: i128, den: u128) -> Residual {
    Residual { index, num, den }
}

#[test]
fn encode_maps_letters_to_codes() {
    let expected: [i8; 26] = [
        0, 2, 1, 2, 3, 4, 5, 6, 7, -1, 8, 9, 10, 11, -1, 12, 13, 14, 15, 16, 1, 17, 18, 5, 19, 3,
    ];
    for (k, e) in expected.iter().enumerate() {
        let ch = b'A' + k as u8;
        if *e < 0 {
            assert_eq!(encode(ch), Err(CvError::InvalidResidue));
        } else {
            assert_eq!(encode(ch), Ok(*e as u8));
        }
    }
}

#[test]
fn encode_rejects_other_bytes() {
    for ch in [b'a', b'z', b'0', b'@', b'[', b'*', b'-', 0u8, 255u8] {
        assert_eq!(encode(ch), Err(CvError::InvalidResidue));
    }
}

#[test]
fn rolling_index_arithmetic() {
    assert_eq!(window_index_of(0, 0), 0);
    assert_eq!(window_index_of(M1 - 1, 19), 64_000_000 - 1);
    assert_eq!(window_index_of(123, 7), 123 * 20 + 7);
    // dropping the oldest of five digits: 1 2 3 4 5 then 6 gives 2 3 4 5 6
    let v = (((1 * 20 + 2) * 20 + 3) * 20 + 4) * 20 + 5;
    let w = (((2 * 20 + 3) * 20 + 4) * 20 + 5) * 20 + 6;
    assert_eq!(slide(v, 6), w);
}

#[test]
fn data_before_header_is_malformed() {
    let (r, _) = load("ACDEFG\n>h\nACDEFGH\n");
    assert_eq!(r.unwrap_err(), CvError::MalformedRecord);
    let (r, _) = load("\n \r\nAC\n");
    assert_eq!(r.unwrap_err(), CvError::MalformedRecord);
}

#[test]
fn short_records_are_malformed() {
    assert_eq!(load(">only a header").0.unwrap_err(), CvError::MalformedRecord);
    assert_eq!(load(">h\n").0.unwrap_err(), CvError::MalformedRecord);
    assert_eq!(load(">h\nACD\n").0.unwrap_err(), CvError::MalformedRecord);
    assert_eq!(load(">h\nACDEF\n>g\nAC\n").0.unwrap_err(), CvError::MalformedRecord);
    assert_eq!(load(">h\nACDE\n>g\nACDEFG\n").0.unwrap_err(), CvError::MalformedRecord);
}

#[test]
fn empty_input_is_an_empty_sequence() {
    assert_eq!(load("").0.unwrap_err(), CvError::EmptySequence);
    assert_eq!(load("\n\r\n  \n").0.unwrap_err(), CvError::EmptySequence);
}

#[test]
fn invalid_residue_is_rejected() {
    assert_eq!(load(">h\nACDEJ\n").0.unwrap_err(), CvError::InvalidResidue);
    assert_eq!(load(">h\nACDEFGa\n").0.unwrap_err(), CvError::InvalidResidue);
}

#[test]
fn seed_only_record_has_no_full_window() {
    let (r, scratch) = load(">h\nACDEF\n");
    let b = r.unwrap();
    assert_eq!(b.total, 0);
    assert_eq!(b.total_l, 5);
    assert_eq!(b.complement, 1);
    // A C D E F are codes 0 1 2 3 4
    let m = (((0 * 20 + 1) * 20 + 2) * 20 + 3) * 20 + 4;
    assert_eq!(b.indexs, m);
    for (code, n) in b.one_l.iter().enumerate() {
        assert_eq!(*n, if code < 5 { 1 } else { 0 });
    }
    assert_eq!(scratch.second[m as usize], 1);
    assert_eq!(scratch.second.iter().sum::<u64>(), 1);
    assert!(scratch.vector.iter().all(|c| *c == 0));
    assert!(b.cs.is_empty());
    assert_eq!(b.count, 0);
}

#[test]
fn hand_computed_composition_vector() {
    // six A (code 0) then C (code 1): two full windows, 0 and 1; medium
    // windows 0, 0 and 1; seven residues, one record.
    let (r, scratch) = load(">s\nAAAAAAC\n");
    let b = r.unwrap();
    assert_eq!(b.total, 2);
    assert_eq!(b.total_l, 7);
    assert_eq!(b.complement, 1);
    assert_eq!(b.one_l[0], 6);
    assert_eq!(b.one_l[1], 1);
    assert_eq!(scratch.second[0], 2);
    assert_eq!(scratch.second[1], 1);
    assert_eq!(scratch.vector[0], 1);
    assert_eq!(scratch.vector[1], 1);
    // scale = 2 * (2 + 1) * 7 = 42; window 1 expects 2 * (2 * 1 + 1 * 6) / 42,
    // observes 1, so its residual is (1 * 42 - 16) / 16.
    assert_eq!(b.stochastic_compute(&scratch.second, 1), 16);
    assert_eq!(b.stochastic_compute(&scratch.second, 0), 48);
    let expected = vec![
        res(0, -6, 48),
        res(1, 26, 16),
        res(20, -12, 12),
        res(21, -2, 2),
        res(3_200_000, -4, 4),
        res(3_200_001, -2, 2),
    ];
    assert_eq!(b.cs, expected);
    assert_eq!(b.count, 6);
}

#[test]
fn several_records_and_blank_bytes() {
    let (r, scratch) = load(">a first\r\nAAA AAA\r\n>b\n\tCC\nCCC\n\n");
    let b = r.unwrap();
    assert_eq!(b.total_l, 11);
    assert_eq!(b.complement, 2);
    assert_eq!(b.total, 1);
    assert_eq!(b.one_l[0], 6);
    assert_eq!(b.one_l[1], 5);
    assert_eq!(scratch.second[0], 2);
    assert_eq!(scratch.second[168_421], 1);
    assert_eq!(scratch.vector[0], 1);
}

#[test]
fn streaming_matches_whole_buffer() {
    let text = b">x\nMKVLAAGIVGLLLAWQ\n>y\nPPPPPWWWWW\n";
    let mut scratch = Scratch::new();
    let mut loader = Loader::new(&scratch);
    for b in text.iter() {
        loader.feed(*b, &mut scratch.second, &mut scratch.vector).unwrap();
    }
    let streamed = loader.finish(&scratch.second, &scratch.vector).unwrap();
    scratch.clear();
    let whole = Bacteria::from_bytes(text, &mut scratch).unwrap();
    assert_eq!(streamed.cs, whole.cs);
    assert!(!whole.cs.is_empty());
}

#[test]
fn reused_buffers_give_identical_vectors() {
    let a = b">a\nMKVLAAGIVGLLLAWQERST\n";
    let b = b">b\nGGGGGHHHHHKKKKK\n";
    let mut scratch = Scratch::new();
    let first = Bacteria::from_bytes(a, &mut scratch).unwrap();
    scratch.clear();
    let _other = Bacteria::from_bytes(b, &mut scratch).unwrap();
    scratch.clear();
    let again = Bacteria::from_bytes(a, &mut scratch).unwrap();
    assert_eq!(first.cs, again.cs);
    assert_eq!(first.count, again.count);
}

#[test]
fn rolling_index_holds_last_five_residues() {
    // E F G H I are codes 3 4 5 6 7
    let (r, _) = load(">h\nACDEFGHI\n");
    let b = r.unwrap();
    assert_eq!(b.indexs, (((3 * 20 + 4) * 20 + 5) * 20 + 6) * 20 + 7);
    assert_eq!(b.indexs % 160_000, ((4 * 20 + 5) * 20 + 6) * 20 + 7);
    assert_eq!(b.total, 3);
}

#[test]
fn buffers_count_seed_and_advance() {
    let mut b = Bacteria::new();
    let mut second = vec![0u64; 3_200_000];
    let mut vector = vec![0u32; 64_000_000];
    b.init_buffer(&[0, 1, 2, 3, 4], &mut second);
    let seed = (((0 * 20 + 1) * 20 + 2) * 20 + 3) * 20 + 4;
    assert_eq!(b.indexs, seed);
    assert_eq!(b.complement, 1);
    assert_eq!(b.total_l, 5);
    assert_eq!(b.total, 0);
    assert_eq!(second[seed as usize], 1);
    b.cont_buffer(19, &mut second, &mut vector);
    assert_eq!(vector[(seed * 20 + 19) as usize], 1);
    let next = (seed % 160_000) * 20 + 19;
    assert_eq!(b.indexs, next);
    assert_eq!(second[next as usize], 1);
    assert_eq!(b.one_l[19], 1);
    assert_eq!(b.total, 1);
    assert_eq!(b.total_l, 6);
}

#[test]
fn builder_rejects_empty_record() {
    let mut b = Bacteria::new();
    let scratch = Scratch::new();
    assert_eq!(b.compute_residuals(&scratch.second, &scratch.vector), Err(CvError::EmptySequence));
}
