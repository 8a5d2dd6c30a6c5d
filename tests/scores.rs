use square_demo::scores::{decode_highscores_and_lines, encode_highscores_and_lines};

fn bytes(s: &str) -> Vec<u8> {
    s.as_bytes().to_vec()
}

#[test]
fn sample_record_is_written_as_two_lines() {
    let b = encode_highscores_and_lines(&vec![15, 25, 24, 24], &vec![20, 19, 21, 20]);
    assert_eq!(b, bytes("15 25 24 24\n20 19 21 20\n"));
}

#[test]
fn sample_record_round_trips() {
    let h = vec![15, 25, 24, 24];
    let l = vec![20, 19, 21, 20];
    let b = encode_highscores_and_lines(&h, &l);
    assert_eq!(decode_highscores_and_lines(&b), Some((h, l)));
}

#[test]
fn empty_sequences_round_trip() {
    let b = encode_highscores_and_lines(&vec![], &vec![]);
    assert_eq!(b, bytes("\n\n"));
    assert_eq!(decode_highscores_and_lines(&b), Some((vec![], vec![])));
}

#[test]
fn zero_and_largest_values_round_trip() {
    let h = vec![0, u32::MAX, 10, 100];
    let l = vec![u32::MAX];
    let b = encode_highscores_and_lines(&h, &l);
    assert_eq!(b, bytes("0 4294967295 10 100\n4294967295\n"));
    assert_eq!(decode_highscores_and_lines(&b), Some((h, l)));
}

#[test]
fn lines_of_different_lengths_round_trip() {
    let h = vec![7];
    let l = vec![1, 2, 3, 4, 5];
    let b = encode_highscores_and_lines(&h, &l);
    assert_eq!(decode_highscores_and_lines(&b), Some((h, l)));
}

#[test]
fn decode_reads_written_text() {
    assert_eq!(
        decode_highscores_and_lines(&bytes("3 1\n4\n")),
        Some((vec![3, 1], vec![4]))
    );
}

#[test]
fn decode_refuses_malformed_files() {
    let bad = [
        "",
        "1 2\n",
        "1 2\n3",
        "1 2\n3\nextra",
        "1 2\n3\n\n",
        "01\n2\n",
        "1  2\n3\n",
        " 1\n2\n",
        "1 \n2\n",
        "1\t2\n3\n",
        "a\n1\n",
        "4294967296\n1\n",
        "99999999999\n1\n",
        "1\r\n2\r\n",
    ];
    for text in bad.iter() {
        assert_eq!(decode_highscores_and_lines(&bytes(text)), None, "{:?}", text);
    }
}

#[test]
fn decode_accepts_the_largest_number() {
    assert_eq!(
        decode_highscores_and_lines(&bytes("4294967295\n0\n")),
        Some((vec![u32::MAX], vec![0]))
    );
}
