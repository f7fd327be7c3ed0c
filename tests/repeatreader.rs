use test_utils::streams::RepeatReader;

fn read_all(rr: &mut RepeatReader) -> String {
    let mut out: Vec<u8> = Vec::new();
    rr.read_to_end(&mut out);
    String::from_utf8(out).unwrap()
}

#[test]
fn read() {
    let mut rr = RepeatReader::from_str(11, "hello world");
    let res = read_all(&mut rr);
    assert_eq!(res, "hello world");

    let mut rr = RepeatReader::from_str(13, "hello world");
    let res = read_all(&mut rr);
    assert_eq!(res, "hello worldhe");

    let mut rr = RepeatReader::from_str(3, "hello world");
    let res = read_all(&mut rr);
    assert_eq!(res, "hel");

    let mut rr = RepeatReader::from_str(26, "hello world");
    let res = read_all(&mut rr);
    assert_eq!(res, "hello worldhello worldhell");

    let mut rr = RepeatReader::from_str(0, "hello world");
    let res = read_all(&mut rr);
    assert_eq!(res, "");
}

#[test]
fn long_size_repeats_content() {
    let mut rr = RepeatReader::from_slice(10, &[1u8, 2, 3]);
    let mut out: Vec<u8> = Vec::new();
    assert_eq!(rr.read_to_end(&mut out), 10);
    assert_eq!(out, vec![1u8, 2, 3, 1, 2, 3, 1, 2, 3, 1]);
    assert_eq!(rr.left(), 0);
}

#[test]
fn short_size_is_prefix() {
    let mut rr = RepeatReader::new(2, vec![5u8, 6, 7, 8]);
    let mut out: Vec<u8> = Vec::new();
    rr.read_to_end(&mut out);
    assert_eq!(out, vec![5u8, 6]);
}

#[test]
fn zero_size_reads_nothing() {
    let mut rr = RepeatReader::from_str(0, "abc");
    let mut buf = [9u8; 4];
    assert_eq!(rr.read(&mut buf), 0);
    assert_eq!(buf, [9u8; 4]);
    assert_eq!(rr.left(), 0);
}

#[test]
fn zero_size_with_empty_content() {
    let mut rr = RepeatReader::new(0, Vec::new());
    let mut out: Vec<u8> = Vec::new();
    assert_eq!(rr.read_to_end(&mut out), 0);
    assert!(out.is_empty());
}

#[test]
fn left_shrinks_by_each_read_and_reset_restores() {
    let mut rr = RepeatReader::from_str(13, "hello world");
    assert_eq!(rr.left(), 13);
    let mut buf = [0u8; 5];
    assert_eq!(rr.read(&mut buf), 5);
    assert_eq!(&buf, b"hello");
    assert_eq!(rr.left(), 8);
    assert_eq!(rr.read(&mut buf), 5);
    assert_eq!(&buf, b" worl");
    assert_eq!(rr.left(), 3);
    assert_eq!(rr.read(&mut buf), 3);
    assert_eq!(&buf, b"dherl");
    assert_eq!(rr.left(), 0);
    assert_eq!(rr.read(&mut buf), 0);
    assert_eq!(rr.left(), 0);
    rr.reset();
    assert_eq!(rr.left(), 13);
}

#[test]
fn read_wraps_within_one_call() {
    let mut rr = RepeatReader::from_slice(100, &[7u8]);
    let mut buf = [0u8; 40];
    assert_eq!(rr.read(&mut buf), 40);
    assert_eq!(buf, [7u8; 40]);
    assert_eq!(rr.left(), 60);
}

#[test]
fn read_stops_at_exact_content_boundary_then_wraps() {
    let mut rr = RepeatReader::from_str(6, "abc");
    let mut buf = [0u8; 3];
    assert_eq!(rr.read(&mut buf), 3);
    assert_eq!(&buf, b"abc");
    assert_eq!(rr.read(&mut buf), 3);
    assert_eq!(&buf, b"abc");
    assert_eq!(rr.read(&mut buf), 0);
}

#[test]
fn empty_buffer_reads_nothing() {
    let mut rr = RepeatReader::from_str(5, "xy");
    let mut buf: [u8; 0] = [];
    assert_eq!(rr.read(&mut buf), 0);
    assert_eq!(rr.left(), 5);
}

#[test]
fn reset_replays_same_bytes() {
    let mut rr = RepeatReader::from_str(26, "hello world");
    let mut first: Vec<u8> = Vec::new();
    rr.read_to_end(&mut first);
    rr.reset();
    let mut second: Vec<u8> = Vec::new();
    rr.read_to_end(&mut second);
    rr.reset();
    let mut third: Vec<u8> = Vec::new();
    rr.read_to_end(&mut third);
    assert_eq!(first, second);
    assert_eq!(second, third);
    assert_eq!(first, b"hello worldhello worldhell".to_vec());
}

#[test]
fn reset_midway_starts_over() {
    let mut rr = RepeatReader::from_str(4, "abc");
    let mut buf = [0u8; 2];
    rr.read(&mut buf);
    rr.reset();
    let mut out: Vec<u8> = Vec::new();
    rr.read_to_end(&mut out);
    assert_eq!(out, b"abca".to_vec());
}

#[test]
fn read_to_end_appends() {
    let mut rr = RepeatReader::from_str(3, "ab");
    let mut out: Vec<u8> = vec![b'>'];
    rr.read_to_end(&mut out);
    assert_eq!(out, b">aba".to_vec());
}

#[test]
fn from_str_uses_utf8_bytes() {
    let mut rr = RepeatReader::from_str(5, "é");
    assert_eq!(rr.left(), 5);
    let mut out: Vec<u8> = Vec::new();
    rr.read_to_end(&mut out);
    assert_eq!(out, vec![0xC3u8, 0xA9, 0xC3, 0xA9, 0xC3]);
}

#[test]
fn output_does_not_depend_on_buffer_lengths() {
    for lens in [vec![1usize], vec![2, 5], vec![7, 1, 3], vec![26], vec![100]] {
        let mut rr = RepeatReader::from_str(26, "hello world");
        let mut out: Vec<u8> = Vec::new();
        let mut i: usize = 0;
        loop {
            let mut buf = vec![0u8; lens[i % lens.len()]];
            let n = rr.read(&mut buf);
            if n == 0 {
                break;
            }
            out.extend_from_slice(&buf[..n]);
            i += 1;
        }
        assert_eq!(out, b"hello worldhello worldhell".to_vec());
    }
}
