use aoc2022::marker::{marker_position, MarkerDetector};

fn marker_end(line: &str, len: usize) -> usize {
    marker_position(line, len)
}

#[test]
fn start_of_packet_markers() {
    assert_eq!(marker_end("mjqjpqmgbljsphdztnvjfqwrcgsmlb", 4), 7);
    assert_eq!(marker_end("bvwbjplbgvbhsrlpgdmjqwftvncz", 4), 5);
    assert_eq!(marker_end("nppdvjthqldpwncqszvftbrmjlhg", 4), 6);
    assert_eq!(marker_end("mjqjpqmgbljsphdztnvjfqwrcgsmlb", 14), 19);
    assert_eq!(marker_end("zcfzfwzzqfrljwzlrfnpqdbhtmscgvjw", 14), 26);
}

#[test]
fn window_slides() {
    let mut m = MarkerDetector::new(2);
    assert!(!m.process('a'));
    assert!(!m.process('a'));
    assert!(m.process('b'));
    assert_eq!(m.ring_buffer.len(), 2);
    assert_eq!(m.chars_processed, 3);
    let mut zero = MarkerDetector::new(0);
    assert!(!zero.process('a'));
    assert_eq!(zero.ring_buffer.len(), 1);
}

#[test]
fn no_marker_reads_everything() {
    assert_eq!(marker_position("aaaa", 2), 4);
    assert_eq!(marker_position("", 4), 0);
    assert_eq!(marker_position("ab", 2), 2);
    assert_eq!(marker_position("abc", 0), 3);
}
