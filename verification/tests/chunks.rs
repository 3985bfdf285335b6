use measurements::chunk::{chunk_ranges, chunks, split_evenly, Chunk};

fn content() -> &'static [u8] {
    r#"Hamburg;12.0
Bulawayo;8.9
Palembang;38.8
St. John's;15.2
Cracow;12.6
Bridgetown;26.9
Istanbul;6.2
Roseau;-34.4
Conakry;31.2
Istanbul;23.0"#
        .as_bytes()
}

fn check_partition(buffer: &[u8], ranges: &[Chunk]) {
    if buffer.is_empty() {
        assert!(ranges.is_empty());
        return;
    }
    assert_eq!(ranges[0].start, 0);
    assert_eq!(ranges[ranges.len() - 1].end, buffer.len());
    for i in 0..ranges.len() {
        assert!(ranges[i].start < ranges[i].end);
        if i + 1 < ranges.len() {
            assert_eq!(ranges[i].end, ranges[i + 1].start);
            assert_eq!(buffer[ranges[i].end - 1], b'\n');
        }
    }
}

#[test]
fn it_chunks_content() {
    let content = content();
    let res = chunks(content, 48);

    assert_eq!(
        vec![
            r#"Hamburg;12.0
Bulawayo;8.9
Palembang;38.8
St. John's;15.2
"#
            .as_bytes(),
            r#"Cracow;12.6
Bridgetown;26.9
Istanbul;6.2
Roseau;-34.4
"#
            .as_bytes(),
            r#"Conakry;31.2
Istanbul;23.0"#
                .as_bytes()
        ],
        res
    );
}

#[test]
fn ranges_of_content_take_in_the_newlines() {
    let content = content();
    let ranges = chunk_ranges(content, 48);
    assert_eq!(
        ranges,
        vec![
            Chunk { start: 0, end: 57 },
            Chunk { start: 57, end: 111 },
            Chunk { start: 111, end: 137 },
        ]
    );
    check_partition(content, &ranges);
}

#[test]
fn ranges_partition_for_every_size() {
    let content = content();
    for size in 0..200 {
        let ranges = chunk_ranges(content, size);
        check_partition(content, &ranges);
        for i in 0..ranges.len().saturating_sub(1) {
            assert!(ranges[i].end - ranges[i].start > size);
        }
    }
}

#[test]
fn empty_source_has_no_chunk() {
    assert_eq!(chunk_ranges(b"", 10), vec![]);
    assert_eq!(chunk_ranges(b"", 0), vec![]);
    assert!(chunks(b"", 10).is_empty());
}

#[test]
fn size_of_whole_source_gives_one_chunk() {
    let content = content();
    assert_eq!(chunk_ranges(content, content.len()), vec![Chunk { start: 0, end: 137 }]);
    assert_eq!(chunk_ranges(content, usize::MAX), vec![Chunk { start: 0, end: 137 }]);
    assert_eq!(chunks(content, 1000), vec![content]);
}

#[test]
fn last_row_without_newline_ends_at_len() {
    let text = b"a;1.0\nb;2.0";
    assert_eq!(
        chunk_ranges(text, 2),
        vec![Chunk { start: 0, end: 6 }, Chunk { start: 6, end: 11 }]
    );
}

#[test]
fn last_row_with_newline_ends_at_len() {
    let text = b"a;1.0\nb;2.0\n";
    assert_eq!(
        chunk_ranges(text, 2),
        vec![Chunk { start: 0, end: 6 }, Chunk { start: 6, end: 12 }]
    );
    assert_eq!(chunks(text, 2), vec![b"a;1.0\n".as_slice(), b"b;2.0\n".as_slice()]);
}

#[test]
fn size_zero_gives_one_chunk_per_row() {
    let text = b"a;1.0\nb;2.0\nc;3.0\n";
    let ranges = chunk_ranges(text, 0);
    assert_eq!(
        ranges,
        vec![
            Chunk { start: 0, end: 6 },
            Chunk { start: 6, end: 12 },
            Chunk { start: 12, end: 18 },
        ]
    );
}

#[test]
fn boundary_on_a_newline_ends_right_after_it() {
    // Byte 5 is the newline itself: the chunk ends at 6.
    let text = b"a;1.0\nb;2.0\n";
    assert_eq!(chunk_ranges(text, 5)[0], Chunk { start: 0, end: 6 });
    // Byte 6 starts the next row: the chunk runs to the end of that row.
    assert_eq!(chunk_ranges(text, 6)[0], Chunk { start: 0, end: 12 });
}

#[test]
fn split_evenly_gives_at_most_count_chunks() {
    let content = content();
    for count in 1..40 {
        let ranges = split_evenly(content, count);
        assert!(ranges.len() <= count);
        check_partition(content, &ranges);
        assert_eq!(ranges, chunk_ranges(content, content.len() / count));
    }
    assert_eq!(split_evenly(content, 1), vec![Chunk { start: 0, end: 137 }]);
    assert_eq!(split_evenly(b"", 4), vec![]);
}

#[test]
fn split_evenly_in_three() {
    let content = content();
    assert_eq!(
        split_evenly(content, 3),
        vec![
            Chunk { start: 0, end: 57 },
            Chunk { start: 57, end: 111 },
            Chunk { start: 111, end: 137 },
        ]
    );
}

#[test]
fn chunks_take_in_the_newline_that_ends_them() {
    assert_eq!(chunks(b"a\nb", 1), vec![b"a\n".as_slice(), b"b".as_slice()]);
    assert_eq!(
        chunks(b"a;1.0\nb;2.0\n", 3),
        vec![b"a;1.0\n".as_slice(), b"b;2.0\n".as_slice()]
    );
    let content = content();
    let res = chunks(content, 48);
    assert_eq!(res[0].len(), 57);
    assert_eq!(res[1].len(), 54);
    assert_eq!(res[2].len(), 26);
}

#[test]
fn chunks_are_the_ranges_as_slices() {
    let content = content();
    for size in 0..200 {
        let ranges = chunk_ranges(content, size);
        let slices = chunks(content, size);
        assert_eq!(slices.len(), ranges.len());
        for (slice, range) in slices.iter().zip(ranges.iter()) {
            assert_eq!(*slice, &content[range.start..range.end]);
        }
    }
}

#[test]
fn chunks_joined_are_the_buffer() {
    let texts: [&[u8]; 6] =
        [content(), b"a\nb", b"a;1.0\nb;2.0\n", b"\n\n\n", b"no newline at all", b""];
    for text in texts {
        for size in 0..(text.len() + 3) {
            let slices = chunks(text, size);
            assert_eq!(slices.concat(), text);
            for slice in &slices[..slices.len().saturating_sub(1)] {
                assert_eq!(slice.last(), Some(&b'\n'));
            }
            for slice in &slices {
                assert!(!slice.is_empty());
            }
        }
    }
}

#[test]
fn size_of_whole_source_gives_the_whole_buffer() {
    let with_newline: &[u8] = b"a;1.0\nb;2.0\n";
    assert_eq!(chunks(with_newline, with_newline.len()), vec![with_newline]);
    assert_eq!(chunks(with_newline, usize::MAX), vec![with_newline]);
    let without: &[u8] = b"a;1.0\nb;2.0";
    assert_eq!(chunks(without, without.len()), vec![without]);
    assert_eq!(chunks(b"\n", 5), vec![b"\n".as_slice()]);
}
