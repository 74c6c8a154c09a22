use buf_list::buf_list::BufList;
use buf_list::cursor::{Cursor, SeekFrom};
use buf_list::errors::{InvalidSeekError, ReadExactError};
use bytes::Bytes;
use std::io::{BufRead, Read, Seek};

fn cursor_over(chunks: &[&'static [u8]]) -> Cursor {
    let mut list = BufList::new();
    for c in chunks {
        list.push_chunk(Bytes::from_static(c));
    }
    Cursor::new(list)
}

#[test]
fn scenario_set_position_then_read_to_end() {
    // Chunks of lengths 2, 3, 1; total 6; starts [0, 2, 5, 6].
    let mut cursor = cursor_over(&[b"ab", b"cde", b"f"]);
    cursor.set_position(5);
    assert_eq!(cursor.position(), 5);

    let mut dest = vec![0u8; 1];
    let n = cursor.read(&mut dest);
    assert_eq!(n, 1);
    assert_eq!(dest, b"f");
    assert_eq!(cursor.position(), 6);

    let n = cursor.read(&mut dest);
    assert_eq!(n, 0);
    assert_eq!(dest, b"f");

    let err = cursor.read_exact(&mut dest).unwrap_err();
    assert_eq!(err, ReadExactError { remaining: 0, buf_len: 1 });
}

#[test]
fn boundary_at_and_past_total_length() {
    let mut cursor = cursor_over(&[b"ab", b"cde", b"f"]);
    cursor.set_position(6);
    let mut dest = vec![0u8; 4];
    assert_eq!(cursor.read(&mut dest), 0);
    assert!(cursor.fill_buf().is_empty());

    cursor.set_position(100);
    assert_eq!(cursor.read(&mut dest), 0);
    assert!(cursor.fill_buf().is_empty());
    assert_eq!(cursor.position(), 100);
}

#[test]
fn negative_seek_fails_and_changes_nothing() {
    let mut cursor = cursor_over(&[b"ab", b"cde", b"f"]);
    cursor.set_position(3);
    assert_eq!(cursor.seek(SeekFrom::Current(-4)), Err(InvalidSeekError));
    assert_eq!(cursor.position(), 3);
    assert_eq!(cursor.seek(SeekFrom::End(-7)), Err(InvalidSeekError));
    assert_eq!(cursor.position(), 3);
    assert_eq!(cursor.seek(SeekFrom::Current(i64::MIN)), Err(InvalidSeekError));
    assert_eq!(cursor.position(), 3);
    // Overflowing the offset type fails the same way.
    cursor.set_position(u64::MAX);
    assert_eq!(cursor.seek(SeekFrom::Current(1)), Err(InvalidSeekError));
    assert_eq!(cursor.position(), u64::MAX);
}

#[test]
fn zero_relative_seek_is_idempotent() {
    let mut moved = cursor_over(&[b"ab", b"cde", b"f"]);
    let mut still = cursor_over(&[b"ab", b"cde", b"f"]);
    moved.set_position(3);
    still.set_position(3);
    assert_eq!(moved.seek(SeekFrom::Current(0)), Ok(3));
    assert_eq!(moved.position(), still.position());

    // All subsequent reads agree with a cursor that never made the seek.
    let mut a = vec![0u8; 4];
    let mut b = vec![0u8; 4];
    assert_eq!(moved.read(&mut a), still.read(&mut b));
    assert_eq!(a, b);
    assert_eq!(moved.position(), still.position());
}

#[test]
fn seek_from_all_origins() {
    let mut cursor = cursor_over(&[b"ab", b"cde", b"f"]);
    assert_eq!(cursor.seek(SeekFrom::Start(4)), Ok(4));
    assert_eq!(cursor.seek(SeekFrom::Current(-3)), Ok(1));
    assert_eq!(cursor.seek(SeekFrom::End(-2)), Ok(4));
    let mut dest = vec![0u8; 2];
    assert_eq!(cursor.read(&mut dest), 2);
    assert_eq!(dest, b"ef");
    // Seeking past the end is legal.
    assert_eq!(cursor.seek(SeekFrom::End(10)), Ok(16));
    assert_eq!(cursor.position(), 16);
}

#[test]
fn read_crosses_chunk_boundaries_in_one_call() {
    let mut cursor = cursor_over(&[b"ab", b"cde", b"f"]);
    let mut dest = vec![0u8; 5];
    assert_eq!(cursor.read(&mut dest), 5);
    assert_eq!(dest, b"abcde");
    assert_eq!(cursor.position(), 5);
}

#[test]
fn read_fills_only_what_remains() {
    let mut cursor = cursor_over(&[b"ab", b"cde", b"f"]);
    cursor.set_position(4);
    let mut dest = vec![9u8; 4];
    assert_eq!(cursor.read(&mut dest), 2);
    assert_eq!(dest, &[b'e', b'f', 9, 9]);
}

#[test]
fn read_vectored_stops_at_partial_fill() {
    let mut cursor = cursor_over(&[b"ab", b"cde", b"f"]);
    let mut bufs = vec![vec![0u8; 2], vec![0u8; 3], vec![0u8; 2]];
    let nread = cursor.read_vectored(&mut bufs);
    assert_eq!(nread, 6);
    assert_eq!(bufs[0], b"ab");
    assert_eq!(bufs[1], b"cde");
    // The last destination was only partially filled, which stops the loop.
    assert_eq!(bufs[2], &[b'f', 0]);
    assert_eq!(cursor.position(), 6);
}

#[test]
fn read_vectored_leaves_later_slots_untouched() {
    let mut cursor = cursor_over(&[b"ab", b"cde", b"f"]);
    let mut bufs = vec![vec![0u8; 10], vec![7u8; 2]];
    let nread = cursor.read_vectored(&mut bufs);
    assert_eq!(nread, 6);
    assert_eq!(&bufs[0][..6], b"abcdef");
    assert_eq!(bufs[1], &[7u8, 7u8]);
}

#[test]
fn read_exact_fills_completely_or_not_at_all() {
    let mut cursor = cursor_over(&[b"ab", b"cde", b"f"]);
    cursor.set_position(1);
    let mut dest = vec![0u8; 3];
    assert_eq!(cursor.read_exact(&mut dest), Ok(()));
    assert_eq!(dest, b"bcd");
    assert_eq!(cursor.position(), 4);

    let mut too_big = vec![0u8; 3];
    let err = cursor.read_exact(&mut too_big).unwrap_err();
    assert_eq!(err, ReadExactError { remaining: 2, buf_len: 3 });
    assert_eq!(cursor.position(), 4);
    assert_eq!(too_big, &[0, 0, 0]);
}

#[test]
fn fill_buf_returns_rest_of_current_chunk() {
    let mut cursor = cursor_over(&[b"ab", b"cde", b"f"]);
    cursor.set_position(3);
    assert_eq!(cursor.fill_buf(), b"de");
    cursor.consume(2);
    assert_eq!(cursor.position(), 5);
    assert_eq!(cursor.fill_buf(), b"f");
    cursor.consume(1);
    assert!(cursor.fill_buf().is_empty());
}

#[test]
fn consume_past_end_is_legal() {
    let mut cursor = cursor_over(&[b"ab"]);
    cursor.consume(10);
    assert_eq!(cursor.position(), 10);
    assert!(cursor.fill_buf().is_empty());
    let mut dest = vec![0u8; 1];
    assert_eq!(cursor.read(&mut dest), 0);
}

#[test]
fn cursor_over_empty_buffer() {
    let mut cursor = Cursor::new(BufList::new());
    assert_eq!(cursor.position(), 0);
    assert!(cursor.fill_buf().is_empty());
    let mut dest = vec![0u8; 1];
    assert_eq!(cursor.read(&mut dest), 0);
    let mut nothing = Vec::new();
    assert_eq!(cursor.read_exact(&mut nothing), Ok(()));
    assert_eq!(cursor.read_exact(&mut dest), Err(ReadExactError { remaining: 0, buf_len: 1 }));
}

#[test]
fn get_ref_and_into_inner_expose_the_buffer() {
    let cursor = cursor_over(&[b"ab", b"cde", b"f"]);
    assert_eq!(cursor.get_ref().remaining(), 6);
    assert_eq!(cursor.get_ref().num_chunks(), 3);
    let list = cursor.into_inner();
    assert_eq!(list.num_bytes(), 6);
}

#[test]
fn cursor_does_not_drain_the_buffer() {
    let mut cursor = cursor_over(&[b"ab", b"cde", b"f"]);
    let mut dest = vec![0u8; 6];
    assert_eq!(cursor.read(&mut dest), 6);
    // Reading through the cursor consumed nothing from the buffer.
    assert_eq!(cursor.get_ref().remaining(), 6);
    assert_eq!(cursor.get_ref().front_view(), b"ab");
}

#[test]
fn matches_reference_cursor_on_contiguous_bytes() {
    let chunks: &[&'static [u8]] = &[b"lap", b"uta, ", b"castle ", b"in", b" the sky"];
    let mut ours = cursor_over(chunks);
    let contiguous: Vec<u8> = chunks.concat();
    let mut reference = std::io::Cursor::new(contiguous);

    // positions to visit, then read sizes to try at each.
    let positions: &[u64] = &[0, 5, 22, 23, 30, 7, 2, 11, 23, 0];
    let sizes: &[usize] = &[0, 1, 4, 9, 40];
    for &pos in positions {
        ours.set_position(pos);
        reference.set_position(pos);
        for &size in sizes {
            let mut a = vec![0u8; size];
            let mut b = vec![0u8; size];
            let na = ours.read(&mut a);
            let nb = reference.read(&mut b).unwrap();
            assert_eq!(na, nb);
            assert_eq!(a, b);
            assert_eq!(ours.position(), reference.position());
        }
    }

    // Relative and end-relative seeks agree, including failures.
    let deltas: &[i64] = &[3, -1, -100, 25, 0, -9];
    for &delta in deltas {
        let a = ours.seek(SeekFrom::Current(delta));
        let b = reference.seek(std::io::SeekFrom::Current(delta));
        assert_eq!(a.is_ok(), b.is_ok());
        if let (Ok(x), Ok(y)) = (&a, &b) {
            assert_eq!(x, y);
            assert_eq!(ours.position(), reference.position());
        }
        let a = ours.seek(SeekFrom::End(delta));
        let b = reference.seek(std::io::SeekFrom::End(delta));
        assert_eq!(a.is_ok(), b.is_ok());
        if let (Ok(x), Ok(y)) = (&a, &b) {
            assert_eq!(x, y);
            assert_eq!(ours.position(), reference.position());
        }
    }

    // Buffered reads observe the same bytes even though our fill_buf window
    // is bounded by chunk edges.
    ours.set_position(0);
    reference.set_position(0);
    loop {
        let ours_view = ours.fill_buf().to_vec();
        let reference_view = reference.fill_buf().unwrap().to_vec();
        assert_eq!(ours_view.is_empty(), reference_view.is_empty());
        if ours_view.is_empty() {
            break;
        }
        assert_eq!(ours_view[..], reference_view[..ours_view.len()]);
        let step = ours_view.len();
        ours.consume(step);
        reference.consume(step);
        assert_eq!(ours.position(), reference.position());
    }
}
