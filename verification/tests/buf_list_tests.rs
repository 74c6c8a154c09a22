use buf_list::buf_list::BufList;
use bytes::Bytes;

fn list_of(chunks: &[&'static [u8]]) -> BufList {
    let mut list = BufList::new();
    for c in chunks {
        list.push_chunk(Bytes::from_static(c));
    }
    list
}

#[test]
fn default_buffer_is_empty() {
    let list = BufList::default();
    assert_eq!(list.num_chunks(), 0);
    assert_eq!(list.remaining(), 0);
}

#[test]
fn new_buffer_is_empty() {
    let list = BufList::new();
    assert_eq!(list.num_chunks(), 0);
    assert_eq!(list.num_bytes(), 0);
    assert_eq!(list.remaining(), 0);
    assert_eq!(list.front_view(), b"");
    assert!(list.get_chunk(0).is_none());
}

#[test]
fn push_chunk_grows_buffer() {
    let mut list = BufList::new();
    list.push_chunk(Bytes::from_static(b"ab"));
    list.push_chunk(Bytes::from_static(b"cde"));
    list.push_chunk(Bytes::from_static(b"f"));
    assert_eq!(list.num_chunks(), 3);
    assert_eq!(list.num_bytes(), 6);
    assert_eq!(list.remaining(), 6);
    assert_eq!(list.front_view(), b"ab");
    assert_eq!(list.get_chunk(1).unwrap().as_ref(), b"cde");
    assert_eq!(list.get_chunk(2).unwrap().as_ref(), b"f");
    assert!(list.get_chunk(3).is_none());
}

#[test]
fn push_chunk_returns_the_chunk_handle() {
    let mut list = BufList::new();
    let stored = list.push_chunk(Bytes::from_static(b"xyz"));
    assert_eq!(stored.as_ref(), b"xyz");
    // An empty input is not stored, but the handle still comes back.
    let empty = list.push_chunk(Bytes::new());
    assert_eq!(empty.as_ref(), b"");
}

#[test]
fn push_empty_chunk_changes_nothing() {
    let mut list = list_of(&[b"ab", b"cde"]);
    let chunks_before = list.num_chunks();
    let remaining_before = list.remaining();
    list.push_chunk(Bytes::new());
    assert_eq!(list.num_chunks(), chunks_before);
    assert_eq!(list.remaining(), remaining_before);
}

#[test]
fn advance_within_front_chunk() {
    let mut list = list_of(&[b"ab", b"cde"]);
    list.advance(1);
    assert_eq!(list.remaining(), 4);
    assert_eq!(list.num_chunks(), 2);
    assert_eq!(list.front_view(), b"b");
}

#[test]
fn advance_across_chunks() {
    let mut list = list_of(&[b"ab", b"cde", b"f"]);
    list.advance(3);
    assert_eq!(list.remaining(), 3);
    assert_eq!(list.num_chunks(), 2);
    assert_eq!(list.front_view(), b"de");
    list.advance(3);
    assert_eq!(list.remaining(), 0);
    assert_eq!(list.num_chunks(), 0);
}

#[test]
fn copy_to_bytes_across_chunks_allocates() {
    let mut list = list_of(&[b"ab", b"cde"]);
    let out = list.copy_to_bytes(4);
    assert_eq!(out.as_ref(), b"abcd");
    assert_eq!(list.num_chunks(), 1);
    assert_eq!(list.front_view(), b"e");
    assert_eq!(list.remaining(), 1);
}

#[test]
fn copy_to_bytes_within_front_chunk_shares_storage() {
    let mut list = BufList::new();
    let chunk = list.push_chunk(Bytes::from_static(b"ab"));
    let out = list.copy_to_bytes(1);
    assert_eq!(out.as_ref(), b"a");
    // The fast path returns a shared sub-range of the front chunk: the bytes
    // live at the same address, no copy was made.
    assert_eq!(out.as_ptr(), chunk.as_ptr());
    assert_eq!(list.front_view(), b"b");
    assert_eq!(list.remaining(), 1);
}

#[test]
fn append_then_copy_out_round_trips() {
    let mut list = BufList::new();
    let chunk = list.push_chunk(Bytes::from_static(b"hello"));
    let out = list.copy_to_bytes(5);
    assert_eq!(out.as_ref(), b"hello");
    // One whole chunk came back out without a copy.
    assert_eq!(out.as_ptr(), chunk.as_ptr());
    assert_eq!(list.remaining(), 0);
}

#[test]
fn copy_to_bytes_of_zero_is_empty() {
    let mut list = list_of(&[b"ab"]);
    let out = list.copy_to_bytes(0);
    assert_eq!(out.as_ref(), b"");
    assert_eq!(list.remaining(), 2);
    assert_eq!(list.num_chunks(), 1);
}

#[test]
fn chunks_vectored_fills_slots() {
    let list = list_of(&[b"ab", b"cde", b"f"]);
    let views = list.chunks_vectored(2);
    assert_eq!(views.len(), 2);
    assert_eq!(views[0], b"ab");
    assert_eq!(views[1], b"cde");
    let all = list.chunks_vectored(5);
    assert_eq!(all.len(), 3);
    assert_eq!(all[2], b"f");
    assert_eq!(list.chunks_vectored(0).len(), 0);
}
