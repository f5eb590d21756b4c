use chat_common::packet::{Fragment, FRAGMENT_DSIZE, FRAGMENT_FOOTPRINT};
use chat_common::packet_handling::fragment::{defragment, fragment};
use chat_common::packet_handling::limits::check_lengths;

fn bytes(n: usize) -> Vec<u8> {
    (0..n).map(|i| (i % 251) as u8 + 1).collect()
}

#[test]
fn empty_message_has_no_fragments() {
    assert!(fragment(&[]).is_empty());
    assert_eq!(defragment(&Vec::new()), Vec::<u8>::new());
}

#[test]
fn short_message_is_filled_up_with_zeros() {
    let frags = fragment(&[1, 2, 3]);
    assert_eq!(frags.len(), 1);
    assert_eq!(frags[0].fragment_index, 0);
    assert_eq!(frags[0].total_n_fragments, 1);
    assert_eq!(frags[0].length, 3);
    assert_eq!(&frags[0].data[..3], &[1, 2, 3]);
    assert!(frags[0].data[3..].iter().all(|b| *b == 0));
}

#[test]
fn full_and_rest() {
    let message = bytes(300);
    let frags = fragment(&message);
    assert_eq!(frags.len(), 3);
    let lengths: Vec<u8> = frags.iter().map(|f| f.length).collect();
    assert_eq!(lengths, vec![128, 128, 44]);
    let indices: Vec<u64> = frags.iter().map(|f| f.fragment_index).collect();
    assert_eq!(indices, vec![0, 1, 2]);
    assert!(frags.iter().all(|f| f.total_n_fragments == 3));
    assert_eq!(&frags[1].data[..], &message[128..256]);
    assert_eq!(&frags[2].data[..44], &message[256..]);
}

#[test]
fn defragment_undoes_fragment() {
    for n in [0, 1, 127, 128, 129, 255, 256, 257, 1000] {
        let message = bytes(n);
        let frags = fragment(&message);
        assert_eq!(frags.len(), n.div_ceil(FRAGMENT_DSIZE));
        assert_eq!(defragment(&frags), message);
    }
}

#[test]
fn one_message_one_fragmentation() {
    assert_eq!(fragment(&bytes(200)), fragment(&bytes(200)));
    assert_ne!(fragment(&bytes(200)), fragment(&bytes(201)));
}

#[test]
fn defragment_goes_by_the_order_of_the_vector() {
    let mut frags = fragment(&bytes(130));
    frags.swap(0, 1);
    let message = bytes(130);
    let mut swapped = message[128..].to_vec();
    swapped.extend_from_slice(&message[..128]);
    assert_eq!(defragment(&frags), swapped);
}

#[test]
fn lengths_are_checked() {
    let mut frag = fragment(&[7])[0];
    frag.length = 128;
    assert!(check_lengths(&vec![frag]));
    frag.length = 129;
    assert!(!check_lengths(&vec![frag]));
}

#[test]
fn footprint_is_the_size_of_a_fragment() {
    assert_eq!(std::mem::size_of::<Fragment>() as u64, FRAGMENT_FOOTPRINT);
}
