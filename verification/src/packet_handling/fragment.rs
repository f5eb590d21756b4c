//! Cutting an encoded message into fragments and putting it together again.
use crate::packet::{Fragment, FRAGMENT_DSIZE};
use vstd::prelude::*;

verus! {

/// Number of fragments of a message of `len` bytes.
pub open spec fn fragment_count(len: nat) -> nat {
    (len + FRAGMENT_DSIZE - 1) as nat / FRAGMENT_DSIZE as nat
}

/// Where the `i`-th piece of a message of `len` bytes starts, or `len` behind the last.
pub open spec fn piece_start(len: nat, i: int) -> int {
    if FRAGMENT_DSIZE * i < len {
        FRAGMENT_DSIZE * i
    } else {
        len as int
    }
}

/// The `i`-th piece of `message`: full, unless it is the last.
pub open spec fn piece(message: Seq<u8>, i: int) -> Seq<u8> {
    message.subrange(piece_start(message.len(), i), piece_start(message.len(), i + 1))
}

/// Whether `frag` carries the `i`-th piece of `message`, filled up with zeros.
pub open spec fn carries_piece(frag: Fragment, message: Seq<u8>, i: int) -> bool {
    &&& frag.fragment_index == i
    &&& frag.total_n_fragments == fragment_count(message.len())
    &&& frag.length == piece(message, i).len()
    &&& frag.data@ == piece(message, i) + Seq::new(
        (FRAGMENT_DSIZE - piece(message, i).len()) as nat,
        |k: int| 0u8,
    )
}

/// Whether `frags` are the fragments of `message`, in order.
pub open spec fn is_fragmentation(frags: Seq<Fragment>, message: Seq<u8>) -> bool {
    &&& frags.len() == fragment_count(message.len())
    &&& forall|i: int| 0 <= i < frags.len() ==> carries_piece(#[trigger] frags[i], message, i)
}

/// The fragments of `message`, in order.
pub open spec fn fragments_of(message: Seq<u8>) -> Seq<Fragment> {
    choose|frags: Seq<Fragment>| is_fragmentation(frags, message)
}

/// Whether the length of a fragment stays within its data.
pub open spec fn length_fits(frag: Fragment) -> bool {
    frag.length <= FRAGMENT_DSIZE
}

/// Whether the length of every fragment stays within its data.
pub open spec fn lengths_fit(frags: Seq<Fragment>) -> bool {
    forall|i: int| 0 <= i < frags.len() ==> #[trigger] length_fits(frags[i])
}

/// The bytes that a fragment is meant to carry.
pub open spec fn payload(frag: Fragment) -> Seq<u8> {
    frag.data@.take(frag.length as int)
}

/// The payloads of `frags`, one behind the other.
pub open spec fn joined(frags: Seq<Fragment>) -> Seq<u8>
    decreases frags.len(),
{
    if frags.len() == 0 {
        Seq::empty()
    } else {
        joined(frags.drop_last()) + payload(frags.last())
    }
}

/// Cuts an encoded message into fragments.
#[must_use]
pub fn fragment(message: &[u8]) -> (frags: Vec<Fragment>)
    ensures
        is_fragmentation(frags@, message@),
        frags@ == fragments_of(message@),
{
    let len: usize = message.len();
    let full: usize = len / FRAGMENT_DSIZE;
    let total: usize = if len % FRAGMENT_DSIZE > 0 {
        full + 1
    } else {
        full
    };
    let mut frags: Vec<Fragment> = Vec::new();
    for i in 0..total
        invariant
            len == message@.len(),
            total == fragment_count(len as nat),
            frags@.len() == i,
            forall|j: int| 0 <= j < i ==> carries_piece(#[trigger] frags@[j], message@, j),
    {
        let start: usize = i * FRAGMENT_DSIZE;
        let size: usize = if len - start < FRAGMENT_DSIZE {
            len - start
        } else {
            FRAGMENT_DSIZE
        };
        let mut data: [u8; FRAGMENT_DSIZE] = [0u8; FRAGMENT_DSIZE];
        for k in 0..size
            invariant
                len == message@.len(),
                size <= FRAGMENT_DSIZE,
                start + size <= len,
                data@.len() == FRAGMENT_DSIZE,
                forall|j: int| 0 <= j < k ==> #[trigger] data@[j] == message@[start + j],
                forall|j: int| k <= j < FRAGMENT_DSIZE ==> #[trigger] data@[j] == 0,
        {
            data[k] = message[start + k];
        }
        let frag = Fragment {
            fragment_index: i as u64,
            total_n_fragments: total as u64,
            length: size as u8,
            data,
        };
        assert(carries_piece(frag, message@, i as int)) by {
            assert(piece_start(len as nat, i as int) == start);
            assert(piece_start(len as nat, i + 1) == start + size);
            assert(data@ =~= piece(message@, i as int) + Seq::new(
                (FRAGMENT_DSIZE - piece(message@, i as int).len()) as nat,
                |k: int| 0u8,
            ));
        }
        frags.push(frag);
    }
    proof {
        assert(is_fragmentation(frags@, message@));
        law_fragmentation_unique(frags@, fragments_of(message@), message@);
    }
    frags
}

/// Puts the payloads of `fragments` together, in the order of the vector.
pub fn defragment(fragments: &Vec<Fragment>) -> (message: Vec<u8>)
    requires
        lengths_fit(fragments@),
    ensures
        message@ == joined(fragments@),
{
    let mut message: Vec<u8> = Vec::new();
    for i in 0..fragments.len()
        invariant
            lengths_fit(fragments@),
            message@ == joined(fragments@.take(i as int)),
    {
        let ghost before = message@;
        let size: usize = fragments[i].length as usize;
        assert(length_fits(fragments@[i as int]));
        for k in 0..size
            invariant
                i < fragments@.len(),
                size == fragments@[i as int].length,
                size <= FRAGMENT_DSIZE,
                message@ == before + payload(fragments@[i as int]).take(k as int),
        {
            message.push(fragments[i].data[k]);
            assert(payload(fragments@[i as int]).take(k + 1) == payload(
                fragments@[i as int],
            ).take(k as int).push(fragments@[i as int].data@[k as int]));
        }
        assert(payload(fragments@[i as int]).take(size as int) == payload(fragments@[i as int]));
        assert(fragments@.take(i + 1).drop_last() == fragments@.take(i as int));
    }
    assert(fragments@.take(fragments@.len() as int) == fragments@);
    message
}

/// The first `k` fragments of a message hold its first `k` pieces.
proof fn lemma_joined_prefix(frags: Seq<Fragment>, message: Seq<u8>, k: int)
    requires
        is_fragmentation(frags, message),
        0 <= k <= frags.len(),
    ensures
        joined(frags.take(k)) == message.take(piece_start(message.len(), k)),
    decreases k,
{
    if k == 0 {
        assert(message.take(0) == Seq::<u8>::empty());
    } else {
        lemma_joined_prefix(frags, message, k - 1);
        assert(frags.take(k).drop_last() == frags.take(k - 1));
        let frag = frags[k - 1];
        assert(carries_piece(frag, message, k - 1));
        assert(payload(frag) == piece(message, k - 1));
        assert(message.take(piece_start(message.len(), k)) == message.take(
            piece_start(message.len(), k - 1),
        ) + piece(message, k - 1));
    }
}

/// Joining the fragments of a message gives the message back.
pub proof fn law_defragment_undoes_fragment(frags: Seq<Fragment>, message: Seq<u8>)
    requires
        is_fragmentation(frags, message),
    ensures
        lengths_fit(frags),
        joined(frags) == message,
{
    let n = frags.len() as int;
    lemma_joined_prefix(frags, message, n);
    assert(frags.take(n) == frags);
    assert(message.take(message.len() as int) == message);
    assert forall|i: int| 0 <= i < n implies #[trigger] length_fits(frags[i]) by {
        assert(carries_piece(frags[i], message, i));
    }
}

/// A message has one fragmentation.
pub proof fn law_fragmentation_unique(
    first: Seq<Fragment>,
    second: Seq<Fragment>,
    message: Seq<u8>,
)
    requires
        is_fragmentation(first, message),
        is_fragmentation(second, message),
    ensures
        first == second,
{
    assert forall|i: int| 0 <= i < first.len() implies first[i] == second[i] by {
        assert(carries_piece(first[i], message, i));
        assert(carries_piece(second[i], message, i));
        let a = first[i].data;
        let b = second[i].data;
        assert forall|k: int| 0 <= k < FRAGMENT_DSIZE implies a[k] == b[k] by {
            assert(a@[k] == b@[k]);
        }
        assert(a =~= b);
    }
    assert(first =~= second);
}

/// An array that starts with the first `n` bytes of `bytes` and is zero behind them.
spec fn array_of(bytes: Seq<u8>, n: nat) -> [u8; FRAGMENT_DSIZE]
    decreases n,
{
    if n == 0 {
        vstd::array::spec_array_fill_for_copy_type::<u8, FRAGMENT_DSIZE>(0)
    } else {
        vstd::array::spec_array_update(array_of(bytes, (n - 1) as nat), n - 1, bytes[n - 1])
    }
}

/// What an array built from bytes holds.
proof fn lemma_array_of(bytes: Seq<u8>, n: nat)
    requires
        n <= bytes.len(),
        n <= FRAGMENT_DSIZE,
    ensures
        array_of(bytes, n)@ == bytes.take(n as int) + Seq::new(
            (FRAGMENT_DSIZE - n) as nat,
            |k: int| 0u8,
        ),
    decreases n,
{
    if n > 0 {
        lemma_array_of(bytes, (n - 1) as nat);
    }
}

/// Every message has a fragmentation.
pub proof fn law_fragmentation_exists(message: Seq<u8>)
    requires
        message.len() <= u64::MAX,
    ensures
        is_fragmentation(fragments_of(message), message),
{
    let n = fragment_count(message.len());
    let frags = Seq::new(
        n,
        |i: int|
            Fragment {
                fragment_index: i as u64,
                total_n_fragments: n as u64,
                length: piece(message, i).len() as u8,
                data: array_of(piece(message, i), piece(message, i).len()),
            },
    );
    assert forall|i: int| 0 <= i < n implies carries_piece(#[trigger] frags[i], message, i) by {
        let bytes = piece(message, i);
        lemma_array_of(bytes, bytes.len());
        assert(bytes.take(bytes.len() as int) == bytes);
    }
    assert(is_fragmentation(frags, message));
}

/// Every fragment but the last is full, the last holds the rest and is not
/// empty, each knows its place and their number, and the bytes of the message
/// lie in them one behind the other, with zeros behind the last.
pub proof fn law_fragment_layout(frags: Seq<Fragment>, message: Seq<u8>)
    requires
        is_fragmentation(frags, message),
    ensures
        FRAGMENT_DSIZE == 128,
        128 * (frags.len() - 1) < message.len() <= 128 * frags.len(),
        forall|i: int|
            0 <= i < frags.len() ==> {
                let frag = #[trigger] frags[i];
                &&& frag.fragment_index == i
                &&& frag.total_n_fragments == frags.len()
                &&& i < frags.len() - 1 ==> frag.length == 128
                &&& i == frags.len() - 1 ==> frag.length == message.len() - 128 * i
            },
        forall|i: int, k: int|
            0 <= i < frags.len() && 0 <= k < 128 ==> #[trigger] frags[i].data@[k] == (if k
                < frags[i].length {
                message[128 * i + k]
            } else {
                0
            }),
{
    let n = frags.len() as int;
    assert forall|i: int| 0 <= i < n implies {
        let frag = #[trigger] frags[i];
        &&& frag.fragment_index == i
        &&& frag.total_n_fragments == frags.len()
        &&& i < frags.len() - 1 ==> frag.length == 128
        &&& i == frags.len() - 1 ==> frag.length == message.len() - 128 * i
    } by {
        assert(carries_piece(frags[i], message, i));
    }
    assert forall|i: int, k: int| 0 <= i < n && 0 <= k < 128 implies #[trigger] frags[i].data@[k]
        == (if k < frags[i].length {
        message[128 * i + k]
    } else {
        0
    }) by {
        assert(carries_piece(frags[i], message, i));
    }
}

/// What is put together of two runs of fragments is what is put together of
/// the first, then of the second; one fragment gives its first `length` bytes,
/// none gives nothing.
pub proof fn law_joined_runs(first: Seq<Fragment>, second: Seq<Fragment>, frag: Fragment)
    ensures
        joined(Seq::empty()) == Seq::<u8>::empty(),
        joined(seq![frag]) == frag.data@.subrange(0, frag.length as int),
        joined(first + second) == joined(first) + joined(second),
    decreases second.len(),
{
    assert(joined(seq![frag]) == frag.data@.subrange(0, frag.length as int)) by {
        assert(seq![frag].drop_last() == Seq::<Fragment>::empty());
        assert(joined(Seq::<Fragment>::empty()) == Seq::<u8>::empty());
        assert(joined(seq![frag]) == joined(seq![frag].drop_last()) + payload(frag));
        assert(payload(frag) == frag.data@.subrange(0, frag.length as int));
    }
    if second.len() == 0 {
        assert(first + second == first);
    } else {
        law_joined_runs(first, second.drop_last(), frag);
        assert((first + second).drop_last() == first + second.drop_last());
        assert((first + second).last() == second.last());
    }
}

/// Fragments can be put together unless one claims more bytes than it has.
pub proof fn law_lengths_fit(frags: Seq<Fragment>)
    ensures
        lengths_fit(frags) <==> forall|i: int|
            0 <= i < frags.len() ==> (#[trigger] frags[i]).length <= 128,
{
    if lengths_fit(frags) {
        assert forall|i: int| 0 <= i < frags.len() implies (#[trigger] frags[i]).length <= 128 by {
            assert(length_fits(frags[i]));
        }
    }
}

} // verus!
