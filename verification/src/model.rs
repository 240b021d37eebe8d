//! The abstract model of walking the labels of an encoded DNS name.
//!
//! A walk reads bytes from `remaining`. A byte below 64 starts a label of that
//! many bytes, a zero byte ends the name, and a byte whose two top bits are set
//! starts a two-byte compression pointer: reading goes on at that offset of
//! `original`. The first pointer may point anywhere, every later one must point
//! strictly before the previous one. At most 255 bytes may be read in all.
use vstd::prelude::*;

use crate::error::Error;

verus! {

/// A byte at or above this value starts a compression pointer.
pub const COMPRESSED_MARKER: u8 = 0xc0;

/// The most encoded bytes that may be read for one name (RFC 1035, 2.3.4).
pub const MAX_NAME_LEN: usize = 255;

/// The state of a label walk.
#[verifier::ext_equal]
pub struct LabelState {
    /// The bytes that are read next.
    pub remaining: Seq<u8>,
    /// The whole packet, which pointers are offsets into.
    pub original: Seq<u8>,
    /// The target of the last pointer followed, if any.
    pub last_offset: Option<nat>,
    /// Whether the walk has ended (at the end of the name or on an error).
    pub done: bool,
    /// The number of encoded bytes read so far, pointers included.
    pub read: nat,
    /// The number of bytes read when the first pointer had been read.
    pub orig_len: Option<nat>,
}

/// What one step of a walk yields: a label, the end of the name (`None`), or an error.
pub type Item = Result<Seq<u8>, Error>;

/// The state of a walk that starts on `name` within the packet `original`.
pub open spec fn start_state(name: Seq<u8>, original: Seq<u8>) -> LabelState {
    LabelState {
        remaining: name,
        original,
        last_offset: None,
        done: false,
        read: 0,
        orig_len: None,
    }
}

/// The number of bytes of the starting data that the name occupies: the bytes read
/// up to and including the first pointer, or all bytes read if there was none.
pub open spec fn orig_len_of(st: LabelState) -> nat {
    match st.orig_len {
        Some(n) => n,
        None => st.read,
    }
}

/// Facts that hold of every state a walk reaches.
pub open spec fn state_inv(st: LabelState) -> bool {
    &&& (st.last_offset is None <==> st.orig_len is None)
    &&& (st.orig_len matches Some(n) ==> n <= st.read)
    &&& st.read <= MAX_NAME_LEN
}

/// The offset that the two bytes of a compression pointer encode.
pub open spec fn pointer_target(high: u8, low: u8) -> nat {
    ((high - COMPRESSED_MARKER) * 256 + low) as nat
}

/// Reads one byte, counting it towards the length limit first.
pub open spec fn read_byte_step(st: LabelState) -> (Result<u8, Error>, LabelState) {
    if st.read + 1 > MAX_NAME_LEN {
        (Err(Error::InvalidNameLen), st)
    } else if st.remaining.len() == 0 {
        (Err(Error::UnexpectedEOF), LabelState { read: st.read + 1, ..st })
    } else {
        (
            Ok(st.remaining[0]),
            LabelState { remaining: st.remaining.drop_first(), read: st.read + 1, ..st },
        )
    }
}

/// Reads the next label, following compression pointers on the way.
/// `Ok(None)` is the end of the name.
pub open spec fn read_label_step(st: LabelState) -> (Result<Option<Seq<u8>>, Error>, LabelState)
    decreases 256 - st.read,
{
    let (first, s1) = read_byte_step(st);
    match first {
        Err(e) => (Err(e), s1),
        Ok(byte) => {
            if byte >= COMPRESSED_MARKER {
                let (second, s2) = read_byte_step(s1);
                match second {
                    Err(e) => (Err(e), s2),
                    Ok(low) => {
                        let target = pointer_target(byte, low);
                        if s2.last_offset matches Some(prev) && target >= prev {
                            (Err(Error::BadPointer), s2)
                        } else {
                            let s3 = if s2.last_offset is None {
                                LabelState { orig_len: Some(s2.read), ..s2 }
                            } else {
                                s2
                            };
                            let s4 = LabelState { last_offset: Some(target), ..s3 };
                            if target > s4.original.len() {
                                (Err(Error::UnexpectedEOF), s4)
                            } else {
                                read_label_step(
                                    LabelState { remaining: s4.original.skip(target as int), ..s4 },
                                )
                            }
                        }
                    },
                }
            } else if byte == 0 {
                (Ok(None), s1)
            } else if byte < 64 {
                let len = byte as nat;
                if s1.read + len > MAX_NAME_LEN {
                    (Err(Error::InvalidNameLen), s1)
                } else {
                    let s2 = LabelState { read: s1.read + len, ..s1 };
                    if s2.remaining.len() < len {
                        (Err(Error::UnexpectedEOF), s2)
                    } else {
                        (
                            Ok(Some(s2.remaining.take(len as int))),
                            LabelState { remaining: s2.remaining.skip(len as int), ..s2 },
                        )
                    }
                }
            } else {
                (Err(Error::UnknownLabelFormat), s1)
            }
        },
    }
}

/// One step of the label iterator: `None` once the walk is over; the walk is
/// over after the end of the name or after the first error.
pub open spec fn next_step(st: LabelState) -> (Option<Item>, LabelState) {
    if st.done {
        (None, st)
    } else {
        let (r, s) = read_label_step(st);
        match r {
            Ok(Some(label)) => (Some(Ok(label)), s),
            Ok(None) => (None, LabelState { done: true, ..s }),
            Err(e) => (Some(Err(e)), LabelState { done: true, ..s }),
        }
    }
}

/// Everything the iterator yields from `st` on, and the state it ends in.
pub open spec fn run(st: LabelState) -> (Seq<Item>, LabelState)
    decreases (if st.done { 0int } else { 1int }), 256 - st.read,
{
    let (item, s) = next_step(st);
    match item {
        None => (seq![], s),
        Some(x) => {
            proof {
                lemma_next_step_progress(st);
            }
            let (rest, end) = run(s);
            (seq![x] + rest, end)
        },
    }
}

/// Every item is a label, none an error.
pub open spec fn all_ok(items: Seq<Item>) -> bool {
    forall|i: int| 0 <= i < items.len() ==> #[trigger] items[i] is Ok
}

/// The labels among the items.
pub open spec fn ok_values(items: Seq<Item>) -> Seq<Seq<u8>> {
    items.map_values(|r: Item| match r {
        Ok(l) => l,
        Err(_) => Seq::empty(),
    })
}

/// The error of an item (meaningful for an `Err` item only).
pub open spec fn err_of(item: Item) -> Error {
    match item {
        Err(e) => e,
        Ok(_) => Error::UnexpectedEOF,
    }
}

/// The state with `remaining` cut down to the bytes before position `k` of the
/// starting data, as long as no pointer has been followed.
pub open spec fn trunc(st: LabelState, k: nat) -> LabelState {
    if st.last_offset is None {
        LabelState { remaining: st.remaining.take(k - st.read), ..st }
    } else {
        st
    }
}

/// A step that yields an item either ends the walk or reads more bytes, within the limit.
pub proof fn lemma_next_step_progress(st: LabelState)
    ensures
        ({
            let (item, s) = next_step(st);
            item is Some ==> !st.done && (s.done || st.read < s.read <= MAX_NAME_LEN)
        }),
{
    if !st.done {
        lemma_read_label_facts(st);
    }
}

/// What reading a label changes, and what it keeps.
pub proof fn lemma_read_label_facts(st: LabelState)
    ensures
        ({
            let (r, s) = read_label_step(st);
            &&& s.done == st.done
            &&& s.original == st.original
            &&& st.read <= s.read
            &&& r is Ok ==> st.read < s.read <= MAX_NAME_LEN
            &&& state_inv(st) ==> state_inv(s)
            &&& state_inv(st) && st.orig_len is Some ==> s.orig_len == st.orig_len
            &&& st.orig_len is None ==> st.read <= orig_len_of(s)
        }),
    decreases 256 - st.read,
{
    let (first, s1) = read_byte_step(st);
    if let Ok(byte) = first {
        if byte >= COMPRESSED_MARKER {
            let (second, s2) = read_byte_step(s1);
            if let Ok(low) = second {
                let target = pointer_target(byte, low);
                if !(s2.last_offset matches Some(prev) && target >= prev) {
                    let s3 = if s2.last_offset is None {
                        LabelState { orig_len: Some(s2.read), ..s2 }
                    } else {
                        s2
                    };
                    let s4 = LabelState { last_offset: Some(target), ..s3 };
                    if target <= s4.original.len() {
                        lemma_read_label_facts(
                            LabelState { remaining: s4.original.skip(target as int), ..s4 },
                        );
                    }
                }
            }
        }
    }
}


/// While no pointer has been followed, every byte read was taken from the starting data.
pub proof fn lemma_read_label_span(st: LabelState)
    requires
        state_inv(st),
        st.last_offset is None,
        read_label_step(st).0 is Ok,
    ensures
        ({
            let s = read_label_step(st).1;
            &&& s.last_offset is None ==> s.read + s.remaining.len() == st.read
                + st.remaining.len()
            &&& s.orig_len matches Some(n) ==> n <= st.read + st.remaining.len()
        }),
{
    lemma_read_label_facts(st);
    let (first, s1) = read_byte_step(st);
    if let Ok(byte) = first {
        if byte >= COMPRESSED_MARKER {
            let (second, s2) = read_byte_step(s1);
            if let Ok(low) = second {
                let target = pointer_target(byte, low);
                let s3 = LabelState { orig_len: Some(s2.read), ..s2 };
                let s4 = LabelState { last_offset: Some(target), ..s3 };
                if target <= s4.original.len() {
                    let s5 = LabelState { remaining: s4.original.skip(target as int), ..s4 };
                    lemma_read_label_facts(s5);
                }
            }
        }
    }
}

/// Reading a label from a state whose data is cut after position `k` gives the
/// same label, as long as the walk does not read past `k` before its first pointer.
pub proof fn lemma_read_label_trunc(st: LabelState, k: nat)
    requires
        state_inv(st),
        read_label_step(st).0 is Ok,
        st.last_offset is None ==> st.read <= k <= st.read + st.remaining.len(),
        st.last_offset is None && read_label_step(st).1.last_offset is None
            ==> read_label_step(st).1.read <= k,
        st.last_offset is None && read_label_step(st).1.last_offset is Some
            ==> read_label_step(st).1.orig_len == Some(k),
    ensures
        read_label_step(trunc(st, k)) == (read_label_step(st).0, trunc(read_label_step(st).1, k)),
{
    lemma_read_label_facts(st);
    let (r, s) = read_label_step(st);
    if st.last_offset is Some {
        assert(trunc(st, k) == st);
        assert(trunc(s, k) == s);
    } else {
        let m = (k - st.read) as nat;
        let t = trunc(st, k);
        let (first, s1) = read_byte_step(st);
        let byte = first->Ok_0;
        if byte >= COMPRESSED_MARKER {
            let (second, s2) = read_byte_step(s1);
            let low = second->Ok_0;
            let target = pointer_target(byte, low);
            let s3 = LabelState { orig_len: Some(s2.read), ..s2 };
            let s4 = LabelState { last_offset: Some(target), ..s3 };
            let s5 = LabelState { remaining: s4.original.skip(target as int), ..s4 };
            lemma_read_label_facts(s5);
            assert(k == st.read + 2);
            let t1 = read_byte_step(t).1;
            let t2 = read_byte_step(t1).1;
            assert(read_byte_step(t).0 == first);
            assert(read_byte_step(t1).0 == second);
            let t3 = LabelState { orig_len: Some(t2.read), ..t2 };
            let t4 = LabelState { last_offset: Some(target), ..t3 };
            let t5 = LabelState { remaining: t4.original.skip(target as int), ..t4 };
            assert(t5 =~= s5);
            assert(trunc(s, k) == s);
        } else if byte == 0 {
            let t1 = read_byte_step(t).1;
            assert(read_byte_step(t).0 == first);
            assert(t1.remaining =~= trunc(s1, k).remaining);
            assert(t1 =~= trunc(s1, k));
        } else {
            let len = byte as nat;
            let s2 = LabelState { read: s1.read + len, ..s1 };
            let t1 = read_byte_step(t).1;
            assert(read_byte_step(t).0 == first);
            assert(t1.remaining =~= s1.remaining.take(m - 1));
            let t2 = LabelState { read: t1.read + len, ..t1 };
            assert(t2.remaining.take(len as int) =~= s2.remaining.take(len as int));
            assert(t2.remaining.skip(len as int) =~= trunc(s, k).remaining);
        }
    }
}

/// Facts about a whole walk: the first-pointer length only grows, and is kept
/// once a pointer has been followed.
pub proof fn lemma_run_facts(st: LabelState)
    requires
        state_inv(st),
    ensures
        state_inv(run(st).1),
        run(st).1.done,
        run(st).1.original == st.original,
        st.orig_len is Some ==> run(st).1.orig_len == st.orig_len,
        st.orig_len is None ==> st.read <= orig_len_of(run(st).1),
    decreases (if st.done { 0int } else { 1int }), 256 - st.read,
{
    let (item, s) = next_step(st);
    if !st.done {
        lemma_read_label_facts(st);
    }
    if item is Some {
        lemma_next_step_progress(st);
        lemma_run_facts(s);
    }
}

/// An error can only be the last item of a walk.
pub proof fn lemma_run_err_last(st: LabelState)
    ensures
        forall|i: int| 0 <= i < run(st).0.len() - 1 ==> #[trigger] run(st).0[i] is Ok,
    decreases (if st.done { 0int } else { 1int }), 256 - st.read,
{
    let (item, s) = next_step(st);
    if item is Some {
        lemma_next_step_progress(st);
        lemma_run_err_last(s);
        if item->0 is Err {
            assert(s.done);
            assert(run(s).0.len() == 0);
        }
        assert forall|i: int| 0 <= i < run(st).0.len() - 1 implies #[trigger] run(st).0[i] is Ok by {
            if i > 0 {
                assert(run(st).0[i] == run(s).0[i - 1]);
            }
        }
    }
}

/// While no pointer has been followed, a walk without errors reads at most the
/// starting data.
pub proof fn lemma_run_span(st: LabelState)
    requires
        state_inv(st),
        st.last_offset is None,
        all_ok(run(st).0),
    ensures
        orig_len_of(run(st).1) <= st.read + st.remaining.len(),
    decreases (if st.done { 0int } else { 1int }), 256 - st.read,
{
    let (item, s) = next_step(st);
    if !st.done {
        lemma_read_label_facts(st);
        let r = read_label_step(st).0;
        if r is Err {
            assert(run(st).0[0] is Ok);
        } else {
            lemma_read_label_span(st);
            if item is Some {
                lemma_next_step_progress(st);
                assert forall|i: int| 0 <= i < run(s).0.len() implies #[trigger] run(s).0[i] is Ok by {
                    assert(run(st).0[i + 1] == run(s).0[i]);
                }
                if s.last_offset is None {
                    lemma_run_span(s);
                } else {
                    lemma_run_facts(s);
                }
            }
        }
    }
}

/// A walk without errors over data cut after its first-pointer length `k` yields
/// the same items, and ends in the same state up to the cut.
pub proof fn lemma_run_trunc(st: LabelState, k: nat)
    requires
        state_inv(st),
        all_ok(run(st).0),
        k == orig_len_of(run(st).1),
        st.last_offset is None ==> st.read <= k <= st.read + st.remaining.len(),
    ensures
        run(trunc(st, k)) == (run(st).0, trunc(run(st).1, k)),
    decreases (if st.done { 0int } else { 1int }), 256 - st.read,
{
    let (item, s) = next_step(st);
    if st.done {
        assert(next_step(trunc(st, k)) == (None::<Item>, trunc(st, k)));
    } else {
        lemma_read_label_facts(st);
        let (r, s0) = read_label_step(st);
        if r is Err {
            assert(run(st).0[0] is Ok);
        } else {
            lemma_next_step_progress(st);
            lemma_run_facts(s);
            if st.last_offset is None {
                lemma_read_label_span(st);
            }
            lemma_read_label_trunc(st, k);
            assert(trunc(s, k) == next_step(trunc(st, k)).1);
            if item is Some {
                assert forall|i: int| 0 <= i < run(s).0.len() implies #[trigger] run(s).0[i] is Ok by {
                    assert(run(st).0[i + 1] == run(s).0[i]);
                }
                lemma_run_trunc(s, k);
            }
        }
    }
}


/// If the walk over data cut after position `k` reads a label, the walk over the
/// uncut data reads the same label and stays within the first `k` bytes.
pub proof fn lemma_read_label_extend(st: LabelState, k: nat)
    requires
        state_inv(st),
        st.last_offset is None ==> st.read <= k <= st.read + st.remaining.len(),
        read_label_step(trunc(st, k)).0 is Ok,
    ensures
        read_label_step(trunc(st, k)) == (read_label_step(st).0, trunc(read_label_step(st).1, k)),
        st.last_offset is None && read_label_step(st).1.last_offset is None ==> read_label_step(
            st,
        ).1.read <= k <= read_label_step(st).1.read + read_label_step(st).1.remaining.len(),
{
    lemma_read_label_facts(st);
    let (r, s) = read_label_step(st);
    if st.last_offset is Some {
        assert(trunc(st, k) == st);
        assert(trunc(s, k) == s);
    } else {
        let m = (k - st.read) as nat;
        let t = trunc(st, k);
        let (first_t, t1) = read_byte_step(t);
        let byte = first_t->Ok_0;
        let (first, s1) = read_byte_step(st);
        assert(first == first_t);
        assert(t1 =~= trunc(s1, k));
        if byte >= COMPRESSED_MARKER {
            let (second_t, t2) = read_byte_step(t1);
            let (second, s2) = read_byte_step(s1);
            assert(second == second_t);
            let low = second->Ok_0;
            let target = pointer_target(byte, low);
            let s3 = LabelState { orig_len: Some(s2.read), ..s2 };
            let s4 = LabelState { last_offset: Some(target), ..s3 };
            let s5 = LabelState { remaining: s4.original.skip(target as int), ..s4 };
            let t3 = LabelState { orig_len: Some(t2.read), ..t2 };
            let t4 = LabelState { last_offset: Some(target), ..t3 };
            let t5 = LabelState { remaining: t4.original.skip(target as int), ..t4 };
            assert(t5 =~= s5);
            lemma_read_label_facts(s5);
            assert(trunc(s, k) == s);
        } else if byte == 0 {
            lemma_read_label_span(st);
        } else {
            let len = byte as nat;
            let s2 = LabelState { read: s1.read + len, ..s1 };
            let t2 = LabelState { read: t1.read + len, ..t1 };
            assert(t2.remaining.take(len as int) =~= s2.remaining.take(len as int));
            lemma_read_label_span(st);
            assert(t2.remaining.skip(len as int) =~= trunc(s, k).remaining);
        }
    }
}

/// If the walk over data cut after position `k` meets no error, the walk over the
/// uncut data yields the same items, and ends in the same state up to the cut.
pub proof fn lemma_run_extend(st: LabelState, k: nat)
    requires
        state_inv(st),
        st.last_offset is None ==> st.read <= k <= st.read + st.remaining.len(),
        all_ok(run(trunc(st, k)).0),
    ensures
        run(trunc(st, k)) == (run(st).0, trunc(run(st).1, k)),
    decreases (if st.done { 0int } else { 1int }), 256 - st.read,
{
    let (item, s) = next_step(st);
    let t = trunc(st, k);
    if st.done {
        assert(next_step(t) == (None::<Item>, t));
    } else {
        lemma_read_label_facts(st);
        let (rt, _) = read_label_step(t);
        if rt is Err {
            assert(run(t).0[0] is Ok);
        } else {
            lemma_read_label_extend(st, k);
            lemma_next_step_progress(st);
            assert(trunc(s, k) == next_step(t).1);
            if item is Some {
                assert forall|i: int| 0 <= i < run(trunc(s, k)).0.len() implies #[trigger] run(
                    trunc(s, k),
                ).0[i] is Ok by {
                    assert(run(t).0[i + 1] == run(trunc(s, k)).0[i]);
                }
                lemma_run_extend(s, k);
            }
        }
    }
}

} // verus!
