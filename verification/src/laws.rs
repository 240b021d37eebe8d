//! What holds of every name and every label walk.
use vstd::prelude::*;

use crate::model::{
    all_ok, lemma_next_step_progress, lemma_read_label_facts, lemma_run_err_last,
    lemma_run_extend, lemma_run_facts, lemma_run_span, lemma_run_trunc, next_step, ok_values, orig_len_of,
    pointer_target, read_byte_step, read_label_step, run, start_state, state_inv, trunc, Item,
    LabelState, COMPRESSED_MARKER, MAX_NAME_LEN,
};
use crate::error::Error;
use crate::name::{all_utf8, item_utf8, name_labels, name_wf, scan_spec, NameView};
use vstd::utf8::valid_utf8;

verus! {

/// The length of a name written out without compression: each label with its
/// length byte, then the final zero byte.
pub open spec fn uncompressed_len(labels: Seq<Seq<u8>>) -> nat
    decreases labels.len(),
{
    if labels.len() == 0 {
        1
    } else {
        1 + labels[0].len() + uncompressed_len(labels.drop_first())
    }
}

/// Scanning succeeds exactly when walking the labels of the data meets no error; the
/// name then holds a prefix of the data, satisfies the invariant of every name, and
/// has exactly the labels that the walk over the data found.
pub proof fn law_scan_labels(data: Seq<u8>, original: Seq<u8>)
    ensures
        scan_spec(data, original) is Ok <==> all_ok(run(start_state(data, original)).0),
        scan_spec(data, original) matches Ok(v) ==> {
            &&& v.labels.len() <= data.len()
            &&& v.labels == data.take(v.labels.len() as int)
            &&& v.original == original
            &&& name_wf(v)
            &&& name_labels(v) == ok_values(run(start_state(data, original)).0)
        },
{
    let st = start_state(data, original);
    let (items, end) = run(st);
    lemma_run_err_last(st);
    if items.len() > 0 && items.last() is Err {
        assert(!all_ok(items));
    } else {
        assert forall|i: int| 0 <= i < items.len() implies #[trigger] items[i] is Ok by {
            if i == items.len() - 1 {
                assert(items[i] == items.last());
            }
        }
        lemma_run_span(st);
        let k = orig_len_of(end);
        lemma_run_trunc(st, k);
        assert(trunc(st, k) =~= start_state(data.take(k as int), original));
    }
}

/// Scanning the bytes of a name again, within the same packet, gives the same name.
pub proof fn law_rescan(data: Seq<u8>, original: Seq<u8>)
    requires
        scan_spec(data, original) is Ok,
    ensures
        scan_spec(scan_spec(data, original)->Ok_0.labels, original) == scan_spec(data, original),
{
    law_scan_labels(data, original);
    let v = scan_spec(data, original)->Ok_0;
    let (items, end) = run(start_state(v.labels, original));
    assert(v.labels.take(orig_len_of(end) as int) =~= v.labels);
    if items.len() > 0 {
        assert(items[items.len() - 1] is Ok);
    }
}

/// Once the iterator has yielded the end of the name (`None`) or an error, it
/// yields `None` from then on and stays as it is.
pub proof fn law_iter_fused(st: LabelState)
    requires
        next_step(st).0 matches Some(item) ==> item is Err,
    ensures
        next_step(next_step(st).1) == (None::<Result<Seq<u8>, crate::error::Error>>, next_step(st).1),
{
}

/// Every label of a name has between 1 and 63 bytes, and written out without
/// compression the name takes at most 255 bytes (RFC 1035, 2.3.4).
pub proof fn law_name_size(v: NameView)
    requires
        name_wf(v),
    ensures
        forall|i: int| 0 <= i < name_labels(v).len() ==> 1 <= #[trigger] name_labels(v)[i].len() <= 63,
        uncompressed_len(name_labels(v)) <= MAX_NAME_LEN,
{
    let st = start_state(v.labels, v.original);
    lemma_run_size(st);
    lemma_run_facts(st);
}

/// A label read costs its bytes and its length byte; the end of a name costs its zero byte.
proof fn lemma_read_label_size(st: LabelState)
    ensures
        ({
            let (r, s) = read_label_step(st);
            &&& r matches Ok(Some(l)) ==> s.read >= st.read + 1 + l.len() && 1 <= l.len() <= 63
            &&& r matches Ok(None) ==> s.read >= st.read + 1
        }),
    decreases 256 - st.read,
{
    lemma_read_label_facts(st);
    let (first, s1) = read_byte_step(st);
    if let Ok(byte) = first {
        if byte >= COMPRESSED_MARKER {
            let (second, s2) = read_byte_step(s1);
            if let Ok(low) = second {
                let target = pointer_target(byte, low);
                if !(s2.last_offset matches Some(prev) && target >= prev) {
                    let s3 = if s2.last_offset is None {
                        LabelState { orig_len: Some(s2.read), ..s2 }
                    } else {
                        s2
                    };
                    let s4 = LabelState { last_offset: Some(target), ..s3 };
                    if target <= s4.original.len() {
                        lemma_read_label_size(
                            LabelState { remaining: s4.original.skip(target as int), ..s4 },
                        );
                    }
                }
            }
        }
    }
}

/// A walk without errors reads at least the uncompressed length of its labels,
/// and each label has between 1 and 63 bytes.
proof fn lemma_run_size(st: LabelState)
    requires
        !st.done,
        all_ok(run(st).0),
    ensures
        run(st).1.read >= st.read + uncompressed_len(ok_values(run(st).0)),
        forall|i: int|
            0 <= i < ok_values(run(st).0).len() ==> 1 <= #[trigger] ok_values(run(st).0)[i].len()
                <= 63,
    decreases 256 - st.read,
{
    let (item, s) = next_step(st);
    let (items, end) = run(st);
    lemma_read_label_size(st);
    lemma_read_label_facts(st);
    lemma_next_step_progress(st);
    if item is Some {
        if item->0 is Err {
            assert(items[0] is Ok);
        } else {
            let (r, s0) = read_label_step(st);
            assert(r is Ok && r->Ok_0 is Some);
            assert(s == s0);
            let (rest, _) = run(s);
            assert forall|i: int| 0 <= i < rest.len() implies #[trigger] rest[i] is Ok by {
                assert(items[i + 1] == rest[i]);
            }
            lemma_run_size(s);
            assert(ok_values(items).drop_first() =~= ok_values(rest));
            assert(ok_values(items)[0] == item->0->Ok_0);
            assert forall|i: int| 0 <= i < ok_values(items).len() implies 1 <= #[trigger] ok_values(
                items,
            )[i].len() <= 63 by {
                if i > 0 {
                    assert(ok_values(items)[i] == ok_values(rest)[i - 1]);
                }
            }
        }
    } else {
        assert(ok_values(items) =~= Seq::<Seq<u8>>::empty());
    }
}


/// The number of compression pointers that reading one label follows.
pub open spec fn pointers_followed(st: LabelState) -> nat
    decreases 256 - st.read,
{
    let (first, s1) = read_byte_step(st);
    match first {
        Ok(byte) if byte >= COMPRESSED_MARKER => {
            let (second, s2) = read_byte_step(s1);
            match second {
                Ok(low) => {
                    let target = pointer_target(byte, low);
                    if s2.last_offset matches Some(prev) && target >= prev {
                        0
                    } else {
                        let s3 = if s2.last_offset is None {
                            LabelState { orig_len: Some(s2.read), ..s2 }
                        } else {
                            s2
                        };
                        let s4 = LabelState { last_offset: Some(target), ..s3 };
                        if target > s4.original.len() {
                            0
                        } else {
                            1 + pointers_followed(
                                LabelState { remaining: s4.original.skip(target as int), ..s4 },
                            )
                        }
                    }
                },
                Err(_) => 0,
            }
        },
        _ => 0,
    }
}

/// The state of an iterator after `n` calls of `next`.
pub open spec fn after_steps(st: LabelState, n: nat) -> LabelState
    decreases n,
{
    if n == 0 {
        st
    } else {
        after_steps(next_step(st).1, (n - 1) as nat)
    }
}

/// The bytes that the labels among the items take when written out: each label
/// with its length byte.
pub open spec fn items_len(items: Seq<Item>) -> nat
    decreases items.len(),
{
    if items.len() == 0 {
        0
    } else {
        (match items[0] {
            Ok(l) => 1 + l.len(),
            Err(_) => 0nat,
        }) + items_len(items.drop_first())
    }
}

/// The first-pointer length is set once, when reading the first pointer, to the
/// bytes read up to and including it; afterwards it never changes.
pub proof fn law_first_pointer_len(st: LabelState)
    ensures
        ({
            let s = read_label_step(st).1;
            &&& st.last_offset is Some ==> s.orig_len == st.orig_len && s.last_offset is Some
            &&& st.last_offset is None && s.last_offset is None ==> s.orig_len == st.orig_len
            &&& st.last_offset is None && s.last_offset is Some ==> s.orig_len == Some(
                (st.read + 2) as nat,
            )
        }),
    decreases 256 - st.read,
{
    let (first, s1) = read_byte_step(st);
    if let Ok(byte) = first {
        if byte >= COMPRESSED_MARKER {
            let (second, s2) = read_byte_step(s1);
            if let Ok(low) = second {
                let target = pointer_target(byte, low);
                if !(s2.last_offset matches Some(prev) && target >= prev) {
                    let s3 = if s2.last_offset is None {
                        LabelState { orig_len: Some(s2.read), ..s2 }
                    } else {
                        s2
                    };
                    let s4 = LabelState { last_offset: Some(target), ..s3 };
                    if target <= s4.original.len() {
                        law_first_pointer_len(
                            LabelState { remaining: s4.original.skip(target as int), ..s4 },
                        );
                    }
                }
            }
        }
    }
}

/// Reading one label reads at most the bytes left under the 255-byte limit, two
/// for each pointer followed, so it follows at most 127 pointers.
pub proof fn law_pointers_per_label(st: LabelState)
    requires
        state_inv(st),
    ensures
        st.read + 2 * pointers_followed(st) <= read_label_step(st).1.read <= MAX_NAME_LEN,
        pointers_followed(st) <= 127,
    decreases 256 - st.read,
{
    lemma_read_label_facts(st);
    let (first, s1) = read_byte_step(st);
    if let Ok(byte) = first {
        if byte >= COMPRESSED_MARKER {
            let (second, s2) = read_byte_step(s1);
            if let Ok(low) = second {
                let target = pointer_target(byte, low);
                if !(s2.last_offset matches Some(prev) && target >= prev) {
                    let s3 = if s2.last_offset is None {
                        LabelState { orig_len: Some(s2.read), ..s2 }
                    } else {
                        s2
                    };
                    let s4 = LabelState { last_offset: Some(target), ..s3 };
                    if target <= s4.original.len() {
                        law_pointers_per_label(
                            LabelState { remaining: s4.original.skip(target as int), ..s4 },
                        );
                    }
                }
            }
        }
    }
}

/// Every state an iterator reaches from its start, by any number of calls of
/// `next`, keeps the state facts; in particular it has counted at most 255 bytes.
pub proof fn law_reachable_states(name: Seq<u8>, original: Seq<u8>, n: nat)
    ensures
        state_inv(after_steps(start_state(name, original), n)),
        after_steps(start_state(name, original), n).read <= MAX_NAME_LEN,
{
    lemma_after_steps_inv(start_state(name, original), n);
}

proof fn lemma_after_steps_inv(st: LabelState, n: nat)
    requires
        state_inv(st),
    ensures
        state_inv(after_steps(st, n)),
    decreases n,
{
    if n > 0 {
        if !st.done {
            lemma_read_label_facts(st);
        }
        lemma_after_steps_inv(next_step(st).1, (n - 1) as nat);
    }
}

/// Any walk yields at most 128 items; only the last can be an error; every label
/// has between 1 and 63 bytes; and the labels with their length bytes take at most
/// the bytes left under the 255-byte limit.
pub proof fn law_walk_bounds(st: LabelState)
    requires
        state_inv(st),
    ensures
        ({
            let (items, end) = run(st);
            &&& items.len() <= 128
            &&& forall|i: int| 0 <= i < items.len() - 1 ==> #[trigger] items[i] is Ok
            &&& forall|i: int|
                0 <= i < items.len() ==> (#[trigger] items[i] matches Ok(l) ==> 1 <= l.len() <= 63)
            &&& st.read + items_len(items) <= end.read <= MAX_NAME_LEN
        }),
{
    lemma_run_bounds(st);
    lemma_run_err_last(st);
    lemma_run_facts(st);
}

proof fn lemma_run_bounds(st: LabelState)
    requires
        state_inv(st),
    ensures
        ({
            let (items, end) = run(st);
            &&& st.read + items_len(items) <= end.read
            &&& 2 * items.len() <= end.read - st.read + 2
            &&& forall|i: int|
                0 <= i < items.len() ==> (#[trigger] items[i] matches Ok(l) ==> 1 <= l.len() <= 63)
        }),
    decreases (if st.done { 0int } else { 1int }), 256 - st.read,
{
    let (item, s) = next_step(st);
    let (items, end) = run(st);
    lemma_run_facts(st);
    lemma_read_label_facts(st);
    if item is Some {
        lemma_read_label_size(st);
        lemma_next_step_progress(st);
        let (rest, _) = run(s);
        lemma_run_bounds(s);
        lemma_run_facts(s);
        assert(items.drop_first() =~= rest);
        assert(items[0] == item->0);
        if item->0 is Err {
            assert(s.done);
            assert(rest.len() == 0);
            assert(items_len(rest) == 0);
        }
        assert(items_len(items) == (match items[0] {
            Ok(l) => 1 + l.len(),
            Err(_) => 0nat,
        }) + items_len(rest));
        assert forall|i: int| 0 <= i < items.len() implies (#[trigger] items[i] matches Ok(l)
            ==> 1 <= l.len() <= 63) by {
            if i > 0 {
                assert(items[i] == rest[i - 1]);
            }
        }
    } else {
        assert(items.len() == 0);
        assert(items_len(items) == 0);
    }
}


/// Bytes after the end of a name in the data do not change what scanning gives.
pub proof fn law_scan_extra(data: Seq<u8>, extra: Seq<u8>, original: Seq<u8>)
    requires
        scan_spec(data, original) is Ok,
    ensures
        scan_spec(data + extra, original) == scan_spec(data, original),
{
    law_scan_labels(data, original);
    let st = start_state(data, original);
    let (items, end) = run(st);
    let k = orig_len_of(end);
    lemma_run_span(st);
    lemma_run_trunc(st, k);
    assert(trunc(st, k) =~= start_state(data.take(k as int), original));
    let st2 = start_state(data + extra, original);
    assert(trunc(st2, k) =~= start_state(data.take(k as int), original));
    lemma_run_extend(st2, k);
    let (items2, end2) = run(st2);
    assert(items2 == items);
    assert(orig_len_of(end2) == k);
    assert((data + extra).take(k as int) =~= data.take(k as int));
    if items.len() > 0 {
        assert(items[items.len() - 1] is Ok);
    }
}


/// The uncompressed wire form of a name with these labels: each label after its
/// length byte, then a zero byte.
pub open spec fn encode_name(labels: Seq<Seq<u8>>) -> Seq<u8>
    decreases labels.len(),
{
    if labels.len() == 0 {
        seq![0u8]
    } else {
        seq![labels[0].len() as u8] + labels[0] + encode_name(labels.drop_first())
    }
}

/// Labels that a name may have: each of 1 to 63 bytes, and at most 255 bytes when
/// written out.
pub open spec fn valid_label_seq(labels: Seq<Seq<u8>>) -> bool {
    &&& forall|i: int| 0 <= i < labels.len() ==> 1 <= #[trigger] labels[i].len() <= 63
    &&& encode_name(labels).len() <= MAX_NAME_LEN
}

/// Walking the uncompressed form of labels yields exactly those labels and reads
/// exactly that form.
proof fn lemma_run_encoded(st: LabelState, labels: Seq<Seq<u8>>, extra: Seq<u8>)
    requires
        !st.done,
        st.remaining == encode_name(labels) + extra,
        forall|i: int| 0 <= i < labels.len() ==> 1 <= #[trigger] labels[i].len() <= 63,
        st.read + encode_name(labels).len() <= MAX_NAME_LEN,
    ensures
        run(st).0 == labels.map_values(|l: Seq<u8>| Ok::<Seq<u8>, Error>(l)),
        run(st).1 == (LabelState {
            remaining: extra,
            read: st.read + encode_name(labels).len(),
            done: true,
            ..st
        }),
    decreases labels.len(),
{
    let enc = encode_name(labels);
    if labels.len() == 0 {
        assert(st.remaining[0] == 0);
        assert(st.remaining.drop_first() =~= extra);
        assert(labels.map_values(|l: Seq<u8>| Ok::<Seq<u8>, Error>(l)) =~= Seq::<Item>::empty());
    } else {
        let l = labels[0];
        let rest = labels.drop_first();
        let len = l.len();
        assert(len as u8 == len);
        assert(st.remaining[0] == len as u8);
        let s1 = LabelState { remaining: st.remaining.drop_first(), read: st.read + 1, ..st };
        assert(s1.remaining =~= l + (encode_name(rest) + extra));
        assert(s1.remaining.take(len as int) =~= l);
        let s = LabelState {
            remaining: s1.remaining.skip(len as int),
            read: s1.read + len,
            ..s1
        };
        assert(s.remaining =~= encode_name(rest) + extra);
        assert(read_label_step(st) == (Ok::<Option<Seq<u8>>, Error>(Some(l)), s));
        assert forall|i: int| 0 <= i < rest.len() implies 1 <= #[trigger] rest[i].len() <= 63 by {
            assert(rest[i] == labels[i + 1]);
        }
        lemma_run_encoded(s, rest, extra);
        assert(labels.map_values(|l: Seq<u8>| Ok::<Seq<u8>, Error>(l)) =~= seq![
            Ok::<Seq<u8>, Error>(l),
        ] + rest.map_values(|l: Seq<u8>| Ok::<Seq<u8>, Error>(l)));
        assert(run(s).1 =~= (LabelState {
            remaining: extra,
            read: st.read + enc.len(),
            done: true,
            ..st
        }));
    }
}

/// The labels of items that are all labels.
proof fn lemma_ok_items(labels: Seq<Seq<u8>>)
    ensures
        ok_values(labels.map_values(|l: Seq<u8>| Ok::<Seq<u8>, Error>(l))) == labels,
        all_ok(labels.map_values(|l: Seq<u8>| Ok::<Seq<u8>, Error>(l))),
        all_utf8(labels.map_values(|l: Seq<u8>| Ok::<Seq<u8>, Error>(l))) <==> forall|i: int|
            0 <= i < labels.len() ==> valid_utf8(#[trigger] labels[i]),
{
    let items = labels.map_values(|l: Seq<u8>| Ok::<Seq<u8>, Error>(l));
    assert(ok_values(items) =~= labels);
    if all_utf8(items) {
        assert forall|i: int| 0 <= i < labels.len() implies valid_utf8(#[trigger] labels[i]) by {
            assert(item_utf8(items[i]));
        }
    }
    if forall|i: int| 0 <= i < labels.len() ==> valid_utf8(#[trigger] labels[i]) {
        assert forall|i: int| 0 <= i < items.len() implies #[trigger] item_utf8(items[i]) by {
            assert(valid_utf8(labels[i]));
        }
    }
}

/// Scanning the uncompressed form of a name, whatever follows it, succeeds: the name
/// occupies exactly that form, its labels are exactly the labels written, and it is
/// UTF-8 exactly when each of them is.
pub proof fn law_scan_uncompressed(labels: Seq<Seq<u8>>, extra: Seq<u8>, original: Seq<u8>)
    requires
        valid_label_seq(labels),
    ensures
        scan_spec(encode_name(labels) + extra, original) is Ok,
        ({
            let v = scan_spec(encode_name(labels) + extra, original)->Ok_0;
            &&& v.labels == encode_name(labels)
            &&& v.original == original
            &&& name_labels(v) == labels
            &&& (v.all_labels_utf8 <==> forall|i: int|
                0 <= i < labels.len() ==> valid_utf8(#[trigger] labels[i]))
        }),
{
    let enc = encode_name(labels);
    let data = enc + extra;
    lemma_run_encoded(start_state(data, original), labels, extra);
    lemma_ok_items(labels);
    let items = labels.map_values(|l: Seq<u8>| Ok::<Seq<u8>, Error>(l));
    if items.len() > 0 {
        assert(items[items.len() - 1] is Ok);
    }
    assert(data.take(enc.len() as int) =~= enc);
    assert(enc =~= enc + Seq::<u8>::empty());
    lemma_run_encoded(start_state(enc, original), labels, Seq::empty());
}

/// A name that is one compression pointer `(high, low)` scans to the name written
/// uncompressed at offset `(high - 0xC0) * 256 + low` of the packet: the name
/// occupies the two pointer bytes, and its labels are those written there.
pub proof fn law_scan_pointer(high: u8, low: u8, labels: Seq<Seq<u8>>, original: Seq<u8>)
    requires
        high >= 0xC0,
        valid_label_seq(labels),
        encode_name(labels).len() + 2 <= MAX_NAME_LEN,
        (high - 0xC0) * 256 + low + encode_name(labels).len() <= original.len(),
        original.subrange(
            (high - 0xC0) * 256 + low,
            (high - 0xC0) * 256 + low + encode_name(labels).len(),
        ) == encode_name(labels),
    ensures
        scan_spec(seq![high, low], original) is Ok,
        ({
            let v = scan_spec(seq![high, low], original)->Ok_0;
            &&& v.labels == seq![high, low]
            &&& v.original == original
            &&& name_labels(v) == labels
            &&& (v.all_labels_utf8 <==> forall|i: int|
                0 <= i < labels.len() ==> valid_utf8(#[trigger] labels[i]))
        }),
{
    let t = (high - 0xC0) * 256 + low;
    let enc = encode_name(labels);
    let data = seq![high, low];
    let st = start_state(data, original);
    let s5 = LabelState {
        remaining: original.skip(t),
        original,
        last_offset: Some(t as nat),
        done: false,
        read: 2,
        orig_len: Some(2),
    };
    let rest = original.skip(t + enc.len());
    assert(s5.remaining =~= enc + rest);
    assert(read_byte_step(st).1.remaining =~= seq![low]);
    assert(read_label_step(st) == read_label_step(s5));
    assert(next_step(st) == next_step(s5));
    assert(run(st) == run(s5));
    lemma_run_encoded(s5, labels, rest);
    lemma_ok_items(labels);
    let items = labels.map_values(|l: Seq<u8>| Ok::<Seq<u8>, Error>(l));
    if items.len() > 0 {
        assert(items[items.len() - 1] is Ok);
    }
    assert(data.take(2) =~= data);
}


/// A walk whose first step ends in an error yields just that error, and scanning
/// then fails with it.
proof fn lemma_first_step_error(data: Seq<u8>, original: Seq<u8>, e: Error)
    requires
        read_label_step(start_state(data, original)).0 == Err::<Option<Seq<u8>>, Error>(e),
    ensures
        scan_spec(data, original) == Err::<NameView, Error>(e),
{
    let st = start_state(data, original);
    let s = next_step(st).1;
    assert(s.done);
    assert(run(s).0.len() == 0);
    assert(run(st).0 =~= seq![Err::<Seq<u8>, Error>(e)]);
}

/// Data that ends before a name starts is an unexpected end.
pub proof fn law_scan_empty(original: Seq<u8>)
    ensures
        scan_spec(Seq::empty(), original) == Err::<NameView, Error>(Error::UnexpectedEOF),
{
    lemma_first_step_error(Seq::empty(), original, Error::UnexpectedEOF);
}

/// A label starting with a byte whose two top bits are `01` or `10` is of unknown format.
pub proof fn law_scan_unknown_label_type(b: u8, extra: Seq<u8>, original: Seq<u8>)
    requires
        0x40 <= b < 0xC0,
    ensures
        scan_spec(seq![b] + extra, original) == Err::<NameView, Error>(Error::UnknownLabelFormat),
{
    let data = seq![b] + extra;
    assert(data[0] == b);
    lemma_first_step_error(data, original, Error::UnknownLabelFormat);
}

/// A label longer than the bytes that follow its length byte is an unexpected end.
pub proof fn law_scan_short_label(len: u8, bytes: Seq<u8>, original: Seq<u8>)
    requires
        1 <= len < 64,
        bytes.len() < len,
    ensures
        scan_spec(seq![len] + bytes, original) == Err::<NameView, Error>(Error::UnexpectedEOF),
{
    let data = seq![len] + bytes;
    assert(data[0] == len);
    assert(data.drop_first() =~= bytes);
    lemma_first_step_error(data, original, Error::UnexpectedEOF);
}

/// A pointer to the end of the packet or beyond is an unexpected end.
pub proof fn law_scan_pointer_past_end(high: u8, low: u8, original: Seq<u8>)
    requires
        high >= 0xC0,
        (high - 0xC0) * 256 + low >= original.len(),
    ensures
        scan_spec(seq![high, low], original) == Err::<NameView, Error>(Error::UnexpectedEOF),
{
    let t = (high - 0xC0) * 256 + low;
    let st = start_state(seq![high, low], original);
    assert(read_byte_step(st).1.remaining =~= seq![low]);
    if t == original.len() {
        let s5 = LabelState {
            remaining: original.skip(t),
            original,
            last_offset: Some(t as nat),
            done: false,
            read: 2,
            orig_len: Some(2),
        };
        assert(s5.remaining.len() == 0);
        assert(read_label_step(st) == read_label_step(s5));
    }
    lemma_first_step_error(seq![high, low], original, Error::UnexpectedEOF);
}

/// After a first pointer, a pointer that does not point strictly before the
/// previous target is a bad pointer, so no walk can loop.
pub proof fn law_scan_pointer_not_backward(high: u8, low: u8, original: Seq<u8>)
    requires
        high >= 0xC0,
        (high - 0xC0) * 256 + low + 2 <= original.len(),
        original[(high - 0xC0) * 256 + low] >= 0xC0,
        (original[(high - 0xC0) * 256 + low] - 0xC0) * 256 + original[(high - 0xC0) * 256 + low
            + 1] >= (high - 0xC0) * 256 + low,
    ensures
        scan_spec(seq![high, low], original) == Err::<NameView, Error>(Error::BadPointer),
{
    let t = (high - 0xC0) * 256 + low;
    let st = start_state(seq![high, low], original);
    assert(read_byte_step(st).1.remaining =~= seq![low]);
    let s5 = LabelState {
        remaining: original.skip(t),
        original,
        last_offset: Some(t as nat),
        done: false,
        read: 2,
        orig_len: Some(2),
    };
    assert(read_label_step(st) == read_label_step(s5));
    assert(s5.remaining[0] == original[t]);
    assert(read_byte_step(s5).1.remaining[0] == original[t + 1]);
    lemma_first_step_error(seq![high, low], original, Error::BadPointer);
}

/// Walking the uncompressed form of labels that takes more bytes than the limit
/// allows ends in a name-length error.
proof fn lemma_run_encoded_too_long(st: LabelState, labels: Seq<Seq<u8>>, extra: Seq<u8>)
    requires
        !st.done,
        st.remaining == encode_name(labels) + extra,
        forall|i: int| 0 <= i < labels.len() ==> 1 <= #[trigger] labels[i].len() <= 63,
        st.read + encode_name(labels).len() > MAX_NAME_LEN,
    ensures
        run(st).0.len() > 0,
        run(st).0.last() == Err::<Seq<u8>, Error>(Error::InvalidNameLen),
    decreases labels.len(),
{
    let (item, s) = next_step(st);
    if labels.len() == 0 {
        assert(st.remaining[0] == 0);
        assert(run(s).0.len() == 0);
        assert(run(st).0 =~= seq![Err::<Seq<u8>, Error>(Error::InvalidNameLen)]);
    } else {
        let l = labels[0];
        let rest = labels.drop_first();
        let len = l.len();
        assert(len as u8 == len);
        assert(st.remaining[0] == len as u8);
        if st.read + 1 + len > MAX_NAME_LEN {
            assert(run(s).0.len() == 0);
            assert(run(st).0 =~= seq![Err::<Seq<u8>, Error>(Error::InvalidNameLen)]);
        } else {
            let s1 = LabelState { remaining: st.remaining.drop_first(), read: st.read + 1, ..st };
            assert(s1.remaining =~= l + (encode_name(rest) + extra));
            assert(s1.remaining.take(len as int) =~= l);
            let s2 = LabelState {
                remaining: s1.remaining.skip(len as int),
                read: s1.read + len,
                ..s1
            };
            assert(s2.remaining =~= encode_name(rest) + extra);
            assert(read_label_step(st) == (Ok::<Option<Seq<u8>>, Error>(Some(l)), s2));
            assert forall|i: int| 0 <= i < rest.len() implies 1 <= #[trigger] rest[i].len()
                <= 63 by {
                assert(rest[i] == labels[i + 1]);
            }
            lemma_run_encoded_too_long(s2, rest, extra);
            assert(run(st).0 == seq![Ok::<Seq<u8>, Error>(l)] + run(s2).0);
        }
    }
}

/// Labels of 1 to 63 bytes that take more than 255 bytes written out do not make a
/// name: scanning them fails with a name-length error.
pub proof fn law_scan_too_long(labels: Seq<Seq<u8>>, extra: Seq<u8>, original: Seq<u8>)
    requires
        forall|i: int| 0 <= i < labels.len() ==> 1 <= #[trigger] labels[i].len() <= 63,
        encode_name(labels).len() > MAX_NAME_LEN,
    ensures
        scan_spec(encode_name(labels) + extra, original) == Err::<NameView, Error>(
            Error::InvalidNameLen,
        ),
{
    lemma_run_encoded_too_long(
        start_state(encode_name(labels) + extra, original),
        labels,
        extra,
    );
}

} // verus!
