//! DNS names as stored in a packet.
use vstd::prelude::*;
use vstd::slice::slice_subrange;
use vstd::utf8::{decode_utf8, encode_utf8, valid_utf8};

use crate::error::Error;
use crate::label_iter::LabelIter;
use crate::model::{
    all_ok, err_of, lemma_next_step_progress, lemma_run_span, lemma_run_trunc, ok_values,
    orig_len_of, run, start_state, trunc, Item,
};
use crate::text::{
    debug_label, debug_labels, hex_encode, join_bytes, join_dot, label_texts, law_text_form,
    lemma_utf8_text, utf8_text,
};

verus! {

/// What a [`Name`] holds, as plain values.
pub struct NameView {
    /// The bytes of the name in the data it was read from, up to and including the
    /// first pointer.
    pub labels: Seq<u8>,
    /// The whole packet, which pointers are offsets into.
    pub original: Seq<u8>,
    /// Whether every label is UTF-8.
    pub all_labels_utf8: bool,
}

/// The item is not a label that fails to be UTF-8.
pub open spec fn item_utf8(item: Item) -> bool {
    item matches Ok(l) ==> valid_utf8(l)
}

/// Every label of the items is UTF-8.
pub open spec fn all_utf8(items: Seq<Item>) -> bool {
    forall|i: int| 0 <= i < items.len() ==> #[trigger] item_utf8(items[i])
}

proof fn lemma_all_utf8_push(items: Seq<Item>, item: Item)
    ensures
        all_utf8(items.push(item)) == (all_utf8(items) && item_utf8(item)),
{
    let pushed = items.push(item);
    assert(pushed[items.len() as int] == item);
    if all_utf8(pushed) {
        assert forall|i: int| 0 <= i < items.len() implies #[trigger] item_utf8(items[i]) by {
            assert(pushed[i] == items[i]);
            assert(item_utf8(pushed[i]));
        }
        assert(item_utf8(pushed[items.len() as int]));
    }
}

/// The items of the walk over a name's bytes.
pub open spec fn name_items(v: NameView) -> Seq<Item> {
    run(start_state(v.labels, v.original)).0
}

/// The labels of a name.
pub open spec fn name_labels(v: NameView) -> Seq<Seq<u8>> {
    ok_values(name_items(v))
}

/// What every [`Name`] satisfies: walking its bytes meets no error and reads all of
/// them before the first pointer, and the UTF-8 flag tells whether all labels are UTF-8.
pub open spec fn name_wf(v: NameView) -> bool {
    let (items, end) = run(start_state(v.labels, v.original));
    &&& all_ok(items)
    &&& orig_len_of(end) == v.labels.len()
    &&& v.all_labels_utf8 == all_utf8(items)
}

/// In a name, the UTF-8 flag is set exactly when every label is UTF-8.
pub proof fn lemma_utf8_flag(v: NameView)
    requires
        name_wf(v),
    ensures
        v.all_labels_utf8 <==> forall|i: int|
            0 <= i < name_labels(v).len() ==> valid_utf8(#[trigger] name_labels(v)[i]),
{
    let items = name_items(v);
    if v.all_labels_utf8 {
        assert forall|i: int| 0 <= i < name_labels(v).len() implies valid_utf8(
            #[trigger] name_labels(v)[i],
        ) by {
            assert(item_utf8(items[i]));
            assert(items[i] is Ok);
        }
    }
    if forall|i: int| 0 <= i < name_labels(v).len() ==> valid_utf8(#[trigger] name_labels(v)[i]) {
        assert forall|i: int| 0 <= i < items.len() implies #[trigger] item_utf8(items[i]) by {
            assert(items[i] is Ok);
            assert(valid_utf8(name_labels(v)[i]));
        }
    }
}

/// What scanning `data` within `original` gives: the error that ends the walk, if
/// one does; else the name made of the bytes of `data` that the walk read before its
/// first pointer.
pub open spec fn scan_spec(data: Seq<u8>, original: Seq<u8>) -> Result<NameView, Error> {
    let (items, end) = run(start_state(data, original));
    if items.len() > 0 && items.last() is Err {
        Err(err_of(items.last()))
    } else {
        Ok(
            NameView {
                labels: data.take(orig_len_of(end) as int),
                original,
                all_labels_utf8: all_utf8(items),
            },
        )
    }
}

/// The DNS name as stored in the original packet.
///
/// It holds a reference to the bytes of the name and to the whole packet. Labels
/// are byte strings: in typical Internet usage they are ASCII text, in mDNS UTF-8.
/// Iterating over labels is preferable to splitting the dotted text form, since a
/// label may itself contain a `.`.
#[derive(Clone, Copy)]
pub struct Name<'a> {
    /// Starting point for parsing a valid name; all labels from here parse.
    ///
    /// This holds only the bytes read before jumping elsewhere in `original`.
    labels: &'a [u8],
    /// The whole packet; the compressed names referred to in `labels` are relative to it.
    original: &'a [u8],
    /// True iff all labels are UTF-8.
    all_labels_utf8: bool,
}

/// The view of a scan's result.
pub open spec fn scan_result_view(r: Result<Name, Error>) -> Result<NameView, Error> {
    match r {
        Ok(n) => Ok(n@),
        Err(e) => Err(e),
    }
}

impl<'a> View for Name<'a> {
    type V = NameView;

    closed spec fn view(&self) -> NameView {
        NameView {
            labels: self.labels@,
            original: self.original@,
            all_labels_utf8: self.all_labels_utf8,
        }
    }
}

impl<'a> Name<'a> {
    #[verifier::type_invariant]
    closed spec fn inv(self) -> bool {
        name_wf(self@)
    }

    /// The labels of the name.
    #[verifier::inline]
    pub open spec fn label_seq(&self) -> Seq<Seq<u8>> {
        name_labels(self@)
    }

    /// Scans the data to get a `Name`.
    ///
    /// `data` should be the part of `original` where the name starts; `original` is
    /// the packet from its start, which offsets of compressed names are relative to.
    pub fn scan(data: &'a [u8], original: &'a [u8]) -> (res: Result<Name<'a>, Error>)
        ensures
            scan_result_view(res) == scan_spec(data@, original@),
            res matches Ok(n) ==> name_wf(n@),
    {
        let mut iter = LabelIter::new(data, original);
        let ghost start = iter@;
        let ghost mut seen: Seq<Item> = seq![];
        let mut all_labels_utf8 = true;
        // Parse the whole name, to know how much of `data` it takes and whether all
        // labels are UTF-8.
        loop
            invariant
                start == start_state(data@, original@),
                run(start) == (seen + run(iter@).0, run(iter@).1),
                all_ok(seen),
                all_labels_utf8 == all_utf8(seen),
            ensures
                run(start) == (seen, iter@),
                all_ok(seen),
                all_labels_utf8 == all_utf8(seen),
            decreases run(iter@).0.len(),
        {
            let ghost before = iter@;
            proof {
                lemma_next_step_progress(before);
            }
            match iter.next() {
                None => {
                    assert(run(iter@).0.len() == 0 && run(iter@).1 == iter@);
                    assert(seen + run(iter@).0 =~= seen);
                    break ;
                },
                Some(Err(e)) => {
                    assert(run(iter@).0.len() == 0);
                    assert(run(before).0 =~= seq![Err(e)]);
                    assert(run(start).0 =~= seen.push(Err(e)));
                    assert(run(start).0.last() == Err::<Seq<u8>, Error>(e));
                    return Err(e);
                },
                Some(Ok(bytes)) => {
                    let is_utf8 = utf8_text(bytes).is_some();
                    all_labels_utf8 = is_utf8 && all_labels_utf8;
                    proof {
                        assert(seen + run(before).0 =~= seen.push(Ok(bytes@)) + run(iter@).0);
                        lemma_all_utf8_push(seen, Ok(bytes@));
                        seen = seen.push(Ok(bytes@));
                    }
                },
            }
        }
        let len = iter.orig_name_len();
        proof {
            lemma_run_span(start);
        }
        if len > data.len() {
            return Err(Error::UnexpectedEOF);
        }
        let labels = slice_subrange(data, 0, len);
        proof {
            lemma_run_trunc(start, len as nat);
            assert(trunc(start, len as nat) =~= start_state(labels@, original@));
            assert(labels@ =~= data@.take(len as int));
        }
        Ok(Name { labels, original, all_labels_utf8 })
    }

    /// Number of bytes the serialized name occupies, not counting any bytes after
    /// reading the first pointer.
    pub fn byte_len(&self) -> (n: usize)
        ensures
            n == self@.labels.len(),
    {
        self.labels.len()
    }

    /// The bytes of the name as they stand in the data it was scanned from, up to and
    /// including the first pointer.
    pub fn labels(&self) -> (bytes: &'a [u8])
        ensures
            bytes@ == self@.labels,
    {
        self.labels
    }

    /// The labels in the name, in order.
    pub fn iter_labels(&self) -> (res: Vec<&'a [u8]>)
        ensures
            res.len() == self.label_seq().len(),
            forall|i: int| 0 <= i < res.len() ==> #[trigger] res[i]@ == self.label_seq()[i],
    {
        proof {
            use_type_invariant(self);
        }
        let mut iter = LabelIter::new(self.labels, self.original);
        let ghost start = iter@;
        let ghost mut seen: Seq<Item> = seq![];
        let mut res: Vec<&'a [u8]> = Vec::new();
        loop
            invariant
                start == start_state(self@.labels, self@.original),
                all_ok(run(start).0),
                run(start) == (seen + run(iter@).0, run(iter@).1),
                res.len() == seen.len(),
                forall|i: int| 0 <= i < seen.len() ==> #[trigger] seen[i] == Ok::<Seq<u8>, Error>(res[i]@),
            ensures
                run(start).0 == seen,
                res.len() == seen.len(),
                forall|i: int| 0 <= i < seen.len() ==> #[trigger] seen[i] == Ok::<Seq<u8>, Error>(res[i]@),
            decreases run(iter@).0.len(),
        {
            let ghost before = iter@;
            proof {
                lemma_next_step_progress(before);
            }
            match iter.next() {
                None => {
                    assert(run(iter@).0.len() == 0);
                    assert(seen + run(iter@).0 =~= seen);
                    break ;
                },
                Some(Ok(label)) => {
                    res.push(label);
                    proof {
                        assert(seen + run(before).0 =~= seen.push(Ok(label@)) + run(iter@).0);
                        seen = seen.push(Ok(label@));
                    }
                },
                Some(Err(_)) => {
                    // the invariant of a name rules out errors
                    assert(run(start).0[seen.len() as int] == run(before).0[0]);
                },
            }
        }
        proof {
            assert forall|i: int| 0 <= i < res.len() implies #[trigger] res[i]@ == self.label_seq()[i] by {
                assert(seen[i] == Ok::<Seq<u8>, Error>(res[i]@));
            }
        }
        res
    }

    /// A `StrName` giving access to the labels as text, if all labels are UTF-8.
    pub fn as_str_name(&self) -> (res: Option<StrName<'a>>)
        ensures
            res is Some <==> self@.all_labels_utf8,
            res is Some <==> forall|i: int|
                0 <= i < self.label_seq().len() ==> valid_utf8(#[trigger] self.label_seq()[i]),
            res matches Some(s) ==> s@ == self@,
    {
        proof {
            use_type_invariant(self);
            lemma_utf8_flag(self@);
        }
        if self.all_labels_utf8 {
            Some(StrName { name: *self })
        } else {
            None
        }
    }

    /// The debugging form `Name(..)`: the labels joined by `.`, each as text if it is
    /// UTF-8 and else as `<0x..>` with its bytes in hexadecimal.
    pub fn debug_string(&self) -> (res: String)
        ensures
            res@ == seq!['N', 'a', 'm', 'e', '('] + join_dot(debug_labels(self.label_seq())) + seq![
                ')',
            ],
            (forall|i: int|
                0 <= i < self.label_seq().len() ==> valid_utf8(#[trigger] self.label_seq()[i]))
                ==> res@ == seq!['N', 'a', 'm', 'e', '('] + join_dot(label_texts(self.label_seq()))
                + seq![')'],
    {
        let labels = self.iter_labels();
        let ghost parts = debug_labels(self.label_seq());
        let mut res = String::new();
        res.append("Name(");
        proof {
            reveal_strlit("Name(");
            reveal_strlit(".");
            reveal_strlit("<0x");
            reveal_strlit(">");
            reveal_strlit(")");
            assert(parts.take(0) =~= Seq::<Seq<char>>::empty());
        }
        for i in 0..labels.len()
            invariant
                parts == debug_labels(self.label_seq()),
                labels.len() == parts.len(),
                forall|j: int| 0 <= j < labels.len() ==> #[trigger] debug_label(labels[j]@) == parts[j],
                res@ == seq!['N', 'a', 'm', 'e', '('] + join_dot(parts.take(i as int)),
                "."@ == seq!['.'],
                "<0x"@ == seq!['<', '0', 'x'],
                ">"@ == seq!['>'],
        {
            let ghost before = res@;
            if i != 0 {
                res.append(".");
            }
            match utf8_text(labels[i]) {
                Some(text) => {
                    proof {
                        lemma_utf8_text(labels[i as int]@, text@);
                    }
                    res.append(text);
                },
                None => {
                    res.append("<0x");
                    let hex = hex_encode(labels[i]);
                    res.append(hex.as_str());
                    res.append(">");
                },
            }
            proof {
                assert(debug_label(labels[i as int]@) == parts[i as int]);
                assert(parts.take(i + 1).drop_last() =~= parts.take(i as int));
                if i == 0 {
                    assert(join_dot(parts.take(1)) == parts[0]);
                }
                assert(res@ =~= seq!['N', 'a', 'm', 'e', '('] + join_dot(parts.take(i + 1)));
            }
        }
        res.append(")");
        proof {
            assert(parts.take(labels.len() as int) =~= parts);
            if forall|i: int|
                0 <= i < self.label_seq().len() ==> valid_utf8(#[trigger] self.label_seq()[i]) {
                assert(parts =~= label_texts(self.label_seq()));
            }
        }
        res
    }
}

/// A [`Name`] whose labels are all UTF-8.
///
/// Its text form (see [`StrName::to_string`]) is the usual dot-separated form of a
/// DNS name; no `.` inside a label is escaped. For precise label by label access,
/// see [`StrName::iter_labels`].
#[derive(Clone, Copy)]
pub struct StrName<'a> {
    /// All labels have been checked to be UTF-8.
    name: Name<'a>,
}

impl<'a> View for StrName<'a> {
    type V = NameView;

    closed spec fn view(&self) -> NameView {
        self.name@
    }
}

impl<'a> StrName<'a> {
    #[verifier::type_invariant]
    closed spec fn inv(self) -> bool {
        self.name@.all_labels_utf8
    }

    /// The labels of the name.
    #[verifier::inline]
    pub open spec fn label_seq(&self) -> Seq<Seq<u8>> {
        name_labels(self@)
    }

    /// The labels in the name, as text, in order.
    pub fn iter_labels(&self) -> (res: Vec<&'a str>)
        ensures
            res.len() == self.label_seq().len(),
            forall|i: int| 0 <= i < res.len() ==> #[trigger] res[i]@ == decode_utf8(self.label_seq()[i]),
            forall|i: int| 0 <= i < self.label_seq().len() ==> valid_utf8(#[trigger] self.label_seq()[i]),
    {
        proof {
            use_type_invariant(self);
            use_type_invariant(&self.name);
        }
        let labels = self.name.iter_labels();
        proof {
            lemma_utf8_flag(self@);
        }
        let mut res: Vec<&'a str> = Vec::new();
        for i in 0..labels.len()
            invariant
                labels.len() == self.label_seq().len(),
                forall|j: int| 0 <= j < labels.len() ==> #[trigger] labels[j]@ == self.label_seq()[j],
                forall|j: int| 0 <= j < self.label_seq().len() ==> valid_utf8(#[trigger] self.label_seq()[j]),
                res.len() == i,
                forall|j: int| 0 <= j < i ==> #[trigger] res[j]@ == decode_utf8(self.label_seq()[j]),
        {
            match utf8_text(labels[i]) {
                Some(text) => {
                    proof {
                        lemma_utf8_text(labels[i as int]@, text@);
                    }
                    res.push(text);
                },
                None => {
                    // every label is UTF-8, so nothing is dropped
                    assert(valid_utf8(self.label_seq()[i as int]));
                },
            }
        }
        res
    }

    /// The dot-separated text form of the name.
    pub fn to_string(&self) -> (res: String)
        ensures
            res@ == join_dot(label_texts(self.label_seq())),
            encode_utf8(res@) == join_bytes(self.label_seq()),
    {
        let labels = self.iter_labels();
        let ghost parts = label_texts(self.label_seq());
        let mut res = String::new();
        proof {
            reveal_strlit(".");
            assert(parts.take(0) =~= Seq::<Seq<char>>::empty());
        }
        for i in 0..labels.len()
            invariant
                parts == label_texts(self.label_seq()),
                labels.len() == parts.len(),
                forall|j: int| 0 <= j < labels.len() ==> #[trigger] labels[j]@ == parts[j],
                res@ == join_dot(parts.take(i as int)),
                "."@ == seq!['.'],
        {
            if i != 0 {
                res.append(".");
            }
            res.append(labels[i]);
            proof {
                assert(parts.take(i + 1).drop_last() =~= parts.take(i as int));
                if i == 0 {
                    assert(join_dot(parts.take(1)) == parts[0]);
                }
                assert(res@ =~= join_dot(parts.take(i + 1)));
            }
        }
        proof {
            assert(parts.take(labels.len() as int) =~= parts);
            law_text_form(self.label_seq());
        }
        res
    }

    /// The debugging form `StrName(..)` around the text form.
    pub fn debug_string(&self) -> (res: String)
        ensures
            res@ == seq!['S', 't', 'r', 'N', 'a', 'm', 'e', '('] + join_dot(
                label_texts(self.label_seq()),
            ) + seq![')'],
    {
        let mut res = String::new();
        res.append("StrName(");
        let text = self.to_string();
        res.append(text.as_str());
        res.append(")");
        proof {
            reveal_strlit("StrName(");
            reveal_strlit(")");
            assert(res@ =~= seq!['S', 't', 'r', 'N', 'a', 'm', 'e', '('] + join_dot(
                label_texts(self.label_seq()),
            ) + seq![')']);
        }
        res
    }
}

} // verus!
