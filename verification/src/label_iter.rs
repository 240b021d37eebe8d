//! The executable label walk, proved against the model in `model`.
use vstd::prelude::*;
use vstd::slice::slice_subrange;

use crate::error::Error;
use crate::model::{
    next_step, orig_len_of, pointer_target, read_byte_step, read_label_step, start_state, Item,
    LabelState, COMPRESSED_MARKER, MAX_NAME_LEN,
};

verus! {

/// An iterator over the labels of an encoded name.
///
/// Stops iterating (produces `None`) at the end of the name, or once an error has
/// been encountered. See RFC 1035 and RFC 9267.
pub struct LabelIter<'a> {
    /// The next name bytes to read labels from.
    remaining: &'a [u8],
    /// The complete DNS packet, which offsets in compressed labels are relative to.
    original: &'a [u8],
    /// The last offset jumped to. The first pointer may point anywhere, every later
    /// one must point before the previous one, so no walk can loop.
    last_offset: Option<usize>,
    /// True when the end was reached, or an error was encountered.
    done: bool,
    /// Number of encoded bytes read when decoding the name, pointers included.
    encoded_name_len_read: usize,
    /// The number of bytes read from the original name data, once the first pointer was read.
    orig_name_len: Option<usize>,
}

/// An optional machine integer as an optional natural number.
pub open spec fn opt_nat(o: Option<usize>) -> Option<nat> {
    match o {
        Some(v) => Some(v as nat),
        None => None,
    }
}

/// The item of the iterator, with the label taken by its bytes.
pub open spec fn item_view(item: Option<Result<&[u8], Error>>) -> Option<Item> {
    match item {
        None => None,
        Some(Ok(label)) => Some(Ok(label@)),
        Some(Err(e)) => Some(Err(e)),
    }
}

/// The result of reading one label, with the label taken by its bytes.
pub open spec fn label_result_view(r: Result<Option<&[u8]>, Error>) -> Result<
    Option<Seq<u8>>,
    Error,
> {
    match r {
        Ok(Some(label)) => Ok(Some(label@)),
        Ok(None) => Ok(None),
        Err(e) => Err(e),
    }
}

impl<'a> View for LabelIter<'a> {
    type V = LabelState;

    closed spec fn view(&self) -> LabelState {
        LabelState {
            remaining: self.remaining@,
            original: self.original@,
            last_offset: opt_nat(self.last_offset),
            done: self.done,
            read: self.encoded_name_len_read as nat,
            orig_len: opt_nat(self.orig_name_len),
        }
    }
}

impl<'a> LabelIter<'a> {
    /// An iterator over the labels of the name that starts at `name`, in the packet `original`.
    pub fn new(name: &'a [u8], original: &'a [u8]) -> (it: Self)
        ensures
            it@ == start_state(name@, original@),
    {
        LabelIter {
            remaining: name,
            original,
            last_offset: None,
            done: false,
            encoded_name_len_read: 0,
            orig_name_len: None,
        }
    }

    /// Reads the next label in the name, following pointers. Returns `Ok(None)` at
    /// the end of the name.
    fn read_label(&mut self) -> (res: Result<Option<&'a [u8]>, Error>)
        ensures
            (label_result_view(res), final(self)@) == read_label_step(old(self)@),
    {
        loop
            invariant
                read_label_step(self@) == read_label_step(old(self)@),
            decreases 256 - self.encoded_name_len_read,
        {
            let ghost st = self@;
            let byte = self.read_byte()?;
            assert(byte & 0xc0 == 0xc0 <==> byte >= 0xc0) by (bit_vector);
            if byte & COMPRESSED_MARKER == COMPRESSED_MARKER {
                let low = self.read_byte()?;
                assert(byte >= 0xc0 ==> byte & !0xc0u8 == byte - 0xc0) by (bit_vector);
                let target_offset: usize = ((byte & !COMPRESSED_MARKER) as usize) * 256
                    + low as usize;
                assert(target_offset == pointer_target(byte, low));
                let pointer_valid: bool = match self.last_offset {
                    Some(o) => target_offset < o,
                    None => {
                        // record what has been read of the original name so far
                        self.orig_name_len = Some(self.encoded_name_len_read);
                        true
                    },
                };
                if !pointer_valid {
                    return Err(Error::BadPointer);
                }
                self.last_offset = Some(target_offset);
                if target_offset > self.original.len() {
                    return Err(Error::UnexpectedEOF);
                }
                self.remaining = slice_subrange(self.original, target_offset, self.original.len());
                assert(self@ =~= LabelState {
                    remaining: st.original.skip(target_offset as int),
                    read: st.read + 2,
                    orig_len: if st.last_offset is None {
                        Some((st.read + 2) as nat)
                    } else {
                        st.orig_len
                    },
                    last_offset: Some(target_offset as nat),
                    ..st
                });
            } else if byte == 0 {
                return Ok(None);
            } else if byte < 64 {
                let len = byte as usize;
                self.mark_bytes_read(len)?;
                if self.remaining.len() < len {
                    return Err(Error::UnexpectedEOF);
                }
                let (label, rem) = self.remaining.split_at(len);
                self.remaining = rem;
                return Ok(Some(label));
            } else {
                return Err(Error::UnknownLabelFormat);
            }
        }
    }

    /// Reads the next byte, counting it towards the length limit first.
    fn read_byte(&mut self) -> (res: Result<u8, Error>)
        ensures
            (res, final(self)@) == read_byte_step(old(self)@),
    {
        self.mark_bytes_read(1)?;
        if self.remaining.len() == 0 {
            return Err(Error::UnexpectedEOF);
        }
        let first = self.remaining[0];
        self.remaining = slice_subrange(self.remaining, 1, self.remaining.len());
        Ok(first)
    }

    /// Fails if `len` more bytes would take the total read over the name length
    /// limit; records them otherwise.
    fn mark_bytes_read(&mut self, len: usize) -> (res: Result<(), Error>)
        ensures
            old(self)@.read + len > MAX_NAME_LEN ==> res == Err::<(), Error>(
                Error::InvalidNameLen,
            ) && final(self)@ == old(self)@,
            old(self)@.read + len <= MAX_NAME_LEN ==> res is Ok && final(self)@ == (LabelState {
                read: (old(self)@.read + len) as nat,
                ..old(self)@
            }),
    {
        let sum = match self.encoded_name_len_read.checked_add(len) {
            Some(sum) => sum,
            None => return Err(Error::InvalidNameLen),
        };
        if sum > MAX_NAME_LEN {
            Err(Error::InvalidNameLen)
        } else {
            self.encoded_name_len_read = sum;
            Ok(())
        }
    }

    /// The number of bytes read from the starting data before following any pointer.
    pub fn orig_name_len(&self) -> (n: usize)
        ensures
            n == orig_len_of(self@),
    {
        // without a pointer, all bytes read were read from the starting data
        self.orig_name_len.unwrap_or(self.encoded_name_len_read)
    }

    /// The next label, or the error that ends the walk, or `None` once the walk is over.
    pub fn next(&mut self) -> (item: Option<Result<&'a [u8], Error>>)
        ensures
            (item_view(item), final(self)@) == next_step(old(self)@),
    {
        if self.done {
            return None;
        }
        match self.read_label() {
            Ok(Some(l)) => Some(Ok(l)),
            Ok(None) => {
                self.done = true;
                None
            },
            Err(e) => {
                self.done = true;
                Some(Err(e))
            },
        }
    }
}

} // verus!
