use dns_parser::{Error, LabelIter, Name};

fn all_items<'a>(name: &'a [u8], original: &'a [u8]) -> Vec<Result<&'a [u8], Error>> {
    let mut iter = LabelIter::new(name, original);
    let mut items = Vec::new();
    while let Some(item) = iter.next() {
        items.push(item);
    }
    items
}

#[test]
fn rescanning_the_name_bytes_gives_the_same_name() {
    let packet = b"\x03baz\x00\x03foo\x03bar\xC0\x00";
    let name = Name::scan(&packet[5..], &packet[..]).unwrap();
    let again = Name::scan(name.labels(), &packet[..]).unwrap();
    assert_eq!(name.labels(), again.labels());
    assert_eq!(name.iter_labels(), again.iter_labels());
    assert_eq!(name.byte_len(), again.byte_len());
}

#[test]
fn name_labels_match_the_walk_over_the_data() {
    let packet = b"\x03baz\x00\x03foo\x03bar\xC0\x00trailing";
    let name = Name::scan(&packet[5..], &packet[..]).unwrap();
    let walked: Vec<&[u8]> = all_items(&packet[5..], &packet[..])
        .into_iter()
        .map(|r| r.unwrap())
        .collect();
    assert_eq!(name.iter_labels(), walked);
    assert_eq!(
        name.iter_labels(),
        vec![&b"foo"[..], &b"bar"[..], &b"baz"[..]]
    );
    assert_eq!(name.byte_len(), 10);
}

#[test]
fn iterator_stays_finished_after_an_error() {
    let name = b"\x01a\x80";
    let mut iter = LabelIter::new(name, name);
    assert_eq!(iter.next(), Some(Ok(&b"a"[..])));
    assert_eq!(iter.next(), Some(Err(Error::UnknownLabelFormat)));
    assert_eq!(iter.next(), None);
    assert_eq!(iter.next(), None);
}

#[test]
fn iterator_stays_finished_after_the_end() {
    let name = b"\x01a\x00\x01b\x00";
    let mut iter = LabelIter::new(name, name);
    assert_eq!(iter.next(), Some(Ok(&b"a"[..])));
    assert_eq!(iter.next(), None);
    assert_eq!(iter.next(), None);
    assert_eq!(iter.orig_name_len(), 3);
}

#[test]
fn orig_name_len_counts_up_to_the_first_pointer() {
    let packet = b"\x01x\x00\x01y\xC0\x00";
    let mut iter = LabelIter::new(&packet[3..], &packet[..]);
    while iter.next().is_some() {}
    assert_eq!(iter.orig_name_len(), 4);
}

#[test]
fn label_of_63_bytes_is_accepted() {
    let mut name = vec![63u8];
    name.extend_from_slice(&[b'q'; 63]);
    name.push(0);
    let parsed = Name::scan(&name, &name).unwrap();
    assert_eq!(parsed.iter_labels(), vec![&name[1..64]]);
    assert_eq!(parsed.byte_len(), 65);
}

#[test]
fn label_type_bits_01_and_10_are_unknown() {
    assert_eq!(
        Name::scan(b"\x40", b"\x40").err().unwrap(),
        Error::UnknownLabelFormat
    );
    assert_eq!(
        Name::scan(b"\xBF", b"\xBF").err().unwrap(),
        Error::UnknownLabelFormat
    );
}

#[test]
fn pointer_to_the_end_of_the_packet_fails_on_the_next_byte() {
    let name = b"\xC0\x02";
    assert_eq!(all_items(name, name), vec![Err(Error::UnexpectedEOF)]);
}

#[test]
fn empty_data_is_unexpected_eof() {
    assert_eq!(Name::scan(b"", b"").err().unwrap(), Error::UnexpectedEOF);
}

#[test]
fn pointer_target_uses_fourteen_bits() {
    // 0xC1 0x02 points at offset 0x102 = 258
    let mut packet = vec![0u8; 258];
    packet.extend_from_slice(b"\x02hi\x00");
    let data = [0xC1u8, 0x02];
    let name = Name::scan(&data, &packet).unwrap();
    assert_eq!(name.iter_labels(), vec![&b"hi"[..]]);
    assert_eq!(name.byte_len(), 2);
}

#[test]
fn str_name_labels_are_text() {
    let bytes = b"\x03\xE2\x98\x83\x03com\x00";
    let name = Name::scan(&bytes[..], &bytes[..]).unwrap();
    let str_name = name.as_str_name().unwrap();
    assert_eq!(str_name.iter_labels(), vec!["☃", "com"]);
    assert_eq!(str_name.to_string(), "☃.com");
    assert_eq!(str_name.debug_string(), "StrName(☃.com)");
    assert_eq!(name.debug_string(), "Name(☃.com)");
}

#[test]
fn debug_string_writes_binary_labels_in_lowercase_hex() {
    let bytes = b"\x02\x00\xAB\x01z\x00";
    let name = Name::scan(&bytes[..], &bytes[..]).unwrap();
    assert_eq!(name.debug_string(), "Name(<0x00ab>.z)");
}

#[test]
fn name_length_limit_counts_each_byte() {
    // 254 bytes of labels and the zero byte: 255 in all
    let mut name = vec![];
    for _ in 0..4 {
        name.push(62);
        name.extend_from_slice(&[b'k'; 62]);
    }
    name.push(1);
    name.push(b'z');
    name.push(0);
    assert_eq!(name.len(), 255);
    assert_eq!(Name::scan(&name, &name).unwrap().iter_labels().len(), 5);
    let mut longer = name.clone();
    longer.insert(253, b'z');
    longer[252] = 2;
    assert_eq!(
        Name::scan(&longer, &longer).err().unwrap(),
        Error::InvalidNameLen
    );
}

#[test]
fn bytes_after_the_name_do_not_change_it() {
    let packet = b"\x03baz\x00\x03foo\xC0\x00";
    let data = &packet[5..];
    let mut longer = data.to_vec();
    longer.extend_from_slice(b"\x07anything\xFF");
    let short = Name::scan(data, &packet[..]).unwrap();
    let long = Name::scan(&longer, &packet[..]).unwrap();
    assert_eq!(short.labels(), long.labels());
    assert_eq!(short.iter_labels(), long.iter_labels());
    assert_eq!(
        short.as_str_name().is_some(),
        long.as_str_name().is_some()
    );
}

#[test]
fn first_pointer_length_is_kept_after_later_pointers() {
    let packet = b"\x01a\x00\x01b\xC0\x00\x01c\xC0\x03";
    let mut iter = LabelIter::new(&packet[7..], &packet[..]);
    assert_eq!(iter.next(), Some(Ok(&b"c"[..])));
    assert_eq!(iter.next(), Some(Ok(&b"b"[..])));
    assert_eq!(iter.orig_name_len(), 4);
    assert_eq!(iter.next(), Some(Ok(&b"a"[..])));
    assert_eq!(iter.next(), None);
    assert_eq!(iter.orig_name_len(), 4);
}

#[test]
fn longest_walks_yield_at_most_128_items() {
    let mut name = Vec::new();
    for _ in 0..127 {
        name.extend_from_slice(b"\x01a");
    }
    let mut ok = name.clone();
    ok.push(0);
    assert_eq!(all_items(&ok, &ok).len(), 127);
    let mut bad = name.clone();
    bad.push(0x80);
    let items = all_items(&bad, &bad);
    assert_eq!(items.len(), 128);
    assert_eq!(items[127], Err(Error::UnknownLabelFormat));
}
