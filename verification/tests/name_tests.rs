use dns_parser::{Error, LabelIter, Name};

/// Every item the label iterator yields, with labels as text.
fn iter_labels<'a>(name: &'a [u8], original: &'a [u8]) -> Vec<Result<&'a str, Error>> {
    collect_items(name, original)
        .into_iter()
        .map(|r| r.map(|l| std::str::from_utf8(l).unwrap()))
        .collect()
}

/// Every item the label iterator yields.
fn collect_items<'a>(name: &'a [u8], original: &'a [u8]) -> Vec<Result<&'a [u8], Error>> {
    let mut iter = LabelIter::new(name, original);
    let mut items = Vec::new();
    while let Some(item) = iter.next() {
        items.push(item);
    }
    items
}

#[test]
fn parse_badpointer_same_offset() {
    // A buffer where an offset points to itself,
    // which is a bad compression pointer.
    let same_offset = vec![192, 2, 192, 2];
    assert_eq!(
        Error::BadPointer,
        Name::scan(&same_offset, &same_offset).err().unwrap()
    );
}

#[test]
fn parse_badpointer_forward_offset() {
    // A buffer where the offsets points back to each other which causes
    // infinite recursion if never checked, a bad compression pointer.
    let forwards_offset = vec![192, 2, 192, 4, 192, 2];

    assert_eq!(
        Error::BadPointer,
        Name::scan(&forwards_offset, &forwards_offset).err().unwrap(),
    )
}

#[test]
fn nested_names() {
    let buf = b"\x02xx\x00\x02yy\xc0\x00\x02zz\xc0\x04";

    assert_eq!(
        Name::scan(&buf[..], buf)
            .unwrap()
            .as_str_name()
            .unwrap()
            .to_string(),
        "xx"
    );
    assert_eq!(Name::scan(&buf[..], buf).unwrap().labels(), b"\x02xx\x00");
    assert_eq!(
        Name::scan(&buf[4..], buf)
            .unwrap()
            .as_str_name()
            .unwrap()
            .to_string(),
        "yy.xx"
    );
    assert_eq!(
        Name::scan(&buf[4..], buf).unwrap().labels(),
        b"\x02yy\xc0\x00"
    );
    assert_eq!(
        Name::scan(&buf[9..], buf)
            .unwrap()
            .as_str_name()
            .unwrap()
            .to_string(),
        "zz.yy.xx"
    );
    assert_eq!(
        Name::scan(&buf[9..], buf).unwrap().labels(),
        b"\x02zz\xc0\x04"
    );
}

#[test]
fn name_all_utf8_labels_ok() {
    let bytes = b"\x03foo\x03bar\0";

    let name = Name::scan(&bytes[..], &bytes[..]).unwrap();
    assert_eq!("Name(foo.bar)", name.debug_string());

    let str_name = name.as_str_name().unwrap();

    assert_eq!("foo.bar", str_name.to_string());
    assert_eq!("StrName(foo.bar)", str_name.debug_string());
}

#[test]
fn name_all_valid_but_not_utf8_labels_ok_no_str_name() {
    let bytes = b"\x03foo\x03ba\xFF\0";

    let name = Name::scan(&bytes[..], &bytes[..]).unwrap();
    assert_eq!("Name(foo.<0x6261ff>)", name.debug_string());

    assert!(name.as_str_name().is_none());
}

#[test]
fn name_not_all_valid_labels_err() {
    // pointer past EOF
    let bytes = b"\x03foo\xC0\xFF";

    assert_eq!(
        Error::UnexpectedEOF,
        Name::scan(&bytes[..], &bytes[..]).err().unwrap()
    );
}

#[test]
fn iter_labels_invalid_label_type() {
    let name = b"\x02ok\xA0";

    assert_eq!(
        vec![Ok("ok"), Err(Error::UnknownLabelFormat)],
        iter_labels(&name[..], &name[..])
    );
}

#[test]
fn iter_labels_binary_and_utf8_labels() {
    // 3-byte unicode snowman, then, 2 non-UTF-8 bytes
    let name = b"\x03\xE2\x98\x83\x02\xFF\xFF\x00";

    assert_eq!(
        vec![Ok("☃".as_bytes()), Ok(b"\xFF\xFF"),],
        collect_items(name, name)
    );
}

#[test]
fn iter_labels_label_len_eof_err() {
    // eof when reading the label itself
    let name = b"\x03foo\x04bar";

    assert_eq!(
        vec![Ok("foo"), Err(Error::UnexpectedEOF)],
        iter_labels(&name[..], &name[..])
    );
}

#[test]
fn iter_labels_eof_reading_next_byte_err() {
    // read the trailing nul as part of the second label, so it'll fail when looking for what
    // should be the nul suffix
    let name = b"\x03foo\x04bar\x00";

    assert_eq!(
        vec![Ok("foo"), Ok("bar\x00"), Err(Error::UnexpectedEOF)],
        iter_labels(&name[..], &name[..])
    );
}

#[test]
fn iter_labels_ptr_to_self_err() {
    let name = b"\x01a\xC0\x02";

    assert_eq!(
        vec![Ok("a"), Err(Error::BadPointer)],
        iter_labels(&name[..], &name[..])
    );
}

#[test]
fn iter_labels_ptr_eof_err() {
    let name = b"\x01a\xC0\x0A";

    assert_eq!(
        vec![Ok("a"), Err(Error::UnexpectedEOF)],
        iter_labels(&name[..], &name[..])
    );
}

#[test]
fn iter_labels_ptr_second_byte_eof_err() {
    let name = b"\x01a\xC0";

    assert_eq!(
        vec![Ok("a"), Err(Error::UnexpectedEOF)],
        iter_labels(&name[..], &name[..])
    );
}

#[test]
fn iter_labels_forward_ptr_then_backwards_ok() {
    // jump from first ptr to second is ok, and so is the backwards ptr
    let name = b"\x02ok\x00\xC0\x06\xC0\x00";

    assert_eq!(vec![Ok("ok")], iter_labels(&name[..], &name[..]));
}

#[test]
fn iter_labels_two_forward_ptrs_error() {
    // jump from first ptr to second is ok, but from second to third is not
    let name = b"\xC0\x02\xC0\x04\x02hi";

    assert_eq!(
        vec![Err(Error::BadPointer)],
        iter_labels(&name[..], &name[..]),
    );
}

#[test]
fn iter_labels_max_len_error_long_labels_limit_at_nul_byte() {
    // too long because of nul byte:
    // 4 labels of 1 + 59 = 60, 1 chunk of 1 + 14, + nul = 256
    let mut name = vec![];
    name.push(59);
    name.extend_from_slice(&[b'a'; 59]);
    name.push(59);
    name.extend_from_slice(&[b'b'; 59]);
    name.push(59);
    name.extend_from_slice(&[b'c'; 59]);
    name.push(59);
    name.extend_from_slice(&[b'd'; 59]);
    name.push(14);
    name.extend_from_slice(&[b'e'; 14]);
    name.push(0);

    assert_eq!(256, name.len());
    assert_eq!(
        vec![
            Ok("a".repeat(59).as_str()),
            Ok("b".repeat(59).as_str()),
            Ok("c".repeat(59).as_str()),
            Ok("d".repeat(59).as_str()),
            Ok("e".repeat(14).as_str()),
            Err(Error::InvalidNameLen)
        ],
        iter_labels(&name, &name)
    );
}

#[test]
fn iter_labels_max_len_error_long_labels() {
    // too long because of last label:
    // 4 labels of 1 + 59 = 60, 1 chunk of 1 + 15, + nul = 257
    let mut name = vec![];
    name.push(59);
    name.extend_from_slice(&[b'a'; 59]);
    name.push(59);
    name.extend_from_slice(&[b'b'; 59]);
    name.push(59);
    name.extend_from_slice(&[b'c'; 59]);
    name.push(59);
    name.extend_from_slice(&[b'd'; 59]);
    name.push(15);
    name.extend_from_slice(&[b'e'; 15]);
    name.push(0);

    assert_eq!(257, name.len());
    assert_eq!(
        vec![
            Ok("a".repeat(59).as_str()),
            Ok("b".repeat(59).as_str()),
            Ok("c".repeat(59).as_str()),
            Ok("d".repeat(59).as_str()),
            Err(Error::InvalidNameLen)
        ],
        iter_labels(&name, &name)
    );
}

#[test]
fn iter_labels_max_len_error_recursive_pointers() {
    let mut name = b"\x04quux\x00".to_vec();
    // 125 pointers each going back by 2, totaling 250 bytes, plus the 6 byte prefix = 256
    for i in 0..=124 {
        name.push(0xC0);
        if i == 0 {
            name.push(0);
        } else {
            name.push(6 + (i - 1) * 2)
        }
    }
    assert_eq!(256, name.len());
    assert_eq!(
        vec![Ok("quux"), Err(Error::InvalidNameLen)],
        // start with last 2 bytes
        iter_labels(&name[254..], &name)
    );
}

#[test]
fn iter_labels_max_len_ok_recursive_pointers() {
    let mut name = b"\x01a\x00".to_vec();
    // 126 pointers each going back by 2, totaling 252 bytes, plus the 3 byte prefix = 255
    for i in 0..=125 {
        name.push(0xC0);
        if i == 0 {
            name.push(0);
        } else {
            name.push(3 + (i - 1) * 2)
        }
    }
    assert_eq!(255, name.len());
    assert_eq!(
        vec![Ok("a")],
        // start with last 2 bytes
        iter_labels(&name[253..], &name)
    );
}

#[test]
fn orig_name_parse_len_empty() {
    let bytes = b"\x00";
    let name = Name::scan(&bytes[..], &bytes[..]).unwrap();
    assert_eq!(1, name.labels().len());
}

#[test]
fn orig_name_parse_len_no_pointers() {
    let bytes = b"\x03foo\x03bar\x00";
    let name = Name::scan(&bytes[..], &bytes[..]).unwrap();
    assert_eq!(9, name.labels().len());
}

#[test]
fn orig_name_parse_len_starts_with_ptr() {
    let bytes = b"\x03baz\x00\xC0\x00";
    let name = Name::scan(&bytes[5..], &bytes[..]).unwrap();
    // just the pointer
    assert_eq!(2, name.labels().len());
}

#[test]
fn orig_name_parse_len_stops_at_first_pointer_after_some_labels() {
    let bytes = b"\x03baz\x00\x03foo\x03bar\xC0\x00";
    let name = Name::scan(&bytes[5..], &bytes[..]).unwrap();
    // two labels plus the pointer
    assert_eq!(10, name.labels().len());
}

#[test]
fn name_as_string_empty() {
    let bytes = b"\x00";
    let name = Name::scan(&bytes[..], &bytes[..]).unwrap();

    assert_eq!("", name.as_str_name().unwrap().to_string());
}

#[test]
fn name_as_string_all_labels_text() {
    let bytes = b"\x03foo\x03bar\x00";
    let name = Name::scan(&bytes[..], &bytes[..]).unwrap();

    assert_eq!("foo.bar", name.as_str_name().unwrap().to_string());
}

#[test]
fn name_as_string_some_labels_binary() {
    let bytes = b"\x03foo\x03\xFF\xFA\xF0\x00";
    let name = Name::scan(&bytes[..], &bytes[..]).unwrap();

    assert!(name.as_str_name().is_none());
}

#[test]
fn name_debug_empty() {
    let bytes = b"\x00";
    let name = Name::scan(&bytes[..], &bytes[..]).unwrap();

    assert_eq!("Name()", name.debug_string());
}

#[test]
fn name_debug_all_labels_text() {
    let bytes = b"\x03foo\x03bar\x00";
    let name = Name::scan(&bytes[..], &bytes[..]).unwrap();

    assert_eq!("Name(foo.bar)", name.debug_string());
    assert_eq!(
        "StrName(foo.bar)",
        name.as_str_name().unwrap().debug_string()
    );
}

#[test]
fn name_debug_some_labels_binary() {
    let bytes = b"\x03foo\x03\xFF\xFA\xF0\x00";
    let name = Name::scan(&bytes[..], &bytes[..]).unwrap();

    assert_eq!("Name(foo.<0xfffaf0>)", name.debug_string());
}
