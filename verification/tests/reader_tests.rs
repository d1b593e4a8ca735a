use multipart_reader::error::MultipartError;
use multipart_reader::multipart_type::MultipartType;
use multipart_reader::reader::MultipartReader;

fn form_data_headers(value: &str) -> Vec<(String, String)> {
    vec![("Content-Type".to_string(), value.to_string())]
}

const BODY: &[u8] = b"--974767299852498929531610575\r
Content-Disposition: form-data; name=\"text\"\r
\r
text default\r
--974767299852498929531610575\r
Content-Disposition: form-data; name=\"file1\"; filename=\"a.txt\"\r
Content-Type: text/plain\r
\r
Content of a.txt.\r
\r\n--974767299852498929531610575\r
Content-Disposition: form-data; name=\"file2\"; filename=\"a.html\"\r
Content-Type: text/html\r
\r
<!DOCTYPE html><title>Content of a.html.</title>\r
\r
--974767299852498929531610575--\r\n";

#[test]
fn valid_request() {
    let headermap = vec![(
        "Content-Type".to_string(),
        "multipart/form-data; boundary=--974767299852498929531610575".to_string(),
    )];

    assert!(MultipartReader::from_data_with_headers(BODY, &headermap).is_ok());
    assert!(MultipartReader::from_data_with_boundary_and_type(
        BODY,
        "--974767299852498929531610575",
        MultipartType::FormData
    )
    .is_ok());

    // Poll all the items from the reader
    let mut reader = MultipartReader::from_data_with_headers(BODY, &headermap).unwrap();
    assert_eq!(reader.multipart_type, MultipartType::FormData);
    let mut items = vec![];

    loop {
        match reader.poll_next() {
            Some(Ok(item)) => items.push(item),
            None => break,
            Some(Err(e)) => panic!("Error: {:?}", e),
        }
    }

    assert_eq!(items.len(), 3);
}

#[test]
fn three_parts_headers_and_bodies_match() {
    let headermap = vec![(
        "Content-Type".to_string(),
        "multipart/form-data; boundary=--974767299852498929531610575".to_string(),
    )];
    let mut reader = MultipartReader::from_data_with_headers(BODY, &headermap).unwrap();
    let mut items = vec![];
    loop {
        match reader.poll_next() {
            Some(Ok(item)) => items.push(item),
            None => break,
            Some(Err(e)) => panic!("Error: {:?}", e),
        }
    }
    assert_eq!(items.len(), 3);

    assert_eq!(items[0].headers.len(), 1);
    assert_eq!(items[0].headers[0].0, "Content-Disposition");
    assert_eq!(items[0].headers[0].1, "form-data; name=\"text\"");
    assert_eq!(items[0].data, b"text default".to_vec());

    assert_eq!(items[1].headers.len(), 2);
    assert_eq!(items[1].headers[0].0, "Content-Disposition");
    assert_eq!(
        items[1].headers[0].1,
        "form-data; name=\"file1\"; filename=\"a.txt\""
    );
    assert_eq!(items[1].headers[1].0, "Content-Type");
    assert_eq!(items[1].headers[1].1, "text/plain");
    assert_eq!(items[1].data, b"Content of a.txt.".to_vec());

    assert_eq!(items[2].headers.len(), 2);
    assert_eq!(
        items[2].headers[0].1,
        "form-data; name=\"file2\"; filename=\"a.html\""
    );
    assert_eq!(items[2].headers[1].1, "text/html");
    assert_eq!(
        items[2].data,
        b"<!DOCTYPE html><title>Content of a.html.</title>".to_vec()
    );
}

#[test]
fn polls_after_exhaustion_stay_empty() {
    let headermap = vec![(
        "Content-Type".to_string(),
        "multipart/form-data; boundary=--974767299852498929531610575".to_string(),
    )];
    let mut reader = MultipartReader::from_data_with_headers(BODY, &headermap).unwrap();
    let mut produced = 0;
    loop {
        match reader.poll_next() {
            Some(Ok(_)) => produced += 1,
            None => break,
            Some(Err(e)) => panic!("Error: {:?}", e),
        }
    }
    assert_eq!(produced, 3);
    for _ in 0..4 {
        assert!(reader.poll_next().is_none());
    }
}

#[test]
fn boundary_prefix_with_trailing_bytes_is_boundary() {
    let reader =
        MultipartReader::from_data_with_boundary_and_type(b"", "XYZ", MultipartType::Mixed)
            .unwrap();
    assert!(reader.is_boundary(b"XYZ"));
    assert!(reader.is_boundary(b"XYZ--"));
    assert!(reader.is_boundary(b"XYZ plus trailing junk"));
    assert!(!reader.is_boundary(b"XY"));
    assert!(!reader.is_boundary(b"aXYZ"));
    assert!(!reader.is_boundary(b""));
}

#[test]
fn boundary_lines_with_trailing_bytes_still_delimit() {
    let data = b"XYZ first\r\nName: v\r\n\r\nbody\r\nXYZ trailing--\r\n";
    let mut reader =
        MultipartReader::from_data_with_boundary_and_type(data, "XYZ", MultipartType::FormData)
            .unwrap();
    match reader.poll_next() {
        Some(Ok(item)) => {
            assert_eq!(item.headers.len(), 1);
            assert_eq!(item.headers[0].0, "Name");
            assert_eq!(item.headers[0].1, "v");
            assert_eq!(item.data, b"body".to_vec());
        }
        other => panic!("expected a part, got {:?}", other.map(|r| r.map(|_| ()))),
    }
    assert!(reader.poll_next().is_none());
}

#[test]
fn form_data_with_boundary_resolves() {
    let headers = form_data_headers("multipart/form-data; boundary=XYZ");
    let reader = MultipartReader::from_data_with_headers(b"", &headers).unwrap();
    assert_eq!(reader.boundary, "XYZ");
    assert_eq!(reader.multipart_type, MultipartType::FormData);
}

#[test]
fn text_plain_is_invalid_content_type() {
    let headers = form_data_headers("text/plain");
    let r = MultipartReader::from_data_with_headers(b"", &headers);
    assert!(matches!(r, Err(MultipartError::InvalidContentType)));
}

#[test]
fn missing_boundary_parameter_is_invalid_boundary() {
    let headers = form_data_headers("multipart/form-data");
    let r = MultipartReader::from_data_with_headers(b"", &headers);
    assert!(matches!(r, Err(MultipartError::InvalidBoundary)));
}

#[test]
fn unknown_subtype_is_invalid_multipart_type() {
    let headers = form_data_headers("multipart/bogus; boundary=XYZ");
    let r = MultipartReader::from_data_with_headers(b"", &headers);
    assert!(matches!(r, Err(MultipartError::InvalidMultipartType)));
}

#[test]
fn no_content_type_header_is_reported() {
    let headers = vec![("Accept".to_string(), "text/html".to_string())];
    let r = MultipartReader::from_data_with_headers(b"", &headers);
    assert!(matches!(r, Err(MultipartError::NoContentType)));
}

#[test]
fn unparsable_media_type_is_invalid_content_type() {
    let headers = form_data_headers("not a media type at all");
    let r = MultipartReader::from_data_with_headers(b"", &headers);
    assert!(matches!(r, Err(MultipartError::InvalidContentType)));
}

#[test]
fn content_type_key_found_case_insensitively() {
    let headers = vec![(
        "content-TYPE".to_string(),
        "multipart/mixed; boundary=abc".to_string(),
    )];
    let reader = MultipartReader::from_data_with_headers(b"", &headers).unwrap();
    assert_eq!(reader.boundary, "abc");
    assert_eq!(reader.multipart_type, MultipartType::Mixed);
}

#[test]
fn header_line_without_separator_is_invalid() {
    let data = b"XYZ\r\nNoSeparatorHere\r\n\r\nbody\r\nXYZ\r\n";
    let mut reader =
        MultipartReader::from_data_with_boundary_and_type(data, "XYZ", MultipartType::FormData)
            .unwrap();
    assert!(matches!(
        reader.poll_next(),
        Some(Err(MultipartError::InvalidItemHeader))
    ));
    for _ in 0..3 {
        assert!(reader.poll_next().is_none());
    }
}

#[test]
fn header_line_with_two_separators_is_invalid() {
    let data = b"XYZ\r\na: b: c\r\n\r\nbody\r\nXYZ\r\n";
    let mut reader =
        MultipartReader::from_data_with_boundary_and_type(data, "XYZ", MultipartType::FormData)
            .unwrap();
    assert!(matches!(
        reader.poll_next(),
        Some(Err(MultipartError::InvalidItemHeader))
    ));
    assert!(reader.poll_next().is_none());
}

#[test]
fn header_line_with_invalid_utf8_is_invalid() {
    let data = b"XYZ\r\nName: \xff\xfe\r\n\r\nbody\r\nXYZ\r\n";
    let mut reader =
        MultipartReader::from_data_with_boundary_and_type(data, "XYZ", MultipartType::FormData)
            .unwrap();
    assert!(matches!(
        reader.poll_next(),
        Some(Err(MultipartError::InvalidItemHeader))
    ));
    assert!(reader.poll_next().is_none());
}

#[test]
fn header_count_matches_header_lines() {
    let data = b"XYZ\r\nA: 1\r\nB: 2\r\nC: 3\r\n\r\nbody\r\nXYZ\r\n";
    let mut reader =
        MultipartReader::from_data_with_boundary_and_type(data, "XYZ", MultipartType::FormData)
            .unwrap();
    match reader.poll_next() {
        Some(Ok(item)) => {
            assert_eq!(item.headers.len(), 3);
            assert_eq!(item.headers[0], ("A".to_string(), "1".to_string()));
            assert_eq!(item.headers[1], ("B".to_string(), "2".to_string()));
            assert_eq!(item.headers[2], ("C".to_string(), "3".to_string()));
        }
        other => panic!("expected a part, got {:?}", other.map(|r| r.map(|_| ()))),
    }
}

#[test]
fn duplicate_header_names_are_kept_in_order() {
    let data = b"XYZ\r\nA: first\r\nA: second\r\n\r\nbody\r\nXYZ\r\n";
    let mut reader =
        MultipartReader::from_data_with_boundary_and_type(data, "XYZ", MultipartType::FormData)
            .unwrap();
    match reader.poll_next() {
        Some(Ok(item)) => {
            assert_eq!(item.headers.len(), 2);
            assert_eq!(item.headers[0].1, "first");
            assert_eq!(item.headers[1].1, "second");
        }
        other => panic!("expected a part, got {:?}", other.map(|r| r.map(|_| ()))),
    }
}

#[test]
fn multi_line_body_concatenates_without_terminators() {
    let data = b"XYZ\r\nA: 1\r\n\r\nline one\r\nline two\r\nXYZ\r\n";
    let mut reader =
        MultipartReader::from_data_with_boundary_and_type(data, "XYZ", MultipartType::FormData)
            .unwrap();
    match reader.poll_next() {
        Some(Ok(item)) => {
            assert_eq!(item.data, b"line oneline two".to_vec());
        }
        other => panic!("expected a part, got {:?}", other.map(|r| r.map(|_| ()))),
    }
}

#[test]
fn preamble_before_first_boundary_is_discarded() {
    let data = b"this is a preamble\r\nand more of it\r\nXYZ\r\nA: 1\r\n\r\npayload\r\nXYZ\r\n";
    let mut reader =
        MultipartReader::from_data_with_boundary_and_type(data, "XYZ", MultipartType::FormData)
            .unwrap();
    match reader.poll_next() {
        Some(Ok(item)) => assert_eq!(item.data, b"payload".to_vec()),
        other => panic!("expected a part, got {:?}", other.map(|r| r.map(|_| ()))),
    }
    assert!(reader.poll_next().is_none());
}

#[test]
fn empty_input_yields_nothing() {
    let mut reader =
        MultipartReader::from_data_with_boundary_and_type(b"", "XYZ", MultipartType::FormData)
            .unwrap();
    assert!(reader.poll_next().is_none());
    assert!(reader.poll_next().is_none());
}

#[test]
fn unterminated_trailing_bytes_are_not_a_line() {
    // No CRLF at all: nothing is ever produced, not even the boundary.
    let data = b"XYZ";
    let mut reader =
        MultipartReader::from_data_with_boundary_and_type(data, "XYZ", MultipartType::FormData)
            .unwrap();
    assert!(reader.poll_next().is_none());
}

#[test]
fn subtype_lookup_is_closed() {
    assert_eq!(
        MultipartType::from_subtype("form-data"),
        Some(MultipartType::FormData)
    );
    assert_eq!(MultipartType::from_subtype("mixed"), Some(MultipartType::Mixed));
    assert_eq!(
        MultipartType::from_subtype("byteranges"),
        Some(MultipartType::ByteRanges)
    );
    assert_eq!(MultipartType::from_subtype("bogus"), None);
    assert_eq!(MultipartType::from_subtype(""), None);
}

#[test]
fn blank_whitespace_line_closes_headers() {
    // The line of spaces counts as blank, closing the header section.
    let data = b"XYZ\r\nA: 1\r\n   \r\nbody\r\nXYZ\r\n";
    let mut reader =
        MultipartReader::from_data_with_boundary_and_type(data, "XYZ", MultipartType::FormData)
            .unwrap();
    match reader.poll_next() {
        Some(Ok(item)) => {
            assert_eq!(item.headers.len(), 1);
            assert_eq!(item.data, b"body".to_vec());
        }
        other => panic!("expected a part, got {:?}", other.map(|r| r.map(|_| ()))),
    }
}

#[test]
fn empty_body_part_is_emitted() {
    let data = b"XYZ\r\nA: 1\r\n\r\nXYZ\r\n";
    let mut reader =
        MultipartReader::from_data_with_boundary_and_type(data, "XYZ", MultipartType::FormData)
            .unwrap();
    match reader.poll_next() {
        Some(Ok(item)) => {
            assert_eq!(item.headers.len(), 1);
            assert!(item.data.is_empty());
        }
        other => panic!("expected a part, got {:?}", other.map(|r| r.map(|_| ()))),
    }
    assert!(reader.poll_next().is_none());
}

#[test]
fn first_content_type_entry_wins() {
    let headers = vec![
        ("Content-Type".to_string(), "text/plain".to_string()),
        (
            "Content-Type".to_string(),
            "multipart/mixed; boundary=z".to_string(),
        ),
    ];
    let r = MultipartReader::from_data_with_headers(b"", &headers);
    assert!(matches!(r, Err(MultipartError::InvalidContentType)));
}
