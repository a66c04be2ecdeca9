//! Records of a source, read one by one and ahead.
use quadrille::records::{read_record, Ahead, Record};

type Reading = Result<Option<(Vec<String>, usize, usize)>, (usize, usize)>;

fn shown(r: Result<Option<Record>, (usize, usize)>) -> Reading {
    r.map(|found| found.map(|record| (record.fields, record.start, record.end)))
}

/// Read every record up to the end or the first that is not UTF-8, both ways.
fn readings(data: &[u8], count: usize) -> Vec<Reading> {
    let data = data.to_vec();
    let mut ahead = Ahead::new(count);
    let (mut at, mut all) = (0, Vec::new());
    loop {
        let one = shown(read_record(&data, b',', at));
        assert_eq!(shown(ahead.read(&data, b',', at)), one, "{count} {at}");
        all.push(one.clone());
        match one {
            Ok(Some((_, start, end))) => {
                assert!(start == at && end > at);
                at = end;
            }
            _ => return all,
        }
    }
}

#[test]
fn records_read_ahead_as_one_by_one() {
    let sources: [&[u8]; 10] = [
        b"",
        b"\n\r\n",
        b"a",
        b"a,b\r\nc\r\n\r\n\"d\n\",\"e\"\"f\"\rg\n\n\n",
        b"\xef\xbb\xbfa\n\xef\xbb\xbfb\n\xef\xbb\xbf\n\n\xef\xbb\xbfc",
        b"\xef\xbb\xbf\n\n,\n\"\"\n",
        b"1\n2\n3\n4\n\xff\n5\n",
        b"1\n2,\xc3\n3\n",
        b"\"open\n1\n2\n",
        b"a\"b\nc\"\"d\n\"e\"f\n",
    ];
    for data in sources {
        let expected = readings(data, 1);
        for count in 0..9 {
            assert_eq!(readings(data, count), expected, "{count}");
        }
    }
    let last = readings(b"1\n2\n3\n4\n\xff\n5\n", 3).pop().unwrap();
    assert_eq!(last, Err((0, 0)));
    let crlf = readings(b"a\r\nb\r\n", 2);
    assert_eq!(
        crlf,
        [
            Ok(Some((vec!["a".into()], 0, 2))),
            Ok(Some((vec!["b".into()], 2, 5))),
            Ok(None)
        ]
    );
}

#[test]
fn marks_and_line_ends_hold_no_record() {
    for bytes in [&b""[..], b"\n", b"\r\n\n\r", b"\xef\xbb\xbf", b"\xef\xbb\xbf\r\n\n"] {
        assert!(quadrille::records::is_blank(bytes, b','), "{bytes:?}");
    }
    for bytes in [&b" "[..], b"\n,", b"\"\"", b"\n\xff", b"\n\xef\xbb\xbf"] {
        assert!(!quadrille::records::is_blank(bytes, b','), "{bytes:?}");
    }
}
