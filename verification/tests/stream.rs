use filmliste::{Date, Error, Item, Parser, Time};
use std::io::Write;

fn record(n: usize) -> String {
    format!(
        "[\"channel {n}\",\"topic\",\"title {n}\",\"{}.{}.2000\",\"10:00:{:02}\",\"\",0,\"desc ],\\\"X\\\":[ {n}\",\"foo://bar/{n}.mp4\",\"site.example\",0,0,\"{}\",0,\"10|large/{n}.mp4\",0,0,0,0,0]",
        n % 28 + 1,
        n % 12 + 1,
        n % 60,
        if n % 2 == 0 { "" } else { "/small.mp4" },
    )
}

fn expected(n: usize) -> Item {
    Item {
        channel: format!("channel {n}"),
        topic: "topic".to_owned(),
        title: format!("title {n}"),
        date: Date { year: 2000, month: (n % 12 + 1) as u32, day: (n % 28 + 1) as u32 },
        time: Time { hour: 10, minute: 0, second: (n % 60) as u32 },
        duration: Time { hour: 0, minute: 0, second: 0 },
        description: format!("desc ],\"X\":[ {n}"),
        website: "site.example".to_owned(),
        url: format!("foo://bar/{n}.mp4"),
        url_small: if n % 2 == 0 { None } else { Some(format!("foo://bar/{n}.mp4/small.mp4")) },
        url_large: Some(format!("foo://bar/large/{n}.mp4")),
    }
}

fn document(records: usize) -> Vec<u8> {
    let mut text = String::from("{\"Filmliste\":[\"a\",\"b\"]");
    for n in 0..records {
        text.push_str(",\"X\":");
        text.push_str(&record(n));
    }
    text.push('}');
    text.into_bytes()
}

fn compress(bytes: &[u8]) -> Vec<u8> {
    let mut encoder = xz2::write::XzEncoder::new(Vec::new(), 6);
    encoder.write_all(bytes).unwrap();
    encoder.finish().unwrap()
}

fn feed(pieces: &[&[u8]]) -> (Vec<Item>, Result<(), Error>) {
    let mut parser = Parser::new();
    let mut out = Vec::new();
    for piece in pieces {
        if let Err(e) = parser.parse(piece, &mut out) {
            return (out, Err(e));
        }
    }
    let result = parser.finish(&mut out);
    (out, result)
}

#[test]
fn end_to_end_one_record() {
    let plain = b"{\"Filmliste\":[1],\"X\":[\"A\",\"B\",\"C\",\"1.1.2000\",\"10:00:00\",\"00:30:00\",0,\"desc\",\"\",\"site.example\",0,0,\"\",0,\"\",0,0,0,0,0]}";
    let (items, result) = feed(&[&compress(plain)]);
    assert_eq!(Ok(()), result);
    assert_eq!(
        vec![Item {
            channel: "A".to_owned(),
            topic: "B".to_owned(),
            title: "C".to_owned(),
            date: Date { year: 2000, month: 1, day: 1 },
            time: Time { hour: 10, minute: 0, second: 0 },
            duration: Time { hour: 0, minute: 30, second: 0 },
            description: "desc".to_owned(),
            website: "site.example".to_owned(),
            url: String::new(),
            url_small: None,
            url_large: None,
        }],
        items
    );
}

#[test]
fn end_to_end_with_fifteen_fields_fails_on_the_shape() {
    let plain = b"{\"Filmliste\":[1],\"X\":[\"A\",\"B\",\"C\",\"1.1.2000\",\"10:00:00\",\"00:30:00\",0,\"desc\",0,\"site.example\",0,0,\"\",0,\"\"]}";
    let (items, result) = feed(&[&compress(plain)]);
    assert_eq!(Err(Error::FieldShape), result);
    assert!(items.is_empty());
}

#[test]
fn end_to_end_with_a_number_for_the_url_fails_on_the_field() {
    let plain = b"{\"Filmliste\":[1],\"X\":[\"A\",\"B\",\"C\",\"1.1.2000\",\"10:00:00\",\"00:30:00\",0,\"desc\",0,\"site.example\",0,0,\"\",0,\"\",0,0,0,0,0]}";
    let (items, result) = feed(&[&compress(plain)]);
    assert_eq!(Err(Error::FieldDecode), result);
    assert!(items.is_empty());
}

#[test]
fn whole_document_in_one_piece() {
    let compressed = compress(&document(5));
    let (items, result) = feed(&[&compressed]);
    assert_eq!(Ok(()), result);
    assert_eq!((0..5).map(expected).collect::<Vec<_>>(), items);
}

#[test]
fn one_byte_at_a_time_emits_the_same() {
    let compressed = compress(&document(5));
    let whole = feed(&[&compressed]);
    let pieces: Vec<&[u8]> = compressed.chunks(1).collect();
    assert_eq!(whole, feed(&pieces));
    assert_eq!(5, whole.0.len());
}

#[test]
fn every_split_in_two_emits_the_same() {
    let compressed = compress(&document(3));
    let whole = feed(&[&compressed]);
    assert_eq!(Ok(()), whole.1);
    for cut in 0..=compressed.len() {
        let (first, second) = compressed.split_at(cut);
        assert_eq!(whole, feed(&[first, second]));
    }
}

#[test]
fn pieces_of_every_size_emit_the_same() {
    let compressed = compress(&document(40));
    let whole = feed(&[&compressed]);
    assert_eq!(Ok(()), whole.1);
    assert_eq!((0..40).map(expected).collect::<Vec<_>>(), whole.0);
    for size in [2, 3, 7, 64, 1000] {
        let pieces: Vec<&[u8]> = compressed.chunks(size).collect();
        assert_eq!(whole, feed(&pieces));
    }
}

#[test]
fn items_come_before_the_document_ends() {
    // Incompressible text, so that the decompressor has to hand out bytes
    // long before the stream ends.
    let mut state: u32 = 12345;
    let mut text = String::from("{\"Filmliste\":[1]");
    for n in 0..400 {
        let noise: String = (0..300)
            .map(|_| {
                state = state.wrapping_mul(1664525).wrapping_add(1013904223);
                char::from(b'a' + (state >> 24) as u8 % 26)
            })
            .collect();
        text.push_str(",\"X\":");
        text.push_str(&record(n).replace("topic", &noise));
    }
    text.push('}');
    let compressed = compress(text.as_bytes());
    let mut parser = Parser::new();
    let mut out = Vec::new();
    let mut most_retained = 0;
    let mut emitted_early = 0;
    for piece in compressed.chunks(4096) {
        assert_eq!(Ok(()), parser.parse(piece, &mut out));
        most_retained = most_retained.max(parser.retained());
        emitted_early = out.len();
    }
    assert!(emitted_early > 200);
    // What is kept is a part of a record and what one piece decodes to, not
    // the document.
    assert!(most_retained < text.len() / 2);
    assert_eq!(Ok(()), parser.finish(&mut out));
    assert_eq!(400, out.len());
    assert_eq!("channel 399", out[399].channel);
}

#[test]
fn nothing_is_retained_of_consumed_records() {
    let plain = document(3);
    let compressed = compress(&plain);
    let mut parser = Parser::new();
    let mut out = Vec::new();
    assert_eq!(0, parser.retained());
    for piece in compressed.chunks(16) {
        assert_eq!(Ok(()), parser.parse(piece, &mut out));
        // The bytes kept are never more than what follows the records read.
        let consumed: usize = "{\"Filmliste\":[\"a\",\"b\"],".len()
            + (0..out.len()).map(|n| "\"X\":".len() + record(n).len() + 1).sum::<usize>();
        assert!(parser.retained() <= plain.len().saturating_sub(consumed));
    }
    assert_eq!(Ok(()), parser.finish(&mut out));
    assert_eq!(3, out.len());
}

#[test]
fn finish_without_terminator_is_malformed() {
    let mut plain = document(3);
    plain.pop();
    let (items, result) = feed(&[&compress(&plain)]);
    assert_eq!(Err(Error::MalformedEnvelope), result);
    assert_eq!(vec![expected(0), expected(1)], items);
}

#[test]
fn finish_with_garbage_behind_the_last_record_is_malformed() {
    let mut plain = document(2);
    plain.extend_from_slice(b"garbage");
    let (items, result) = feed(&[&compress(&plain)]);
    assert_eq!(Err(Error::MalformedEnvelope), result);
    assert_eq!(vec![expected(0)], items);
}

#[test]
fn finish_of_an_empty_document_is_malformed() {
    let (items, result) = feed(&[&compress(b"")]);
    assert_eq!(Err(Error::MalformedEnvelope), result);
    assert!(items.is_empty());
    let (items, result) = feed(&[&compress(b"{\"Filmliste\":[1,2,3]}")]);
    assert_eq!(Err(Error::MalformedEnvelope), result);
    assert!(items.is_empty());
}

#[test]
fn header_only_at_finish_is_still_read() {
    // A small document leaves the decompressor only when it is finished.
    let compressed = compress(&document(1));
    let mut parser = Parser::new();
    let mut out = Vec::new();
    assert_eq!(Ok(()), parser.parse(&compressed, &mut out));
    assert_eq!(Ok(()), parser.finish(&mut out));
    assert_eq!(vec![expected(0)], out);
}

#[test]
fn wrong_header_is_malformed() {
    let mut plain = document(2);
    plain[2] = b'f';
    let (items, result) = feed(&[&compress(&plain)]);
    assert_eq!(Err(Error::MalformedEnvelope), result);
    assert!(items.is_empty());
}

#[test]
fn bad_record_ends_the_parse_after_the_good_ones() {
    let mut text = String::from("{\"Filmliste\":[1]");
    for n in 0..4 {
        text.push_str(",\"X\":");
        if n == 2 {
            text.push_str(&record(n).replace("10:00:02", "10:00"));
        } else {
            text.push_str(&record(n));
        }
    }
    text.push('}');
    let (items, result) = feed(&[&compress(text.as_bytes())]);
    assert_eq!(Err(Error::NumericParse), result);
    assert_eq!(vec![expected(0), expected(1)], items);
}

#[test]
fn corrupt_stream_is_a_decompression_error() {
    let mut parser = Parser::new();
    let mut out = Vec::new();
    assert_eq!(
        Err(Error::Decompression),
        parser.parse(b"this is no xz stream at all", &mut out)
    );
    assert!(out.is_empty());
}

#[test]
fn truncated_stream_is_a_decompression_error() {
    let compressed = compress(&document(3));
    let (items, result) = feed(&[&compressed[..compressed.len() - 8]]);
    assert_eq!(Err(Error::Decompression), result);
    assert!(items.is_empty());
    let (_, result) = feed(&[]);
    assert_eq!(Err(Error::Decompression), result);
}

#[test]
fn bytes_behind_the_stream_are_a_decompression_error() {
    let mut compressed = compress(&document(3));
    compressed.extend_from_slice(b"more");
    let (_, result) = feed(&[&compressed]);
    assert_eq!(Err(Error::Decompression), result);
}
