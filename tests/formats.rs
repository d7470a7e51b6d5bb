use tcpdiag::binary::{read_binary, BinaryError, BinaryOutput};
use tcpdiag::csv::{csv_header, read_csv, CsvError, CsvOutput};
use tcpdiag::json::JsonOutput;
use tcpdiag::layout::{base_leaves, bbr3_leaves, bbr_leaves, tcp_info_leaves, Leaf};
use tcpdiag::record::{InetDiagMsgExtra, ParseError};
use tcpdiag::sink::{detect_format, Collector, Event, InputFormat, SinkError};

/// Hands each event to a sink, in order, and collects what it writes.
fn replay<C: Collector>(events: &[Event], sink: &mut C) -> Result<Vec<u8>, SinkError> {
    let mut out = Vec::new();
    for e in events {
        match e {
            Event::Start(t) => sink.start(*t),
            Event::Sample(d) => sink.out(d)?,
            Event::End(d) => sink.end(*d)?,
        }
        out.extend(sink.take_output());
    }
    Ok(out)
}

const T: u64 = 1_700_000_000_123_456;
const D: u64 = 1234;

/// The base message of an IPv6 socket 443 -> 54321, established, zero addresses.
fn base_v6() -> Vec<u8> {
    let mut b = vec![0u8; 72];
    b[0] = 10;
    b[1] = 1;
    b[4..6].copy_from_slice(&443u16.to_be_bytes());
    b[6..8].copy_from_slice(&54321u16.to_be_bytes());
    b
}

fn attr(ty: u16, payload: &[u8]) -> Vec<u8> {
    let mut v = Vec::new();
    v.extend_from_slice(&((4 + payload.len()) as u16).to_le_bytes());
    v.extend_from_slice(&ty.to_le_bytes());
    v.extend_from_slice(payload);
    while v.len() % 4 != 0 {
        v.push(0);
    }
    v
}

/// One sample: the base, `cubic` as congestion name and a 104-byte TCP info block.
fn sample_cubic() -> Vec<u8> {
    let mut d = base_v6();
    d.extend(attr(4, b"cubic\0"));
    d.extend(attr(2, &[0u8; 104]));
    d
}

fn binary_stream(samples: &[Vec<u8>]) -> Vec<u8> {
    let mut b = BinaryOutput::new();
    b.start(T);
    for s in samples {
        b.out(s).unwrap();
    }
    b.end(D).unwrap();
    b.take_output()
}

fn names(l: &[Leaf]) -> Vec<String> {
    let mut out = Vec::new();
    let mut group: Option<&str> = None;
    for leaf in l {
        if let Some(g) = leaf.opens {
            group = Some(g);
        }
        match group {
            Some(g) => out.push(format!("{}.{}", g, leaf.name)),
            None => out.push(leaf.name.to_string()),
        }
        if leaf.closes {
            group = None;
        }
    }
    out
}

fn expected_header() -> String {
    let mut cols = vec!["time".to_string()];
    for (prefix, l) in [
        ("base", base_leaves()),
        ("tcp_info", tcp_info_leaves()),
        ("bbr", bbr_leaves()),
        ("bbr3", bbr3_leaves()),
    ] {
        for n in names(&l) {
            cols.push(format!("{}.{}", prefix, n));
        }
        if prefix == "base" {
            cols.push("cong".to_string());
        }
    }
    cols.push("duration".to_string());
    cols.join(" ")
}

fn header_cols() -> Vec<String> {
    String::from_utf8(csv_header()).unwrap().split(' ').map(|s| s.to_string()).collect()
}

fn zeros_object(l: &[Leaf]) -> String {
    let mut s = String::from("{");
    for (i, leaf) in l.iter().enumerate() {
        if i > 0 {
            s.push(',');
        }
        if let Some(g) = leaf.opens {
            s.push_str(&format!("\"{}\":{{", g));
        }
        s.push_str(&format!("\"{}\":0", leaf.name));
        if leaf.closes {
            s.push('}');
        }
    }
    s.push('}');
    s
}

#[test]
fn binary_to_json_one_sample() {
    let stream = binary_stream(&[sample_cubic()]);
    let events = read_binary(&stream).0;
    let mut j = JsonOutput::new();
    let out = String::from_utf8(replay(&events, &mut j).unwrap()).unwrap();
    let base = "{\"family\":10,\"state\":1,\"timer\":0,\"retrans\":0,\"id\":{\"sport\":443,\"dport\":54321,\"src\":\"::\",\"dst\":\"::\",\"ifindex\":0,\"cookie\":0},\"expires\":0,\"rqueue\":0,\"wqueue\":0,\"uid\":0,\"inode\":0}";
    let expected = format!(
        "{{\"time\":{},\"samples\":[{{\"base\":{},\"cong\":\"cubic\",\"tcp_info\":{}}}],\"duration\":{}}}\n",
        T,
        base,
        zeros_object(&tcp_info_leaves()),
        D
    );
    assert_eq!(out, expected);
}

#[test]
fn json_sink_output_is_valid_json() {
    let events = read_binary(&binary_stream(&[sample_cubic(), sample_cubic()])).0;
    let mut j = JsonOutput::new();
    let out = String::from_utf8(replay(&events, &mut j).unwrap()).unwrap();
    let v: serde_json::Value = serde_json::from_str(out.trim_end()).unwrap();
    assert_eq!(v["time"].as_u64(), Some(T));
    assert_eq!(v["samples"].as_array().unwrap().len(), 2);
    assert_eq!(v["samples"][1]["base"]["id"]["dport"].as_u64(), Some(54321));
    assert_eq!(v["duration"].as_u64(), Some(D));
}

#[test]
fn json_to_tabular_row() {
    let events = vec![Event::Start(T), Event::Sample(sample_cubic()), Event::End(D)];
    let mut c = CsvOutput::new();
    let out = String::from_utf8(replay(&events, &mut c).unwrap()).unwrap();
    let lines: Vec<&str> = out.lines().collect();
    assert_eq!(lines.len(), 2);
    assert_eq!(lines[0], String::from_utf8(csv_header()).unwrap());
    let cols = header_cols();
    let row: Vec<&str> = lines[1].split(' ').collect();
    assert_eq!(row.len(), cols.len());
    for (name, cell) in cols.iter().zip(row.iter()) {
        if name == "time" {
            assert_eq!(*cell, T.to_string());
        } else if name == "cong" {
            assert_eq!(*cell, "cubic");
        } else if name.starts_with("tcp_info.") {
            assert_eq!(*cell, "0", "{}", name);
        } else if name.starts_with("bbr.") || name.starts_with("bbr3.") {
            assert_eq!(*cell, "_", "{}", name);
        } else if name == "duration" {
            assert_eq!(*cell, D.to_string());
        } else if name == "base.id.src" || name == "base.id.dst" {
            assert_eq!(*cell, "::");
        }
    }
}

#[test]
fn tabular_without_bbr3_columns_to_binary() {
    let cols = header_cols();
    let kept: Vec<usize> = (0..cols.len()).filter(|&i| !cols[i].starts_with("bbr3.")).collect();
    let mut d = sample_cubic();
    let mut bbr = vec![0u8; 20];
    bbr[8] = 7;
    d.extend(attr(16, &bbr));
    let mut c = CsvOutput::new();
    c.start(T);
    c.out(&d).unwrap();
    c.end(D).unwrap();
    let text = String::from_utf8(c.take_output()).unwrap();
    let row: Vec<&str> = text.lines().nth(1).unwrap().split(' ').collect();
    let header: Vec<&str> = kept.iter().map(|&i| cols[i].as_str()).collect();
    let cells: Vec<&str> = kept.iter().map(|&i| row[i]).collect();
    let input = format!("# a comment\n{}\n{}\n", header.join(" "), cells.join(" "));
    let events = read_csv(input.as_bytes()).unwrap();
    assert_eq!(events.len(), 3);
    let mut b = BinaryOutput::new();
    let bin = replay(&events, &mut b).unwrap();
    let back = read_binary(&bin).0;
    match &back[1] {
        Event::Sample(s) => {
            let e = InetDiagMsgExtra::parse(s);
            assert!(e.bbr.is_some());
            assert!(e.bbr3.is_none());
            assert_eq!(e.bbr.as_ref().unwrap().raw[8], 7);
            let tail = &s[s.len() - 24..];
            assert_eq!(u16::from_le_bytes([tail[0], tail[1]]), 24);
            assert_eq!(u16::from_le_bytes([tail[2], tail[3]]), 16);
        }
        _ => panic!("expected a sample"),
    }
}

#[test]
fn tabular_sweep_without_samples() {
    let mut c = CsvOutput::new();
    let _ = c.take_output();
    c.start(T);
    c.end(D).unwrap();
    let out = String::from_utf8(c.take_output()).unwrap();
    let cols = header_cols();
    let mut expected = vec![T.to_string()];
    for _ in 0..cols.len() - 2 {
        expected.push("_".to_string());
    }
    expected.push(D.to_string());
    assert_eq!(out, format!("{}\n", expected.join(" ")));
}

#[test]
fn tabular_rows_of_one_sweep_share_the_duration_column() {
    let mut c = CsvOutput::new();
    let _ = c.take_output();
    c.start(T);
    c.out(&sample_cubic()).unwrap();
    c.out(&sample_cubic()).unwrap();
    c.end(D).unwrap();
    let out = String::from_utf8(c.take_output()).unwrap();
    let rows: Vec<&str> = out.lines().collect();
    assert_eq!(rows.len(), 2);
    assert!(rows[0].ends_with(" _"));
    assert!(rows[1].ends_with(&format!(" {}", D)));
}

#[test]
fn detect_input_formats() {
    assert_eq!(detect_format(b"{\"time\":1}"), InputFormat::Json);
    assert_eq!(detect_format(b"# comment"), InputFormat::Tabular);
    assert_eq!(detect_format(b"time base.family"), InputFormat::Tabular);
    assert_eq!(detect_format(&[0x10, 0x00, 0x01, 0x00, 0, 0]), InputFormat::Binary);
    assert_eq!(detect_format(&[0x00, 0x10, 0x00, 0x01]), InputFormat::ForeignBinary);
    assert_eq!(detect_format(b""), InputFormat::Empty);
    assert_eq!(detect_format(b"?"), InputFormat::Unknown);
}

#[test]
fn header_is_the_depth_first_leaf_list() {
    let h = String::from_utf8(csv_header()).unwrap();
    assert_eq!(h, expected_header());
    assert_eq!(csv_header(), csv_header());
    assert!(h.starts_with("time base.family base.state base.timer base.retrans base.id.sport"));
    assert!(h.contains(" cong tcp_info.state "));
    assert!(h.contains(" tcp_info.wscale.snd tcp_info.wscale.rcv tcp_info.flags "));
    assert!(h.ends_with("bbr3.extra_acked duration"));
}

#[test]
fn tabular_round_trip_is_byte_identical() {
    let mut d = sample_cubic();
    let mut bbr = vec![0u8; 52];
    for (i, b) in bbr.iter_mut().enumerate() {
        *b = i as u8;
    }
    bbr[38] = 0;
    d.extend(attr(16, &bbr));
    let e = InetDiagMsgExtra::parse(&d);
    let canonical = e.to_vec();
    let mut c = CsvOutput::new();
    c.start(T);
    c.out(&canonical).unwrap();
    c.end(D).unwrap();
    let text = c.take_output();
    let events = read_csv(&text).unwrap();
    let mut b = BinaryOutput::new();
    let bin = replay(&events, &mut b).unwrap();
    assert_eq!(bin, binary_stream(&[canonical]));
}

#[test]
fn binary_round_trip() {
    let stream = binary_stream(&[sample_cubic(), base_v6()]);
    let events = read_binary(&stream).0;
    assert_eq!(events.len(), 4);
    let mut b = BinaryOutput::new();
    assert_eq!(replay(&events, &mut b).unwrap(), stream);
}

#[test]
fn binary_frames_have_exact_bytes() {
    let mut b = BinaryOutput::new();
    b.start(1);
    b.end(2).unwrap();
    assert_eq!(b.take_output(), vec![12, 0, 1, 0, 1, 0, 0, 0, 0, 0, 0, 0, 8, 0, 2, 0, 2, 0, 0, 0]);
}

#[test]
fn binary_reader_errors() {
    assert_eq!(read_binary(&[4, 0]).1, Some(BinaryError::Truncated));
    assert_eq!(read_binary(&[2, 0, 0, 0]).1, Some(BinaryError::BadLength));
    assert_eq!(read_binary(&[8, 0, 0, 0, 1]).1, Some(BinaryError::Truncated));
    assert_eq!(read_binary(&[5, 0, 1, 0, 1]).1, Some(BinaryError::BadLength));
    assert_eq!(read_binary(&[4, 0, 9, 0]).1, Some(BinaryError::UnknownType));
    assert_eq!(read_binary(&[]).0.len(), 0);
}

#[test]
fn sink_errors() {
    let mut b = BinaryOutput::new();
    assert_eq!(b.out(&vec![0u8; 70000]), Err(SinkError::TooLong));
    assert_eq!(b.end(1u64 << 32), Err(SinkError::DurationOverflow));
    let mut j = JsonOutput::new();
    assert_eq!(j.out(&[1, 2, 3]), Err(SinkError::BadRecord));
    let mut c = CsvOutput::new();
    assert_eq!(c.out(&[1, 2, 3]), Err(SinkError::BadRecord));
}

#[test]
fn record_parse_errors() {
    assert_eq!(InetDiagMsgExtra::try_parse(&[0u8; 10]).err(), Some(ParseError::Truncated));
    let mut d = base_v6();
    d.extend([40, 0, 2, 0]);
    assert_eq!(InetDiagMsgExtra::try_parse(&d).err(), Some(ParseError::BadAttribute));
    let mut d = base_v6();
    d.extend(attr(4, b"cubic"));
    assert_eq!(InetDiagMsgExtra::try_parse(&d).err(), Some(ParseError::BadCongestion));
    let mut d = base_v6();
    d.extend(attr(4, &[0xff, 0]));
    assert_eq!(InetDiagMsgExtra::try_parse(&d).err(), Some(ParseError::BadCongestion));
}

#[test]
fn record_parse_attachments() {
    let mut d = sample_cubic();
    d.extend(attr(99, &[1, 2, 3]));
    d.extend(attr(16, &[0u8; 10]));
    let e = InetDiagMsgExtra::parse(&d);
    assert_eq!(e.cong.as_deref(), Some(&b"cubic"[..]));
    assert_eq!(e.tcp_info.as_ref().unwrap().raw, vec![0u8; 232]);
    assert!(e.bbr.is_none());
    assert!(e.bbr3.is_none());
    let mut d = base_v6();
    d.extend(attr(16, &[5u8; 60]));
    let e = InetDiagMsgExtra::parse(&d);
    assert_eq!(e.bbr.as_ref().unwrap().raw, vec![5u8; 20]);
    assert_eq!(e.bbr3.as_ref().unwrap().raw, vec![5u8; 32]);
}

#[test]
fn kernel_layout_round_trip() {
    let mut d = sample_cubic();
    d.extend(attr(16, &[3u8; 52]));
    let e = InetDiagMsgExtra::parse(&d);
    let v = e.to_vec();
    let e2 = InetDiagMsgExtra::parse(&v);
    assert_eq!(e2.to_vec(), v);
    assert_eq!(e2.cong, e.cong);
    assert_eq!(e2.bbr3.unwrap().raw, vec![3u8; 32]);
}

#[test]
fn attributes_are_padded_but_report_unpadded_length() {
    let mut d = base_v6();
    d.extend(attr(4, b"bbr\0"));
    let e = InetDiagMsgExtra::parse(&d);
    let v = e.to_vec();
    assert_eq!(v.len(), 72 + 8);
    assert_eq!(&v[72..], &[8, 0, 4, 0, b'b', b'b', b'r', 0]);
    let mut d = base_v6();
    d.extend(attr(4, b"cubic\0"));
    let v = InetDiagMsgExtra::parse(&d).to_vec();
    assert_eq!(v.len(), 72 + 12);
    assert_eq!(&v[72..76], &[10, 0, 4, 0]);
    assert_eq!(&v[82..84], &[0, 0]);
}

#[test]
fn tabular_reader_errors() {
    let h = String::from_utf8(csv_header()).unwrap();
    let bad = format!("{}\n1 2 3\n", h);
    assert_eq!(read_csv(bad.as_bytes()).err(), Some(CsvError::BadLine));
    let cols = header_cols();
    let mut d = sample_cubic();
    d.extend(attr(16, &[1u8; 52]));
    let mut c = CsvOutput::new();
    c.start(T);
    c.out(&d).unwrap();
    c.end(D).unwrap();
    let text = String::from_utf8(c.take_output()).unwrap();
    let mut row: Vec<String> = text.lines().nth(1).unwrap().split(' ').map(|s| s.to_string()).collect();
    for (i, n) in cols.iter().enumerate() {
        if n.starts_with("bbr.") {
            row[i] = "_".to_string();
        }
    }
    let input = format!("{}\n{}\n", h, row.join(" "));
    assert_eq!(read_csv(input.as_bytes()).err(), Some(CsvError::BadRecord));
    assert_eq!(read_csv(b"").unwrap().len(), 0);
}

#[test]
fn tabular_reader_sweeps() {
    let mut c = CsvOutput::new();
    c.start(T);
    c.out(&sample_cubic()).unwrap();
    c.out(&sample_cubic()).unwrap();
    c.end(D).unwrap();
    c.start(T + 1);
    c.end(7).unwrap();
    let text = c.take_output();
    let events = read_csv(&text).unwrap();
    assert_eq!(events.len(), 6);
    assert!(matches!(events[0], Event::Start(t) if t == T));
    assert!(matches!(events[1], Event::Sample(_)));
    assert!(matches!(events[2], Event::Sample(_)));
    assert!(matches!(events[3], Event::End(d) if d == D));
    assert!(matches!(events[4], Event::Start(t) if t == T + 1));
    assert!(matches!(events[5], Event::End(7)));
}

#[test]
fn tabular_reader_ends_an_open_sweep_at_a_new_time() {
    let mut c = CsvOutput::new();
    c.start(5);
    c.out(&sample_cubic()).unwrap();
    let mut text = c.take_output();
    text.extend(b" _\n");
    let mut c2 = CsvOutput::new();
    let _ = c2.take_output();
    c2.start(9);
    c2.end(3).unwrap();
    text.extend(c2.take_output());
    let events = read_csv(&text).unwrap();
    assert_eq!(events.len(), 5);
    assert!(matches!(events[0], Event::Start(5)));
    assert!(matches!(events[1], Event::Sample(_)));
    assert!(matches!(events[2], Event::End(0)));
    assert!(matches!(events[3], Event::Start(9)));
    assert!(matches!(events[4], Event::End(3)));
}

#[test]
fn tabular_comment_header_and_empty_sweep() {
    let h = String::from_utf8(csv_header()).unwrap();
    let n = header_cols().len() - 2;
    let input = format!("# c\n{}\n5 {} 7\n", h, vec!["_"; n].join(" "));
    let events = read_csv(input.as_bytes()).unwrap();
    assert_eq!(events.len(), 2);
    assert!(matches!(events[0], Event::Start(5)));
    assert!(matches!(events[1], Event::End(7)));
}

#[test]
fn binary_reader_keeps_events_before_a_bad_record() {
    let mut stream = binary_stream(&[sample_cubic()]);
    stream.extend([4, 0, 9, 0]);
    let (events, error) = read_binary(&stream);
    assert_eq!(events.len(), 3);
    assert_eq!(error, Some(BinaryError::UnknownType));
    assert_eq!(tcpdiag::binary::frame_len(&stream[..2]), 12);
}

#[test]
fn sweep_events_frame_the_samples() {
    let evs = tcpdiag::sink::sweep_events(4, &vec![vec![1u8], vec![2u8]], 6);
    assert_eq!(evs.len(), 4);
    assert!(matches!(evs[0], Event::Start(4)));
    assert!(matches!(&evs[2], Event::Sample(d) if d == &vec![2u8]));
    assert!(matches!(evs[3], Event::End(6)));
}

#[test]
fn json_cong_is_escaped() {
    let mut d = base_v6();
    d.extend(attr(4, b"a\"b\0"));
    let mut j = JsonOutput::new();
    j.start(1);
    j.out(&d).unwrap();
    let out = String::from_utf8(j.take_output()).unwrap();
    assert!(out.contains(",\"cong\":\"a\\\"b\""));
}

#[test]
fn row_by_name_fills_missing_columns() {
    let expected = vec![b"time".to_vec(), b"a".to_vec(), b"b".to_vec()];
    let names = vec![b"b".to_vec(), b"time".to_vec()];
    let texts = vec![b"7".to_vec(), b"5".to_vec()];
    let row = tcpdiag::csv::row_by_name(&expected, &names, &texts);
    assert_eq!(row, vec![b"5".to_vec(), b"_".to_vec(), b"7".to_vec()]);
}

#[test]
fn json_sample_reads_back_as_its_record() {
    let mut d = sample_cubic();
    d[0] = 2;
    d[8..12].copy_from_slice(&[10, 1, 2, 3]);
    let e = InetDiagMsgExtra::parse(&d);
    let canonical = e.to_vec();
    let mut j = JsonOutput::new();
    j.start(T);
    j.out(&canonical).unwrap();
    j.end(D).unwrap();
    let text = String::from_utf8(j.take_output()).unwrap();
    assert!(text.contains("\"src\":\"10.1.2.3\""));
    let mut c = CsvOutput::new();
    c.start(T);
    c.out(&canonical).unwrap();
    c.end(D).unwrap();
    let events = read_csv(&c.take_output()).unwrap();
    match &events[1] {
        Event::Sample(s) => assert_eq!(s, &canonical),
        _ => panic!("expected a sample"),
    }
}
