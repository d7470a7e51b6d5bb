use tcpdiag::addr::{bytes_eq, parse_addr, push_addr, push_hex, AF_INET, AF_INET6};
use tcpdiag::desc::{copy, cprint, fieldnamelen, post_process, splitarr, Desc, Fields, Writer};
use tcpdiag::netlink::{
    build_request, families, read_reply, request_as, IpAddrUnspec, NetlinkArgs, NlmsgIter,
    ReplyError,
};
use tcpdiag::record::NlattrIter;
use tcpdiag::text::{parse_dec, push_dec};
use tcpdiag::timespec::{add_nanos, PaceAction, Pacer, Timespec};
use tcpdiag::wire::{push_le, read_le, NlU64, Wscale, WscaleExp, U16BE, U64NE};

fn addr_text(family: u8, a: &[u8]) -> String {
    let mut out = Vec::new();
    push_addr(&mut out, family, a);
    String::from_utf8(out).unwrap()
}

fn v6(groups: [u16; 8]) -> Vec<u8> {
    groups.iter().flat_map(|g| g.to_be_bytes()).collect()
}

fn args() -> NetlinkArgs {
    NetlinkArgs {
        inet4: false,
        inet6: false,
        sport: 0,
        dport: 0,
        all_states: false,
        all_extensions: false,
        period_ns: None,
        count: None,
    }
}

fn atom_struct(names: &[&'static str]) -> Desc {
    let mut f = Fields::End;
    for n in names.iter().rev() {
        f = Fields::Field(*n, Box::new(Desc::Atom), Box::new(f));
    }
    Desc::Struct(Box::new(f))
}

#[test]
fn decimal_text() {
    let mut out = Vec::new();
    push_dec(&mut out, 0);
    out.push(b' ');
    push_dec(&mut out, u64::MAX);
    assert_eq!(out, b"0 18446744073709551615".to_vec());
    assert_eq!(parse_dec(b"18446744073709551615"), Some(u64::MAX));
    assert_eq!(parse_dec(b"18446744073709551616"), None);
    assert_eq!(parse_dec(b"12a"), None);
    assert_eq!(parse_dec(b""), None);
    assert_eq!(parse_dec(b"007"), Some(7));
}

#[test]
fn hex_text() {
    let mut out = Vec::new();
    push_hex(&mut out, 0xdb8);
    assert_eq!(out, b"db8".to_vec());
}

#[test]
fn address_text() {
    let mut a = vec![0u8; 16];
    a[..4].copy_from_slice(&[192, 168, 0, 1]);
    assert_eq!(addr_text(AF_INET, &a), "192.168.0.1");
    assert_eq!(addr_text(AF_INET6, &[0u8; 16]), "::");
    assert_eq!(addr_text(AF_INET6, &v6([0x2001, 0xdb8, 0, 0, 0, 0, 0, 1])), "2001:db8::1");
    assert_eq!(addr_text(AF_INET6, &v6([0, 0, 0, 0, 0, 0, 0, 1])), "::1");
    assert_eq!(addr_text(AF_INET6, &v6([1, 0, 0, 2, 0, 0, 0, 3])), "1:0:0:2::3");
    assert_eq!(addr_text(AF_INET6, &v6([1, 0, 2, 3, 4, 5, 6, 7])), "1:0:2:3:4:5:6:7");
    assert_eq!(addr_text(AF_INET6, &v6([0, 0, 0, 0, 0, 0xffff, 0x0102, 0x0304])), "::ffff:1.2.3.4");
    assert_eq!(addr_text(AF_INET6, &v6([0xfe80, 0, 0, 0, 0, 0, 0, 0])), "fe80::");
}

#[test]
fn address_parse() {
    for (family, a) in [
        (AF_INET6, v6([0x2001, 0xdb8, 0, 0, 0, 0, 0, 1])),
        (AF_INET6, v6([0, 0, 0, 0, 0, 0xffff, 0x0102, 0x0304])),
        (AF_INET6, v6([1, 0, 0, 2, 0, 0, 0, 3])),
        (AF_INET6, vec![0u8; 16]),
        (AF_INET, {
            let mut v = vec![0u8; 16];
            v[..4].copy_from_slice(&[10, 0, 0, 255]);
            v
        }),
    ] {
        let text = addr_text(family, &a);
        assert_eq!(parse_addr(text.as_bytes(), family), Some(a));
    }
    assert_eq!(parse_addr(b"1.2.3", AF_INET), None);
    assert_eq!(parse_addr(b"1.2.3.256", AF_INET), None);
    assert_eq!(parse_addr(b"2001:DB8::1", AF_INET6), None);
    assert_eq!(parse_addr(b"1::2::3", AF_INET6), None);
    assert!(bytes_eq(b"ab", b"ab"));
    assert!(!bytes_eq(b"ab", b"abc"));
}

#[test]
fn ip_addr_unspec() {
    let a = IpAddrUnspec::from_ipv4([127, 0, 0, 1]);
    assert_eq!(&a.octets[..4], &[127, 0, 0, 1]);
    assert_eq!(a.write(AF_INET), b"127.0.0.1".to_vec());
    assert_eq!(IpAddrUnspec::read(b"127.0.0.1", AF_INET), Some(a));
}

#[test]
fn wire_integers() {
    assert_eq!(U16BE::new(443).bytes, [1, 187]);
    assert_eq!(U16BE { bytes: [0xd4, 0x31] }.get(), 54321);
    assert_eq!(U64NE::new(5).get(), 5);
    let n = NlU64::new(0x1122_3344_5566_7788);
    assert_eq!((n.lo, n.hi), (0x5566_7788, 0x1122_3344));
    assert_eq!(n.get(), 0x1122_3344_5566_7788);
    let w = Wscale { raw: 0x97 };
    assert_eq!(w.get(), WscaleExp { snd: 7, rcv: 9 });
    assert_eq!(Wscale::new(WscaleExp { snd: 7, rcv: 9 }).raw, 0x97);
    let mut out = Vec::new();
    push_le(&mut out, 0x0102_0304, 4);
    assert_eq!(out, vec![4, 3, 2, 1]);
    assert_eq!(read_le(&out, 1, 3), 0x010203);
}

#[test]
fn descriptor_columns_and_header() {
    let d = Desc::Struct(Box::new(Fields::Field(
        "a",
        Box::new(Desc::Array(3, Box::new(Desc::Atom))),
        Box::new(Fields::Field(
            "",
            Box::new(Desc::Option(Box::new(atom_struct(&["x", "y"])))),
            Box::new(Fields::End),
        )),
    )));
    assert_eq!(d.len(), 5);
    assert!(!d.is_empty());
    assert!(atom_struct(&[]).is_empty());
    let mut w = Writer::new();
    cprint(&mut w, b"", &d);
    assert_eq!(w.get_str(), b"a.0 a.1 a.2 x y ");
    assert_eq!(d.desc_size(), 16);
    let mut w = Writer::new();
    cprint(&mut w, b"p", &Desc::Atom);
    assert_eq!(w.get_str(), b"p ");
}

#[test]
fn writer_and_buffers() {
    let mut w = Writer::new();
    w.extend(b"n");
    w.num(120);
    w.num(0);
    assert_eq!(w.get_str(), b"n1200");
    let mut dst = vec![0u8; 6];
    copy(b"abc", &mut dst, 2);
    assert_eq!(dst, b"\0\0abc\0".to_vec());
    assert_eq!(post_process(b"abc\0\0"), b"abc");
    assert_eq!(post_process(b"\0"), b"");
    assert_eq!(fieldnamelen(b"x.", &vec!["ab", "c"]), 7);
    assert_eq!(splitarr(&[2, 2, 5], b"abcde"), vec![b"ab".to_vec(), vec![], b"cde".to_vec()]);
}

#[test]
fn extension_mask() {
    assert_eq!(request_as(2), 2);
    assert_eq!(request_as(4), 8);
    assert_eq!(request_as(16), 4);
    assert_eq!(request_as(1), 1);
}

#[test]
fn dump_request() {
    let mut a = args();
    assert_eq!(families(&a), vec![2, 10]);
    a.inet6 = true;
    assert_eq!(families(&a), vec![10]);
    a.inet4 = true;
    assert_eq!(families(&a), vec![2]);
    a.sport = 443;
    let r = build_request(&a, 2).to_bytes();
    assert_eq!(r.len(), 72);
    assert_eq!(&r[..8], &[72, 0, 0, 0, 20, 0, 0x01, 0x03]);
    assert_eq!(&r[16..24], &[2, 6, 14, 0, 2, 0, 0, 0]);
    assert_eq!(&r[24..28], &[1, 187, 0, 0]);
    a.all_states = true;
    a.all_extensions = true;
    let r = build_request(&a, 10).to_bytes();
    assert_eq!(&r[16..24], &[10, 6, 0xff, 0, 0xff, 0xff, 0xff, 0xff]);
}

fn msg(ty: u16, payload: &[u8]) -> Vec<u8> {
    let mut v = Vec::new();
    v.extend_from_slice(&((16 + payload.len()) as u32).to_le_bytes());
    v.extend_from_slice(&ty.to_le_bytes());
    v.extend_from_slice(&[0u8; 10]);
    v.extend_from_slice(payload);
    v
}

#[test]
fn dump_reply() {
    let mut buf = msg(20, &[1, 2, 3]);
    buf.extend(msg(21, &[9]));
    buf.extend(msg(20, &[4]));
    let (recs, done) = read_reply(&buf).unwrap();
    assert_eq!(recs, vec![vec![1, 2, 3], vec![4]]);
    assert!(!done);
    buf.extend(msg(3, &[0, 0, 0, 0]));
    buf.extend(msg(20, &[5]));
    let (recs, done) = read_reply(&buf).unwrap();
    assert_eq!(recs.len(), 2);
    assert!(done);
    let (recs, done) = read_reply(&msg(2, &[])).unwrap();
    assert!(recs.is_empty() && done);
    assert_eq!(read_reply(&[1, 2, 3]).err(), Some(ReplyError::BadMessage));
    let mut it = NlmsgIter::new(&buf[..19]);
    assert!(matches!(it.next(), Ok(Some((h, p))) if h.nlmsg_type == 20 && h.nlmsg_len == 19 && p == [1, 2, 3]));
    assert!(matches!(it.next(), Ok(None)));
}

#[test]
fn attribute_walk() {
    let bytes = [6u8, 0, 4, 0, b'a', 0, 0, 0, 5, 0, 2, 0, 7, 0, 0, 0];
    let mut it = NlattrIter::new(&bytes);
    let a = it.next().unwrap().unwrap();
    assert_eq!((a.hdr.nla_len, a.hdr.nla_type, a.data), (6, 4, &b"a\0"[..]));
    let b = it.next().unwrap().unwrap();
    assert_eq!((b.hdr.nla_len, b.hdr.nla_type, b.data), (5, 2, &[7u8][..]));
    assert!(it.next().unwrap().is_none());
    let mut bad = NlattrIter::new(&[9u8, 0, 4, 0, 1, 2, 3, 4]);
    assert!(bad.next().is_err());
}

#[test]
fn timespec_arithmetic() {
    let mut n: i64 = 999_999_999;
    assert!(add_nanos(&mut n, 2));
    assert_eq!(n, 1);
    let mut t = Timespec { tv_sec: 5, tv_nsec: 800_000_000 };
    t.add_assign(1, 300_000_000);
    assert_eq!(t, Timespec { tv_sec: 7, tv_nsec: 100_000_000 });
}

#[test]
fn pacing_grid() {
    let t0 = Timespec { tv_sec: 100, tv_nsec: 900_000_000 };
    let mut p = Pacer::new(t0, Some(4), Some((0, 250_000_000)));
    let mut deadlines = Vec::new();
    loop {
        match p.after_sweep() {
            PaceAction::SleepUntil(t) => deadlines.push(t),
            PaceAction::Stop => break,
        }
    }
    assert_eq!(
        deadlines,
        vec![
            Timespec { tv_sec: 101, tv_nsec: 150_000_000 },
            Timespec { tv_sec: 101, tv_nsec: 400_000_000 },
            Timespec { tv_sec: 101, tv_nsec: 650_000_000 },
        ]
    );
    let mut once = Pacer::new(t0, None, None);
    assert_eq!(once.after_sweep(), PaceAction::Stop);
    let mut open = Pacer::new(t0, None, Some((2, 0)));
    for k in 1..=10 {
        assert_eq!(open.after_sweep(), PaceAction::SleepUntil(Timespec { tv_sec: 100 + 2 * k, tv_nsec: 900_000_000 }));
    }
}
