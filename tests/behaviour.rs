use hosts_file::{
    check_alias, minify_lines, DataLine, DataParseError, HostsFile, IpAddr, Ipv4Addr, Ipv6Addr,
    Line, LineReadError,
};

fn record(text: &str) -> DataLine {
    text.parse().unwrap()
}

fn aliases(d: &DataLine) -> Vec<String> {
    d.hosts().clone()
}

#[test]
fn reparsing_written_record_gives_same_record() {
    for text in [
        "127.0.0.1 \t localhost   localhost.localdomain",
        "::1 a b c",
        "fe80::1:0:0:0:2 host",
        "::ffff:10.0.0.1 mapped",
    ] {
        let r = record(text);
        let again = record(&r.to_text());
        assert_eq!(again, r);
    }
}

#[test]
fn record_text_spacing() {
    assert_eq!(record("10.1.2.3 a   b").to_text(), "10.1.2.3  a b");
}

#[test]
fn minify_same_record_twice() {
    let r = record("10.0.0.1 b a b");
    let mut lines = vec![r.clone(), r.clone()];
    minify_lines(&mut lines);
    assert_eq!(lines.len(), 1);
    assert_eq!(lines[0].ip(), r.ip());
    assert_eq!(aliases(&lines[0]), vec!["a", "b"]);
}

#[test]
fn minify_disjoint_aliases() {
    let mut lines = vec![record("10.0.0.1 zeta alpha"), record("10.0.0.1 mid beta")];
    minify_lines(&mut lines);
    assert_eq!(lines.len(), 1);
    assert_eq!(aliases(&lines[0]), vec!["alpha", "beta", "mid", "zeta"]);
}

#[test]
fn minify_orders_addresses_and_keeps_shared_alias() {
    let mut lines = vec![
        record("::1 local"),
        record("10.0.0.2 b"),
        record("10.0.0.1 shared"),
        record("10.0.0.2 shared a"),
    ];
    minify_lines(&mut lines);
    let ips: Vec<IpAddr> = lines.iter().map(|d| d.ip()).collect();
    assert_eq!(
        ips,
        vec![
            IpAddr::V4(Ipv4Addr::new(10, 0, 0, 1)),
            IpAddr::V4(Ipv4Addr::new(10, 0, 0, 2)),
            IpAddr::V6(Ipv6Addr::new(0, 0, 0, 0, 0, 0, 0, 1)),
        ]
    );
    assert_eq!(aliases(&lines[0]), vec!["shared"]);
    assert_eq!(aliases(&lines[1]), vec!["a", "b", "shared"]);
}

#[test]
fn minify_empty() {
    let mut lines: Vec<DataLine> = Vec::new();
    minify_lines(&mut lines);
    assert!(lines.is_empty());
}

#[test]
fn every_forbidden_character_is_reported() {
    for c in ['\0', '\t', '\n', '\r', ' ', '#', '%', '/', ':', '?', '@', '[', '\\', ']'] {
        let token = format!("ab{}c{}", c, '/');
        let expected_first = if c == '/' { '/' } else { c };
        assert_eq!(
            check_alias(&token),
            Err(DataParseError::BadHost(expected_first, token.clone()))
        );
    }
    assert_eq!(check_alias("good-name.example"), Ok(()));
}

#[test]
fn ipv4_alias_is_refused() {
    assert_eq!(
        check_alias("0.0.0.0"),
        Err(DataParseError::HostWasIp(Ipv4Addr::new(0, 0, 0, 0)))
    );
    assert_eq!(
        check_alias("192.168.1.20"),
        Err(DataParseError::HostWasIp(Ipv4Addr::new(192, 168, 1, 20)))
    );
    assert_eq!(check_alias("1.2.3"), Ok(()));
    assert_eq!(check_alias("01.2.3.4"), Ok(()));
}

#[test]
fn first_bad_alias_stops_parsing() {
    let r: Result<DataLine, _> = "10.0.0.1 ok 1.1.1.1 bad/".parse();
    assert_eq!(r, Err(DataParseError::HostWasIp(Ipv4Addr::new(1, 1, 1, 1))));
}

#[test]
fn address_forms() {
    let v6 = |s: &str| match IpAddr::parse(s) {
        Ok(IpAddr::V6(a)) => a,
        other => panic!("not IPv6: {:?}", other),
    };
    assert_eq!(v6("::"), Ipv6Addr::new(0, 0, 0, 0, 0, 0, 0, 0));
    assert_eq!(v6("1::"), Ipv6Addr::new(1, 0, 0, 0, 0, 0, 0, 0));
    assert_eq!(v6("1:2:3:4:5:6:7:8"), Ipv6Addr::new(1, 2, 3, 4, 5, 6, 7, 8));
    assert_eq!(v6("2001:DB8::ff"), Ipv6Addr::new(0x2001, 0xdb8, 0, 0, 0, 0, 0, 0xff));
    assert_eq!(v6("::ffff:1.2.3.4"), Ipv6Addr::new(0, 0, 0, 0, 0, 0xffff, 0x102, 0x304));
    assert_eq!(v6("1:2:3:4:5:6:1.2.3.4"), Ipv6Addr::new(1, 2, 3, 4, 5, 6, 0x102, 0x304));
    for bad in [
        "", ":::", "1:2:3:4:5:6:7:8:9", "12345::", "1::2::3", "1.2.3.4::", "256.0.0.1",
        "01.0.0.1", "1.2.3", "1:2:3:4:5:6:7:1.2.3.4", "::1 ", "localhost",
    ] {
        assert!(IpAddr::parse(bad).is_err(), "accepted {:?}", bad);
    }
}

#[test]
fn address_texts() {
    let text = |s: &str| IpAddr::parse(s).unwrap().to_text();
    assert_eq!(text("127.0.0.1"), "127.0.0.1");
    assert_eq!(text("::1"), "::1");
    assert_eq!(text("::"), "::");
    assert_eq!(text("0:0:0:0:0:ffff:102:304"), "::ffff:1.2.3.4");
    assert_eq!(text("1:0:0:1:0:0:0:1"), "1:0:0:1::1");
    assert_eq!(text("1:0:2:0:3:0:4:0"), "1:0:2:0:3:0:4:0");
    assert_eq!(text("2001:DB8:0:0:1:0:0:1"), "2001:db8::1:0:0:1");
}

#[test]
fn line_texts() {
    let show = |s: &str| s.parse::<Line>().unwrap().to_text();
    assert_eq!(show("   "), "");
    assert_eq!(show("#x"), "# x");
    assert_eq!(show("10.0.0.1 a#  c "), "10.0.0.1  a  # c ");
    assert_eq!(show("10.0.0.1\ta b"), "10.0.0.1  a b");
}

#[test]
fn bad_data_fails_whole_line() {
    let r: Result<Line, _> = "nonsense here # but a comment".parse();
    assert_eq!(r, Err(DataParseError::BadIp(hosts_file::AddrParseError, "nonsense".to_string())));
}

#[test]
fn reading_resumes_after_failures() {
    let raw = vec![
        Ok("10.0.0.1 a".to_string()),
        Err(std::io::Error::new(std::io::ErrorKind::Other, "gone")),
        Ok("bad".to_string()),
        Ok("# only a comment".to_string()),
        Ok("10.0.0.2 b c".to_string()),
    ];
    let mut data = HostsFile::read(raw).data_lines();
    assert!(matches!(data.next(), Some(Ok(_))));
    assert!(matches!(data.next(), Some(Err(LineReadError::Read(_)))));
    assert!(matches!(
        data.next(),
        Some(Err(LineReadError::Parse(DataParseError::NoInternalSpace)))
    ));
    let last = data.next().unwrap().unwrap();
    assert_eq!(last.to_text(), "10.0.0.2  b c");
    assert!(data.next().is_none());
}

#[test]
fn pairs_in_order_with_errors() {
    let raw = vec![
        Ok("10.0.0.1 a b".to_string()),
        Ok("10.0.0.1 ::1".to_string()),
        Ok("".to_string()),
        Ok("10.0.0.2 c".to_string()),
    ];
    let mut pairs = HostsFile::read(raw).pairs();
    let mut seen = Vec::new();
    while let Some(p) = pairs.next() {
        match p {
            Ok((h, ip)) => seen.push(format!("{}={}", h, ip.to_text())),
            Err(e) => seen.push(format!("error: {:?}", e)),
        }
    }
    assert_eq!(
        seen,
        vec![
            "a=10.0.0.1".to_string(),
            "b=10.0.0.1".to_string(),
            "error: Parse(BadHost(':', \"::1\"))".to_string(),
            "c=10.0.0.2".to_string(),
        ]
    );
}

#[test]
fn raw_lines_count_blank_lines() {
    let raw = vec![Ok("".to_string()), Ok("# c".to_string()), Ok("10.0.0.1 a".to_string())];
    let mut lines = HostsFile::read(raw).lines();
    let mut n = 0;
    while let Some(l) = lines.next() {
        l.unwrap();
        n += 1;
    }
    assert_eq!(n, 3);
}

#[test]
fn line_constructors() {
    let d = record("10.0.0.1 a");
    assert_eq!(Line::from_raw(d.clone(), "note").to_text(), "10.0.0.1  a  # note");
    assert_eq!(Line::from_data(d.clone()).to_text(), "10.0.0.1  a");
    assert_eq!(Line::from_comment("note").to_text(), "# note");
    assert_eq!(Line::empty().to_text(), "");
    assert_eq!(Line::from_data(d.clone()).into_data(), Some(d.clone()));
    let pairs = d.into_pairs();
    assert_eq!(pairs, vec![("a".to_string(), IpAddr::V4(Ipv4Addr::new(10, 0, 0, 1)))]);
}

#[test]
fn error_descriptions() {
    assert_eq!(
        DataParseError::NoInternalSpace.description(),
        "line had no space between IP and hosts"
    );
    assert_eq!(
        DataParseError::HostWasIp(Ipv4Addr::new(0, 0, 0, 0)).description(),
        "an IP was given where a domain should have been"
    );
}


#[test]
fn read_error_from_parts() {
    let e: LineReadError = DataParseError::NoInternalSpace.into();
    assert!(matches!(e, LineReadError::Parse(DataParseError::NoInternalSpace)));
    let e: LineReadError = std::io::Error::new(std::io::ErrorKind::Other, "x").into();
    assert!(matches!(e, LineReadError::Read(_)));
}
