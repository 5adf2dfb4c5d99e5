use hosts_file::{DataLine, DataParseError, IpAddr, Ipv4Addr, Ipv6Addr};

#[test]
fn only_ip() {
    let line: Result<DataLine, _> = "   ::1   ".parse();
    assert_eq!(line, Err(DataParseError::NoInternalSpace))
}

#[test]
fn wrong_order() {
    let line: Result<DataLine, _> = "localhost ::1".parse();
    if let Err(DataParseError::BadIp(_, ip)) = line {
        assert_eq!(ip, "localhost");
    } else {
        panic!("not a bad IP: {:?}", line);
    }
}

#[test]
fn two_ipv4() {
    let line: Result<DataLine, _> = "127.0.0.1 0.0.0.0".parse();
    if let Err(DataParseError::HostWasIp(ip)) = line {
        assert_eq!(ip, Ipv4Addr::new(0, 0, 0, 0));
    } else {
        panic!("not host-was-IP: {:?}", line);
    }
}

#[test]
fn two_ipv6() {
    let line: Result<DataLine, _> = "::1 localhost ::1".parse();
    if let Err(DataParseError::BadHost(':', host)) = line {
        assert_eq!(host, "::1");
    } else {
        panic!("not a bad host: {:?}", line);
    }
}

#[test]
fn good() {
    let line: DataLine = "::1 localhost localhost.localdomain lh".parse().unwrap();
    assert_eq!(line.ip(), IpAddr::V6(Ipv6Addr::new(0, 0, 0, 0, 0, 0, 0, 1)));
    let hosts: Vec<&str> = line.hosts().iter().map(|s| s.as_str()).collect();
    assert_eq!(hosts, &["localhost", "localhost.localdomain", "lh"]);
}

#[test]
fn ascii_host() {
    let line: DataLine = "::1 the-quick-brown-fox-jumped-over-the-lazy-dog-0123456789.com"
        .parse()
        .unwrap();
    assert_eq!(line.ip(), IpAddr::V6(Ipv6Addr::new(0, 0, 0, 0, 0, 0, 0, 1)));
    let hosts: Vec<&str> = line.hosts().iter().map(|s| s.as_str()).collect();
    assert_eq!(
        hosts,
        &["the-quick-brown-fox-jumped-over-the-lazy-dog-0123456789.com"]
    );
}
