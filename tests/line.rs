use hosts_file::{IpAddr, Ipv4Addr, Line};

#[test]
fn parse_empty() {
    let empty: Line = "      \t    ".parse().unwrap();
    assert!(empty.comment().is_none());
    assert!(empty.data().is_none());
    assert!(empty.ip().is_none());
    let hosts: Vec<String> = empty.hosts();
    assert!(hosts.is_empty());
}

#[test]
fn parse_comment() {
    let comment: Line = "   #   \t what? ".parse().unwrap();
    assert_eq!(comment.comment().unwrap(), "what? ");
    assert!(comment.data().is_none());
    assert!(comment.ip().is_none());
    let hosts: Vec<String> = comment.hosts();
    assert!(hosts.is_empty());
}

#[test]
fn parse_full() {
    let full: Line = "127.0.0.1  \tlocalhost  \t   localhost.localdomain    lh#localhosts"
        .parse()
        .unwrap();
    assert!(full.data().is_some());
    assert_eq!(full.comment().unwrap(), "localhosts");
    assert_eq!(full.ip().unwrap(), IpAddr::V4(Ipv4Addr::new(127, 0, 0, 1)));
    let hosts: Vec<String> = full.hosts();
    assert_eq!(hosts, vec!["localhost", "localhost.localdomain", "lh"]);
}
