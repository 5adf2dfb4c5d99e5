use hosts_file::{HostsFile, IpAddr};
use std::collections::HashMap;

const PRETTY: &str = "\
# basic ones
127.0.0.1  localhost localhost.localdomain
0.0.0.0  allzeros  # nonstandard

# others
8.8.8.8  gdns  # this is the more common one
8.8.4.4  gdns2  # this is the less common one

# comment by itself
";

const PLAIN: &str = "\
127.0.0.1  localhost localhost.localdomain
0.0.0.0  allzeros
8.8.8.8  gdns
8.8.4.4  gdns2
";

fn file_of(text: &str) -> HostsFile {
    HostsFile::read(text.lines().map(|l| Ok(l.to_string())).collect())
}

#[test]
fn lines() {
    let mut rewritten = String::new();
    let mut lines = file_of(PRETTY).lines();
    while let Some(line) = lines.next() {
        let line = line.unwrap();
        rewritten.push_str(&line.to_text());
        rewritten.push('\n');
    }
    assert_eq!(rewritten, PRETTY);
}

#[test]
fn data_lines() {
    let mut rewritten = String::new();
    let mut lines = file_of(PRETTY).data_lines();
    while let Some(line) = lines.next() {
        let line = line.unwrap();
        rewritten.push_str(&line.to_text());
        rewritten.push('\n');
    }
    assert_eq!(rewritten, PLAIN);
}

#[test]
fn pairs() {
    let mut map = HashMap::new();
    let mut pairs = file_of(PRETTY).pairs();
    while let Some(pair) = pairs.next() {
        let (host, ip) = pair.unwrap();
        map.insert(host, ip);
    }
    assert_eq!(*map.get("localhost").unwrap(), IpAddr::parse("127.0.0.1").unwrap());
    assert_eq!(*map.get("localhost.localdomain").unwrap(), IpAddr::parse("127.0.0.1").unwrap());
    assert_eq!(*map.get("allzeros").unwrap(), IpAddr::parse("0.0.0.0").unwrap());
    assert_eq!(*map.get("gdns").unwrap(), IpAddr::parse("8.8.8.8").unwrap());
    assert_eq!(*map.get("gdns2").unwrap(), IpAddr::parse("8.8.4.4").unwrap());
}
