use minidns::hostsconf::HostsConfig;

fn set_data(hc: &mut HostsConfig, data: &[u8]) {
    hc.data.clear();
    hc.data.extend_from_slice(data);
    hc.pos = 0;
}

fn next_ok(hc: &mut HostsConfig, host: &str, ip: &str) {
    let (h, i) = hc.next().unwrap().unwrap();
    assert_eq!(host, h);
    assert_eq!(ip, i);
}

fn next_error(hc: &mut HostsConfig) {
    if let Ok(_) = hc.next() {
        panic!("expect HostsConfig::next return Err, but is return Ok");
    };
}

#[test]
fn test_hostsconfig() {
    let lines = b"\r\r \n\n \r\n \n\r";
    assert_eq!(7, HostsConfig::location_line(lines, lines.len() - 1));

    let mut hc = HostsConfig { data: Vec::new(), pos: 0 };
    assert!(None == hc.next().unwrap());

    set_data(&mut hc, b"  #comment \r\n # comment");
    assert!(None == hc.next().unwrap());

    set_data(&mut hc, b"a");
    next_error(&mut hc);

    set_data(&mut hc, b"127.0.0.1 a.a.com a");
    next_error(&mut hc);

    set_data(&mut hc, b"127.0.0.1 a.a.com");
    next_ok(&mut hc, "a.a.com", "127.0.0.1");

    set_data(&mut hc, b"127.0.0.1 a.a.com\n 127.0.0.2 b.a.com #comment\r  #comment\r\n127.0.0.3 c.a.com  \n 1 2 \n 3 4 5");
    next_ok(&mut hc, "a.a.com", "127.0.0.1");
    next_ok(&mut hc, "b.a.com", "127.0.0.2");
    next_ok(&mut hc, "c.a.com", "127.0.0.3");
    next_ok(&mut hc, "2", "1");
    next_error(&mut hc);
}

#[test]
fn hosts_error_names_line() {
    let mut hc = HostsConfig::from_bytes(b"127.0.0.1 a.lan\n\n10.0.0.1\n".to_vec());
    next_ok(&mut hc, "a.lan", "127.0.0.1");
    let e = hc.next().unwrap_err();
    assert_eq!(minidns::hostsconf::HostsError::Format { line: 3 }, e);
}

#[test]
fn hosts_rejects_bad_utf8() {
    let mut hc = HostsConfig::from_bytes(b"127.0.0.1 \xff\xfe".to_vec());
    assert_eq!(minidns::hostsconf::HostsError::NotUtf8, hc.next().unwrap_err());
}
