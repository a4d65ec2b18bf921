use nom_uri::parser::{
    fragment, ip_v4_address, ip_v6_address, path_abempty, path_absolute, path_rootless,
    pct_encoded, port,
};
use nom_uri::uri::{Fragment, Host, Path};
use nom_uri::Uri;

const PCHAR_NO_PCT: &[u8] =
    "abcdefghijklmnopqrstuvwxyzABCDEFGHIJKLMNOPQRSTUVWXYZ0123456789-._~!$&'()*+,;=:@".as_bytes();

#[test]
fn parser_parser() {
    let uri = Uri::parse("ftp://rms@example.com").unwrap();
    assert!(uri.has_host());
    let uri = Uri::parse("https://example.com/api/versions?page=2").unwrap();
    assert_eq!(uri.path(), "/api/versions");
}

#[test]
fn port_test() {
    assert_eq!(port(b""), Ok((&b""[..], None)));
}

#[test]
fn ip_v4_test() {
    assert_eq!(ip_v4_address(b"24.4.34"), Err(&b""[..]));
    assert_eq!(ip_v4_address(b"256.24.4.34"), Err(&b"256.24.4.34"[..]));
    assert_eq!(
        ip_v4_address(b"255.255.255.255.255"),
        Ok((&b".255"[..], Host::V4("255.255.255.255")))
    );
    assert_eq!(
        ip_v4_address(b"255.255.255.255"),
        Ok((&b""[..], Host::V4("255.255.255.255")))
    );
    assert_eq!(ip_v4_address(b"0.0.0.0"), Ok((&b""[..], Host::V4("0.0.0.0"))));
}

#[test]
fn path_absolute_test() {
    assert_eq!(path_absolute(b"abc/def//"), Err(&b"abc/def//"[..]));
    assert_eq!(
        path_absolute(b"/abc/def//"),
        Ok((&b""[..], Path::Absolute("/abc/def//")))
    );
}

#[test]
fn path_rootless_test() {
    assert_eq!(path_rootless(b"/abc/def//"), Err(&b"/abc/def//"[..]));
    assert_eq!(
        path_rootless(b"abc/def//"),
        Ok((&b""[..], Path::Rootless("abc/def//")))
    );
}

#[test]
fn path_abempty_test() {
    assert_eq!(
        path_abempty(b"/abc/def//"),
        Ok((&[][..], Path::AbEmpty("/abc/def//")))
    );
    assert_eq!(
        path_abempty(b"abc/def//"),
        Ok((&b"abc/def//"[..], Path::AbEmpty("")))
    );
}

#[test]
fn fragment_test() {
    assert_eq!(
        fragment(PCHAR_NO_PCT),
        Ok((
            &[][..],
            Fragment(core::str::from_utf8(PCHAR_NO_PCT).unwrap())
        ))
    );
    assert_eq!(fragment(b"/?{"), Ok((&b"{"[..], Fragment("/?"))));
    assert_eq!(fragment(b"%30%41#"), Ok((&b"#"[..], Fragment("%30%41"))));
}

#[test]
fn pct_encoded_test() {
    assert_eq!(pct_encoded(b"%30*"), Ok((&b"*"[..], '0')));
    assert_eq!(pct_encoded(b"%41g"), Ok((&b"g"[..], 'A')));
    assert_eq!(pct_encoded(b"41"), Err(&b"41"[..]));
    assert_eq!(pct_encoded(b"%4"), Err(&[][..]));
}

#[test]
fn port_bounds() {
    assert_eq!(port(b"0"), Ok((&b""[..], Some("0"))));
    assert_eq!(port(b"65535"), Ok((&b""[..], Some("65535"))));
    assert_eq!(port(b"65536"), Err(&b"65536"[..]));
    assert_eq!(port(b"80/x"), Ok((&b"/x"[..], Some("80"))));
    let uri = Uri::parse("ssh://example.com:0").unwrap();
    assert_eq!(uri.port(), Some(0));
    let uri = Uri::parse("ssh://example.com:65535").unwrap();
    assert_eq!(uri.port(), Some(65535));
    let uri = Uri::parse("ssh://example.com:").unwrap();
    assert_eq!(uri.port(), None);
}

#[test]
fn ip_v4_octet_bounds() {
    assert_eq!(ip_v4_address(b"256.0.0.1"), Err(&b"256.0.0.1"[..]));
    assert_eq!(ip_v4_address(b"1.2.300.4"), Err(&b"300.4"[..]));
    assert_eq!(ip_v4_address(b"1.2.3"), Err(&b""[..]));
}

#[test]
fn ip_v6_forms() {
    assert_eq!(
        ip_v6_address(b"::1]"),
        Ok((&b"]"[..], Host::V6("::1")))
    );
    assert_eq!(
        ip_v6_address(b"::ffff:192.0.2.1]"),
        Ok((&b"]"[..], Host::V6("::ffff:192.0.2.1")))
    );
    assert_eq!(ip_v6_address(b"::]"), Ok((&b"]"[..], Host::V6("::"))));
    assert!(ip_v6_address(b"12345::1]").is_err());
    assert_eq!(
        ip_v6_address(b"1:2:3:4:5:6:7:8"),
        Ok((&b""[..], Host::V6("1:2:3:4:5:6:7:8")))
    );
    assert_eq!(ip_v6_address(b"1::2]"), Ok((&b"]"[..], Host::V6("1::2"))));
    let uri = Uri::parse("http://[::1]:8080/index").unwrap();
    assert_eq!(uri.host_str(), Some("::1"));
    assert_eq!(uri.host(), Some(Host::V6("::1")));
    assert_eq!(uri.port(), Some(8080));
    assert_eq!(uri.domain(), None);
}
