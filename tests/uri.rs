use nom_uri::uri::{Authority, Fragment, Path, Query};
use nom_uri::{Buffer, Error, Host, Uri};

#[test]
fn uri_parser() {
    let uri = Uri::parse("ftp://rms@example.com").unwrap();
    assert!(uri.has_host());

    let uri = Uri::parse("https://example.com/api/versions?page=2").unwrap();
    assert_eq!(uri.path(), "/api/versions");

    let uri = Uri::parse("https://example.com/foo/bar").unwrap();
    let mut path_segments = uri.path_segments();
    assert_eq!(path_segments.next(), Some("foo"));
    assert_eq!(path_segments.next(), Some("bar"));
    assert_eq!(path_segments.next(), None);
}

#[test]
fn formatter() {
    let uri_str = "ftp://rms@example.com";
    let uri = Uri::parse(uri_str).unwrap();
    let buffer = &mut [b' '; 50][..];
    assert_eq!(uri_str, uri.as_str(buffer).unwrap());

    let uri_str = "ftp://rms@example.com/example/path";
    let uri = Uri::parse(uri_str).unwrap();
    assert_eq!(uri_str, uri.as_str(buffer).unwrap());

    let mut uri = Uri::parse("https://example.com/data.csv").unwrap();
    assert_eq!(uri.as_str(buffer).unwrap(), "https://example.com/data.csv");
    uri.set_fragment(Some("cell=4,1-6,2")).unwrap();
    let uri_str = uri.as_str(buffer).unwrap();
    assert_eq!(uri_str, "https://example.com/data.csv#cell=4,1-6,2");

    let mut uri = Uri::parse("https://example.com").unwrap();
    uri.set_path("/api/comments").unwrap();
    let buffer = &mut [b' '; 50][..];
    assert_eq!(
        uri.as_str(buffer).unwrap(),
        "https://example.com/api/comments"
    );
    assert_eq!(uri.path(), "/api/comments");

    let mut uri = Uri::parse("ssh://example.net:2048/").unwrap();
    uri.set_port(Some("4096")).unwrap();
    let buffer = &mut [b' '; 50][..];
    assert_eq!(uri.as_str(buffer).unwrap(), "ssh://example.net:4096/");
}

#[test]
fn empty_and_absolute_paths() {
    let uri = Uri::parse("https://example.com").unwrap();
    assert_eq!(uri.path(), "");
    let mut segments = uri.path_segments();
    assert_eq!(segments.next(), Some(""));
    assert_eq!(segments.next(), None);
    assert_eq!(segments.next(), None);

    let uri = Uri::parse("https://example.com/api/versions?page=2").unwrap();
    assert_eq!(uri.path(), "/api/versions");
    assert_eq!(uri.query(), Some("page=2"));

    let uri = Uri::parse("unix:/run/foo.socket").unwrap();
    assert_eq!(uri.path(), "/run/foo.socket");
    let uri = Uri::parse("data:text/plain,Stuff").unwrap();
    assert_eq!(uri.path(), "text/plain,Stuff");
    assert!(!uri.has_authority());
}

#[test]
fn set_port_without_authority() {
    let mut uri = Uri::parse("unix:/run/foo.socket").unwrap();
    assert_eq!(uri.set_port(Some("80")), Err(Error::NoAuthority));
    assert_eq!(uri.set_host(Some("example.com")), Err(Error::NoAuthority));
    assert_eq!(uri.set_userinfo(Some("user")), Err(Error::NoAuthority));
    let buffer = &mut [0u8; 40][..];
    assert_eq!(uri.as_str(buffer).unwrap(), "unix:/run/foo.socket");
    assert_eq!(uri.port(), None);
    assert!(!uri.has_authority());
}

#[test]
fn percent_encoding_kept() {
    let uri = Uri::parse("https://example.com/data.csv#%30%41").unwrap();
    assert_eq!(uri.fragment(), Some("%30%41"));
    let uri = Uri::parse("https://ex%41mple.com/a%2Fb").unwrap();
    assert_eq!(uri.host_str(), Some("ex%41mple.com"));
    assert_eq!(uri.path(), "/a%2Fb");
}

#[test]
fn exact_buffer() {
    let text = "ftp://rms@example.com";
    let uri = Uri::parse(text).unwrap();
    let buffer = &mut [0u8; 21][..];
    assert_eq!(uri.as_str(buffer).unwrap(), text);
    let small = &mut [0u8; 20][..];
    assert_eq!(uri.as_str(small), Err(Error::BufferToSmall));
}

#[test]
fn rendering_reparses() {
    let texts = [
        "ftp://rms@example.com",
        "https://example.com/api/versions?page=2#top",
        "http://[::1]:8080/a/b?c#d",
        "mailto:rms@example.net",
        "urn:isbn:0451450523",
        "foo:",
        "s://u:p@127.0.0.1:1/x",
    ];
    for text in texts.iter() {
        let uri = Uri::parse(text).unwrap();
        let buffer = &mut [0u8; 64][..];
        let out = uri.as_str(buffer).unwrap();
        assert_eq!(&out, text);
        let again = Uri::parse(out).unwrap();
        assert_eq!(again, uri);
    }
}

#[test]
fn accessors() {
    let uri = Uri::parse("https://127.0.0.1/index.html").unwrap();
    assert_eq!(uri.host_str(), Some("127.0.0.1"));
    assert_eq!(uri.host(), Some(Host::V4("127.0.0.1")));
    assert_eq!(uri.domain(), None);
    let uri = Uri::parse("ftp://rms@example.com").unwrap();
    assert_eq!(uri.userinfo(), Some("rms"));
    assert_eq!(uri.host_str(), Some("example.com"));
    assert_eq!(uri.domain(), Some("example.com"));
    assert_eq!(uri.scheme(), "ftp");
    let uri = Uri::parse("https://example.com").unwrap();
    assert_eq!(uri.userinfo(), None);
    assert_eq!(uri.port(), None);
    let uri = Uri::parse("https://example.com:443/").unwrap();
    assert_eq!(uri.port(), Some(443));
    let uri = Uri::parse("ssh://example.com:22").unwrap();
    assert_eq!(uri.port(), Some(22));
    let uri = Uri::parse("mailto:rms@example.net").unwrap();
    assert_eq!(uri.domain(), None);
    assert_eq!(uri.host_str(), None);
    let uri = Uri::parse("file:///tmp/foo").unwrap();
    assert_eq!(uri.scheme(), "file");
    let uri = Uri::parse("https://example.com/data.csv#row=4").unwrap();
    assert_eq!(uri.fragment(), Some("row=4"));
    let uri = Uri::parse("https://example.com/products").unwrap();
    assert!(uri.query().is_none());
}

#[test]
fn parse_errors() {
    assert_eq!(Uri::parse("1http://example.com"), Err(Error::ParseError));
    assert_eq!(Uri::parse("example.com"), Err(Error::ParseError));
    assert_eq!(Uri::parse(""), Err(Error::ParseError));
    match Uri::parse_bytes(b"abc\xff") {
        Err(Error::Conversion(_)) => {}
        other => panic!("expected a conversion error, got {:?}", other),
    }
    assert_eq!(Uri::parse_bytes(b"abc/def"), Err(Error::ParseError));
    let uri = Uri::parse_bytes(b"https://example.net").unwrap();
    assert_eq!(uri.host_str(), Some("example.net"));
}

#[test]
fn setters() {
    let buffer = &mut [b' '; 50][..];
    let mut uri = Uri::parse("https://example.com/products").unwrap();
    uri.set_query(Some("page=2")).unwrap();
    assert_eq!(uri.as_str(buffer).unwrap(), "https://example.com/products?page=2");
    assert_eq!(uri.query(), Some("page=2"));
    uri.set_query(None).unwrap();
    assert_eq!(uri.query(), None);

    let mut uri = Uri::parse("https://example.com/data.csv").unwrap();
    uri.set_fragment(Some("cell=4,1-6,2")).unwrap();
    assert_eq!(uri.fragment(), Some("cell=4,1-6,2"));
    uri.set_fragment(None).unwrap();
    assert_eq!(uri.as_str(buffer).unwrap(), "https://example.com/data.csv");
    assert!(uri.fragment().is_none());

    let mut uri = Uri::parse("https://example.com/api").unwrap();
    uri.set_path("/data/report.csv").unwrap();
    assert_eq!(uri.as_str(buffer).unwrap(), "https://example.com/data/report.csv");

    let mut uri = Uri::parse("ssh://example.net:2048/").unwrap();
    uri.set_port(None).unwrap();
    assert_eq!(uri.as_str(buffer).unwrap(), "ssh://example.net/");
    assert_eq!(uri.set_port(Some("70000")), Err(Error::ParseError));
    assert_eq!(uri.port(), None);

    let mut uri = Uri::parse("https://example.net").unwrap();
    assert!(uri.set_host(Some("rust-lang.org")).is_ok());
    assert_eq!(uri.as_str(buffer).unwrap(), "https://rust-lang.org");
    assert_eq!(uri.set_host(Some("/")), Err(Error::ParseError));
    assert_eq!(uri.host_str(), Some("rust-lang.org"));

    let mut uri = Uri::parse("foo://example.net").unwrap();
    assert!(uri.set_host(None).is_ok());
    assert_eq!(uri.as_str(buffer).unwrap(), "foo:");

    let mut uri = Uri::parse("ftp://example.com/").unwrap();
    assert!(uri.set_userinfo(Some("user1")).is_ok());
    assert_eq!(uri.userinfo(), Some("user1"));
    assert_eq!(uri.as_str(buffer).unwrap(), "ftp://user1@example.com/");
    uri.set_userinfo(None).unwrap();
    assert_eq!(uri.userinfo(), None);

    let mut uri = Uri::parse("http://example.com/").unwrap();
    uri.set_scheme("https").unwrap();
    assert_eq!(uri.scheme(), "https");
    assert_eq!(uri.set_scheme("1x"), Err(Error::ParseError));
    assert_eq!(uri.scheme(), "https");
}

#[test]
fn part_lengths() {
    let host = Host::RegistryName("example.com");
    assert_eq!(host.len(), 11);
    let auth = Authority { userinfo: Some("rms"), host, port: Some("21") };
    assert_eq!(auth.len(), 16);
    assert_eq!(Path::Absolute("/a/b").len(), 4);
    assert_eq!(Path::Empty.len(), 0);
    assert_eq!(Query("page=2").len(), 6);
    assert_eq!(Fragment("top").len(), 3);
}

#[test]
fn buffer_writes() {
    let bytes = &mut [0u8; 5][..];
    let mut out = Buffer::new(bytes);
    assert_eq!(out.write_str("abc"), Ok(()));
    assert_eq!(out.write_str("def"), Err(Error::BufferToSmall));
    assert_eq!(out.write_str("de"), Ok(()));
    assert_eq!(&out.buffer()[..], &b"abcde"[..]);
}

#[test]
fn error_messages() {
    assert_eq!(Error::BufferToSmall.message(), "Output does not fit in buffer.");
    assert_eq!(Error::ParseError.message(), "Could not parse input");
}

#[test]
fn conversion_from_text() {
    let uri = Uri::try_from("https://example.net/a").unwrap();
    assert_eq!(uri.path(), "/a");
    assert_eq!(Uri::try_from("no scheme here"), Err(Error::ParseError));
}

#[test]
fn bare_port_colon_is_dropped() {
    let uri = Uri::parse("ssh://example.com:/x").unwrap();
    assert_eq!(uri.port(), None);
    assert_eq!(uri.path(), "/x");
    let buffer = &mut [0u8; 40][..];
    let out = uri.as_str(buffer).unwrap();
    assert_eq!(out, "ssh://example.com/x");
    assert_eq!(Uri::parse(out).unwrap(), uri);
}

#[test]
fn partial_input_is_refused() {
    assert_eq!(Uri::parse("https://example.com/a b"), Err(Error::ParseError));
    assert_eq!(Uri::parse("http://[::1"), Err(Error::ParseError));
    assert_eq!(Uri::parse("http://example.com:65536"), Err(Error::ParseError));
    assert_eq!(Uri::parse_bytes(b"http://[v1.a]/"), Err(Error::ParseError));
    match Uri::parse_bytes(b"http://example.com/\xff") {
        Err(Error::Conversion(_)) => {}
        other => panic!("expected a conversion error, got {:?}", other),
    }
}

#[test]
fn setters_refuse_partial_text() {
    let mut uri = Uri::parse("https://example.com/a?q#f").unwrap();
    assert_eq!(uri.set_fragment(Some("a b")), Err(Error::ParseError));
    assert_eq!(uri.set_fragment(Some("a#b")), Err(Error::ParseError));
    assert_eq!(uri.fragment(), Some("f"));
    assert_eq!(uri.set_query(Some("%zz")), Err(Error::ParseError));
    assert_eq!(uri.query(), Some("q"));
    assert_eq!(uri.set_port(Some("80x")), Err(Error::ParseError));
    assert_eq!(uri.port(), None);
    assert_eq!(uri.set_host(Some("example.org/x")), Err(Error::ParseError));
    assert_eq!(uri.host_str(), Some("example.com"));
    assert_eq!(uri.set_userinfo(Some("a b")), Err(Error::ParseError));
    assert_eq!(uri.userinfo(), None);
    assert_eq!(uri.set_scheme("ht tp"), Err(Error::ParseError));
    assert_eq!(uri.scheme(), "https");
    assert_eq!(uri.set_path("/a b"), Err(Error::ParseError));
    assert_eq!(uri.path(), "/a");
    assert_eq!(uri.set_port(Some("")), Ok(()));
    assert_eq!(uri.port(), None);
    assert_eq!(uri.set_port(Some("8080")), Ok(()));
    assert_eq!(uri.port(), Some(8080));
}

#[test]
fn ipv6_hosts() {
    for text in [
        "http://[1:2:3:4:5:6:7:8]/",
        "http://[1::2]/",
        "http://[2001:db8::8a2e:370:7334]/",
        "http://[fe80::]/",
        "http://[::]/",
        "http://[1:2:3:4:5:6:1.2.3.4]/",
        "http://[::ffff:192.0.2.1]/",
        "http://[1:2:3:4:5:6:7::]/",
    ]
    .iter()
    {
        let uri = Uri::parse(text).unwrap();
        let host = &text[8..text.len() - 2];
        assert_eq!(uri.host(), Some(Host::V6(host)));
        let buffer = &mut [0u8; 64][..];
        assert_eq!(&uri.as_str(buffer).unwrap(), text);
    }
    assert!(Uri::parse("http://[1:2:3:4:5:6:7:8:9]/").is_err());
    assert!(Uri::parse("http://[1::2::3]/").is_err());
    assert!(Uri::parse("http://[1:2:3:4:5:6:7:8::]/").is_err());
}

#[test]
fn buffer_after_writing() {
    let uri = Uri::parse("ftp://rms@example.com").unwrap();
    let buffer = &mut [b'x'; 25][..];
    assert_eq!(uri.as_str(buffer).unwrap(), "ftp://rms@example.com");
    assert_eq!(&buffer[21..], b"xxxx");
}
