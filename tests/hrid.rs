use requiem::hrid::{EmptyStringError, Error, Hrid};

fn ns(v: &[&str]) -> Vec<String> {
    v.iter().map(|s| s.to_string()).collect()
}

#[test]
fn equality_and_clone() {
    let h1 = Hrid::new_with_namespace(vec!["NS".into()], "URS".to_string(), 42).unwrap();
    let h2 = h1.clone();
    assert_eq!(h1, h2);

    let h3 = Hrid::new("URS".to_string(), 43).unwrap();
    assert_ne!(h1, h3);

    let h4 = Hrid::new("SYS".to_string(), 42).unwrap();
    assert_ne!(h1, h4);

    let h5 = Hrid::new_with_namespace(vec![], "URS".to_string(), 42).unwrap();
    assert_ne!(h1, h5);
}

#[test]
fn roundtrip_display_and_parse() {
    let original =
        Hrid::new_with_namespace(vec!["COMPONENT".into(), "SUB".into()], "SYS".to_string(), 5)
            .unwrap();
    let roundtripped = Hrid::parse(original.to_string().as_str()).unwrap();
    assert_eq!(original, roundtripped);
}

#[test]
fn error_display() {
    let e1 = Error::Syntax("bad".into());
    assert_eq!(e1.to_string(), "Invalid HRID format: bad");

    let e2 = Error::Id("URS-abc".into(), "abc".into());
    assert_eq!(
        e2.to_string(),
        "Invalid ID in HRID 'URS-abc': expected an integer, got abc"
    );
}

#[test]
fn display_no_namespace() {
    assert_eq!(Hrid::new("URS".to_string(), 42).unwrap().to_string(), "URS-042");
    assert_eq!(Hrid::new("SYS".to_string(), 1).unwrap().to_string(), "SYS-001");
    assert_eq!(Hrid::new("TEST".to_string(), 999).unwrap().to_string(), "TEST-999");
    assert_eq!(Hrid::new("TEST".to_string(), 12345).unwrap().to_string(), "TEST-12345");
    assert_eq!(Hrid::new("TEST".to_string(), 0).unwrap().to_string(), "TEST-000");
}

#[test]
fn display_with_namespace() {
    let h = Hrid::new_with_namespace(ns(&["COMPONENT"]), "SYS".to_string(), 5).unwrap();
    assert_eq!(h.to_string(), "COMPONENT-SYS-005");
    let h = Hrid::new_with_namespace(ns(&["COMPONENT", "SUB"]), "SYS".to_string(), 5).unwrap();
    assert_eq!(h.to_string(), "COMPONENT-SUB-SYS-005");
    let h = Hrid::new_with_namespace(ns(&["A", "B", "C"]), "REQ".to_string(), 123).unwrap();
    assert_eq!(h.to_string(), "A-B-C-REQ-123");
}

#[test]
fn format_with_other_widths() {
    let h = Hrid::new("REQ".to_string(), 7).unwrap();
    assert_eq!(h.format(5), "REQ-00007");
    assert_eq!(h.format(1), "REQ-7");
    assert_eq!(h.format(0), "REQ-7");
}

#[test]
fn parse_valid() {
    let h = Hrid::parse("URS-001").unwrap();
    assert!(h.namespace().is_empty());
    assert_eq!(h.kind(), "URS");
    assert_eq!(h.id(), 1);

    let h = Hrid::parse("NS-SYS-42").unwrap();
    assert_eq!(h.namespace(), vec!["NS"]);
    assert_eq!(h.kind(), "SYS");
    assert_eq!(h.id(), 42);

    let h = Hrid::parse("A-B-C-REQ-123").unwrap();
    assert_eq!(h.namespace(), vec!["A", "B", "C"]);
    assert_eq!(h.kind(), "REQ");
    assert_eq!(h.id(), 123);
}

#[test]
fn parse_accepts_unpadded_and_normalises_on_format() {
    let h = Hrid::parse("REQ-7").unwrap();
    assert_eq!(h.id(), 7);
    assert_eq!(h.to_string(), "REQ-007");
}

#[test]
fn parse_rejections_have_specific_kinds() {
    for bad in ["", "URS", "-URS-1", "URS-1-", "URS--1", "-", "--"] {
        match Hrid::parse(bad) {
            Err(Error::Syntax(s)) => assert_eq!(s, bad),
            other => panic!("expected a syntax error for {bad:?}, got {other:?}"),
        }
    }
    match Hrid::parse("URS-abc") {
        Err(Error::Id(s, t)) => {
            assert_eq!(s, "URS-abc");
            assert_eq!(t, "abc");
        }
        other => panic!("expected an id error, got {other:?}"),
    }
    match Hrid::parse("URS-99999999999999999999999") {
        Err(Error::Id(_, t)) => assert_eq!(t, "99999999999999999999999"),
        other => panic!("expected an id error, got {other:?}"),
    }
}

#[test]
fn parse_format_round_trip_for_many_values() {
    for (namespace, kind, id) in [
        (vec![], "REQ", 0usize),
        (vec!["X"], "SYS", 1),
        (vec!["A", "B"], "U", 1000),
        (vec![], "K", usize::MAX),
    ] {
        let h = Hrid::new_with_namespace(ns(&namespace), kind.to_string(), id).unwrap();
        for digits in [0, 3, 8] {
            assert_eq!(Hrid::parse(h.format(digits).as_str()).unwrap(), h);
        }
    }
}

#[test]
fn constructors_reject_empty_strings() {
    assert_eq!(Hrid::new(String::new(), 1).unwrap_err(), EmptyStringError);
    assert_eq!(
        Hrid::new_with_namespace(ns(&["A", ""]), "REQ".to_string(), 1).unwrap_err(),
        EmptyStringError
    );
    assert_eq!(EmptyStringError.to_string(), "found empty string");
}

#[test]
fn from_str_matches_parse() {
    let h: Hrid = "NS-REQ-010".parse().unwrap();
    assert_eq!(h, Hrid::parse("NS-REQ-010").unwrap());
}

#[test]
fn parse_accepts_a_plus_sign_on_the_id() {
    let h = Hrid::parse("URS-+5").unwrap();
    assert_eq!(h.kind(), "URS");
    assert_eq!(h.id(), 5);
    assert_eq!(h.to_string(), "URS-005");
    for bad in ["URS-+", "URS-++5", "URS-5+", "URS--5"] {
        assert!(Hrid::parse(bad).is_err(), "{bad:?} should be rejected");
    }
    match Hrid::parse("URS-+") {
        Err(Error::Id(s, t)) => {
            assert_eq!(s, "URS-+");
            assert_eq!(t, "+");
        }
        other => panic!("expected an id error, got {other:?}"),
    }
}
