use core::fmt::Write;
use format_no_std::WriteTo;

#[test]
fn test() {
    let mut buf = [0u8; 64];
    let mut w = WriteTo::new(&mut buf);
    let rendered = w.write_str(&format!("Test String {}: {}", "foo", 42));
    let s = w.finish(rendered).unwrap();

    assert_eq!("Test String foo: 42", s);
}

#[test]
fn test_to_long() {
    let mut buf = [0u8; 8];
    let mut w = WriteTo::new(&mut buf);
    let rendered = w.write_str("Too long string");
    let ret = w.finish(rendered);

    assert_eq!(Err(core::fmt::Error), ret);
}

#[test]
fn test_len() {
    let mut buf = [0u8; 64];
    let mut w = WriteTo::new(&mut buf);
    w.write_str(&format!("Test String {}: {}", "foo", 42)).unwrap();

    assert_eq!(w.len(), Some(19));
    assert_eq!(w.is_empty(), Some(false));
}

#[test]
fn test_len_empty() {
    let mut buf = [0u8; 64];
    let mut w = WriteTo::new(&mut buf);
    w.write_str("").unwrap();

    assert_eq!(w.len(), Some(0));
    assert_eq!(w.is_empty(), Some(true));
}

#[test]
fn test_len_to_long() {
    let mut buf = [0u8; 8];
    let mut w = WriteTo::new(&mut buf);
    let res = w.write_str("Tooo long string");

    assert_eq!(res, Err(core::fmt::Error));
    assert_eq!(w.len(), None);
    assert_eq!(w.is_empty(), None);
}

#[test]
fn fresh_writer_reports_empty() {
    let mut buf = [0u8; 4];
    let w = WriteTo::new(&mut buf);
    assert_eq!(w.len(), Some(0));
    assert_eq!(w.is_empty(), Some(true));
    assert_eq!(w.as_str(), Some(""));
}

#[test]
fn exact_fit_is_accepted() {
    let mut buf = [0u8; 5];
    let mut w = WriteTo::new(&mut buf);
    assert_eq!(w.write_str("ab"), Ok(()));
    assert_eq!(w.write_str("cde"), Ok(()));
    assert_eq!(w.len(), Some(5));
    assert_eq!(w.as_str(), Some("abcde"));
}

#[test]
fn one_byte_over_is_rejected() {
    let mut buf = [0u8; 5];
    let mut w = WriteTo::new(&mut buf);
    assert_eq!(w.write_str("abcdef"), Err(core::fmt::Error));
    assert_eq!(w.len(), None);
    assert_eq!(w.as_str(), None);
}

#[test]
fn overflow_copies_only_the_prefix_that_fits() {
    let mut buf = [b'.'; 6];
    {
        let mut w = WriteTo::new(&mut buf);
        assert_eq!(w.write_str("abcd"), Ok(()));
        assert_eq!(w.write_str("efgh"), Err(core::fmt::Error));
        assert_eq!(w.write_str("ij"), Err(core::fmt::Error));
    }
    assert_eq!(&buf, b"abcdef");
}

#[test]
fn successful_writes_grow_length_by_fragment() {
    let mut buf = [0u8; 16];
    let mut w = WriteTo::new(&mut buf);
    w.write_str("abc").unwrap();
    assert_eq!(w.len(), Some(3));
    w.write_str("").unwrap();
    assert_eq!(w.len(), Some(3));
    w.write_str("defg").unwrap();
    assert_eq!(w.len(), Some(7));
    assert_eq!(w.is_empty(), Some(false));
}

#[test]
fn overflow_is_sticky() {
    let mut buf = [0u8; 4];
    let mut w = WriteTo::new(&mut buf);
    assert_eq!(w.write_str("hello"), Err(core::fmt::Error));
    assert_eq!(w.write_str(""), Err(core::fmt::Error));
    assert_eq!(w.write_str("a"), Err(core::fmt::Error));
    assert_eq!(w.len(), None);
    assert_eq!(w.is_empty(), None);
    assert_eq!(w.as_str(), None);
}

#[test]
fn text_is_the_concatenation_of_fragments() {
    let mut buf = [0u8; 32];
    let mut w = WriteTo::new(&mut buf);
    for frag in ["naïve", " ", "café", "", " ✓"] {
        w.write_str(frag).unwrap();
    }
    let s = w.as_str().unwrap();
    assert_eq!(s, "naïve café ✓");
    assert_eq!(s.as_bytes(), "naïve café ✓".as_bytes());
}

#[test]
fn multibyte_fragment_cut_by_overflow_is_rejected() {
    let mut buf = [0u8; 3];
    let mut w = WriteTo::new(&mut buf);
    assert_eq!(w.write_str("aé"), Ok(()));
    assert_eq!(w.write_str("é"), Err(core::fmt::Error));
    assert_eq!(w.as_str(), None);
}

#[test]
fn finish_passes_on_engine_failure() {
    let mut buf = [0u8; 16];
    let mut w = WriteTo::new(&mut buf);
    w.write_str("fits").unwrap();
    assert_eq!(w.finish(Err(core::fmt::Error)), Err(core::fmt::Error));
}

#[test]
fn finish_returns_text_on_success() {
    let mut buf = [0u8; 16];
    let mut w = WriteTo::new(&mut buf);
    w.write_str("fits").unwrap();
    assert_eq!(w.finish(Ok(())), Ok("fits"));
}

#[test]
fn zero_capacity_buffer_takes_only_empty_text() {
    let mut buf: [u8; 0] = [];
    let mut w = WriteTo::new(&mut buf);
    assert_eq!(w.write_str(""), Ok(()));
    assert_eq!(w.len(), Some(0));
    assert_eq!(w.write_str("x"), Err(core::fmt::Error));
    assert_eq!(w.len(), None);
}
