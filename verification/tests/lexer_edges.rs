//! Edge cases of the content stream lexer.

use pdf_crop_dual::lexer::{is_delim, is_ws, Item, Parsed, Tok, Val};

fn tok(data: &[u8]) -> Tok<'_> {
    Tok { data, pos: 0 }
}

fn items(data: &[u8]) -> Vec<Item> {
    let mut tk = tok(data);
    let mut out = Vec::new();
    while let Some(it) = tk.next_item() {
        out.push(it);
    }
    out
}

fn num_text(it: &Item) -> &[u8] {
    match it {
        Item::Val(Val::Num(t)) => t,
        _ => panic!("not a number"),
    }
}

fn op(it: &Item) -> &str {
    match it {
        Item::Op(o) => o,
        _ => panic!("not an operator"),
    }
}

fn parsed_str(data: &[u8]) -> Option<Vec<u8>> {
    match tok(data).parse_val() {
        Parsed::Val(Val::Str(s)) => Some(s),
        _ => None,
    }
}

#[test]
fn byte_classes() {
    for b in [b' ', b'\t', b'\r', b'\n', 0x0C, 0x00] {
        assert!(is_ws(b));
    }
    for b in [b'a', b'/', 0x0B, 0xA0] {
        assert!(!is_ws(b));
    }
    for b in b"()<>[]{}/%" {
        assert!(is_delim(*b));
    }
    for b in b"#aZ0. \n" {
        assert!(!is_delim(*b));
    }
}

#[test]
fn peeks_at_end_of_data() {
    let tk = Tok { data: b"ab", pos: 1 };
    assert_eq!(tk.peek(), Some(b'b'));
    assert_eq!(tk.peek2(), None);
    let tk = Tok { data: b"ab", pos: 0 };
    assert_eq!(tk.peek2(), Some(b'b'));
    let tk = Tok { data: b"ab", pos: 2 };
    assert_eq!(tk.peek(), None);
}

#[test]
fn skip_ws_and_comments_stops_at_content() {
    let mut tk = tok(b"  % one\r\n\t% two\n  x");
    tk.skip_ws_comments();
    assert_eq!(tk.pos, 18);
    let mut tk = tok(b"% only a comment");
    tk.skip_ws_comments();
    assert_eq!(tk.pos, 16);
}

#[test]
fn word_and_name_reading() {
    let mut tk = tok(b"abc(d");
    assert_eq!(tk.read_word(), b"abc".to_vec());
    assert_eq!(tk.pos, 3);
    let mut tk = tok(b"A#20B c");
    assert_eq!(tk.parse_name(), b"A B".to_vec());
    assert_eq!(tk.pos, 5);
    // `#` without two hex digits stays as it is
    let mut tk = tok(b"a#zz/");
    assert_eq!(tk.parse_name(), b"a#zz".to_vec());
    assert_eq!(tk.pos, 4);
}

#[test]
fn number_text_is_kept() {
    let v = items(b"007 -.5 +3. 1e5");
    assert_eq!(v.len(), 5);
    assert_eq!(num_text(&v[0]), b"007");
    assert_eq!(num_text(&v[1]), b"-.5");
    assert_eq!(num_text(&v[2]), b"+3.");
    // the exponent is no part of a number
    assert_eq!(num_text(&v[3]), b"1");
    assert_eq!(op(&v[4]), "e5");
    let v = items(b"1-2");
    assert_eq!(num_text(&v[0]), b"1");
    assert_eq!(num_text(&v[1]), b"-2");
}

#[test]
fn malformed_numbers_end_the_stream() {
    for bad in [&b"1.2.3 BT"[..], b". BT", b"+. BT", b"-- BT"] {
        assert!(matches!(tok(bad).parse_val(), Parsed::Fail));
        assert!(items(bad).is_empty());
    }
    let mut tk = tok(b"..");
    assert_eq!(tk.parse_num(), None);
    let mut tk = tok(b"12.5x");
    assert_eq!(tk.parse_num(), Some(b"12.5".to_vec()));
    assert_eq!(tk.pos, 4);
}

#[test]
fn escape_forms() {
    assert_eq!(parsed_str(br"(\b\f\t\r)"), Some(vec![8, 12, 9, 13]));
    // three octal digits at most; the value wraps to a byte
    assert_eq!(parsed_str(br"(\1234)"), Some(b"S4".to_vec()));
    assert_eq!(parsed_str(br"(\777)"), Some(vec![255]));
    assert_eq!(parsed_str(br"(\q)"), Some(b"q".to_vec()));
    // a backslash at the end of the data leaves the string open
    assert!(matches!(tok(br"(ab\").parse_val(), Parsed::Fail));
}

#[test]
fn parse_escape_directly() {
    let mut tk = tok(b"n");
    assert_eq!(tk.parse_escape(), Some(Some(b'\n')));
    assert_eq!(tk.pos, 1);
    let mut tk = tok(b"\r\nX");
    assert_eq!(tk.parse_escape(), Some(None));
    assert_eq!(tk.pos, 2);
    let mut tk = tok(b"\rX");
    assert_eq!(tk.parse_escape(), Some(None));
    assert_eq!(tk.pos, 1);
    let mut tk = tok(b"");
    assert_eq!(tk.parse_escape(), None);
    let mut tk = tok(b"8");
    assert_eq!(tk.parse_escape(), Some(Some(b'8')));
    let mut tk = tok(b"12)");
    assert_eq!(tk.parse_escape(), Some(Some(10)));
    assert_eq!(tk.pos, 2);
}

#[test]
fn hex_string_edges() {
    // the data may end before `>`
    assert_eq!(parsed_str(b"<48"), Some(b"H".to_vec()));
    assert_eq!(parsed_str(b"<>"), Some(vec![]));
    assert_eq!(parsed_str(b"<aBc>"), Some(vec![0xAB, 0xC0]));
    let mut tk = tok(b"<4 1>x");
    assert_eq!(tk.parse_hex_string(), Some(b"A".to_vec()));
    assert_eq!(tk.pos, 5);
}

#[test]
fn lit_string_position() {
    let mut tk = tok(b"(a(b)c)d");
    assert_eq!(tk.parse_lit_string(), Some(b"a(b)c".to_vec()));
    assert_eq!(tk.pos, 7);
    let mut tk = tok(b"(a(b)");
    assert_eq!(tk.parse_lit_string(), None);
}

#[test]
fn unterminated_array_fails() {
    let mut tk = tok(b"[1 2");
    assert!(tk.parse_array().is_none());
    let mut tk = tok(b"[1 (x]");
    assert!(tk.parse_array().is_none());
    let mut tk = tok(b"[] x");
    assert_eq!(tk.parse_array().map(|a| a.len()), Some(0));
    assert_eq!(tk.pos, 2);
}

#[test]
fn skip_value_forms() {
    let mut tk = tok(b"5 0 R /X");
    assert!(tk.skip_value());
    assert_eq!(tk.pos, 5);
    let mut tk = tok(b"[1 [2] 3] x");
    assert!(tk.skip_value());
    assert_eq!(tk.pos, 9);
    let mut tk = tok(b"<< /A << /B 1 >> >> x");
    assert!(tk.skip_value());
    assert_eq!(tk.pos, 19);
    let mut tk = tok(b"(s) x");
    assert!(tk.skip_value());
    assert_eq!(tk.pos, 3);
    let mut tk = tok(b"/N x");
    assert!(tk.skip_value());
    assert_eq!(tk.pos, 2);
    let mut tk = tok(b"   ");
    assert!(!tk.skip_value());
    let mut tk = tok(b"<< /A 1");
    assert!(!tk.skip_value());
}

#[test]
fn skip_dict_after_open() {
    let mut tk = tok(b" /A 1 /B (x) >>Q");
    assert!(tk.skip_dict());
    assert_eq!(tk.pos, 15);
    let mut tk = tok(b" /A 1 ");
    assert!(!tk.skip_dict());
}

#[test]
fn stray_closing_delimiter_stalls() {
    for data in [&b")"[..], b"]", b">", b"}", b"{", b"1 ) 2"] {
        let mut tk = tok(data);
        let mut r = tk.try_next_item();
        while let Some(Some(_)) = r {
            r = tk.try_next_item();
        }
        assert!(r.is_none(), "data {data:?}");
    }
    let mut tk = tok(b"BT");
    assert!(matches!(tk.try_next_item(), Some(Some(Item::Op(ref o))) if o == "BT"));
    assert!(matches!(tk.try_next_item(), Some(None)));
}

#[test]
fn operator_text_replaces_invalid_utf8() {
    let v = items(b"\xff\xfe q");
    assert_eq!(v.len(), 2);
    assert_eq!(op(&v[0]), "\u{FFFD}\u{FFFD}");
    assert_eq!(op(&v[1]), "q");
    let v = items("\u{e9}t".as_bytes());
    assert_eq!(op(&v[0]), "\u{e9}t");
}

#[test]
fn leading_space_ignored_example() {
    let a = items(b"  \n% note\n\t1 /F BT");
    let b = items(b"1 /F BT");
    assert_eq!(a.len(), b.len());
    assert_eq!(num_text(&a[0]), num_text(&b[0]));
    assert!(matches!(&a[1], Item::Val(Val::Name(n)) if n == b"F"));
    assert_eq!(op(&a[2]), op(&b[2]));
}

#[test]
fn next_item_moves_forward_example() {
    let data = b"1 2 m << /A 1 >> (s) Tj";
    let mut tk = tok(data);
    let mut last = tk.pos;
    let mut n = 0;
    while tk.next_item().is_some() {
        assert!(tk.pos > last);
        last = tk.pos;
        n += 1;
    }
    assert_eq!(n, 5);
}

#[test]
fn inline_image_dictionary_length() {
    let mut tk = tok(b" /W 1 /Length 4 /Length 7 >>ID");
    assert_eq!(tk.inline_image_length(), Some(b"7".to_vec()));
    assert_eq!(tk.pos, 28);
    let mut tk = tok(b" /Length /X >>");
    assert_eq!(tk.inline_image_length(), None);
    let mut tk = tok(b" /Length 4 ");
    assert_eq!(tk.inline_image_length(), None);
    let mut tk = tok(b"<< /L 4 >>");
    assert_eq!(tk.inline_image_header(), None);
    let mut tk = tok(b"  /Length 4 >>");
    assert_eq!(tk.inline_image_header(), None);
    let mut tk = tok(b"<< ) >>");
    assert!(tk.try_inline_image_header().is_none());
}

#[test]
fn inline_image_tail() {
    let data = b" ID\nwxyz\nEI Q";
    let mut tk = tok(data);
    assert!(tk.finish_inline_image(4));
    assert_eq!(tk.pos, 11);
    let mut tk = tok(data);
    assert!(tk.finish_inline_image(5));
    let mut tk = tok(data);
    assert!(!tk.finish_inline_image(3));
    let mut tk = tok(data);
    assert!(!tk.finish_inline_image(100));
    let mut tk = tok(b" IX\nwxyz\nEI");
    assert!(!tk.finish_inline_image(4));
}

#[test]
fn inline_image_length_from_caller() {
    let data = b"<< /Length 2.9 >> ID\nab\nEI";
    let mut tk = tok(data);
    assert!(tk.handle_inline_image(|t| {
        assert_eq!(t, b"2.9");
        2
    }));
    assert_eq!(tk.pos, data.len());
    let mut tk = tok(b"<< /Width 2 >> ID\nab\nEI");
    assert!(!tk.handle_inline_image(|_| 2));
}

#[test]
fn skip_value_fails_on_unclosed_values() {
    let mut tk = tok(b"[1 2");
    assert!(!tk.skip_value());
    assert_eq!(tk.pos, 4);
    let mut tk = tok(b"[1 [2] 3");
    assert!(!tk.skip_value());
    let mut tk = tok(b"(abc");
    assert!(!tk.skip_value());
    assert_eq!(tk.pos, 4);
    let mut tk = tok(b"<414");
    assert!(!tk.skip_value());
    assert_eq!(tk.pos, 4);
    let mut tk = tok(b"<4z> x");
    assert!(!tk.skip_value());
    assert_eq!(tk.pos, 2);
    let mut tk = tok(b"<41> x");
    assert!(tk.skip_value());
    assert_eq!(tk.pos, 4);
    // a dictionary holding an unclosed value cannot be skipped
    assert!(matches!(tok(b"<< /A [1 2 >>").parse_val(), Parsed::Fail));
    assert!(matches!(tok(b"<< /A (x >>").parse_val(), Parsed::Fail));
}

#[test]
fn strings_at_end_of_data() {
    let mut tk = Tok { data: b"ab", pos: 2 };
    assert_eq!(tk.parse_lit_string(), None);
    assert_eq!(tk.pos, 2);
    let mut tk = Tok { data: b"ab", pos: 2 };
    assert_eq!(tk.parse_hex_string(), Some(vec![]));
    assert_eq!(tk.pos, 2);
}
