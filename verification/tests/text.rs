use code_comments::ids::{CommentId, ThreadId};
use code_comments::text;

#[test]
fn whitespace_is_what_std_says() {
    for n in 0..=0x10FFFFu32 {
        if let Some(c) = char::from_u32(n) {
            assert_eq!(text::char_is_whitespace(c), c.is_whitespace(), "{:x}", n);
        }
    }
}

#[test]
fn trim_agrees_with_std() {
    let samples = [
        "",
        " ",
        "a",
        "  a b  ",
        "\t\n x \r\n",
        "\u{3000}wide\u{2003}",
        "no-trim",
        "\u{200b}zero width\u{200b}",
        "   \n\t ",
    ];
    for s in samples {
        assert_eq!(text::trim(s), s.trim());
    }
}

#[test]
fn integers_read_like_std() {
    let samples = [
        "0", "1", "-1", "+7", "-", "+", "", " 1", "1 ", "12a", "9223372036854775807",
        "9223372036854775808", "-9223372036854775808", "-9223372036854775809", "007", "-0",
        "00000000000000000000000000000042", "\u{661}", "99999999999999999999", "--1", "+-1",
    ];
    for s in samples {
        assert_eq!(text::parse_i64(s), s.parse::<i64>().ok(), "{:?}", s);
    }
}

#[test]
fn integers_write_like_std_and_read_back() {
    for n in [0i64, 1, 9, 10, 99, 100, -1, -10, 123456789, i64::MAX, i64::MIN] {
        assert_eq!(text::i64_to_decimal(n), n.to_string());
        assert_eq!(text::parse_i64(&text::i64_to_decimal(n)), Some(n));
    }
    for n in [0u64, 7, 4294967296, u64::MAX] {
        assert_eq!(text::u64_to_decimal(n), n.to_string());
    }
}

#[test]
fn joining_repeating_and_replacing() {
    let words = vec!["a".to_string(), "bc".to_string(), String::new(), "d".to_string()];
    assert_eq!(text::join(&words, ", "), words.join(", "));
    assert_eq!(text::join_first(&words, 2, "-"), "a-bc");
    assert_eq!(text::join(&Vec::new(), ", "), "");
    assert_eq!(text::repeat("ab", 3), "ababab");
    assert_eq!(text::repeat("ab", 0), "");
    assert_eq!(text::replace_newlines("a\nb\n", "|"), "a\nb\n".replace('\n', "|"));
    assert_eq!(text::clone_words(&words), words);
}

#[test]
fn identifier_text_is_the_hyphenated_form() {
    let id = ThreadId(0x0123_4567_89ab_cdef_0123_4567_89ab_cdef);
    assert_eq!(id.to_text(), "01234567-89ab-cdef-0123-456789abcdef");
    assert_eq!(id.to_text(), uuid::Uuid::from_u128(id.0).to_string());
}

#[test]
fn identifier_text_reads_back() {
    for n in [0u128, 1, u128::MAX, 0xdead_beef, 0x8000_0000_0000_0000_0000_0000_0000_0000] {
        assert_eq!(ThreadId::from_text(&ThreadId(n).to_text()), Some(ThreadId(n)));
        assert_eq!(CommentId::from_text(&CommentId(n).to_text()), Some(CommentId(n)));
    }
}

#[test]
fn other_identifier_texts_are_read_by_the_uuid_crate() {
    let upper = "01234567-89AB-CDEF-0123-456789ABCDEF";
    assert_eq!(
        ThreadId::from_text(upper),
        Some(ThreadId(0x0123_4567_89ab_cdef_0123_4567_89ab_cdef))
    );
    assert_eq!(
        CommentId::from_text("0123456789abcdef0123456789abcdef"),
        Some(CommentId(0x0123_4567_89ab_cdef_0123_4567_89ab_cdef))
    );
    assert_eq!(ThreadId::from_text("not a uuid"), None);
    assert_eq!(CommentId::from_text(""), None);
    let id = Some(ThreadId(0x67e5504410b1426f9247bb680e5fe0c8));
    for text in [
        "67e55044-10b1-426f-9247-bb680e5fe0c8",
        "67E55044-10b1-426F-9247-bb680e5fe0C8",
        "{67e55044-10b1-426f-9247-bb680e5fe0c8}",
        "urn:uuid:67e55044-10b1-426f-9247-bb680e5fe0c8",
        "URN:Uuid:67e55044-10b1-426f-9247-bb680e5fe0c8",
    ] {
        assert_eq!(ThreadId::from_text(text), id, "{text}");
    }
    for text in [
        "67e5504410-b1-426f-9247-bb680e5fe0c8",
        "g7e55044-10b1-426f-9247-bb680e5fe0c8",
        "(67e55044-10b1-426f-9247-bb680e5fe0c8)",
        "{67e5504410b1426f9247bb680e5fe0c8}",
        "url:uuid:67e55044-10b1-426f-9247-bb680e5fe0c8",
        " 67e55044-10b1-426f-9247-bb680e5fe0c8",
        "é7e5504410b1426f9247bb680e5fe0c8",
    ] {
        assert_eq!(ThreadId::from_text(text), None, "{text}");
    }
}

#[test]
fn fresh_identifiers_are_random_uuids() {
    let a = ThreadId::new();
    let b = ThreadId::default();
    assert_ne!(a, b);
    for value in [a.0, b.0, CommentId::new().0, CommentId::default().0] {
        let id = uuid::Uuid::from_u128(value);
        assert_eq!(id.get_version_num(), 4);
        assert_eq!(id.get_variant(), uuid::Variant::RFC4122);
    }
}
