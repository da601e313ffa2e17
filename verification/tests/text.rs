use rhwp::text::{push_decimal, push_escaped};

fn escaped(s: &str) -> String {
    let mut out = String::new();
    push_escaped(&mut out, s);
    out
}

fn unescaped(t: &str) -> String {
    t.replace("&lt;", "<")
        .replace("&gt;", ">")
        .replace("&quot;", "\"")
        .replace("&apos;", "'")
        .replace("&amp;", "&")
}

#[test]
fn escaping_replaces_the_five_metacharacters() {
    assert_eq!(escaped("A & B <test>"), "A &amp; B &lt;test&gt;");
    assert_eq!(escaped("\"R&D\" 'x'"), "&quot;R&amp;D&quot; &apos;x&apos;");
    assert_eq!(escaped("분기 실적"), "분기 실적");
    assert_eq!(escaped(""), "");
}

#[test]
fn escaping_is_undone_by_unescaping() {
    for s in ["&amp;", "a;b", "&lt;;", "<>&\"'", "R&D", "1분기"] {
        let e = escaped(s);
        assert!(!e.contains('<') && !e.contains('>') && !e.contains('"') && !e.contains('\''));
        assert_eq!(unescaped(&e), s);
    }
}

#[test]
fn decimals() {
    let mut s = String::new();
    push_decimal(&mut s, 0);
    s.push(' ');
    push_decimal(&mut s, 7);
    s.push(' ');
    push_decimal(&mut s, 1234567890);
    assert_eq!(s, "0 7 1234567890");
}

#[test]
fn escaping_is_not_idempotent() {
    assert_eq!(escaped("&"), "&amp;");
    assert_eq!(escaped("&amp;"), "&amp;amp;");
}

#[test]
fn plain_text_is_left_as_it_is() {
    assert_eq!(escaped("184.5 매출액 -3"), "184.5 매출액 -3");
    assert_ne!(escaped("a>b"), "a>b");
}
