use amasario::export::{dot, graphml};

#[test]
fn escaped_dot_text_has_no_line_breaks_and_reads_back() {
    let original = "line one\n\"quoted\" back\\slash";
    let escaped = dot::escape(original);
    assert!(!escaped.contains('\n') && !escaped.contains('\r'));
    assert_eq!(escaped, "line one\\n\\\"quoted\\\" back\\\\slash");
    let mut read = String::new();
    let mut chars = escaped.chars();
    while let Some(c) = chars.next() {
        if c == '\\' {
            match chars.next() {
                Some('n') => read.push('\n'),
                Some(other) => read.push(other),
                None => {}
            }
        } else {
            read.push(c);
        }
    }
    assert_eq!(read, original);
}

#[test]
fn escaped_xml_text_holds_no_markup_character() {
    let escaped = graphml::escape("<edge a=\"1\" b='2'>&\u{1}</edge>");
    for forbidden in ['<', '>', '"', '\'', '\u{1}'] {
        assert!(!escaped.contains(forbidden), "{escaped}");
    }
    assert_eq!(escaped, "&lt;edge a=&quot;1&quot; b=&apos;2&apos;&gt;&amp;&lt;/edge&gt;");
}
