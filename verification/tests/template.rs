use how::template::{parse, Error, IncrementalU8, TemplateSection, TemplatedCommand};

fn chars(s: &str) -> Vec<char> {
    s.chars().collect()
}

#[test]
fn works() {
    let t = parse("git diff [main#from#1]..[#to]").unwrap();
    assert_eq!(t.display, chars("git diff main.."));
    assert_eq!(t.sections.len(), 4);
    assert!(matches!(&t.sections[0], TemplateSection::Literal(r) if *r == (0..9)));
    assert!(
        matches!(&t.sections[1], TemplateSection::Input(r, d) if *r == (9..13) && *d == chars("from"))
    );
    assert!(matches!(&t.sections[2], TemplateSection::Literal(r) if *r == (13..15)));
    assert!(
        matches!(&t.sections[3], TemplateSection::Input(r, d) if *r == (15..15) && *d == chars("to"))
    );
    assert_eq!(t.input_order, vec![vec![1], vec![3]]);
}

#[test]
fn plain_text_is_one_literal() {
    let t = parse("hello world").unwrap();
    assert_eq!(t.display, chars("hello world"));
    assert_eq!(t.sections.len(), 1);
    assert!(matches!(&t.sections[0], TemplateSection::Literal(r) if *r == (0..11)));
    assert!(t.input_order.is_empty());
}

#[test]
fn hash_is_plain_in_literal_text() {
    let t = parse("a#b").unwrap();
    assert_eq!(t.display, chars("a#b"));
    assert_eq!(t.sections.len(), 1);
    assert!(matches!(&t.sections[0], TemplateSection::Literal(r) if *r == (0..3)));
}

#[test]
fn empty_input_parses_to_nothing() {
    let t = parse("").unwrap();
    assert!(t.display.is_empty());
    assert!(t.sections.is_empty());
    assert!(t.input_order.is_empty());
}

#[test]
fn escaped_open_bracket_is_literal() {
    let t = parse("\\[").unwrap();
    assert_eq!(t.display, chars("["));
    assert_eq!(t.sections.len(), 1);
    assert!(matches!(&t.sections[0], TemplateSection::Literal(r) if *r == (0..1)));
}

#[test]
fn escaped_close_bracket_is_literal() {
    let t = parse("\\]").unwrap();
    assert_eq!(t.display, chars("]"));
    assert!(matches!(&t.sections[0], TemplateSection::Literal(r) if *r == (0..1)));
}

#[test]
fn escaped_hash_is_literal() {
    let t = parse("\\#").unwrap();
    assert_eq!(t.display, chars("#"));
    assert!(matches!(&t.sections[0], TemplateSection::Literal(r) if *r == (0..1)));
}

#[test]
fn escaped_backslash_is_literal() {
    let t = parse("\\\\").unwrap();
    assert_eq!(t.display, chars("\\"));
    assert!(matches!(&t.sections[0], TemplateSection::Literal(r) if *r == (0..1)));
}

#[test]
fn backslash_before_plain_character_stays() {
    let t = parse("a\\zb").unwrap();
    assert_eq!(t.display, chars("a\\zb"));
    assert_eq!(t.sections.len(), 1);
    assert!(matches!(&t.sections[0], TemplateSection::Literal(r) if *r == (0..4)));
}

#[test]
fn trailing_backslash_is_dropped() {
    let t = parse("ab\\").unwrap();
    assert_eq!(t.display, chars("ab"));
}

#[test]
fn escaped_bracket_inside_default_value() {
    let t = parse("[a\\]b]").unwrap();
    assert_eq!(t.display, chars("a]b"));
    assert_eq!(t.sections.len(), 1);
    assert!(
        matches!(&t.sections[0], TemplateSection::Input(r, d) if *r == (0..3) && d.is_empty())
    );
    assert_eq!(t.input_order, vec![vec![0]]);
}

#[test]
fn field_with_default_only() {
    let t = parse("[def]").unwrap();
    assert_eq!(t.display, chars("def"));
    assert_eq!(t.sections.len(), 1);
    assert!(
        matches!(&t.sections[0], TemplateSection::Input(r, d) if *r == (0..3) && d.is_empty())
    );
    assert_eq!(t.input_order, vec![vec![0]]);
}

#[test]
fn field_with_description() {
    let t = parse("[main#from]").unwrap();
    assert_eq!(t.display, chars("main"));
    assert_eq!(t.sections.len(), 1);
    assert!(
        matches!(&t.sections[0], TemplateSection::Input(r, d) if *r == (0..4) && *d == chars("from"))
    );
    assert_eq!(t.input_order, vec![vec![0]]);
}

#[test]
fn gap_fill_ordering() {
    // X unnumbered, Y explicitly 2, Z unnumbered: X fills the slot
    // below 2, Z trails behind.
    let t = parse("[x][y#d#2][z]").unwrap();
    assert_eq!(t.input_order, vec![vec![0], vec![1], vec![2]]);
}

#[test]
fn gap_fill_interleaves_automatic_fields() {
    let t = parse("some-command [a] [b##3] [c] [d]").unwrap();
    // Sections: literals at even indices, inputs a=1, b=3, c=5, d=7.
    // b is pinned to slot 3, so a and c fill slots 1 and 2 and d trails.
    assert_eq!(t.input_order, vec![vec![1], vec![5], vec![3], vec![7]]);
}

#[test]
fn duplicate_orders_form_one_group() {
    let t = parse("[a#d#5][b#e#5]").unwrap();
    assert_eq!(t.input_order, vec![vec![0, 1]]);
}

#[test]
fn multi_digit_order() {
    let t = parse("[a#d#12]").unwrap();
    assert_eq!(t.input_order, vec![vec![0]]);
}

#[test]
fn nested_open_bracket_is_rejected() {
    assert_eq!(parse("[[a]]").unwrap_err(), Error::NestedField);
}

#[test]
fn stray_close_bracket_is_rejected() {
    assert_eq!(parse("[a]]").unwrap_err(), Error::UnbalancedDelimiters);
}

#[test]
fn zero_order_is_rejected() {
    assert_eq!(parse("[a#d#0]").unwrap_err(), Error::InvalidNumber);
}

#[test]
fn non_digit_order_is_rejected() {
    assert_eq!(parse("[a#d#x]").unwrap_err(), Error::InvalidNumber);
}

#[test]
fn empty_order_is_rejected() {
    assert_eq!(parse("[a#d#]").unwrap_err(), Error::MissingNumber);
}

#[test]
fn third_separator_is_rejected() {
    assert_eq!(parse("[a#d#9#]").unwrap_err(), Error::TooManyFields);
}

#[test]
fn overflowing_order_is_rejected() {
    assert_eq!(parse("[a#d#256]").unwrap_err(), Error::NumberOverflow);
}

#[test]
fn unterminated_field_is_rejected() {
    assert_eq!(parse("prefix [default").unwrap_err(), Error::UnbalancedDelimiters);
}

#[test]
fn accumulator_reads_digits() {
    let acc = IncrementalU8::new();
    assert_eq!(acc.get(), 0);
    let acc = acc.read_digit('2').unwrap();
    let acc = acc.read_digit('5').unwrap();
    let acc = acc.read_digit('5').unwrap();
    assert_eq!(acc.get(), 255);
}

#[test]
fn accumulator_rejects_non_digit() {
    assert_eq!(IncrementalU8::new().read_digit('q').unwrap_err(), Error::InvalidNumber);
}

#[test]
fn accumulator_rejects_overflow() {
    let acc = IncrementalU8::new()
        .read_digit('2')
        .unwrap()
        .read_digit('5')
        .unwrap()
        .read_digit('6');
    assert_eq!(acc.unwrap_err(), Error::NumberOverflow);
}

#[test]
fn error_messages_name_the_fault() {
    assert_eq!(
        parse("[[a]]").unwrap_err().message(),
        "found bracket within bracket: escape at least one to clarify intent"
    );
    assert_eq!(
        parse("[a#d#0]").unwrap_err().message(),
        "invalid input index: must be a positive integer"
    );
}

#[test]
fn accumulator_from_byte() {
    assert_eq!(IncrementalU8::from(7u8).get(), 7);
}

#[test]
fn escaped_hash_in_description_goes_to_display() {
    // The escape always emits into the display text, even while a
    // description is being read: the hash lands after the default
    // value's span and the description keeps only the plain characters.
    let t = parse("[a#d\\#e]").unwrap();
    assert_eq!(t.display, chars("a#"));
    assert_eq!(t.sections.len(), 1);
    assert!(
        matches!(&t.sections[0], TemplateSection::Input(r, d) if *r == (0..1) && *d == chars("de"))
    );
}

#[test]
fn templated_command_pushes_sections() {
    let mut t = TemplatedCommand::default();
    assert!(t.display.is_empty());
    assert!(t.sections.is_empty());
    assert!(t.input_order.is_empty());
    t.push_literal(0..2);
    t.push_input(2..5, chars("d"));
    assert_eq!(t.sections.len(), 2);
    assert!(matches!(&t.sections[0], TemplateSection::Literal(r) if *r == (0..2)));
    assert!(
        matches!(&t.sections[1], TemplateSection::Input(r, d) if *r == (2..5) && *d == chars("d"))
    );
}
