use exect_core::manifest::push_manifest_line;
use exect_core::naming::{leading_word, lower_camel_from, push_camel_tail, to_capital};
use exect_core::text::{digit_char, push_decimal, push_hex_byte, push_signed_decimal};
use exect_core::{
    generate_manifest, to_lower_camel_case, to_upper_camel_case, ExectError, InstructionInfo,
    ManifestFunctionNameFormat, ManifestOrdering, Registry,
};

fn demo_registry() -> Registry<()> {
    let mut registry = Registry::new();
    for (code, name) in [(0x01, "foo"), (0x02, "test_function"), (0x03, "jump_to"), (0xAB, "Stop")] {
        let info = InstructionInfo { code, name, instruction_factory: () };
        assert_eq!(registry.register(info), Ok(()));
    }
    registry
}

#[test]
fn manifest_code_first_original() {
    let text = generate_manifest(
        &demo_registry(),
        3,
        "Main".to_string(),
        ManifestFunctionNameFormat::Original,
        ManifestOrdering::CodeFirst,
    );
    assert_eq!(
        text,
        "Version: 3\nName: Main\nOrdering: CodeFirst\nInstructions:\n\
         0x01 => foo\n0x02 => test_function\n0x03 => jump_to\n0xAB => Stop\n"
    );
}

#[test]
fn manifest_name_first_upper_camel() {
    let text = generate_manifest(
        &demo_registry(),
        -17,
        "Side Car".to_string(),
        ManifestFunctionNameFormat::UpperCamelCase,
        ManifestOrdering::NameFirst,
    );
    assert_eq!(
        text,
        "Version: -17\nName: Side Car\nOrdering: NameFirst\nInstructions:\n\
         Foo => 0x01\nTestFunction => 0x02\nJumpTo => 0x03\nStop => 0xAB\n"
    );
}

#[test]
fn manifest_code_first_lower_camel() {
    let text = generate_manifest(
        &demo_registry(),
        0,
        String::new(),
        ManifestFunctionNameFormat::LowerCamelCase,
        ManifestOrdering::CodeFirst,
    );
    assert_eq!(
        text,
        "Version: 0\nName: \nOrdering: CodeFirst\nInstructions:\n\
         0x01 => foo\n0x02 => testFunction\n0x03 => jumpTo\n0xAB => stop\n"
    );
}

#[test]
fn manifest_of_an_empty_registry_is_the_header() {
    let registry: Registry<()> = Registry::new();
    let text = generate_manifest(
        &registry,
        i32::MIN,
        "x".to_string(),
        ManifestFunctionNameFormat::Original,
        ManifestOrdering::NameFirst,
    );
    assert_eq!(text, "Version: -2147483648\nName: x\nOrdering: NameFirst\nInstructions:\n");
}

#[test]
fn manifest_is_the_same_every_time() {
    let registry = demo_registry();
    let formats = [
        ManifestFunctionNameFormat::Original,
        ManifestFunctionNameFormat::UpperCamelCase,
        ManifestFunctionNameFormat::LowerCamelCase,
    ];
    for format in formats {
        for ordering in [ManifestOrdering::CodeFirst, ManifestOrdering::NameFirst] {
            let first = generate_manifest(&registry, 7, "Main".to_string(), format, ordering);
            let second = generate_manifest(&registry, 7, "Main".to_string(), format, ordering);
            assert_eq!(first.as_bytes(), second.as_bytes());
        }
    }
}

#[test]
fn manifest_lines_follow_registration_order() {
    let mut registry = Registry::new();
    for (code, name) in [(0x10, "b"), (0x05, "a")] {
        assert_eq!(registry.register(InstructionInfo { code, name, instruction_factory: () }), Ok(()));
    }
    let text = generate_manifest(
        &registry,
        1,
        "n".to_string(),
        ManifestFunctionNameFormat::Original,
        ManifestOrdering::CodeFirst,
    );
    assert!(text.ends_with("Instructions:\n0x10 => b\n0x05 => a\n"));
}

#[test]
fn manifest_line_in_both_orders() {
    let mut text = String::from("> ");
    push_manifest_line(
        &mut text,
        0x0F,
        "do_it",
        ManifestFunctionNameFormat::UpperCamelCase,
        ManifestOrdering::CodeFirst,
    );
    push_manifest_line(
        &mut text,
        0xF0,
        "do_it",
        ManifestFunctionNameFormat::LowerCamelCase,
        ManifestOrdering::NameFirst,
    );
    assert_eq!(text, "> 0x0F => DoIt\ndoIt => 0xF0\n");
}

#[test]
fn upper_camel_case() {
    assert_eq!(to_upper_camel_case("foo"), "Foo");
    assert_eq!(to_upper_camel_case("test_function"), "TestFunction");
    assert_eq!(to_upper_camel_case("jump_to"), "JumpTo");
    assert_eq!(to_upper_camel_case("a_b_c"), "ABC");
    assert_eq!(to_upper_camel_case("already_Upper"), "AlreadyUpper");
    assert_eq!(to_upper_camel_case("keeps_tHE_rest"), "KeepsTHERest");
    assert_eq!(to_upper_camel_case("v2_x9"), "V2X9");
    assert_eq!(to_upper_camel_case("op_1st"), "Op1st");
    assert_eq!(to_upper_camel_case(""), "");
}

#[test]
fn upper_camel_case_skips_empty_words() {
    assert_eq!(to_upper_camel_case("_foo"), "Foo");
    assert_eq!(to_upper_camel_case("foo_"), "Foo");
    assert_eq!(to_upper_camel_case("foo__bar"), "FooBar");
    assert_eq!(to_upper_camel_case("___"), "");
}

#[test]
fn upper_camel_case_leaves_other_letters_alone() {
    assert_eq!(to_upper_camel_case("\u{e9}t\u{e9}_z"), "\u{e9}t\u{e9}Z");
    assert_eq!(to_upper_camel_case("{x_|y"), "{x|y");
}

#[test]
fn lower_camel_case() {
    assert_eq!(to_lower_camel_case("foo"), "foo");
    assert_eq!(to_lower_camel_case("test_function"), "testFunction");
    assert_eq!(to_lower_camel_case("Test_function"), "testFunction");
    assert_eq!(to_lower_camel_case("JUMP_to_it"), "jumpToIt");
    assert_eq!(to_lower_camel_case("a_b_c"), "aBC");
    assert_eq!(to_lower_camel_case("keeps_tHE_rest"), "keepsTHERest");
    assert_eq!(to_lower_camel_case(""), "");
    assert_eq!(to_lower_camel_case("_foo"), "Foo");
    assert_eq!(to_lower_camel_case("foo__bar_"), "fooBar");
}

#[test]
fn lower_camel_case_lowers_the_first_word_by_unicode() {
    assert_eq!(to_lower_camel_case("\u{c9}T\u{c9}_z"), "\u{e9}t\u{e9}Z");
    assert_eq!(to_lower_camel_case("\u{c9}T\u{c9}"), "\u{c9}T\u{c9}".to_lowercase());
}

#[test]
fn pieces_of_the_casings() {
    assert_eq!(to_capital('a'), 'A');
    assert_eq!(to_capital('z'), 'Z');
    assert_eq!(to_capital('A'), 'A');
    assert_eq!(to_capital('`'), '`');
    assert_eq!(to_capital('{'), '{');
    assert_eq!(to_capital('5'), '5');
    assert_eq!(to_capital('\u{e9}'), '\u{e9}');
    assert_eq!(leading_word("test_function"), "test");
    assert_eq!(leading_word("plain"), "plain");
    assert_eq!(leading_word("_x"), "");
    assert_eq!(lower_camel_from("xyz".to_string(), "abc_def_g"), "xyzDefG");
    assert_eq!(lower_camel_from("xyz".to_string(), "abc"), "xyz");
    let mut out = String::from("<");
    push_camel_tail(&mut out, "ab_cd", false);
    push_camel_tail(&mut out, "ef", true);
    assert_eq!(out, "<abCdEf");
}

#[test]
fn numbers_as_text() {
    let mut text = String::new();
    push_decimal(&mut text, 0);
    text.push(' ');
    push_decimal(&mut text, 9);
    text.push(' ');
    push_decimal(&mut text, 10);
    text.push(' ');
    push_decimal(&mut text, 1234567890);
    text.push(' ');
    push_decimal(&mut text, u64::MAX);
    assert_eq!(text, "0 9 10 1234567890 18446744073709551615");

    let mut text = String::new();
    push_signed_decimal(&mut text, 0);
    text.push(' ');
    push_signed_decimal(&mut text, -1);
    text.push(' ');
    push_signed_decimal(&mut text, i64::MIN);
    text.push(' ');
    push_signed_decimal(&mut text, i64::MAX);
    assert_eq!(text, "0 -1 -9223372036854775808 9223372036854775807");

    let mut text = String::new();
    for byte in [0x00, 0x09, 0x0A, 0x1F, 0xA0, 0xFF] {
        push_hex_byte(&mut text, byte);
    }
    assert_eq!(text, "0x000x090x0A0x1F0xA00xFF");
    for byte in 0..=255u8 {
        let mut text = String::new();
        push_hex_byte(&mut text, byte);
        assert_eq!(text, format!("0x{:02X}", byte));
    }
    assert_eq!(digit_char(0), '0');
    assert_eq!(digit_char(9), '9');
    assert_eq!(digit_char(10), 'A');
    assert_eq!(digit_char(15), 'F');
}

#[test]
fn error_messages() {
    assert_eq!(
        ExectError::UnknownInstruction(255).message(),
        "Cannot execute, unknown instruction: 255"
    );
    assert_eq!(
        ExectError::UnknownInstruction(0).message(),
        "Cannot execute, unknown instruction: 0"
    );
    assert_eq!(ExectError::DecodeError.message(), "Cannot execute, malformed instruction payload");
    assert_eq!(
        ExectError::DuplicateRegistration(1).message(),
        "Cannot register, instruction code already taken: 1"
    );
    assert_eq!(
        ExectError::InvalidJumpTarget(123456).message(),
        "Cannot execute, jump target past the end: 123456"
    );
    assert_eq!(ExectError::StepLimitExceeded.message(), "Cannot execute, step limit exceeded");
}
