use cyclic_brackets::Error;
use cyclic_brackets::create_longest_substring;

#[test]
fn empty() {
    assert_eq!(create_longest_substring("").unwrap(), "");
    assert_eq!(create_longest_substring("(").unwrap(), "");
    assert_eq!(create_longest_substring("(})").unwrap(), "");
    assert_eq!(create_longest_substring("([)]]})").unwrap(), "");
    assert_eq!(create_longest_substring("(((").unwrap(), "");
}

#[test]
fn without_brackets() {
    assert_eq!(create_longest_substring("abc").unwrap(), "Infinite");
    assert_eq!(create_longest_substring("pasd").unwrap(), "Infinite");
    assert_eq!(create_longest_substring("zxc").unwrap(), "Infinite");
}

#[test]
fn with_equal_brackets() {
    assert_eq!(create_longest_substring("(a(b)c)").unwrap(), "Infinite");
    assert_eq!(create_longest_substring("{(a[b]c)}").unwrap(), "Infinite");
    assert_eq!(create_longest_substring("a)b)(c(d").unwrap(), "Infinite");
    assert_eq!(
        create_longest_substring("[[g][f]]d))j}{k}{(l(").unwrap(),
        "Infinite"
    );
    assert_eq!(
        create_longest_substring(")p)}{q}i{((x[[]z[]y]o").unwrap(),
        "Infinite"
    );
    assert_eq!(create_longest_substring("q))]w[e((r").unwrap(), "Infinite");
}

#[test]
fn finite() {
    assert_eq!(create_longest_substring("))[((").unwrap(), "(())");
    assert_eq!(create_longest_substring("])}([{}").unwrap(), "([{}])");
    assert_eq!(create_longest_substring(")}([{}]").unwrap(), "([{}])");
    assert_eq!(
        create_longest_substring("])}b(a[{efg}").unwrap(),
        "b(a[{efg}])"
    );
    assert_eq!(
        create_longest_substring(")}(m[{o}]oops").unwrap(),
        "(m[{o}]oops)"
    );
    assert_eq!(create_longest_substring("}}}a(((").unwrap(), "a");
    assert_eq!(create_longest_substring("(a(b(d").unwrap(), "a");
    assert_eq!(create_longest_substring("(a(bc(d").unwrap(), "bc");
    assert_eq!(create_longest_substring("ab()(d").unwrap(), "dab()");
    assert_eq!(
        create_longest_substring("ab()]abc()(}}dr").unwrap(),
        "drab()"
    );
    assert_eq!(
        create_longest_substring("(aaaaaaabbbbbcccccc").unwrap(),
        "aaaaaaabbbbbcccccc"
    );
    assert_eq!(
        create_longest_substring(")aaaaaaabbbbbcccccc").unwrap(),
        "aaaaaaabbbbbcccccc"
    );
}

#[test]
fn invalid() {
    assert_eq!(
        create_longest_substring("(🖐)){✊}").unwrap_err(),
        Error::NonByteChar
    );
    assert_eq!(
        create_longest_substring("(🖐){✊}").unwrap_err(),
        Error::NonByteChar
    );
    assert_eq!(
        create_longest_substring("🦅").unwrap_err(),
        Error::NonByteChar
    );
}

#[test]
fn rescan_of_finite_answer_never_shrinks() {
    // A finite answer, fed back in whole, classifies as at least as long:
    // a fully balanced or bracket-free answer repeats without limit.
    for input in ["}}}a(((", "))[((", "ab()(d", "(a(bc(d"] {
        let answer = create_longest_substring(input).unwrap();
        assert_ne!(answer, "Infinite");
        let rescanned = create_longest_substring(&answer).unwrap();
        assert_eq!(rescanned, "Infinite");
    }
}

#[test]
fn finite_answer_never_longer_than_two_laps() {
    for input in ["", "(", "))[((", "])}b(a[{efg}", "}}}a(((", "ab()]abc()(}}dr"] {
        let answer = create_longest_substring(input).unwrap();
        assert_ne!(answer, "Infinite");
        assert!(answer.len() <= 2 * input.len());
    }
}

#[test]
fn wrap_answer_is_tail_then_head() {
    // The answer for "ab()(d" straddles the wrap point: it is the input's
    // tail from the span's start followed by the input's head.
    let input = "ab()(d";
    let answer = create_longest_substring(input).unwrap();
    let reconstructed = format!("{}{}", &input[5..], &input[..4]);
    assert_eq!(answer, reconstructed);

    let input = "ab()]abc()(}}dr";
    let answer = create_longest_substring(input).unwrap();
    let reconstructed = format!("{}{}", &input[13..], &input[..4]);
    assert_eq!(answer, reconstructed);
}

#[test]
fn non_byte_char_rejected_anywhere() {
    // A character needing more than one byte fails the whole input,
    // regardless of its position.
    assert_eq!(
        create_longest_substring("\u{1F985}abc").unwrap_err(),
        Error::NonByteChar
    );
    assert_eq!(
        create_longest_substring("ab\u{1F985}c").unwrap_err(),
        Error::NonByteChar
    );
    assert_eq!(
        create_longest_substring("abc\u{1F985}").unwrap_err(),
        Error::NonByteChar
    );
    // Two bytes in UTF-8 is already too many, even where UTF-16 needs one unit.
    assert_eq!(
        create_longest_substring("(\u{e9})").unwrap_err(),
        Error::NonByteChar
    );
}

#[test]
fn filler_only_inputs_are_infinite() {
    assert_eq!(create_longest_substring("x").unwrap(), "Infinite");
    assert_eq!(create_longest_substring("  ").unwrap(), "Infinite");
    assert_eq!(create_longest_substring("filler only").unwrap(), "Infinite");
}

#[test]
fn lone_closers_yield_empty() {
    assert_eq!(create_longest_substring(")").unwrap(), "");
    assert_eq!(create_longest_substring(")]}").unwrap(), "");
}
