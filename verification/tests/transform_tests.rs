use yact::config::BuiltinTransformer;
use yact::config::ShellCommandTransformer;
use yact::config::TransformerOptions;
use yact::errors::Error;
use yact::transform::advance_chain;
use yact::transform::external_outcome;
use yact::transform::trailing_whitespace;
use yact::transform::utf8_check;
use yact::transform::ChainProgress;

#[test]
fn strips_trailing_spaces_and_terminates_last_line() {
    let out = trailing_whitespace(b"# Blah     ").unwrap();
    assert_eq!(out, b"# Blah\n");
}

#[test]
fn strips_each_line_and_keeps_blank_lines() {
    let out = trailing_whitespace(b"a \nb\t\n\nc").unwrap();
    assert_eq!(out, b"a\nb\n\nc\n");
}

#[test]
fn empty_input_stays_empty() {
    let out = trailing_whitespace(b"").unwrap();
    assert_eq!(out, b"");
}

#[test]
fn carriage_return_is_trailing_whitespace() {
    let out = trailing_whitespace(b"a\r\nb\x0b\x0c\r").unwrap();
    assert_eq!(out, b"a\nb\n");
}

#[test]
fn already_clean_input_is_unchanged() {
    let out = trailing_whitespace(b"# Blah\n").unwrap();
    assert_eq!(out, b"# Blah\n");
}

#[test]
fn stripping_twice_changes_nothing_more() {
    let once = trailing_whitespace(b"x  \n y\t ").unwrap();
    let twice = trailing_whitespace(&once).unwrap();
    assert_eq!(once, twice);
}

#[test]
fn multibyte_text_is_accepted_and_preserved() {
    let out = trailing_whitespace("héllo wörld  ".as_bytes()).unwrap();
    assert_eq!(out, "héllo wörld\n".as_bytes());
}

#[test]
fn unicode_whitespace_is_trimmed() {
    // No-break space.
    assert_eq!(trailing_whitespace("a\u{a0}".as_bytes()).unwrap(), b"a\n");
    // Next line.
    assert_eq!(trailing_whitespace("b\u{85}".as_bytes()).unwrap(), b"b\n");
    // Ogham space mark, en quad, ideographic space.
    assert_eq!(
        trailing_whitespace("c\u{1680}\u{2000}\u{3000}".as_bytes()).unwrap(),
        b"c\n"
    );
    // Line and paragraph separators, narrow no-break and medium
    // mathematical spaces.
    assert_eq!(
        trailing_whitespace("d\u{2028}\u{2029}\u{202f}\u{205f}".as_bytes()).unwrap(),
        b"d\n"
    );
    // Mixed ASCII and multi-byte whitespace, per line.
    assert_eq!(
        trailing_whitespace("e \u{a0}\t\nf\u{2009} ".as_bytes()).unwrap(),
        b"e\nf\n"
    );
}

#[test]
fn non_whitespace_multibyte_suffixes_stay() {
    // A zero-width space is not in the White_Space set.
    assert_eq!(
        trailing_whitespace("a\u{200b}".as_bytes()).unwrap(),
        "a\u{200b}\n".as_bytes()
    );
    assert_eq!(
        trailing_whitespace("fin é".as_bytes()).unwrap(),
        "fin é\n".as_bytes()
    );
}

#[test]
fn stripping_unicode_whitespace_twice_changes_nothing_more() {
    let once = trailing_whitespace("x\u{a0}\u{2005} \ny\u{3000}".as_bytes()).unwrap();
    let twice = trailing_whitespace(&once).unwrap();
    assert_eq!(once, b"x\ny\n");
    assert_eq!(once, twice);
}

#[test]
fn invalid_utf8_is_a_transformer_error() {
    assert!(trailing_whitespace(b"\xff\xfe").is_err());
}

#[test]
fn utf8_check_accepts_and_rejects() {
    assert!(utf8_check(b""));
    assert!(utf8_check(b"plain ascii"));
    assert!(utf8_check("héllo \u{1F600}".as_bytes()));
    // A lone continuation byte.
    assert!(!utf8_check(b"\x80"));
    // An overlong encoding of '/'.
    assert!(!utf8_check(b"\xc0\xaf"));
    // An encoded surrogate code point.
    assert!(!utf8_check(b"\xed\xa0\x80"));
    // A truncated multi-byte sequence.
    assert!(!utf8_check(b"\xe2\x82"));
}

#[test]
fn chain_of_two_builtins_composes_in_order() {
    let chain = vec![
        TransformerOptions::Builtin(BuiltinTransformer::TrailingWhitespace),
        TransformerOptions::Builtin(BuiltinTransformer::TrailingWhitespace),
    ];
    match advance_chain(&chain, 0, b"x  ".to_vec()) {
        ChainProgress::Complete(out) => assert_eq!(out, b"x\n"),
        _ => panic!("chain should complete"),
    }
}

#[test]
fn chain_stops_at_external_stage_with_prior_output() {
    // The external stage must see the built-in stage's output, not the
    // original input: the stages run strictly in order.
    let chain = vec![
        TransformerOptions::Builtin(BuiltinTransformer::TrailingWhitespace),
        TransformerOptions::RawCommand(ShellCommandTransformer::Rustfmt),
    ];
    match advance_chain(&chain, 0, b"hi  ".to_vec()) {
        ChainProgress::Await { step, input } => {
            assert_eq!(step, 1);
            assert_eq!(input, b"hi\n");
        },
        _ => panic!("chain should await the external stage"),
    }
}

#[test]
fn chain_resumes_after_external_stage() {
    let chain = vec![
        TransformerOptions::RawCommand(ShellCommandTransformer::ClangFormat),
        TransformerOptions::Builtin(BuiltinTransformer::TrailingWhitespace),
    ];
    match advance_chain(&chain, 0, b"in".to_vec()) {
        ChainProgress::Await { step, input } => {
            assert_eq!(step, 0);
            assert_eq!(input, b"in");
        },
        _ => panic!("chain should await the external stage first"),
    }
    // The caller runs the process and resumes after it.
    match advance_chain(&chain, 1, b"formatted  ".to_vec()) {
        ChainProgress::Complete(out) => assert_eq!(out, b"formatted\n"),
        _ => panic!("chain should complete after the external stage"),
    }
}

#[test]
fn chain_fails_on_undecodable_input() {
    let chain = vec![TransformerOptions::Builtin(BuiltinTransformer::TrailingWhitespace)];
    match advance_chain(&chain, 0, b"\xff".to_vec()) {
        ChainProgress::Failed(Error::TransformerError(m)) => {
            assert_eq!(m, "trailing whitespace: input is not valid UTF-8")
        },
        _ => panic!("chain should fail on invalid UTF-8 with a transformer error"),
    }
}

#[test]
fn external_success_passes_stdout_through() {
    let out = external_outcome(true, b"result".to_vec(), "prog").unwrap();
    assert_eq!(out, b"result");
}

#[test]
fn external_nonzero_exit_is_a_transformer_error() {
    match external_outcome(false, Vec::new(), "always-fails") {
        Err(Error::TransformerError(msg)) => {
            assert_eq!(msg, "transformer produced a nonzero exit code: always-fails")
        },
        _ => panic!("a nonzero exit must be a transformer error"),
    }
}
