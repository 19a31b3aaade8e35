//! End-to-end tests of `ulb_wrap_paragraph`: greedy wrapping driven by the
//! real Unicode line-breaking oracle.
use ulb_pwrap::ulb_wrap_paragraph;

#[test]
fn wrap_simple_words() {
    assert_eq!(ulb_wrap_paragraph("aa bb cc", 2, 2), "aa\nbb\ncc");
}

#[test]
fn wrap_keeps_trailing_newlines() {
    assert_eq!(ulb_wrap_paragraph("aa bb cc\n\n\n", 2, 2), "aa\nbb\ncc\n\n\n");
}

#[test]
fn wrap_keeps_leading_newlines() {
    assert_eq!(ulb_wrap_paragraph("\n\n\naa bb cc", 2, 2), "\n\n\naa\nbb\ncc");
}

#[test]
fn wrap_keeps_newlines_both_sides() {
    assert_eq!(
        ulb_wrap_paragraph("\n\n\naa bb cc\n\n\n", 2, 2),
        "\n\n\naa\nbb\ncc\n\n\n"
    );
}

#[test]
fn wrap_keeps_final_newline() {
    assert_eq!(ulb_wrap_paragraph("aa bb cc\n", 2, 2), "aa\nbb\ncc\n");
}

#[test]
fn wrap_exact_width() {
    assert_eq!(ulb_wrap_paragraph("aaa bbb cc", 3, 3), "aaa\nbbb\ncc");
}

#[test]
fn wrap_packs_two_words() {
    assert_eq!(ulb_wrap_paragraph("aa bb cc", 5, 5), "aa bb\ncc");
}

#[test]
fn wrap_wide_enough_single_line() {
    assert_eq!(ulb_wrap_paragraph("aa bb cc", 50, 50), "aa bb cc");
}

#[test]
fn wrap_multibyte_after_newlines() {
    assert_eq!(ulb_wrap_paragraph("a\n\n\n\u{e9}", 80, 80), "a\n\n\n\u{e9}");
}

#[test]
fn wrap_codespan_simple() {
    assert_eq!(ulb_wrap_paragraph("aaa `b` ccc", 3, 3), "aaa\n`b`\nccc");
}

#[test]
fn wrap_codespan_space_content() {
    assert_eq!(ulb_wrap_paragraph("aaa ` ` ccc", 3, 3), "aaa\n` `\nccc");
}

#[test]
fn wrap_codespan_inner_backtick_runs() {
    assert_eq!(
        ulb_wrap_paragraph("aaa ` ``  ``` a b c ` ccc", 3, 3),
        "aaa\n` ``  ``` a b c `\nccc"
    );
}

#[test]
fn wrap_codespan_triple_backtick_fence() {
    assert_eq!(
        ulb_wrap_paragraph("aaa ``` ``  ` a b c ``` ccc", 3, 3),
        "aaa\n``` ``  ` a b c ```\nccc"
    );
}

#[test]
fn wrap_unterminated_codespan_goes_verbatim() {
    assert_eq!(
        ulb_wrap_paragraph("aaa ` b c ` `ddd e", 3, 3),
        "aaa\n` b c `\n`ddd e"
    );
}

#[test]
fn wrap_unterminated_codespan_keeps_newline() {
    assert_eq!(
        ulb_wrap_paragraph("aaa ` b c ` `ddd\ne", 3, 3),
        "aaa\n` b c `\n`ddd\ne"
    );
}

#[test]
fn wrap_before_strong_span() {
    assert_eq!(ulb_wrap_paragraph("a **hola**", 2, 2), "a\n**hola**");
    assert_eq!(ulb_wrap_paragraph("a __hola__", 2, 2), "a\n__hola__");
}

#[test]
fn wrap_before_italic_span() {
    assert_eq!(ulb_wrap_paragraph("a *hola*", 2, 2), "a\n*hola*");
    assert_eq!(ulb_wrap_paragraph("a _hola_", 2, 2), "a\n_hola_");
}

#[test]
fn wrap_inside_strong_and_italic_spans() {
    assert_eq!(ulb_wrap_paragraph("**hello hello**", 4, 4), "**hello\nhello**");
    assert_eq!(ulb_wrap_paragraph("*hello hello*", 4, 4), "*hello\nhello*");
}

#[test]
fn square_brackets_alone_do_not_break() {
    assert_eq!(ulb_wrap_paragraph("aa]\nbb\n[cc", 1, 1), "aa]\nbb\n[cc");
}

#[test]
fn wrap_inline_image_with_space() {
    assert_eq!(
        ulb_wrap_paragraph("aa ![img alt](img-url)", 1, 1),
        "aa ![img\nalt](img-url)"
    );
}

#[test]
fn wrap_inline_image_no_space() {
    assert_eq!(
        ulb_wrap_paragraph("aa![img alt](img-url 'Tit le')", 1, 1),
        "aa![img\nalt](img-url\n'Tit\nle')"
    );
}

#[test]
fn wrap_inline_link_with_space() {
    assert_eq!(
        ulb_wrap_paragraph("aa [link text](link-url)", 1, 1),
        "aa\n[link\ntext](link-url)"
    );
}

#[test]
fn wrap_inline_link_no_space() {
    assert_eq!(
        ulb_wrap_paragraph("aa[link text](link-url 'Tit le')", 1, 1),
        "aa[link\ntext](link-url\n'Tit\nle')"
    );
}

#[test]
fn wrap_image_reference_link_with_space() {
    assert_eq!(
        ulb_wrap_paragraph("aa ![image alt][link-label]", 1, 1),
        "aa ![image\nalt][link-label]"
    );
}

#[test]
fn wrap_image_reference_link_no_space() {
    assert_eq!(
        ulb_wrap_paragraph("aa![image alt][link-label]", 1, 1),
        "aa![image\nalt][link-label]"
    );
}

#[test]
fn wrap_reference_link_with_space() {
    assert_eq!(
        ulb_wrap_paragraph("aa [link text][link-label]", 1, 1),
        "aa\n[link\ntext][link-label]"
    );
}

#[test]
fn wrap_reference_link_no_space() {
    assert_eq!(
        ulb_wrap_paragraph("aa[link text][link-label]", 1, 1),
        "aa[link\ntext][link-label]"
    );
}

#[test]
fn wrap_escaped_space_in_destination() {
    assert_eq!(
        ulb_wrap_paragraph("[link text](link\\ destination 'link title')", 4, 4),
        "[link\ntext](link\\\ndestination\n'link\ntitle')"
    );
}

#[test]
fn hard_break_two_spaces() {
    assert_eq!(
        ulb_wrap_paragraph("hard  \nline break", 1, 1),
        "hard  \nline\nbreak"
    );
}

#[test]
fn hard_break_backslash() {
    assert_eq!(
        ulb_wrap_paragraph("hard\\\nline break", 1, 1),
        "hard\\\nline\nbreak"
    );
}

#[test]
fn hard_break_many_spaces() {
    assert_eq!(
        ulb_wrap_paragraph("hard          \nline break", 1, 1),
        "hard          \nline\nbreak"
    );
}

#[test]
fn hard_break_backslash_and_spaces() {
    assert_eq!(
        ulb_wrap_paragraph("hard\\          \nline break", 1, 1),
        "hard\\          \nline\nbreak"
    );
}

#[test]
fn single_space_kept() {
    assert_eq!(ulb_wrap_paragraph(" ", 1, 1), " ");
}

#[test]
fn empty_text_stays_empty() {
    assert_eq!(ulb_wrap_paragraph("", 1, 1), "");
    assert_eq!(ulb_wrap_paragraph("", 0, 0), "");
    assert_eq!(ulb_wrap_paragraph("", 77, 77), "");
}

#[test]
fn single_newline_kept() {
    assert_eq!(ulb_wrap_paragraph("\n", 1, 1), "\n");
}

#[test]
fn width_zero_breaks_at_every_opportunity() {
    assert_eq!(ulb_wrap_paragraph("\na b c d e\n", 0, 0), "\na\nb\nc\nd\ne\n");
}

#[test]
fn maximum_width_single_line() {
    assert_eq!(ulb_wrap_paragraph("a b c d e", usize::MAX, usize::MAX), "a b c d e");
}

#[test]
fn width_counts_characters_not_bytes() {
    assert_eq!(
        ulb_wrap_paragraph("par\u{e1}metro de ancho de", 10, 10),
        "par\u{e1}metro\nde ancho\nde"
    );
}

#[test]
fn scriptio_continua_fits_on_one_line() {
    assert_eq!(ulb_wrap_paragraph("\u{652f}\u{6301}", 10, 10), "\u{652f}\u{6301}");
}

#[test]
fn mandatory_break_ends_greedy_lookahead() {
    assert_eq!(
        ulb_wrap_paragraph("aa bb\ncc dd ee", 9, 9),
        "aa bb\ncc dd ee"
    );
}

#[test]
fn first_line_width_narrow_body() {
    assert_eq!(ulb_wrap_paragraph("aa b cc dd", 2, 4), "aa b\ncc\ndd");
}

#[test]
fn first_line_width_seven() {
    assert_eq!(ulb_wrap_paragraph("aa b cc dd ee", 2, 7), "aa b cc\ndd\nee");
}

#[test]
fn first_line_width_eight() {
    assert_eq!(ulb_wrap_paragraph("aa b cc dd ee", 2, 8), "aa b cc\ndd\nee");
}

#[test]
fn first_line_width_ten() {
    assert_eq!(ulb_wrap_paragraph("aa b cc dd ee", 2, 10), "aa b cc dd\nee");
}

#[test]
fn whitespace_only_text_kept_verbatim() {
    assert_eq!(ulb_wrap_paragraph("   ", 1, 1), "   ");
}

#[test]
fn tab_is_trimmed_at_allowed_break() {
    assert_eq!(ulb_wrap_paragraph("a\tb", 1, 1), "a\nb");
}

#[test]
fn unbreakable_token_still_emitted() {
    assert_eq!(ulb_wrap_paragraph("aaaaaaaa bb", 3, 3), "aaaaaaaa\nbb");
}
