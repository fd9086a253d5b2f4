use tagtable::fit::TrimOutput;
use tagtable::fit::TrimStatus;
use tagtable::fit::Util;

#[test]
fn trim_display_str_elided() {
    assert_eq!(
        Util::trim_display_str_elided("hello!", 0, 1),
        TrimOutput {
            display_str: "",
            output_width: 0,
            full_real_width: 6,
            trim_status: TrimStatus::Trimmed(0, false),
        },
    );
    assert_eq!(
        Util::trim_display_str_elided("hello!", 3, 1),
        TrimOutput {
            display_str: "he",
            output_width: 2,
            full_real_width: 6,
            trim_status: TrimStatus::Trimmed(0, true)
        },
    );
    assert_eq!(
        Util::trim_display_str_elided("hello!", 5, 1),
        TrimOutput {
            display_str: "hell",
            output_width: 4,
            full_real_width: 6,
            trim_status: TrimStatus::Trimmed(0, true),
        },
    );
    assert_eq!(
        Util::trim_display_str_elided("hello!", 5, 100),
        TrimOutput {
            display_str: "hello",
            output_width: 5,
            full_real_width: 6,
            trim_status: TrimStatus::Trimmed(0, false),
        },
    );
    assert_eq!(
        Util::trim_display_str_elided("hello!", 6, 100),
        TrimOutput {
            display_str: "hello!",
            output_width: 6,
            full_real_width: 6,
            trim_status: TrimStatus::Untrimmed,
        },
    );
    assert_eq!(
        Util::trim_display_str_elided("oh y̆es", 0, 1),
        TrimOutput {
            display_str: "",
            output_width: 0,
            full_real_width: 6,
            trim_status: TrimStatus::Trimmed(0, false),
        },
    );
    assert_eq!(
        Util::trim_display_str_elided("oh y̆es", 4, 1),
        TrimOutput {
            display_str: "oh ",
            output_width: 3,
            full_real_width: 6,
            trim_status: TrimStatus::Trimmed(0, true),
        },
    );
    assert_eq!(
        Util::trim_display_str_elided("oh y̆es", 5, 1),
        TrimOutput {
            display_str: "oh y̆",
            output_width: 4,
            full_real_width: 6,
            trim_status: TrimStatus::Trimmed(0, true),
        },
    );
    assert_eq!(
        Util::trim_display_str_elided("oh y̆es", 5, 100),
        TrimOutput {
            display_str: "oh y̆e",
            output_width: 5,
            full_real_width: 6,
            trim_status: TrimStatus::Trimmed(0, false),
        },
    );
    assert_eq!(
        Util::trim_display_str_elided("oh y̆es", 6, 100),
        TrimOutput {
            display_str: "oh y̆es",
            output_width: 6,
            full_real_width: 6,
            trim_status: TrimStatus::Untrimmed,
        },
    );
    assert_eq!(
        Util::trim_display_str_elided("日本人の氏名", 0, 1),
        TrimOutput {
            display_str: "",
            output_width: 0,
            full_real_width: 12,
            trim_status: TrimStatus::Trimmed(0, false),
        },
    );
    assert_eq!(
        Util::trim_display_str_elided("日本人の氏名", 1, 1),
        TrimOutput {
            display_str: "",
            output_width: 0,
            full_real_width: 12,
            trim_status: TrimStatus::Trimmed(0, true),
        },
    );
    assert_eq!(
        Util::trim_display_str_elided("日本人の氏名", 2, 1),
        TrimOutput {
            display_str: "",
            output_width: 0,
            full_real_width: 12,
            trim_status: TrimStatus::Trimmed(1, true),
        },
    );
    assert_eq!(
        Util::trim_display_str_elided("日本人の氏名", 3, 1),
        TrimOutput {
            display_str: "日",
            output_width: 2,
            full_real_width: 12,
            trim_status: TrimStatus::Trimmed(0, true),
        },
    );
    assert_eq!(
        Util::trim_display_str_elided("日本人の氏名", 4, 1),
        TrimOutput {
            display_str: "日",
            output_width: 2,
            full_real_width: 12,
            trim_status: TrimStatus::Trimmed(1, true),
        },
    );
    assert_eq!(
        Util::trim_display_str_elided("日本人の氏名", 4, 2),
        TrimOutput {
            display_str: "日",
            output_width: 2,
            full_real_width: 12,
            trim_status: TrimStatus::Trimmed(0, true),
        },
    );
}

#[test]
fn wide_character_cut_leaves_one_blank() {
    let out = Util::trim_display_str_elided("日本人の氏名", 2, 1);
    assert_eq!(out.display_str, "");
    assert_eq!(out.trim_status.padding(), 1);
    assert!(out.trim_status.is_trimmed());
    assert!(out.trim_status.emit_ellipsis());
    assert_eq!(out.ellipsis_offset(), 1);
}

#[test]
fn hello_cut_for_one_cell_ellipsis() {
    let out = Util::trim_display_str_elided("hello!", 5, 1);
    assert_eq!(out.display_str, "hell");
    assert_eq!(out.output_width, 4);
    assert_eq!(out.trim_status, TrimStatus::Trimmed(0, true));
    assert_eq!(out.ellipsis_offset(), 4);
}

#[test]
fn text_that_fits_comes_back_whole() {
    for s in ["", "a", "hello!", "日本", "oh y̆es", "日本人の氏名"] {
        let full = Util::trim_display_str(s, 1000).full_real_width;
        for w in full..full + 3 {
            for e in 0..4 {
                let out = Util::trim_display_str_elided(s, w, e);
                assert_eq!(out.display_str, s);
                assert_eq!(out.trim_status, TrimStatus::Untrimmed);
                assert_eq!(out.output_width, full);
            }
        }
    }
}

#[test]
fn fitted_text_never_exceeds_target() {
    for s in ["", "a", "hello!", "日本", "oh y̆es", "日本人の氏名", "a日b本c"] {
        for w in 0..14 {
            for e in 0..4 {
                let out = Util::trim_display_str_elided(s, w, e);
                let shown = Util::trim_display_str(out.display_str, 1000).full_real_width;
                assert_eq!(shown, out.output_width);
                assert!(out.output_width <= w);
                assert!(out.trim_status.padding() <= 1);
                assert!(s.starts_with(out.display_str));
            }
        }
    }
}

#[test]
fn widths_of_wide_and_combining_text() {
    assert_eq!(Util::trim_display_str("日本人の氏名", 0).full_real_width, 12);
    assert_eq!(Util::trim_display_str("oh y̆es", 0).full_real_width, 6);
    assert_eq!(Util::trim_display_str("", 0).trim_status, TrimStatus::Untrimmed);
}

#[test]
fn untrimmed_status_getters() {
    let s = TrimStatus::Untrimmed;
    assert!(!s.is_trimmed());
    assert_eq!(s.padding(), 0);
    assert!(!s.emit_ellipsis());
    let t = TrimStatus::Trimmed(1, false);
    assert!(t.is_trimmed());
    assert_eq!(t.padding(), 1);
    assert!(!t.emit_ellipsis());
}
