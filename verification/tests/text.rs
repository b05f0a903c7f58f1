use wizctl::text::clip;

#[test]
fn clip_shortens_with_an_ellipsis() {
    assert_eq!(clip("short", 10), "short");
    assert_eq!(clip("exactly10!", 10), "exactly10!");
    assert_eq!(clip("a longer file name.png", 10), "a longer \u{2026}");
    assert_eq!(clip("héllo wörld", 6), "héllo\u{2026}");
    assert_eq!(clip("abc", 0), "\u{2026}");
}
