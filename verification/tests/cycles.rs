use esprobe::cycles::elapsed;

/// The counter wraps, so elapsed time is only ever a wrapping difference.
/// This pins the arithmetic rather than the counter itself.
#[test]
fn elapsed_is_correct_across_a_wrap() {
    let before: u32 = u32::MAX - 10;
    let after: u32 = 5;
    assert_eq!(elapsed(before, after), 16);
}
