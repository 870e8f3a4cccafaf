use ascii_fmt::display_width::{center_to_width, display_width, ljust_to_width, rjust_to_width};

#[test]
fn test_display_width_ascii() {
    assert_eq!(display_width(""), 0);
    assert_eq!(display_width("abc"), 3);
}

#[test]
fn test_ljust_to_width() {
    assert_eq!(ljust_to_width("a", 1), "a");
    assert_eq!(ljust_to_width("a", 3), "a  ");
    assert_eq!(ljust_to_width("abc", 2), "abc");
}

#[test]
fn test_rjust_to_width() {
    assert_eq!(rjust_to_width("a", 1), "a");
    assert_eq!(rjust_to_width("a", 3), "  a");
    assert_eq!(rjust_to_width("abc", 2), "abc");
}

#[test]
fn test_center_to_width() {
    assert_eq!(center_to_width("a", 1), "a");
    assert_eq!(center_to_width("a", 3), " a ");
    // odd padding -> extra on the right
    assert_eq!(center_to_width("a", 4), " a  ");
    assert_eq!(center_to_width("abc", 2), "abc");
}
