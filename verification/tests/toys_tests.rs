use protohackers::toys::toy_reply;

#[test]
fn picks_the_toy_with_the_largest_amount() {
    assert_eq!(
        toy_reply("10x toy car,15x dog on a string,4x inflatable motorcycle"),
        Some("15x dog on a string\n".to_string())
    );
    assert_eq!(
        toy_reply("4x dog,5x car"),
        Some("5x car\n".to_string())
    );
}

#[test]
fn on_a_tie_the_last_toy_wins() {
    assert_eq!(toy_reply("5x a,5x b"), Some("5x b\n".to_string()));
    assert_eq!(toy_reply("7x a,3x b,7x c,1x d"), Some("7x c\n".to_string()));
}

#[test]
fn pieces_without_an_amount_are_skipped() {
    assert_eq!(toy_reply("toy car,7x dog"), Some("7x dog\n".to_string()));
    assert_eq!(toy_reply("x,3x cat,,"), Some("3x cat\n".to_string()));
    assert_eq!(toy_reply("-3x a,1x b"), Some("1x b\n".to_string()));
    assert_eq!(toy_reply("-3x a,-1x b"), Some("-1x b\n".to_string()));
}

#[test]
fn a_piece_without_x_is_all_amount() {
    assert_eq!(toy_reply("12"), Some("12\n".to_string()));
    assert_eq!(toy_reply("12,+13"), Some("+13\n".to_string()));
}

#[test]
fn amounts_out_of_range_are_skipped() {
    assert_eq!(toy_reply("2147483648x big,2x small"), Some("2x small\n".to_string()));
    assert_eq!(toy_reply("2147483647x big,2x small"), Some("2147483647x big\n".to_string()));
}

#[test]
fn a_line_without_any_amount_gets_no_reply() {
    assert_eq!(toy_reply(""), None);
    assert_eq!(toy_reply("toy car"), None);
    assert_eq!(toy_reply("x,y,z"), None);
    assert_eq!(toy_reply(" 5x padded"), None);
}
