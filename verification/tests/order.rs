use pathit::order::compare;
use pathit::order::Position;

#[test]
fn compare_orders_by_bytes() {
    assert_eq!(compare("a", "b"), Position::Before);
    assert_eq!(compare("b", "a"), Position::After);
    assert_eq!(compare("a", "a"), Position::Same);
    assert_eq!(compare("", ""), Position::Same);
    assert_eq!(compare("", "a"), Position::Before);
    assert_eq!(compare("a", "a/"), Position::Before);
    assert_eq!(compare("a/b", "a.txt"), Position::After);
    assert_eq!(compare("B", "a"), Position::Before);
}

#[test]
fn compare_agrees_with_str_order() {
    let samples = ["", "a", "a/", "a/b", "a.txt", "b/", "b/c.txt", "Z", "é", "日本", "z\u{10000}", "zz"];
    for x in samples.iter() {
        for y in samples.iter() {
            let expected = if x < y {
                Position::Before
            } else if x > y {
                Position::After
            } else {
                Position::Same
            };
            assert_eq!(compare(x, y), expected);
        }
    }
}
