use transcript::vendor::{remove_bookending_quotes, repair_line};

#[test]
fn bookending_quotes_are_taken_out() {
    assert_eq!(remove_bookending_quotes("0,100,\" Hello\"\n"), "0,100, Hello\n");
    assert_eq!(remove_bookending_quotes("\"\""), "");
    assert_eq!(remove_bookending_quotes("a\"b\"c\"d"), "ab\"cd");
    assert_eq!(remove_bookending_quotes("é\"ü\"ß"), "éüß");
}

#[test]
fn fewer_than_two_quotes_stay() {
    assert_eq!(remove_bookending_quotes(""), "");
    assert_eq!(remove_bookending_quotes("plain"), "plain");
    assert_eq!(remove_bookending_quotes("one \" only"), "one \" only");
    assert_eq!(remove_bookending_quotes("\""), "\"");
}

#[test]
fn only_lines_with_two_commas_are_repaired() {
    assert_eq!(repair_line("0,100,\" Hello\"\n"), "0,100, Hello\n");
    assert_eq!(repair_line("0,100,\" Hello, world\"\n"), "0,100,\" Hello, world\"\n");
    assert_eq!(repair_line("start,end,text\n"), "start,end,text\n");
    assert_eq!(repair_line("\"a\",b\n"), "\"a\",b\n");
    assert_eq!(repair_line("1,2,\" say \"hi\" now\""), "1,2, say \"hi\" now");
    assert_eq!(repair_line("1,2,\"half"), "1,2,\"half");
    assert_eq!(repair_line(""), "");
    assert_eq!(repair_line(",,"), ",,");
}
