use gene_tree_sim::input::{read_counts, split_trees};
use gene_tree_sim::parse::ParseError;

fn trees(content: &str) -> Vec<String> {
    split_trees(content).unwrap()
}

fn counts(content: &str) -> Vec<usize> {
    read_counts(content).unwrap()
}

#[test]
fn one_tree_is_one_piece() {
    assert_eq!(trees("((A:1,B:2)C:1,D:5)R:0;"), vec!["((A:1,B:2)C:1,D:5)R:0;"]);
}

#[test]
fn trees_are_cut_at_semicolons() {
    assert_eq!(trees("(a,b)c;(d,e)f;x;"), vec!["(a,b)c;", "(d,e)f;", "x;"]);
}

#[test]
fn blanks_do_not_count_anywhere() {
    assert_eq!(
        trees(" ( a : 1 ,\tb:2 )\r\nc ;\n\n (d,e)\u{b}f\u{c};\n"),
        vec!["(a:1,b:2)c;", "(d,e)f;"]
    );
}

#[test]
fn empty_pieces_are_passed_over() {
    assert_eq!(trees(";;a;;b; ;"), vec!["a;", "b;"]);
    assert_eq!(trees(""), Vec::<String>::new());
    assert_eq!(trees(" \n "), Vec::<String>::new());
    assert_eq!(trees(";"), Vec::<String>::new());
}

#[test]
fn what_follows_the_last_semicolon_is_a_tree_too() {
    assert_eq!(trees("a;b"), vec!["a;", "b;"]);
    assert_eq!(trees("(a,b)"), vec!["(a,b);"]);
}

#[test]
fn trees_beyond_ascii_are_refused() {
    assert_eq!(split_trees("(a,\u{e9});"), Err(ParseError::NotAscii));
    assert_eq!(split_trees("a;\u{a0}b;"), Err(ParseError::NotAscii));
}

#[test]
fn counts_are_separated_by_commas() {
    assert_eq!(counts("23,10,11100,121,"), vec![23, 10, 11100, 121]);
    assert_eq!(counts("5"), vec![5]);
    assert_eq!(counts("0,0"), vec![0, 0]);
}

#[test]
fn blanks_around_the_counts_do_not_count() {
    assert_eq!(counts("  23,10\n"), vec![23, 10]);
    assert_eq!(counts("\t7 \r\n"), vec![7]);
}

#[test]
fn fields_that_are_no_counts_are_passed_over() {
    assert_eq!(counts("1,,2"), vec![1, 2]);
    assert_eq!(counts("1,x,2"), vec![1, 2]);
    assert_eq!(counts("1, 2,3"), vec![1, 3]);
    assert_eq!(counts("1,-2,3"), vec![1, 3]);
    assert_eq!(counts("1,2.5,3"), vec![1, 3]);
    assert_eq!(counts("1,+,3"), vec![1, 3]);
    assert_eq!(counts("1,2 3,4"), vec![1, 4]);
    assert_eq!(counts(""), Vec::<usize>::new());
    assert_eq!(counts("   "), Vec::<usize>::new());
    assert_eq!(counts(",,,"), Vec::<usize>::new());
}

#[test]
fn counts_may_carry_a_plus_sign_and_leading_zeros() {
    assert_eq!(counts("+4,007,+0"), vec![4, 7, 0]);
}

#[test]
fn counts_that_do_not_fit_are_passed_over() {
    let text = format!("1,{},{}0,3", usize::MAX, usize::MAX);
    assert_eq!(counts(&text), vec![1, usize::MAX, 3]);
    assert_eq!(counts("99999999999999999999999999999999"), Vec::<usize>::new());
}

#[test]
fn counts_agree_with_the_standard_reading_of_each_field() {
    for text in ["23,10,11100,121,", " 1,+2, 3,4 ,x,,-5,0005 ", "7", "", ","] {
        let expected: Vec<usize> =
            text.trim().split(',').filter_map(|n| n.parse().ok()).collect();
        assert_eq!(counts(text), expected);
    }
}

#[test]
fn counts_beyond_ascii_are_refused() {
    assert_eq!(read_counts("1,\u{e9},2"), Err(ParseError::NotAscii));
}
