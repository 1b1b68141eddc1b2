use lisp::splitter::{do_it, Splitter};

#[test]
fn split_1() {
    let s = Splitter::new("foo bar baz", " ");
    assert_eq!(s.split(), vec!["foo", "bar", "baz"])
}

#[test]
fn split_2() {
    assert_eq!(do_it("foo bar baz", " "), vec!["foo", "bar", "baz"])
}

#[test]
fn split_edges() {
    assert_eq!(do_it("a--b----c", "--"), vec!["a", "b", "", "c"]);
    assert_eq!(do_it("abc", "x"), vec!["abc"]);
    assert_eq!(do_it("", "x"), vec![""]);
    assert_eq!(do_it("ab", ""), vec!["", "a", "b", ""]);
}
