use rhdl::util::binary_string;
use rhdl::util::splice;
use rhdl::util::IndentingFormatter;

#[test]
fn test_indenting_formatter() {
    let mut f = IndentingFormatter::default();
    f.write("hello {\n");
    f.write("let a = 2;\n");
    f.write("let b = 3;\n");
    f.write("}\n");
    println!("{}", f.buffer());
}

#[test]
fn test_indenting_formatter_contents() {
    let mut f = IndentingFormatter::new();
    f.write("a {\n");
    f.write("b\n");
    f.write("}\n");
    assert_eq!(f.location(), 11);
    assert_eq!(f.buffer(), "a {\n   b\n}\n");
}

#[test]
fn test_splice() {
    let elems = vec!["a".to_string(), "bb".to_string(), "c".to_string()];
    assert_eq!(splice(&elems, ", "), "a, bb, c");
    assert_eq!(splice(&vec![], ", "), "");
    assert_eq!(splice(&vec!["x".to_string()], ", "), "x");
}

#[test]
fn test_binary_string() {
    assert_eq!(binary_string(&vec![false, true, false, true, true]), "11010");
    assert_eq!(binary_string(&vec![]), "");
}
