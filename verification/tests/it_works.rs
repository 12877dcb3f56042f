use neoteric::lexer::tokenise;
use neoteric::parser::{handle_whitespace, Parser};
use neoteric::value::{Atom, GroupType};

#[test]
fn it_works() {
    let source = r#"
define test (a b)
    (print "hello")
    (another-thing 1 2)

test{1 + 3}

(test {1 + 3})"#;

    let toks = tokenise(source);

    println!("{:?}", handle_whitespace(tokenise(source)));
    let mut parser = Parser::new(toks);

    let toplevel = parser.parse_toplevel();

    println!("{:?}", toplevel);

    let atoms = toplevel.unwrap();
    assert_eq!(atoms.len(), 3);
    match &atoms[0] {
        Atom::Group(g) => {
            assert_eq!(g.group_type, GroupType::Indentation);
            assert_eq!(g.children.len(), 5);
        }
        other => panic!("expected an indentation group, found {:?}", other),
    }
    assert!(matches!(&atoms[1], Atom::Neoteric { .. }));
    match &atoms[2] {
        Atom::Group(g) => assert_eq!(g.group_type, GroupType::Parenthesis),
        other => panic!("expected a group, found {:?}", other),
    }
}
