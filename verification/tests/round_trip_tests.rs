use felix_flow::parser::parse;

fn round_trips(input: &str) {
    let p = parse(input);
    let mut text = String::new();
    collect_text(&felix_flow::tree::SyntaxElement::Node(p.root), &mut text);
    assert_eq!(text, input);
}

fn collect_text(e: &felix_flow::tree::SyntaxElement, out: &mut String) {
    match e {
        felix_flow::tree::SyntaxElement::Token(t) => out.push_str(&t.text),
        felix_flow::tree::SyntaxElement::Node(n) => {
            for child in n.children.iter() {
                collect_text(child, out);
            }
        }
    }
}

#[test]
fn round_trip_plain_expressions() {
    round_trips("1+2*3-4");
    round_trips("let a = 10");
    round_trips("  1 +   2  # and a comment");
}

#[test]
fn round_trip_with_error_recovery() {
    round_trips("*5");
    round_trips("1+");
    round_trips("let = }{ 9 ?? fn");
    round_trips("((((");
}

#[test]
fn round_trip_empty_and_trivia_only() {
    round_trips("");
    round_trips("   \n  ");
    round_trips("# only a comment");
}

#[test]
fn parsing_twice_gives_identical_results() {
    let inputs = ["1+2*3-4", "let a = 10\nlet b = a\nb", "*5", "", "((1)"];
    for input in inputs.iter() {
        let p1 = parse(input);
        let p2 = parse(input);
        assert_eq!(p1.debug_tree(), p2.debug_tree());
        assert_eq!(p1.errors.len(), p2.errors.len());
        let mut i = 0;
        while i < p1.errors.len() {
            assert_eq!(p1.errors[i].render(), p2.errors[i].render());
            i += 1;
        }
    }
}

#[test]
fn empty_input_gives_bare_root_and_no_errors() {
    let p = parse("");
    assert_eq!(p.debug_tree(), "Root@0..0");
    assert_eq!(p.errors.len(), 0);
    assert_eq!(p.root.children.len(), 0);
}
