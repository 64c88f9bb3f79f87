use std::rc::Rc;

use icfl_toolkit::compression::dict_compression::build_lz_body_ast;
use icfl_toolkit::compression::dict_compression::build_lz_chunks_ast;
use icfl_toolkit::compression::dict_compression::build_lz_lambdas_ast;
use icfl_toolkit::compression::dict_compression::id_length_of;
use icfl_toolkit::compression::dict_compression::saved_cost;
use icfl_toolkit::compression::dict_compression::LzChunk;
use icfl_toolkit::compression::lz_compress_to_ast;
use icfl_toolkit::icfp::evaluate;
use icfl_toolkit::icfp::serialize_str;
use icfl_toolkit::icfp::BinaryOp;
use icfl_toolkit::icfp::EvalStrat;
use icfl_toolkit::icfp::Node;
use icfl_toolkit::icfp::NodeRef;
use icfl_toolkit::icfp::Value;
use icfl_toolkit::icfp::VarId;

fn text(s: &str) -> NodeRef {
    Rc::new(Node::Value(Value::Str(s.to_string())))
}

fn concat(left: NodeRef, right: NodeRef) -> NodeRef {
    Rc::new(Node::BinaryOp { op: BinaryOp::StrConcat, left, right })
}

fn var(id: u64) -> NodeRef {
    Node::var(VarId::new(id))
}

fn bound(id: u64, value: &str, body: NodeRef) -> NodeRef {
    Node::apply(EvalStrat::Name, Node::lambda(VarId::new(id), body), text(value))
}

#[test]
fn saving_of_a_binding() {
    assert_eq!(saved_cost(20, 4, 0), 7);
    assert_eq!(saved_cost(20, 3, 0), -2);
    assert_eq!(saved_cost(20, 4, 1), 2);
    assert_eq!(saved_cost(12, 1, 0), -20);
    assert_eq!(saved_cost(0, 0, 0), -9);
    assert_eq!(saved_cost(100, 10, 2), 1000 - (9 + 100 + 110 + 22));
}

#[test]
fn length_of_a_variable_number() {
    assert_eq!(id_length_of(0), 0);
    assert_eq!(id_length_of(1), 0);
    assert_eq!(id_length_of(2), 1);
    assert_eq!(id_length_of(94), 1);
    assert_eq!(id_length_of(95), 2);
    assert_eq!(id_length_of(8836), 2);
    assert_eq!(id_length_of(8837), 3);
    assert_eq!(id_length_of(830584), 3);
    assert_eq!(id_length_of(830585), 4);
    for n in [0usize, 1, 2, 3, 50, 93, 94, 95, 96, 1000, 8835, 8836, 8837, 100000, 830583, 830584, 830585, 78074896] {
        assert_eq!(id_length_of(n), (n as f64).log(94.0).ceil() as usize, "{}", n);
    }
}

#[test]
fn pieces_are_concatenated_to_the_left() {
    let chunks = vec![
        LzChunk::Literal("a".to_string()),
        LzChunk::Reference(3),
        LzChunk::Literal("b".to_string()),
        LzChunk::Reference(0),
    ];
    assert_eq!(
        build_lz_body_ast(&chunks),
        concat(concat(concat(text("a"), var(3)), text("b")), var(0))
    );
    assert_eq!(build_lz_body_ast(&vec![LzChunk::Reference(7)]), var(7));
    assert_eq!(build_lz_body_ast(&vec![LzChunk::Literal("x".to_string())]), text("x"));
}

#[test]
fn variables_are_bound_from_the_first() {
    let vars = vec![(0usize, "UU".to_string()), (1usize, "DD".to_string())];
    assert_eq!(
        build_lz_lambdas_ast(&vars, var(1)),
        bound(1, "DD", bound(0, "UU", var(1)))
    );
    assert_eq!(build_lz_lambdas_ast(&vec![], text("x")), text("x"));
    let chunks = vec![LzChunk::Literal("go ".to_string()), LzChunk::Reference(0)];
    let tree = build_lz_chunks_ast(&vec![(0usize, "UU".to_string())], &chunks);
    assert_eq!(tree, bound(0, "UU", concat(text("go "), var(0))));
    assert_eq!(evaluate(tree), Ok(Value::Str("go UU".to_string())));
}

#[test]
fn short_paths_stay_one_text() {
    assert_eq!(lz_compress_to_ast("solve x ", "", 3), text("solve x "));
    assert_eq!(lz_compress_to_ast("solve x ", "UDLR", 2), text("solve x UDLR"));
    assert_eq!(lz_compress_to_ast("solve x ", "UDLRU", 2), text("solve x UDLRU"));
    assert_eq!(lz_compress_to_ast("", "UDUDUDUDUDUD", 2), text("UDUDUDUDUDUD"));
    assert_eq!(lz_compress_to_ast("p", "UD", 100), text("pUD"));
    assert_eq!(lz_compress_to_ast("p", "UD", usize::MAX), text("pUD"));
}

#[test]
fn a_chunk_that_comes_back_is_bound() {
    let chunk = "UUUUUDDDDDLLLLLRRRRR";
    let path = chunk.repeat(4);
    let tree = lz_compress_to_ast("solve x ", &path, 20);
    let body = concat(concat(concat(concat(text("solve x "), var(0)), var(0)), var(0)), var(0));
    assert_eq!(tree, bound(0, chunk, body));
    assert_eq!(evaluate(tree), Ok(Value::Str(format!("solve x {}", path))));
    let thrice = chunk.repeat(3);
    assert_eq!(lz_compress_to_ast("solve x ", &thrice, 20), text(&format!("solve x {}", thrice)));
}

#[test]
fn bound_and_unbound_chunks_alternate() {
    let a = "UUUUUDDDDDLLLLLRRRRR";
    let b = "RLRLRLRLRLRLRLRLRLRL";
    let c = "DDDDDDDDDDUUUUUUUUUU";
    let path = format!("{a}{b}{a}{a}{c}{c}{a}{b}{b}{b}xyz");
    let tree = lz_compress_to_ast("go ", &path, 20);
    // three entries and what is left over: a number takes one byte; `a` and
    // `b` occur four times each, `c` twice
    let mut body = concat(text("go "), var(0));
    body = concat(body, var(1));
    body = concat(body, var(0));
    body = concat(body, var(0));
    body = concat(body, text(&format!("{c}{c}")));
    body = concat(body, var(0));
    body = concat(body, var(1));
    body = concat(body, var(1));
    body = concat(body, var(1));
    body = concat(body, text("xyz"));
    assert_eq!(tree, bound(1, b, bound(0, a, body)));
    assert_eq!(evaluate(tree), Ok(Value::Str(format!("go {}", path))));
}

#[test]
fn compressed_path_is_shorter_and_evaluates_to_the_path() {
    let mut path = String::new();
    for i in 0..60 {
        path.push_str(if i % 3 == 0 { "UUUUUUUUDDDDDDDD" } else { "LLLLLLLLRRRRRRRR" });
    }
    let plain = serialize_str(text(&format!("solve lambdaman1 {}", path)));
    for size in [12usize, 16, 32, 48] {
        let tree = lz_compress_to_ast("solve lambdaman1 ", &path, size);
        assert_eq!(
            evaluate(tree.clone()),
            Ok(Value::Str(format!("solve lambdaman1 {}", path))),
            "{}",
            size
        );
        assert!(serialize_str(tree).len() <= plain.len(), "{}", size);
    }
}
