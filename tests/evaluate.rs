use apl::array::{Array, Element, Error};
use apl::env::Env;
use apl::eval::eval;
use apl::render::render;
use apl::token::parse;

fn run(line: &str, env: &mut Env) -> Result<Array, Error> {
    eval(&parse(line).unwrap(), env)
}

#[test]
fn test_eval() {
    let mut env = Env::new();
    // Atoms
    println!("{}", render(&eval(&parse("").unwrap(), &mut env).unwrap()));
    println!("{}", render(&eval(&parse("1").unwrap(), &mut env).unwrap()));
    println!("{}", render(&eval(&parse("123").unwrap(), &mut env).unwrap()));
    println!("{}", render(&eval(&parse("abc").unwrap(), &mut env).unwrap()));
    // Monads
    println!("{}", render(&eval(&parse("+10").unwrap(), &mut env).unwrap()));
    println!("{}", render(&eval(&parse("{10").unwrap(), &mut env).unwrap()));
    println!("{}", render(&eval(&parse("<10").unwrap(), &mut env).unwrap()));
    println!("{}", render(&eval(&parse("~10").unwrap(), &mut env).unwrap()));
    println!("{}", render(&eval(&parse("#10").unwrap(), &mut env).unwrap()));
    // Dyads
    println!("{}", render(&eval(&parse("1+2").unwrap(), &mut env).unwrap()));
    println!("{}", render(&eval(&parse("1,2,3").unwrap(), &mut env).unwrap()));
    println!("{}", render(&eval(&parse("1{5,7,9").unwrap(), &mut env).unwrap()));
    println!("{}", render(&eval(&parse("5#3,4").unwrap(), &mut env).unwrap()));
    println!("{}", render(&eval(&parse("shp=2,3").unwrap(), &mut env).unwrap()));
    println!("{}", render(&eval(&parse("shp#~10").unwrap(), &mut env).unwrap()));
    // Variables
    println!("{}", render(&eval(&parse("a=3").unwrap(), &mut env).unwrap()));
    println!("{}", render(&eval(&parse("b=4").unwrap(), &mut env).unwrap()));
    println!("{}", render(&eval(&parse("d=1+c=a+b").unwrap(), &mut env).unwrap()));
    println!("{}", render(&eval(&parse("d+c").unwrap(), &mut env).unwrap()));
}

#[test]
fn empty_line_is_scalar_zero() {
    let mut env = Env::new();
    let r = run("", &mut env).unwrap();
    assert!(r.depth.is_empty());
    assert_eq!(r.numbers(), vec![0]);
}

#[test]
fn one_plus_two() {
    let mut env = Env::new();
    let r = run("1+2", &mut env).unwrap();
    assert!(r.depth.is_empty());
    assert!(!r.boxed);
    assert_eq!(r.numbers(), vec![3]);
}

#[test]
fn concatenate_three() {
    let mut env = Env::new();
    let r = run("1,2,3", &mut env).unwrap();
    assert_eq!(r.depth, vec![3]);
    assert_eq!(r.numbers(), vec![1, 2, 3]);
}

#[test]
fn cyclic_reshape() {
    let mut env = Env::new();
    let r = run("5#3,4", &mut env).unwrap();
    assert_eq!(r.depth, vec![5]);
    assert_eq!(r.numbers(), vec![3, 4, 3, 4, 3]);
}

#[test]
fn reshape_by_variable_shape() {
    let mut env = Env::new();
    run("shp=2,3", &mut env).unwrap();
    let r = run("shp#~10", &mut env).unwrap();
    assert_eq!(r.depth, vec![2, 3]);
    assert_eq!(r.numbers(), vec![0, 1, 2, 3, 4, 5]);
}

#[test]
fn chained_assignment() {
    let mut env = Env::new();
    run("a=3", &mut env).unwrap();
    run("b=4", &mut env).unwrap();
    let r = run("d=1+c=a+b", &mut env).unwrap();
    assert!(r.depth.is_empty());
    assert_eq!(r.numbers(), vec![8]);
    let s = run("d+c", &mut env).unwrap();
    assert!(s.depth.is_empty());
    assert_eq!(s.numbers(), vec![15]);
}

#[test]
fn monadic_plus_is_identity() {
    let mut env = Env::new();
    let x = run("2#<1,2", &mut env).unwrap();
    let y = run("+2#<1,2", &mut env).unwrap();
    assert_eq!(format!("{:?}", x), format!("{:?}", y));
    let v = run("+7,8", &mut env).unwrap();
    assert_eq!(v.depth, vec![2]);
    assert_eq!(v.numbers(), vec![7, 8]);
}

#[test]
fn shape_of_reshape_is_shape_source() {
    let mut env = Env::new();
    run("s=2,3,1", &mut env).unwrap();
    let r = run("#s#5", &mut env).unwrap();
    assert_eq!(r.depth, vec![3]);
    assert_eq!(r.numbers(), vec![2, 3, 1]);
    let s = run("#4#5", &mut env).unwrap();
    assert_eq!(s.depth, vec![1]);
    assert_eq!(s.numbers(), vec![4]);
}

#[test]
fn unbound_variable_reads_zero_twice() {
    let mut env = Env::new();
    let first = run("zz", &mut env).unwrap();
    assert_eq!(first.numbers(), vec![0]);
    let second = run("zz", &mut env).unwrap();
    assert!(second.depth.is_empty());
    assert_eq!(second.numbers(), vec![0]);
    let bound = env.fetch(&"zz".to_string());
    assert_eq!(bound.numbers(), vec![0]);
}

#[test]
fn atom_is_read_before_the_rest() {
    let mut env = Env::new();
    let r = run("q+q=5", &mut env).unwrap();
    assert_eq!(r.numbers(), vec![5]);
    let q = run("q", &mut env).unwrap();
    assert_eq!(q.numbers(), vec![5]);
}

#[test]
fn plus_reads_zero_past_shorter_operand() {
    let mut env = Env::new();
    let r = run("10+1,2,3", &mut env).unwrap();
    assert_eq!(r.depth, vec![3]);
    assert_eq!(r.numbers(), vec![11, 2, 3]);
    run("p=1,2", &mut env).unwrap();
    let s = run("p+10,20,30", &mut env).unwrap();
    assert_eq!(s.depth, vec![3]);
    assert_eq!(s.numbers(), vec![11, 22, 30]);
}

#[test]
fn plus_wraps_on_overflow() {
    let mut env = Env::new();
    let r = run("9223372036854775807+1", &mut env).unwrap();
    assert_eq!(r.numbers(), vec![i64::MIN]);
}

#[test]
fn select_middle_element() {
    let mut env = Env::new();
    let r = run("1{5,7,9", &mut env).unwrap();
    assert!(r.depth.is_empty());
    assert_eq!(r.numbers(), vec![7]);
}

#[test]
fn select_row_of_matrix() {
    let mut env = Env::new();
    run("m=2,3", &mut env).unwrap();
    run("x=m#~6", &mut env).unwrap();
    let r = run("1{x", &mut env).unwrap();
    assert_eq!(r.depth, vec![3]);
    assert_eq!(r.numbers(), vec![3, 4, 5]);
}

#[test]
fn select_out_of_range_is_domain_error() {
    let mut env = Env::new();
    assert_eq!(run("5{1,2,3", &mut env).unwrap_err(), Error::Domain('{'));
    assert_eq!(run("3{1,2,3", &mut env).unwrap_err(), Error::Domain('{'));
    run("m=9223372036854775807+1", &mut env).unwrap();
    assert_eq!(run("m{1,2,3", &mut env).unwrap_err(), Error::Domain('{'));
}

#[test]
fn select_any_index_of_empty_cells() {
    let mut env = Env::new();
    run("z=3,0", &mut env).unwrap();
    let r = run("7{z#5", &mut env).unwrap();
    assert_eq!(r.depth, vec![0]);
    assert!(r.data.is_empty());
}

#[test]
fn select_from_scalar_is_domain_error() {
    let mut env = Env::new();
    assert_eq!(run("1{5", &mut env).unwrap_err(), Error::Domain('{'));
}

#[test]
fn size_of_unboxed_is_one() {
    let mut env = Env::new();
    assert_eq!(run("{1,2,3", &mut env).unwrap().numbers(), vec![1]);
}

#[test]
fn size_of_boxed_is_payload_length() {
    let mut env = Env::new();
    assert_eq!(run("{<1,2,3", &mut env).unwrap().numbers(), vec![3]);
}

#[test]
fn size_of_boxed_list_is_its_length() {
    let mut env = Env::new();
    assert_eq!(run("{1,<2", &mut env).unwrap().numbers(), vec![2]);
    assert_eq!(run("{3#<5", &mut env).unwrap().numbers(), vec![3]);
}

#[test]
fn size_of_boxed_scalar_is_domain_error() {
    let mut env = Env::new();
    assert_eq!(run("{<5", &mut env).unwrap_err(), Error::Domain('{'));
}

#[test]
fn iota_counts_from_zero() {
    let mut env = Env::new();
    let r = run("~4", &mut env).unwrap();
    assert_eq!(r.depth, vec![4]);
    assert_eq!(r.numbers(), vec![0, 1, 2, 3]);
}

#[test]
fn iota_of_zero_is_empty() {
    let mut env = Env::new();
    let r = run("~0", &mut env).unwrap();
    assert_eq!(r.depth, vec![0]);
    assert!(r.data.is_empty());
}

#[test]
fn iota_of_negative_is_domain_error() {
    let mut env = Env::new();
    assert_eq!(
        run("~9223372036854775807+1", &mut env).unwrap_err(),
        Error::Domain('~')
    );
}

#[test]
fn iota_of_non_scalar_is_domain_error() {
    let mut env = Env::new();
    assert_eq!(run("~1,2", &mut env).unwrap_err(), Error::Domain('~'));
    assert_eq!(run("~<3", &mut env).unwrap_err(), Error::Domain('~'));
    assert_eq!(run("~~0", &mut env).unwrap_err(), Error::Domain('~'));
}

#[test]
fn box_wraps_operand() {
    let mut env = Env::new();
    let r = run("<1,2", &mut env).unwrap();
    assert!(r.boxed);
    assert!(r.depth.is_empty());
    assert_eq!(r.data.len(), 1);
    match &r.data[0] {
        Element::Array(inner) => {
            assert_eq!(inner.depth, vec![2]);
            assert_eq!(inner.numbers(), vec![1, 2]);
        }
        Element::Number(_) => panic!("expected a nested array"),
    }
}

#[test]
fn shape_of_scalar_is_empty_vector() {
    let mut env = Env::new();
    let r = run("#10", &mut env).unwrap();
    assert_eq!(r.depth, vec![0]);
    assert!(r.data.is_empty());
}

#[test]
fn reshape_of_empty_source_is_domain_error() {
    let mut env = Env::new();
    assert_eq!(run("3#~0", &mut env).unwrap_err(), Error::Domain('#'));
}

#[test]
fn reshape_to_zero_of_empty_source() {
    let mut env = Env::new();
    let r = run("0#~0", &mut env).unwrap();
    assert_eq!(r.depth, vec![0]);
    assert!(r.data.is_empty());
}

#[test]
fn reshape_with_negative_axis_is_domain_error() {
    let mut env = Env::new();
    run("n=9223372036854775807+1", &mut env).unwrap();
    assert_eq!(run("n#5", &mut env).unwrap_err(), Error::Domain('#'));
}

#[test]
fn reshape_too_large() {
    let mut env = Env::new();
    run("t=4294967296,4294967296", &mut env).unwrap();
    assert_eq!(run("t#1", &mut env).unwrap_err(), Error::TooLarge);
}

#[test]
fn concatenate_keeps_right_boxed_flag() {
    let mut env = Env::new();
    let r = run("1,<2", &mut env).unwrap();
    assert!(r.boxed);
    assert_eq!(r.depth, vec![2]);
    assert_eq!(r.data.len(), 2);
}

#[test]
fn unknown_monadic_verb() {
    let mut env = Env::new();
    assert_eq!(
        run(",5", &mut env).unwrap_err(),
        Error::UnknownVerb(',', false)
    );
}

#[test]
fn unknown_dyadic_verb() {
    let mut env = Env::new();
    assert_eq!(
        run("1~2", &mut env).unwrap_err(),
        Error::UnknownVerb('~', true)
    );
    assert_eq!(
        run("1=2", &mut env).unwrap_err(),
        Error::UnknownVerb('=', true)
    );
}

#[test]
fn error_keeps_earlier_bindings() {
    let mut env = Env::new();
    assert_eq!(run("1{b=3", &mut env).unwrap_err(), Error::Domain('{'));
    assert_eq!(run("b", &mut env).unwrap().numbers(), vec![3]);
}

#[test]
fn reassignment_replaces_binding() {
    let mut env = Env::new();
    run("v=1", &mut env).unwrap();
    run("v=2,3", &mut env).unwrap();
    let r = run("v", &mut env).unwrap();
    assert_eq!(r.depth, vec![2]);
    assert_eq!(r.numbers(), vec![2, 3]);
}

#[test]
fn render_vector() {
    let mut env = Env::new();
    assert_eq!(render(&run("1,2", &mut env).unwrap()), "2 \n1 2 \n");
}

#[test]
fn render_scalar() {
    let mut env = Env::new();
    assert_eq!(render(&run("3", &mut env).unwrap()), "\n3 \n");
}

#[test]
fn render_negative_number() {
    let mut env = Env::new();
    assert_eq!(
        render(&run("9223372036854775807+1", &mut env).unwrap()),
        "\n-9223372036854775808 \n"
    );
}

#[test]
fn render_boxed() {
    let mut env = Env::new();
    assert_eq!(render(&run("<10", &mut env).unwrap()), "\n< \n10 \n \n");
}

#[test]
fn render_empty_vector() {
    let mut env = Env::new();
    assert_eq!(render(&run("~0", &mut env).unwrap()), "0 \n\n");
}
