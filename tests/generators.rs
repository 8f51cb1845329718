use jsongen::{
    IntegerGenerator, Json, Number, ObjectGenerator, OneofGenerator, OptionGenerator,
    PayloadError, StringGenerator,
};
use rand::SeedableRng;
use rand_chacha::ChaCha20Rng;

fn s(x: &str) -> Json {
    Json::String(x.to_string())
}

fn n(x: u64) -> Json {
    Json::Number(Number::PosInt(x))
}

fn obj(members: Vec<(&str, Json)>) -> Json {
    Json::Object(members.into_iter().map(|(k, v)| (k.to_string(), v)).collect())
}

#[test]
fn oneof_pick_takes_the_index() {
    let g = OneofGenerator(vec![n(7), n(8), n(9)]);
    assert_eq!(g.pick(0), n(7));
    assert_eq!(g.pick(2), n(9));
}

#[test]
fn oneof_payload_must_be_an_array() {
    assert!(matches!(OneofGenerator::from_payload(&n(1)), Err(PayloadError::WrongShape)));
    let g = OneofGenerator::from_payload(&Json::Array(vec![])).unwrap();
    assert!(matches!(g.validate(), Err(PayloadError::EmptyChoice)));
}

#[test]
fn oneof_draws_cover_the_elements() {
    let g = OneofGenerator(vec![n(1), n(2), n(3)]);
    let mut rng = ChaCha20Rng::seed_from_u64(11);
    let draws: Vec<Json> = (0..60).map(|_| g.generate(&mut rng)).collect();
    for x in [n(1), n(2), n(3)] {
        assert!(draws.contains(&x));
    }
}

#[test]
fn integer_generator_reads_and_validates() {
    let g = IntegerGenerator::new(3, 9);
    assert_eq!((g.min, g.max), (3, 9));
    let p = obj(vec![("max", n(4)), ("min", Json::Number(Number::NegInt(-2)))]);
    let g = IntegerGenerator::from_payload(&p).unwrap();
    assert_eq!((g.min, g.max), (-2, 4));
    assert!(matches!(IntegerGenerator::new(5, 1).validate(), Err(PayloadError::EmptyRange)));
    let float = obj(vec![("min", Json::Number(Number::Float("0.5".to_string()))), ("max", n(1))]);
    assert!(matches!(IntegerGenerator::from_payload(&float), Err(PayloadError::WrongShape)));
    let extra = obj(vec![("min", n(0)), ("max", n(1)), ("step", n(1))]);
    assert!(matches!(IntegerGenerator::from_payload(&extra), Err(PayloadError::WrongShape)));
}

#[test]
fn integer_generator_writes_its_directive() {
    let g = IntegerGenerator::new(-1, 2);
    assert_eq!(
        g.to_json(&"%".to_string()),
        obj(vec![(
            "%int",
            obj(vec![("min", Json::Number(Number::NegInt(-1))), ("max", n(2))])
        )])
    );
}

#[test]
fn integer_draws_hit_both_ends() {
    let g = IntegerGenerator::new(-1, 1);
    let mut rng = ChaCha20Rng::seed_from_u64(3);
    let draws: Vec<Json> = (0..60).map(|_| g.generate(&mut rng)).collect();
    assert!(draws.contains(&Json::Number(Number::NegInt(-1))));
    assert!(draws.contains(&n(1)));
}

#[test]
fn option_pick_follows_the_coin() {
    let g = OptionGenerator::from_payload(&s("kept"));
    assert_eq!(g.pick(true), s("kept"));
    assert_eq!(g.pick(false), Json::Null);
}

#[test]
fn string_generator_of_nothing_is_empty() {
    let g = StringGenerator::from_payload(&Json::Array(vec![])).unwrap();
    assert_eq!(g.generate(), s(""));
    assert!(matches!(StringGenerator::from_payload(&s("x")), Err(PayloadError::WrongShape)));
}

#[test]
fn object_generator_of_nulls_is_empty() {
    let g = ObjectGenerator::from_payload(&Json::Array(vec![Json::Null, Json::Null])).unwrap();
    assert_eq!(g.generate(), Json::Object(vec![]));
}
