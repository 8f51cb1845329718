use jsongen::{EvalError, Generator, Json, Number, PayloadError};
use rand::SeedableRng;
use rand_chacha::ChaCha20Rng;

fn s(x: &str) -> Json {
    Json::String(x.to_string())
}

fn n(x: u64) -> Json {
    Json::Number(Number::PosInt(x))
}

fn arr(items: Vec<Json>) -> Json {
    Json::Array(items)
}

fn obj(members: Vec<(&str, Json)>) -> Json {
    Json::Object(members.into_iter().map(|(k, v)| (k.to_string(), v)).collect())
}

fn int_range(min: Json, max: Json) -> Json {
    obj(vec![("$int", obj(vec![("min", min), ("max", max)]))])
}

fn run(template: &Json, seed: u64) -> Result<Json, EvalError> {
    run_with(template, seed, vec![])
}

fn run_with(template: &Json, seed: u64, vars: Vec<(&str, Json)>) -> Result<Json, EvalError> {
    let vars: Vec<(String, Json)> = vars.into_iter().map(|(k, v)| (k.to_string(), v)).collect();
    let mut g = Generator::new("$".to_string(), &vars);
    let mut rng = ChaCha20Rng::seed_from_u64(seed);
    g.generate(&mut rng, 0, template)
}

fn run_many(template: &Json, seed: u64, count: usize) -> Vec<Json> {
    let mut g = Generator::new("$".to_string(), &vec![]);
    let mut rng = ChaCha20Rng::seed_from_u64(seed);
    (0..count).map(|i| g.generate(&mut rng, i, template).unwrap()).collect()
}

#[test]
fn plain_template_is_unchanged() {
    let t = obj(vec![
        ("a", arr(vec![Json::Null, Json::Bool(true), n(3), Json::Number(Number::NegInt(-4))])),
        ("b", s("text with $ inside")),
        ("c", obj(vec![("x", s("")), ("y", Json::Number(Number::Float("1.5".to_string())))])),
        ("d", obj(vec![])),
    ]);
    for seed in 0..5 {
        assert_eq!(run(&t, seed), Ok(t.copy()));
    }
}

#[test]
fn self_reference_is_circular() {
    let r = run_with(&s("$a"), 1, vec![("a", s("$a"))]);
    assert_eq!(
        r,
        Err(EvalError::CircularReference(vec!["$a".to_string(), "$a".to_string()]))
    );
}

#[test]
fn transitive_reference_is_circular() {
    let r = run_with(&s("$a"), 1, vec![("a", s("$b")), ("b", arr(vec![s("$a")]))]);
    assert_eq!(
        r,
        Err(EvalError::CircularReference(vec![
            "$a".to_string(),
            "$b".to_string(),
            "$a".to_string()
        ]))
    );
}

#[test]
fn cycle_is_reported_from_its_first_occurrence() {
    let r = run_with(&s("$x"), 1, vec![("x", s("$a")), ("a", s("$b")), ("b", s("$a"))]);
    assert_eq!(
        r,
        Err(EvalError::CircularReference(vec![
            "$a".to_string(),
            "$b".to_string(),
            "$a".to_string()
        ]))
    );
}

#[test]
fn oneof_empty_fails() {
    let t = obj(vec![("$oneof", arr(vec![]))]);
    assert_eq!(
        run(&t, 3),
        Err(EvalError::InvalidGenerator("$oneof".to_string(), arr(vec![]), PayloadError::EmptyChoice))
    );
}

#[test]
fn oneof_singleton_always_returns_it() {
    let t = obj(vec![("$oneof", arr(vec![s("only")]))]);
    for seed in 0..20 {
        assert_eq!(run(&t, seed), Ok(s("only")));
    }
}

#[test]
fn int_inverted_range_fails() {
    let t = int_range(n(5), n(4));
    match run(&t, 0) {
        Err(EvalError::InvalidGenerator(k, _, PayloadError::EmptyRange)) => assert_eq!(k, "$int"),
        other => panic!("unexpected {:?}", other),
    }
}

#[test]
fn int_equal_bounds_give_that_value() {
    let t = int_range(Json::Number(Number::NegInt(-7)), Json::Number(Number::NegInt(-7)));
    for seed in 0..20 {
        assert_eq!(run(&t, seed), Ok(Json::Number(Number::NegInt(-7))));
    }
}

#[test]
fn int_draws_stay_in_range() {
    let t = int_range(n(10), n(20));
    let mut seen = std::collections::HashSet::new();
    for seed in 0..200 {
        match run(&t, seed) {
            Ok(Json::Number(Number::PosInt(k))) => {
                assert!((10..=20).contains(&k));
                seen.insert(k);
            }
            other => panic!("unexpected {:?}", other),
        }
    }
    assert!(seen.len() > 5);
}

#[test]
fn int_payload_of_wrong_shape_fails() {
    let t = obj(vec![("$int", obj(vec![("min", n(1))]))]);
    match run(&t, 0) {
        Err(EvalError::InvalidGenerator(k, p, PayloadError::WrongShape)) => {
            assert_eq!(k, "$int");
            assert_eq!(p, obj(vec![("min", n(1))]));
        }
        other => panic!("unexpected {:?}", other),
    }
}

#[test]
fn arr_len_zero_evaluates_nothing() {
    let t = obj(vec![("$arr", obj(vec![("len", n(0)), ("val", s("$undefined"))]))]);
    assert_eq!(run(&t, 9), Ok(arr(vec![])));
}

#[test]
fn arr_elements_are_drawn_independently() {
    let t = obj(vec![(
        "$arr",
        obj(vec![("len", n(16)), ("val", obj(vec![("$oneof", arr(vec![n(1), n(2)]))]))]),
    )]);
    for seed in 0..10 {
        match run(&t, seed) {
            Ok(Json::Array(items)) => {
                assert_eq!(items.len(), 16);
                assert!(items.iter().any(|x| *x != items[0]));
            }
            other => panic!("unexpected {:?}", other),
        }
    }
}

#[test]
fn arr_of_zero_range_gives_zeros() {
    let t = obj(vec![(
        "$arr",
        obj(vec![("len", n(3)), ("val", int_range(n(0), n(0)))]),
    )]);
    for seed in 0..10 {
        assert_eq!(run(&t, seed), Ok(arr(vec![n(0), n(0), n(0)])));
    }
}

#[test]
fn option_is_roughly_fair() {
    let t = obj(vec![("$option", n(1))]);
    let docs = run_many(&t, 42, 1000);
    let kept = docs.iter().filter(|d| **d == n(1)).count();
    let dropped = docs.iter().filter(|d| **d == Json::Null).count();
    assert_eq!(kept + dropped, 1000);
    assert!(kept > 400 && kept < 600);
}

#[test]
fn option_payload_is_always_evaluated() {
    // The payload draws before the coin, kept or not: what follows sees the
    // same stream as when the payload and a coin stand side by side.
    for seed in 0..30 {
        let with_option = arr(vec![
            obj(vec![("$option", obj(vec![("$oneof", arr(vec![n(1), n(2), n(3)]))]))]),
            s("$u32"),
        ]);
        let side_by_side = arr(vec![
            obj(vec![("$oneof", arr(vec![n(1), n(2), n(3)]))]),
            obj(vec![("$option", n(0))]),
            s("$u32"),
        ]);
        let a = match run(&with_option, seed) {
            Ok(Json::Array(v)) => v,
            other => panic!("unexpected {:?}", other),
        };
        let b = match run(&side_by_side, seed) {
            Ok(Json::Array(v)) => v,
            other => panic!("unexpected {:?}", other),
        };
        assert_eq!(a[1], b[2]);
        assert!(a[0] == Json::Null || a[0] == b[0]);
    }
}

#[test]
fn option_of_unbound_name_always_fails() {
    let t = obj(vec![("$option", s("$missing"))]);
    for seed in 0..20 {
        assert_eq!(run(&t, seed), Err(EvalError::UndefinedVariable("$missing".to_string())));
    }
}

#[test]
fn same_seed_gives_same_documents() {
    let t = obj(vec![
        ("n", s("$u16")),
        ("c", s("$alpha")),
        ("o", obj(vec![("$option", s("$bool"))])),
    ]);
    assert_eq!(run_many(&t, 7, 10), run_many(&t, 7, 10));
}

#[test]
fn oneof_of_three_gives_one_of_them() {
    let t = obj(vec![("$oneof", arr(vec![n(1), n(2), n(3)]))]);
    let first = run(&t, 5).unwrap();
    assert!(first == n(1) || first == n(2) || first == n(3));
    assert_eq!(run(&t, 5).unwrap(), first);
}

#[test]
fn loop_index_is_bound() {
    let docs = run_many(&s("$i"), 0, 3);
    assert_eq!(docs[2], n(2));
    assert_eq!(docs, vec![n(0), n(1), n(2)]);
}

#[test]
fn user_variable_is_resolved() {
    assert_eq!(run_with(&s("$x"), 0, vec![("x", n(5))]), Ok(n(5)));
}

#[test]
fn unbound_variable_fails() {
    assert_eq!(
        run_with(&s("$y"), 0, vec![("x", n(5))]),
        Err(EvalError::UndefinedVariable("$y".to_string()))
    );
}

#[test]
fn user_variable_overrides_predefined() {
    assert_eq!(run_with(&s("$u8"), 0, vec![("u8", s("mine"))]), Ok(s("mine")));
}

#[test]
fn unknown_generator_fails() {
    let t = obj(vec![("$nope", n(1))]);
    assert_eq!(run(&t, 0), Err(EvalError::UnknownGenerator("$nope".to_string())));
}

#[test]
fn prefixed_key_among_several_is_plain() {
    let t = obj(vec![("$nope", n(1)), ("b", n(2))]);
    assert_eq!(run(&t, 0), Ok(t.copy()));
}

#[test]
fn str_joins_fragment_texts() {
    let t = obj(vec![(
        "$str",
        arr(vec![
            s("a"),
            Json::Null,
            n(12),
            Json::Number(Number::NegInt(-5)),
            Json::Bool(true),
            arr(vec![n(1), s("x")]),
            obj(vec![("k", s("v\n\"\u{1}"))]),
        ]),
    )]);
    assert_eq!(run(&t, 0), Ok(s("a12-5true[1,\"x\"]{\"k\":\"v\\n\\\"\\u0001\"}")));
}

#[test]
fn obj_keeps_present_members_in_order() {
    let member = |name: &str, v: Json| obj(vec![("name", s(name)), ("val", v)]);
    let t = obj(vec![(
        "$obj",
        arr(vec![member("a", n(1)), Json::Null, member("b", n(2)), member("a", n(3))]),
    )]);
    assert_eq!(run(&t, 0), Ok(obj(vec![("a", n(3)), ("b", n(2))])));
}

#[test]
fn obj_member_of_wrong_shape_fails() {
    let t = obj(vec![("$obj", arr(vec![obj(vec![("name", n(1)), ("val", n(2))])]))]);
    match run(&t, 0) {
        Err(EvalError::InvalidGenerator(k, _, PayloadError::WrongShape)) => assert_eq!(k, "$obj"),
        other => panic!("unexpected {:?}", other),
    }
}

#[test]
fn predefined_names_draw_in_their_ranges() {
    for seed in 0..50 {
        match run(&s("$u8"), seed) {
            Ok(Json::Number(Number::PosInt(k))) => assert!(k <= 255),
            other => panic!("unexpected {:?}", other),
        }
        match run(&s("$digit"), seed) {
            Ok(Json::Number(Number::PosInt(k))) => assert!(k <= 9),
            other => panic!("unexpected {:?}", other),
        }
        match run(&s("$alpha"), seed) {
            Ok(Json::String(c)) => assert!(c.len() == 1 && c.chars().all(|c| c.is_ascii_alphabetic())),
            other => panic!("unexpected {:?}", other),
        }
        match run(&s("$bool"), seed) {
            Ok(Json::Bool(_)) => {}
            other => panic!("unexpected {:?}", other),
        }
    }
}

#[test]
fn other_prefix_is_honoured() {
    let mut g = Generator::new("@@".to_string(), &vec![]);
    let mut rng = ChaCha20Rng::seed_from_u64(0);
    let t = obj(vec![("@@oneof", arr(vec![s("$u8")]))]);
    assert_eq!(g.generate(&mut rng, 0, &t), Ok(s("$u8")));
    assert_eq!(g.generate(&mut rng, 4, &s("@@i")), Ok(n(4)));
}

#[test]
fn draw_free_templates_leave_the_source_untouched() {
    let mut g = Generator::new("$".to_string(), &vec![]);
    let mut rng = ChaCha20Rng::seed_from_u64(8);
    let before = rng.clone();
    let plain = obj(vec![("a", arr(vec![n(1), s("x")]))]);
    assert_eq!(g.generate(&mut rng, 0, &plain), Ok(plain.copy()));
    assert!(g.generate(&mut rng, 0, &s("$unbound")).is_err());
    let empty = obj(vec![("$arr", obj(vec![("val", s("$u8")), ("len", n(0))]))]);
    assert_eq!(g.generate(&mut rng, 0, &empty), Ok(arr(vec![])));
    assert!(rng == before);
}

#[test]
fn arr_len_zero_with_val_first_is_empty() {
    let t = obj(vec![("$arr", obj(vec![("val", s("$nope")), ("len", n(0))]))]);
    assert_eq!(run(&t, 2), Ok(arr(vec![])));
}

#[test]
fn three_deep_cycle_is_reported_from_its_first_occurrence() {
    let r = run_with(&s("$c"), 1, vec![("c", s("$a")), ("a", arr(vec![s("$b")])), ("b", s("$a"))]);
    assert_eq!(
        r,
        Err(EvalError::CircularReference(vec![
            "$a".to_string(),
            "$b".to_string(),
            "$a".to_string()
        ]))
    );
}

#[test]
fn arr_payload_through_a_variable_is_drawn_afresh() {
    let rep = obj(vec![
        ("len", n(16)),
        ("val", obj(vec![("$oneof", arr(vec![n(1), n(2)]))])),
    ]);
    let t = obj(vec![("$arr", s("$rep"))]);
    for seed in 0..10 {
        match run_with(&t, seed, vec![("rep", rep.copy())]) {
            Ok(Json::Array(items)) => {
                assert_eq!(items.len(), 16);
                assert!(items.iter().all(|x| *x == n(1) || *x == n(2)));
                assert!(items.iter().any(|x| *x != items[0]));
            }
            other => panic!("unexpected {:?}", other),
        }
    }
}

#[test]
fn arr_payload_that_is_no_object_fails() {
    let t = obj(vec![("$arr", arr(vec![n(1)]))]);
    assert_eq!(
        run(&t, 0),
        Err(EvalError::InvalidGenerator("$arr".to_string(), arr(vec![n(1)]), PayloadError::WrongShape))
    );
}

#[test]
fn arr_payload_through_itself_is_circular() {
    let rep = obj(vec![("len", n(1)), ("val", obj(vec![("$arr", s("$rep"))]))]);
    let r = run_with(&obj(vec![("$arr", s("$rep"))]), 0, vec![("rep", rep)]);
    assert_eq!(
        r,
        Err(EvalError::CircularReference(vec!["$rep".to_string(), "$rep".to_string()]))
    );
}
