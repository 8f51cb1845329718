use vstd::prelude::*;
use rand_chacha::ChaCha20Rng;
use crate::generators::{
    arr_payload, build_object, fragments_text, int_payload, member_payload, obj_payload_ok,
    as_i64, as_usize, directive, int_number, key_index, key_is, set_member, set_member_exec, two_fields_exec,
    ArrayGenerator,
    IntegerGenerator, ObjectGenerator, OneofGenerator, OptionGenerator, PayloadError,
    StringGenerator,
};
use crate::text::push_char;
use crate::value::{has_prefix, is_plain, starts_with, Json, JsonV, Number, NumberV};

verus! {

broadcast use vstd::std_specs::vec::axiom_vec_index_decreases;

/// Why a document could not be generated.
#[derive(Debug, PartialEq)]
pub enum EvalError {
    /// A reference to a name that nothing binds.
    UndefinedVariable(String),
    /// A name reached again while it was being resolved: the names from its
    /// first occurrence to the repeat.
    CircularReference(Vec<String>),
    /// A one-member object whose key has the prefix but no known suffix.
    UnknownGenerator(String),
    /// A directive whose evaluated payload was refused: its key, the payload
    /// and the reason.
    InvalidGenerator(String, Json, PayloadError),
}

/// The six generator variants.
#[derive(Debug, Clone, Copy, PartialEq, Eq, Structural)]
pub enum GeneratorKind {
    Oneof,
    Int,
    Str,
    Arr,
    Obj,
    Option,
}

pub open spec fn suffix(k: GeneratorKind) -> Seq<char> {
    match k {
        GeneratorKind::Oneof => "oneof"@,
        GeneratorKind::Int => "int"@,
        GeneratorKind::Str => "str"@,
        GeneratorKind::Arr => "arr"@,
        GeneratorKind::Obj => "obj"@,
        GeneratorKind::Option => "option"@,
    }
}

/// The variant that `key` names under `prefix`, if any.
pub fn kind_of(prefix: &String, key: &String) -> (r: Option<GeneratorKind>)
    ensures
        match r {
            Some(k) => key@ == prefix@ + suffix(k),
            None => forall|k: GeneratorKind| key@ != prefix@ + #[trigger] suffix(k),
        },
        r == spec_kind(prefix@, key@),
{
    let oneof_key = prefix.clone().concat("oneof");
    let int_key = prefix.clone().concat("int");
    let str_key = prefix.clone().concat("str");
    let arr_key = prefix.clone().concat("arr");
    let obj_key = prefix.clone().concat("obj");
    let option_key = prefix.clone().concat("option");
    if key_is(key, oneof_key.as_str()) {
        Some(GeneratorKind::Oneof)
    } else if key_is(key, int_key.as_str()) {
        Some(GeneratorKind::Int)
    } else if key_is(key, str_key.as_str()) {
        Some(GeneratorKind::Str)
    } else if key_is(key, arr_key.as_str()) {
        Some(GeneratorKind::Arr)
    } else if key_is(key, obj_key.as_str()) {
        Some(GeneratorKind::Obj)
    } else if key_is(key, option_key.as_str()) {
        Some(GeneratorKind::Option)
    } else {
        assert forall|k: GeneratorKind| key@ != prefix@ + #[trigger] suffix(k) by {
            match k {
                GeneratorKind::Oneof => {},
                GeneratorKind::Int => {},
                GeneratorKind::Str => {},
                GeneratorKind::Arr => {},
                GeneratorKind::Obj => {},
                GeneratorKind::Option => {},
            }
        }
        None
    }
}

proof fn lemma_suffix_unique(p: Seq<char>, g: GeneratorKind, h: GeneratorKind)
    requires
        p + suffix(g) == p + suffix(h),
    ensures
        g == h,
{
    assert((p + suffix(g)).subrange(p.len() as int, (p + suffix(g)).len() as int) =~= suffix(g));
    assert((p + suffix(h)).subrange(p.len() as int, (p + suffix(h)).len() as int) =~= suffix(h));
    reveal_strlit("oneof");
    reveal_strlit("int");
    reveal_strlit("str");
    reveal_strlit("arr");
    reveal_strlit("obj");
    reveal_strlit("option");
    if g != h {
        assert(suffix(g).len() != suffix(h).len() || suffix(g)[0] != suffix(h)[0]);
    }
}


/// The mathematical value of an `EvalError`.
pub enum ErrV {
    Undefined(Seq<char>),
    Circular(Seq<Seq<char>>),
    Unknown(Seq<char>),
    Invalid(Seq<char>, JsonV, PayloadError),
}

impl EvalError {
    pub open spec fn view(&self) -> ErrV {
        match self {
            EvalError::UndefinedVariable(n) => ErrV::Undefined(n@),
            EvalError::CircularReference(c) => ErrV::Circular(names_of(c@)),
            EvalError::UnknownGenerator(k) => ErrV::Unknown(k@),
            EvalError::InvalidGenerator(k, p, c) => ErrV::Invalid(k@, p@, *c),
        }
    }
}

/// Marks the result of evaluating a directive's payload.
pub open spec fn payload_result(pr: Result<JsonV, ErrV>) -> bool {
    true
}

/// The mathematical value of an evaluation result.
pub open spec fn res_view(r: Result<Json, EvalError>) -> Result<JsonV, ErrV> {
    match r {
        Ok(v) => Ok(v@),
        Err(e) => Err(e@),
    }
}

/// The variant that `key` names under `prefix`, if any.
pub open spec fn spec_kind(prefix: Seq<char>, key: Seq<char>) -> Option<GeneratorKind> {
    if key == prefix + "oneof"@ {
        Some(GeneratorKind::Oneof)
    } else if key == prefix + "int"@ {
        Some(GeneratorKind::Int)
    } else if key == prefix + "str"@ {
        Some(GeneratorKind::Str)
    } else if key == prefix + "arr"@ {
        Some(GeneratorKind::Arr)
    } else if key == prefix + "obj"@ {
        Some(GeneratorKind::Obj)
    } else if key == prefix + "option"@ {
        Some(GeneratorKind::Option)
    } else {
        None
    }
}

/// The cycle that resolving `s` closes: the names of `stack` from the first
/// occurrence of `s`, then `s` again.
pub open spec fn cycle_error(stack: Seq<Seq<char>>, s: Seq<char>, r: Result<JsonV, ErrV>) -> bool {
    r is Err && r->Err_0 is Circular && exists|j: int|
        0 <= j < stack.len() && stack[j] == s && (forall|k: int| 0 <= k < j ==> stack[k] != s)
            && r->Err_0->Circular_0 == stack.subrange(j, stack.len() as int).push(s)
}

/// What the variant `kind` (any but the repeated array) may give for the
/// evaluated payload `pv` under the directive key `key`.
pub open spec fn generated(kind: GeneratorKind, key: Seq<char>, pv: JsonV, r: Result<JsonV, ErrV>) -> bool {
    let wrong = Err::<JsonV, ErrV>(ErrV::Invalid(key, pv, PayloadError::WrongShape));
    match kind {
        GeneratorKind::Oneof => match pv {
            JsonV::Arr(items) => if items.len() == 0 {
                r == Err::<JsonV, ErrV>(ErrV::Invalid(key, pv, PayloadError::EmptyChoice))
            } else {
                exists|i: int| 0 <= i < items.len() && r == Ok::<JsonV, ErrV>(items[i])
            },
            _ => r == wrong,
        },
        GeneratorKind::Int => match int_payload(pv) {
            Some((a, b)) => if a > b {
                r == Err::<JsonV, ErrV>(ErrV::Invalid(key, pv, PayloadError::EmptyRange))
            } else {
                exists|k: i64| a <= k <= b && r == Ok::<JsonV, ErrV>(int_number(k))
            },
            None => r == wrong,
        },
        GeneratorKind::Str => match pv {
            JsonV::Arr(items) => r == Ok::<JsonV, ErrV>(JsonV::Str(fragments_text(items))),
            _ => r == wrong,
        },
        GeneratorKind::Obj => match pv {
            JsonV::Arr(items) => if obj_payload_ok(items) {
                r == Ok::<JsonV, ErrV>(
                    JsonV::Obj(build_object(items.map_values(|x: JsonV| member_payload(x)->0))),
                )
            } else {
                r == wrong
            },
            _ => r == wrong,
        },
        GeneratorKind::Option => r == Ok::<JsonV, ErrV>(pv) || r == Ok::<JsonV, ErrV>(JsonV::Null),
        GeneratorKind::Arr => false,
    }
}


proof fn lemma_spec_kind(p: Seq<char>, g: GeneratorKind)
    ensures
        spec_kind(p, p + suffix(g)) == Some(g),
        has_prefix(p + suffix(g), p),
{
    assert((p + suffix(g)).subrange(0, p.len() as int) =~= p);
    assert(p + "oneof"@ == p + suffix(GeneratorKind::Oneof));
    assert(p + "int"@ == p + suffix(GeneratorKind::Int));
    assert(p + "str"@ == p + suffix(GeneratorKind::Str));
    assert(p + "arr"@ == p + suffix(GeneratorKind::Arr));
    assert(p + "obj"@ == p + suffix(GeneratorKind::Obj));
    assert(p + "option"@ == p + suffix(GeneratorKind::Option));
    if p + suffix(g) == p + "oneof"@ {
        lemma_suffix_unique(p, g, GeneratorKind::Oneof);
    } else if p + suffix(g) == p + "int"@ {
        lemma_suffix_unique(p, g, GeneratorKind::Int);
    } else if p + suffix(g) == p + "str"@ {
        lemma_suffix_unique(p, g, GeneratorKind::Str);
    } else if p + suffix(g) == p + "arr"@ {
        lemma_suffix_unique(p, g, GeneratorKind::Arr);
    } else if p + suffix(g) == p + "obj"@ {
        lemma_suffix_unique(p, g, GeneratorKind::Obj);
    } else if p + suffix(g) == p + "option"@ {
        lemma_suffix_unique(p, g, GeneratorKind::Option);
    }
}

/// `r` reports the cycle that resolving `s` closes: the names of `stack`
/// from the first occurrence of `s`, then `s` again.
pub open spec fn is_cycle(stack: Seq<Seq<char>>, s: Seq<char>, r: Result<Json, EvalError>) -> bool {
    r is Err && r->Err_0 is CircularReference && exists|j: int|
        0 <= j < stack.len() && stack[j] == s && (forall|k: int| 0 <= k < j ==> stack[k] != s)
            && names_of(r->Err_0->CircularReference_0@) == stack.subrange(j, stack.len() as int).push(s)
}

/// A reported cycle starts and ends with the name that closed it.
pub proof fn lemma_cycle_ends(stack: Seq<Seq<char>>, s: Seq<char>, r: Result<Json, EvalError>)
    requires
        is_cycle(stack, s, r),
    ensures
        names_of(r->Err_0->CircularReference_0@).len() >= 2,
        names_of(r->Err_0->CircularReference_0@)[0] == s,
        names_of(r->Err_0->CircularReference_0@).last() == s,
{
    let j = choose|j: int|
        0 <= j < stack.len() && stack[j] == s && (forall|k: int| 0 <= k < j ==> stack[k] != s)
            && names_of(r->Err_0->CircularReference_0@) == stack.subrange(j, stack.len() as int).push(s);
    assert(stack.subrange(j, stack.len() as int)[0] == s);
}

/// A pick-one directive over a single plain element.
pub open spec fn is_single_choice(prefix: Seq<char>, t: JsonV) -> bool {
    &&& t is Obj
    &&& t->Obj_0.len() == 1
    &&& t->Obj_0[0].0 == prefix + "oneof"@
    &&& t->Obj_0[0].1 is Arr
    &&& t->Obj_0[0].1->Arr_0.len() == 1
    &&& is_plain(prefix, t->Obj_0[0].1->Arr_0[0])
}

/// An integer-range directive whose two bounds are the same integer.
pub open spec fn is_fixed_range(prefix: Seq<char>, t: JsonV) -> bool {
    &&& t is Obj
    &&& t->Obj_0.len() == 1
    &&& t->Obj_0[0].0 == prefix + "int"@
    &&& t->Obj_0[0].1 is Obj
    &&& t->Obj_0[0].1->Obj_0.len() == 2
    &&& t->Obj_0[0].1->Obj_0[0].0 == "min"@
    &&& t->Obj_0[0].1->Obj_0[1].0 == "max"@
    &&& as_i64(t->Obj_0[0].1->Obj_0[0].1) is Some
    &&& t->Obj_0[0].1->Obj_0[1].1 == t->Obj_0[0].1->Obj_0[0].1
}

/// What a template gives whatever the draws, where it is one of: plain, a
/// single choice, a range of one integer.
pub open spec fn fixed_value(prefix: Seq<char>, t: JsonV) -> Option<JsonV> {
    if is_plain(prefix, t) {
        Some(t)
    } else if is_single_choice(prefix, t) {
        Some(t->Obj_0[0].1->Arr_0[0])
    } else if is_fixed_range(prefix, t) {
        Some(int_number(as_i64(t->Obj_0[0].1->Obj_0[0].1)->0))
    } else {
        None
    }
}

/// A repeated-array directive of members `len` and `val`, in that order,
/// whose `val` has a fixed value.
pub open spec fn is_fixed_repeat(prefix: Seq<char>, t: JsonV) -> bool {
    &&& t is Obj
    &&& t->Obj_0.len() == 1
    &&& t->Obj_0[0].0 == prefix + "arr"@
    &&& t->Obj_0[0].1 is Obj
    &&& t->Obj_0[0].1->Obj_0.len() == 2
    &&& t->Obj_0[0].1->Obj_0[0].0 == "len"@
    &&& t->Obj_0[0].1->Obj_0[1].0 == "val"@
    &&& as_usize(t->Obj_0[0].1->Obj_0[0].1) is Some
    &&& fixed_value(prefix, t->Obj_0[0].1->Obj_0[1].1) is Some
}

/// The array that a fixed repeat gives: `len` copies of the fixed value.
pub open spec fn repeat_of(prefix: Seq<char>, t: JsonV) -> JsonV {
    let payload = t->Obj_0[0].1->Obj_0;
    JsonV::Arr(
        Seq::new(
            as_usize(payload[0].1)->0 as nat,
            |i: int| fixed_value(prefix, payload[1].1)->0,
        ),
    )
}

/// An optional-value directive whose payload references a name that nothing
/// binds: the payload is evaluated before the coin, so this fails either way.
pub open spec fn is_option_of_unbound(
    prefix: Seq<char>,
    env: Seq<(Seq<char>, JsonV)>,
    stack: Seq<Seq<char>>,
    t: JsonV,
) -> bool {
    &&& t is Obj
    &&& t->Obj_0.len() == 1
    &&& t->Obj_0[0].0 == prefix + "option"@
    &&& t->Obj_0[0].1 is Str
    &&& has_prefix(t->Obj_0[0].1->Str_0, prefix)
    &&& !stack.contains(t->Obj_0[0].1->Str_0)
    &&& key_index(env, t->Obj_0[0].1->Str_0) < 0
}

/// A repeated-array directive that asks for no element, whatever its `val`.
pub open spec fn is_empty_repeat(prefix: Seq<char>, t: JsonV) -> bool {
    &&& t is Obj
    &&& t->Obj_0.len() == 1
    &&& t->Obj_0[0].0 == prefix + "arr"@
    &&& t->Obj_0[0].1 is Obj
    &&& t->Obj_0[0].1->Obj_0.len() == 2
    &&& t->Obj_0[0].1->Obj_0[0] == ("len"@, int_number(0))
    &&& t->Obj_0[0].1->Obj_0[1].0 == "val"@
}

pub open spec fn names_of(s: Seq<String>) -> Seq<Seq<char>> {
    s.map_values(|x: String| x@)
}

/// How many bindings have a name that is not on the resolution stack.
pub open spec fn unvisited(env: Seq<(Seq<char>, JsonV)>, stack: Seq<Seq<char>>) -> nat
    decreases env.len(),
{
    if env.len() == 0 {
        0
    } else {
        unvisited(env.drop_last(), stack) + if stack.contains(env.last().0) {
            0nat
        } else {
            1nat
        }
    }
}

proof fn lemma_unvisited_mono(env: Seq<(Seq<char>, JsonV)>, stack: Seq<Seq<char>>, s: Seq<char>)
    ensures
        unvisited(env, stack.push(s)) <= unvisited(env, stack),
    decreases env.len(),
{
    if env.len() > 0 {
        lemma_unvisited_mono(env.drop_last(), stack, s);
        if stack.contains(env.last().0) {
            let j = choose|j: int| 0 <= j < stack.len() && stack[j] == env.last().0;
            assert(stack.push(s)[j] == env.last().0);
        }
    }
}

proof fn lemma_unvisited_push(env: Seq<(Seq<char>, JsonV)>, stack: Seq<Seq<char>>, s: Seq<char>, i: int)
    requires
        0 <= i < env.len(),
        env[i].0 == s,
        !stack.contains(s),
    ensures
        unvisited(env, stack.push(s)) < unvisited(env, stack),
    decreases env.len(),
{
    assert(stack.push(s)[stack.len() as int] == s);
    if i == env.len() - 1 {
        lemma_unvisited_mono(env.drop_last(), stack, s);
    } else {
        lemma_unvisited_push(env.drop_last(), stack, s, i);
        if stack.contains(env.last().0) {
            let j = choose|j: int| 0 <= j < stack.len() && stack[j] == env.last().0;
            assert(stack.push(s)[j] == env.last().0);
        }
    }
}

/// The directive for an integer range.
pub open spec fn int_directive(prefix: Seq<char>, min: i64, max: i64) -> JsonV {
    directive(prefix + "int"@, JsonV::Obj(seq![("min"@, int_number(min)), ("max"@, int_number(max))]))
}

/// The letters that the predefined `alpha` picks from.
pub open spec fn letters() -> Seq<char> {
    "abcdefghijklmnopqrstuvwxyzABCDEFGHIJKLMNOPQRSTUVWXYZ"@
}

/// The names that every evaluator knows, each with its template.
pub open spec fn predefined(prefix: Seq<char>) -> Seq<(Seq<char>, JsonV)> {
    seq![
        ("u8"@, int_directive(prefix, 0, 255)),
        ("u16"@, int_directive(prefix, 0, 65535)),
        ("u32"@, int_directive(prefix, 0, 4294967295)),
        ("i8"@, int_directive(prefix, -128i64, 127)),
        ("i16"@, int_directive(prefix, -32768i64, 32767)),
        ("i32"@, int_directive(prefix, -2147483648i64, 2147483647)),
        ("i64"@, int_directive(prefix, i64::MIN, i64::MAX)),
        ("digit"@, int_directive(prefix, 0, 9)),
        ("bool"@, directive(prefix + "oneof"@, JsonV::Arr(seq![JsonV::Bool(true), JsonV::Bool(false)]))),
        ("alpha"@, directive(
            prefix + "oneof"@,
            JsonV::Arr(Seq::new(letters().len(), |i: int| JsonV::Str(seq![letters()[i]]))),
        )),
    ]
}

/// Binds each `(name, template)` of `vars` under `prefix + name`, in order;
/// a later binding of a name replaces an earlier one.
pub open spec fn bind_all(env: Seq<(Seq<char>, JsonV)>, prefix: Seq<char>, vars: Seq<(Seq<char>, JsonV)>) -> Seq<(Seq<char>, JsonV)>
    decreases vars.len(),
{
    if vars.len() == 0 {
        env
    } else {
        set_member(bind_all(env, prefix, vars.drop_last()), prefix + vars.last().0, vars.last().1)
    }
}

fn int_binding(name: &str, prefix: &String, min: i64, max: i64) -> (r: (String, Json))
    ensures
        r.0@ == name@,
        r.1@ == int_directive(prefix@, min, max),
{
    (String::from_str(name), IntegerGenerator::new(min, max).to_json(prefix))
}

fn predefined_vars(prefix: &String) -> (r: Vec<(String, Json)>)
    ensures
        Json::Object(r)@->Obj_0 == predefined(prefix@),
{
    let mut v: Vec<(String, Json)> = Vec::new();
    v.push(int_binding("u8", prefix, 0, 255));
    v.push(int_binding("u16", prefix, 0, 65535));
    v.push(int_binding("u32", prefix, 0, 4294967295));
    v.push(int_binding("i8", prefix, -128, 127));
    v.push(int_binding("i16", prefix, -32768, 32767));
    v.push(int_binding("i32", prefix, -2147483648, 2147483647));
    v.push(int_binding("i64", prefix, i64::MIN, i64::MAX));
    v.push(int_binding("digit", prefix, 0, 9));
    let mut bools: Vec<Json> = Vec::new();
    bools.push(Json::Bool(true));
    bools.push(Json::Bool(false));
    let bools = OneofGenerator(bools);
    assert(bools@[0] == bools.0@[0]@);
    assert(bools@[1] == bools.0@[1]@);
    assert(bools@ =~= seq![JsonV::Bool(true), JsonV::Bool(false)]);
    v.push((String::from_str("bool"), bools.to_json(prefix)));
    let alphabet = "abcdefghijklmnopqrstuvwxyzABCDEFGHIJKLMNOPQRSTUVWXYZ";
    let n = alphabet.unicode_len();
    let mut chars: Vec<Json> = Vec::new();
    let mut i: usize = 0;
    while i < n
        invariant
            n == letters().len(),
            alphabet@ == letters(),
            i <= n,
            chars@.len() == i,
            forall|j: int| 0 <= j < i ==> (#[trigger] chars@[j])@ == JsonV::Str(seq![letters()[j]]),
        decreases n - i,
    {
        let mut one = String::new();
        push_char(&mut one, alphabet.get_char(i));
        assert(one@ =~= seq![letters()[i as int]]);
        chars.push(Json::String(one));
        i += 1;
    }
    let alpha = OneofGenerator(chars);
    assert(alpha@ =~= Seq::new(letters().len(), |i: int| JsonV::Str(seq![letters()[i]])));
    v.push((String::from_str("alpha"), alpha.to_json(prefix)));
    assert(Json::Object(v)@->Obj_0 =~= predefined(prefix@));
    v
}

/// The cycle that resolving `s` closes, where `s` is on the stack: the names
/// from its first occurrence, then `s` again.
fn find_cycle(stack: &Vec<String>, s: &String) -> (r: Option<Vec<String>>)
    ensures
        r is Some <==> names_of(stack@).contains(s@),
        r is Some ==> cycle_error(names_of(stack@), s@, Err(ErrV::Circular(names_of(r->0@)))),
        r is Some ==> names_of(r->0@).len() >= 2 && r->0@[0]@ == s@ && r->0@.last()@ == s@,
{
    let ghost sv = names_of(stack@);
    let mut j: usize = 0;
    while j < stack.len()
        invariant
            sv == names_of(stack@),
            j <= stack@.len(),
            forall|k: int| 0 <= k < j ==> sv[k] != s@,
        decreases stack@.len() - j,
    {
        if key_is(&stack[j], s.as_str()) {
            assert(sv[j as int] == stack@[j as int]@);
            let mut chain: Vec<String> = Vec::new();
            let mut k: usize = j;
            while k < stack.len()
                invariant
                    sv == names_of(stack@),
                    sv.len() == stack@.len(),
                    j <= k <= stack@.len(),
                    chain@.len() == k - j,
                    forall|q: int| 0 <= q < k - j ==> (#[trigger] chain@[q])@ == sv[j + q],
                decreases stack@.len() - k,
            {
                chain.push(stack[k].clone());
                k += 1;
            }
            chain.push(s.clone());
            proof {
                assert(names_of(chain@) =~= sv.subrange(j as int, sv.len() as int).push(s@));
                assert(sv.contains(s@));
                assert(names_of(chain@)[0] == chain@[0]@);
            }
            return Some(chain);
        }
        j += 1;
    }
    None
}

/// `stack` with `s` pushed.
fn pushed(stack: &Vec<String>, s: &String) -> (r: Vec<String>)
    ensures
        names_of(r@) == names_of(stack@).push(s@),
{
    let ghost sv = names_of(stack@);
    let mut inner: Vec<String> = Vec::new();
    let mut k: usize = 0;
    while k < stack.len()
        invariant
            sv == names_of(stack@),
            sv.len() == stack@.len(),
            k <= stack@.len(),
            inner@.len() == k,
            forall|q: int| 0 <= q < k ==> (#[trigger] inner@[q])@ == sv[q],
        decreases stack@.len() - k,
    {
        inner.push(stack[k].clone());
        k += 1;
    }
    inner.push(s.clone());
    assert(names_of(inner@) =~= sv.push(s@));
    inner
}

/// A template evaluator: a prefix and the bindings of the names it knows.
pub struct Generator {
    prefix: String,
    vars: Vec<(String, Json)>,
}

impl Generator {
    pub closed spec fn prefix(&self) -> Seq<char> {
        self.prefix@
    }

    /// An evaluator for `prefix` that knows the predefined names and then the
    /// user's `(name, template)` bindings, each under `prefix + name`.
    pub fn new(prefix: String, vars: &Vec<(String, Json)>) -> (r: Generator)
        ensures
            r.prefix() == prefix@,
            r.env() == bind_all(
                bind_all(Seq::empty(), prefix@, predefined(prefix@)),
                prefix@,
                Json::Object(*vars)@->Obj_0,
            ),
    {
        let pre = predefined_vars(&prefix);
        let mut g = Generator { prefix, vars: Vec::new() };
        assert(g.env() =~= Seq::empty());
        g.bind_vars(&pre);
        g.bind_vars(vars);
        g
    }

    /// Binds each `(name, template)` of `vars` under `prefix + name`, in order.
    pub fn bind_vars(&mut self, vars: &Vec<(String, Json)>)
        ensures
            final(self).prefix() == old(self).prefix(),
            final(self).env() == bind_all(old(self).env(), old(self).prefix(), Json::Object(*vars)@->Obj_0),
    {
        let ghost e0 = self.env();
        let ghost vv = Json::Object(*vars)@->Obj_0;
        let mut i: usize = 0;
        while i < vars.len()
            invariant
                self.prefix() == old(self).prefix(),
                e0 == old(self).env(),
                vv == Json::Object(*vars)@->Obj_0,
                i <= vars@.len(),
                self.env() == bind_all(e0, self.prefix(), vv.subrange(0, i as int)),
            decreases vars@.len() - i,
        {
            assert(vv[i as int] == (vars@[i as int].0@, vars@[i as int].1@));
            assert(vv.subrange(0, i + 1).drop_last() =~= vv.subrange(0, i as int));
            let key = self.prefix.clone().concat(vars[i].0.as_str());
            set_member_exec(&mut self.vars, key, vars[i].1.copy());
            i += 1;
        }
        assert(vv.subrange(0, vars@.len() as int) =~= vv);
    }

    /// Evaluates `json` as document `i`: the name `prefix + "i"` is bound to
    /// `i` first, and resolution starts from an empty stack.
    pub fn generate(&mut self, rng: &mut ChaCha20Rng, i: usize, json: &Json) -> (r: Result<Json, EvalError>)
        ensures
            final(self).prefix() == old(self).prefix(),
            final(self).env() == set_member(
                old(self).env(),
                old(self).prefix() + "i"@,
                JsonV::Num(NumberV::PosInt(i as u64)),
            ),
            final(self).eval_post(Seq::empty(), json@, r),
            final(self).evaluates(Seq::empty(), json@, res_view(r)),
            final(self).draws_nothing(Seq::empty(), json@) ==> *final(rng) == *old(rng),
    {
        let key = self.prefix.clone().concat("i");
        set_member_exec(&mut self.vars, key, Json::Number(Number::PosInt(i as u64)));
        let stack: Vec<String> = Vec::new();
        assert(names_of(stack@) =~= Seq::empty());
        self.eval_json(rng, &stack, json)
    }

    /// The bindings, from prefixed name to template, in order.
    pub closed spec fn env(&self) -> Seq<(Seq<char>, JsonV)> {
        Json::Object(self.vars)@->Obj_0
    }

    /// What an error can say, whatever the template.
    pub open spec fn error_ok(&self, e: EvalError) -> bool {
        match e {
            EvalError::UndefinedVariable(n) => has_prefix(n@, self.prefix()) && key_index(
                self.env(),
                n@,
            ) < 0,
            EvalError::CircularReference(c) => c@.len() >= 2 && c@[0]@ == c@.last()@,
            EvalError::UnknownGenerator(k) => has_prefix(k@, self.prefix()) && forall|g: GeneratorKind|
                k@ != self.prefix() + #[trigger] suffix(g),
            EvalError::InvalidGenerator(k, _, _) => exists|g: GeneratorKind|
                k@ == self.prefix() + #[trigger] suffix(g),
        }
    }

    /// What resolving the prefixed name `s` gives, given the stack: a cycle
    /// where `s` is already being resolved, also one or two references
    /// further on; an undefined-variable error where nothing binds `s`; the
    /// binding itself where it is plain.
    pub open spec fn var_post(&self, stack: Seq<Seq<char>>, s: Seq<char>, r: Result<Json, EvalError>) -> bool {
        let i = key_index(self.env(), s);
        let inner = stack.push(s);
        let b = self.env()[i].1->Str_0;
        let i2 = key_index(self.env(), b);
        let c = self.env()[i2].1->Str_0;
        &&& stack.contains(s) ==> is_cycle(stack, s, r)
        &&& !stack.contains(s) && i < 0 ==> r is Err && r->Err_0 is UndefinedVariable
            && r->Err_0->UndefinedVariable_0@ == s
        &&& !stack.contains(s) && i >= 0 && is_plain(self.prefix(), self.env()[i].1) ==> r is Ok
            && r->Ok_0@ == self.env()[i].1
        &&& !stack.contains(s) && i >= 0 && self.env()[i].1 is Str && has_prefix(b, self.prefix())
            && inner.contains(b) ==> is_cycle(inner, b, r)
        &&& !stack.contains(s) && i >= 0 && self.env()[i].1 is Str && has_prefix(b, self.prefix())
            && !inner.contains(b) && i2 >= 0 && self.env()[i2].1 is Str && has_prefix(c, self.prefix())
            && inner.push(b).contains(c) ==> is_cycle(inner.push(b), c, r)
    }

    /// A name `a` bound to a reference to itself, directly or through a second
    /// name `b` bound back to it, fails as a cycle: from an empty stack the
    /// chain is `[a, a]`, or `[a, b, a]`.
    pub proof fn lemma_self_reference(&self, a: Seq<char>, b: Seq<char>, r: Result<Json, EvalError>)
        requires
            self.eval_post(Seq::empty(), JsonV::Str(a), r),
            has_prefix(a, self.prefix()),
            has_prefix(b, self.prefix()),
            key_index(self.env(), a) >= 0,
            self.env()[key_index(self.env(), a)].1 == JsonV::Str(b),
            b == a || (key_index(self.env(), b) >= 0 && self.env()[key_index(self.env(), b)].1
                == JsonV::Str(a)),
        ensures
            r is Err && r->Err_0 is CircularReference,
            names_of(r->Err_0->CircularReference_0@) == if b == a {
                seq![a, a]
            } else {
                seq![a, b, a]
            },
    {
        let empty = Seq::<Seq<char>>::empty();
        let inner = empty.push(a);
        assert(!empty.contains(a));
        assert(self.var_post(empty, a, r));
        assert(inner[0] == a);
        if b == a {
            assert(inner.contains(a));
            assert(is_cycle(inner, a, r));
            let j = choose|j: int|
                0 <= j < inner.len() && inner[j] == a && (forall|k: int| 0 <= k < j ==> inner[k] != a)
                    && names_of(r->Err_0->CircularReference_0@) == inner.subrange(j, inner.len() as int).push(a);
            assert(j == 0);
            assert(inner.subrange(0, 1).push(a) =~= seq![a, a]);
        } else {
            assert(!inner.contains(b));
            let both = inner.push(b);
            assert(both[0] == a);
            assert(both.contains(a));
            assert(is_cycle(both, a, r));
            let j = choose|j: int|
                0 <= j < both.len() && both[j] == a && (forall|k: int| 0 <= k < j ==> both[k] != a)
                    && names_of(r->Err_0->CircularReference_0@) == both.subrange(j, both.len() as int).push(a);
            assert(j == 0);
            assert(both.subrange(0, 2).push(a) =~= seq![a, b, a]);
        }
    }

    /// The results that evaluating `t` may have, with `stack` the names being
    /// resolved: whatever the draws, the result is one of these.
    pub open spec fn evaluates(&self, stack: Seq<Seq<char>>, t: JsonV, r: Result<JsonV, ErrV>) -> bool
        decreases unvisited(self.env(), stack), t, 1nat,
    {
        match t {
            JsonV::Str(s) => if !has_prefix(s, self.prefix()) {
                r == Ok::<JsonV, ErrV>(t)
            } else if stack.contains(s) {
                cycle_error(stack, s, r)
            } else if key_index(self.env(), s) < 0 {
                r == Err::<JsonV, ErrV>(ErrV::Undefined(s))
            } else if unvisited(self.env(), stack.push(s)) < unvisited(self.env(), stack) {
                self.evaluates(stack.push(s), self.env()[key_index(self.env(), s)].1, r)
            } else {
                false
            },
            JsonV::Arr(items) => match r {
                Ok(JsonV::Arr(vs)) => vs.len() == items.len() && forall|i: int|
                    0 <= i < items.len() ==> self.evaluates(stack, items[i], Ok(#[trigger] vs[i])),
                Ok(_) => false,
                Err(e) => exists|j: int, done: Seq<JsonV>|
                    #![trigger items[j], done.len()]
                    0 <= j < items.len() && done.len() == j && (forall|i: int|
                        0 <= i < j ==> self.evaluates(stack, items[i], Ok(#[trigger] done[i])))
                        && self.evaluates(stack, items[j], Err(e)),
            },
            JsonV::Obj(m) => if m.len() == 1 && has_prefix(m[0].0, self.prefix()) {
                let key = m[0].0;
                let p = m[0].1;
                match spec_kind(self.prefix(), key) {
                    Some(GeneratorKind::Arr) => self.repeat_rel(stack, key, p, r),
                    Some(kind) => exists|pr: Result<JsonV, ErrV>|
                            #![trigger payload_result(pr)]
                        self.evaluates(stack, p, pr) && match pr {
                            Err(e) => r == Err::<JsonV, ErrV>(e),
                            Ok(pv) => generated(kind, key, pv, r),
                        },
                    None => exists|pr: Result<JsonV, ErrV>|
                            #![trigger payload_result(pr)]
                        self.evaluates(stack, p, pr) && match pr {
                            Err(e) => r == Err::<JsonV, ErrV>(e),
                            Ok(_) => r == Err::<JsonV, ErrV>(ErrV::Unknown(key)),
                        },
                }
            } else {
                self.fields_ok(stack, t, false, r)
            },
            _ => r == Ok::<JsonV, ErrV>(t),
        }
    }

    /// The results of a repeated-array directive keyed `key` whose payload
    /// template is `p`. An object payload is walked with `val` left as it
    /// stands, and `val` is evaluated afresh for every element; a reference
    /// is followed to its binding, with the name on the stack; any other
    /// payload is evaluated, and cannot have the shape.
    pub open spec fn repeat_rel(&self, stack: Seq<Seq<char>>, key: Seq<char>, p: JsonV, r: Result<JsonV, ErrV>) -> bool
        decreases unvisited(self.env(), stack), p, 3nat,
    {
        if p is Obj {
            let pm = p->Obj_0;
            exists|pr: Result<JsonV, ErrV>|
                            #![trigger payload_result(pr)]
                            self.fields_ok(stack, p, true, pr) && match pr {
                                Err(e) => r == Err::<JsonV, ErrV>(e),
                                Ok(pv) => match arr_payload(pv) {
                                    None => r == Err::<JsonV, ErrV>(
                                        ErrV::Invalid(key, pv, PayloadError::WrongShape),
                                    ),
                                    Some((n, _)) => pm.len() == 2 && if pm[0].0 == "val"@ {
                                        self.repeats(stack, pm[0].1, n as nat, r)
                                    } else {
                                        self.repeats(stack, pm[1].1, n as nat, r)
                                    },
                                },
                            }
        } else if p is Str && has_prefix(p->Str_0, self.prefix()) {
            let s = p->Str_0;
            if stack.contains(s) {
                cycle_error(stack, s, r)
            } else if key_index(self.env(), s) < 0 {
                r == Err::<JsonV, ErrV>(ErrV::Undefined(s))
            } else if unvisited(self.env(), stack.push(s)) < unvisited(self.env(), stack) {
                self.repeat_rel(stack.push(s), key, self.env()[key_index(self.env(), s)].1, r)
            } else {
                false
            }
        } else {
            exists|pr: Result<JsonV, ErrV>|
                #![trigger payload_result(pr)]
                self.evaluates(stack, p, pr) && match pr {
                    Err(e) => r == Err::<JsonV, ErrV>(e),
                    Ok(pv) => r == Err::<JsonV, ErrV>(ErrV::Invalid(key, pv, PayloadError::WrongShape)),
                }
        }
    }

    /// The results of evaluating `v` afresh `n` times: the array of the
    /// results, or the error of one of them.
    pub open spec fn repeats(&self, stack: Seq<Seq<char>>, v: JsonV, n: nat, r: Result<JsonV, ErrV>) -> bool
        decreases unvisited(self.env(), stack), v, 2nat,
    {
        match r {
            Ok(JsonV::Arr(vs)) => vs.len() == n && forall|i: int|
                0 <= i < n ==> self.evaluates(stack, v, Ok(#[trigger] vs[i])),
            Ok(_) => false,
            Err(e) => n > 0 && self.evaluates(stack, v, Err(e)),
        }
    }

    /// The results of evaluating an object's members in order, keeping keys
    /// and order; with `skip_val`, a member keyed `val` is kept as it stands.
    pub open spec fn fields_ok(&self, stack: Seq<Seq<char>>, t: JsonV, skip_val: bool, r: Result<JsonV, ErrV>) -> bool
        decreases unvisited(self.env(), stack), t, 0nat,
    {
        match t {
            JsonV::Obj(m) => match r {
                Ok(JsonV::Obj(out)) => out.len() == m.len() && forall|i: int|
                    0 <= i < m.len() ==> (#[trigger] out[i]).0 == m[i].0 && if skip_val && m[i].0
                        == "val"@ {
                        out[i].1 == m[i].1
                    } else {
                        self.evaluates(stack, m[i].1, Ok(out[i].1))
                    },
                Ok(_) => false,
                Err(e) => exists|j: int, done: Seq<JsonV>|
                    #![trigger m[j], done.len()]
                    0 <= j < m.len() && done.len() == j && !(skip_val && m[j].0 == "val"@) && (forall|
                        i: int,
                    |
                        0 <= i < j && !(skip_val && m[i].0 == "val"@) ==> self.evaluates(
                            stack,
                            m[i].1,
                            Ok(#[trigger] done[i]),
                        )) && self.evaluates(stack, m[j].1, Err(e)),
            },
            _ => false,
        }
    }

    /// Templates whose evaluation makes no draw: plain ones, a reference to a
    /// name already being resolved or bound to nothing, and an empty repeat.
    pub open spec fn draws_nothing(&self, stack: Seq<Seq<char>>, t: JsonV) -> bool {
        ||| is_plain(self.prefix(), t)
        ||| t is Str && has_prefix(t->Str_0, self.prefix()) && (stack.contains(t->Str_0) || key_index(
            self.env(),
            t->Str_0,
        ) < 0)
        ||| is_empty_repeat(self.prefix(), t)
    }

    /// What evaluating the template `t` gives, given the stack.
    pub open spec fn eval_post(&self, stack: Seq<Seq<char>>, t: JsonV, r: Result<Json, EvalError>) -> bool {
        &&& is_plain(self.prefix(), t) ==> r is Ok && r->Ok_0@ == t
        &&& r is Err ==> self.error_ok(r->Err_0)
        &&& match t {
            JsonV::Str(s) => has_prefix(s, self.prefix()) ==> self.var_post(stack, s, r),
            _ => true,
        }
        &&& is_empty_repeat(self.prefix(), t) ==> r is Ok && r->Ok_0@ == JsonV::Arr(Seq::empty())
        &&& is_option_of_unbound(self.prefix(), self.env(), stack, t) ==> r is Err && r->Err_0
            is UndefinedVariable
        &&& is_single_choice(self.prefix(), t) ==> r is Ok && r->Ok_0@ == t->Obj_0[0].1->Arr_0[0]
        &&& is_fixed_range(self.prefix(), t) ==> r is Ok && r->Ok_0@ == int_number(
            as_i64(t->Obj_0[0].1->Obj_0[0].1)->0,
        )
        &&& is_fixed_repeat(self.prefix(), t) ==> r is Ok && r->Ok_0@ == repeat_of(self.prefix(), t)
    }

    /// Evaluates a template: scalars stand as they are, strings may be
    /// references, arrays are evaluated element by element, objects may be
    /// directives.
    fn eval_json(&self, rng: &mut ChaCha20Rng, stack: &Vec<String>, t: &Json) -> (r: Result<Json, EvalError>)
        ensures
            self.eval_post(names_of(stack@), t@, r),
            self.evaluates(names_of(stack@), t@, res_view(r)),
            self.draws_nothing(names_of(stack@), t@) ==> *final(rng) == *old(rng),
        decreases unvisited(self.env(), names_of(stack@)), t, 2nat,
    {
        match t {
            Json::Null => Ok(Json::Null),
            Json::Bool(b) => Ok(Json::Bool(*b)),
            Json::Number(n) => Ok(Json::Number(n.copy())),
            Json::String(_) => self.eval_string(rng, stack, t),
            Json::Object(_) => self.eval_object(rng, stack, t),
            Json::Array(v) => {
                assert(decreases_to!(*t => *v));
                let mut out: Vec<Json> = Vec::new();
                let mut i: usize = 0;
                while i < v.len()
                    invariant
                        decreases_to!(*t => *v),
                        *t == Json::Array(*v),
                        i <= v@.len(),
                        out@.len() == i,
                        is_plain(self.prefix(), t@) ==> forall|j: int|
                            0 <= j < i ==> (#[trigger] out@[j])@ == v@[j]@,
                        is_plain(self.prefix(), t@) ==> *rng == *old(rng),
                        forall|j: int|
                            0 <= j < i ==> self.evaluates(
                                names_of(stack@),
                                t@->Arr_0[j],
                                Ok((#[trigger] out@[j])@),
                            ),
                    decreases v@.len() - i,
                {
                    proof {
                        assert(decreases_to!(*v => v[i as int]));
                        assert(t@->Arr_0[i as int] == v@[i as int]@);
                    }
                    match self.eval_json(rng, stack, &v[i]) {
                        Ok(x) => out.push(x),
                        Err(e) => {
                            proof {
                                let items = t@->Arr_0;
                                let sv = names_of(stack@);
                                let done = Seq::new(i as nat, |k: int| out@[k]@);
                                assert(forall|k: int|
                                    0 <= k < i ==> self.evaluates(sv, items[k], Ok(#[trigger] done[k])));
                                assert(self.evaluates(sv, items[i as int], Err(e@)));
                                assert(done.len() == i);
                                assert(t@ == JsonV::Arr(items));
                                assert(self.evaluates(sv, t@, Err(e@)));
                            }
                            return Err(e);
                        },
                    }
                    i += 1;
                }
                let r = Json::Array(out);
                proof {
                    if is_plain(self.prefix(), t@) {
                        assert(r@->Arr_0 =~= t@->Arr_0);
                    }
                    assert forall|j: int| 0 <= j < out@.len() implies #[trigger] r@->Arr_0[j] == out@[j]@ by {}
                }
                Ok(r)
            },
        }
    }

    /// The index of the binding of `s`, the last one first.
    fn lookup(&self, s: &String) -> (r: Option<usize>)
        ensures
            match r {
                Some(i) => i < self.vars@.len() && i as int == key_index(self.env(), s@),
                None => key_index(self.env(), s@) < 0,
            },
    {
        let ghost env = self.env();
        let mut i: usize = self.vars.len();
        while i > 0
            invariant
                i <= self.vars@.len(),
                env == self.env(),
                forall|u: int| i <= u < env.len() ==> env[u].0 != s@,
            ensures
                i <= self.vars@.len(),
                forall|u: int| i <= u < env.len() ==> env[u].0 != s@,
                i > 0 ==> env[i - 1].0 == s@,
            decreases i,
        {
            assert(env[i - 1] == (self.vars@[i - 1].0@, self.vars@[i - 1].1@));
            if key_is(&self.vars[i - 1].0, s.as_str()) {
                break;
            }
            i -= 1;
        }
        proof {
            crate::generators::lemma_key_index_last(env, s@, i - 1);
        }
        if i == 0 {
            None
        } else {
            Some(i - 1)
        }
    }

    /// A string that starts with the prefix names a variable: its binding is
    /// evaluated with the name pushed on the stack.
    fn eval_string(&self, rng: &mut ChaCha20Rng, stack: &Vec<String>, t: &Json) -> (r: Result<Json, EvalError>)
        requires
            t is String,
        ensures
            self.eval_post(names_of(stack@), t@, r),
            self.evaluates(names_of(stack@), t@, res_view(r)),
            self.draws_nothing(names_of(stack@), t@) ==> *final(rng) == *old(rng),
        decreases unvisited(self.env(), names_of(stack@)), t, 1nat,
    {
        let s = match t {
            Json::String(s) => s,
            // Not reached: the precondition fixes the variant.
            _ => { return Err(EvalError::UnknownGenerator(String::new())); },
        };
        if !starts_with(s, &self.prefix) {
            return Ok(Json::String(s.clone()));
        }
        let ghost sv = names_of(stack@);
        // A name already being resolved: report the cycle from its first occurrence.
        if let Some(chain) = find_cycle(stack, s) {
            return Err(EvalError::CircularReference(chain));
        }
        let i = match self.lookup(s) {
            Some(i) => i,
            None => { return Err(EvalError::UndefinedVariable(s.clone())); },
        };
        let inner = pushed(stack, s);
        proof {
            let env = self.env();
            assert(env[i as int] == (self.vars@[i as int].0@, self.vars@[i as int].1@));
            crate::generators::lemma_key_index_absent(env, s@);
            lemma_unvisited_push(env, sv, s@, i as int);
        }
        self.eval_json(rng, &inner, &self.vars[i].1)
    }

    /// A one-member object whose key starts with the prefix is a directive;
    /// any other object has its members evaluated.
    fn eval_object(&self, rng: &mut ChaCha20Rng, stack: &Vec<String>, t: &Json) -> (r: Result<Json, EvalError>)
        requires
            t is Object,
        ensures
            self.eval_post(names_of(stack@), t@, r),
            self.evaluates(names_of(stack@), t@, res_view(r)),
            self.draws_nothing(names_of(stack@), t@) ==> *final(rng) == *old(rng),
        decreases unvisited(self.env(), names_of(stack@)), t, 1nat,
    {
        let m = match t {
            Json::Object(m) => m,
            // Not reached: the precondition fixes the variant.
            _ => { return Err(EvalError::UnknownGenerator(String::new())); },
        };
        assert(decreases_to!(*t => *m));
        proof {
            if is_empty_repeat(self.prefix(), t@) {
                assert((self.prefix() + "arr"@).subrange(0, self.prefix().len() as int) =~= self.prefix());
            }
            if is_option_of_unbound(self.prefix(), self.env(), names_of(stack@), t@) {
                assert((self.prefix() + "option"@).subrange(0, self.prefix().len() as int) =~= self.prefix());
            }
            if is_single_choice(self.prefix(), t@) {
                assert((self.prefix() + "oneof"@).subrange(0, self.prefix().len() as int) =~= self.prefix());
            }
            if is_fixed_range(self.prefix(), t@) {
                assert((self.prefix() + "int"@).subrange(0, self.prefix().len() as int) =~= self.prefix());
            }
            if is_fixed_repeat(self.prefix(), t@) {
                assert((self.prefix() + "arr"@).subrange(0, self.prefix().len() as int) =~= self.prefix());
            }
        }
        if m.len() != 1 || !starts_with(&m[0].0, &self.prefix) {
            proof {
                if m.len() == 1 {
                    assert(t@->Obj_0[0] == (m@[0].0@, m@[0].1@));
                }
            }
            return self.eval_fields(rng, stack, t, false);
        }
        assert(t@->Obj_0[0] == (m@[0].0@, m@[0].1@));
        assert(decreases_to!(*m => m[0]));
        let key = &m[0].0;
        let raw = &m[0].1;
        let kind = kind_of(&self.prefix, key);
        proof {
            assert(self.prefix() + "arr"@ == self.prefix() + suffix(GeneratorKind::Arr));
            assert(self.prefix() + "option"@ == self.prefix() + suffix(GeneratorKind::Option));
            if is_option_of_unbound(self.prefix(), self.env(), names_of(stack@), t@) {
                if let Some(g) = kind {
                    lemma_suffix_unique(self.prefix(), g, GeneratorKind::Option);
                }
            }
            if is_empty_repeat(self.prefix(), t@) || is_fixed_repeat(self.prefix(), t@) {
                if let Some(g) = kind {
                    lemma_suffix_unique(self.prefix(), g, GeneratorKind::Arr);
                }
            }
            assert(self.prefix() + "oneof"@ == self.prefix() + suffix(GeneratorKind::Oneof));
            assert(self.prefix() + "int"@ == self.prefix() + suffix(GeneratorKind::Int));
            if is_single_choice(self.prefix(), t@) {
                if let Some(g) = kind {
                    lemma_suffix_unique(self.prefix(), g, GeneratorKind::Oneof);
                }
                let items = raw@->Arr_0;
                assert(forall|i: int| 0 <= i < items.len() ==> is_plain(self.prefix(), #[trigger] items[i]));
                assert(is_plain(self.prefix(), raw@));
            }
            if is_fixed_range(self.prefix(), t@) {
                if let Some(g) = kind {
                    lemma_suffix_unique(self.prefix(), g, GeneratorKind::Int);
                }
                let pm = raw@->Obj_0;
                assert(forall|i: int| 0 <= i < pm.len() ==> is_plain(self.prefix(), #[trigger] pm[i].1));
                assert(is_plain(self.prefix(), raw@));
            }
        }
        if let Some(GeneratorKind::Arr) = kind {
            return self.eval_array_directive(rng, stack, t);
        }
        let value = match self.eval_json(rng, stack, raw) {
            Ok(v) => v,
            Err(e) => {
                proof {
                    assert(payload_result(Err(e@)));
                }
                return Err(e);
            },
        };
        proof {
            assert(payload_result(Ok(value@)));
        }
        match kind {
            None => Err(EvalError::UnknownGenerator(key.clone())),
            Some(GeneratorKind::Oneof) => match OneofGenerator::from_payload(&value) {
                Ok(g) => match g.validate() {
                    Ok(g) => Ok(g.generate(rng)),
                    Err(c) => Err(EvalError::InvalidGenerator(key.clone(), value, c)),
                },
                Err(c) => Err(EvalError::InvalidGenerator(key.clone(), value, c)),
            },
            Some(GeneratorKind::Int) => match IntegerGenerator::from_payload(&value) {
                Ok(g) => match g.validate() {
                    Ok(g) => Ok(g.generate(rng)),
                    Err(c) => Err(EvalError::InvalidGenerator(key.clone(), value, c)),
                },
                Err(c) => Err(EvalError::InvalidGenerator(key.clone(), value, c)),
            },
            Some(GeneratorKind::Str) => match StringGenerator::from_payload(&value) {
                Ok(g) => Ok(g.generate()),
                Err(c) => Err(EvalError::InvalidGenerator(key.clone(), value, c)),
            },
            Some(GeneratorKind::Obj) => match ObjectGenerator::from_payload(&value) {
                Ok(g) => Ok(g.generate()),
                Err(c) => Err(EvalError::InvalidGenerator(key.clone(), value, c)),
            },
            Some(GeneratorKind::Option) => Ok(OptionGenerator::from_payload(&value).generate(rng)),
            // Not reached: handled above, before the payload is evaluated.
            Some(GeneratorKind::Arr) => Err(EvalError::UnknownGenerator(key.clone())),
        }
    }

    /// The repeated-array directive: its payload is walked with `val` left
    /// as it stands, then `val` is evaluated afresh for every element.
    fn eval_array_directive(&self, rng: &mut ChaCha20Rng, stack: &Vec<String>, t: &Json) -> (r: Result<
        Json,
        EvalError,
    >)
        requires
            t is Object,
            t@->Obj_0.len() == 1,
            t@->Obj_0[0].0 == self.prefix() + "arr"@,
        ensures
            r is Err ==> self.error_ok(r->Err_0),
            is_empty_repeat(self.prefix(), t@) ==> r is Ok && r->Ok_0@ == JsonV::Arr(Seq::empty()),
            is_fixed_repeat(self.prefix(), t@) ==> r is Ok && r->Ok_0@ == repeat_of(self.prefix(), t@),
            self.evaluates(names_of(stack@), t@, res_view(r)),
            self.draws_nothing(names_of(stack@), t@) ==> *final(rng) == *old(rng),
        decreases unvisited(self.env(), names_of(stack@)), t, 0nat,
    {
        let m = match t {
            Json::Object(m) => m,
            // Not reached: the precondition fixes the variant.
            _ => { return Err(EvalError::UnknownGenerator(String::new())); },
        };
        proof {
            assert(decreases_to!(*t => *m));
            assert(decreases_to!(*m => m[0]));
            assert(decreases_to!(m[0] => m[0].1));
            assert(t@->Obj_0[0] == (m@[0].0@, m@[0].1@));
            lemma_spec_kind(self.prefix(), GeneratorKind::Arr);
            assert(t@->Obj_0 =~= seq![(m@[0].0@, m@[0].1@)]);
        }
        self.eval_repeat(rng, stack, &m[0].0, &m[0].1)
    }

    /// A repeated-array payload `p` under the directive key `key`.
    fn eval_repeat(&self, rng: &mut ChaCha20Rng, stack: &Vec<String>, key: &String, p: &Json) -> (r: Result<
        Json,
        EvalError,
    >)
        requires
            key@ == self.prefix() + "arr"@,
        ensures
            r is Err ==> self.error_ok(r->Err_0),
            is_empty_repeat(self.prefix(), directive(key@, p@)) ==> r is Ok && r->Ok_0@ == JsonV::Arr(
                Seq::empty(),
            ) && *final(rng) == *old(rng),
            is_fixed_repeat(self.prefix(), directive(key@, p@)) ==> r is Ok && r->Ok_0@ == repeat_of(
                self.prefix(),
                directive(key@, p@),
            ),
            self.repeat_rel(names_of(stack@), key@, p@, res_view(r)),
        decreases unvisited(self.env(), names_of(stack@)), p, 3nat,
    {
        proof {
            lemma_spec_kind(self.prefix(), GeneratorKind::Arr);
            reveal_strlit("len");
            reveal_strlit("val");
        }
        let ghost sv = names_of(stack@);
        let ghost d = directive(key@, p@);
        match p {
            Json::Object(pm) => {
                proof {
                    if is_fixed_repeat(self.prefix(), d) {
                        let pv = p@->Obj_0;
                        assert(is_plain(self.prefix(), pv[0].1));
                        assert(forall|i: int|
                            0 <= i < pv.len() ==> ((true && pv[i].0 == "val"@) || is_plain(
                                self.prefix(),
                                #[trigger] pv[i].1,
                            )));
                    }
                    if is_empty_repeat(self.prefix(), d) {
                        let pv = p@->Obj_0;
                        assert(is_plain(self.prefix(), pv[0].1));
                        assert(forall|i: int|
                            0 <= i < pv.len() ==> ((true && pv[i].0 == "val"@) || is_plain(
                                self.prefix(),
                                #[trigger] pv[i].1,
                            )));
                    }
                }
                let payload = match self.eval_fields(rng, stack, p, true) {
                    Ok(p) => p,
                    Err(e) => {
                        proof {
                            assert(payload_result(Err(e@)));
                        }
                        return Err(e);
                    },
                };
                proof {
                    assert(payload_result(Ok(payload@)));
                    let pv = payload@->Obj_0;
                    let rv = p@->Obj_0;
                    if pv.len() == 2 {
                        assert(pv[0].0 == rv[0].0);
                        assert(pv[1].0 == rv[1].0);
                        assert(rv[0] == (pm@[0].0@, pm@[0].1@));
                        assert(rv[1] == (pm@[1].0@, pm@[1].1@));
                    }
                }
                let g = match ArrayGenerator::from_payload(&payload) {
                    Ok(g) => g,
                    Err(c) => { return Err(EvalError::InvalidGenerator(key.clone(), payload, c)); },
                };
                let raw_val = match two_fields_exec(pm, "len", "val") {
                    Some((_, v)) => v,
                    None => {
                        return Err(
                            EvalError::InvalidGenerator(key.clone(), payload, PayloadError::WrongShape),
                        );
                    },
                };
                proof {
                    reveal_strlit("len");
                    reveal_strlit("val");
                    assert("len"@ != "val"@) by {
                        assert("len"@[0] != "val"@[0]);
                    }
                    let rv = p@->Obj_0;
                    assert(rv[0] == (pm@[0].0@, pm@[0].1@));
                    assert(rv[1] == (pm@[1].0@, pm@[1].1@));
                    assert(raw_val@ == if rv[0].0 == "val"@ {
                        rv[0].1
                    } else {
                        rv[1].1
                    });
                    assert(decreases_to!(*p => *pm));
                    assert(decreases_to!(*pm => pm[0]));
                    assert(decreases_to!(pm[0] => pm[0].1));
                    assert(decreases_to!(*pm => pm[1]));
                    assert(decreases_to!(pm[1] => pm[1].1));
                    assert(decreases_to!(*p => *raw_val));
                }
                let mut out: Vec<Json> = Vec::new();
                let mut k: usize = 0;
                while k < g.len
                    invariant
                        decreases_to!(*p => *raw_val),
                        is_empty_repeat(self.prefix(), d) ==> g.len == 0,
                        is_empty_repeat(self.prefix(), d) ==> *rng == *old(rng),
                        is_fixed_repeat(self.prefix(), d) ==> g.len == as_usize(
                            d->Obj_0[0].1->Obj_0[0].1,
                        )->0 && raw_val@ == d->Obj_0[0].1->Obj_0[1].1 && forall|q: int|
                            0 <= q < k ==> (#[trigger] out@[q])@ == fixed_value(
                                self.prefix(),
                                raw_val@,
                            )->0,
                        k <= g.len,
                        out@.len() == k,
                        sv == names_of(stack@),
                        forall|q: int|
                            0 <= q < k ==> self.evaluates(sv, raw_val@, Ok((#[trigger] out@[q])@)),
                        d is Obj,
                        d->Obj_0.len() == 1,
                        has_prefix(d->Obj_0[0].0, self.prefix()),
                        spec_kind(self.prefix(), d->Obj_0[0].0) == Some(GeneratorKind::Arr),
                        p@ == d->Obj_0[0].1,
                        p@ is Obj,
                        p@->Obj_0.len() == 2,
                        raw_val@ == if p@->Obj_0[0].0 == "val"@ {
                            p@->Obj_0[0].1
                        } else {
                            p@->Obj_0[1].1
                        },
                        self.fields_ok(sv, p@, true, Ok(payload@)),
                        arr_payload(payload@) is Some,
                        arr_payload(payload@) == Some((g.len, g.val@)),
                    decreases g.len - k,
                {
                    match self.eval_json(rng, stack, raw_val) {
                        Ok(x) => out.push(x),
                        Err(e) => {
                            proof {
                                let rv = p@->Obj_0;
                                assert(self.repeats(sv, raw_val@, g.len as nat, Err(e@)));
                                assert(if rv[0].0 == "val"@ {
                                    self.repeats(sv, rv[0].1, g.len as nat, Err(e@))
                                } else {
                                    self.repeats(sv, rv[1].1, g.len as nat, Err(e@))
                                });
                                assert(payload_result(Ok(payload@)));
                            }
                            return Err(e);
                        },
                    }
                    k += 1;
                }
                let r = Json::Array(out);
                proof {
                    assert forall|q: int| 0 <= q < out@.len() implies #[trigger] r@->Arr_0[q] == out@[q]@ by {}
                    let rv = p@->Obj_0;
                    assert(self.repeats(sv, raw_val@, g.len as nat, Ok(r@)));
                    assert(if rv[0].0 == "val"@ {
                        self.repeats(sv, rv[0].1, g.len as nat, Ok(r@))
                    } else {
                        self.repeats(sv, rv[1].1, g.len as nat, Ok(r@))
                    });
                    assert(payload_result(Ok(payload@)));
                }
                assert(g.len == 0 ==> r@->Arr_0 =~= Seq::<JsonV>::empty());
                proof {
                    if is_fixed_repeat(self.prefix(), d) {
                        assert(r@->Arr_0 =~= repeat_of(self.prefix(), d)->Arr_0);
                    }
                }
                Ok(r)
            },
            _ => {
                let is_ref = match p {
                    Json::String(s) => starts_with(s, &self.prefix),
                    _ => false,
                };
                if is_ref {
                    let s = match p {
                        Json::String(s) => s,
                        // Not reached: only a string is a reference.
                        _ => { return Err(EvalError::UnknownGenerator(String::new())); },
                    };
                    if let Some(chain) = find_cycle(stack, s) {
                        return Err(EvalError::CircularReference(chain));
                    }
                    let i = match self.lookup(s) {
                        Some(i) => i,
                        None => { return Err(EvalError::UndefinedVariable(s.clone())); },
                    };
                    let inner = pushed(stack, s);
                    proof {
                        let env = self.env();
                        assert(env[i as int] == (self.vars@[i as int].0@, self.vars@[i as int].1@));
                        crate::generators::lemma_key_index_absent(env, s@);
                        lemma_unvisited_push(env, sv, s@, i as int);
                    }
                    return self.eval_repeat(rng, &inner, key, &self.vars[i].1);
                }
                // Any other payload evaluates to something that is no object.
                let payload = match self.eval_json(rng, stack, p) {
                    Ok(v) => v,
                    Err(e) => {
                        proof {
                            assert(payload_result(Err(e@)));
                        }
                        return Err(e);
                    },
                };
                proof {
                    assert(payload_result(Ok(payload@)));
                    assert(key@ == self.prefix() + suffix(GeneratorKind::Arr));
                }
                Err(EvalError::InvalidGenerator(key.clone(), payload, PayloadError::WrongShape))
            },
        }
    }

    /// Evaluates every member's value in order, keeping keys and order; with
    /// `skip_val`, a member keyed `val` is kept as it stands.
    fn eval_fields(&self, rng: &mut ChaCha20Rng, stack: &Vec<String>, t: &Json, skip_val: bool) -> (r: Result<
        Json,
        EvalError,
    >)
        requires
            t is Object,
        ensures
            r is Err ==> self.error_ok(r->Err_0),
            r is Ok ==> r->Ok_0@ is Obj && r->Ok_0@->Obj_0.len() == t@->Obj_0.len() && forall|i: int|
                0 <= i < t@->Obj_0.len() ==> (#[trigger] r->Ok_0@->Obj_0[i]).0 == t@->Obj_0[i].0,
            r is Ok && skip_val ==> forall|i: int|
                0 <= i < t@->Obj_0.len() && #[trigger] t@->Obj_0[i].0 == "val"@ ==> r->Ok_0@->Obj_0[i].1
                    == t@->Obj_0[i].1,
            (forall|i: int|
                0 <= i < t@->Obj_0.len() ==> ((skip_val && t@->Obj_0[i].0 == "val"@) || is_plain(
                    self.prefix(),
                    #[trigger] t@->Obj_0[i].1,
                ))) ==> r is Ok && r->Ok_0@ == t@,
            self.fields_ok(names_of(stack@), t@, skip_val, res_view(r)),
            (forall|i: int|
                0 <= i < t@->Obj_0.len() ==> ((skip_val && t@->Obj_0[i].0 == "val"@) || is_plain(
                    self.prefix(),
                    #[trigger] t@->Obj_0[i].1,
                ))) ==> *final(rng) == *old(rng),
        decreases unvisited(self.env(), names_of(stack@)), t, 0nat,
    {
        let m = match t {
            Json::Object(m) => m,
            // Not reached: the precondition fixes the variant.
            _ => { return Err(EvalError::UnknownGenerator(String::new())); },
        };
        assert(decreases_to!(*t => *m));
        let ghost tv = t@->Obj_0;
        let mut out: Vec<(String, Json)> = Vec::new();
        let mut i: usize = 0;
        while i < m.len()
            invariant
                decreases_to!(*t => *m),
                *t == Json::Object(*m),
                tv == t@->Obj_0,
                i <= m@.len(),
                out@.len() == i,
                forall|j: int| 0 <= j < i ==> (#[trigger] out@[j]).0@ == tv[j].0,
                skip_val ==> forall|j: int|
                    0 <= j < i && tv[j].0 == "val"@ ==> (#[trigger] out@[j]).1@ == tv[j].1,
                (forall|j: int|
                    0 <= j < tv.len() ==> ((skip_val && tv[j].0 == "val"@) || is_plain(
                        self.prefix(),
                        #[trigger] tv[j].1,
                    ))) ==> forall|j: int| 0 <= j < i ==> (#[trigger] out@[j]).1@ == tv[j].1,
                (forall|j: int|
                    0 <= j < tv.len() ==> ((skip_val && tv[j].0 == "val"@) || is_plain(
                        self.prefix(),
                        #[trigger] tv[j].1,
                    ))) ==> *rng == *old(rng),
                forall|j: int|
                    0 <= j < i ==> if skip_val && tv[j].0 == "val"@ {
                        (#[trigger] out@[j]).1@ == tv[j].1
                    } else {
                        self.evaluates(names_of(stack@), tv[j].1, Ok(out@[j].1@))
                    },
            decreases m@.len() - i,
        {
            proof {
                assert(decreases_to!(*m => m[i as int]));
                assert(decreases_to!(m[i as int] => m[i as int].1));
                assert(tv[i as int] == (m@[i as int].0@, m@[i as int].1@));
                assert(tv[i as int].1 == m@[i as int].1@);
            }
            let v = if skip_val && key_is(&m[i].0, "val") {
                m[i].1.copy()
            } else {
                match self.eval_json(rng, stack, &m[i].1) {
                    Ok(x) => x,
                    Err(e) => {
                        proof {
                            let sv = names_of(stack@);
                            let done = Seq::new(i as nat, |k: int| out@[k].1@);
                            assert(!(skip_val && tv[i as int].0 == "val"@));
                            assert(forall|k: int|
                                0 <= k < i && !(skip_val && tv[k].0 == "val"@) ==> self.evaluates(
                                    sv,
                                    tv[k].1,
                                    Ok(#[trigger] done[k]),
                                ));
                            assert(self.evaluates(sv, tv[i as int].1, Err(e@)));
                            assert(done.len() == i);
                        }
                        return Err(e);
                    },
                }
            };
            out.push((m[i].0.clone(), v));
            i += 1;
        }
        let r = Json::Object(out);
        proof {
            assert forall|j: int| 0 <= j < tv.len() implies #[trigger] r@->Obj_0[j] == (
                out@[j].0@,
                out@[j].1@,
            ) by {}
            assert forall|j: int| 0 <= j < tv.len() implies (#[trigger] r@->Obj_0[j]).0 == tv[j].0 && if skip_val
                && tv[j].0 == "val"@ {
                r@->Obj_0[j].1 == tv[j].1
            } else {
                self.evaluates(names_of(stack@), tv[j].1, Ok(r@->Obj_0[j].1))
            } by {
                assert(r@->Obj_0[j] == (out@[j].0@, out@[j].1@));
            }
            if forall|j: int|
                0 <= j < tv.len() ==> ((skip_val && tv[j].0 == "val"@) || is_plain(
                    self.prefix(),
                    #[trigger] tv[j].1,
                )) {
                assert(r@->Obj_0 =~= tv);
            }
        }
        Ok(r)
    }
}

} // verus!
