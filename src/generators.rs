use vstd::prelude::*;
use rand_chacha::ChaCha20Rng;
use crate::random::{draw_index, draw_index_u32, draw_int, flip};
use crate::text::{push_text, text_of};
use crate::value::{copy_items, Json, JsonV, Number, NumberV};

verus! {

/// Why a generator payload was refused.
#[derive(Debug, Clone, Copy, PartialEq, Eq)]
pub enum PayloadError {
    /// The payload does not have the variant's shape.
    WrongShape,
    /// A pick-one payload with no element.
    EmptyChoice,
    /// An integer range whose `min` is above its `max`.
    EmptyRange,
}

/// `s` equals the literal `k`.
pub fn key_is(s: &String, k: &str) -> (r: bool)
    ensures
        r == (s@ == k@),
{
    let n = s.as_str().unicode_len();
    let m = k.unicode_len();
    if n != m {
        return false;
    }
    let mut i: usize = 0;
    while i < n
        invariant
            n == s@.len(),
            m == k@.len(),
            n == m,
            i <= n,
            forall|j: int| 0 <= j < i ==> s@[j] == k@[j],
        decreases n - i,
    {
        if s.as_str().get_char(i) != k.get_char(i) {
            return false;
        }
        i += 1;
    }
    assert(s@ =~= k@);
    true
}

/// The values of the two members of an object that has exactly the keys `a`
/// and `b`, in either order.
pub open spec fn two_fields(m: Seq<(Seq<char>, JsonV)>, a: Seq<char>, b: Seq<char>) -> Option<
    (JsonV, JsonV),
> {
    if m.len() == 2 && m[0].0 == a && m[1].0 == b {
        Some((m[0].1, m[1].1))
    } else if m.len() == 2 && m[0].0 == b && m[1].0 == a {
        Some((m[1].1, m[0].1))
    } else {
        None
    }
}

pub fn two_fields_exec<'a>(m: &'a Vec<(String, Json)>, a: &str, b: &str) -> (r: Option<(&'a Json, &'a Json)>)
    ensures
        match two_fields(Json::Object(*m)@->Obj_0, a@, b@) {
            Some((x, y)) => match r {
                Some((p, q)) => p@ == x && q@ == y && ((*p == m@[0].1 && *q == m@[1].1) || (*p
                    == m@[1].1 && *q == m@[0].1)),
                None => false,
            },
            None => r is None,
        },
{
    let ghost mv = Json::Object(*m)@->Obj_0;
    if m.len() != 2 {
        return None;
    }
    assert(mv[0] == (m@[0].0@, m@[0].1@));
    assert(mv[1] == (m@[1].0@, m@[1].1@));
    if key_is(&m[0].0, a) && key_is(&m[1].0, b) {
        Some((&m[0].1, &m[1].1))
    } else if key_is(&m[0].0, b) && key_is(&m[1].0, a) {
        Some((&m[1].1, &m[0].1))
    } else {
        None
    }
}

/// The number as an `i64`, where it is an integer in that range.
pub open spec fn as_i64(v: JsonV) -> Option<i64> {
    match v {
        JsonV::Num(NumberV::PosInt(u)) => if u <= i64::MAX {
            Some(u as i64)
        } else {
            None
        },
        JsonV::Num(NumberV::NegInt(i)) => Some(i),
        _ => None,
    }
}

/// The number as a `usize`, where it is a non-negative integer in that range.
pub open spec fn as_usize(v: JsonV) -> Option<usize> {
    match v {
        JsonV::Num(NumberV::PosInt(u)) => if u <= usize::MAX {
            Some(u as usize)
        } else {
            None
        },
        JsonV::Num(NumberV::NegInt(i)) => if 0 <= i <= usize::MAX {
            Some(i as usize)
        } else {
            None
        },
        _ => None,
    }
}

fn as_i64_exec(v: &Json) -> (r: Option<i64>)
    ensures
        r == as_i64(v@),
{
    match v {
        Json::Number(Number::PosInt(u)) => if *u <= i64::MAX as u64 {
            Some(*u as i64)
        } else {
            None
        },
        Json::Number(Number::NegInt(i)) => Some(*i),
        _ => None,
    }
}

fn as_usize_exec(v: &Json) -> (r: Option<usize>)
    ensures
        r == as_usize(v@),
{
    match v {
        Json::Number(Number::PosInt(u)) => if *u <= usize::MAX as u64 {
            Some(*u as usize)
        } else {
            None
        },
        Json::Number(Number::NegInt(i)) => if 0 <= *i && *i as u64 <= usize::MAX as u64 {
            Some(*i as usize)
        } else {
            None
        },
        _ => None,
    }
}

/// The JSON number that an `i64` becomes.
pub open spec fn int_number(k: i64) -> JsonV {
    if k >= 0 {
        JsonV::Num(NumberV::PosInt(k as u64))
    } else {
        JsonV::Num(NumberV::NegInt(k))
    }
}

pub fn int_json(k: i64) -> (r: Json)
    ensures
        r@ == int_number(k),
{
    if k >= 0 {
        Json::Number(Number::PosInt(k as u64))
    } else {
        Json::Number(Number::NegInt(k))
    }
}

/// The one-member object `{key: payload}`.
pub open spec fn directive(key: Seq<char>, payload: JsonV) -> JsonV {
    JsonV::Obj(seq![(key, payload)])
}

fn directive_exec(key: String, payload: Json) -> (r: Json)
    ensures
        r@ == directive(key@, payload@),
{
    let mut m: Vec<(String, Json)> = Vec::new();
    m.push((key, payload));
    let r = Json::Object(m);
    assert(r@->Obj_0 =~= seq![(key@, payload@)]);
    r
}

/// Picks one of its elements.
pub struct OneofGenerator(pub Vec<Json>);

impl OneofGenerator {
    pub open spec fn view(&self) -> Seq<JsonV> {
        Json::Array(self.0)@->Arr_0
    }

    /// Reads a pick-one payload: any array.
    pub fn from_payload(p: &Json) -> (r: Result<OneofGenerator, PayloadError>)
        ensures
            match p@ {
                JsonV::Arr(items) => r is Ok && r->Ok_0@ == items,
                _ => r == Err::<OneofGenerator, PayloadError>(PayloadError::WrongShape),
            },
    {
        match p.copy() {
            Json::Array(v) => Ok(OneofGenerator(v)),
            _ => Err(PayloadError::WrongShape),
        }
    }

    pub fn validate(self) -> (r: Result<OneofGenerator, PayloadError>)
        ensures
            self@.len() == 0 ==> r == Err::<OneofGenerator, PayloadError>(PayloadError::EmptyChoice),
            self@.len() > 0 ==> r is Ok && r->Ok_0@ == self@,
    {
        if self.0.len() == 0 {
            Err(PayloadError::EmptyChoice)
        } else {
            Ok(self)
        }
    }

    /// One of the elements, chosen by one draw.
    pub fn generate(&self, rng: &mut ChaCha20Rng) -> (r: Json)
        requires
            self@.len() > 0,
        ensures
            exists|i: int| 0 <= i < self@.len() && r@ == self@[i],
            self@.len() == 1 ==> r@ == self@[0],
    {
        // As `SliceRandom::choose` draws: a `u32` index where the length fits.
        let n = self.0.len();
        let i = if n <= u32::MAX as usize {
            draw_index_u32(rng, n as u32) as usize
        } else {
            draw_index(rng, n)
        };
        self.pick(i)
    }

    /// The element at index `i`: what a draw of `i` gives.
    pub fn pick(&self, i: usize) -> (r: Json)
        requires
            i < self@.len(),
        ensures
            r@ == self@[i as int],
    {
        let r = self.0[i].copy();
        assert(r@ == self@[i as int]);
        r
    }

    /// The directive `{prefix + "oneof": elements}`.
    pub fn to_json(&self, prefix: &String) -> (r: Json)
        ensures
            r@ == directive(prefix@ + "oneof"@, JsonV::Arr(self@)),
    {
        let key = prefix.clone().concat("oneof");
        directive_exec(key, Json::Array(copy_items(&self.0)))
    }
}

/// Draws an integer of `min..=max`.
pub struct IntegerGenerator {
    pub min: i64,
    pub max: i64,
}

pub open spec fn int_payload(p: JsonV) -> Option<(i64, i64)> {
    match p {
        JsonV::Obj(m) => match two_fields(m, "min"@, "max"@) {
            Some((a, b)) => match (as_i64(a), as_i64(b)) {
                (Some(x), Some(y)) => Some((x, y)),
                _ => None,
            },
            None => None,
        },
        _ => None,
    }
}

impl IntegerGenerator {
    pub fn new(min: i64, max: i64) -> (r: IntegerGenerator)
        ensures
            r.min == min,
            r.max == max,
    {
        IntegerGenerator { min, max }
    }

    /// Reads an integer-range payload: an object of exactly the integer members
    /// `min` and `max`.
    pub fn from_payload(p: &Json) -> (r: Result<IntegerGenerator, PayloadError>)
        ensures
            match int_payload(p@) {
                Some((a, b)) => r == Ok::<IntegerGenerator, PayloadError>(IntegerGenerator { min: a, max: b }),
                None => r == Err::<IntegerGenerator, PayloadError>(PayloadError::WrongShape),
            },
    {
        match p {
            Json::Object(m) => match two_fields_exec(m, "min", "max") {
                Some((a, b)) => match (as_i64_exec(a), as_i64_exec(b)) {
                    (Some(x), Some(y)) => Ok(IntegerGenerator::new(x, y)),
                    _ => Err(PayloadError::WrongShape),
                },
                None => Err(PayloadError::WrongShape),
            },
            _ => Err(PayloadError::WrongShape),
        }
    }

    pub fn validate(self) -> (r: Result<IntegerGenerator, PayloadError>)
        ensures
            self.min > self.max ==> r == Err::<IntegerGenerator, PayloadError>(PayloadError::EmptyRange),
            self.min <= self.max ==> r == Ok::<IntegerGenerator, PayloadError>(self),
    {
        if self.min > self.max {
            Err(PayloadError::EmptyRange)
        } else {
            Ok(self)
        }
    }

    /// An integer of the range, chosen by one draw.
    pub fn generate(&self, rng: &mut ChaCha20Rng) -> (r: Json)
        requires
            self.min <= self.max,
        ensures
            exists|k: i64| self.min <= k <= self.max && r@ == int_number(k),
            self.min == self.max ==> r@ == int_number(self.min),
    {
        let k = draw_int(rng, self.min, self.max);
        int_json(k)
    }

    /// The directive `{prefix + "int": {"min": min, "max": max}}`.
    pub fn to_json(&self, prefix: &String) -> (r: Json)
        ensures
            r@ == directive(
                prefix@ + "int"@,
                JsonV::Obj(seq![("min"@, int_number(self.min)), ("max"@, int_number(self.max))]),
            ),
    {
        let mut m: Vec<(String, Json)> = Vec::new();
        m.push((String::from_str("min"), int_json(self.min)));
        m.push((String::from_str("max"), int_json(self.max)));
        let payload = Json::Object(m);
        assert(payload@->Obj_0 =~= seq![("min"@, int_number(self.min)), ("max"@, int_number(self.max))]);
        let key = prefix.clone().concat("int");
        directive_exec(key, payload)
    }
}

/// What one fragment adds to a built string: nothing for null, a string
/// itself, any other value its JSON text.
pub open spec fn fragment_text(v: JsonV) -> Seq<char> {
    match v {
        JsonV::Null => Seq::empty(),
        JsonV::Str(s) => s,
        _ => text_of(v),
    }
}

pub open spec fn fragments_text(parts: Seq<JsonV>) -> Seq<char>
    decreases parts.len(),
{
    if parts.len() == 0 {
        Seq::empty()
    } else {
        fragments_text(parts.drop_last()) + fragment_text(parts.last())
    }
}

/// Concatenates its fragments into one string.
pub struct StringGenerator(pub Vec<Json>);

impl StringGenerator {
    pub open spec fn view(&self) -> Seq<JsonV> {
        Json::Array(self.0)@->Arr_0
    }

    /// Reads a string-build payload: any array.
    pub fn from_payload(p: &Json) -> (r: Result<StringGenerator, PayloadError>)
        ensures
            match p@ {
                JsonV::Arr(items) => r is Ok && r->Ok_0@ == items,
                _ => r == Err::<StringGenerator, PayloadError>(PayloadError::WrongShape),
            },
    {
        match p.copy() {
            Json::Array(v) => Ok(StringGenerator(v)),
            _ => Err(PayloadError::WrongShape),
        }
    }

    /// The fragments' texts, in order. Draws nothing.
    pub fn generate(&self) -> (r: Json)
        ensures
            r@ == JsonV::Str(fragments_text(self@)),
    {
        let mut s = String::new();
        let mut i: usize = 0;
        while i < self.0.len()
            invariant
                i <= self@.len(),
                self@.len() == self.0@.len(),
                s@ == fragments_text(self@.subrange(0, i as int)),
            decreases self.0@.len() - i,
        {
            let ghost before = s@;
            assert(self@[i as int] == self.0@[i as int]@);
            match &self.0[i] {
                Json::Null => {},
                Json::String(t) => s.append(t.as_str()),
                v => push_text(&mut s, v),
            }
            assert(self@.subrange(0, i + 1).drop_last() =~= self@.subrange(0, i as int));
            i += 1;
        }
        assert(self@.subrange(0, self@.len() as int) =~= self@);
        Json::String(s)
    }
}

/// Repeats a sub-template `len` times, evaluating it afresh for each element.
pub struct ArrayGenerator {
    pub len: usize,
    pub val: Json,
}

pub open spec fn arr_payload(p: JsonV) -> Option<(usize, JsonV)> {
    match p {
        JsonV::Obj(m) => match two_fields(m, "len"@, "val"@) {
            Some((a, b)) => match as_usize(a) {
                Some(n) => Some((n, b)),
                None => None,
            },
            None => None,
        },
        _ => None,
    }
}

impl ArrayGenerator {
    /// Reads a repeated-array payload: an object of exactly the members `len`,
    /// a non-negative integer, and `val`.
    pub fn from_payload(p: &Json) -> (r: Result<ArrayGenerator, PayloadError>)
        ensures
            match arr_payload(p@) {
                Some((n, v)) => r is Ok && r->Ok_0.len == n && r->Ok_0.val@ == v,
                None => r == Err::<ArrayGenerator, PayloadError>(PayloadError::WrongShape),
            },
    {
        match p {
            Json::Object(m) => match two_fields_exec(m, "len", "val") {
                Some((a, b)) => match as_usize_exec(a) {
                    Some(n) => Ok(ArrayGenerator { len: n, val: b.copy() }),
                    None => Err(PayloadError::WrongShape),
                },
                None => Err(PayloadError::WrongShape),
            },
            _ => Err(PayloadError::WrongShape),
        }
    }
}

/// One candidate member of a filtered object.
pub struct ObjectMember {
    pub name: String,
    pub val: Json,
}

/// A candidate read from one payload element: `Some(None)` for null,
/// `Some(Some((name, val)))` for a member, `None` for anything else.
pub open spec fn member_payload(v: JsonV) -> Option<Option<(Seq<char>, JsonV)>> {
    match v {
        JsonV::Null => Some(None),
        JsonV::Obj(m) => match two_fields(m, "name"@, "val"@) {
            Some((JsonV::Str(n), x)) => Some(Some((n, x))),
            _ => None,
        },
        _ => None,
    }
}

/// Every element of the payload is a null or a member.
pub open spec fn obj_payload_ok(items: Seq<JsonV>) -> bool {
    forall|i: int| 0 <= i < items.len() ==> (#[trigger] member_payload(items[i])) is Some
}

/// The index of the member keyed `k`, or -1.
pub open spec fn key_index(m: Seq<(Seq<char>, JsonV)>, k: Seq<char>) -> int
    decreases m.len(),
{
    if m.len() == 0 {
        -1
    } else if m.last().0 == k {
        m.len() - 1
    } else {
        key_index(m.drop_last(), k)
    }
}

/// Sets member `k` to `v`: in place where `k` is present, else at the end.
pub open spec fn set_member(m: Seq<(Seq<char>, JsonV)>, k: Seq<char>, v: JsonV) -> Seq<(Seq<char>, JsonV)> {
    let i = key_index(m, k);
    if i >= 0 {
        m.update(i, (k, v))
    } else {
        m.push((k, v))
    }
}

/// The object that the candidates make, in order, skipping the nulls.
pub open spec fn build_object(c: Seq<Option<(Seq<char>, JsonV)>>) -> Seq<(Seq<char>, JsonV)>
    decreases c.len(),
{
    if c.len() == 0 {
        Seq::empty()
    } else {
        let m = build_object(c.drop_last());
        match c.last() {
            Some((k, v)) => set_member(m, k, v),
            None => m,
        }
    }
}

pub proof fn lemma_key_index_last(m: Seq<(Seq<char>, JsonV)>, k: Seq<char>, t: int)
    requires
        -1 <= t < m.len(),
        t >= 0 ==> m[t].0 == k,
        forall|u: int| t < u < m.len() ==> m[u].0 != k,
    ensures
        key_index(m, k) == t,
    decreases m.len(),
{
    if m.len() > 0 && t < m.len() - 1 {
        lemma_key_index_last(m.drop_last(), k, t);
    }
}

/// Sets member `k` of `m` to `v`, in place where `k` is present, else at the end.
pub fn set_member_exec(m: &mut Vec<(String, Json)>, k: String, v: Json)
    ensures
        Json::Object(*final(m))@->Obj_0 == set_member(Json::Object(*old(m))@->Obj_0, k@, v@),
{
    let ghost before = Json::Object(*m)@->Obj_0;
    let ghost kv = k@;
    let ghost vv = v@;
    let mut j: usize = m.len();
    while j > 0
        invariant
            j <= m@.len(),
            before == Json::Object(*m)@->Obj_0,
            kv == k@,
            forall|t: int| j <= t < before.len() ==> before[t].0 != kv,
        ensures
            j <= m@.len(),
            forall|t: int| j <= t < before.len() ==> before[t].0 != kv,
            j > 0 ==> before[j - 1].0 == kv,
        decreases j,
    {
        assert(before[j - 1] == (m@[j - 1].0@, m@[j - 1].1@));
        if key_is(&m[j - 1].0, k.as_str()) {
            break;
        }
        j -= 1;
    }
    let found = j > 0;
    proof {
        if found {
            assert(before[j - 1] == (m@[j - 1].0@, m@[j - 1].1@));
        }
        lemma_key_index_last(before, kv, if found { j - 1 } else { -1 });
    }
    if found {
        m.set(j - 1, (k, v));
    } else {
        m.push((k, v));
    }
    assert(Json::Object(*m)@->Obj_0 =~= set_member(before, kv, vv));
}

/// No two members of `m` share a key.
pub open spec fn keys_unique(m: Seq<(Seq<char>, JsonV)>) -> bool {
    forall|i: int, j: int| 0 <= i < j < m.len() ==> m[i].0 != m[j].0
}

pub proof fn lemma_key_index_absent(m: Seq<(Seq<char>, JsonV)>, k: Seq<char>)
    ensures
        key_index(m, k) < 0 ==> forall|j: int| 0 <= j < m.len() ==> m[j].0 != k,
        key_index(m, k) >= 0 ==> key_index(m, k) < m.len() && m[key_index(m, k)].0 == k,
    decreases m.len(),
{
    if m.len() > 0 {
        lemma_key_index_absent(m.drop_last(), k);
        if key_index(m, k) < 0 {
            assert(m.last().0 != k);
            assert forall|j: int| 0 <= j < m.len() implies m[j].0 != k by {
                if j < m.len() - 1 {
                    assert(m.drop_last()[j] == m[j]);
                }
            }
        }
    }
}

/// Setting a member keeps the keys unique.
pub proof fn lemma_set_member_unique(m: Seq<(Seq<char>, JsonV)>, k: Seq<char>, v: JsonV)
    requires
        keys_unique(m),
    ensures
        keys_unique(set_member(m, k, v)),
{
    lemma_key_index_absent(m, k);
}

/// The object that the candidates make has unique keys.
pub proof fn lemma_build_object_unique(c: Seq<Option<(Seq<char>, JsonV)>>)
    ensures
        keys_unique(build_object(c)),
    decreases c.len(),
{
    if c.len() > 0 {
        lemma_build_object_unique(c.drop_last());
        if let Some((k, v)) = c.last() {
            lemma_set_member_unique(build_object(c.drop_last()), k, v);
        }
    }
}

/// Builds an object out of the members that are present.
pub struct ObjectGenerator(pub Vec<Option<ObjectMember>>);

impl ObjectGenerator {
    pub open spec fn candidates(&self) -> Seq<Option<(Seq<char>, JsonV)>> {
        self.0@.map_values(
            |c: Option<ObjectMember>|
                match c {
                    Some(mem) => Some((mem.name@, mem.val@)),
                    None => None,
                },
        )
    }

    /// Reads a filtered-object payload: an array whose elements are each null
    /// or an object of exactly the members `name`, a string, and `val`.
    pub fn from_payload(p: &Json) -> (r: Result<ObjectGenerator, PayloadError>)
        ensures
            match p@ {
                JsonV::Arr(items) => if obj_payload_ok(items) {
                    r is Ok && r->Ok_0.candidates() == items.map_values(
                        |x: JsonV| member_payload(x)->0,
                    )
                } else {
                    r == Err::<ObjectGenerator, PayloadError>(PayloadError::WrongShape)
                },
                _ => r == Err::<ObjectGenerator, PayloadError>(PayloadError::WrongShape),
            },
    {
        match p {
            Json::Array(items) => {
                let ghost iv = p@->Arr_0;
                let mut out: Vec<Option<ObjectMember>> = Vec::new();
                let mut i: usize = 0;
                while i < items.len()
                    invariant
                        *p == Json::Array(*items),
                        iv == p@->Arr_0,
                        i <= items@.len(),
                        out@.len() == i,
                        forall|j: int| 0 <= j < i ==> (#[trigger] member_payload(iv[j])) is Some,
                        forall|j: int|
                            0 <= j < i ==> (match #[trigger] out@[j] {
                                Some(mem) => Some((mem.name@, mem.val@)),
                                None => None,
                            }) == member_payload(iv[j])->0,
                    decreases items@.len() - i,
                {
                    assert(iv[i as int] == items@[i as int]@);
                    match &items[i] {
                        Json::Null => out.push(None),
                        Json::Object(m) => match two_fields_exec(m, "name", "val") {
                            Some((Json::String(n), x)) => out.push(
                                Some(ObjectMember { name: n.clone(), val: x.copy() }),
                            ),
                            _ => {
                                assert(member_payload(iv[i as int]) is None);
                                return Err(PayloadError::WrongShape);
                            },
                        },
                        _ => {
                            assert(member_payload(iv[i as int]) is None);
                            return Err(PayloadError::WrongShape);
                        },
                    }
                    i += 1;
                }
                let r = ObjectGenerator(out);
                assert(r.candidates() =~= iv.map_values(|x: JsonV| member_payload(x)->0));
                Ok(r)
            },
            _ => Err(PayloadError::WrongShape),
        }
    }

    /// The object of the present members, in order. Draws nothing.
    pub fn generate(&self) -> (r: Json)
        ensures
            r@ == JsonV::Obj(build_object(self.candidates())),
            keys_unique(r@->Obj_0),
    {
        proof {
            lemma_build_object_unique(self.candidates());
        }
        let mut m: Vec<(String, Json)> = Vec::new();
        let mut i: usize = 0;
        while i < self.0.len()
            invariant
                i <= self.0@.len(),
                Json::Object(m)@->Obj_0 == build_object(self.candidates().subrange(0, i as int)),
            decreases self.0@.len() - i,
        {
            let ghost before = Json::Object(m)@->Obj_0;
            assert(self.candidates().subrange(0, i + 1).drop_last() =~= self.candidates().subrange(
                0,
                i as int,
            ));
            match &self.0[i] {
                None => {},
                Some(mem) => {
                    set_member_exec(&mut m, mem.name.clone(), mem.val.copy());
                },
            }
            i += 1;
        }
        assert(self.candidates().subrange(0, self.0@.len() as int) =~= self.candidates());
        Json::Object(m)
    }
}

/// Keeps its payload or gives null, on a fair coin.
pub struct OptionGenerator(pub Json);

impl OptionGenerator {
    /// Reads an optional-value payload: any value.
    pub fn from_payload(p: &Json) -> (r: OptionGenerator)
        ensures
            r.0@ == p@,
    {
        OptionGenerator(p.copy())
    }

    /// The payload or null, by one draw.
    pub fn generate(&self, rng: &mut ChaCha20Rng) -> (r: Json)
        ensures
            r@ == self.0@ || r@ == JsonV::Null,
    {
        let keep = flip(rng);
        self.pick(keep)
    }

    /// The payload where the coin says keep, else null.
    pub fn pick(&self, keep: bool) -> (r: Json)
        ensures
            keep ==> r@ == self.0@,
            !keep ==> r@ == JsonV::Null,
    {
        if keep {
            self.0.copy()
        } else {
            Json::Null
        }
    }
}

} // verus!
