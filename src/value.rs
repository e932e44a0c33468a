use vstd::prelude::*;

verus! {

broadcast use vstd::std_specs::vec::axiom_vec_index_decreases;

/// Ten to the power `n`.
pub open spec fn pow10(n: nat) -> int
    decreases n,
{
    if n == 0 {
        1
    } else {
        10 * pow10((n - 1) as nat)
    }
}

/// Number of decimal places every number is brought to before two numbers are compared.
pub const PLACES: u32 = 18;

/// The common denominator of all numbers: `10^PLACES`.
pub open spec fn unit() -> int {
    pow10(PLACES as nat)
}

/// `2^64`: fractional numbers keep their integer part below this bound.
pub open spec fn int_part_bound() -> int {
    0x1_0000_0000_0000_0000
}

pub proof fn lemma_pow10_positive(n: nat)
    ensures
        pow10(n) >= 1,
    decreases n,
{
    if n > 0 {
        lemma_pow10_positive((n - 1) as nat);
    }
}

pub proof fn lemma_pow10_add(a: nat, b: nat)
    ensures
        pow10(a) * pow10(b) == pow10(a + b),
    decreases a,
{
    if a > 0 {
        lemma_pow10_add((a - 1) as nat, b);
        assert(pow10(a) * pow10(b) == 10 * (pow10((a - 1) as nat) * pow10(b))) by (nonlinear_arith)
            requires
                pow10(a) == 10 * pow10((a - 1) as nat),
        ;
    }
}

pub proof fn lemma_pow10_monotone(a: nat, b: nat)
    requires
        a <= b,
    ensures
        pow10(a) <= pow10(b),
    decreases b,
{
    if a < b {
        lemma_pow10_monotone(a, (b - 1) as nat);
        lemma_pow10_positive((b - 1) as nat);
    }
}

pub proof fn lemma_unit_value()
    ensures
        unit() == 1_000_000_000_000_000_000,
{
    reveal_with_fuel(pow10, 19);
}

/// `10^k` as a machine integer.
pub fn pow10_exec(k: u32) -> (r: i128)
    requires
        k <= PLACES,
    ensures
        r == pow10(k as nat),
{
    let mut r: i128 = 1;
    let mut i: u32 = 0;
    while i < k
        invariant
            i <= k <= PLACES,
            r == pow10(i as nat),
        decreases k - i,
    {
        proof {
            lemma_pow10_monotone((i + 1) as nat, PLACES as nat);
            lemma_unit_value();
            assert(pow10((i + 1) as nat) == 10 * pow10(i as nat));
            lemma_pow10_positive(i as nat);
        }
        r = r * 10;
        i = i + 1;
    }
    r
}

/// A decimal fraction `mantissa / 10^scale` with at most `PLACES` decimal places.
#[derive(Clone, Copy, Debug, PartialEq, Eq)]
pub struct Decimal {
    mantissa: i128,
    scale: u32,
}

/// Whether `mantissa / 10^scale` is a decimal this library keeps: at most `PLACES`
/// places, and an integer part below `2^64` in magnitude.
pub open spec fn decimal_in_range(mantissa: int, scale: nat) -> bool {
    &&& scale <= PLACES
    &&& -int_part_bound() * pow10(scale) < mantissa < int_part_bound() * pow10(scale)
}

impl Decimal {
    #[verifier::type_invariant]
    spec fn inv(self) -> bool {
        decimal_in_range(self.mantissa as int, self.scale as nat)
    }

    pub closed spec fn spec_mantissa(&self) -> i128 {
        self.mantissa
    }

    pub closed spec fn spec_scale(&self) -> u32 {
        self.scale
    }

    #[verifier::when_used_as_spec(spec_mantissa)]
    pub fn mantissa(&self) -> (r: i128)
        ensures
            r == self.spec_mantissa(),
            decimal_in_range(r as int, self.spec_scale() as nat),
    {
        proof {
            use_type_invariant(self);
        }
        self.mantissa
    }

    #[verifier::when_used_as_spec(spec_scale)]
    pub fn scale(&self) -> (r: u32)
        ensures
            r == self.spec_scale(),
            r <= PLACES,
    {
        proof {
            use_type_invariant(self);
        }
        self.scale
    }

    /// The value times `10^PLACES`.
    pub open spec fn scaled(&self) -> int {
        self.spec_mantissa() * pow10((PLACES - self.spec_scale()) as nat)
    }

    /// The decimal `mantissa / 10^scale`, where it is in range.
    pub fn new(mantissa: i128, scale: u32) -> (r: Option<Decimal>)
        ensures
            r is Some <==> decimal_in_range(mantissa as int, scale as nat),
            r matches Some(d) ==> d.spec_mantissa() == mantissa && d.spec_scale() == scale,
    {
        if scale > PLACES {
            return None;
        }
        let p = pow10_exec(scale);
        proof {
            lemma_pow10_monotone(scale as nat, PLACES as nat);
            lemma_unit_value();
            assert(p <= 1_000_000_000_000_000_000);
            lemma_pow10_positive(scale as nat);
        }
        let bound: i128 = 0x1_0000_0000_0000_0000i128 * p;
        assert(bound == int_part_bound() * pow10(scale as nat));
        assert(-bound == -int_part_bound() * pow10(scale as nat));
        if -bound < mantissa && mantissa < bound {
            Some(Decimal { mantissa, scale })
        } else {
            None
        }
    }

    /// The scaled value as a machine integer.
    fn scaled_exec(&self) -> (r: i128)
        ensures
            r == self.scaled(),
            -int_part_bound() * unit() < r < int_part_bound() * unit(),
    {
        proof {
            use_type_invariant(self);
        }
        let e = PLACES - self.scale;
        let p = pow10_exec(e);
        proof {
            let s = self.scale as nat;
            let m = self.mantissa as int;
            lemma_pow10_add(s, e as nat);
            lemma_pow10_positive(e as nat);
            lemma_pow10_positive(s);
            let b = int_part_bound();
            let ps = pow10(s);
            let pe = pow10(e as nat);
            assert(-(b * (ps * pe)) < m * pe < b * (ps * pe)) by (nonlinear_arith)
                requires
                    -b * ps < m < b * ps,
                    pe >= 1,
            ;
            lemma_unit_value();
        }
        self.mantissa * p
    }
}

/// The number a `JsonNum` stands for: an exact integer, or a decimal fraction given
/// as its value times `10^PLACES`.
pub enum NumValue {
    Int(int),
    Dec(int),
}

impl NumValue {
    /// The value times `10^PLACES`.
    pub open spec fn scaled(self) -> int {
        match self {
            NumValue::Int(i) => i * unit(),
            NumValue::Dec(m) => m,
        }
    }
}

/// Two numbers are equal when both are integers and the same, or otherwise when
/// they differ by less than `tolerance` (all three given times `10^PLACES`).
pub open spec fn num_equal(a: NumValue, b: NumValue, tolerance: int) -> bool {
    match (a, b) {
        (NumValue::Int(x), NumValue::Int(y)) => x == y,
        _ => {
            let d = a.scaled() - b.scaled();
            (if d < 0 { -d } else { d }) < tolerance
        },
    }
}

#[derive(Clone, Copy, Debug, PartialEq, Eq)]
pub enum JsonNum {
    Integer(i64),
    Double(Decimal),
}

impl JsonNum {
    pub open spec fn view(&self) -> NumValue {
        match self {
            JsonNum::Integer(i) => NumValue::Int(*i as int),
            JsonNum::Double(d) => NumValue::Dec(d.scaled()),
        }
    }

    pub(crate) fn scaled_exec(&self) -> (r: i128)
        ensures
            r == self@.scaled(),
            -int_part_bound() * unit() <= r < int_part_bound() * unit(),
    {
        match self {
            JsonNum::Integer(i) => {
                proof {
                    lemma_unit_value();
                }
                (*i as i128) * 1_000_000_000_000_000_000i128
            },
            JsonNum::Double(d) => d.scaled_exec(),
        }
    }

    /// Whether the two numbers are equal: exactly when both are integers, else within
    /// `threshold`.
    pub fn is_equal(&self, other: &JsonNum, threshold: Decimal) -> (r: bool)
        ensures
            r == num_equal(self@, other@, threshold.scaled()),
    {
        match (self, other) {
            (JsonNum::Integer(a), JsonNum::Integer(b)) => *a == *b,
            _ => {
                let a = self.scaled_exec();
                let b = other.scaled_exec();
                let t = threshold.scaled_exec();
                proof {
                    lemma_unit_value();
                }
                let d = a - b;
                let d = if d < 0 { -d } else { d };
                d < t
            },
        }
    }
}

/// A JSON value as a mathematical object. An object is a sequence of key/value
/// members; lookups go by the first member with the key.
pub enum JsonValue {
    Number(NumValue),
    Str(Seq<char>),
    Array(Seq<JsonValue>),
    Object(Seq<(Seq<char>, JsonValue)>),
    Null,
}

/// Whether no two members of `m` have the same key.
pub open spec fn keys_unique(m: Seq<(Seq<char>, JsonValue)>) -> bool {
    forall|i: int, j: int| 0 <= i < m.len() && 0 <= j < m.len() && i != j ==> m[i].0 != m[j].0
}

impl JsonValue {
    /// No object in the value has two members with the same key.
    pub open spec fn wf(self) -> bool
        decreases self,
    {
        match self {
            JsonValue::Array(a) => forall|i: int| 0 <= i < a.len() ==> (#[trigger] a[i]).wf(),
            JsonValue::Object(m) => keys_unique(m) && forall|i: int|
                0 <= i < m.len() ==> (#[trigger] m[i]).1.wf(),
            _ => true,
        }
    }
}

/// In an object with unique keys, the member with a key is the one at its index.
pub proof fn lemma_key_index_unique(m: Seq<(Seq<char>, JsonValue)>, i: int)
    requires
        keys_unique(m),
        0 <= i < m.len(),
    ensures
        has_key(m, m[i].0),
        key_index(m, m[i].0) == i,
{
    let k = m[i].0;
    assert(has_key(m, k));
    assert(0 <= i < m.len() && m[i].0 == k && forall|j: int| 0 <= j < i ==> m[j].0 != k);
    let c = key_index(m, k);
    assert(0 <= c < m.len() && m[c].0 == k);
}

/// Inserting keeps keys unique.
pub proof fn lemma_insert_member_unique(m: Seq<(Seq<char>, JsonValue)>, k: Seq<char>, v: JsonValue)
    requires
        keys_unique(m),
    ensures
        keys_unique(insert_member(m, k, v)),
        forall|i: int|
            0 <= i < insert_member(m, k, v).len() ==> #[trigger] insert_member(m, k, v)[i] == (k, v)
                || exists|j: int| 0 <= j < m.len() && insert_member(m, k, v)[i] == m[j],
{
    if has_key(m, k) {
        let c = key_index(m, k);
        let r = m.update(c, (k, v));
        assert forall|i: int, j: int| 0 <= i < r.len() && 0 <= j < r.len() && i != j implies r[i].0 != r[j].0 by {
            if i == c {
                assert(r[i].0 == m[c].0);
            }
            if j == c {
                assert(r[j].0 == m[c].0);
            }
        }
        assert forall|i: int| 0 <= i < r.len() implies #[trigger] r[i] == (k, v) || exists|j: int| 0 <= j < m.len() && r[i] == m[j] by {
            if i != c {
                assert(r[i] == m[i]);
            }
        }
    } else {
        let r = m.push((k, v));
        assert forall|i: int| 0 <= i < r.len() implies #[trigger] r[i] == (k, v) || exists|j: int| 0 <= j < m.len() && r[i] == m[j] by {
            if i < m.len() {
                assert(r[i] == m[i]);
            }
        }
    }
}

/// Whether `m` has a member with key `k`.
pub open spec fn has_key(m: Seq<(Seq<char>, JsonValue)>, k: Seq<char>) -> bool {
    exists|i: int| 0 <= i < m.len() && m[i].0 == k
}

/// The index of the first member of `m` with key `k`, where there is one.
pub open spec fn key_index(m: Seq<(Seq<char>, JsonValue)>, k: Seq<char>) -> int {
    choose|i: int| 0 <= i < m.len() && m[i].0 == k && forall|j: int| 0 <= j < i ==> m[j].0 != k
}

/// Inserting `(k, v)`: the member with key `k` gets the new value where there is
/// one (the last write wins), else the member is appended.
pub open spec fn insert_member(m: Seq<(Seq<char>, JsonValue)>, k: Seq<char>, v: JsonValue) -> Seq<
    (Seq<char>, JsonValue),
> {
    if has_key(m, k) {
        m.update(key_index(m, k), (k, v))
    } else {
        m.push((k, v))
    }
}

#[derive(Debug, PartialEq)]
pub enum JsonElement {
    JsonNumber(JsonNum),
    JsonString(String),
    JsonArray(Vec<JsonElement>),
    JsonObject(Vec<(String, JsonElement)>),
    JsonNull,
}

impl JsonElement {
    pub open spec fn view(&self) -> JsonValue
        decreases self,
    {
        match self {
            JsonElement::JsonNumber(n) => JsonValue::Number(n@),
            JsonElement::JsonString(s) => JsonValue::Str(s@),
            JsonElement::JsonArray(v) => JsonValue::Array(
                Seq::new(
                    v.len() as nat,
                    |i: int|
                        if 0 <= i < v.len() {
                            v[i].view()
                        } else {
                            JsonValue::Null
                        },
                ),
            ),
            JsonElement::JsonObject(v) => JsonValue::Object(
                Seq::new(
                    v.len() as nat,
                    |i: int|
                        if 0 <= i < v.len() {
                            (v[i].0@, v[i].1.view())
                        } else {
                            (Seq::empty(), JsonValue::Null)
                        },
                ),
            ),
            JsonElement::JsonNull => JsonValue::Null,
        }
    }
}

/// The view of a sequence of object members.
pub open spec fn members_view(v: Seq<(String, JsonElement)>) -> Seq<(Seq<char>, JsonValue)> {
    Seq::new(v.len(), |i: int| (v[i].0@, v[i].1@))
}

/// The view of a sequence of array elements.
pub open spec fn elements_view(v: Seq<JsonElement>) -> Seq<JsonValue> {
    Seq::new(v.len(), |i: int| v[i]@)
}

/// Looks up the first member with key `k`.
pub fn find_key(m: &Vec<(String, JsonElement)>, k: &String) -> (r: Option<usize>)
    ensures
        r is Some <==> has_key(members_view(m@), k@),
        r matches Some(i) ==> i == key_index(members_view(m@), k@) && i < m.len(),
{
    let ghost mv = members_view(m@);
    let mut i: usize = 0;
    while i < m.len()
        invariant
            0 <= i <= m.len(),
            mv == members_view(m@),
            forall|j: int| 0 <= j < i ==> mv[j].0 != k@,
        decreases m.len() - i,
    {
        if m[i].0 == *k {
            proof {
                assert(mv[i as int].0 == k@);
                assert(has_key(mv, k@));
                let c = key_index(mv, k@);
                assert(0 <= c < mv.len() && mv[c].0 == k@ && forall|j: int| 0 <= j < c ==> mv[j].0 != k@);
                if c < i {
                    assert(mv[c].0 != k@);
                }
                if c > i {
                    assert(mv[i as int].0 != k@);
                }
            }
            return Some(i);
        }
        i = i + 1;
    }
    None
}

} // verus!
