use vstd::prelude::*;
use crate::lexer::push_char;
use crate::parser::{build_json_graph, lemma_parsed_wf, parse_text, ParseError};
use crate::render::{num_text, render, render_num, serialize_json};
use crate::value::{
    elements_view, find_key, has_key, key_index, lemma_key_index_unique, members_view, num_equal,
    Decimal, JsonElement, JsonValue,
};

verus! {

broadcast use vstd::std_specs::vec::axiom_vec_index_decreases;

#[derive(Clone, Copy, Debug, PartialEq, Eq)]
pub enum DiffType {
    Added,
    Deleted,
    Modified,
}

/// One difference between two values, as a mathematical object.
pub struct DiffRecord {
    pub kind: DiffType,
    pub from: Option<Seq<char>>,
    pub to: Option<Seq<char>>,
    pub path: Seq<char>,
}

/// One difference between two values: its kind, the texts of the base side
/// (`from`) and of the compared side (`to`), and the `::`-joined object keys
/// that lead to it.
#[derive(Clone, Debug, PartialEq, Eq)]
pub struct JsonDiff {
    pub diff_type: DiffType,
    pub from_desc: Option<String>,
    pub to_desc: Option<String>,
    pub base_path: String,
}

pub open spec fn text_view(t: Option<String>) -> Option<Seq<char>> {
    match t {
        Some(s) => Some(s@),
        None => None,
    }
}

impl JsonDiff {
    pub open spec fn view(&self) -> DiffRecord {
        DiffRecord {
            kind: self.diff_type,
            from: text_view(self.from_desc),
            to: text_view(self.to_desc),
            path: self.base_path@,
        }
    }
}

pub open spec fn records_view(v: Seq<JsonDiff>) -> Seq<DiffRecord> {
    Seq::new(v.len(), |i: int| v[i]@)
}

/// How the differ compares numbers: two numbers of which at least one is a
/// fraction are equal when they differ by less than `float_tolerance`.
#[derive(Clone, Copy, Debug, PartialEq, Eq)]
pub struct DiffSetting {
    pub float_tolerance: Decimal,
}

impl Default for DiffSetting {
    /// A tolerance of `0.00001`.
    fn default() -> (r: DiffSetting)
        ensures
            r.float_tolerance.spec_mantissa() == 1,
            r.float_tolerance.spec_scale() == 5,
    {
        proof {
            reveal_with_fuel(crate::value::pow10, 6);
            assert(crate::value::pow10(5) == 100000);
            assert(5 <= crate::value::PLACES);
            assert(crate::value::int_part_bound() * crate::value::pow10(5) > 1);
            assert(crate::value::decimal_in_range(1, 5));
        }
        let t = Decimal::new(1, 5);
        DiffSetting { float_tolerance: t.unwrap() }
    }
}

pub open spec fn modified(path: Seq<char>, from: Seq<char>, to: Seq<char>) -> DiffRecord {
    DiffRecord { kind: DiffType::Modified, from: Some(from), to: Some(to), path }
}

pub open spec fn added(path: Seq<char>, to: Seq<char>) -> DiffRecord {
    DiffRecord { kind: DiffType::Added, from: None, to: Some(to), path }
}

pub open spec fn deleted(path: Seq<char>, from: Seq<char>) -> DiffRecord {
    DiffRecord { kind: DiffType::Deleted, from: Some(from), to: None, path }
}

/// The path of member `key` under `path`.
pub open spec fn path_join(path: Seq<char>, key: Seq<char>) -> Seq<char> {
    path + seq![':', ':'] + key
}

/// The differences between `a` (the base) and `b` (the compared value) at `path`;
/// numbers of which one is a fraction are compared with `tolerance` (given times
/// `10^PLACES`).
pub open spec fn diff_values(a: JsonValue, b: JsonValue, path: Seq<char>, tolerance: int) -> Seq<
    DiffRecord,
>
    decreases a, 1nat,
{
    match (a, b) {
        (JsonValue::Number(x), JsonValue::Number(y)) => {
            if num_equal(x, y, tolerance) {
                Seq::empty()
            } else {
                seq![modified(path, render_num(x), render_num(y))]
            }
        },
        (JsonValue::Str(x), JsonValue::Str(y)) => {
            if x == y {
                Seq::empty()
            } else {
                seq![modified(path, x, y)]
            }
        },
        (JsonValue::Null, JsonValue::Null) => Seq::empty(),
        (JsonValue::Array(x), JsonValue::Array(y)) => diff_arrays(x, y, path, tolerance),
        (JsonValue::Object(x), JsonValue::Object(y)) => diff_objects(x, y, path, tolerance),
        _ => seq![modified(path, render(a), render(b))],
    }
}

/// The differences of the elements that both arrays have, position by position.
pub open spec fn array_pair_diffs(
    x: Seq<JsonValue>,
    y: Seq<JsonValue>,
    path: Seq<char>,
    tolerance: int,
) -> Seq<Seq<DiffRecord>>
    decreases x, 0nat,
{
    Seq::new(
        if x.len() <= y.len() { x.len() } else { y.len() },
        |i: int|
            if 0 <= i < x.len() && i < y.len() {
                diff_values(x[i], y[i], path, tolerance)
            } else {
                Seq::empty()
            },
    )
}

/// One `Added` for each element of `y` past the end of `x`, or one `Deleted` for
/// each element of `x` past the end of `y`.
pub open spec fn array_tail(x: Seq<JsonValue>, y: Seq<JsonValue>, path: Seq<char>) -> Seq<DiffRecord> {
    if x.len() <= y.len() {
        Seq::new((y.len() - x.len()) as nat, |j: int| added(path, render(y[x.len() + j])))
    } else {
        Seq::new((x.len() - y.len()) as nat, |j: int| deleted(path, render(x[y.len() + j])))
    }
}

/// For each member of `x`: its differences with the member of `y` with the same
/// key, or a `Deleted` where `y` has none.
pub open spec fn object_base_side(
    x: Seq<(Seq<char>, JsonValue)>,
    y: Seq<(Seq<char>, JsonValue)>,
    path: Seq<char>,
    tolerance: int,
) -> Seq<Seq<DiffRecord>>
    decreases x, 0nat,
{
    Seq::new(
        x.len(),
        |i: int|
            if 0 <= i < x.len() {
                if has_key(y, x[i].0) {
                    diff_values(x[i].1, y[key_index(y, x[i].0)].1, path_join(path, x[i].0), tolerance)
                } else {
                    seq![deleted(path_join(path, x[i].0), render(x[i].1))]
                }
            } else {
                Seq::empty()
            },
    )
}

/// For each member of `y`: an `Added` where `x` has no member with its key.
pub open spec fn object_compared_side(
    x: Seq<(Seq<char>, JsonValue)>,
    y: Seq<(Seq<char>, JsonValue)>,
    path: Seq<char>,
) -> Seq<Seq<DiffRecord>> {
    Seq::new(
        y.len(),
        |j: int|
            if has_key(x, y[j].0) {
                Seq::empty()
            } else {
                seq![added(path_join(path, y[j].0), render(y[j].1))]
            },
    )
}

/// Arrays: elements compared by position, at the array's own path; then one
/// `Added` for each element past the end of the base, or one `Deleted` for each
/// element past the end of the compared array.
pub open spec fn diff_arrays(x: Seq<JsonValue>, y: Seq<JsonValue>, path: Seq<char>, tolerance: int) -> Seq<
    DiffRecord,
>
    decreases x, 1nat,
{
    array_pair_diffs(x, y, path, tolerance).flatten() + array_tail(x, y, path)
}

/// Objects: for each member of the base, the differences with the compared
/// member of the same key, or a `Deleted` where there is none; then an `Added`
/// for each member of the compared object whose key the base lacks.
pub open spec fn diff_objects(
    x: Seq<(Seq<char>, JsonValue)>,
    y: Seq<(Seq<char>, JsonValue)>,
    path: Seq<char>,
    tolerance: int,
) -> Seq<DiffRecord>
    decreases x, 1nat,
{
    object_base_side(x, y, path, tolerance).flatten() + object_compared_side(x, y, path).flatten()
}

proof fn lemma_records_push(v: Seq<JsonDiff>, d: JsonDiff)
    ensures
        records_view(v.push(d)) == records_view(v).push(d@),
{
    assert(records_view(v.push(d)) =~= records_view(v).push(d@));
}

proof fn lemma_records_concat(v: Seq<JsonDiff>, w: Seq<JsonDiff>)
    ensures
        records_view(v + w) == records_view(v) + records_view(w),
{
    assert(records_view(v + w) =~= records_view(v) + records_view(w));
}

fn path_of(base: &str) -> (r: String)
    ensures
        r@ == base@,
{
    base.to_owned()
}

fn join_path(base: &str, key: &String) -> (r: String)
    ensures
        r@ == path_join(base@, key@),
{
    let mut p = base.to_owned();
    push_char(&mut p, ':');
    push_char(&mut p, ':');
    let chars = crate::lexer::chars_of(key.as_str());
    let ghost start = p@;
    let mut i: usize = 0;
    while i < chars.len()
        invariant
            0 <= i <= chars.len(),
            chars@ == key@,
            p@ == start + key@.take(i as int),
        decreases chars.len() - i,
    {
        push_char(&mut p, chars[i]);
        assert(start + key@.take(i + 1) =~= (start + key@.take(i as int)).push(chars[i as int]));
        i = i + 1;
    }
    assert(key@.take(chars.len() as int) =~= key@);
    assert(p@ =~= path_join(base@, key@));
    p
}

fn one_record(d: JsonDiff) -> (r: Vec<JsonDiff>)
    ensures
        records_view(r@) == seq![d@],
{
    let mut v: Vec<JsonDiff> = Vec::new();
    let ghost dv = d@;
    v.push(d);
    assert(records_view(v@) =~= seq![dv]);
    v
}

fn type_diff(a: &JsonElement, b: &JsonElement, path: &str) -> (r: Vec<JsonDiff>)
    ensures
        records_view(r@) == seq![modified(path@, render(a@), render(b@))],
{
    one_record(
        JsonDiff {
            diff_type: DiffType::Modified,
            from_desc: Some(serialize_json(a)),
            to_desc: Some(serialize_json(b)),
            base_path: path_of(path),
        },
    )
}

/// The differences between `base_el` and `compared_el` at `base_path`.
pub fn element_diff(
    base_el: &JsonElement,
    compared_el: &JsonElement,
    base_path: &str,
    settings: DiffSetting,
) -> (r: Vec<JsonDiff>)
    ensures
        records_view(r@) == diff_values(
            base_el@,
            compared_el@,
            base_path@,
            settings.float_tolerance.scaled(),
        ),
    decreases base_el, 1nat,
{
    match (base_el, compared_el) {
        (JsonElement::JsonNumber(x), JsonElement::JsonNumber(y)) => {
            if x.is_equal(y, settings.float_tolerance) {
                assert(records_view(Seq::<JsonDiff>::empty()) =~= Seq::<DiffRecord>::empty());
                Vec::new()
            } else {
                one_record(
                    JsonDiff {
                        diff_type: DiffType::Modified,
                        from_desc: Some(num_text(x)),
                        to_desc: Some(num_text(y)),
                        base_path: path_of(base_path),
                    },
                )
            }
        },
        (JsonElement::JsonString(x), JsonElement::JsonString(y)) => {
            if *x == *y {
                assert(records_view(Seq::<JsonDiff>::empty()) =~= Seq::<DiffRecord>::empty());
                Vec::new()
            } else {
                one_record(
                    JsonDiff {
                        diff_type: DiffType::Modified,
                        from_desc: Some(x.clone()),
                        to_desc: Some(y.clone()),
                        base_path: path_of(base_path),
                    },
                )
            }
        },
        (JsonElement::JsonNull, JsonElement::JsonNull) => {
            assert(records_view(Seq::<JsonDiff>::empty()) =~= Seq::<DiffRecord>::empty());
            Vec::new()
        },
        (JsonElement::JsonArray(x), JsonElement::JsonArray(y)) => {
            proof {
                assert(base_el@ == JsonValue::Array(elements_view(x@))) by {
                    assert(elements_view(x@) =~= match base_el@ {
                        JsonValue::Array(a) => a,
                        _ => Seq::empty(),
                    });
                }
                assert(compared_el@ == JsonValue::Array(elements_view(y@))) by {
                    assert(elements_view(y@) =~= match compared_el@ {
                        JsonValue::Array(a) => a,
                        _ => Seq::empty(),
                    });
                }
            }
            array_diff(x, y, base_path, settings)
        },
        (JsonElement::JsonObject(x), JsonElement::JsonObject(y)) => {
            proof {
                assert(base_el@ == JsonValue::Object(members_view(x@))) by {
                    assert(members_view(x@) =~= match base_el@ {
                        JsonValue::Object(a) => a,
                        _ => Seq::empty(),
                    });
                }
                assert(compared_el@ == JsonValue::Object(members_view(y@))) by {
                    assert(members_view(y@) =~= match compared_el@ {
                        JsonValue::Object(a) => a,
                        _ => Seq::empty(),
                    });
                }
            }
            object_diff(x, y, base_path, settings)
        },
        _ => type_diff(base_el, compared_el, base_path),
    }
}

#[verifier::rlimit(40)]
fn array_diff(
    base_vec: &Vec<JsonElement>,
    compared_vec: &Vec<JsonElement>,
    base_path: &str,
    settings: DiffSetting,
) -> (r: Vec<JsonDiff>)
    ensures
        records_view(r@) == diff_arrays(
            elements_view(base_vec@),
            elements_view(compared_vec@),
            base_path@,
            settings.float_tolerance.scaled(),
        ),
    decreases base_vec, 0nat,
{
    let ghost x = elements_view(base_vec@);
    let ghost y = elements_view(compared_vec@);
    let ghost tol = settings.float_tolerance.scaled();
    let ghost path = base_path@;
    let n = if base_vec.len() <= compared_vec.len() {
        base_vec.len()
    } else {
        compared_vec.len()
    };
    let ghost pairs = array_pair_diffs(x, y, path, tol);
    let mut diffs: Vec<JsonDiff> = Vec::new();
    proof {
        assert(pairs.take(0) =~= Seq::<Seq<DiffRecord>>::empty());
        assert(records_view(diffs@) =~= Seq::<DiffRecord>::empty());
    }
    let mut i: usize = 0;
    while i < n
        invariant
            0 <= i <= n,
            n <= base_vec.len(),
            n <= compared_vec.len(),
            n == base_vec.len() || n == compared_vec.len(),
            x == elements_view(base_vec@),
            y == elements_view(compared_vec@),
            tol == settings.float_tolerance.scaled(),
            path == base_path@,
            pairs.len() == n,
            forall|k: int| 0 <= k < n ==> #[trigger] pairs[k] == diff_values(x[k], y[k], path, tol),
            records_view(diffs@) == pairs.take(i as int).flatten(),
        decreases n - i,
    {
        let mut sub = element_diff(&base_vec[i], &compared_vec[i], base_path, settings);
        let ghost d0 = diffs@;
        let ghost s0 = sub@;
        diffs.append(&mut sub);
        proof {
            lemma_records_concat(d0, s0);
            assert(pairs.take(i + 1) =~= pairs.take(i as int).push(pairs[i as int]));
            pairs.take(i as int).lemma_flatten_push(pairs[i as int]);
        }
        i = i + 1;
    }
    proof {
        assert(pairs.take(n as int) =~= pairs);
    }
    let ghost head = records_view(diffs@);
    let base_shorter = base_vec.len() <= compared_vec.len();
    let longer = if base_shorter {
        compared_vec
    } else {
        base_vec
    };
    let ghost tail = array_tail(x, y, path);
    let mut j: usize = n;
    proof {
        assert(tail.take(0) =~= Seq::<DiffRecord>::empty());
        assert(head + tail.take(0) =~= head);
    }
    while j < longer.len()
        invariant
            n <= j <= longer.len(),
            longer.len() == (if base_shorter { compared_vec.len() } else { base_vec.len() }),
            longer@ == (if base_shorter { compared_vec@ } else { base_vec@ }),
            n == (if base_shorter { base_vec.len() } else { compared_vec.len() }),
            x == elements_view(base_vec@),
            y == elements_view(compared_vec@),
            path == base_path@,
            tail.len() == longer.len() - n,
            forall|k: int|
                0 <= k < tail.len() ==> #[trigger] tail[k] == (if base_shorter {
                    added(path, render(y[n + k]))
                } else {
                    deleted(path, render(x[n + k]))
                }),
            records_view(diffs@) == head + tail.take(j - n),
        decreases longer.len() - j,
    {
        let text = serialize_json(&longer[j]);
        let d = if base_shorter {
            JsonDiff {
                diff_type: DiffType::Added,
                from_desc: None,
                to_desc: Some(text),
                base_path: path_of(base_path),
            }
        } else {
            JsonDiff {
                diff_type: DiffType::Deleted,
                from_desc: Some(text),
                to_desc: None,
                base_path: path_of(base_path),
            }
        };
        let ghost d0 = diffs@;
        let ghost dv = d@;
        diffs.push(d);
        proof {
            lemma_records_push(d0, d);
            assert(dv == tail[j - n]);
            assert(tail.take(j + 1 - n) =~= tail.take(j - n).push(tail[j - n]));
            assert(head + tail.take(j + 1 - n) =~= (head + tail.take(j - n)).push(dv));
        }
        j = j + 1;
    }
    proof {
        assert(tail.take(longer.len() - n) =~= tail);
    }
    diffs
}

#[verifier::rlimit(40)]
fn object_diff(
    base_obj: &Vec<(String, JsonElement)>,
    compared_obj: &Vec<(String, JsonElement)>,
    base_path: &str,
    settings: DiffSetting,
) -> (r: Vec<JsonDiff>)
    ensures
        records_view(r@) == diff_objects(
            members_view(base_obj@),
            members_view(compared_obj@),
            base_path@,
            settings.float_tolerance.scaled(),
        ),
    decreases base_obj, 0nat,
{
    let ghost x = members_view(base_obj@);
    let ghost y = members_view(compared_obj@);
    let ghost tol = settings.float_tolerance.scaled();
    let ghost path = base_path@;
    let ghost base_side = object_base_side(x, y, path, tol);
    let ghost compared_side = object_compared_side(x, y, path);
    let mut diffs: Vec<JsonDiff> = Vec::new();
    proof {
        assert(base_side.take(0) =~= Seq::<Seq<DiffRecord>>::empty());
        assert(records_view(diffs@) =~= Seq::<DiffRecord>::empty());
    }
    let mut i: usize = 0;
    while i < base_obj.len()
        invariant
            0 <= i <= base_obj.len(),
            x == members_view(base_obj@),
            y == members_view(compared_obj@),
            tol == settings.float_tolerance.scaled(),
            path == base_path@,
            base_side.len() == base_obj.len(),
            forall|k: int|
                0 <= k < base_obj.len() ==> #[trigger] base_side[k] == (if has_key(y, x[k].0) {
                    diff_values(x[k].1, y[key_index(y, x[k].0)].1, path_join(path, x[k].0), tol)
                } else {
                    seq![deleted(path_join(path, x[k].0), render(x[k].1))]
                }),
            records_view(diffs@) == base_side.take(i as int).flatten(),
        decreases base_obj.len() - i,
    {
        let key = &base_obj[i].0;
        let new_bp = join_path(base_path, key);
        let ghost d0 = diffs@;
        match find_key(compared_obj, key) {
            Some(k) => {
                let mut sub = element_diff(&base_obj[i].1, &compared_obj[k].1, new_bp.as_str(), settings);
                let ghost s0 = sub@;
                diffs.append(&mut sub);
                proof {
                    lemma_records_concat(d0, s0);
                }
            },
            None => {
                let d = JsonDiff {
                    diff_type: DiffType::Deleted,
                    from_desc: Some(serialize_json(&base_obj[i].1)),
                    to_desc: None,
                    base_path: new_bp,
                };
                let mut sub = one_record(d);
                let ghost s0 = sub@;
                diffs.append(&mut sub);
                proof {
                    lemma_records_concat(d0, s0);
                }
            },
        }
        proof {
            assert(base_side.take(i + 1) =~= base_side.take(i as int).push(base_side[i as int]));
            base_side.take(i as int).lemma_flatten_push(base_side[i as int]);
        }
        i = i + 1;
    }
    proof {
        assert(base_side.take(base_obj.len() as int) =~= base_side);
    }
    let ghost head = records_view(diffs@);
    let mut j: usize = 0;
    proof {
        assert(compared_side.take(0) =~= Seq::<Seq<DiffRecord>>::empty());
        assert(head + compared_side.take(0).flatten() =~= head);
    }
    while j < compared_obj.len()
        invariant
            0 <= j <= compared_obj.len(),
            x == members_view(base_obj@),
            y == members_view(compared_obj@),
            path == base_path@,
            compared_side.len() == compared_obj.len(),
            forall|k: int|
                0 <= k < compared_obj.len() ==> #[trigger] compared_side[k] == (if has_key(x, y[k].0) {
                    Seq::empty()
                } else {
                    seq![added(path_join(path, y[k].0), render(y[k].1))]
                }),
            records_view(diffs@) == head + compared_side.take(j as int).flatten(),
        decreases compared_obj.len() - j,
    {
        let key = &compared_obj[j].0;
        let ghost d0 = diffs@;
        match find_key(base_obj, key) {
            Some(_) => {
                proof {
                    assert(compared_side[j as int] =~= Seq::<DiffRecord>::empty());
                    assert(records_view(d0) + compared_side[j as int] =~= records_view(d0));
                }
            },
            None => {
                let d = JsonDiff {
                    diff_type: DiffType::Added,
                    from_desc: None,
                    to_desc: Some(serialize_json(&compared_obj[j].1)),
                    base_path: join_path(base_path, key),
                };
                let ghost dv = d@;
                diffs.push(d);
                proof {
                    lemma_records_push(d0, d);
                    assert(records_view(d0).push(dv) =~= records_view(d0) + compared_side[j as int]);
                }
            },
        }
        proof {
            assert(compared_side.take(j + 1) =~= compared_side.take(j as int).push(compared_side[j as int]));
            compared_side.take(j as int).lemma_flatten_push(compared_side[j as int]);
            assert(head + compared_side.take(j + 1).flatten() =~= head + compared_side.take(j as int).flatten() + compared_side[j as int]);
        }
        j = j + 1;
    }
    proof {
        assert(compared_side.take(compared_obj.len() as int) =~= compared_side);
    }
    diffs
}

/// Parses both texts and returns the differences of the second from the first;
/// the first parse error where either text is not JSON.
pub fn structure_diff(base_json: &str, compared_json: &str, settings: DiffSetting) -> (r: Result<
    Vec<JsonDiff>,
    ParseError,
>)
    ensures
        match parse_text(base_json@) {
            Err(e) => r matches Err(x) && x@ == e,
            Ok(a) => match parse_text(compared_json@) {
                Err(e) => r matches Err(x) && x@ == e,
                Ok(b) => r matches Ok(v) && records_view(v@) == diff_values(
                    a,
                    b,
                    Seq::empty(),
                    settings.float_tolerance.scaled(),
                ),
            },
        },
{
    let base_g = match build_json_graph(base_json) {
        Ok(g) => g,
        Err(e) => {
            return Err(e);
        },
    };
    let compared_g = match build_json_graph(compared_json) {
        Ok(g) => g,
        Err(e) => {
            return Err(e);
        },
    };
    proof {
        reveal_strlit("");
        assert(""@ =~= Seq::<char>::empty());
    }
    Ok(element_diff(&base_g, &compared_g, "", settings))
}

/// The mark of a kind of difference.
pub open spec fn symbol(k: DiffType) -> Seq<char> {
    match k {
        DiffType::Added => seq!['+', '+', '+'],
        DiffType::Deleted => seq!['-', '-', '-'],
        DiffType::Modified => seq!['*', '*', '*'],
    }
}

pub open spec fn text_or_question(t: Option<Seq<char>>) -> Seq<char> {
    match t {
        Some(s) => s,
        None => seq!['?'],
    }
}

/// A difference as one line: `{kind} {from} -> {to} in {path}`, with `?` for a
/// missing side.
pub open spec fn diff_line(d: DiffRecord) -> Seq<char> {
    symbol(d.kind) + seq![' '] + text_or_question(d.from) + seq![' ', '-', '>', ' '] + text_or_question(
        d.to,
    ) + seq![' ', 'i', 'n', ' '] + d.path
}

fn push_all(out: &mut String, t: &String)
    ensures
        final(out)@ == old(out)@ + t@,
{
    let chars = crate::lexer::chars_of(t.as_str());
    let mut i: usize = 0;
    while i < chars.len()
        invariant
            0 <= i <= chars.len(),
            chars@ == t@,
            out@ == old(out)@ + t@.take(i as int),
        decreases chars.len() - i,
    {
        push_char(out, chars[i]);
        assert(old(out)@ + t@.take(i + 1) =~= (old(out)@ + t@.take(i as int)).push(chars[i as int]));
        i = i + 1;
    }
    assert(t@.take(chars.len() as int) =~= t@);
}

fn push_text_or_question(out: &mut String, t: &Option<String>)
    ensures
        final(out)@ == old(out)@ + text_or_question(text_view(*t)),
{
    match t {
        Some(s) => push_all(out, s),
        None => {
            push_char(out, '?');
            assert(old(out)@.push('?') =~= old(out)@ + seq!['?']);
        },
    }
}

impl DiffType {
    /// `+++`, `---` or `***`.
    pub fn symbol(&self) -> (r: String)
        ensures
            r@ == symbol(*self),
    {
        let c = match self {
            DiffType::Added => '+',
            DiffType::Deleted => '-',
            DiffType::Modified => '*',
        };
        let mut r = String::new();
        push_char(&mut r, c);
        push_char(&mut r, c);
        push_char(&mut r, c);
        assert(r@ =~= symbol(*self));
        r
    }
}

/// The difference as one line (see `diff_line`).
pub fn pretty_diff(diff: &JsonDiff) -> (r: String)
    ensures
        r@ == diff_line(diff@),
{
    let mut r = diff.diff_type.symbol();
    let ghost s0 = r@;
    push_char(&mut r, ' ');
    let ghost s1 = r@;
    push_text_or_question(&mut r, &diff.from_desc);
    let ghost s2 = r@;
    push_char(&mut r, ' ');
    push_char(&mut r, '-');
    push_char(&mut r, '>');
    push_char(&mut r, ' ');
    let ghost s3 = r@;
    push_text_or_question(&mut r, &diff.to_desc);
    let ghost s4 = r@;
    push_char(&mut r, ' ');
    push_char(&mut r, 'i');
    push_char(&mut r, 'n');
    push_char(&mut r, ' ');
    let ghost s5 = r@;
    push_all(&mut r, &diff.base_path);
    proof {
        assert(s3 =~= s2 + seq![' ', '-', '>', ' ']);
        assert(s5 =~= s4 + seq![' ', 'i', 'n', ' ']);
        assert(r@ =~= diff_line(diff@));
    }
    r
}

proof fn lemma_flatten_empty(ss: Seq<Seq<DiffRecord>>)
    requires
        forall|i: int| 0 <= i < ss.len() ==> (#[trigger] ss[i]).len() == 0,
    ensures
        ss.flatten() == Seq::<DiffRecord>::empty(),
    decreases ss.len(),
{
    if ss.len() > 0 {
        let rest = ss.drop_first();
        assert forall|i: int| 0 <= i < rest.len() implies (#[trigger] rest[i]).len() == 0 by {
            assert(rest[i] == ss[i + 1]);
        }
        lemma_flatten_empty(rest);
        assert(ss[0].len() == 0);
        assert(ss.flatten() =~= ss.first() + rest.flatten());
        assert(ss.flatten() =~= Seq::<DiffRecord>::empty());
    }
}

/// Each record of a part is in the flattening.
proof fn lemma_flatten_contains(ss: Seq<Seq<DiffRecord>>, i: int, j: int)
    requires
        0 <= i < ss.len(),
        0 <= j < ss[i].len(),
    ensures
        has_record(ss.flatten(), ss[i][j]),
    decreases ss.len(),
{
    let f = ss.flatten();
    assert(f == ss.first() + ss.drop_first().flatten());
    if i == 0 {
        assert(f[j] == ss[0][j]);
    } else {
        let rest = ss.drop_first();
        assert(rest[i - 1] == ss[i]);
        lemma_flatten_contains(rest, i - 1, j);
        let k = choose|k: int| 0 <= k < rest.flatten().len() && rest.flatten()[k] == ss[i][j];
        assert(f[ss[0].len() + k] == ss[i][j]);
    }
}

/// Each record of the flattening comes from a part.
proof fn lemma_flatten_origin(ss: Seq<Seq<DiffRecord>>, k: int)
    requires
        0 <= k < ss.flatten().len(),
    ensures
        exists|i: int, j: int| 0 <= i < ss.len() && 0 <= j < ss[i].len() && ss.flatten()[k] == ss[i][j],
    decreases ss.len(),
{
    let f = ss.flatten();
    if ss.len() == 0 {
    } else {
        let rest = ss.drop_first();
        assert(f == ss.first() + rest.flatten());
        if k < ss[0].len() {
            assert(f[k] == ss[0][k]);
        } else {
            lemma_flatten_origin(rest, k - ss[0].len());
            let (i, j) = choose|i: int, j: int|
                0 <= i < rest.len() && 0 <= j < rest[i].len() && rest.flatten()[k - ss[0].len()] == rest[i][j];
            assert(rest[i] == ss[i + 1]);
            assert(f[k] == ss[i + 1][j]);
        }
    }
}

/// Whether `r` is one of `rs`.
pub open spec fn has_record(rs: Seq<DiffRecord>, r: DiffRecord) -> bool {
    exists|k: int| 0 <= k < rs.len() && rs[k] == r
}

proof fn lemma_has_record_concat(a: Seq<DiffRecord>, b: Seq<DiffRecord>, r: DiffRecord)
    ensures
        has_record(a, r) ==> has_record(a + b, r),
        has_record(b, r) ==> has_record(a + b, r),
{
    if has_record(a, r) {
        let k = choose|k: int| 0 <= k < a.len() && a[k] == r;
        assert((a + b)[k] == r);
    }
    if has_record(b, r) {
        let k = choose|k: int| 0 <= k < b.len() && b[k] == r;
        assert((a + b)[a.len() + k] == r);
    }
}

/// Comparing a well-formed value with itself finds no difference, where the
/// tolerance is positive.
pub proof fn lemma_diff_self(v: JsonValue, path: Seq<char>, tolerance: int)
    requires
        v.wf(),
        tolerance > 0,
    ensures
        diff_values(v, v, path, tolerance) == Seq::<DiffRecord>::empty(),
    decreases v,
{
    match v {
        JsonValue::Array(x) => {
            let pairs = array_pair_diffs(x, x, path, tolerance);
            assert forall|i: int| 0 <= i < pairs.len() implies (#[trigger] pairs[i]).len() == 0 by {
                lemma_diff_self(x[i], path, tolerance);
            }
            lemma_flatten_empty(pairs);
            assert(array_tail(x, x, path) =~= Seq::<DiffRecord>::empty());
            assert(diff_values(v, v, path, tolerance) =~= Seq::<DiffRecord>::empty());
        },
        JsonValue::Object(x) => {
            let base = object_base_side(x, x, path, tolerance);
            let compared = object_compared_side(x, x, path);
            assert forall|i: int| 0 <= i < base.len() implies (#[trigger] base[i]).len() == 0 by {
                lemma_key_index_unique(x, i);
                lemma_diff_self(x[i].1, path_join(path, x[i].0), tolerance);
            }
            assert forall|j: int| 0 <= j < compared.len() implies (#[trigger] compared[j]).len() == 0 by {
                lemma_key_index_unique(x, j);
            }
            lemma_flatten_empty(base);
            lemma_flatten_empty(compared);
            assert(diff_values(v, v, path, tolerance) =~= Seq::<DiffRecord>::empty());
        },
        _ => {},
    }
}

/// `diff(X, X)` is empty for every JSON text `X` and positive tolerance.
pub proof fn lemma_diff_text_self(text: Seq<char>, tolerance: int)
    requires
        parse_text(text) is Ok,
        tolerance > 0,
    ensures
        diff_values(parse_text(text)->Ok_0, parse_text(text)->Ok_0, Seq::empty(), tolerance)
            == Seq::<DiffRecord>::empty(),
{
    lemma_parsed_wf(text);
    lemma_diff_self(parse_text(text)->Ok_0, Seq::empty(), tolerance);
}

/// Every `Added` record of `diff(a, b)` has its mirror in `diff(b, a)`: a
/// `Deleted` at the same path whose `from` is the added text.
pub open spec fn added_mirrored(a: JsonValue, b: JsonValue, path: Seq<char>, tolerance: int) -> bool {
    forall|k: int|
        0 <= k < diff_values(a, b, path, tolerance).len() && (#[trigger] diff_values(
            a,
            b,
            path,
            tolerance,
        )[k]).kind == DiffType::Added ==> {
            let r = diff_values(a, b, path, tolerance)[k];
            &&& r.to is Some
            &&& has_record(diff_values(b, a, path, tolerance), deleted(r.path, r.to->0))
        }
}

/// For well-formed values, each addition from `a` to `b` is a deletion from `b`
/// to `a`, at the same path and with the same text.
#[verifier::rlimit(40)]
pub proof fn lemma_added_mirrored(a: JsonValue, b: JsonValue, path: Seq<char>, tolerance: int)
    requires
        a.wf(),
        b.wf(),
    ensures
        added_mirrored(a, b, path, tolerance),
    decreases a,
{
    let d = diff_values(a, b, path, tolerance);
    let e = diff_values(b, a, path, tolerance);
    match (a, b) {
        (JsonValue::Array(x), JsonValue::Array(y)) => {
            let pairs = array_pair_diffs(x, y, path, tolerance);
            let back = array_pair_diffs(y, x, path, tolerance);
            assert(d == pairs.flatten() + array_tail(x, y, path));
            assert(e == back.flatten() + array_tail(y, x, path));
            assert forall|k: int| 0 <= k < d.len() && (#[trigger] d[k]).kind == DiffType::Added implies {
                &&& d[k].to is Some
                &&& has_record(e, deleted(d[k].path, d[k].to->0))
            } by {
                let r = d[k];
                if k < pairs.flatten().len() {
                    assert(r == pairs.flatten()[k]);
                    lemma_flatten_origin(pairs, k);
                    let (i, j) = choose|i: int, j: int|
                        0 <= i < pairs.len() && 0 <= j < pairs[i].len() && pairs.flatten()[k] == pairs[i][j];
                    lemma_added_mirrored(x[i], y[i], path, tolerance);
                    assert(pairs[i] == diff_values(x[i], y[i], path, tolerance));
                    assert(back[i] == diff_values(y[i], x[i], path, tolerance));
                    let m = choose|m: int| 0 <= m < back[i].len() && back[i][m] == deleted(r.path, r.to->0);
                    lemma_flatten_contains(back, i, m);
                    lemma_has_record_concat(back.flatten(), array_tail(y, x, path), deleted(r.path, r.to->0));
                } else {
                    let t = k - pairs.flatten().len();
                    assert(r == array_tail(x, y, path)[t]);
                    assert(x.len() <= y.len());
                    assert(r == added(path, render(y[x.len() + t])));
                    assert(array_tail(y, x, path)[t] == deleted(path, render(y[x.len() + t])));
                    assert(has_record(array_tail(y, x, path), deleted(r.path, r.to->0)));
                    lemma_has_record_concat(back.flatten(), array_tail(y, x, path), deleted(r.path, r.to->0));
                }
            }
        },
        (JsonValue::Object(x), JsonValue::Object(y)) => {
            let base = object_base_side(x, y, path, tolerance);
            let compared = object_compared_side(x, y, path);
            let back_base = object_base_side(y, x, path, tolerance);
            let back_compared = object_compared_side(y, x, path);
            assert(d == base.flatten() + compared.flatten());
            assert(e == back_base.flatten() + back_compared.flatten());
            assert forall|k: int| 0 <= k < d.len() && (#[trigger] d[k]).kind == DiffType::Added implies {
                &&& d[k].to is Some
                &&& has_record(e, deleted(d[k].path, d[k].to->0))
            } by {
                let r = d[k];
                if k < base.flatten().len() {
                    assert(r == base.flatten()[k]);
                    lemma_flatten_origin(base, k);
                    let (i, j) = choose|i: int, j: int|
                        0 <= i < base.len() && 0 <= j < base[i].len() && base.flatten()[k] == base[i][j];
                    let key = x[i].0;
                    if has_key(y, key) {
                        let ki = key_index(y, key);
                        assert(base[i] == diff_values(x[i].1, y[ki].1, path_join(path, key), tolerance));
                        lemma_added_mirrored(x[i].1, y[ki].1, path_join(path, key), tolerance);
                        lemma_key_index_unique(x, i);
                        assert(y[ki].0 == key);
                        assert(back_base[ki] == diff_values(y[ki].1, x[i].1, path_join(path, key), tolerance));
                        let m = choose|m: int|
                            0 <= m < back_base[ki].len() && back_base[ki][m] == deleted(r.path, r.to->0);
                        lemma_flatten_contains(back_base, ki, m);
                        lemma_has_record_concat(back_base.flatten(), back_compared.flatten(), deleted(r.path, r.to->0));
                    } else {
                        assert(base[i] == seq![deleted(path_join(path, key), render(x[i].1))]);
                        assert(false);
                    }
                } else {
                    let t = k - base.flatten().len();
                    assert(r == compared.flatten()[t]);
                    lemma_flatten_origin(compared, t);
                    let (j, m) = choose|j: int, m: int|
                        0 <= j < compared.len() && 0 <= m < compared[j].len() && compared.flatten()[t] == compared[j][m];
                    assert(!has_key(x, y[j].0));
                    assert(r == added(path_join(path, y[j].0), render(y[j].1)));
                    assert(back_base[j] == seq![deleted(path_join(path, y[j].0), render(y[j].1))]);
                    lemma_flatten_contains(back_base, j, 0);
                    lemma_has_record_concat(back_base.flatten(), back_compared.flatten(), deleted(r.path, r.to->0));
                }
            }
        },
        _ => {},
    }
}

/// For two JSON texts `A` and `B`: each `Added` record of `diff(A, B)` is matched
/// by a `Deleted` record of `diff(B, A)` at the same path, with `from` and `to`
/// swapped.
pub proof fn lemma_diff_text_mirrored(base: Seq<char>, compared: Seq<char>, tolerance: int)
    requires
        parse_text(base) is Ok,
        parse_text(compared) is Ok,
    ensures
        added_mirrored(parse_text(base)->Ok_0, parse_text(compared)->Ok_0, Seq::empty(), tolerance),
{
    lemma_parsed_wf(base);
    lemma_parsed_wf(compared);
    lemma_added_mirrored(parse_text(base)->Ok_0, parse_text(compared)->Ok_0, Seq::empty(), tolerance);
}

} // verus!
