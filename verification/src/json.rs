//! JSON values and their text.

use vstd::prelude::*;
use crate::number::{natural, number_ok, number_text, Number, NumberModel};
use crate::table::{ascending, lemma_put_ascending, put, str_before};
use crate::text::{str_eq, views};

verus! {

/// A JSON value.
#[derive(Debug, PartialEq, Eq)]
pub enum Value {
    Null,
    Bool(bool),
    Number(Number),
    String(String),
    Array(Vec<Value>),
    Object(Fields),
}

/// The fields of an object, in ascending key order, each key once.
#[derive(Debug, PartialEq, Eq)]
pub struct Fields {
    fields: Vec<(String, Value)>,
}

/// Mathematical counterpart of [`Value`].
pub enum JsonModel {
    Null,
    Bool(bool),
    Number(NumberModel),
    String(Seq<char>),
    Array(Seq<JsonModel>),
    Object(Seq<(Seq<char>, JsonModel)>),
}

/// The fields of an object.
pub type JsonFields = Seq<(Seq<char>, JsonModel)>;

impl View for Value {
    type V = JsonModel;

    open spec fn view(&self) -> JsonModel
        decreases self,
    {
        match *self {
            Value::Null => JsonModel::Null,
            Value::Bool(b) => JsonModel::Bool(b),
            Value::Number(n) => JsonModel::Number(n@),
            Value::String(s) => JsonModel::String(s@),
            Value::Array(items) => JsonModel::Array(
                Seq::new(
                    items@.len(),
                    |i: int|
                        if 0 <= i < items@.len() {
                            items@[i].view()
                        } else {
                            JsonModel::Null
                        },
                ),
            ),
            Value::Object(f) => JsonModel::Object(
                Seq::<(Seq<char>, JsonModel)>::new(
                    f.pairs().len(),
                    |i: int|
                        if 0 <= i < f.pairs().len() {
                            let value: JsonModel = f.pairs()[i].1.view();
                            (f.pairs()[i].0@, value)
                        } else {
                            (Seq::<char>::empty(), JsonModel::Null)
                        },
                ),
            ),
        }
    }
}

impl View for Fields {
    type V = JsonModel;

    open spec fn view(&self) -> JsonModel {
        Value::Object(*self)@
    }
}

pub broadcast proof fn lemma_array_view(items: Vec<Value>)
    ensures
        #[trigger] (Value::Array(items))@ == JsonModel::Array(views(items@)),
{
    assert((Value::Array(items))@->Array_0 =~= views(items@));
}

broadcast proof fn lemma_fields_view(f: Fields)
    ensures
        #[trigger] f@ == JsonModel::Object(views(f.fields@)),
{
    let m = f@->Object_0;
    assert forall|i: int| 0 <= i < m.len() implies m[i] == views(f.fields@)[i] by {
        assert(f.fields@[i]@ == (f.fields@[i].0@, f.fields@[i].1@));
    }
    assert(m =~= views(f.fields@));
}

// ---------------------------------------------------------------------
// Reading
// ---------------------------------------------------------------------

/// The first field called `k`, from index `i` on.
pub open spec fn member_from(f: JsonFields, i: int, k: Seq<char>) -> Option<JsonModel>
    decreases f.len() - i,
{
    if i < 0 || i >= f.len() {
        None
    } else if f[i].0 == k {
        Some(f[i].1)
    } else {
        member_from(f, i + 1, k)
    }
}

impl JsonModel {
    /// The field `k` of an object.
    pub open spec fn member(self, k: Seq<char>) -> Option<JsonModel> {
        match self {
            JsonModel::Object(f) => member_from(f, 0, k),
            _ => None,
        }
    }

    pub open spec fn text(self) -> Option<Seq<char>> {
        match self {
            JsonModel::String(s) => Some(s),
            _ => None,
        }
    }

    pub open spec fn truth(self) -> Option<bool> {
        match self {
            JsonModel::Bool(b) => Some(b),
            _ => None,
        }
    }

    pub open spec fn whole(self) -> Option<u64> {
        match self {
            JsonModel::Number(n) => crate::number::whole(n),
            _ => None,
        }
    }

    pub open spec fn items(self) -> Option<Seq<JsonModel>> {
        match self {
            JsonModel::Array(a) => Some(a),
            _ => None,
        }
    }

    /// The object with `v` as its field `k`.
    pub open spec fn set(self, k: Seq<char>, v: JsonModel) -> JsonModel {
        with(self, k, v)
    }

    pub open spec fn fields(self) -> Option<JsonFields> {
        match self {
            JsonModel::Object(f) => Some(f),
            _ => None,
        }
    }
}

impl Value {
    pub fn as_str(&self) -> (r: Option<&str>)
        ensures
            match r {
                Some(s) => self@.text() == Some(s@),
                None => self@.text() is None,
            },
    {
        match self {
            Value::String(s) => Some(s.as_str()),
            _ => None,
        }
    }

    /// The number, exactly as it is held.
    pub fn as_number(&self) -> (r: Option<&Number>)
        ensures
            match r {
                Some(n) => self@ == JsonModel::Number(n@),
                None => !(self@ is Number),
            },
    {
        match self {
            Value::Number(n) => Some(n),
            _ => None,
        }
    }

    /// A whole number that double precision holds exactly.
    pub fn as_u64(&self) -> (r: Option<u64>)
        ensures
            r == self@.whole(),
    {
        match self {
            Value::Number(n) => n.as_u64(),
            _ => None,
        }
    }

    pub fn as_bool(&self) -> (r: Option<bool>)
        ensures
            r == self@.truth(),
    {
        match self {
            Value::Bool(b) => Some(*b),
            _ => None,
        }
    }

    pub fn as_object(&self) -> (r: Option<&Vec<(String, Value)>>)
        ensures
            match r {
                Some(f) => self@.fields() == Some(views(f@)) && ascending(views(f@)),
                None => self@.fields() is None,
            },
    {
        broadcast use lemma_fields_view;

        match self {
            Value::Object(f) => {
                proof {
                    use_type_invariant(f);
                }
                Some(&f.fields)
            },
            _ => None,
        }
    }

    pub fn as_array(&self) -> (r: Option<&Vec<Value>>)
        ensures
            match r {
                Some(a) => self@.items() == Some(views(a@)),
                None => self@.items() is None,
            },
    {
        broadcast use lemma_array_view;

        match self {
            Value::Array(a) => Some(a),
            _ => None,
        }
    }

    /// The field `key` of an object.
    pub fn get(&self, key: &str) -> (r: Option<&Value>)
        ensures
            match r {
                Some(v) => self@.member(key@) == Some(v@),
                None => self@.member(key@) is None,
            },
    {
        let f = match self.as_object() {
            Some(f) => f,
            None => {
                return None;
            },
        };
        let ghost all = views(f@);
        let mut i: usize = 0;
        while i < f.len()
            invariant
                i <= f.len(),
                all == views(f@),
                self@.fields() == Some(all),
                self@.member(key@) == member_from(all, i as int, key@),
            decreases f.len() - i,
        {
            assert(all[i as int] == f@[i as int]@);
            if str_eq(f[i].0.as_str(), key) {
                return Some(&f[i].1);
            }
            i += 1;
        }
        None
    }

    /// A copy.
    pub fn dup(&self) -> (r: Value)
        ensures
            r@ == self@,
        decreases self,
    {
        broadcast use {lemma_array_view, lemma_fields_view};

        match self {
            Value::Null => Value::Null,
            Value::Bool(b) => Value::Bool(*b),
            Value::Number(n) => Value::Number(n.dup()),
            Value::String(s) => Value::String(s.clone()),
            Value::Array(items) => {
                let mut out: Vec<Value> = Vec::new();
                let mut i: usize = 0;
                while i < items.len()
                    invariant
                        i <= items.len(),
                        *self == Value::Array(*items),
                        out@.len() == i,
                        forall|k: int| 0 <= k < i ==> (#[trigger] out@[k])@ == items@[k]@,
                    decreases items.len() - i,
                {
                    assert(decreases_to!(*self => self->Array_0));
                    assert(decreases_to!(*items => items[i as int]));
                    out.push(items[i].dup());
                    i += 1;
                }
                assert(views(out@) =~= views(items@));
                Value::Array(out)
            },
            Value::Object(f) => {
                proof {
                    use_type_invariant(f);
                }
                let fields = &f.fields;
                let mut out: Vec<(String, Value)> = Vec::new();
                let mut i: usize = 0;
                while i < fields.len()
                    invariant
                        i <= fields.len(),
                        *self == Value::Object(*f),
                        f.fields == *fields,
                        out@.len() == i,
                        forall|k: int| 0 <= k < i ==> (#[trigger] out@[k])@ == fields@[k]@,
                    decreases fields.len() - i,
                {
                    let k = fields[i].0.clone();
                    assert(decreases_to!(*self => self->Object_0));
                    assert(decreases_to!(*f => f.fields));
                    assert(decreases_to!(*fields => fields[i as int]));
                    let v = fields[i].1.dup();
                    out.push((k, v));
                    i += 1;
                }
                assert(views(out@) =~= views(fields@));
                let copy = Fields { fields: out };
                assert(copy@ == f@);
                Value::Object(copy)
            },
        }
    }
}

impl Clone for Value {
    fn clone(&self) -> (r: Self)
        ensures
            r@ == self@,
    {
        self.dup()
    }
}

// ---------------------------------------------------------------------
// Building
// ---------------------------------------------------------------------

/// The object without fields.
pub open spec fn empty_object() -> JsonModel {
    JsonModel::Object(Seq::empty())
}

/// The object with `v` as its field `k`.
pub open spec fn with(o: JsonModel, k: Seq<char>, v: JsonModel) -> JsonModel {
    match o {
        JsonModel::Object(f) => JsonModel::Object(put(f, k, v)),
        _ => o,
    }
}

/// The object of the first `n` pairs; of two with one key, the last counts.
pub open spec fn object_to(pairs: JsonFields, n: int) -> JsonModel
    decreases n,
{
    if n <= 0 {
        empty_object()
    } else {
        with(object_to(pairs, n - 1), pairs[n - 1].0, pairs[n - 1].1)
    }
}

/// In ascending fields, the first one called `k` is the one found by rank.
pub proof fn lemma_member_lookup(f: JsonFields, k: Seq<char>)
    requires
        crate::table::ascending(f),
    ensures
        member_from(f, 0, k) == crate::table::lookup(f, k),
{
    lemma_member_from(f, 0, k);
}

proof fn lemma_member_from(f: JsonFields, i: int, k: Seq<char>)
    requires
        crate::table::ascending(f),
        0 <= i <= f.len(),
        forall|j: int| 0 <= j < i ==> (#[trigger] f[j]).0 != k,
    ensures
        member_from(f, i, k) == crate::table::lookup(f, k),
    decreases f.len() - i,
{
    if i < f.len() {
        if f[i].0 == k {
            crate::table::lemma_has(f, i);
        } else {
            lemma_member_from(f, i + 1, k);
        }
    } else if crate::table::present(f, k) {
        let r = crate::table::rank(f, k) as int;
        assert(f[r].0 == k);
    }
}

/// Appends or replaces a field.
fn set_field(f: &mut Vec<(String, Value)>, k: &str, v: Value)
    ensures
        views(final(f)@) == put(views(old(f)@), k@, v@),
{
    let mut i: usize = 0;
    let ghost all = views(f@);
    assert(all.skip(0) =~= all);
    while i < f.len() && str_before(f[i].0.as_str(), k)
        invariant
            i <= f.len(),
            *f == *old(f),
            all == views(f@),
            crate::table::rank(all, k@) == i + crate::table::rank(all.skip(i as int), k@),
        decreases f.len() - i,
    {
        assert(all.skip(i as int)[0] == f@[i as int]@);
        assert(all.skip(i as int).skip(1) =~= all.skip(i + 1));
        i += 1;
    }
    proof {
        if i < f.len() {
            assert(all.skip(i as int)[0] == f@[i as int]@);
            assert(all[i as int] == f@[i as int]@);
        }
    }
    let found = i < f.len() && str_eq(f[i].0.as_str(), k);
    let entry = (k.to_owned(), v);
    let ghost ev = entry@;
    if found {
        f[i] = entry;
        assert(views(f@) =~= all.update(i as int, ev));
    } else {
        f.insert(i, entry);
        assert(views(f@) =~= all.insert(i as int, ev));
    }
}

impl Fields {
    /// The fields, in order.
    pub closed spec fn pairs(&self) -> Seq<(String, Value)> {
        self.fields@
    }

    /// The fields of every object in existence are in order.
    #[verifier::type_invariant]
    spec fn inv(self) -> bool {
        ascending(views(self.fields@))
    }

    /// No fields.
    pub fn new() -> (r: Fields)
        ensures
            r@ == empty_object(),
    {
        broadcast use lemma_fields_view;

        let fields: Vec<(String, Value)> = Vec::new();
        assert(views(fields@) =~= Seq::empty());
        Fields { fields }
    }

    /// Writes a field.
    pub fn set(&mut self, k: &str, v: Value)
        ensures
            final(self)@ == with(old(self)@, k@, v@),
    {
        broadcast use lemma_fields_view;

        proof {
            use_type_invariant(&*self);
            lemma_put_ascending(views(self.fields@), k@, v@);
        }
        let mut fields: Vec<(String, Value)> = Vec::new();
        assert(views(fields@) =~= Seq::<(Seq<char>, JsonModel)>::empty());
        std::mem::swap(&mut fields, &mut self.fields);
        set_field(&mut fields, k, v);
        self.fields = fields;
    }

    /// The finished object.
    pub fn done(self) -> (r: Value)
        ensures
            r@ == self@,
    {
        Value::Object(self)
    }
}

/// The object of some pairs; of two with one key, the last counts.
pub fn obj(pairs: Vec<(&str, Value)>) -> (r: Value)
    ensures
        r@ == object_to(views(pairs@), pairs@.len() as int),
{
    let ghost all = pairs@;
    let mut pairs = pairs;
    let mut back: Vec<(&str, Value)> = Vec::new();
    while pairs.len() > 0
        invariant
            pairs@.len() + back@.len() == all.len(),
            pairs@ == all.take(pairs@.len() as int),
            forall|k: int| 0 <= k < back@.len() ==> back@[k] == all[all.len() - 1 - k],
        decreases pairs.len(),
    {
        match pairs.pop() {
            Some(p) => {
                back.push(p);
                assert(pairs@ =~= all.take(pairs@.len() as int));
            },
            None => {},
        }
    }
    let mut out = Fields::new();
    while back.len() > 0
        invariant
            back@.len() <= all.len(),
            forall|k: int| 0 <= k < back@.len() ==> back@[k] == all[all.len() - 1 - k],
            out@ == object_to(views(all), all.len() - back@.len()),
        decreases back.len(),
    {
        let ghost n = (all.len() - back@.len()) as int;
        match back.pop() {
            Some((k, v)) => {
                assert(views(all)[n] == (k@, v@));
                out.set(k, v);
            },
            None => {},
        }
    }
    out.done()
}

/// A string.
pub fn s(text: &str) -> (r: Value)
    ensures
        r@ == JsonModel::String(text@),
{
    Value::String(text.to_owned())
}

/// A whole number.
pub fn n(num: u64) -> (r: Value)
    ensures
        r@ == number(num as nat),
{
    Value::Number(Number::from_u64(num))
}

/// A whole number as a value.
pub open spec fn number(x: nat) -> JsonModel {
    JsonModel::Number(natural(x))
}

/// An array.
pub fn arr(items: Vec<Value>) -> (r: Value)
    ensures
        r@ == JsonModel::Array(views(items@)),
{
    proof {
        lemma_array_view(items);
    }
    Value::Array(items)
}

/// An optional text: a string or null.
pub open spec fn opt_text(t: Option<Seq<char>>) -> JsonModel {
    match t {
        Some(x) => JsonModel::String(x),
        None => JsonModel::Null,
    }
}

/// An optional text: a string or null.
pub fn opt_s(t: &Option<String>) -> (r: Value)
    ensures
        r@ == opt_text(crate::text::opt_view(*t)),
{
    match t {
        Some(x) => s(x.as_str()),
        None => Value::Null,
    }
}

/// Strings as an array.
pub open spec fn texts(l: Seq<Seq<char>>) -> JsonModel {
    JsonModel::Array(Seq::new(l.len(), |i: int| JsonModel::String(l[i])))
}

/// Strings as an array.
pub fn strings(l: &Vec<String>) -> (r: Value)
    ensures
        r@ == texts(views(l@)),
{
    let mut out: Vec<Value> = Vec::new();
    let mut i: usize = 0;
    while i < l.len()
        invariant
            i <= l.len(),
            out@.len() == i,
            forall|k: int| 0 <= k < i ==> (#[trigger] out@[k])@ == JsonModel::String(l@[k]@),
        decreases l.len() - i,
    {
        out.push(s(l[i].as_str()));
        i += 1;
    }
    assert(views(out@) =~= texts(views(l@))->Array_0);
    arr(out)
}

// ---------------------------------------------------------------------
// Writing
// ---------------------------------------------------------------------

/// One character inside quotes.
pub open spec fn escaped(c: char) -> Seq<char> {
    if c == '"' {
        "\\\""@
    } else if c == '\\' {
        "\\\\"@
    } else if c == '\n' {
        "\\n"@
    } else if c == '\r' {
        "\\r"@
    } else if c == '\t' {
        "\\t"@
    } else if (c as u32) < 0x20 {
        "\\u00"@ + crate::text::hex_byte(c as u8)
    } else {
        seq![c]
    }
}

/// The first `n` characters inside quotes.
pub open spec fn escaped_to(t: Seq<char>, n: int) -> Seq<char>
    decreases n,
{
    if n <= 0 {
        Seq::empty()
    } else {
        escaped_to(t, n - 1) + escaped(t[n - 1])
    }
}

/// A string with its quotes.
pub open spec fn string_text(t: Seq<char>) -> Seq<char> {
    "\""@ + escaped_to(t, t.len() as int) + "\""@
}

/// A value as compact JSON.
pub open spec fn json_text(v: JsonModel) -> Seq<char>
    decreases v, 1int, 0int,
{
    match v {
        JsonModel::Null => "null"@,
        JsonModel::Bool(b) => if b {
            "true"@
        } else {
            "false"@
        },
        JsonModel::Number(x) => number_text(x),
        JsonModel::String(t) => string_text(t),
        JsonModel::Array(a) => "["@ + items_text(v, a.len() as int) + "]"@,
        JsonModel::Object(f) => "{"@ + fields_text(v, f.len() as int) + "}"@,
    }
}

/// The first `n` items of an array, with commas between them.
pub open spec fn items_text(v: JsonModel, n: int) -> Seq<char>
    decreases v, 0int, n,
{
    match v {
        JsonModel::Array(a) => if n <= 0 || n > a.len() {
            Seq::empty()
        } else {
            items_text(v, n - 1) + (if n > 1 {
                ","@
            } else {
                Seq::empty()
            }) + json_text(a[n - 1])
        },
        _ => Seq::empty(),
    }
}

/// The first `n` fields of an object, with commas between them.
pub open spec fn fields_text(v: JsonModel, n: int) -> Seq<char>
    decreases v, 0int, n,
{
    match v {
        JsonModel::Object(f) => if n <= 0 || n > f.len() {
            Seq::empty()
        } else {
            fields_text(v, n - 1) + (if n > 1 {
                ","@
            } else {
                Seq::empty()
            }) + string_text(f[n - 1].0) + ":"@ + json_text(f[n - 1].1)
        },
        _ => Seq::empty(),
    }
}

fn write_string(out: &mut String, t: &str)
    ensures
        final(out)@ == old(out)@ + string_text(t@),
{
    let chars = crate::text::chars_of(t);
    out.push_str("\"");
    let ghost head = out@;
    let mut i: usize = 0;
    assert(out@ =~= head + escaped_to(t@, 0));
    while i < chars.len()
        invariant
            i <= chars.len(),
            chars@ == t@,
            out@ == head + escaped_to(t@, i as int),
        decreases chars.len() - i,
    {
        let c = chars[i];
        let ghost before = out@;
        if c == '"' {
            out.push_str("\\\"");
        } else if c == '\\' {
            out.push_str("\\\\");
        } else if c == '\n' {
            out.push_str("\\n");
        } else if c == '\r' {
            out.push_str("\\r");
        } else if c == '\t' {
            out.push_str("\\t");
        } else if (c as u32) < 0x20 {
            out.push_str("\\u00");
            crate::text::push_hex_byte(out, c as u8);
        } else {
            out.push(c);
        }
        assert(out@ =~= before + escaped(c));
        i += 1;
        assert(out@ =~= head + escaped_to(t@, i as int));
    }
    out.push_str("\"");
    assert(out@ =~= old(out)@ + string_text(t@));
}

/// A value as every value is: numbers of double precision, and the fields of
/// objects in ascending order.
pub open spec fn sound(v: JsonModel) -> bool
    decreases v,
{
    match v {
        JsonModel::Number(m) => number_ok(m),
        JsonModel::Array(a) => forall|i: int| 0 <= i < a.len() ==> sound(#[trigger] a[i]),
        JsonModel::Object(f) => ascending(f) && forall|i: int|
            0 <= i < f.len() ==> sound((#[trigger] f[i]).1),
        _ => true,
    }
}

fn write_value(out: &mut String, value: &Value)
    ensures
        final(out)@ == old(out)@ + json_text(value@),
        sound(value@),
    decreases value,
{
    match value {
        Value::Null => out.push_str("null"),
        Value::Bool(b) => {
            if *b {
                out.push_str("true");
            } else {
                out.push_str("false");
            }
        },
        Value::Number(x) => out.push_str(x.text().as_str()),
        Value::String(t) => write_string(out, t.as_str()),
        Value::Array(items) => {
            proof {
                lemma_array_view(*items);
            }
            let ghost m = value@;
            out.push_str("[");
            let ghost head = out@;
            let mut i: usize = 0;
            assert(out@ =~= head + items_text(m, 0));
            while i < items.len()
                invariant
                    i <= items.len(),
                    *value == Value::Array(*items),
                    m == JsonModel::Array(views(items@)),
                    out@ == head + items_text(m, i as int),
                    forall|k: int| 0 <= k < i ==> sound(#[trigger] views(items@)[k]),
                decreases items.len() - i,
            {
                assert(views(items@)[i as int] == items@[i as int]@);
                if i > 0 {
                    out.push_str(",");
                }
                assert(decreases_to!(*value => value->Array_0));
                assert(decreases_to!(*items => items[i as int]));
                write_value(out, &items[i]);
                i += 1;
                assert(out@ =~= head + items_text(m, i as int));
            }
            out.push_str("]");
            assert(out@ =~= old(out)@ + json_text(m));
        },
        Value::Object(f) => {
            proof {
                lemma_fields_view(*f);
                use_type_invariant(f);
            }
            let fields = &f.fields;
            let ghost m = value@;
            out.push_str("{");
            let ghost head = out@;
            let mut i: usize = 0;
            assert(out@ =~= head + fields_text(m, 0));
            while i < fields.len()
                invariant
                    i <= fields.len(),
                    *value == Value::Object(*f),
                    f.fields == *fields,
                    m == JsonModel::Object(views(fields@)),
                    out@ == head + fields_text(m, i as int),
                    forall|k: int| 0 <= k < i ==> sound((#[trigger] views(fields@)[k]).1),
                decreases fields.len() - i,
            {
                assert(views(fields@)[i as int] == fields@[i as int]@);
                if i > 0 {
                    out.push_str(",");
                }
                write_string(out, fields[i].0.as_str());
                out.push_str(":");
                assert(decreases_to!(*value => value->Object_0));
                assert(decreases_to!(*f => f.fields));
                assert(decreases_to!(*fields => fields[i as int]));
                write_value(out, &fields[i].1);
                i += 1;
                assert(out@ =~= head + fields_text(m, i as int));
            }
            out.push_str("}");
            assert(out@ =~= old(out)@ + json_text(m));
        },
    }
}

/// A value as compact JSON, the same text for the same value.
pub fn to_string(value: &Value) -> (r: String)
    ensures
        r@ == json_text(value@),
        sound(value@),
{
    let mut out = String::new();
    write_value(&mut out, value);
    assert(out@ =~= json_text(value@));
    out
}

} // verus!
