//! Records, their attribute schema, and attribute paths.
use vstd::prelude::*;

verus! {

broadcast use vstd::std_specs::vec::group_vec_axioms;

/// The declared shape of a record: each attribute is boolean, ordinal (totally
/// ordered, split by a threshold), categorical (compared for equality only), or a
/// composite whose fields are attributes in turn.
#[derive(Debug, PartialEq, Eq)]
pub enum Schema {
    Boolean,
    Ordinal,
    Categorical,
    /// A pair; its fields are reached by the path steps 0 and 1.
    Tuple2(Box<Schema>, Box<Schema>),
    /// A fixed-size array or a nested record; field `i` is reached by the path step `i`.
    Array(Vec<Schema>),
}

/// A record, or an attribute value inside one.
#[derive(Debug, PartialEq, Eq)]
pub enum Value {
    Boolean(bool),
    Ordinal(i64),
    Categorical(u64),
    Tuple2(Box<Value>, Box<Value>),
    Array(Vec<Value>),
}

/// The test that a split applies to the attribute it was found for.
#[derive(Clone, Copy, Debug, PartialEq, Eq, Structural)]
pub enum Test {
    /// The boolean attribute is `true`.
    IsTrue,
    /// The ordinal attribute is below the threshold.
    LessThan(i64),
    /// The categorical attribute equals the value.
    EqualTo(u64),
}

/// Whether a value has the top-level form that a schema asks for (for an array: the
/// same number of fields).
pub open spec fn same_form(v: Value, s: Schema) -> bool {
    match (v, s) {
        (Value::Boolean(_), Schema::Boolean) => true,
        (Value::Ordinal(_), Schema::Ordinal) => true,
        (Value::Categorical(_), Schema::Categorical) => true,
        (Value::Tuple2(_, _), Schema::Tuple2(_, _)) => true,
        (Value::Array(vs), Schema::Array(ss)) => vs.len() == ss.len(),
        _ => false,
    }
}

/// The field of a composite value that the path step `i` selects.
pub open spec fn value_child(v: Value, i: int) -> Option<Value> {
    match v {
        Value::Tuple2(a, b) => if i == 0 {
            Some(*a)
        } else if i == 1 {
            Some(*b)
        } else {
            None
        },
        Value::Array(vs) => if 0 <= i < vs.len() {
            Some(vs@[i])
        } else {
            None
        },
        _ => None,
    }
}

/// The field of a composite schema that the path step `i` selects.
pub open spec fn schema_child(s: Schema, i: int) -> Option<Schema> {
    match s {
        Schema::Tuple2(a, b) => if i == 0 {
            Some(*a)
        } else if i == 1 {
            Some(*b)
        } else {
            None
        },
        Schema::Array(ss) => if 0 <= i < ss.len() {
            Some(ss@[i])
        } else {
            None
        },
        _ => None,
    }
}

/// The value reached from `v` by following `path`.
pub open spec fn value_at(v: Value, path: Seq<usize>) -> Option<Value>
    decreases path.len(),
{
    if path.len() == 0 {
        Some(v)
    } else {
        match value_child(v, path[0] as int) {
            Some(c) => value_at(c, path.drop_first()),
            None => None,
        }
    }
}

/// The schema reached from `s` by following `path`.
pub open spec fn schema_at(s: Schema, path: Seq<usize>) -> Option<Schema>
    decreases path.len(),
{
    if path.len() == 0 {
        Some(s)
    } else {
        match schema_child(s, path[0] as int) {
            Some(c) => schema_at(c, path.drop_first()),
            None => None,
        }
    }
}

/// Whether `v` has the shape that `s` declares, at every path of `s`.
pub open spec fn conforms(v: Value, s: Schema) -> bool {
    forall|path: Seq<usize>|
        #![trigger schema_at(s, path)]
        schema_at(s, path) is Some ==> {
            &&& value_at(v, path) is Some
            &&& same_form(value_at(v, path)->0, schema_at(s, path)->0)
        }
}

/// Whether the test applies to `v` and is met by it.
pub open spec fn test_holds(t: Test, v: Value) -> bool {
    match (t, v) {
        (Test::IsTrue, Value::Boolean(b)) => b,
        (Test::LessThan(x), Value::Ordinal(y)) => y < x,
        (Test::EqualTo(x), Value::Categorical(y)) => y == x,
        _ => false,
    }
}

/// Whether the value at `path` in `v` meets the test.
pub open spec fn holds_at(v: Value, path: Seq<usize>, t: Test) -> bool {
    match value_at(v, path) {
        Some(w) => test_holds(t, w),
        None => false,
    }
}

/// Following `a` and then `b` is following `a + b`.
pub proof fn lemma_value_at_concat(v: Value, a: Seq<usize>, b: Seq<usize>)
    ensures
        value_at(v, a + b) == (match value_at(v, a) {
            Some(w) => value_at(w, b),
            None => None,
        }),
    decreases a.len(),
{
    if a.len() == 0 {
        assert(a + b =~= b);
    } else {
        assert((a + b).drop_first() =~= a.drop_first() + b);
        match value_child(v, a[0] as int) {
            Some(c) => lemma_value_at_concat(c, a.drop_first(), b),
            None => {},
        }
    }
}

/// Following `a` and then `b` is following `a + b`.
pub proof fn lemma_schema_at_concat(s: Schema, a: Seq<usize>, b: Seq<usize>)
    ensures
        schema_at(s, a + b) == (match schema_at(s, a) {
            Some(t) => schema_at(t, b),
            None => None,
        }),
    decreases a.len(),
{
    if a.len() == 0 {
        assert(a + b =~= b);
    } else {
        assert((a + b).drop_first() =~= a.drop_first() + b);
        match schema_child(s, a[0] as int) {
            Some(c) => lemma_schema_at_concat(c, a.drop_first(), b),
            None => {},
        }
    }
}

/// A value that conforms to a schema has, at every path of the schema, a value that
/// conforms to the schema there.
pub proof fn lemma_conforms_at(v: Value, s: Schema, path: Seq<usize>)
    requires
        conforms(v, s),
        schema_at(s, path) is Some,
    ensures
        value_at(v, path) is Some,
        conforms(value_at(v, path)->0, schema_at(s, path)->0),
{
    let w = value_at(v, path)->0;
    let t = schema_at(s, path)->0;
    assert(value_at(v, path) is Some) by {
        assert(schema_at(s, path) matches Some(t));
    }
    assert forall|q: Seq<usize>| #[trigger] schema_at(t, q) is Some implies {
        &&& value_at(w, q) is Some
        &&& same_form(value_at(w, q)->0, schema_at(t, q)->0)
    } by {
        lemma_schema_at_concat(s, path, q);
        lemma_value_at_concat(v, path, q);
        assert(schema_at(s, path + q) is Some);
    }
}

impl Value {
    /// The value reached by following `path`, if the path leads anywhere.
    pub fn at<'a>(&'a self, path: &Vec<usize>) -> (r: Option<&'a Value>)
        ensures
            r matches Some(w) ==> value_at(*self, path@) == Some(*w),
            r is None ==> value_at(*self, path@) is None,
    {
        let mut cur: &Value = self;
        let mut i: usize = 0;
        let n = path.len();
        assert(path@.subrange(0, n as int) =~= path@);
        while i < n
            invariant
                n == path@.len(),
                i <= n,
                value_at(*self, path@) == value_at(*cur, path@.subrange(i as int, n as int)),
            decreases n - i,
        {
            let step = path[i];
            assert(path@.subrange(i as int, n as int).drop_first() =~= path@.subrange(
                i + 1,
                n as int,
            ));
            match cur {
                Value::Tuple2(a, b) => {
                    if step == 0 {
                        cur = a;
                    } else if step == 1 {
                        cur = b;
                    } else {
                        return None;
                    }
                },
                Value::Array(vs) => {
                    if step < vs.len() {
                        cur = &vs[step];
                    } else {
                        return None;
                    }
                },
                _ => {
                    return None;
                },
            }
            i += 1;
        }
        assert(path@.subrange(n as int, n as int) =~= Seq::<usize>::empty());
        Some(cur)
    }
}

impl Test {
    /// Whether `v` meets the test; a value of another kind does not.
    pub fn holds(&self, v: &Value) -> (r: bool)
        ensures
            r == test_holds(*self, *v),
    {
        match (self, v) {
            (Test::IsTrue, Value::Boolean(b)) => *b,
            (Test::LessThan(x), Value::Ordinal(y)) => *y < *x,
            (Test::EqualTo(x), Value::Categorical(y)) => *y == *x,
            _ => false,
        }
    }
}

/// Whether `v` has the shape that `s` declares.
pub fn value_conforms(v: &Value, s: &Schema) -> (r: bool)
    ensures
        r == conforms(*v, *s),
    decreases s,
{
    proof {
        lemma_conforms_unfold(*v, *s);
    }
    match s {
        Schema::Boolean => matches!(v, Value::Boolean(_)),
        Schema::Ordinal => matches!(v, Value::Ordinal(_)),
        Schema::Categorical => matches!(v, Value::Categorical(_)),
        Schema::Tuple2(sa, sb) => match v {
            Value::Tuple2(a, b) => {
                let r = value_conforms(a, sa) && value_conforms(b, sb);
                assert(schema_child(*s, 0) == Some(**sa));
                assert(schema_child(*s, 1) == Some(**sb));
                r
            },
            _ => false,
        },
        Schema::Array(ss) => match v {
            Value::Array(vs) => {
                if vs.len() != ss.len() {
                    return false;
                }
                let mut i: usize = 0;
                while i < ss.len()
                    invariant
                        i <= ss.len() == vs.len(),
                        *s is Array && (*s)->Array_0 == *ss,
                        *v is Array && (*v)->Array_0 == *vs,
                        forall|j: int| 0 <= j < i ==> conforms(#[trigger] vs@[j], ss@[j]),
                    decreases ss.len() - i,
                {
                    proof {
                        lemma_array_field_decreases(*s, i as int);
                    }
                    if !value_conforms(&vs[i], &ss[i]) {
                        proof {
                            lemma_conforms_unfold(*v, *s);
                            assert(schema_child(*s, i as int) == Some(ss@[i as int]));
                            assert(value_child(*v, i as int) == Some(vs@[i as int]));
                        }
                        return false;
                    }
                    i += 1;
                }
                assert forall|j: int| #[trigger] schema_child(*s, j) is Some implies {
                    &&& value_child(*v, j) is Some
                    &&& conforms(value_child(*v, j)->0, schema_child(*s, j)->0)
                } by {
                    assert(conforms(vs@[j], ss@[j]));
                }
                true
            },
            _ => false,
        },
    }
}

/// A field of an array schema is smaller than the schema.
proof fn lemma_array_field_decreases(s: Schema, i: int)
    requires
        s is Array,
        0 <= i < s->Array_0.len(),
    ensures
        decreases_to!(s => s->Array_0[i]),
{
    let ss = s->Array_0;
    assert(decreases_to!(s => ss));
}

/// `conforms` read one level at a time: the forms agree, and each field conforms to
/// its schema.
pub proof fn lemma_conforms_unfold(v: Value, s: Schema)
    ensures
        conforms(v, s) <==> (same_form(v, s) && forall|i: int|
            #![trigger schema_child(s, i)]
            schema_child(s, i) is Some ==> {
                &&& value_child(v, i) is Some
                &&& conforms(value_child(v, i)->0, schema_child(s, i)->0)
            }),
{
    let empty = Seq::<usize>::empty();
    if conforms(v, s) {
        assert(schema_at(s, empty) == Some(s));
        assert(value_at(v, empty) == Some(v));
        assert forall|i: int| #[trigger] schema_child(s, i) is Some implies {
            &&& value_child(v, i) is Some
            &&& conforms(value_child(v, i)->0, schema_child(s, i)->0)
        } by {
            let p = seq![i as usize];
            assert(p.drop_first() =~= empty);
            assert(p[0] == i as usize);
            reveal_with_fuel(schema_at, 2);
            reveal_with_fuel(value_at, 2);
            assert(schema_at(s, p) == Some(schema_child(s, i)->0));
            lemma_conforms_at(v, s, p);
            assert(value_at(v, p) == value_child(v, i));
        }
    }
    if same_form(v, s) && forall|i: int|
        #![trigger schema_child(s, i)]
        schema_child(s, i) is Some ==> {
            &&& value_child(v, i) is Some
            &&& conforms(value_child(v, i)->0, schema_child(s, i)->0)
        } {
        assert forall|path: Seq<usize>| #[trigger] schema_at(s, path) is Some implies {
            &&& value_at(v, path) is Some
            &&& same_form(value_at(v, path)->0, schema_at(s, path)->0)
        } by {
            if path.len() > 0 {
                let i = path[0] as int;
                assert(schema_child(s, i) is Some);
                let c = schema_child(s, i)->0;
                let w = value_child(v, i)->0;
                assert(conforms(w, c));
                assert(schema_at(c, path.drop_first()) is Some);
            }
        }
    }
}

} // verus!
