//! The best split found for an attribute: its evaluation, and the test it applies.
use vstd::prelude::*;
use crate::eval::{DecisionEval, GainRatio};
use crate::schema::{Test, Value, holds_at, value_at, value_child};

verus! {

/// Split on a boolean attribute: true values go first.
#[derive(Debug)]
pub struct BoolDecision {
    pub decision_eval: DecisionEval,
}

/// Split on an ordinal attribute: values below the threshold go first.
#[derive(Debug)]
pub struct OrdDecision {
    pub decision_eval: DecisionEval,
    pub threshold: i64,
}

/// Split on a categorical attribute: values equal to `val` go first.
#[derive(Debug)]
pub struct EqDecision {
    pub decision_eval: DecisionEval,
    pub val: u64,
}

/// The split chosen inside a pair: on its first field (`A`) or its second (`B`).
#[derive(Debug)]
pub enum Tuple2Decision {
    A(Box<Decision>),
    B(Box<Decision>),
}

/// The split chosen inside an array or record: on the field at `index`.
#[derive(Debug)]
pub struct ArrayDecision {
    pub index: usize,
    pub inner_decision: Box<Decision>,
}

/// The best split found for an attribute, of any kind. A composite decision takes
/// its evaluation from the decision inside it.
#[derive(Debug)]
pub enum Decision {
    Boolean(BoolDecision),
    Ordinal(OrdDecision),
    Categorical(EqDecision),
    Tuple2(Tuple2Decision),
    Array(ArrayDecision),
}

impl Decision {
    /// The evaluation of the split.
    pub open spec fn eval_spec(self) -> DecisionEval
        decreases self,
    {
        match self {
            Decision::Boolean(d) => d.decision_eval,
            Decision::Ordinal(d) => d.decision_eval,
            Decision::Categorical(d) => d.decision_eval,
            Decision::Tuple2(Tuple2Decision::A(inner)) => inner.eval_spec(),
            Decision::Tuple2(Tuple2Decision::B(inner)) => inner.eval_spec(),
            Decision::Array(d) => d.inner_decision.eval_spec(),
        }
    }

    /// The path from the record to the attribute that the split tests.
    pub open spec fn path_spec(self) -> Seq<usize>
        decreases self,
    {
        match self {
            Decision::Tuple2(Tuple2Decision::A(inner)) => seq![0usize] + inner.path_spec(),
            Decision::Tuple2(Tuple2Decision::B(inner)) => seq![1usize] + inner.path_spec(),
            Decision::Array(d) => seq![d.index] + d.inner_decision.path_spec(),
            _ => Seq::empty(),
        }
    }

    /// The test applied to that attribute.
    pub open spec fn test_spec(self) -> Test
        decreases self,
    {
        match self {
            Decision::Boolean(_) => Test::IsTrue,
            Decision::Ordinal(d) => Test::LessThan(d.threshold),
            Decision::Categorical(d) => Test::EqualTo(d.val),
            Decision::Tuple2(Tuple2Decision::A(inner)) => inner.test_spec(),
            Decision::Tuple2(Tuple2Decision::B(inner)) => inner.test_spec(),
            Decision::Array(d) => d.inner_decision.test_spec(),
        }
    }

    /// Whether the record `v` goes to the first branch of the split.
    pub open spec fn spec_holds(self, v: Value) -> bool {
        holds_at(v, self.path_spec(), self.test_spec())
    }

    /// The evaluation of the split.
    pub fn decision_eval(&self) -> (r: DecisionEval)
        ensures
            r == self.eval_spec(),
        decreases self,
    {
        match self {
            Decision::Boolean(d) => d.decision_eval,
            Decision::Ordinal(d) => d.decision_eval,
            Decision::Categorical(d) => d.decision_eval,
            Decision::Tuple2(Tuple2Decision::A(inner)) => inner.decision_eval(),
            Decision::Tuple2(Tuple2Decision::B(inner)) => inner.decision_eval(),
            Decision::Array(d) => d.inner_decision.decision_eval(),
        }
    }

    /// The gain ratio of the split.
    pub fn gain_ratio(&self) -> (r: GainRatio)
        ensures
            r == self.eval_spec().gain_ratio,
    {
        self.decision_eval().gain_ratio
    }

    /// The width of the wider branch of the split.
    pub fn max_branch_width(&self) -> (r: usize)
        ensures
            r == self.eval_spec().max_branch_width,
    {
        self.decision_eval().max_branch_width
    }

    /// The test applied to the attribute.
    pub fn test(&self) -> (r: Test)
        ensures
            r == self.test_spec(),
        decreases self,
    {
        match self {
            Decision::Boolean(_) => Test::IsTrue,
            Decision::Ordinal(d) => Test::LessThan(d.threshold),
            Decision::Categorical(d) => Test::EqualTo(d.val),
            Decision::Tuple2(Tuple2Decision::A(inner)) => inner.test(),
            Decision::Tuple2(Tuple2Decision::B(inner)) => inner.test(),
            Decision::Array(d) => d.inner_decision.test(),
        }
    }

    /// The path from the record to the attribute that the split tests.
    pub fn path(&self) -> (r: Vec<usize>)
        ensures
            r@ == self.path_spec(),
        decreases self,
    {
        let (step, inner) = match self {
            Decision::Tuple2(Tuple2Decision::A(inner)) => (0usize, inner),
            Decision::Tuple2(Tuple2Decision::B(inner)) => (1usize, inner),
            Decision::Array(d) => (d.index, &d.inner_decision),
            _ => {
                return Vec::new();
            },
        };
        let mut r = inner.path();
        r.insert(0, step);
        assert(r@ =~= seq![step] + inner.path_spec());
        r
    }

    /// Whether the record `v` goes to the first branch of the split.
    pub fn holds(&self, v: &Value) -> (r: bool)
        ensures
            r == self.spec_holds(*v),
        decreases self,
    {
        let (step, inner) = match self {
            Decision::Boolean(_) => {
                return Test::IsTrue.holds(v);
            },
            Decision::Ordinal(d) => {
                return Test::LessThan(d.threshold).holds(v);
            },
            Decision::Categorical(d) => {
                return Test::EqualTo(d.val).holds(v);
            },
            Decision::Tuple2(Tuple2Decision::A(inner)) => (0usize, inner),
            Decision::Tuple2(Tuple2Decision::B(inner)) => (1usize, inner),
            Decision::Array(d) => (d.index, &d.inner_decision),
        };
        let ghost p = seq![step] + inner.path_spec();
        assert(p.drop_first() =~= inner.path_spec());
        assert(p[0] == step);
        assert(self.path_spec() == p);
        assert(value_at(*v, p) == match value_child(*v, step as int) {
            Some(c) => value_at(c, inner.path_spec()),
            None => None,
        });
        match v {
            Value::Tuple2(a, b) => {
                if step == 0 {
                    inner.holds(a)
                } else if step == 1 {
                    inner.holds(b)
                } else {
                    false
                }
            },
            Value::Array(vs) => {
                if step < vs.len() {
                    inner.holds(&vs[step])
                } else {
                    false
                }
            },
            _ => false,
        }
    }
}

} // verus!
