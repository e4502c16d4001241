use vstd::prelude::*;

verus! {

/// Mathematical model of a [`Value`]: strings are character sequences,
/// timestamps are unbounded integers (seconds since the Unix epoch), and the
/// two collection variants are sequences, so that a map keeps the order of
/// its entries as the configuration file gave them.
#[verifier::ext_equal]
pub enum ValueView {
    Bool(bool),
    Str(Seq<char>),
    Int(int),
    Date(int),
    Mapping(Seq<(Seq<char>, ValueView)>),
    List(Seq<ValueView>),
}

/// A tagged union of the scalar and collection values a log record or a
/// configuration argument can hold. Timestamps are seconds since the Unix
/// epoch; a map is an ordered list of key/value entries.
#[derive(Debug, PartialEq, Eq)]
pub enum Value {
    Bool(bool),
    Str(String),
    Int(i64),
    Date(i64),
    Mapping(Vec<(String, Value)>),
    List(Vec<Value>),
}

pub open spec fn val_view(v: Value) -> ValueView
    decreases v,
{
    match v {
        Value::Bool(b) => ValueView::Bool(b),
        Value::Str(s) => ValueView::Str(s@),
        Value::Int(i) => ValueView::Int(i as int),
        Value::Date(d) => ValueView::Date(d as int),
        Value::Mapping(m) => ValueView::Mapping(pairs_view(m@)),
        Value::List(l) => ValueView::List(vals_view(l@)),
    }
}

pub open spec fn pairs_view(s: Seq<(String, Value)>) -> Seq<(Seq<char>, ValueView)>
    decreases s,
{
    if s.len() == 0 {
        Seq::empty()
    } else {
        pairs_view(s.drop_last()).push((s.last().0@, val_view(s.last().1)))
    }
}

pub open spec fn vals_view(s: Seq<Value>) -> Seq<ValueView>
    decreases s,
{
    if s.len() == 0 {
        Seq::empty()
    } else {
        vals_view(s.drop_last()).push(val_view(s.last()))
    }
}

impl View for Value {
    type V = ValueView;

    open spec fn view(&self) -> ValueView {
        val_view(*self)
    }
}

pub proof fn lemma_pairs_view(s: Seq<(String, Value)>)
    ensures
        pairs_view(s).len() == s.len(),
        forall|j: int|
            0 <= j < s.len() ==> #[trigger] pairs_view(s)[j] == (s[j].0@, val_view(s[j].1)),
    decreases s,
{
    if s.len() > 0 {
        lemma_pairs_view(s.drop_last());
    }
}

pub proof fn lemma_vals_view(s: Seq<Value>)
    ensures
        vals_view(s).len() == s.len(),
        forall|j: int| 0 <= j < s.len() ==> #[trigger] vals_view(s)[j] == val_view(s[j]),
    decreases s,
{
    if s.len() > 0 {
        lemma_vals_view(s.drop_last());
    }
}

/// Structural equality of two values, decided exactly by their models.
pub fn value_eq(a: &Value, b: &Value) -> (r: bool)
    ensures
        r == (a@ == b@),
    decreases *a,
{
    match (a, b) {
        (Value::Bool(x), Value::Bool(y)) => *x == *y,
        (Value::Str(x), Value::Str(y)) => x.eq(y),
        (Value::Int(x), Value::Int(y)) => *x == *y,
        (Value::Date(x), Value::Date(y)) => *x == *y,
        (Value::Mapping(x), Value::Mapping(y)) => map_entries_eq(x, y),
        (Value::List(x), Value::List(y)) => list_eq(x, y),
        _ => false,
    }
}

fn map_entries_eq(x: &Vec<(String, Value)>, y: &Vec<(String, Value)>) -> (r: bool)
    ensures
        r == (pairs_view(x@) == pairs_view(y@)),
    decreases x,
{
    proof {
        lemma_pairs_view(x@);
        lemma_pairs_view(y@);
    }
    if x.len() != y.len() {
        return false;
    }
    let mut i: usize = 0;
    while i < x.len()
        invariant
            i <= x@.len(),
            x@.len() == y@.len(),
            pairs_view(x@).len() == x@.len(),
            pairs_view(y@).len() == y@.len(),
            forall|j: int|
                0 <= j < x@.len() ==> #[trigger] pairs_view(x@)[j] == (
                    x@[j].0@,
                    val_view(x@[j].1),
                ),
            forall|j: int|
                0 <= j < y@.len() ==> #[trigger] pairs_view(y@)[j] == (
                    y@[j].0@,
                    val_view(y@[j].1),
                ),
            forall|j: int| 0 <= j < i ==> pairs_view(x@)[j] == pairs_view(y@)[j],
        decreases x@.len() - i,
    {
        let keys_eq: bool = x[i].0.eq(&y[i].0);
        if !keys_eq {
            proof {
                assert(pairs_view(x@)[i as int] != pairs_view(y@)[i as int]);
            }
            return false;
        }
        if !value_eq(&x[i].1, &y[i].1) {
            proof {
                assert(pairs_view(x@)[i as int] != pairs_view(y@)[i as int]);
            }
            return false;
        }
        proof {
            assert(pairs_view(x@)[i as int] == pairs_view(y@)[i as int]);
        }
        i = i + 1;
    }
    proof {
        assert(pairs_view(x@) =~= pairs_view(y@));
    }
    true
}

fn list_eq(x: &Vec<Value>, y: &Vec<Value>) -> (r: bool)
    ensures
        r == (vals_view(x@) == vals_view(y@)),
    decreases x,
{
    proof {
        lemma_vals_view(x@);
        lemma_vals_view(y@);
    }
    if x.len() != y.len() {
        return false;
    }
    let mut i: usize = 0;
    while i < x.len()
        invariant
            i <= x@.len(),
            x@.len() == y@.len(),
            vals_view(x@).len() == x@.len(),
            vals_view(y@).len() == y@.len(),
            forall|j: int| 0 <= j < x@.len() ==> #[trigger] vals_view(x@)[j] == val_view(x@[j]),
            forall|j: int| 0 <= j < y@.len() ==> #[trigger] vals_view(y@)[j] == val_view(y@[j]),
            forall|j: int| 0 <= j < i ==> vals_view(x@)[j] == vals_view(y@)[j],
        decreases x@.len() - i,
    {
        if !value_eq(&x[i], &y[i]) {
            proof {
                assert(vals_view(x@)[i as int] != vals_view(y@)[i as int]);
            }
            return false;
        }
        proof {
            assert(vals_view(x@)[i as int] == vals_view(y@)[i as int]);
        }
        i = i + 1;
    }
    proof {
        assert(vals_view(x@) =~= vals_view(y@));
    }
    true
}

impl Clone for Value {
    /// A deep copy with the same model.
    fn clone(&self) -> (r: Value)
        ensures
            r@ == self@,
        decreases self,
    {
        match self {
            Value::Bool(b) => Value::Bool(*b),
            Value::Str(s) => Value::Str(s.clone()),
            Value::Int(i) => Value::Int(*i),
            Value::Date(d) => Value::Date(*d),
            Value::Mapping(m) => Value::Mapping(clone_entries(m)),
            Value::List(l) => Value::List(clone_values(l)),
        }
    }
}

pub(crate) fn clone_entries(x: &Vec<(String, Value)>) -> (r: Vec<(String, Value)>)
    ensures
        pairs_view(r@) == pairs_view(x@),
    decreases x,
{
    proof {
        lemma_pairs_view(x@);
    }
    let mut out: Vec<(String, Value)> = Vec::new();
    let mut i: usize = 0;
    while i < x.len()
        invariant
            i <= x@.len(),
            out@.len() == i,
            pairs_view(x@).len() == x@.len(),
            forall|j: int|
                0 <= j < x@.len() ==> #[trigger] pairs_view(x@)[j] == (
                    x@[j].0@,
                    val_view(x@[j].1),
                ),
            forall|j: int|
                0 <= j < i ==> (#[trigger] out@[j].0@, val_view(out@[j].1)) == pairs_view(x@)[j],
        decreases x@.len() - i,
    {
        let key: String = x[i].0.clone();
        let val: Value = x[i].1.clone();
        out.push((key, val));
        i = i + 1;
    }
    proof {
        lemma_pairs_view(out@);
        assert(pairs_view(out@) =~= pairs_view(x@));
    }
    out
}

fn clone_values(x: &Vec<Value>) -> (r: Vec<Value>)
    ensures
        vals_view(r@) == vals_view(x@),
    decreases x,
{
    proof {
        lemma_vals_view(x@);
    }
    let mut out: Vec<Value> = Vec::new();
    let mut i: usize = 0;
    while i < x.len()
        invariant
            i <= x@.len(),
            out@.len() == i,
            vals_view(x@).len() == x@.len(),
            forall|j: int| 0 <= j < x@.len() ==> #[trigger] vals_view(x@)[j] == val_view(x@[j]),
            forall|j: int| 0 <= j < i ==> val_view(#[trigger] out@[j]) == vals_view(x@)[j],
        decreases x@.len() - i,
    {
        let val: Value = x[i].clone();
        out.push(val);
        i = i + 1;
    }
    proof {
        lemma_vals_view(out@);
        assert(vals_view(out@) =~= vals_view(x@));
    }
    out
}

} // verus!
