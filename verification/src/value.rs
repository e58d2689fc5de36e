//! The decoded object graph.

use vstd::prelude::*;
use crate::long::LongInt;

verus! {

/// A decoded blue.Marshal object.
///
/// `Int` and `Long` are kept apart (Python 2's `int` and `long`) so that
/// re-encoding chooses the same wire family (`TY_INT*` or `TY_LONG`).
/// A float is held by its IEEE-754 bit pattern.
#[allow(inconsistent_fields)]
#[derive(Debug, PartialEq)]
pub enum Value {
    /// Python's `None`.
    Null,
    Bool(bool),
    Int(i64),
    Long(LongInt),
    /// The bits of an `f64`.
    Float(u64),
    /// A Python 2 byte string (`str` / `buffer`).
    Bytes(Vec<u8>),
    /// A Python unicode string.
    Str(String),
    Tuple(Vec<Value>),
    List(Vec<Value>),
    /// Order-preserving: stream order is kept so that round trips are stable.
    Dict(Vec<(Value, Value)>),
    /// `TY_GLOBAL`: a class, type or function named by `module.name`.
    Global(String),
    /// `TY_INSTANCE`: an old-style class instance, with its `module.ClassName`
    /// and its state.
    Instance { class: String, state: Box<Value> },
    /// `TY_REDUCE` / `TY_NEWOBJ`: the `__reduce__` pickle protocol. For
    /// `TY_NEWOBJ` (`newobj`) the callable is implicit and held as `Null`.
    Reduce {
        newobj: bool,
        callable: Box<Value>,
        args: Box<Value>,
        state: Option<Box<Value>>,
        list_items: Vec<Value>,
        dict_items: Vec<(Value, Value)>,
    },
    /// `TY_CALLBACK`: data that went through a save/load callback.
    Callback(Box<Value>),
}

/// A `Value` as mathematics sees it.
#[allow(inconsistent_fields)]
pub enum ValueView {
    Null,
    Bool(bool),
    Int(i64),
    Long(int),
    Float(u64),
    Bytes(Seq<u8>),
    Str(Seq<char>),
    Tuple(Seq<ValueView>),
    List(Seq<ValueView>),
    Dict(Seq<(ValueView, ValueView)>),
    Global(Seq<char>),
    Instance { class: Seq<char>, state: Box<ValueView> },
    Reduce {
        newobj: bool,
        callable: Box<ValueView>,
        args: Box<ValueView>,
        state: Option<Box<ValueView>>,
        list_items: Seq<ValueView>,
        dict_items: Seq<(ValueView, ValueView)>,
    },
    Callback(Box<ValueView>),
}

pub open spec fn view_of(v: Value) -> ValueView
    decreases v,
{
    match v {
        Value::Null => ValueView::Null,
        Value::Bool(b) => ValueView::Bool(b),
        Value::Int(i) => ValueView::Int(i),
        Value::Long(n) => ValueView::Long(n@),
        Value::Float(f) => ValueView::Float(f),
        Value::Bytes(b) => ValueView::Bytes(b@),
        Value::Str(s) => ValueView::Str(s@),
        Value::Tuple(items) => ValueView::Tuple(views_of(items@)),
        Value::List(items) => ValueView::List(views_of(items@)),
        Value::Dict(pairs) => ValueView::Dict(pair_views_of(pairs@)),
        Value::Global(name) => ValueView::Global(name@),
        Value::Instance { class, state } => ValueView::Instance {
            class: class@,
            state: Box::new(view_of(*state)),
        },
        Value::Reduce { newobj, callable, args, state, list_items, dict_items } => ValueView::Reduce {
            newobj,
            callable: Box::new(view_of(*callable)),
            args: Box::new(view_of(*args)),
            state: match state {
                Some(s) => Some(Box::new(view_of(*s))),
                None => None,
            },
            list_items: views_of(list_items@),
            dict_items: pair_views_of(dict_items@),
        },
        Value::Callback(inner) => ValueView::Callback(Box::new(view_of(*inner))),
    }
}

pub open spec fn views_of(s: Seq<Value>) -> Seq<ValueView>
    decreases s,
{
    if s.len() == 0 {
        Seq::empty()
    } else {
        views_of(s.drop_last()).push(view_of(s.last()))
    }
}

pub open spec fn pair_views_of(s: Seq<(Value, Value)>) -> Seq<(ValueView, ValueView)>
    decreases s,
{
    if s.len() == 0 {
        Seq::empty()
    } else {
        pair_views_of(s.drop_last()).push((view_of(s.last().0), view_of(s.last().1)))
    }
}

impl View for Value {
    type V = ValueView;

    open spec fn view(&self) -> ValueView {
        view_of(*self)
    }
}

pub proof fn lemma_views_len(s: Seq<Value>)
    ensures
        views_of(s).len() == s.len(),
    decreases s.len(),
{
    if s.len() > 0 {
        lemma_views_len(s.drop_last());
    }
}

pub proof fn lemma_views_index(s: Seq<Value>, i: int)
    requires
        0 <= i < s.len(),
    ensures
        views_of(s).len() == s.len(),
        views_of(s)[i] == view_of(s[i]),
    decreases s.len(),
{
    lemma_views_len(s);
    if i < s.len() - 1 {
        lemma_views_index(s.drop_last(), i);
    }
}

pub proof fn lemma_pair_views_len(s: Seq<(Value, Value)>)
    ensures
        pair_views_of(s).len() == s.len(),
    decreases s.len(),
{
    if s.len() > 0 {
        lemma_pair_views_len(s.drop_last());
    }
}

pub proof fn lemma_pair_views_index(s: Seq<(Value, Value)>, i: int)
    requires
        0 <= i < s.len(),
    ensures
        pair_views_of(s).len() == s.len(),
        pair_views_of(s)[i] == (view_of(s[i].0), view_of(s[i].1)),
    decreases s.len(),
{
    lemma_pair_views_len(s);
    if i < s.len() - 1 {
        lemma_pair_views_index(s.drop_last(), i);
    }
}

/// A copy of each value in a sequence.
pub fn clone_values(items: &Vec<Value>) -> (r: Vec<Value>)
    ensures
        views_of(r@) == views_of(items@),
    decreases items,
{
    let mut out: Vec<Value> = Vec::new();
    let mut i: usize = 0;
    while i < items.len()
        invariant
            i <= items.len(),
            views_of(out@) == views_of(items@.take(i as int)),
        decreases items.len() - i,
    {
        proof {
            assert(decreases_to!(*items => items[i as int]));
        }
        let c = items[i].clone();
        let ghost old_out = out@;
        out.push(c);
        proof {
            assert(items@.take(i + 1).drop_last() == items@.take(i as int));
            assert(out@.drop_last() == old_out);
        }
        i = i + 1;
    }
    proof {
        assert(items@.take(items.len() as int) == items@);
    }
    out
}

/// A copy of each pair in a sequence.
pub fn clone_pairs(pairs: &Vec<(Value, Value)>) -> (r: Vec<(Value, Value)>)
    ensures
        pair_views_of(r@) == pair_views_of(pairs@),
    decreases pairs,
{
    let mut out: Vec<(Value, Value)> = Vec::new();
    let mut i: usize = 0;
    while i < pairs.len()
        invariant
            i <= pairs.len(),
            pair_views_of(out@) == pair_views_of(pairs@.take(i as int)),
        decreases pairs.len() - i,
    {
        proof {
            assert(decreases_to!(*pairs => pairs[i as int]));
            assert(decreases_to!(pairs[i as int] => pairs[i as int].0));
            assert(decreases_to!(pairs[i as int] => pairs[i as int].1));
        }
        let k = pairs[i].0.clone();
        let v = pairs[i].1.clone();
        let ghost old_out = out@;
        out.push((k, v));
        proof {
            assert(pairs@.take(i + 1).drop_last() == pairs@.take(i as int));
            assert(out@.drop_last() == old_out);
        }
        i = i + 1;
    }
    proof {
        assert(pairs@.take(pairs.len() as int) == pairs@);
    }
    out
}

impl Clone for Value {
    fn clone(&self) -> (r: Value)
        ensures
            r@ == self@,
        decreases self,
    {
        match self {
            Value::Null => Value::Null,
            Value::Bool(b) => Value::Bool(*b),
            Value::Int(i) => Value::Int(*i),
            Value::Long(n) => Value::Long(n.duplicate()),
            Value::Float(f) => Value::Float(*f),
            Value::Bytes(b) => {
                let c = b.clone();
                assert(c@ =~= b@);
                Value::Bytes(c)
            },
            Value::Str(s) => Value::Str(s.clone()),
            Value::Tuple(items) => Value::Tuple(clone_values(items)),
            Value::List(items) => Value::List(clone_values(items)),
            Value::Dict(pairs) => Value::Dict(clone_pairs(pairs)),
            Value::Global(name) => Value::Global(name.clone()),
            Value::Instance { class, state } => {
                let s = (**state).clone();
                Value::Instance { class: class.clone(), state: Box::new(s) }
            },
            Value::Reduce { newobj, callable, args, state, list_items, dict_items } => {
                let c = (**callable).clone();
                let a = (**args).clone();
                let st = match state {
                    Some(s) => Some(Box::new((**s).clone())),
                    None => None,
                };
                Value::Reduce {
                    newobj: *newobj,
                    callable: Box::new(c),
                    args: Box::new(a),
                    state: st,
                    list_items: clone_values(list_items),
                    dict_items: clone_pairs(dict_items),
                }
            },
            Value::Callback(inner) => Value::Callback(Box::new((**inner).clone())),
        }
    }
}

impl Value {
    /// The text of `Bytes` (decoded lossily) or of `Str`; `None` for any other
    /// variant. Decoding `TY_INSTANCE` uses it for the class name.
    pub fn as_str_like(&self) -> (r: Option<String>)
        ensures
            match self@ {
                ValueView::Bytes(b) => r matches Some(s) && s@ == crate::text::utf8_lossy(b),
                ValueView::Str(t) => r matches Some(s) && s@ == t,
                _ => r is None,
            },
    {
        match self {
            Value::Bytes(b) => Some(crate::text::string_from_utf8_lossy(b.as_slice())),
            Value::Str(s) => Some(s.clone()),
            _ => None,
        }
    }
}

} // verus!
