//! Whole-value transformations: dropping absent parts, and mapping or
//! filtering the elements of a tuple or list through a callback.
use crate::value::{
    Fault, SolidityType, SolValue, ValueError, kind_of, field_models, lemma_field_models_push, lemma_models,
    lemma_models_push, model, models,
};
use vstd::prelude::*;

verus! {

/// The value with every `Null` removed and every tuple, list or struct that
/// is left empty removed too; `None` when nothing is left.
pub open spec fn prune(v: SolValue) -> Option<SolValue>
    decreases v,
{
    match v {
        SolValue::Tuple(s) => {
            let p = prune_all(s);
            if p.len() == 0 {
                None
            } else {
                Some(SolValue::Tuple(p))
            }
        },
        SolValue::List(s) => {
            let p = prune_all(s);
            if p.len() == 0 {
                None
            } else {
                Some(SolValue::List(p))
            }
        },
        SolValue::Struct(fs) => {
            let p = prune_fields(fs);
            if p.len() == 0 {
                None
            } else {
                Some(SolValue::Struct(p))
            }
        },
        SolValue::Null => None,
        _ => Some(v),
    }
}

/// The pruned elements that are left, in order.
pub open spec fn prune_all(s: Seq<SolValue>) -> Seq<SolValue>
    decreases s,
{
    if s.len() == 0 {
        Seq::empty()
    } else {
        let rest = prune_all(s.subrange(0, s.len() - 1));
        match prune(s[s.len() - 1]) {
            Some(x) => rest.push(x),
            None => rest,
        }
    }
}

/// The pruned fields that are left, in order.
pub open spec fn prune_fields(fs: Seq<(Seq<char>, SolValue)>) -> Seq<(Seq<char>, SolValue)>
    decreases fs,
{
    if fs.len() == 0 {
        Seq::empty()
    } else {
        let rest = prune_fields(fs.subrange(0, fs.len() - 1));
        match prune(fs[fs.len() - 1].1) {
            Some(x) => rest.push((fs[fs.len() - 1].0, x)),
            None => rest,
        }
    }
}

/// The elements that are not `Null`, in order.
pub open spec fn non_null(s: Seq<SolValue>) -> Seq<SolValue>
    decreases s.len(),
{
    if s.len() == 0 {
        Seq::empty()
    } else {
        let rest = non_null(s.drop_last());
        if s.last() is Null {
            rest
        } else {
            rest.push(s.last())
        }
    }
}

/// The elements whose flag is `Boolean(true)`, in order.
pub open spec fn kept(xs: Seq<SolValue>, flags: Seq<SolValue>) -> Seq<SolValue>
    decreases xs.len(),
{
    if xs.len() == 0 {
        Seq::empty()
    } else {
        let rest = kept(xs.drop_last(), flags.drop_last());
        if flags.last() == SolValue::Boolean(true) {
            rest.push(xs.last())
        } else {
            rest
        }
    }
}

/// A list of the elements, or `Null` when there are none.
pub open spec fn list_or_null(s: Seq<SolValue>) -> SolValue {
    if s.len() == 0 {
        SolValue::Null
    } else {
        SolValue::List(s)
    }
}

/// What a filter callback may return.
pub open spec fn is_flag(v: SolValue) -> bool {
    v is Boolean || v is Null
}

/// The children of a tuple or list; nothing for other values.
pub open spec fn elements(v: SolidityType) -> Seq<SolidityType> {
    match v {
        SolidityType::Tuple(xs) => xs@,
        SolidityType::List(xs) => xs@,
        _ => Seq::empty(),
    }
}

pub open spec fn is_sequence(v: SolidityType) -> bool {
    v is Tuple || v is List
}

/// `outs` holds, in order, one result of `f` for each of the first
/// `outs.len()` elements of `xs`.
pub open spec fn called_on<F: Fn(&SolidityType) -> SolidityType>(
    f: F,
    xs: Seq<SolidityType>,
    outs: Seq<SolidityType>,
) -> bool {
    &&& outs.len() <= xs.len()
    &&& forall|j: int| 0 <= j < outs.len() ==> f.ensures((&xs[j],), #[trigger] outs[j])
}

proof fn lemma_non_null_push(s: Seq<SolValue>, x: SolValue)
    ensures
        non_null(s.push(x)) == if x is Null {
            non_null(s)
        } else {
            non_null(s).push(x)
        },
{
    assert(s.push(x).drop_last() =~= s);
}

proof fn lemma_kept_push(xs: Seq<SolValue>, flags: Seq<SolValue>, x: SolValue, f: SolValue)
    ensures
        kept(xs.push(x), flags.push(f)) == if f == SolValue::Boolean(true) {
            kept(xs, flags).push(x)
        } else {
            kept(xs, flags)
        },
{
    assert(xs.push(x).drop_last() =~= xs);
    assert(flags.push(f).drop_last() =~= flags);
}

/// Pruning is idempotent: what pruning leaves is left unchanged by pruning
/// it again.
pub proof fn law_prune_idempotent(v: SolValue)
    ensures
        prune(v) matches Some(w) ==> prune(w) == Some(w),
    decreases v,
{
    match v {
        SolValue::Tuple(s) => lemma_prune_all_fixed(s),
        SolValue::List(s) => lemma_prune_all_fixed(s),
        SolValue::Struct(fs) => lemma_prune_fields_fixed(fs),
        _ => {},
    }
}

proof fn lemma_prune_all_fixed(s: Seq<SolValue>)
    ensures
        prune_all(prune_all(s)) == prune_all(s),
    decreases s,
{
    if s.len() > 0 {
        let init = s.subrange(0, s.len() - 1);
        let last = s[s.len() - 1];
        lemma_prune_all_fixed(init);
        law_prune_idempotent(last);
        let r = prune_all(init);
        match prune(last) {
            Some(x) => {
                let q = r.push(x);
                assert(q.subrange(0, q.len() - 1) =~= r);
                assert(q[q.len() - 1] == x);
            },
            None => {},
        }
    }
}

proof fn lemma_prune_fields_fixed(fs: Seq<(Seq<char>, SolValue)>)
    ensures
        prune_fields(prune_fields(fs)) == prune_fields(fs),
    decreases fs,
{
    if fs.len() > 0 {
        let init = fs.subrange(0, fs.len() - 1);
        let last = fs[fs.len() - 1];
        lemma_prune_fields_fixed(init);
        law_prune_idempotent(last.1);
        let r = prune_fields(init);
        match prune(last.1) {
            Some(x) => {
                let q = r.push((last.0, x));
                assert(q.subrange(0, q.len() - 1) =~= r);
                assert(q[q.len() - 1] == (last.0, x));
            },
            None => {},
        }
    }
}

/// A struct whose every field is `Null` prunes to nothing.
pub proof fn law_prune_null_struct(fs: Seq<(Seq<char>, SolValue)>)
    requires
        forall|i: int| 0 <= i < fs.len() ==> (#[trigger] fs[i]).1 is Null,
    ensures
        prune(SolValue::Struct(fs)) is None,
    decreases fs.len(),
{
    if fs.len() > 0 {
        let init = fs.subrange(0, fs.len() - 1);
        assert(forall|i: int| 0 <= i < init.len() ==> init[i] == fs[i]);
        assert(forall|i: int| 0 <= i < init.len() ==> (#[trigger] init[i]).1 is Null);
        law_prune_null_struct(init);
        assert(prune_fields(init).len() == 0);
        assert(fs[fs.len() - 1].1 is Null);
        assert(prune(fs[fs.len() - 1].1) is None);
        assert(prune_fields(fs) == prune_fields(init));
    }
}

fn prune_elements(xs: &Vec<SolidityType>) -> (r: Vec<SolidityType>)
    ensures
        models(r@) == prune_all(models(xs@)),
    decreases xs, 0nat,
{
    let mut out: Vec<SolidityType> = Vec::new();
    let mut i: usize = 0;
    proof {
        lemma_models(xs@);
        assert(models(xs@).subrange(0, 0) =~= Seq::<SolValue>::empty());
    }
    while i < xs.len()
        invariant
            i <= xs.len(),
            models(xs@).len() == xs@.len(),
            forall|j: int| 0 <= j < xs@.len() ==> #[trigger] models(xs@)[j] == model(xs@[j]),
            models(out@) == prune_all(models(xs@).subrange(0, i as int)),
        decreases xs.len() - i,
    {
        proof {
            assert(decreases_to!(xs => xs[i as int]));
        }
        let p = xs[i].to_maybe_value();
        let ghost m = models(xs@);
        proof {
            let t = m.subrange(0, i + 1);
            assert(t.subrange(0, t.len() - 1) =~= m.subrange(0, i as int));
            assert(t[t.len() - 1] == model(xs@[i as int]));
        }
        match p {
            Some(x) => {
                proof {
                    lemma_models_push(out@, x);
                }
                out.push(x);
            },
            None => {},
        }
        i = i + 1;
    }
    assert(models(xs@).subrange(0, xs@.len() as int) =~= models(xs@));
    out
}

fn prune_field_values(fs: &Vec<(String, SolidityType)>) -> (r: Vec<(String, SolidityType)>)
    ensures
        field_models(r@) == prune_fields(field_models(fs@)),
    decreases fs, 0nat,
{
    let mut out: Vec<(String, SolidityType)> = Vec::new();
    let mut i: usize = 0;
    proof {
        crate::value::lemma_field_models(fs@);
        assert(field_models(fs@).subrange(0, 0) =~= Seq::<(Seq<char>, SolValue)>::empty());
    }
    while i < fs.len()
        invariant
            i <= fs.len(),
            field_models(fs@).len() == fs@.len(),
            forall|j: int|
                0 <= j < fs@.len() ==> #[trigger] field_models(fs@)[j] == (
                    fs@[j].0@,
                    model(fs@[j].1),
                ),
            field_models(out@) == prune_fields(field_models(fs@).subrange(0, i as int)),
        decreases fs.len() - i,
    {
        proof {
            assert(decreases_to!(fs => fs[i as int]));
        }
        let p = fs[i].1.to_maybe_value();
        let ghost m = field_models(fs@);
        proof {
            let t = m.subrange(0, i + 1);
            assert(t.subrange(0, t.len() - 1) =~= m.subrange(0, i as int));
            assert(t[t.len() - 1] == (fs@[i as int].0@, model(fs@[i as int].1)));
        }
        match p {
            Some(x) => {
                let name = fs[i].0.clone();
                proof {
                    lemma_field_models_push(out@, (name, x));
                }
                out.push((name, x));
            },
            None => {},
        }
        i = i + 1;
    }
    assert(field_models(fs@).subrange(0, fs@.len() as int) =~= field_models(fs@));
    out
}

fn map_elements<F: Fn(&SolidityType) -> SolidityType>(xs: &Vec<SolidityType>, callback: F) -> (r:
    SolidityType)
    requires
        forall|i: int| 0 <= i < xs@.len() ==> callback.requires((&xs@[i],)),
    ensures
        exists|outs: Seq<SolidityType>|
            {
                &&& called_on(callback, xs@, outs)
                &&& outs.len() == xs@.len()
                &&& r@ == list_or_null(non_null(models(outs)))
            },
{
    let mut out: Vec<SolidityType> = Vec::new();
    let ghost mut outs: Seq<SolidityType> = Seq::empty();
    let mut i: usize = 0;
    while i < xs.len()
        invariant
            i <= xs.len(),
            forall|j: int| 0 <= j < xs@.len() ==> callback.requires((&xs@[j],)),
            outs.len() == i,
            called_on(callback, xs@, outs),
            models(out@) == non_null(models(outs)),
        decreases xs.len() - i,
    {
        let y = callback(&xs[i]);
        proof {
            lemma_models_push(outs, y);
            lemma_non_null_push(models(outs), model(y));
            outs = outs.push(y);
        }
        if let SolidityType::Null = y {
        } else {
            proof {
                lemma_models_push(out@, y);
            }
            out.push(y);
        }
        i = i + 1;
    }
    proof {
        lemma_models(out@);
    }
    if out.len() == 0 {
        SolidityType::Null
    } else {
        SolidityType::List(out)
    }
}

fn filter_elements<F: Fn(&SolidityType) -> SolidityType>(xs: &Vec<SolidityType>, callback: F) -> (r:
    Result<SolidityType, ValueError>)
    requires
        forall|i: int| 0 <= i < xs@.len() ==> callback.requires((&xs@[i],)),
    ensures
        exists|outs: Seq<SolidityType>|
            {
                &&& called_on(callback, xs@, outs)
                &&& forall|j: int| 0 <= j < outs.len() - 1 ==> is_flag(model(#[trigger] outs[j]))
                &&& if outs.len() == xs@.len() && (outs.len() == 0 || is_flag(model(outs.last()))) {
                    r matches Ok(x) && x@ == list_or_null(kept(models(xs@), models(outs)))
                } else {
                    outs.len() > 0 && !is_flag(model(outs.last())) && (r matches Err(x) && x@
                        == Fault::Unsupported(kind_of(model(outs.last()))))
                }
            },
{
    let mut out: Vec<SolidityType> = Vec::new();
    let ghost mut outs: Seq<SolidityType> = Seq::empty();
    let mut i: usize = 0;
    proof {
        lemma_models(xs@);
        assert(models(xs@).subrange(0, 0) =~= Seq::<SolValue>::empty());
    }
    while i < xs.len()
        invariant
            i <= xs.len(),
            forall|j: int| 0 <= j < xs@.len() ==> callback.requires((&xs@[j],)),
            models(xs@).len() == xs@.len(),
            forall|j: int| 0 <= j < xs@.len() ==> #[trigger] models(xs@)[j] == model(xs@[j]),
            outs.len() == i,
            called_on(callback, xs@, outs),
            forall|j: int| 0 <= j < outs.len() ==> is_flag(model(#[trigger] outs[j])),
            models(out@) == kept(models(xs@).subrange(0, i as int), models(outs)),
        decreases xs.len() - i,
    {
        let y = callback(&xs[i]);
        let ghost m = models(xs@);
        proof {
            lemma_models_push(outs, y);
            lemma_kept_push(m.subrange(0, i as int), models(outs), m[i as int], model(y));
            assert(m.subrange(0, i + 1) =~= m.subrange(0, i as int).push(m[i as int]));
            outs = outs.push(y);
        }
        match y {
            SolidityType::Boolean(keep) => {
                if keep {
                    let c = xs[i].deep_clone();
                    proof {
                        lemma_models_push(out@, c);
                    }
                    out.push(c);
                }
            },
            SolidityType::Null => {},
            _ => {
                proof {
                    assert(outs.last() == y);
                    assert(!is_flag(model(y)));
                    assert(called_on(callback, xs@, outs));
                    assert(forall|j: int| 0 <= j < outs.len() - 1 ==> is_flag(model(#[trigger] outs[j])));
                }
                return Err(ValueError::Unsupported(y.kind()));
            },
        }
        i = i + 1;
    }
    proof {
        lemma_models(out@);
        assert(models(xs@).subrange(0, xs@.len() as int) =~= models(xs@));
    }
    if out.len() == 0 {
        Ok(SolidityType::Null)
    } else {
        Ok(SolidityType::List(out))
    }
}

impl SolidityType {
    /// The value without its `Null` parts, as `prune` describes it.
    pub fn to_maybe_value(&self) -> (r: Option<SolidityType>)
        ensures
            match prune(self@) {
                Some(v) => r matches Some(x) && x@ == v,
                None => r is None,
            },
        decreases self,
    {
        match self {
            SolidityType::Tuple(xs) => {
                let p = prune_elements(xs);
                proof {
                    lemma_models(p@);
                }
                if p.len() == 0 {
                    None
                } else {
                    Some(SolidityType::Tuple(p))
                }
            },
            SolidityType::List(xs) => {
                let p = prune_elements(xs);
                proof {
                    lemma_models(p@);
                }
                if p.len() == 0 {
                    None
                } else {
                    Some(SolidityType::List(p))
                }
            },
            SolidityType::Struct(fs) => {
                let p = prune_field_values(fs);
                proof {
                    crate::value::lemma_field_models(p@);
                }
                if p.len() == 0 {
                    None
                } else {
                    Some(SolidityType::Struct(p))
                }
            },
            SolidityType::Null => None,
            _ => Some(self.deep_clone()),
        }
    }

    /// A list of the callback's results on the elements of a tuple or list,
    /// without the `Null` results; `Null` when none is left, and `Null` for
    /// `Null`. A struct or scalar gives `ValueError::Unsupported`.
    pub fn map<F: Fn(&SolidityType) -> SolidityType>(&self, callback: F) -> (r: Result<
        SolidityType,
        ValueError,
    >)
        requires
            forall|i: int|
                0 <= i < elements(*self).len() ==> callback.requires((&elements(*self)[i],)),
        ensures
            is_sequence(*self) ==> exists|outs: Seq<SolidityType>|
                {
                    &&& called_on(callback, elements(*self), outs)
                    &&& outs.len() == elements(*self).len()
                    &&& r matches Ok(x) && x@ == list_or_null(non_null(models(outs)))
                },
            *self is Null ==> (r matches Ok(x) && x@ == SolValue::Null),
            !is_sequence(*self) && !(*self is Null) ==> (r matches Err(x) && x@ == Fault::Unsupported(
                kind_of(self@),
            )),
    {
        match self {
            SolidityType::Tuple(xs) => {
                assert(elements(*self) == xs@);
                Ok(map_elements(xs, callback))
            },
            SolidityType::List(xs) => {
                assert(elements(*self) == xs@);
                Ok(map_elements(xs, callback))
            },
            SolidityType::Null => Ok(SolidityType::Null),
            _ => Err(ValueError::Unsupported(self.kind())),
        }
    }

    /// A list of the elements of a tuple or list for which the callback gives
    /// `Boolean(true)`; a `Boolean(false)` or `Null` drops the element, any
    /// other result stops with `ValueError::Unsupported` naming its variant.
    /// `Null` when none is kept, and `Null` for `Null`. A struct or scalar
    /// gives `ValueError::Unsupported`.
    pub fn filter<F: Fn(&SolidityType) -> SolidityType>(&self, callback: F) -> (r: Result<
        SolidityType,
        ValueError,
    >)
        requires
            forall|i: int|
                0 <= i < elements(*self).len() ==> callback.requires((&elements(*self)[i],)),
        ensures
            is_sequence(*self) ==> exists|outs: Seq<SolidityType>|
                {
                    &&& called_on(callback, elements(*self), outs)
                    &&& forall|j: int| 0 <= j < outs.len() - 1 ==> is_flag(model(#[trigger] outs[j]))
                    &&& if outs.len() == elements(*self).len() && (outs.len() == 0 || is_flag(
                        model(outs.last()),
                    )) {
                        r matches Ok(x) && x@ == list_or_null(
                            kept(models(elements(*self)), models(outs)),
                        )
                    } else {
                        outs.len() > 0 && !is_flag(model(outs.last())) && (r matches Err(x) && x@
                            == Fault::Unsupported(kind_of(model(outs.last()))))
                    }
                },
            *self is Null ==> (r matches Ok(x) && x@ == SolValue::Null),
            !is_sequence(*self) && !(*self is Null) ==> (r matches Err(x) && x@ == Fault::Unsupported(
                kind_of(self@),
            )),
    {
        match self {
            SolidityType::Tuple(xs) => {
                assert(elements(*self) == xs@);
                filter_elements(xs, callback)
            },
            SolidityType::List(xs) => {
                assert(elements(*self) == xs@);
                filter_elements(xs, callback)
            },
            SolidityType::Null => Ok(SolidityType::Null),
            _ => Err(ValueError::Unsupported(self.kind())),
        }
    }
}

} // verus!
