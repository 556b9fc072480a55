//! Inferring a value from untyped JSON: the shape of strings and of object
//! keys decides the kind.
use crate::access::{
    digits_index, fields_of, is_decimal_text, lemma_decimal_text_value, lemma_fields_of_well_formed,
    parse_digits,
};
use crate::encoding::{
    decimal_of, hex_decode, lemma_decimal_round_trip, lemma_hex_pairs_len, lemma_hex_round_trip,
    lemma_lower_hex_len, strip_hex_prefix,
    prefixed_hex, uint_text_value,
};
use crate::ops::canonical_text;
use crate::json::{Json, JsonValue, json_field_models, json_model, json_models, lemma_json_field_models, lemma_json_models};
use crate::scalars::{Address, U256, bytes_from_text};
use crate::value::{
    Fault, SolidityType, SolValue, ValueError, lemma_models, lemma_models_push, model, models, well_formed,
};
use vstd::prelude::*;

verus! {

/// Text that starts with `0x`.
pub open spec fn starts_hex(s: Seq<char>) -> bool {
    s.len() >= 2 && s[0] == '0' && s[1] == 'x'
}

/// The kind a JSON string is taken for, by its length: 42 characters after
/// `0x` make an address, 66 an integer, more a byte sequence, fewer an
/// integer; text without `0x` stays text.
pub open spec fn guess_text(s: Seq<char>) -> Result<SolValue, Fault> {
    if starts_hex(s) && s.len() == 42 {
        match hex_decode(s) {
            Some(b) => if b.len() == 20 {
                Ok(SolValue::Address(b))
            } else {
                Err(Fault::Parse)
            },
            None => Err(Fault::Parse),
        }
    } else if starts_hex(s) && s.len() > 66 {
        match hex_decode(s) {
            Some(b) => Ok(SolValue::ByteArray(b)),
            None => Err(Fault::Parse),
        }
    } else if starts_hex(s) {
        match uint_text_value(s) {
            Some(v) => Ok(SolValue::Uint(v)),
            None => Err(Fault::Parse),
        }
    } else {
        Ok(SolValue::String(s))
    }
}

/// A key of the form `_` and decimal digits, as an ABI decoder names the
/// positional fields of a tuple.
pub open spec fn is_positional_key(k: Seq<char>) -> bool {
    k.len() >= 2 && k[0] == '_' && is_decimal_text(k.skip(1))
}

/// The number after the `_` of a positional key.
pub open spec fn positional_index(k: Seq<char>) -> nat {
    match digits_index(k.skip(1)) {
        Some(i) => i,
        None => 0,
    }
}

/// Each member's positional index, paired with the member's position.
pub open spec fn positional_entries(fs: Seq<(Seq<char>, Json)>) -> Seq<(nat, nat)> {
    Seq::new(fs.len(), |i: int| (positional_index(fs[i].0), i as nat))
}

/// `e` placed after every entry of `s`, from the end, whose index is greater;
/// entries with equal index keep their order.
pub open spec fn insert_by_index(s: Seq<(nat, nat)>, e: (nat, nat)) -> Seq<(nat, nat)>
    decreases s.len(),
{
    if s.len() == 0 {
        seq![e]
    } else if s.last().0 <= e.0 {
        s.push(e)
    } else {
        insert_by_index(s.drop_last(), e).push(s.last())
    }
}

/// Stable sort by index.
pub open spec fn sort_by_index(s: Seq<(nat, nat)>) -> Seq<(nat, nat)>
    decreases s.len(),
{
    if s.len() == 0 {
        Seq::empty()
    } else {
        insert_by_index(sort_by_index(s.drop_last()), s.last())
    }
}

/// The values at the positions that `order` lists.
pub open spec fn tuple_values(vs: Seq<SolValue>, order: Seq<(nat, nat)>) -> Seq<SolValue> {
    Seq::new(order.len(), |k: int| vs[order[k].1 as int])
}

pub open spec fn member_names(fs: Seq<(Seq<char>, Json)>) -> Seq<Seq<char>> {
    Seq::new(fs.len(), |i: int| fs[i].0)
}

/// An object whose keys are all positional is a tuple ordered by index, and
/// a single such member stands for itself; any other object is a struct.
pub open spec fn shape_object(fs: Seq<(Seq<char>, Json)>, vs: Seq<SolValue>) -> Result<
    SolValue,
    Fault,
> {
    if forall|i: int| 0 <= i < fs.len() ==> is_positional_key(#[trigger] fs[i].0) {
        if exists|i: int| 0 <= i < fs.len() && positional_index(#[trigger] fs[i].0) > usize::MAX {
            Err(Fault::Guess)
        } else if fs.len() == 1 {
            Ok(vs[0])
        } else {
            Ok(SolValue::Tuple(tuple_values(vs, sort_by_index(positional_entries(fs)))))
        }
    } else {
        Ok(SolValue::Struct(fields_of(member_names(fs), vs)))
    }
}

/// The value that untyped JSON is taken for.
pub open spec fn guess(j: Json) -> Result<SolValue, Fault>
    decreases j,
{
    match j {
        Json::Null => Err(Fault::Guess),
        Json::Bool(b) => Ok(SolValue::Boolean(b)),
        Json::Number(n) => Ok(SolValue::Uint(n)),
        Json::String(s) => guess_text(s),
        Json::Array(xs) => match guess_all(xs) {
            Ok(vs) => Ok(SolValue::List(vs)),
            Err(e) => Err(e),
        },
        Json::Object(fs) => match guess_members(fs) {
            Ok(vs) => shape_object(fs, vs),
            Err(e) => Err(e),
        },
    }
}

/// The guesses of all elements, or the first error.
pub open spec fn guess_all(xs: Seq<Json>) -> Result<Seq<SolValue>, Fault>
    decreases xs,
{
    if xs.len() == 0 {
        Ok(Seq::empty())
    } else {
        match guess_all(xs.subrange(0, xs.len() - 1)) {
            Ok(vs) => match guess(xs[xs.len() - 1]) {
                Ok(v) => Ok(vs.push(v)),
                Err(e) => Err(e),
            },
            Err(e) => Err(e),
        }
    }
}

/// The guesses of all member values, or the first error.
pub open spec fn guess_members(fs: Seq<(Seq<char>, Json)>) -> Result<Seq<SolValue>, Fault>
    decreases fs,
{
    if fs.len() == 0 {
        Ok(Seq::empty())
    } else {
        match guess_members(fs.subrange(0, fs.len() - 1)) {
            Ok(vs) => match guess(fs[fs.len() - 1].1) {
                Ok(v) => Ok(vs.push(v)),
                Err(e) => Err(e),
            },
            Err(e) => Err(e),
        }
    }
}

/// The text form of a scalar as plain JSON carries it: decimal digits for an
/// integer, `0x` and lowercase hexadecimal for addresses and bytes, text as
/// it is.
pub open spec fn plain_text(v: SolValue) -> Seq<char> {
    match v {
        SolValue::Uint(n) => decimal_of(n),
        SolValue::Address(b) => prefixed_hex(b),
        SolValue::ByteArray(b) => prefixed_hex(b),
        SolValue::String(s) => s,
        _ => Seq::empty(),
    }
}

/// Guessing the plain text of an address, an integer, a byte sequence of
/// more than 32 bytes, or a text that does not start with `0x` gives a value
/// with the same canonical text.
pub proof fn law_guess_stability(x: SolidityType)
    requires
        x is Address || x is Uint || (x matches SolidityType::ByteArray(b) && b@.len() > 32) || (
        x matches SolidityType::String(s) && !starts_hex(s@)),
    ensures
        guess(Json::String(plain_text(x@))) matches Ok(w) && canonical_text(w) == canonical_text(
            x@,
        ),
{
    match x {
        SolidityType::Address(a) => {
            lemma_lower_hex_len(a.bytes@);
            lemma_hex_round_trip(a.bytes@);
        },
        SolidityType::ByteArray(b) => {
            lemma_lower_hex_len(b@);
            lemma_hex_round_trip(b@);
        },
        SolidityType::Uint(u) => {
            let s = decimal_of(u.value());
            lemma_decimal_round_trip(u.value());
            if s.len() >= 2 {
                assert('0' <= s[1] <= '9');
            }
        },
        _ => {},
    }
}

pub open spec fn sorted_by_index(r: Seq<(nat, nat)>) -> bool {
    forall|i: int, j: int| 0 <= i < j < r.len() ==> r[i].0 <= r[j].0
}

proof fn lemma_insert_multiset(s: Seq<(nat, nat)>, e: (nat, nat))
    ensures
        insert_by_index(s, e).to_multiset() =~= s.to_multiset().insert(e),
    decreases s.len(),
{
    broadcast use vstd::seq_lib::to_multiset_build;

    if s.len() == 0 {
        assert(seq![e] =~= s.push(e));
    } else if s.last().0 <= e.0 {
    } else {
        let d = s.drop_last();
        lemma_insert_multiset(d, e);
        assert(d.push(s.last()) =~= s);
    }
}

proof fn lemma_sort_multiset(s: Seq<(nat, nat)>)
    ensures
        sort_by_index(s).to_multiset() == s.to_multiset(),
    decreases s.len(),
{
    broadcast use vstd::seq_lib::to_multiset_build;

    if s.len() > 0 {
        let d = s.drop_last();
        lemma_sort_multiset(d);
        lemma_insert_multiset(sort_by_index(d), s.last());
        assert(d.push(s.last()) =~= s);
        assert(sort_by_index(s).to_multiset() =~= d.to_multiset().insert(s.last()));
        assert(s.to_multiset() =~= d.to_multiset().insert(s.last()));
    } else {
        assert(sort_by_index(s) =~= s);
    }
}

proof fn lemma_insert_sorted(s: Seq<(nat, nat)>, e: (nat, nat))
    requires
        sorted_by_index(s),
    ensures
        sorted_by_index(insert_by_index(s, e)),
    decreases s.len(),
{
    broadcast use vstd::seq_lib::to_multiset_contains;

    if s.len() > 0 && s.last().0 > e.0 {
        let d = s.drop_last();
        let last = s.last();
        lemma_insert_sorted(d, e);
        lemma_insert_multiset(d, e);
        let q = insert_by_index(d, e);
        assert forall|i: int| 0 <= i < q.len() implies (#[trigger] q[i]).0 <= last.0 by {
            assert(q.contains(q[i]));
            assert(q.to_multiset().count(q[i]) > 0);
            if q[i] != e {
                assert(d.to_multiset().count(q[i]) > 0);
                assert(d.contains(q[i]));
            }
        }
    }
}

proof fn lemma_sort_sorted(s: Seq<(nat, nat)>)
    ensures
        sorted_by_index(sort_by_index(s)),
    decreases s.len(),
{
    if s.len() > 0 {
        lemma_sort_sorted(s.drop_last());
        lemma_insert_sorted(sort_by_index(s.drop_last()), s.last());
    }
}

proof fn lemma_strict_positions(r: Seq<(nat, nat)>, n: nat)
    requires
        r.len() == n,
        forall|i: int, j: int| 0 <= i < j < n ==> r[i].0 < r[j].0,
        forall|i: int| 0 <= i < n ==> (#[trigger] r[i]).0 < n,
    ensures
        forall|k: int| 0 <= k < n ==> (#[trigger] r[k]).0 == k,
{
    assert forall|k: int| 0 <= k < n implies (#[trigger] r[k]).0 >= k by {
        lemma_at_least(r, n, k);
    }
    assert forall|k: int| 0 <= k < n implies (#[trigger] r[k]).0 <= k by {
        lemma_at_most(r, n, k);
    }
}

proof fn lemma_at_least(r: Seq<(nat, nat)>, n: nat, k: int)
    requires
        r.len() == n,
        forall|i: int, j: int| 0 <= i < j < n ==> r[i].0 < r[j].0,
        0 <= k < n,
    ensures
        r[k].0 >= k,
    decreases k,
{
    if k > 0 {
        lemma_at_least(r, n, k - 1);
    }
}

proof fn lemma_at_most(r: Seq<(nat, nat)>, n: nat, k: int)
    requires
        r.len() == n,
        forall|i: int, j: int| 0 <= i < j < n ==> r[i].0 < r[j].0,
        forall|i: int| 0 <= i < n ==> (#[trigger] r[i]).0 < n,
        0 <= k < n,
    ensures
        r[k].0 + (n - 1 - k) <= n - 1,
    decreases n - k,
{
    if k < n - 1 {
        lemma_at_most(r, n, k + 1);
    }
}

/// An object whose keys are `_0` to `_{n-1}`, each once and in any order,
/// is guessed as a tuple whose element `k` is the guess of the member
/// under `_k`.
pub proof fn law_tuple_order(fs: Seq<(Seq<char>, Json)>)
    requires
        2 <= fs.len() <= usize::MAX,
        forall|i: int| 0 <= i < fs.len() ==> is_positional_key(#[trigger] fs[i].0),
        forall|i: int| 0 <= i < fs.len() ==> positional_index(#[trigger] fs[i].0) < fs.len(),
        forall|i: int, j: int|
            0 <= i < j < fs.len() ==> positional_index(fs[i].0) != positional_index(fs[j].0),
        guess_members(fs) is Ok,
    ensures
        guess(Json::Object(fs)) matches Ok(SolValue::Tuple(t)) && t.len() == fs.len() && forall|
            j: int,
        |
            0 <= j < fs.len() ==> t[positional_index(#[trigger] fs[j].0) as int]
                == guess_members(fs)->Ok_0[j],
{
    broadcast use vstd::seq_lib::to_multiset_contains, vstd::seq_lib::to_multiset_len;

    let n = fs.len();
    let vs = guess_members(fs)->Ok_0;
    lemma_guess_members_len(fs);
    let es = positional_entries(fs);
    let r = sort_by_index(es);
    lemma_sort_multiset(es);
    lemma_sort_sorted(es);
    assert(r.len() == n) by {
        assert(r.to_multiset().len() == es.to_multiset().len());
    }
    assert(es.no_duplicates()) by {
        assert forall|i: int, j: int| 0 <= i < es.len() && 0 <= j < es.len() && i != j implies es[i]
            != es[j] by {
            assert(es[i].1 == i && es[j].1 == j);
        }
    }
    es.lemma_multiset_has_no_duplicates();
    assert forall|x: (nat, nat)| r.to_multiset().contains(x) implies r.to_multiset().count(x)
        == 1 by {
        assert(es.to_multiset().contains(x));
    }
    r.lemma_multiset_has_no_duplicates_conv();
    assert forall|k: int| 0 <= k < n implies exists|j: int| 0 <= j < n && #[trigger] r[k] == es[j] by {
        assert(r.contains(r[k]));
        assert(r.to_multiset().count(r[k]) > 0);
        assert(es.to_multiset().count(r[k]) > 0);
        assert(es.contains(r[k]));
    }
    assert forall|i: int, j: int| 0 <= i < j < n implies r[i].0 < r[j].0 by {
        let a = choose|p: int| 0 <= p < n && r[i] == es[p];
        let b = choose|p: int| 0 <= p < n && r[j] == es[p];
        assert(r[i].0 <= r[j].0);
        if r[i].0 == r[j].0 {
            if a != b {
                if a < b {
                    assert(positional_index(fs[a].0) != positional_index(fs[b].0));
                } else {
                    assert(positional_index(fs[b].0) != positional_index(fs[a].0));
                }
            }
            assert(r[i] == r[j]);
        }
    }
    assert forall|i: int| 0 <= i < n implies (#[trigger] r[i]).0 < n by {
        let a = choose|p: int| 0 <= p < n && r[i] == es[p];
        assert(r[i] == es[a]);
    }
    lemma_strict_positions(r, n);
    let t = tuple_values(vs, r);
    assert(!exists|i: int| 0 <= i < fs.len() && positional_index(#[trigger] fs[i].0) > usize::MAX) by {
        assert forall|i: int| 0 <= i < fs.len() implies positional_index(#[trigger] fs[i].0)
            <= usize::MAX by {
        }
    }
    assert forall|j: int| 0 <= j < n implies t[positional_index(#[trigger] fs[j].0) as int]
        == vs[j] by {
        let k = positional_index(fs[j].0) as int;
        let a = choose|p: int| 0 <= p < n && r[k] == es[p];
        assert(r[k].0 == k);
        assert(es[a].0 == positional_index(fs[a].0));
        if a != j {
            if a < j {
                assert(positional_index(fs[a].0) != positional_index(fs[j].0));
            } else {
                assert(positional_index(fs[j].0) != positional_index(fs[a].0));
            }
        }
        assert(r[k].1 == j);
    }
}

/// Guessing an address's text, `0x` and 40 hexadecimal digits in any letter
/// case (the checksummed text among them), gives that address back.
pub proof fn law_guess_address_text(t: Seq<char>, b: Seq<u8>)
    requires
        t.len() == 42,
        t.take(2) == seq!['0', 'x'],
        hex_decode(t) == Some(b),
    ensures
        guess(Json::String(t)) == Ok::<SolValue, Fault>(SolValue::Address(b)),
{
    assert(t[0] == t.take(2)[0] && t[1] == t.take(2)[1]);
    lemma_hex_pairs_len(strip_hex_prefix(t));
}

/// Guessing `0x`-prefixed integer text of 66 characters, or of fewer than 66
/// but not 42, gives the integer it denotes.
pub proof fn law_guess_hex_integer(t: Seq<char>, n: nat)
    requires
        starts_hex(t),
        t.len() <= 66,
        t.len() != 42,
        uint_text_value(t) == Some(n),
    ensures
        guess(Json::String(t)) == Ok::<SolValue, Fault>(SolValue::Uint(n)),
{
}

/// An object whose keys are all positional, two or more, is guessed as a
/// tuple of its member values in ascending order of their keys' numbers,
/// whatever the order of the members: a permutation `perm` of the member
/// positions puts element `k` at member `perm[k]`, and the numbers never
/// decrease along it.
pub proof fn law_tuple_sorted(fs: Seq<(Seq<char>, Json)>)
    requires
        2 <= fs.len(),
        forall|i: int| 0 <= i < fs.len() ==> is_positional_key(#[trigger] fs[i].0),
        forall|i: int| 0 <= i < fs.len() ==> positional_index(#[trigger] fs[i].0) <= usize::MAX,
        guess_members(fs) is Ok,
    ensures
        exists|perm: Seq<int>|
            {
                &&& perm.len() == fs.len()
                &&& forall|k: int| 0 <= k < fs.len() ==> 0 <= #[trigger] perm[k] < fs.len()
                &&& forall|k: int, l: int| 0 <= k < l < fs.len() ==> perm[k] != perm[l]
                &&& forall|k: int, l: int|
                    0 <= k < l < fs.len() ==> positional_index(fs[perm[k]].0) <= positional_index(
                        fs[perm[l]].0,
                    )
                &&& guess(Json::Object(fs)) matches Ok(SolValue::Tuple(t)) && t.len() == fs.len()
                    && forall|k: int| 0 <= k < fs.len() ==> #[trigger] t[k] == guess_members(fs)->Ok_0[perm[k]]
            },
{
    broadcast use vstd::seq_lib::to_multiset_contains, vstd::seq_lib::to_multiset_len;

    let n = fs.len();
    let vs = guess_members(fs)->Ok_0;
    lemma_guess_members_len(fs);
    let es = positional_entries(fs);
    let r = sort_by_index(es);
    lemma_sort_multiset(es);
    lemma_sort_sorted(es);
    lemma_sort_positions(fs);
    assert(es.no_duplicates()) by {
        assert forall|i: int, j: int| 0 <= i < es.len() && 0 <= j < es.len() && i != j implies es[i]
            != es[j] by {
            assert(es[i].1 == i && es[j].1 == j);
        }
    }
    es.lemma_multiset_has_no_duplicates();
    assert forall|x: (nat, nat)| r.to_multiset().contains(x) implies r.to_multiset().count(x)
        == 1 by {
        assert(es.to_multiset().contains(x));
    }
    r.lemma_multiset_has_no_duplicates_conv();
    assert forall|k: int| 0 <= k < n implies (#[trigger] r[k]) == es[r[k].1 as int] by {
        assert(r.contains(r[k]));
        assert(r.to_multiset().count(r[k]) > 0);
        assert(es.contains(r[k]));
        let a = choose|a: int| 0 <= a < es.len() && es[a] == r[k];
        assert(es[a].1 == a);
    }
    let perm = Seq::new(n, |k: int| r[k].1 as int);
    assert forall|k: int, l: int| 0 <= k < l < n implies perm[k] != perm[l] by {
        assert(r[k] == es[r[k].1 as int]);
        assert(r[l] == es[r[l].1 as int]);
    }
    assert forall|k: int, l: int| 0 <= k < l < n implies positional_index(fs[perm[k]].0)
        <= positional_index(fs[perm[l]].0) by {
        assert(r[k] == es[r[k].1 as int]);
        assert(r[l] == es[r[l].1 as int]);
        assert(r[k].0 <= r[l].0);
    }
    assert(!exists|i: int| 0 <= i < fs.len() && positional_index(#[trigger] fs[i].0) > usize::MAX);
    assert(tuple_values(vs, r) =~= Seq::new(n, |k: int| vs[perm[k]]));
    assert(shape_object(fs, vs) == Ok::<SolValue, Fault>(SolValue::Tuple(tuple_values(vs, r))));
    assert(forall|k: int| 0 <= k < fs.len() ==> 0 <= #[trigger] perm[k] < fs.len());
    assert(perm.len() == fs.len());
    assert(forall|k: int, l: int| 0 <= k < l < fs.len() ==> perm[k] != perm[l]);
    assert(forall|k: int, l: int|
        0 <= k < l < fs.len() ==> positional_index(fs[perm[k]].0) <= positional_index(fs[perm[l]].0));
    let t = tuple_values(vs, r);
    assert(guess(Json::Object(fs)) == Ok::<SolValue, Fault>(SolValue::Tuple(t)));
    assert(t.len() == fs.len());
    assert(forall|k: int| 0 <= k < fs.len() ==> #[trigger] t[k] == vs[perm[k]]);
}

/// The positions that sorting lists are positions of members.
proof fn lemma_sort_positions(fs: Seq<(Seq<char>, Json)>)
    ensures
        sort_by_index(positional_entries(fs)).len() == fs.len(),
        forall|k: int|
            0 <= k < fs.len() ==> (#[trigger] sort_by_index(positional_entries(fs))[k]).1 < fs.len(),
{
    broadcast use vstd::seq_lib::to_multiset_contains, vstd::seq_lib::to_multiset_len;

    let es = positional_entries(fs);
    let r = sort_by_index(es);
    lemma_sort_multiset(es);
    assert(r.to_multiset().len() == es.to_multiset().len());
    assert forall|k: int| 0 <= k < fs.len() implies (#[trigger] r[k]).1 < fs.len() by {
        assert(r.contains(r[k]));
        assert(r.to_multiset().count(r[k]) > 0);
        assert(es.contains(r[k]));
        let j = choose|j: int| 0 <= j < es.len() && es[j] == r[k];
        assert(es[j].1 == j);
    }
}

/// Every value the guesser produces is well formed: struct field names
/// are unique at every depth.
pub proof fn law_guess_well_formed(j: Json)
    ensures
        guess(j) matches Ok(v) ==> well_formed(v),
    decreases j,
{
    match j {
        Json::Array(xs) => lemma_guess_all_well_formed(xs),
        Json::Object(fs) => {
            lemma_guess_members_well_formed(fs);
            lemma_guess_members_len(fs);
            if guess_members(fs) is Ok {
                let vs = guess_members(fs)->Ok_0;
                lemma_sort_positions(fs);
                lemma_fields_of_well_formed(member_names(fs), vs);
                let t = tuple_values(vs, sort_by_index(positional_entries(fs)));
                assert forall|k: int| 0 <= k < t.len() implies well_formed(#[trigger] t[k]) by {
                    assert(sort_by_index(positional_entries(fs))[k].1 < fs.len());
                }
            }
        },
        _ => {},
    }
}

proof fn lemma_guess_all_well_formed(xs: Seq<Json>)
    ensures
        guess_all(xs) matches Ok(vs) ==> forall|i: int| 0 <= i < vs.len() ==> well_formed(#[trigger] vs[i]),
    decreases xs,
{
    if xs.len() > 0 {
        lemma_guess_all_well_formed(xs.subrange(0, xs.len() - 1));
        law_guess_well_formed(xs[xs.len() - 1]);
    }
}

proof fn lemma_guess_members_well_formed(fs: Seq<(Seq<char>, Json)>)
    ensures
        guess_members(fs) matches Ok(vs) ==> forall|i: int| 0 <= i < vs.len() ==> well_formed(#[trigger] vs[i]),
    decreases fs,
{
    if fs.len() > 0 {
        lemma_guess_members_well_formed(fs.subrange(0, fs.len() - 1));
        law_guess_well_formed(fs[fs.len() - 1].1);
    }
}

/// Relies on `regex::Regex::is_match` with the pattern `^_[0-9]+$`: an
/// underscore and one or more ASCII digits, and nothing else.
#[verifier::external_body]
fn positional_key(key: &str) -> (r: bool)
    ensures
        r == is_positional_key(key@),
{
    match regex::Regex::new(r"^_[0-9]+$") {
        Ok(re) => re.is_match(key),
        Err(_) => false,
    }
}

pub open spec fn pair_view(s: Seq<(usize, usize)>) -> Seq<(nat, nat)> {
    s.map_values(|x: (usize, usize)| (x.0 as nat, x.1 as nat))
}

proof fn lemma_insert_at(s: Seq<(nat, nat)>, e: (nat, nat), p: int)
    requires
        0 <= p <= s.len(),
        forall|j: int| p <= j < s.len() ==> (#[trigger] s[j]).0 > e.0,
        p == 0 || s[p - 1].0 <= e.0,
    ensures
        insert_by_index(s, e) == s.insert(p, e),
    decreases s.len(),
{
    if s.len() == p {
        if p == 0 {
            assert(s.insert(p, e) =~= seq![e]);
        } else {
            assert(s.insert(p, e) =~= s.push(e));
        }
    } else {
        let d = s.drop_last();
        assert(s.last().0 > e.0);
        lemma_insert_at(d, e, p);
        assert(d.insert(p, e).push(s.last()) =~= s.insert(p, e));
    }
}

fn insert_in_order(order: &mut Vec<(usize, usize)>, e: (usize, usize), bound: usize)
    requires
        e.1 < bound,
        forall|j: int| 0 <= j < old(order)@.len() ==> (#[trigger] old(order)@[j]).1 < bound,
    ensures
        pair_view(final(order)@) == insert_by_index(pair_view(old(order)@), (e.0 as nat, e.1 as nat)),
        final(order)@.len() == old(order)@.len() + 1,
        forall|j: int| 0 <= j < final(order)@.len() ==> (#[trigger] final(order)@[j]).1 < bound,
{
    let mut p = order.len();
    while p > 0 && order[p - 1].0 > e.0
        invariant
            p <= order@.len(),
            forall|j: int| p <= j < order@.len() ==> (#[trigger] order@[j]).0 > e.0,
        decreases p,
    {
        p = p - 1;
    }
    let ghost before = order@;
    proof {
        lemma_insert_at(pair_view(before), (e.0 as nat, e.1 as nat), p as int);
        assert(pair_view(before.insert(p as int, e)) =~= pair_view(before).insert(
            p as int,
            (e.0 as nat, e.1 as nat),
        ));
    }
    order.insert(p, e);
    assert(forall|j: int| 0 <= j < order@.len() ==> (#[trigger] order@[j]) == e || order@[j] == before[if j < p { j } else { j - 1 }]);
}

/// Whether every member key is positional.
fn all_positional(fs: &Vec<(String, JsonValue)>) -> (r: bool)
    ensures
        r == forall|i: int| 0 <= i < fs@.len() ==> is_positional_key(#[trigger] json_field_models(fs@)[i].0),
{
    proof {
        lemma_json_field_models(fs@);
    }
    let mut i: usize = 0;
    while i < fs.len()
        invariant
            i <= fs.len(),
            json_field_models(fs@).len() == fs@.len(),
            forall|j: int| 0 <= j < fs@.len() ==> #[trigger] json_field_models(fs@)[j] == (fs@[j].0@, json_model(fs@[j].1)),
            forall|j: int| 0 <= j < i ==> is_positional_key(#[trigger] json_field_models(fs@)[j].0),
        decreases fs.len() - i,
    {
        if !positional_key(fs[i].0.as_str()) {
            assert(!is_positional_key(json_field_models(fs@)[i as int].0));
            return false;
        }
        i = i + 1;
    }
    true
}

fn guess_text_value(s: &String) -> (r: Result<SolidityType, ValueError>)
    ensures
        match guess_text(s@) {
            Ok(v) => r matches Ok(x) && x@ == v,
            Err(e) => r matches Err(x) && x@ == e,
        },
{
    let t = s.as_str();
    let n = t.unicode_len();
    let hex = n >= 2 && t.get_char(0) == '0' && t.get_char(1) == 'x';
    if hex && n == 42 {
        match Address::parse(t) {
            Some(a) => Ok(SolidityType::Address(a)),
            None => Err(ValueError::Parse),
        }
    } else if hex && n > 66 {
        match bytes_from_text(t) {
            Some(b) => Ok(SolidityType::ByteArray(b)),
            None => Err(ValueError::Parse),
        }
    } else if hex {
        match U256::parse(t) {
            Some(u) => Ok(SolidityType::Uint(u)),
            None => Err(ValueError::Parse),
        }
    } else {
        Ok(SolidityType::String(s.clone()))
    }
}

fn guess_array(xs: &Vec<JsonValue>) -> (r: Result<SolidityType, ValueError>)
    ensures
        match guess_all(json_models(xs@)) {
            Ok(vs) => r matches Ok(x) && x@ == SolValue::List(vs),
            Err(e) => r matches Err(x) && x@ == e,
        },
    decreases xs, 0nat,
{
    proof {
        lemma_json_models(xs@);
    }
    let ghost m = json_models(xs@);
    let mut out: Vec<SolidityType> = Vec::new();
    let mut i: usize = 0;
    assert(m.subrange(0, 0) =~= Seq::<Json>::empty());
    while i < xs.len()
        invariant
            i <= xs.len(),
            m == json_models(xs@),
            m.len() == xs@.len(),
            forall|j: int| 0 <= j < xs@.len() ==> #[trigger] m[j] == json_model(xs@[j]),
            guess_all(m.subrange(0, i as int)) == Ok::<Seq<SolValue>, Fault>(models(out@)),
        decreases xs.len() - i,
    {
        proof {
            assert(decreases_to!(xs => xs[i as int]));
            let t = m.subrange(0, i + 1);
            assert(t.subrange(0, t.len() - 1) =~= m.subrange(0, i as int));
        }
        match SolidityType::guess_json_value(&xs[i]) {
            Ok(v) => {
                proof {
                    lemma_models_push(out@, v);
                }
                out.push(v);
            },
            Err(e) => {
                proof {
                    lemma_guess_all_prefix_err(m, i + 1);
                }
                return Err(e);
            },
        }
        i = i + 1;
    }
    assert(m.subrange(0, xs@.len() as int) =~= m);
    Ok(SolidityType::List(out))
}

/// The guesses of the member values, in order.
fn guess_member_values(fs: &Vec<(String, JsonValue)>) -> (r: Result<Vec<SolidityType>, ValueError>)
    ensures
        match guess_members(json_field_models(fs@)) {
            Ok(vs) => r matches Ok(x) && models(x@) == vs,
            Err(e) => r matches Err(x) && x@ == e,
        },
    decreases fs, 0nat,
{
    proof {
        lemma_json_field_models(fs@);
    }
    let ghost m = json_field_models(fs@);
    let mut out: Vec<SolidityType> = Vec::new();
    let mut i: usize = 0;
    assert(m.subrange(0, 0) =~= Seq::<(Seq<char>, Json)>::empty());
    while i < fs.len()
        invariant
            i <= fs.len(),
            m == json_field_models(fs@),
            m.len() == fs@.len(),
            forall|j: int| 0 <= j < fs@.len() ==> #[trigger] m[j] == (fs@[j].0@, json_model(fs@[j].1)),
            guess_members(m.subrange(0, i as int)) == Ok::<Seq<SolValue>, Fault>(models(out@)),
        decreases fs.len() - i,
    {
        proof {
            assert(decreases_to!(fs => fs[i as int]));
            let t = m.subrange(0, i + 1);
            assert(t.subrange(0, t.len() - 1) =~= m.subrange(0, i as int));
        }
        match SolidityType::guess_json_value(&fs[i].1) {
            Ok(v) => {
                proof {
                    lemma_models_push(out@, v);
                }
                out.push(v);
            },
            Err(e) => {
                proof {
                    lemma_guess_members_prefix_err(m, i + 1);
                }
                return Err(e);
            },
        }
        i = i + 1;
    }
    assert(m.subrange(0, fs@.len() as int) =~= m);
    Ok(out)
}

proof fn lemma_guess_all_prefix_err(xs: Seq<Json>, k: int)
    requires
        0 <= k <= xs.len(),
        guess_all(xs.subrange(0, k)) is Err,
    ensures
        guess_all(xs) == guess_all(xs.subrange(0, k)),
    decreases xs.len(),
{
    if xs.len() > k {
        let d = xs.subrange(0, xs.len() - 1);
        assert(d.subrange(0, k) =~= xs.subrange(0, k));
        lemma_guess_all_prefix_err(d, k);
    } else {
        assert(xs.subrange(0, k) =~= xs);
    }
}

proof fn lemma_guess_members_prefix_err(fs: Seq<(Seq<char>, Json)>, k: int)
    requires
        0 <= k <= fs.len(),
        guess_members(fs.subrange(0, k)) is Err,
    ensures
        guess_members(fs) == guess_members(fs.subrange(0, k)),
    decreases fs.len(),
{
    if fs.len() > k {
        let d = fs.subrange(0, fs.len() - 1);
        assert(d.subrange(0, k) =~= fs.subrange(0, k));
        lemma_guess_members_prefix_err(d, k);
    } else {
        assert(fs.subrange(0, k) =~= fs);
    }
}

proof fn lemma_guess_members_len(fs: Seq<(Seq<char>, Json)>)
    ensures
        guess_members(fs) matches Ok(vs) ==> vs.len() == fs.len(),
    decreases fs.len(),
{
    if fs.len() > 0 {
        lemma_guess_members_len(fs.subrange(0, fs.len() - 1));
    }
}

fn shape_members(fs: &Vec<(String, JsonValue)>, vals: Vec<SolidityType>) -> (r: Result<
    SolidityType,
    ValueError,
>)
    requires
        vals@.len() == fs@.len(),
    ensures
        match shape_object(json_field_models(fs@), models(vals@)) {
            Ok(v) => r matches Ok(x) && x@ == v,
            Err(e) => r matches Err(x) && x@ == e,
        },
{
    proof {
        lemma_json_field_models(fs@);
        lemma_models(vals@);
    }
    let ghost m = json_field_models(fs@);
    let ghost vs = models(vals@);
    let n = fs.len();
    if all_positional(fs) {
        let mut order: Vec<(usize, usize)> = Vec::new();
        let mut i: usize = 0;
        assert(positional_entries(m).take(0) =~= Seq::<(nat, nat)>::empty());
        while i < n
            invariant
                i <= n,
                n == fs@.len(),
                m == json_field_models(fs@),
                m.len() == n,
                forall|j: int| 0 <= j < n ==> #[trigger] m[j] == (fs@[j].0@, json_model(fs@[j].1)),
                forall|j: int| 0 <= j < n ==> is_positional_key(#[trigger] m[j].0),
                pair_view(order@) == sort_by_index(positional_entries(m).take(i as int)),
                order@.len() == i,
                forall|j: int| 0 <= j < order@.len() ==> (#[trigger] order@[j]).1 < n,
                forall|j: int| 0 <= j < i ==> positional_index(#[trigger] m[j].0) <= usize::MAX,
            decreases n - i,
        {
            let key = fs[i].0.as_str();
            let len = key.unicode_len();
            assert(is_positional_key(m[i as int].0));
            let digits = key.substring_char(1, len);
            assert(digits@ =~= key@.skip(1));
            assert(key@ == m[i as int].0);
            proof {
                lemma_decimal_text_value(key@.skip(1));
            }
            match parse_digits(digits) {
                Some(Some(idx)) => {
                    proof {
                        let es = positional_entries(m);
                        let t = es.take(i + 1);
                        assert(t.drop_last() =~= es.take(i as int));
                        assert(t.last() == (idx as nat, i as nat));
                    }
                    insert_in_order(&mut order, (idx, i), n);
                },
                _ => {
                    assert(positional_index(m[i as int].0) > usize::MAX);
                    return Err(ValueError::Guess);
                },
            }
            i = i + 1;
        }
        assert(positional_entries(m).take(n as int) =~= positional_entries(m));
        if n == 1 {
            return Ok(vals[0].deep_clone());
        }
        let mut out: Vec<SolidityType> = Vec::new();
        let mut k: usize = 0;
        while k < n
            invariant
                k <= n,
                order@.len() == n,
                vals@.len() == n,
                vs.len() == n,
                vs == models(vals@),
                forall|j: int| 0 <= j < n ==> #[trigger] vs[j] == model(vals@[j]),
                forall|j: int| 0 <= j < order@.len() ==> (#[trigger] order@[j]).1 < n,
                out@.len() == k,
                forall|j: int| 0 <= j < k ==> model(#[trigger] out@[j]) == vs[order@[j].1 as int],
            decreases n - k,
        {
            let pos = order[k].1;
            let c = vals[pos].deep_clone();
            out.push(c);
            k = k + 1;
        }
        proof {
            lemma_models(out@);
            assert(models(out@) =~= tuple_values(vs, pair_view(order@)));
        }
        Ok(SolidityType::Tuple(out))
    } else {
        let mut st = SolidityType::Struct(Vec::new());
        let mut i: usize = 0;
        proof {
            crate::value::lemma_field_models(Seq::<(String, SolidityType)>::empty());
            assert(member_names(m).take(0) =~= Seq::<Seq<char>>::empty());
        }
        assert(st@ == SolValue::Struct(Seq::empty()));
        while i < n
            invariant
                i <= n,
                n == fs@.len(),
                vals@.len() == n,
                m == json_field_models(fs@),
                m.len() == n,
                forall|j: int| 0 <= j < n ==> #[trigger] m[j] == (fs@[j].0@, json_model(fs@[j].1)),
                vs == models(vals@),
                vs.len() == n,
                forall|j: int| 0 <= j < n ==> #[trigger] vs[j] == model(vals@[j]),
                st@ == SolValue::Struct(fields_of(member_names(m).take(i as int), vs.take(i as int))),
            decreases n - i,
        {
            let c = vals[i].deep_clone();
            let _ = st.insert(fs[i].0.as_str(), c);
            proof {
                let ns = member_names(m).take(i + 1);
                let ws = vs.take(i + 1);
                assert(ns.drop_last() =~= member_names(m).take(i as int));
                assert(ws.drop_last() =~= vs.take(i as int));
                assert(ns.last() == fs@[i as int].0@);
                assert(ws.last() == model(vals@[i as int]));
            }
            i = i + 1;
        }
        proof {
            assert(member_names(m).take(n as int) =~= member_names(m));
            assert(vs.take(n as int) =~= vs);
        }
        Ok(st)
    }
}

impl SolidityType {
    /// The value that untyped JSON is taken for, as `guess` describes it.
    pub fn guess_json_value(value: &JsonValue) -> (r: Result<SolidityType, ValueError>)
        ensures
            match guess(value@) {
                Ok(v) => r matches Ok(x) && x@ == v,
                Err(e) => r matches Err(x) && x@ == e,
            },
        decreases value,
    {
        match value {
            JsonValue::Null => Err(ValueError::Guess),
            JsonValue::Bool(b) => Ok(SolidityType::Boolean(*b)),
            JsonValue::Number(n) => Ok(SolidityType::Uint(U256::from_u64(*n))),
            JsonValue::String(s) => guess_text_value(s),
            JsonValue::Array(xs) => guess_array(xs),
            JsonValue::Object(fs) => {
                proof {
                    lemma_guess_members_len(json_field_models(fs@));
                    lemma_json_field_models(fs@);
                }
                match guess_member_values(fs) {
                    Ok(vals) => {
                        proof {
                            lemma_models(vals@);
                        }
                        shape_members(fs, vals)
                    },
                    Err(e) => Err(e),
                }
            },
        }
    }
}

} // verus!
