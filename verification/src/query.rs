//! Query strings as lists of key-value pairs.

use vstd::prelude::*;

verus! {

/// The pieces of `text` that lie between the occurrences of `sep`, in
/// order and empty ones included: one more than there are occurrences.
pub open spec fn pieces(text: Seq<char>, sep: char) -> Seq<Seq<char>>
    decreases text.len(),
{
    if text.len() == 0 {
        seq![Seq::empty()]
    } else {
        let front = pieces(text.drop_last(), sep);
        if text.last() == sep {
            front.push(Seq::empty())
        } else {
            front.drop_last().push(front.last().push(text.last()))
        }
    }
}

/// The pair that one piece of a query holds: what stands before its first
/// `=`, and what stands between that and the next `=` or the end. A piece
/// without `=` holds none.
pub open spec fn pair_in(piece: Seq<char>) -> Option<(Seq<char>, Seq<char>)> {
    let parts = pieces(piece, '=');
    if parts.len() >= 2 {
        Some((parts[0], parts[1]))
    } else {
        None
    }
}

/// The pairs that a list of pieces holds, in order.
pub open spec fn pairs_in(parts: Seq<Seq<char>>) -> Seq<(Seq<char>, Seq<char>)>
    decreases parts.len(),
{
    if parts.len() == 0 {
        Seq::empty()
    } else {
        match pair_in(parts.last()) {
            Some(pair) => pairs_in(parts.drop_last()).push(pair),
            None => pairs_in(parts.drop_last()),
        }
    }
}

/// What `querystring::querify` finds in a query: the text cut at every
/// `&`, and of each piece the pair it holds.
pub open spec fn querified(query: Seq<char>) -> Seq<(Seq<char>, Seq<char>)> {
    pairs_in(pieces(query, '&'))
}

/// Calls `querystring::querify` and copies each key and value it returns
/// into a `String`. The crate splits the text on `&`, splits each piece on
/// `=`, and keeps the first two parts of a piece that has two or more,
/// which is what `querified` says.
#[verifier::external_body]
pub(crate) fn querify(query: &str) -> (pairs: Vec<(String, String)>)
    ensures
        pairs.deep_view() == querified(query@),
{
    querystring::querify(query).into_iter().map(
        |(key, value)| (key.to_string(), value.to_string()),
    ).collect()
}

/// What `querystring::stringify` writes for a list of pairs: each pair as
/// its key, `=`, its value and `&`, one after the other.
pub open spec fn stringified(pairs: Seq<(Seq<char>, Seq<char>)>) -> Seq<char>
    decreases pairs.len(),
{
    if pairs.len() == 0 {
        Seq::empty()
    } else {
        stringified(pairs.drop_last()) + pairs.last().0 + "="@ + pairs.last().1 + "&"@
    }
}

/// Calls `querystring::stringify` on the pairs, lent as string slices. The
/// crate folds over the list and appends key, `=`, value and `&` for each
/// pair, which is what `stringified` says.
#[verifier::external_body]
pub(crate) fn stringify(pairs: &Vec<(String, String)>) -> (text: String)
    ensures
        text@ == stringified(pairs.deep_view()),
{
    querystring::stringify(pairs.iter().map(|pair| (pair.0.as_str(), pair.1.as_str())).collect())
}

/// `String::pop` takes the last character off a string and returns it, and
/// returns `None` and leaves the string as it is where it is empty.
pub assume_specification[ String::pop ](s: &mut String) -> (c: Option<char>)
    ensures
        old(s)@.len() == 0 ==> c is None && final(s)@ == old(s)@,
        old(s)@.len() > 0 ==> c == Some(old(s)@.last()) && final(s)@ == old(s)@.drop_last(),
;

/// The query that holds the pairs: each written as `key=value`, with `&`
/// between one and the next, and empty where there is no pair.
pub open spec fn query_text(pairs: Seq<(Seq<char>, Seq<char>)>) -> Seq<char> {
    if pairs.len() == 0 {
        Seq::empty()
    } else {
        stringified(pairs).drop_last()
    }
}

/// Writes the pairs out as a query.
pub fn to_query(pairs: &Vec<(String, String)>) -> (text: String)
    ensures
        text@ == query_text(pairs.deep_view()),
{
    let mut text = stringify(pairs);
    proof {
        lemma_stringified_len(pairs.deep_view());
    }
    text.pop();
    text
}

/// The first position at which `key` occurs as a key, if any.
pub open spec fn slot(pairs: Seq<(Seq<char>, Seq<char>)>, key: Seq<char>) -> Option<int>
    decreases pairs.len(),
{
    if pairs.len() == 0 {
        None
    } else {
        match slot(pairs.drop_last(), key) {
            Some(i) => Some(i),
            None => if pairs.last().0 == key {
                Some(pairs.len() - 1)
            } else {
                None
            },
        }
    }
}

/// The pairs with `key` bound to `value`: in place where the key occurs,
/// at the end where it does not.
pub open spec fn assigned(
    pairs: Seq<(Seq<char>, Seq<char>)>,
    key: Seq<char>,
    value: Seq<char>,
) -> Seq<(Seq<char>, Seq<char>)> {
    match slot(pairs, key) {
        Some(i) => pairs.update(i, (key, value)),
        None => pairs.push((key, value)),
    }
}

/// The pairs read as a mapping: each key once, at the place of its first
/// occurrence, with the value of its last.
pub open spec fn collapsed(pairs: Seq<(Seq<char>, Seq<char>)>) -> Seq<(Seq<char>, Seq<char>)>
    decreases pairs.len(),
{
    if pairs.len() == 0 {
        Seq::empty()
    } else {
        assigned(collapsed(pairs.drop_last()), pairs.last().0, pairs.last().1)
    }
}

/// `slot` finds the first occurrence of the key, or none where there is
/// none.
pub proof fn lemma_slot(pairs: Seq<(Seq<char>, Seq<char>)>, key: Seq<char>)
    ensures
        match slot(pairs, key) {
            Some(i) => {
                &&& 0 <= i < pairs.len()
                &&& pairs[i].0 == key
                &&& forall|j: int| 0 <= j < i ==> pairs[j].0 != key
            },
            None => forall|j: int| 0 <= j < pairs.len() ==> pairs[j].0 != key,
        },
    decreases pairs.len(),
{
    if pairs.len() > 0 {
        let front = pairs.drop_last();
        lemma_slot(front, key);
        assert forall|j: int| 0 <= j < front.len() implies front[j] == pairs[j] by {}
    }
}

/// The value that a list of pairs gives a key when it is read as a
/// mapping: that of the last pair with the key.
pub open spec fn value_of(pairs: Seq<(Seq<char>, Seq<char>)>, key: Seq<char>) -> Option<Seq<char>>
    decreases pairs.len(),
{
    if pairs.len() == 0 {
        None
    } else if pairs.last().0 == key {
        Some(pairs.last().1)
    } else {
        value_of(pairs.drop_last(), key)
    }
}

/// No key occurs twice.
pub open spec fn distinct_keys(pairs: Seq<(Seq<char>, Seq<char>)>) -> bool {
    forall|i: int, j: int| 0 <= i < j < pairs.len() ==> pairs[i].0 != pairs[j].0
}

/// A position that holds the key, with no earlier one that does, is the
/// key's slot.
pub proof fn lemma_slot_at(pairs: Seq<(Seq<char>, Seq<char>)>, key: Seq<char>, i: int)
    requires
        0 <= i < pairs.len(),
        pairs[i].0 == key,
        forall|j: int| 0 <= j < i ==> pairs[j].0 != key,
    ensures
        slot(pairs, key) == Some(i),
{
    lemma_slot(pairs, key);
    let found = slot(pairs, key)->0;
    assert(found >= i || pairs[found].0 != key);
}

/// Where no key occurs twice, a key's value is the one in its slot.
pub proof fn lemma_value_in_slot(pairs: Seq<(Seq<char>, Seq<char>)>, key: Seq<char>)
    requires
        distinct_keys(pairs),
    ensures
        value_of(pairs, key) == match slot(pairs, key) {
            Some(i) => Some(pairs[i].1),
            None => None,
        },
    decreases pairs.len(),
{
    lemma_slot(pairs, key);
    if pairs.len() > 0 {
        let front = pairs.drop_last();
        assert forall|j: int| 0 <= j < front.len() implies front[j] == pairs[j] by {}
        if pairs.last().0 == key {
            lemma_slot_at(pairs, key, pairs.len() - 1);
        } else {
            lemma_value_in_slot(front, key);
            lemma_slot(front, key);
        }
    }
}

/// Binding a key in a list without repeated keys leaves a list without
/// repeated keys, in which the key has the new value and every other key
/// the value it had.
pub proof fn lemma_assigned(
    pairs: Seq<(Seq<char>, Seq<char>)>,
    key: Seq<char>,
    value: Seq<char>,
    other: Seq<char>,
)
    requires
        distinct_keys(pairs),
    ensures
        distinct_keys(assigned(pairs, key, value)),
        value_of(assigned(pairs, key, value), key) == Some(value),
        other != key ==> value_of(assigned(pairs, key, value), other) == value_of(pairs, other),
{
    let after = assigned(pairs, key, value);
    lemma_slot(pairs, key);
    let at = match slot(pairs, key) {
        Some(i) => i,
        None => pairs.len() as int,
    };
    assert(after.len() > at && after[at] == (key, value));
    assert forall|j: int| 0 <= j < after.len() && j != at implies after[j] == pairs[j] by {}
    assert(distinct_keys(after));
    lemma_slot_at(after, key, at);
    lemma_value_in_slot(after, key);
    if other != key {
        lemma_slot(pairs, other);
        lemma_value_in_slot(pairs, other);
        lemma_value_in_slot(after, other);
        match slot(pairs, other) {
            Some(i) => {
                lemma_slot_at(after, other, i);
            },
            None => {
                lemma_slot(after, other);
            },
        }
    }
}

/// Reading a list as a mapping keeps each key once and gives it the value
/// of its last occurrence.
pub proof fn lemma_collapsed(pairs: Seq<(Seq<char>, Seq<char>)>, key: Seq<char>)
    ensures
        distinct_keys(collapsed(pairs)),
        value_of(collapsed(pairs), key) == value_of(pairs, key),
    decreases pairs.len(),
{
    if pairs.len() > 0 {
        lemma_collapsed(pairs.drop_last(), key);
        lemma_assigned(collapsed(pairs.drop_last()), pairs.last().0, pairs.last().1, key);
    }
}

/// Pairs written out take at least one character each.
pub proof fn lemma_stringified_len(pairs: Seq<(Seq<char>, Seq<char>)>)
    ensures
        stringified(pairs).len() >= pairs.len(),
    decreases pairs.len(),
{
    if pairs.len() > 0 {
        reveal_strlit("&");
        lemma_stringified_len(pairs.drop_last());
    }
}

/// Binding a key a second time only replaces the value of the first time.
pub proof fn lemma_assigned_again(
    pairs: Seq<(Seq<char>, Seq<char>)>,
    key: Seq<char>,
    first: Seq<char>,
    second: Seq<char>,
)
    ensures
        assigned(assigned(pairs, key, first), key, second) == assigned(pairs, key, second),
{
    lemma_slot(pairs, key);
    let once = assigned(pairs, key, first);
    lemma_slot(once, key);
    match slot(pairs, key) {
        Some(i) => {
            assert(once[i].0 == key);
            let again = slot(once, key)->0;
            assert(again <= i);
            assert(again < i ==> once[again] == pairs[again]);
            assert(again == i);
            assert(once.update(i, (key, second)) =~= pairs.update(i, (key, second)));
        },
        None => {
            let at = pairs.len() as int;
            assert(once[at].0 == key);
            let again = slot(once, key)->0;
            assert(again < at ==> once[again] == pairs[again]);
            assert(again == at);
            assert(once.update(at, (key, second)) =~= pairs.push((key, second)));
        },
    }
}

/// Binds `key` to `value` in a list of pairs.
pub fn assign(pairs: &mut Vec<(String, String)>, key: &str, value: String)
    ensures
        final(pairs).deep_view() == assigned(old(pairs).deep_view(), key@, value@),
{
    let wanted = String::from_str(key);
    let ghost before = pairs.deep_view();
    let mut i: usize = 0;
    while i < pairs.len()
        invariant
            i <= pairs.len(),
            wanted@ == key@,
            before == old(pairs).deep_view(),
            before == pairs.deep_view(),
            forall|j: int| 0 <= j < i ==> before[j].0 != key@,
        decreases pairs.len() - i,
    {
        assert(before[i as int] == pairs@[i as int].deep_view());
        if pairs[i].0 == wanted {
            proof {
                lemma_slot(before, key@);
                let found = slot(before, key@)->0;
                assert(found >= i || before[found].0 != key@);
                assert(found == i);
            }
            pairs.set(i, (wanted, value));
            assert(pairs.deep_view() =~= before.update(i as int, (key@, value@)));
            return ;
        }
        i += 1;
    }
    proof {
        lemma_slot(before, key@);
    }
    pairs.push((wanted, value));
    assert(pairs.deep_view() =~= before.push((key@, value@)));
}

/// Reads a list of pairs as a mapping from key to value.
pub fn collapse(pairs: &Vec<(String, String)>) -> (unique: Vec<(String, String)>)
    ensures
        unique.deep_view() == collapsed(pairs.deep_view()),
{
    let mut unique: Vec<(String, String)> = Vec::new();
    let mut i: usize = 0;
    assert(pairs.deep_view().take(0) =~= Seq::empty());
    assert(unique.deep_view() =~= Seq::empty());
    while i < pairs.len()
        invariant
            i <= pairs.len(),
            unique.deep_view() == collapsed(pairs.deep_view().take(i as int)),
        decreases pairs.len() - i,
    {
        let ghost seen = pairs.deep_view().take(i as int + 1);
        assert(seen.drop_last() =~= pairs.deep_view().take(i as int));
        assert(seen.last() == pairs@[i as int].deep_view());
        let value = pairs[i].1.clone();
        assign(&mut unique, pairs[i].0.as_str(), value);
        i += 1;
    }
    assert(pairs.deep_view().take(i as int) =~= pairs.deep_view());
    unique
}

/// Whether one of the pairs is `key` with `value`.
pub fn holds(pairs: &Vec<(String, String)>, key: &str, value: &str) -> (found: bool)
    ensures
        found == pairs.deep_view().contains((key@, value@)),
{
    let key_owned = String::from_str(key);
    let value_owned = String::from_str(value);
    let ghost all = pairs.deep_view();
    let mut i: usize = 0;
    while i < pairs.len()
        invariant
            i <= pairs.len(),
            key_owned@ == key@,
            value_owned@ == value@,
            all == pairs.deep_view(),
            forall|j: int| 0 <= j < i ==> all[j] != (key@, value@),
        decreases pairs.len() - i,
    {
        assert(all[i as int] == pairs@[i as int].deep_view());
        if pairs[i].0 == key_owned && pairs[i].1 == value_owned {
            return true;
        }
        i += 1;
    }
    false
}

} // verus!
