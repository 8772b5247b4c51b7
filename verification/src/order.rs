//! The order in which packages are listed: by full name, as `String`'s
//! ordering compares them, keeping packages of equal names in the order they
//! were found.

use vstd::prelude::*;
use crate::text::chars_of;

verus! {

/// `a` comes before `b` or equals it, in the lexicographic order of their
/// characters (which is the byte order of their UTF-8 encodings).
pub open spec fn lex_le(a: Seq<char>, b: Seq<char>) -> bool
    decreases a.len(),
{
    if a.len() == 0 {
        true
    } else if b.len() == 0 {
        false
    } else if a[0] != b[0] {
        a[0] < b[0]
    } else {
        lex_le(a.drop_first(), b.drop_first())
    }
}

pub proof fn lemma_lex_total(a: Seq<char>, b: Seq<char>)
    ensures
        lex_le(a, b) || lex_le(b, a),
    decreases a.len(),
{
    if a.len() > 0 && b.len() > 0 && a[0] == b[0] {
        lemma_lex_total(a.drop_first(), b.drop_first());
    }
}

pub proof fn lemma_lex_antisymmetric(a: Seq<char>, b: Seq<char>)
    requires
        lex_le(a, b),
        lex_le(b, a),
    ensures
        a == b,
    decreases a.len(),
{
    if a.len() > 0 && b.len() > 0 {
        if a[0] == b[0] {
            lemma_lex_antisymmetric(a.drop_first(), b.drop_first());
            assert(a =~= seq![a[0]] + a.drop_first());
            assert(b =~= seq![b[0]] + b.drop_first());
        }
    } else {
        assert(a.len() == 0 && b.len() == 0);
        assert(a =~= b);
    }
}

pub proof fn lemma_lex_transitive(a: Seq<char>, b: Seq<char>, c: Seq<char>)
    requires
        lex_le(a, b),
        lex_le(b, c),
    ensures
        lex_le(a, c),
    decreases a.len(),
{
    if a.len() > 0 && b.len() > 0 && c.len() > 0 && a[0] == b[0] && b[0] == c[0] {
        lemma_lex_transitive(a.drop_first(), b.drop_first(), c.drop_first());
    }
}

/// A name comes before every name that begins with it.
pub proof fn lemma_lex_prefix_first(a: Seq<char>, b: Seq<char>)
    requires
        a.len() <= b.len(),
        b.take(a.len() as int) == a,
    ensures
        lex_le(a, b),
    decreases a.len(),
{
    if a.len() > 0 {
        assert(b.take(a.len() as int)[0] == b[0]);
        assert(b.drop_first().take(a.drop_first().len() as int) =~= a.drop_first()) by {
            assert forall|k: int| 0 <= k < a.len() - 1 implies b.drop_first()[k] == a.drop_first()[k] by {
                assert(b.take(a.len() as int)[k + 1] == b[k + 1]);
            }
        }
        lemma_lex_prefix_first(a.drop_first(), b.drop_first());
    }
}

/// Of two names that agree before position `i` and differ at it, the one
/// with the smaller character there comes first.
pub proof fn lemma_lex_first_difference(a: Seq<char>, b: Seq<char>, i: int)
    requires
        0 <= i < a.len(),
        i < b.len(),
        forall|k: int| 0 <= k < i ==> a[k] == b[k],
        a[i] != b[i],
    ensures
        lex_le(a, b) <==> a[i] < b[i],
    decreases i,
{
    if i > 0 {
        assert(a[0] == b[0]);
        assert forall|k: int| 0 <= k < i - 1 implies a.drop_first()[k] == b.drop_first()[k] by {
            assert(a[k + 1] == b[k + 1]);
        }
        lemma_lex_first_difference(a.drop_first(), b.drop_first(), i - 1);
    }
}

fn lex_le_exec(a: &Vec<char>, b: &Vec<char>) -> (r: bool)
    ensures
        r == lex_le(a@, b@),
{
    let mut i: usize = 0;
    assert(a@.skip(0) =~= a@);
    assert(b@.skip(0) =~= b@);
    loop
        invariant
            i <= a@.len(),
            i <= b@.len(),
            lex_le(a@.skip(i as int), b@.skip(i as int)) == lex_le(a@, b@),
        decreases a@.len() - i,
    {
        if i == a.len() {
            return true;
        }
        if i == b.len() {
            return false;
        }
        assert(a@.skip(i as int)[0] == a@[i as int]);
        assert(b@.skip(i as int)[0] == b@[i as int]);
        if a[i] != b[i] {
            return a[i] < b[i];
        }
        assert(a@.skip(i as int).drop_first() =~= a@.skip(i + 1));
        assert(b@.skip(i as int).drop_first() =~= b@.skip(i + 1));
        i = i + 1;
    }
}

/// `order` lists each index of `keys` once.
pub open spec fn is_permutation(order: Seq<usize>, n: nat) -> bool {
    &&& order.len() == n
    &&& order.no_duplicates()
    &&& forall|i: int| 0 <= i < order.len() ==> #[trigger] order[i] < n
}

/// Listing the keys in `order` sorts them, and equal keys keep the order of
/// their indices.
pub open spec fn sorts_stably(keys: Seq<Seq<char>>, order: Seq<usize>) -> bool {
    forall|i: int, j: int|
        0 <= i < j < order.len() ==> lex_le(keys[#[trigger] order[i] as int], keys[#[trigger] order[j] as int])
            && (keys[order[i] as int] == keys[order[j] as int] ==> order[i] < order[j])
}

/// The order in which to list items with these names (`sort_by` on the
/// names): a permutation of their indices that sorts the names stably.
pub fn sort_order(names: &Vec<String>) -> (order: Vec<usize>)
    ensures
        is_permutation(order@, names@.len()),
        sorts_stably(names@.map_values(|s: String| s@), order@),
{
    let ghost keys = names@.map_values(|s: String| s@);
    let mut chars: Vec<Vec<char>> = Vec::new();
    let mut k: usize = 0;
    while k < names.len()
        invariant
            k <= names@.len(),
            keys == names@.map_values(|s: String| s@),
            chars@.len() == k,
            forall|m: int| 0 <= m < k ==> (#[trigger] chars@[m])@ == keys[m],
        decreases names@.len() - k,
    {
        chars.push(chars_of(names[k].as_str()));
        k = k + 1;
    }
    let mut order: Vec<usize> = Vec::new();
    let mut i: usize = 0;
    while i < chars.len()
        invariant
            i <= chars@.len() == keys.len(),
            forall|m: int| 0 <= m < chars@.len() ==> (#[trigger] chars@[m])@ == keys[m],
            order@.len() == i,
            order@.no_duplicates(),
            forall|q: int| 0 <= q < order@.len() ==> #[trigger] order@[q] < i,
            sorts_stably(keys, order@),
        decreases chars@.len() - i,
    {
        let mut pos: usize = 0;
        while pos < order.len() && lex_le_exec(&chars[order[pos]], &chars[i])
            invariant
                pos <= order@.len(),
                i < chars@.len() == keys.len(),
                forall|m: int| 0 <= m < chars@.len() ==> (#[trigger] chars@[m])@ == keys[m],
                forall|q: int| 0 <= q < order@.len() ==> #[trigger] order@[q] < i,
                forall|q: int| 0 <= q < pos ==> lex_le(keys[#[trigger] order@[q] as int], keys[i as int]),
            decreases order@.len() - pos,
        {
            pos = pos + 1;
        }
        let ghost before = order@;
        proof {
            assert forall|q: int| pos <= q < before.len() implies !lex_le(
                keys[#[trigger] before[q] as int],
                keys[i as int],
            ) by {
                if pos < before.len() {
                    assert(!lex_le(keys[before[pos as int] as int], keys[i as int]));
                    if q > pos && lex_le(keys[before[q] as int], keys[i as int]) {
                        assert(lex_le(keys[before[pos as int] as int], keys[before[q] as int]));
                        lemma_lex_transitive(
                            keys[before[pos as int] as int],
                            keys[before[q] as int],
                            keys[i as int],
                        );
                    }
                }
            }
        }
        order.insert(pos, i);
        proof {
            assert(order@ =~= before.subrange(0, pos as int).push(i).add(
                before.subrange(pos as int, before.len() as int),
            ));
            assert forall|q: int| 0 <= q < order@.len() implies #[trigger] order@[q] < i + 1 by {
                if q < pos {
                    assert(order@[q] == before[q]);
                } else if q > pos {
                    assert(order@[q] == before[q - 1]);
                }
            }
            assert(order@.no_duplicates()) by {
                assert forall|a: int, b: int|
                    0 <= a < order@.len() && 0 <= b < order@.len() && a != b implies order@[a]
                    != order@[b] by {
                    let ia = if a < pos { a } else if a == pos { -1 } else { a - 1 };
                    let ib = if b < pos { b } else if b == pos { -1 } else { b - 1 };
                    if ia >= 0 {
                        assert(order@[a] == before[ia]);
                    }
                    if ib >= 0 {
                        assert(order@[b] == before[ib]);
                    }
                }
            }
            assert forall|a: int, b: int| 0 <= a < b < order@.len() implies lex_le(
                keys[#[trigger] order@[a] as int],
                keys[#[trigger] order@[b] as int],
            ) && (keys[order@[a] as int] == keys[order@[b] as int] ==> order@[a] < order@[b]) by {
                let ia = if a < pos { a } else if a == pos { -1 } else { a - 1 };
                let ib = if b < pos { b } else if b == pos { -1 } else { b - 1 };
                if ia >= 0 {
                    assert(order@[a] == before[ia]);
                }
                if ib >= 0 {
                    assert(order@[b] == before[ib]);
                }
                if a == pos {
                    let kb = keys[before[ib] as int];
                    assert(!lex_le(kb, keys[i as int]));
                    lemma_lex_total(kb, keys[i as int]);
                } else if b == pos {
                    assert(lex_le(keys[before[ia] as int], keys[i as int]));
                }
            }
        }
        i = i + 1;
    }
    order
}

} // verus!
