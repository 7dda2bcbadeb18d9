//! Ordering of rows: a rank for each kind of item, and the sort that keeps
//! items of equal rank in the order in which they came.

use vstd::prelude::*;
use vstd::seq_lib::{to_multiset_build, to_multiset_insert};
use vstd::utf8::encode_utf8;
use crate::sample::Sample;
use crate::text::{
    bytes_lt, lemma_lex_asymmetric, lemma_lex_irreflexive, lemma_lex_total,
    lemma_lex_transitive, lex_lt,
};

verus! {

/// A rank is a number and a byte string. Ranks compare by the number, and
/// by the string where the numbers are equal.
pub open spec fn rank_lt(a: (int, Seq<u8>), b: (int, Seq<u8>)) -> bool {
    a.0 < b.0 || (a.0 == b.0 && lex_lt(a.1, b.1))
}

/// Ranks are strictly and totally ordered.
pub proof fn lemma_rank_order(a: (int, Seq<u8>), b: (int, Seq<u8>), c: (int, Seq<u8>))
    ensures
        !rank_lt(a, a),
        !(rank_lt(a, b) && rank_lt(b, a)),
        rank_lt(a, b) && rank_lt(b, c) ==> rank_lt(a, c),
        rank_lt(a, b) || a == b || rank_lt(b, a),
        !rank_lt(b, a) && !rank_lt(c, b) ==> !rank_lt(c, a),
{
    lemma_lex_irreflexive(a.1);
    lemma_lex_asymmetric(a.1, b.1);
    lemma_lex_total(a.1, b.1);
    if lex_lt(a.1, b.1) && lex_lt(b.1, c.1) {
        lemma_lex_transitive(a.1, b.1, c.1);
    }
    if lex_lt(c.1, a.1) && lex_lt(a.1, b.1) {
        lemma_lex_transitive(c.1, a.1, b.1);
    }
}

/// An item that has a rank and can tell whether it ranks before another.
pub trait Ranked {
    /// The rank of the item.
    spec fn rank(&self) -> (int, Seq<u8>);

    /// Tests whether this item ranks before the other.
    fn before(&self, other: &Self) -> (first: bool)
        ensures
            first == rank_lt(self.rank(), other.rank()),
    ;
}

/// A sample ranks by its timestamp alone.
impl Ranked for Sample {
    open spec fn rank(&self) -> (int, Seq<u8>) {
        (self.timestamp as int, Seq::<u8>::empty())
    }

    fn before(&self, other: &Self) -> (first: bool) {
        proof {
            lemma_lex_irreflexive(Seq::<u8>::empty());
        }
        self.timestamp < other.timestamp
    }
}

/// A string ranks by its bytes.
impl Ranked for String {
    open spec fn rank(&self) -> (int, Seq<u8>) {
        (0, encode_utf8(self@))
    }

    fn before(&self, other: &Self) -> (first: bool) {
        bytes_lt(self.as_str().as_bytes(), other.as_str().as_bytes())
    }
}

/// The rank that an item has by itself.
pub open spec fn rank_of<T: Ranked>() -> spec_fn(T) -> (int, Seq<u8>) {
    |item: T| item.rank()
}

/// A pair of number and string ranks as itself.
pub open spec fn own_rank() -> spec_fn((int, Seq<u8>)) -> (int, Seq<u8>) {
    |row: (int, Seq<u8>)| row
}

/// A pair of number and string ranks by its number alone.
pub open spec fn time_rank() -> spec_fn((int, Seq<u8>)) -> (int, Seq<u8>) {
    |row: (int, Seq<u8>)| (row.0, Seq::<u8>::empty())
}

/// No item of the sequence ranks before one that stands earlier.
pub open spec fn ordered_by<T>(s: Seq<T>, rank: spec_fn(T) -> (int, Seq<u8>)) -> bool {
    forall|i: int, j: int| 0 <= i < j < s.len() ==> !rank_lt(rank(#[trigger] s[j]), rank(#[trigger] s[i]))
}

/// Where `x` goes in `s`: behind the last item that does not rank after it.
pub open spec fn slot_by<T>(s: Seq<T>, x: T, rank: spec_fn(T) -> (int, Seq<u8>)) -> int
    decreases s.len(),
{
    if s.len() == 0 {
        0
    } else if rank_lt(rank(x), rank(s.last())) {
        slot_by(s.drop_last(), x, rank)
    } else {
        s.len() as int
    }
}

/// The items of `s` by rank, those of equal rank in the order in which they
/// stand in `s`: each item in turn goes behind the last one that does not
/// rank after it.
pub open spec fn stable_sort_by<T>(s: Seq<T>, rank: spec_fn(T) -> (int, Seq<u8>)) -> Seq<T>
    decreases s.len(),
{
    if s.len() == 0 {
        s
    } else {
        let head = stable_sort_by(s.drop_last(), rank);
        head.insert(slot_by(head, s.last(), rank), s.last())
    }
}

/// The last `n` items of `s`, or all of `s` if it has fewer.
pub open spec fn last_n<T>(s: Seq<T>, n: int) -> Seq<T> {
    if s.len() > n {
        s.subrange(s.len() - n, s.len() as int)
    } else {
        s
    }
}

/// The slot of an item lies within the sequence, everything from the slot
/// on ranks after the item, and what stands before the slot does not.
pub proof fn lemma_slot<T>(s: Seq<T>, x: T, rank: spec_fn(T) -> (int, Seq<u8>))
    ensures
        0 <= slot_by(s, x, rank) <= s.len(),
        forall|j: int| slot_by(s, x, rank) <= j < s.len() ==> rank_lt(rank(x), rank(#[trigger] s[j])),
        slot_by(s, x, rank) > 0 ==> !rank_lt(rank(x), rank(s[slot_by(s, x, rank) - 1])),
    decreases s.len(),
{
    if s.len() > 0 && rank_lt(rank(x), rank(s.last())) {
        let head = s.drop_last();
        lemma_slot(head, x, rank);
        assert forall|j: int| slot_by(s, x, rank) <= j < s.len() implies rank_lt(
            rank(x),
            rank(#[trigger] s[j]),
        ) by {
            if j < s.len() - 1 {
                assert(head[j] == s[j]);
            }
        }
        if slot_by(s, x, rank) > 0 {
            assert(head[slot_by(s, x, rank) - 1] == s[slot_by(s, x, rank) - 1]);
        }
    }
}

/// Putting an item into its slot keeps a sequence ordered.
pub proof fn lemma_insert_keeps_order<T>(s: Seq<T>, x: T, rank: spec_fn(T) -> (int, Seq<u8>))
    requires
        ordered_by(s, rank),
    ensures
        ordered_by(s.insert(slot_by(s, x, rank), x), rank),
{
    let p = slot_by(s, x, rank);
    let t = s.insert(p, x);
    lemma_slot(s, x, rank);
    assert forall|i: int, j: int| 0 <= i < j < t.len() implies !rank_lt(
        rank(#[trigger] t[j]),
        rank(#[trigger] t[i]),
    ) by {
        if j < p {
            assert(t[j] == s[j] && t[i] == s[i]);
        } else if j == p {
            assert(t[j] == x && t[i] == s[i]);
            if i < p - 1 {
                assert(!rank_lt(rank(s[p - 1]), rank(s[i])));
            }
            lemma_rank_order(rank(s[i]), rank(s[p - 1]), rank(x));
        } else {
            assert(t[j] == s[j - 1]);
            if i < p {
                assert(t[i] == s[i]);
                if i < j - 1 {
                    assert(!rank_lt(rank(s[j - 1]), rank(s[i])));
                }
            } else if i == p {
                assert(t[i] == x);
                assert(rank_lt(rank(x), rank(s[j - 1])));
                lemma_rank_order(rank(x), rank(s[j - 1]), rank(x));
            } else {
                assert(t[i] == s[i - 1]);
                assert(!rank_lt(rank(s[j - 1]), rank(s[i - 1])));
            }
        }
    }
}

/// The sorted sequence is ordered and holds the items of the sequence it was
/// made from, each as often as that one does.
pub proof fn lemma_stable_sort<T>(s: Seq<T>, rank: spec_fn(T) -> (int, Seq<u8>))
    ensures
        ordered_by(stable_sort_by(s, rank), rank),
        stable_sort_by(s, rank).len() == s.len(),
        stable_sort_by(s, rank).to_multiset() == s.to_multiset(),
    decreases s.len(),
{
    if s.len() > 0 {
        let head = stable_sort_by(s.drop_last(), rank);
        let x = s.last();
        lemma_stable_sort(s.drop_last(), rank);
        lemma_slot(head, x, rank);
        lemma_insert_keeps_order(head, x, rank);
        to_multiset_insert(head, slot_by(head, x, rank), x);
        to_multiset_build(s.drop_last(), x);
        assert(s.drop_last().push(x) =~= s);
    }
}

/// Sorting an ordered sequence changes nothing.
pub proof fn lemma_stable_sort_of_ordered<T>(s: Seq<T>, rank: spec_fn(T) -> (int, Seq<u8>))
    requires
        ordered_by(s, rank),
    ensures
        stable_sort_by(s, rank) == s,
    decreases s.len(),
{
    if s.len() > 0 {
        let head = s.drop_last();
        assert(ordered_by(head, rank)) by {
            assert forall|i: int, j: int| 0 <= i < j < head.len() implies !rank_lt(
                rank(#[trigger] head[j]),
                rank(#[trigger] head[i]),
            ) by {
                assert(head[j] == s[j] && head[i] == s[i]);
            }
        }
        lemma_stable_sort_of_ordered(head, rank);
        if head.len() > 0 {
            assert(head.last() == s[s.len() - 2]);
            assert(!rank_lt(rank(s[s.len() - 1]), rank(s[s.len() - 2])));
        }
        assert(slot_by(head, s.last(), rank) == head.len());
        assert(head.insert(head.len() as int, s.last()) =~= s);
    }
}

/// An item has the same slot among items as its image has among their
/// images, where the images rank as the items do.
proof fn lemma_slot_map<A, B>(
    s: Seq<A>,
    x: A,
    f: spec_fn(A) -> B,
    ra: spec_fn(A) -> (int, Seq<u8>),
    rb: spec_fn(B) -> (int, Seq<u8>),
)
    requires
        forall|a: A| ra(a) == rb(#[trigger] f(a)),
    ensures
        slot_by(s, x, ra) == slot_by(s.map_values(f), f(x), rb),
    decreases s.len(),
{
    if s.len() > 0 {
        assert(s.map_values(f).drop_last() =~= s.drop_last().map_values(f));
        assert(s.map_values(f).last() == f(s.last()));
        lemma_slot_map(s.drop_last(), x, f, ra, rb);
    }
}

/// Sorting items and taking their images gives what sorting the images
/// gives, where the images rank as the items do.
pub proof fn lemma_stable_sort_map<A, B>(
    s: Seq<A>,
    f: spec_fn(A) -> B,
    ra: spec_fn(A) -> (int, Seq<u8>),
    rb: spec_fn(B) -> (int, Seq<u8>),
)
    requires
        forall|a: A| ra(a) == rb(#[trigger] f(a)),
    ensures
        stable_sort_by(s, ra).map_values(f) == stable_sort_by(s.map_values(f), rb),
    decreases s.len(),
{
    if s.len() == 0 {
        assert(s.map_values(f) =~= Seq::<B>::empty());
        assert(stable_sort_by(s, ra).map_values(f) =~= Seq::<B>::empty());
    } else {
        let head = stable_sort_by(s.drop_last(), ra);
        let x = s.last();
        lemma_stable_sort_map(s.drop_last(), f, ra, rb);
        lemma_slot_map(head, x, f, ra, rb);
        lemma_slot(head, x, ra);
        assert(s.map_values(f).drop_last() =~= s.drop_last().map_values(f));
        assert(s.map_values(f).last() == f(x));
        let p = slot_by(head, x, ra);
        assert(head.insert(p, x).map_values(f) =~= head.map_values(f).insert(p, f(x)));
    }
}

/// Turns a sequence round.
pub fn reversed<T>(items: Vec<T>) -> (turned: Vec<T>)
    ensures
        turned@ == items@.reverse(),
{
    let ghost orig = items@;
    let mut source = items;
    let mut turned: Vec<T> = Vec::new();
    while source.len() > 0
        invariant
            source@ == orig.subrange(0, source@.len() as int),
            source@.len() + turned@.len() == orig.len(),
            forall|i: int| 0 <= i < turned@.len() ==> turned@[i] == orig[orig.len() - 1 - i],
        decreases source@.len(),
    {
        let item = source.pop().unwrap();
        turned.push(item);
    }
    assert(turned@ =~= orig.reverse());
    turned
}

/// Sorts items by rank; items of equal rank keep their order.
pub fn sort_by_rank<T: Ranked>(items: Vec<T>) -> (sorted: Vec<T>)
    ensures
        sorted@ == stable_sort_by(items@, rank_of::<T>()),
{
    let ghost orig = items@;
    let mut stack = reversed(items);
    let mut sorted: Vec<T> = Vec::new();
    assert(orig.take(0) =~= Seq::<T>::empty());
    while stack.len() > 0
        invariant
            stack@.len() <= orig.len(),
            forall|i: int| 0 <= i < stack@.len() ==> stack@[i] == orig[orig.len() - 1 - i],
            sorted@ == stable_sort_by(orig.take(orig.len() - stack@.len()), rank_of::<T>()),
        decreases stack@.len(),
    {
        let ghost done = orig.len() - stack@.len();
        let item = stack.pop().unwrap();
        assert(item == orig[done]);
        let mut place: usize = sorted.len();
        assert(sorted@.take(place as int) =~= sorted@);
        while place > 0 && item.before(&sorted[place - 1])
            invariant
                place <= sorted@.len(),
                slot_by(sorted@, item, rank_of::<T>()) == slot_by(
                    sorted@.take(place as int),
                    item,
                    rank_of::<T>(),
                ),
            decreases place,
        {
            assert(sorted@.take(place as int).drop_last() =~= sorted@.take(place as int - 1));
            place -= 1;
        }
        proof {
            assert(slot_by(sorted@.take(place as int), item, rank_of::<T>()) == place);
            assert(orig.take(done + 1).drop_last() =~= orig.take(done));
        }
        sorted.insert(place, item);
    }
    assert(orig.take(orig.len() as int) =~= orig);
    sorted
}

/// Keeps the last `n` items.
pub fn keep_last<T>(items: Vec<T>, n: usize) -> (kept: Vec<T>)
    ensures
        kept@ == last_n(items@, n as int),
{
    let mut items = items;
    if items.len() > n {
        let at = items.len() - n;
        items.split_off(at)
    } else {
        items
    }
}

} // verus!
