//! The order in which the segments of a data directory are replayed: the
//! archives by the bytes of their names, which is the order of their
//! creation, and the active segment last.

use vstd::prelude::*;
use vstd::seq_lib::to_multiset_build;
use vstd::seq_lib::to_multiset_insert;
use vstd::utf8::encode_utf8;
use crate::engine::ACTIVE_SEGMENT;
use crate::text::same_text;
use crate::text::texts;

verus! {

/// `a` does not come after `b` in the order of their bytes: at the first
/// place where they differ `a` holds the lesser byte, or `a` ends there.
pub open spec fn bytes_le(a: Seq<u8>, b: Seq<u8>) -> bool
    decreases a.len(),
{
    if a.len() == 0 {
        true
    } else if b.len() == 0 {
        false
    } else if a[0] != b[0] {
        a[0] < b[0]
    } else {
        bytes_le(a.drop_first(), b.drop_first())
    }
}

/// The segment named `a` may be replayed before the one named `b`: the
/// active segment goes last, and the others go by the bytes of their names.
pub open spec fn goes_before(a: Seq<char>, b: Seq<char>) -> bool {
    if b == ACTIVE_SEGMENT@ {
        true
    } else if a == ACTIVE_SEGMENT@ {
        false
    } else {
        bytes_le(encode_utf8(a), encode_utf8(b))
    }
}

/// The names stand in the order of replay: each may be replayed before
/// every later one.
pub open spec fn in_replay_order(names: Seq<Seq<char>>) -> bool {
    forall|i: int, j: int| 0 <= i < j < names.len() ==> goes_before(names[i], names[j])
}

/// Of two byte strings one does not come after the other.
pub proof fn lemma_bytes_le_total(a: Seq<u8>, b: Seq<u8>)
    ensures
        bytes_le(a, b) || bytes_le(b, a),
    decreases a.len(),
{
    if a.len() > 0 && b.len() > 0 && a[0] == b[0] {
        lemma_bytes_le_total(a.drop_first(), b.drop_first());
    }
}

/// The order of byte strings is transitive.
pub proof fn lemma_bytes_le_transitive(a: Seq<u8>, b: Seq<u8>, c: Seq<u8>)
    requires
        bytes_le(a, b),
        bytes_le(b, c),
    ensures
        bytes_le(a, c),
    decreases a.len(),
{
    if a.len() > 0 && b.len() > 0 && c.len() > 0 && a[0] == b[0] && b[0] == c[0] {
        lemma_bytes_le_transitive(a.drop_first(), b.drop_first(), c.drop_first());
    }
}

/// Of two names one may be replayed before the other.
pub proof fn lemma_goes_before_total(a: Seq<char>, b: Seq<char>)
    ensures
        goes_before(a, b) || goes_before(b, a),
{
    lemma_bytes_le_total(encode_utf8(a), encode_utf8(b));
}

/// The order of replay is transitive.
pub proof fn lemma_goes_before_transitive(a: Seq<char>, b: Seq<char>, c: Seq<char>)
    requires
        goes_before(a, b),
        goes_before(b, c),
    ensures
        goes_before(a, c),
{
    if c != ACTIVE_SEGMENT@ {
        lemma_bytes_le_transitive(encode_utf8(a), encode_utf8(b), encode_utf8(c));
    }
}

/// In a list that stands in the order of replay and holds the active
/// segment, the active segment stands last.
pub proof fn lemma_active_stands_last(names: Seq<Seq<char>>)
    requires
        in_replay_order(names),
        names.contains(ACTIVE_SEGMENT@),
    ensures
        names.last() == ACTIVE_SEGMENT@,
{
    let i = choose|i: int| 0 <= i < names.len() && names[i] == ACTIVE_SEGMENT@;
    if i < names.len() - 1 {
        assert(goes_before(names[i], names[names.len() - 1]));
    }
}

/// Two byte strings of which neither comes after the other are the same.
pub proof fn lemma_bytes_le_antisymmetric(a: Seq<u8>, b: Seq<u8>)
    requires
        bytes_le(a, b),
        bytes_le(b, a),
    ensures
        a == b,
    decreases a.len(),
{
    if a.len() > 0 {
        lemma_bytes_le_antisymmetric(a.drop_first(), b.drop_first());
        assert(a == seq![a[0]] + a.drop_first());
        assert(b == seq![b[0]] + b.drop_first());
    } else {
        assert(a == b);
    }
}

/// Two names of which each may be replayed before the other are the same.
pub proof fn lemma_goes_before_antisymmetric(a: Seq<char>, b: Seq<char>)
    requires
        goes_before(a, b),
        goes_before(b, a),
    ensures
        a == b,
{
    broadcast use vstd::utf8::encode_utf8_decode_utf8;

    if a != ACTIVE_SEGMENT@ && b != ACTIVE_SEGMENT@ {
        lemma_bytes_le_antisymmetric(encode_utf8(a), encode_utf8(b));
        assert(vstd::utf8::decode_utf8(encode_utf8(a)) == a);
        assert(vstd::utf8::decode_utf8(encode_utf8(b)) == b);
    }
}

/// There is one order of replay: two lists of the same names, each name
/// once, that both stand in the order of replay are the same list.
pub proof fn lemma_replay_order_unique(a: Seq<Seq<char>>, b: Seq<Seq<char>>)
    requires
        in_replay_order(a),
        in_replay_order(b),
        a.to_multiset() == b.to_multiset(),
        a.no_duplicates(),
    ensures
        a == b,
    decreases a.len(),
{
    vstd::seq_lib::to_multiset_len(a);
    vstd::seq_lib::to_multiset_len(b);
    if a.len() > 0 {
        vstd::seq_lib::to_multiset_contains(a, a[0]);
        vstd::seq_lib::to_multiset_contains(b, a[0]);
        vstd::seq_lib::to_multiset_contains(a, b[0]);
        vstd::seq_lib::to_multiset_contains(b, b[0]);
        assert(a.contains(a[0]));
        assert(b.contains(b[0]));
        let i = choose|i: int| 0 <= i < a.len() && a[i] == b[0];
        let j = choose|j: int| 0 <= j < b.len() && b[j] == a[0];
        if i > 0 {
            assert(goes_before(a[0], a[i]));
        } else {
            lemma_goes_before_total(a[0], a[0]);
        }
        if j > 0 {
            assert(goes_before(b[0], b[j]));
        } else {
            lemma_goes_before_total(b[0], b[0]);
        }
        lemma_goes_before_antisymmetric(a[0], b[0]);
        vstd::seq_lib::to_multiset_remove(a, 0);
        vstd::seq_lib::to_multiset_remove(b, 0);
        assert(a.remove(0) == a.drop_first());
        assert(b.remove(0) == b.drop_first());
        assert forall|x: int, y: int| 0 <= x < y < a.drop_first().len() implies goes_before(
            a.drop_first()[x],
            a.drop_first()[y],
        ) by {
            assert(goes_before(a[x + 1], a[y + 1]));
        }
        assert forall|x: int, y: int| 0 <= x < y < b.drop_first().len() implies goes_before(
            b.drop_first()[x],
            b.drop_first()[y],
        ) by {
            assert(goes_before(b[x + 1], b[y + 1]));
        }
        assert forall|x: int, y: int|
            0 <= x < a.drop_first().len() && 0 <= y < a.drop_first().len() && x
                != y implies a.drop_first()[x] != a.drop_first()[y] by {
            assert(a[x + 1] != a[y + 1]);
        }
        lemma_replay_order_unique(a.drop_first(), b.drop_first());
        assert(a == seq![a[0]] + a.drop_first());
        assert(b == seq![b[0]] + b.drop_first());
    } else {
        assert(a == b);
    }
}

/// Whether `a` does not come after `b` in the order of their bytes.
pub fn bytes_not_after(a: &[u8], b: &[u8]) -> (res: bool)
    ensures
        res == bytes_le(a@, b@),
{
    let mut i: usize = 0;
    assert(a@.subrange(0, a@.len() as int) == a@);
    assert(b@.subrange(0, b@.len() as int) == b@);
    while i < a.len() && i < b.len()
        invariant
            i <= a@.len(),
            i <= b@.len(),
            bytes_le(a@, b@) == bytes_le(
                a@.subrange(i as int, a@.len() as int),
                b@.subrange(i as int, b@.len() as int),
            ),
        decreases a@.len() - i,
    {
        let ghost x = a@.subrange(i as int, a@.len() as int);
        let ghost y = b@.subrange(i as int, b@.len() as int);
        assert(x[0] == a@[i as int] && y[0] == b@[i as int]);
        if a[i] != b[i] {
            return a[i] < b[i];
        }
        assert(x.drop_first() == a@.subrange(i + 1, a@.len() as int));
        assert(y.drop_first() == b@.subrange(i + 1, b@.len() as int));
        i += 1;
    }
    i >= a.len()
}

/// Whether the segment named `a` may be replayed before the one named `b`.
pub fn replays_before(a: &str, b: &str) -> (res: bool)
    ensures
        res == goes_before(a@, b@),
{
    if same_text(b, ACTIVE_SEGMENT) {
        true
    } else if same_text(a, ACTIVE_SEGMENT) {
        false
    } else {
        bytes_not_after(a.as_bytes(), b.as_bytes())
    }
}

/// The names of the segments of a data directory in the order in which they
/// are replayed: the same names, each as often as it was given, the active
/// segment last and the others ascending by their bytes.
pub fn replay_order(names: Vec<String>) -> (res: Vec<String>)
    ensures
        texts(res@).to_multiset() == texts(names@).to_multiset(),
        in_replay_order(texts(res@)),
        texts(names@).contains(ACTIVE_SEGMENT@) ==> res@.len() > 0 && res@.last()@
            == ACTIVE_SEGMENT@,
{
    let ghost given = texts(names@);
    let mut res: Vec<String> = Vec::new();
    let mut i: usize = 0;
    assert(given.subrange(0, 0) == texts(res@));
    while i < names.len()
        invariant
            i <= names@.len(),
            given == texts(names@),
            texts(res@).to_multiset() == given.subrange(0, i as int).to_multiset(),
            in_replay_order(texts(res@)),
        decreases names@.len() - i,
    {
        let name = names[i].clone();
        let ghost sorted = texts(res@);
        let mut at: usize = 0;
        while at < res.len() && replays_before(res[at].as_str(), name.as_str())
            invariant
                at <= res@.len(),
                sorted == texts(res@),
                forall|k: int| 0 <= k < at ==> goes_before(#[trigger] sorted[k], name@),
            decreases res@.len() - at,
        {
            at += 1;
        }
        proof {
            assert forall|k: int| at <= k < sorted.len() implies goes_before(
                name@,
                #[trigger] sorted[k],
            ) by {
                lemma_goes_before_total(sorted[at as int], name@);
                if k > at {
                    assert(goes_before(sorted[at as int], sorted[k]));
                    lemma_goes_before_transitive(name@, sorted[at as int], sorted[k]);
                }
            }
        }
        res.insert(at, name);
        proof {
            let grown = texts(res@);
            assert(grown == sorted.insert(at as int, name@));
            assert(given.subrange(0, i + 1) == given.subrange(0, i as int).push(name@));
            to_multiset_insert(sorted, at as int, name@);
            to_multiset_build(given.subrange(0, i as int), name@);
            assert forall|x: int, y: int| 0 <= x < y < grown.len() implies goes_before(
                grown[x],
                grown[y],
            ) by {
                if x < at && y > at {
                    assert(goes_before(sorted[x], sorted[y - 1]));
                } else if x < at && y < at {
                    assert(goes_before(sorted[x], sorted[y]));
                } else if x > at {
                    assert(goes_before(sorted[x - 1], sorted[y - 1]));
                }
            }
        }
        i += 1;
    }
    proof {
        assert(given.subrange(0, i as int) == given);
        if given.contains(ACTIVE_SEGMENT@) {
            let sorted = texts(res@);
            vstd::seq_lib::to_multiset_contains(given, ACTIVE_SEGMENT@);
            vstd::seq_lib::to_multiset_contains(sorted, ACTIVE_SEGMENT@);
            assert(sorted.contains(ACTIVE_SEGMENT@));
            lemma_active_stands_last(sorted);
        }
    }
    res
}

} // verus!
