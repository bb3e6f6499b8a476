//! Finding an identifier in a sequence of identifiers.

use vstd::prelude::*;

verus! {

/// An identifier as specifications see it.
pub type Id = Seq<char>;

/// Index of the first occurrence of `id` in `ids`, or the length of `ids`
/// where it does not occur.
pub open spec fn first_index(ids: Seq<Id>, id: Id) -> int
    decreases ids.len(),
{
    if ids.len() == 0 {
        0
    } else if ids[0] == id {
        0
    } else {
        1 + first_index(ids.drop_first(), id)
    }
}

/// `at` is the least index of `ids` that holds `id`, or the length of `ids`
/// where none does.
pub open spec fn is_first_index(ids: Seq<Id>, id: Id, at: int) -> bool {
    &&& 0 <= at <= ids.len()
    &&& at < ids.len() ==> ids[at] == id
    &&& forall|i: int| 0 <= i < at ==> #[trigger] ids[i] != id
}

/// `first_index` is what `is_first_index` describes.
pub proof fn lemma_first_index(ids: Seq<Id>, id: Id)
    ensures
        is_first_index(ids, id, first_index(ids, id)),
    decreases ids.len(),
{
    if ids.len() > 0 && ids[0] != id {
        let rest = ids.drop_first();
        lemma_first_index(rest, id);
        assert forall|i: int| 0 <= i < first_index(ids, id) implies #[trigger] ids[i] != id by {
            if i > 0 {
                assert(ids[i] == rest[i - 1]);
            }
        }
    }
}

/// Only one index is the first.
pub proof fn lemma_first_index_unique(ids: Seq<Id>, id: Id, at: int)
    requires
        is_first_index(ids, id, at),
    ensures
        at == first_index(ids, id),
{
    lemma_first_index(ids, id);
    let f = first_index(ids, id);
    if at < f {
        assert(ids[at] != id);
    } else if f < at {
        assert(ids[f] != id);
    }
}

/// No identifier occurs twice.
pub open spec fn distinct(ids: Seq<Id>) -> bool {
    forall|i: int, j: int| 0 <= i < j < ids.len() ==> #[trigger] ids[i] != #[trigger] ids[j]
}

/// Whether `id` occurs in `ids`.
pub open spec fn occurs(ids: Seq<Id>, id: Id) -> bool {
    first_index(ids, id) < ids.len()
}

/// In a sequence without repetition, every index is the first of its
/// identifier.
pub proof fn lemma_distinct_index(ids: Seq<Id>, at: int)
    requires
        distinct(ids),
        0 <= at < ids.len(),
    ensures
        first_index(ids, ids[at]) == at,
{
    lemma_first_index_unique(ids, ids[at], at);
}

/// Appending an identifier leaves earlier occurrences first; a new one is
/// found at the old length.
pub proof fn lemma_first_index_push(ids: Seq<Id>, x: Id, id: Id)
    ensures
        occurs(ids, id) ==> first_index(ids.push(x), id) == first_index(ids, id),
        !occurs(ids, id) && x == id ==> first_index(ids.push(x), id) == ids.len(),
        !occurs(ids, id) && x != id ==> first_index(ids.push(x), id) == ids.len() + 1,
        distinct(ids) && !occurs(ids, x) ==> distinct(ids.push(x)),
{
    lemma_first_index(ids, id);
    let at = first_index(ids, id);
    let longer = ids.push(x);
    let expected: int = if at < ids.len() {
        at
    } else if x == id {
        ids.len() as int
    } else {
        ids.len() as int + 1
    };
    assert forall|i: int| 0 <= i < expected implies #[trigger] longer[i] != id by {
        if i < ids.len() {
            assert(longer[i] == ids[i]);
        }
    }
    lemma_first_index_unique(longer, id, expected);
    if distinct(ids) && !occurs(ids, x) {
        lemma_first_index(ids, x);
        assert forall|i: int, j: int| 0 <= i < j < longer.len() implies #[trigger] longer[i]
            != #[trigger] longer[j] by {
            if j < ids.len() {
                assert(longer[i] == ids[i] && longer[j] == ids[j]);
            } else {
                assert(longer[i] == ids[i]);
            }
        }
    }
}

/// Taking one identifier out of a sequence without repetition: that
/// identifier no longer occurs, the others keep their relative places.
pub proof fn lemma_first_index_remove(ids: Seq<Id>, at: int, id: Id)
    requires
        distinct(ids),
        0 <= at < ids.len(),
    ensures
        distinct(ids.remove(at)),
        id == ids[at] ==> !occurs(ids.remove(at), id),
        id != ids[at] ==> first_index(ids.remove(at), id) == if first_index(ids, id) < at {
            first_index(ids, id)
        } else {
            first_index(ids, id) - 1
        },
        id != ids[at] ==> (occurs(ids.remove(at), id) <==> occurs(ids, id)),
{
    lemma_first_index(ids, id);
    let shorter = ids.remove(at);
    let f = first_index(ids, id);
    assert forall|i: int| 0 <= i < shorter.len() implies #[trigger] shorter[i] == ids[if i
        < at {
        i
    } else {
        i + 1
    }] by {}
    assert forall|i: int, j: int| 0 <= i < j < shorter.len() implies #[trigger] shorter[i]
        != #[trigger] shorter[j] by {
        let a = if i < at { i } else { i + 1 };
        let b = if j < at { j } else { j + 1 };
        assert(ids[a] != ids[b]);
    }
    if id == ids[at] {
        lemma_distinct_index(ids, at);
        assert forall|i: int| 0 <= i < shorter.len() implies #[trigger] shorter[i] != id by {
            let a = if i < at { i } else { i + 1 };
            assert(ids[a] != ids[at]);
        }
        lemma_first_index_unique(shorter, id, shorter.len() as int);
    } else {
        let expected = if f < at { f } else { f - 1 };
        assert(f != at);
        assert forall|i: int| 0 <= i < expected implies #[trigger] shorter[i] != id by {
            let a = if i < at { i } else { i + 1 };
            assert(ids[a] != id);
        }
        if expected < shorter.len() {
            assert(shorter[expected] == ids[f]);
        }
        lemma_first_index_unique(shorter, id, expected);
    }
}

/// Index of the first item that `accept` holds of, or the length of `items`
/// where it holds of none.
pub open spec fn first_where<T>(items: Seq<T>, accept: spec_fn(T) -> bool) -> int
    decreases items.len(),
{
    if items.len() == 0 {
        0
    } else if accept(items[0]) {
        0
    } else {
        1 + first_where(items.drop_first(), accept)
    }
}

/// `at` is the least index whose item `accept` holds of, or the length of
/// `items` where it holds of none.
pub open spec fn is_first_where<T>(items: Seq<T>, accept: spec_fn(T) -> bool, at: int) -> bool {
    &&& 0 <= at <= items.len()
    &&& at < items.len() ==> accept(items[at])
    &&& forall|i: int| 0 <= i < at ==> !accept(#[trigger] items[i])
}

/// `first_where` is what `is_first_where` describes.
pub proof fn lemma_first_where<T>(items: Seq<T>, accept: spec_fn(T) -> bool)
    ensures
        is_first_where(items, accept, first_where(items, accept)),
    decreases items.len(),
{
    if items.len() > 0 && !accept(items[0]) {
        let rest = items.drop_first();
        lemma_first_where(rest, accept);
        assert forall|i: int| 0 <= i < first_where(items, accept) implies !accept(
            #[trigger] items[i],
        ) by {
            if i > 0 {
                assert(items[i] == rest[i - 1]);
            }
        }
    }
}

/// Only one index is the first.
pub proof fn lemma_first_where_unique<T>(items: Seq<T>, accept: spec_fn(T) -> bool, at: int)
    requires
        is_first_where(items, accept, at),
    ensures
        at == first_where(items, accept),
{
    lemma_first_where(items, accept);
    let f = first_where(items, accept);
    if at < f {
        assert(!accept(items[at]));
    } else if f < at {
        assert(!accept(items[f]));
    }
}

} // verus!
