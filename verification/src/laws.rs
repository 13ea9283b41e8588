//! Laws of flattening, proved over the models of values and mappings.

use vstd::prelude::*;
use crate::flat_map::{
    ascending, last_written, lemma_put_ascending, lemma_put_members, lookup, put, put_all,
    EntryView,
};
use crate::ser::{
    flattened, formatted_key, items_entries, leaf_entries, pair_label, pairs_entries, settings_of,
    suffix_of, Settings, SuffixMode,
};
use crate::text::{
    decimal, lemma_text_lt_irreflexive, lemma_text_lt_total, lemma_text_lt_transitive, text_lt,
};
use crate::value::{items_leaf_count, leaf_count, pairs_leaf_count, ValueView};

verus! {

/// A tree yields one entry for each of its leaves.
pub proof fn lemma_leaf_entries_len(cfg: Settings, xpath: Seq<char>, key: Seq<char>, v: ValueView)
    ensures
        leaf_entries(cfg, xpath, key, v).len() == leaf_count(v),
    decreases v, 0nat,
{
    let path = formatted_key(cfg, xpath, key, v);
    match v {
        ValueView::Sequence(items) => lemma_items_entries_len(cfg, path, items, items.len()),
        ValueView::Mapping(pairs) => lemma_pairs_entries_len(cfg, path, pairs, pairs.len()),
        _ => {},
    }
}

/// The first `n` items of a sequence yield one entry for each of their leaves.
pub proof fn lemma_items_entries_len(cfg: Settings, path: Seq<char>, items: Seq<ValueView>, n: nat)
    ensures
        items_entries(cfg, path, items, n).len() == items_leaf_count(items, n),
    decreases items, n,
{
    if n == 0 || n > items.len() {
    } else {
        lemma_items_entries_len(cfg, path, items, (n - 1) as nat);
        lemma_leaf_entries_len(cfg, path, decimal((n - 1) as nat), items[n - 1]);
    }
}

/// The first `n` pairs of a map yield one entry for each leaf of their values.
pub proof fn lemma_pairs_entries_len(
    cfg: Settings,
    path: Seq<char>,
    pairs: Seq<(ValueView, ValueView)>,
    n: nat,
)
    ensures
        pairs_entries(cfg, path, pairs, n).len() == pairs_leaf_count(pairs, n),
    decreases pairs, n,
{
    if n == 0 || n > pairs.len() {
    } else {
        lemma_pairs_entries_len(cfg, path, pairs, (n - 1) as nat);
        lemma_leaf_entries_len(cfg, path, pair_label(pairs[n - 1].0), pairs[n - 1].1);
    }
}

/// After a store, the stored key holds the stored value and every other key
/// holds what it held before.
pub proof fn lemma_lookup_put(s: Seq<EntryView>, k: Seq<char>, v: ValueView, q: Seq<char>)
    ensures
        lookup(put(s, k, v), q) == (if q == k {
            Some(v)
        } else {
            lookup(s, q)
        }),
    decreases s.len(),
{
    let r = put(s, k, v);
    lemma_text_lt_irreflexive(k);
    if s.len() == 0 {
        assert(r.drop_first() =~= Seq::<EntryView>::empty());
        reveal_with_fuel(lookup, 2);
    } else if text_lt(s[0].0, k) {
        assert(r[0] == s[0]);
        assert(r.drop_first() =~= put(s.drop_first(), k, v));
        lemma_lookup_put(s.drop_first(), k, v, q);
    } else if s[0].0 == k {
        assert(r.drop_first() =~= s.drop_first());
    } else {
        assert(r.drop_first() =~= s);
    }
}

/// Of several entries with the same key, a mapping built by storing them in
/// turn holds the value of the last one; a key that no entry has is absent.
pub proof fn lemma_last_write_wins(entries: Seq<EntryView>, q: Seq<char>)
    ensures
        lookup(put_all(Seq::empty(), entries), q) == last_written(entries, q),
    decreases entries.len(),
{
    if entries.len() > 0 {
        lemma_last_write_wins(entries.drop_last(), q);
        lemma_lookup_put(
            put_all(Seq::empty(), entries.drop_last()),
            entries.last().0,
            entries.last().1,
            q,
        );
    }
}

/// The entry at position `i` is the last written under its key when no
/// later entry has that key.
pub proof fn lemma_last_written_at(entries: Seq<EntryView>, i: int)
    requires
        0 <= i < entries.len(),
        forall|j: int| i < j < entries.len() ==> (#[trigger] entries[j]).0 != entries[i].0,
    ensures
        last_written(entries, entries[i].0) == Some(entries[i].1),
    decreases entries.len(),
{
    if i < entries.len() - 1 {
        let front = entries.drop_last();
        assert(front[i] == entries[i]);
        assert forall|j: int| i < j < front.len() implies (#[trigger] front[j]).0 != front[i].0 by {
            assert(front[j] == entries[j]);
        }
        lemma_last_written_at(front, i);
        assert(entries.last() == entries[entries.len() - 1]);
    }
}

/// Of the leaves of a tree that get the same key, the flat mapping holds the
/// value of the one that no later leaf follows under that key.
pub proof fn lemma_later_leaf_wins(cfg: Settings, v: ValueView, i: int)
    requires
        0 <= i < leaf_entries(cfg, Seq::empty(), Seq::empty(), v).len(),
        forall|j: int|
            i < j < leaf_entries(cfg, Seq::empty(), Seq::empty(), v).len() ==> (
            #[trigger] leaf_entries(cfg, Seq::empty(), Seq::empty(), v)[j]).0 != leaf_entries(
                cfg,
                Seq::empty(),
                Seq::empty(),
                v,
            )[i].0,
    ensures
        lookup(flattened(cfg, v), leaf_entries(cfg, Seq::empty(), Seq::empty(), v)[i].0) == Some(
            leaf_entries(cfg, Seq::empty(), Seq::empty(), v)[i].1,
        ),
{
    let entries = leaf_entries(cfg, Seq::empty(), Seq::empty(), v);
    lemma_last_written_at(entries, i);
    lemma_last_write_wins(entries, entries[i].0);
}

/// Where two leaves of a tree get the same key, the flat mapping holds the
/// value of the one met later.
pub proof fn lemma_collision_later_wins(cfg: Settings, v: ValueView, q: Seq<char>)
    ensures
        lookup(flattened(cfg, v), q) == last_written(
            leaf_entries(cfg, Seq::empty(), Seq::empty(), v),
            q,
        ),
{
    lemma_last_write_wins(leaf_entries(cfg, Seq::empty(), Seq::empty(), v), q);
}

/// Storing entries in turn into a mapping in ascending order leaves it in ascending order.
pub proof fn lemma_put_all_ascending(acc: Seq<EntryView>, entries: Seq<EntryView>)
    requires
        ascending(acc),
    ensures
        ascending(put_all(acc, entries)),
    decreases entries.len(),
{
    if entries.len() > 0 {
        lemma_put_all_ascending(acc, entries.drop_last());
        lemma_put_ascending(put_all(acc, entries.drop_last()), entries.last().0, entries.last().1);
    }
}

/// A key below the first key of an ascending mapping is not in it.
pub proof fn lemma_lookup_below_first(s: Seq<EntryView>, k: Seq<char>)
    requires
        ascending(s),
        s.len() > 0,
        text_lt(k, s[0].0),
    ensures
        lookup(s, k) is None,
    decreases s.len(),
{
    lemma_text_lt_irreflexive(k);
    reveal_with_fuel(lookup, 2);
    let rest = s.drop_first();
    if rest.len() > 0 {
        assert(rest[0] == s[1]);
        assert(text_lt(s[0].0, s[1].0));
        lemma_text_lt_transitive(k, s[0].0, s[1].0);
        assert forall|i: int, j: int| 0 <= i < j < rest.len() implies text_lt(
            #[trigger] rest[i].0,
            #[trigger] rest[j].0,
        ) by {
            assert(rest[i] == s[i + 1] && rest[j] == s[j + 1]);
        }
        lemma_lookup_below_first(rest, k);
    }
}

/// A store into an ascending mapping adds one entry when the key is new and none otherwise.
pub proof fn lemma_put_len(s: Seq<EntryView>, k: Seq<char>, v: ValueView)
    requires
        ascending(s),
    ensures
        put(s, k, v).len() == (if lookup(s, k) is Some {
            s.len()
        } else {
            s.len() + 1
        }),
    decreases s.len(),
{
    lemma_text_lt_irreflexive(k);
    if s.len() == 0 {
    } else if text_lt(s[0].0, k) {
        let rest = s.drop_first();
        assert forall|i: int, j: int| 0 <= i < j < rest.len() implies text_lt(
            #[trigger] rest[i].0,
            #[trigger] rest[j].0,
        ) by {
            assert(rest[i] == s[i + 1] && rest[j] == s[j + 1]);
        }
        lemma_put_len(rest, k, v);
    } else if s[0].0 == k {
    } else {
        lemma_text_lt_total(s[0].0, k);
        lemma_lookup_below_first(s, k);
    }
}

/// A mapping in ascending order holds each key once.
pub proof fn lemma_ascending_keys_unique(s: Seq<EntryView>)
    requires
        ascending(s),
    ensures
        distinct_keys(s),
{
    assert forall|i: int, j: int| 0 <= i < j < s.len() implies (#[trigger] s[i]).0 != (
    #[trigger] s[j]).0 by {
        assert(text_lt(s[i].0, s[j].0));
        lemma_text_lt_irreflexive(s[i].0);
    }
}

/// No two entries of the list have the same key.
pub open spec fn distinct_keys(entries: Seq<EntryView>) -> bool {
    forall|i: int, j: int|
        0 <= i < j < entries.len() ==> (#[trigger] entries[i]).0 != (#[trigger] entries[j]).0
}

/// A key that no entry of a list has was never written.
pub proof fn lemma_last_written_absent(entries: Seq<EntryView>, k: Seq<char>)
    requires
        forall|i: int| 0 <= i < entries.len() ==> (#[trigger] entries[i]).0 != k,
    ensures
        last_written(entries, k) is None,
    decreases entries.len(),
{
    if entries.len() > 0 {
        let front = entries.drop_last();
        assert forall|i: int| 0 <= i < front.len() implies (#[trigger] front[i]).0 != k by {
            assert(front[i] == entries[i]);
        }
        lemma_last_written_absent(front, k);
        assert(entries.last() == entries[entries.len() - 1]);
    }
}

/// Entries with pairwise different keys all stay: the mapping built from them has their number.
pub proof fn lemma_put_all_len(entries: Seq<EntryView>)
    requires
        distinct_keys(entries),
    ensures
        put_all(Seq::empty(), entries).len() == entries.len(),
    decreases entries.len(),
{
    if entries.len() > 0 {
        let front = entries.drop_last();
        let last = entries.last();
        assert(last == entries[entries.len() - 1]);
        assert forall|i: int, j: int| 0 <= i < j < front.len() implies (#[trigger] front[i]).0 != (
        #[trigger] front[j]).0 by {
            assert(front[i] == entries[i] && front[j] == entries[j]);
        }
        lemma_put_all_len(front);
        assert forall|i: int| 0 <= i < front.len() implies (#[trigger] front[i]).0 != last.0 by {
            assert(front[i] == entries[i]);
        }
        lemma_last_written_absent(front, last.0);
        lemma_last_write_wins(front, last.0);
        lemma_put_all_ascending(Seq::empty(), front);
        lemma_put_len(put_all(Seq::empty(), front), last.0, last.1);
    }
}

/// Where no two leaves of a tree get the same key, the flat mapping has as
/// many entries as the tree has leaves.
pub proof fn lemma_flattened_len(cfg: Settings, v: ValueView)
    requires
        distinct_keys(leaf_entries(cfg, Seq::empty(), Seq::empty(), v)),
    ensures
        flattened(cfg, v).len() == leaf_count(v),
{
    lemma_put_all_len(leaf_entries(cfg, Seq::empty(), Seq::empty(), v));
    lemma_leaf_entries_len(cfg, Seq::empty(), Seq::empty(), v);
}

/// The flat mapping of a tree never has more entries than the tree has leaves.
pub proof fn lemma_flattened_len_bound(cfg: Settings, v: ValueView)
    ensures
        flattened(cfg, v).len() <= leaf_count(v),
        ascending(flattened(cfg, v)),
{
    let entries = leaf_entries(cfg, Seq::empty(), Seq::empty(), v);
    lemma_put_all_len_bound(entries);
    lemma_put_all_ascending(Seq::empty(), entries);
    lemma_leaf_entries_len(cfg, Seq::empty(), Seq::empty(), v);
}

/// A mapping built from a list of entries has at most as many entries as the list.
pub proof fn lemma_put_all_len_bound(entries: Seq<EntryView>)
    ensures
        put_all(Seq::empty(), entries).len() <= entries.len(),
    decreases entries.len(),
{
    if entries.len() > 0 {
        let front = entries.drop_last();
        lemma_put_all_len_bound(front);
        lemma_put_all_ascending(Seq::empty(), front);
        lemma_put_len(put_all(Seq::empty(), front), entries.last().0, entries.last().1);
    }
}

/// The text ends with the given tail.
pub open spec fn ends_with(text: Seq<char>, tail: Seq<char>) -> bool {
    text.len() >= tail.len() && text.subrange(text.len() - tail.len(), text.len() as int) == tail
}

/// The entry holds a leaf, and its key is empty or ends with the suffix of that leaf's kind.
pub open spec fn suffixed(cfg: Settings, e: EntryView) -> bool {
    e.1.is_leaf() && (e.0.len() == 0 || ends_with(e.0, suffix_of(cfg, e.1)))
}

/// Every entry of the list is suffixed.
pub open spec fn all_suffixed(cfg: Settings, s: Seq<EntryView>) -> bool {
    forall|i: int| 0 <= i < s.len() ==> suffixed(cfg, #[trigger] s[i])
}

/// Every entry that a tree yields holds a leaf under a key that is empty or
/// ends with the suffix of the leaf's kind.
pub proof fn lemma_leaf_entries_suffixed(
    cfg: Settings,
    xpath: Seq<char>,
    key: Seq<char>,
    v: ValueView,
)
    ensures
        all_suffixed(cfg, leaf_entries(cfg, xpath, key, v)),
    decreases v, 0nat,
{
    let path = formatted_key(cfg, xpath, key, v);
    match v {
        ValueView::Sequence(items) => lemma_items_entries_suffixed(cfg, path, items, items.len()),
        ValueView::Mapping(pairs) => lemma_pairs_entries_suffixed(cfg, path, pairs, pairs.len()),
        _ => {
            let tail = suffix_of(cfg, v);
            if key.len() > 0 {
                assert(path.subrange(path.len() - tail.len(), path.len() as int) =~= tail);
            }
        },
    }
}

/// The entries of the first `n` items of a sequence are suffixed.
pub proof fn lemma_items_entries_suffixed(
    cfg: Settings,
    path: Seq<char>,
    items: Seq<ValueView>,
    n: nat,
)
    ensures
        all_suffixed(cfg, items_entries(cfg, path, items, n)),
    decreases items, n,
{
    if n == 0 || n > items.len() {
    } else {
        lemma_items_entries_suffixed(cfg, path, items, (n - 1) as nat);
        lemma_leaf_entries_suffixed(cfg, path, decimal((n - 1) as nat), items[n - 1]);
    }
}

/// The entries of the first `n` pairs of a map are suffixed.
pub proof fn lemma_pairs_entries_suffixed(
    cfg: Settings,
    path: Seq<char>,
    pairs: Seq<(ValueView, ValueView)>,
    n: nat,
)
    ensures
        all_suffixed(cfg, pairs_entries(cfg, path, pairs, n)),
    decreases pairs, n,
{
    if n == 0 || n > pairs.len() {
    } else {
        lemma_pairs_entries_suffixed(cfg, path, pairs, (n - 1) as nat);
        lemma_leaf_entries_suffixed(cfg, path, pair_label(pairs[n - 1].0), pairs[n - 1].1);
    }
}

/// Every entry of a mapping built from a list of entries is an entry of the list.
pub proof fn lemma_put_all_members(entries: Seq<EntryView>)
    ensures
        forall|i: int|
            0 <= i < put_all(Seq::empty(), entries).len() ==> exists|m: int|
                0 <= m < entries.len() && entries[m] == #[trigger] put_all(
                    Seq::empty(),
                    entries,
                )[i],
    decreases entries.len(),
{
    if entries.len() > 0 {
        let front = entries.drop_last();
        let last = entries.last();
        let before = put_all(Seq::empty(), front);
        let after = put_all(Seq::empty(), entries);
        lemma_put_all_members(front);
        lemma_put_members(before, last.0, last.1);
        assert forall|i: int| 0 <= i < after.len() implies exists|m: int|
            0 <= m < entries.len() && entries[m] == #[trigger] after[i] by {
            if after[i] == last {
                assert(entries[entries.len() - 1] == after[i]);
            } else {
                let j = choose|j: int| 0 <= j < before.len() && before[j] == after[i];
                let m = choose|m: int| 0 <= m < front.len() && front[m] == before[j];
                assert(entries[m] == after[i]);
            }
        }
    }
}

/// Every key of a flat mapping is empty or ends with the suffix of the kind
/// of the leaf stored under it: the separator and the kind's token where the
/// suffix mode is on and the kind has a token, nothing otherwise.
pub proof fn lemma_flattened_suffixed(cfg: Settings, v: ValueView)
    ensures
        all_suffixed(cfg, flattened(cfg, v)),
{
    let entries = leaf_entries(cfg, Seq::empty(), Seq::empty(), v);
    let out = flattened(cfg, v);
    lemma_leaf_entries_suffixed(cfg, Seq::empty(), Seq::empty(), v);
    lemma_put_all_members(entries);
    assert forall|i: int| 0 <= i < out.len() implies suffixed(cfg, #[trigger] out[i]) by {
        let m = choose|m: int| 0 <= m < entries.len() && entries[m] == out[i];
        assert(suffixed(cfg, entries[m]));
    }
}

/// The key `k` with the prefix `p` before it; the empty key stays empty.
pub open spec fn prefixed(p: Seq<char>, k: Seq<char>) -> Seq<char> {
    if k.len() == 0 {
        k
    } else {
        p + k
    }
}

/// The two lists hold the same values in the same order, and each key of
/// `with` is the key of `bare` at that position with the prefix `p` before it.
pub open spec fn prefix_related(p: Seq<char>, with: Seq<EntryView>, bare: Seq<EntryView>) -> bool {
    with.len() == bare.len() && forall|i: int|
        0 <= i < bare.len() ==> (#[trigger] with[i]).1 == bare[i].1 && with[i].0 == prefixed(
            p,
            bare[i].0,
        )
}

/// Below a path that carries the prefix, a tree yields the entries that it
/// yields below the bare path, with the prefix before each key.
pub proof fn lemma_prefix_leaf_entries(
    separator: Seq<char>,
    mode: SuffixMode,
    p: Seq<char>,
    xpath: Seq<char>,
    key: Seq<char>,
    v: ValueView,
)
    ensures
        prefix_related(
            p,
            leaf_entries(settings_of(separator, p, mode), prefixed(p, xpath), key, v),
            leaf_entries(settings_of(separator, Seq::empty(), mode), xpath, key, v),
        ),
    decreases v, 0nat,
{
    let with = settings_of(separator, p, mode);
    let bare = settings_of(separator, Seq::empty(), mode);
    let path_with = formatted_key(with, prefixed(p, xpath), key, v);
    let path_bare = formatted_key(bare, xpath, key, v);
    assert(path_with =~= prefixed(p, path_bare));
    match v {
        ValueView::Sequence(items) => lemma_prefix_items_entries(
            separator,
            mode,
            p,
            path_bare,
            items,
            items.len(),
        ),
        ValueView::Mapping(pairs) => lemma_prefix_pairs_entries(
            separator,
            mode,
            p,
            path_bare,
            pairs,
            pairs.len(),
        ),
        _ => {},
    }
}

/// The prefix law for the first `n` items of a sequence.
pub proof fn lemma_prefix_items_entries(
    separator: Seq<char>,
    mode: SuffixMode,
    p: Seq<char>,
    path: Seq<char>,
    items: Seq<ValueView>,
    n: nat,
)
    ensures
        prefix_related(
            p,
            items_entries(settings_of(separator, p, mode), prefixed(p, path), items, n),
            items_entries(settings_of(separator, Seq::empty(), mode), path, items, n),
        ),
    decreases items, n,
{
    if n == 0 || n > items.len() {
    } else {
        lemma_prefix_items_entries(separator, mode, p, path, items, (n - 1) as nat);
        lemma_prefix_leaf_entries(separator, mode, p, path, decimal((n - 1) as nat), items[n - 1]);
    }
}

/// The prefix law for the first `n` pairs of a map.
pub proof fn lemma_prefix_pairs_entries(
    separator: Seq<char>,
    mode: SuffixMode,
    p: Seq<char>,
    path: Seq<char>,
    pairs: Seq<(ValueView, ValueView)>,
    n: nat,
)
    ensures
        prefix_related(
            p,
            pairs_entries(settings_of(separator, p, mode), prefixed(p, path), pairs, n),
            pairs_entries(settings_of(separator, Seq::empty(), mode), path, pairs, n),
        ),
    decreases pairs, n,
{
    if n == 0 || n > pairs.len() {
    } else {
        lemma_prefix_pairs_entries(separator, mode, p, path, pairs, (n - 1) as nat);
        lemma_prefix_leaf_entries(
            separator,
            mode,
            p,
            path,
            pair_label(pairs[n - 1].0),
            pairs[n - 1].1,
        );
    }
}

/// The prefix touches only the front of each key: flattened with the prefix
/// `p`, a tree yields the same leaves in the same order as without a prefix,
/// each non-empty key with `p` before it and otherwise unchanged.
pub proof fn lemma_prefix_only_at_root(
    separator: Seq<char>,
    mode: SuffixMode,
    p: Seq<char>,
    v: ValueView,
)
    ensures
        prefix_related(
            p,
            leaf_entries(settings_of(separator, p, mode), Seq::empty(), Seq::empty(), v),
            leaf_entries(settings_of(separator, Seq::empty(), mode), Seq::empty(), Seq::empty(), v),
        ),
{
    lemma_prefix_leaf_entries(separator, mode, p, Seq::empty(), Seq::empty(), v);
}

/// A common front does not change the order of two texts.
pub proof fn lemma_text_lt_common_front(p: Seq<char>, a: Seq<char>, b: Seq<char>)
    ensures
        text_lt(p + a, p + b) == text_lt(a, b),
    decreases p.len(),
{
    if p.len() == 0 {
        assert(p + a =~= a);
        assert(p + b =~= b);
    } else {
        assert((p + a).drop_first() =~= p.drop_first() + a);
        assert((p + b).drop_first() =~= p.drop_first() + b);
        lemma_text_lt_common_front(p.drop_first(), a, b);
    }
}

/// Prefixing keeps keys apart and in their order.
pub proof fn lemma_prefixed_order(p: Seq<char>, a: Seq<char>, b: Seq<char>)
    ensures
        text_lt(prefixed(p, a), prefixed(p, b)) == text_lt(a, b),
        (prefixed(p, a) == prefixed(p, b)) == (a == b),
{
    lemma_text_lt_common_front(p, a, b);
    if a.len() > 0 && b.len() > 0 && p + a == p + b {
        assert((p + a).subrange(p.len() as int, (p + a).len() as int) =~= a);
        assert((p + b).subrange(p.len() as int, (p + b).len() as int) =~= b);
    }
}

/// Storing under the prefixed key into the prefixed mapping gives the
/// prefixed result of storing under the bare key into the bare mapping.
pub proof fn lemma_put_prefixed(
    p: Seq<char>,
    with: Seq<EntryView>,
    bare: Seq<EntryView>,
    k: Seq<char>,
    v: ValueView,
)
    requires
        prefix_related(p, with, bare),
    ensures
        prefix_related(p, put(with, prefixed(p, k), v), put(bare, k, v)),
    decreases bare.len(),
{
    if bare.len() > 0 {
        lemma_prefixed_order(p, bare[0].0, k);
        assert(with[0].0 == prefixed(p, bare[0].0));
        if text_lt(bare[0].0, k) {
            let with_rest = with.drop_first();
            let bare_rest = bare.drop_first();
            assert forall|i: int| 0 <= i < bare_rest.len() implies (#[trigger] with_rest[i]).1
                == bare_rest[i].1 && with_rest[i].0 == prefixed(p, bare_rest[i].0) by {
                assert(with_rest[i] == with[i + 1]);
                assert(bare_rest[i] == bare[i + 1]);
            }
            lemma_put_prefixed(p, with_rest, bare_rest, k, v);
            let r_with = put(with, prefixed(p, k), v);
            let r_bare = put(bare, k, v);
            let t_with = put(with_rest, prefixed(p, k), v);
            let t_bare = put(bare_rest, k, v);
            assert forall|i: int| 0 <= i < r_bare.len() implies (#[trigger] r_with[i]).1
                == r_bare[i].1 && r_with[i].0 == prefixed(p, r_bare[i].0) by {
                if i > 0 {
                    assert(r_with[i] == t_with[i - 1]);
                    assert(r_bare[i] == t_bare[i - 1]);
                }
            }
        } else if bare[0].0 == k {
        } else {
            let r_with = put(with, prefixed(p, k), v);
            let r_bare = put(bare, k, v);
            assert forall|i: int| 0 <= i < r_bare.len() implies (#[trigger] r_with[i]).1
                == r_bare[i].1 && r_with[i].0 == prefixed(p, r_bare[i].0) by {
                if i > 0 {
                    assert(r_with[i] == with[i - 1]);
                    assert(r_bare[i] == bare[i - 1]);
                }
            }
        }
    }
}

/// Building a mapping from prefixed entries gives the prefixed mapping of the bare entries.
pub proof fn lemma_put_all_prefixed(p: Seq<char>, with: Seq<EntryView>, bare: Seq<EntryView>)
    requires
        prefix_related(p, with, bare),
    ensures
        prefix_related(p, put_all(Seq::empty(), with), put_all(Seq::empty(), bare)),
    decreases bare.len(),
{
    if bare.len() > 0 {
        let with_front = with.drop_last();
        let bare_front = bare.drop_last();
        assert forall|i: int| 0 <= i < bare_front.len() implies (#[trigger] with_front[i]).1
            == bare_front[i].1 && with_front[i].0 == prefixed(p, bare_front[i].0) by {
            assert(with_front[i] == with[i]);
            assert(bare_front[i] == bare[i]);
        }
        lemma_put_all_prefixed(p, with_front, bare_front);
        assert(with.last() == with[with.len() - 1]);
        assert(bare.last() == bare[bare.len() - 1]);
        lemma_put_prefixed(
            p,
            put_all(Seq::empty(), with_front),
            put_all(Seq::empty(), bare_front),
            bare.last().0,
            bare.last().1,
        );
    }
}

/// The prefix touches only the front of each output key: the flat mapping
/// under the prefix `p` holds the same values in the same order as the flat
/// mapping without a prefix, each non-empty key with `p` before it and
/// otherwise unchanged.
pub proof fn lemma_prefix_only_changes_front(
    separator: Seq<char>,
    mode: SuffixMode,
    p: Seq<char>,
    v: ValueView,
)
    ensures
        prefix_related(
            p,
            flattened(settings_of(separator, p, mode), v),
            flattened(settings_of(separator, Seq::empty(), mode), v),
        ),
{
    lemma_prefix_only_at_root(separator, mode, p, v);
    lemma_put_all_prefixed(
        p,
        leaf_entries(settings_of(separator, p, mode), Seq::empty(), Seq::empty(), v),
        leaf_entries(settings_of(separator, Seq::empty(), mode), Seq::empty(), Seq::empty(), v),
    );
}

/// Flattening is a function of the configuration and the tree: two outputs
/// for the same inputs have the same keys, in the same order, with the same values.
pub proof fn lemma_flatten_deterministic(
    cfg: Settings,
    v: ValueView,
    first: Seq<EntryView>,
    second: Seq<EntryView>,
)
    requires
        first == flattened(cfg, v),
        second == flattened(cfg, v),
    ensures
        first.len() == second.len(),
        forall|i: int| 0 <= i < first.len() ==> first[i] == second[i],
        first == second,
{
}

} // verus!
