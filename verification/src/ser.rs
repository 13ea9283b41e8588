//! The flattener: key synthesis and the recursive walk over a value tree.

use vstd::prelude::*;
use vstd::string::*;
use crate::flat_map::{put_all, EntryView, FlatMap};
use crate::text::{char_label, decimal, index_label};
use crate::value::{lemma_models_of, lemma_pair_models_of, Value, ValueView};

verus! {

/// Whether leaf keys carry a token that names the kind of their scalar.
#[derive(Debug, Clone, Copy, PartialEq, Eq)]
pub enum SuffixMode {
    Off,
    On,
}

/// Why a value tree could not be flattened.
#[derive(Debug, Clone, Copy, PartialEq, Eq)]
pub enum FlattenError {
    /// A map holds a key that is neither a string nor a single character.
    InvalidKeyType,
}

/// The configuration of a flattener, as plain texts.
pub struct Settings {
    pub key_separator: Seq<char>,
    pub prefix: Seq<char>,
    pub suffix_mode: SuffixMode,
}

/// The configuration with the given separator, prefix and suffix mode.
pub open spec fn settings_of(
    key_separator: Seq<char>,
    prefix: Seq<char>,
    suffix_mode: SuffixMode,
) -> Settings {
    Settings { key_separator, prefix, suffix_mode }
}

/// The token that names the kind of a scalar; empty for every kind that has none.
pub open spec fn suffix_token(v: ValueView) -> Seq<char> {
    match v {
        ValueView::Bool(_) => seq!['b', 'o', 'o', 'l'],
        ValueView::U8(_) | ValueView::U16(_) | ValueView::U32(_) | ValueView::U64(_) => seq![
            'd',
            'o',
            'u',
            'b',
            'l',
            'e',
        ],
        ValueView::I8(_) | ValueView::I16(_) | ValueView::I32(_) | ValueView::I64(_) => seq![
            'l',
            'o',
            'n',
            'g',
        ],
        ValueView::F32(_) | ValueView::F64(_) => seq!['f', 'l', 'o', 'a', 't'],
        _ => Seq::empty(),
    }
}

/// The suffix of a key for the value `v`: the separator and the kind's token
/// when the mode is on and the kind has a token, nothing otherwise.
pub open spec fn suffix_of(cfg: Settings, v: ValueView) -> Seq<char> {
    if cfg.suffix_mode == SuffixMode::On && suffix_token(v).len() > 0 {
        cfg.key_separator + suffix_token(v)
    } else {
        Seq::empty()
    }
}

/// The path of the value `v` that stands under the label `key` below `xpath`.
pub open spec fn formatted_key(
    cfg: Settings,
    xpath: Seq<char>,
    key: Seq<char>,
    v: ValueView,
) -> Seq<char> {
    if key.len() == 0 {
        Seq::empty()
    } else if xpath.len() == 0 {
        cfg.prefix + key + suffix_of(cfg, v)
    } else {
        xpath + cfg.key_separator + key + suffix_of(cfg, v)
    }
}

/// The label of a map key: the text of a string, the one character of a
/// character, and none for any other value.
pub open spec fn key_text(k: ValueView) -> Option<Seq<char>> {
    match k {
        ValueView::String(s) => Some(s),
        ValueView::Char(c) => Some(seq![c]),
        _ => None,
    }
}

/// The label under which the value of a map pair stands: the text of its
/// key, and the empty text for a key that has none.
pub open spec fn pair_label(k: ValueView) -> Seq<char> {
    match key_text(k) {
        Some(label) => label,
        None => Seq::empty(),
    }
}

/// Every key of every map in the tree is a string or a single character.
pub open spec fn keys_valid(v: ValueView) -> bool
    decreases v,
{
    match v {
        ValueView::Sequence(items) => forall|i: int|
            #![trigger items[i]]
            0 <= i < items.len() ==> keys_valid(items[i]),
        ValueView::Mapping(pairs) => forall|i: int|
            0 <= i < pairs.len() ==> key_text((#[trigger] pairs[i]).0) is Some && keys_valid(
                pairs[i].1,
            ),
        _ => true,
    }
}

/// The entries of the leaves below `v`, in the order in which they are met:
/// a sequence's items by position, a map's pairs in its own order.
pub open spec fn leaf_entries(
    cfg: Settings,
    xpath: Seq<char>,
    key: Seq<char>,
    v: ValueView,
) -> Seq<EntryView>
    decreases v, 0nat,
{
    let path = formatted_key(cfg, xpath, key, v);
    match v {
        ValueView::Sequence(items) => items_entries(cfg, path, items, items.len()),
        ValueView::Mapping(pairs) => pairs_entries(cfg, path, pairs, pairs.len()),
        _ => seq![(path, v)],
    }
}

/// The entries of the leaves below the first `n` items of a sequence at `path`.
pub open spec fn items_entries(
    cfg: Settings,
    path: Seq<char>,
    items: Seq<ValueView>,
    n: nat,
) -> Seq<EntryView>
    decreases items, n,
{
    if n == 0 || n > items.len() {
        Seq::empty()
    } else {
        items_entries(cfg, path, items, (n - 1) as nat) + leaf_entries(
            cfg,
            path,
            decimal((n - 1) as nat),
            items[n - 1],
        )
    }
}

/// The entries of the leaves below the first `n` pairs of a map at `path`.
pub open spec fn pairs_entries(
    cfg: Settings,
    path: Seq<char>,
    pairs: Seq<(ValueView, ValueView)>,
    n: nat,
) -> Seq<EntryView>
    decreases pairs, n,
{
    if n == 0 || n > pairs.len() {
        Seq::empty()
    } else {
        pairs_entries(cfg, path, pairs, (n - 1) as nat) + leaf_entries(
            cfg,
            path,
            pair_label(pairs[n - 1].0),
            pairs[n - 1].1,
        )
    }
}

/// The flat mapping of `v` at the root: the entries of its leaves, stored first to last.
pub open spec fn flattened(cfg: Settings, v: ValueView) -> Seq<EntryView> {
    put_all(Seq::empty(), leaf_entries(cfg, Seq::empty(), Seq::empty(), v))
}

/// Storing the entries of `a + b` is storing those of `a`, then those of `b`.
pub proof fn lemma_put_all_concat(acc: Seq<EntryView>, a: Seq<EntryView>, b: Seq<EntryView>)
    ensures
        put_all(acc, a + b) == put_all(put_all(acc, a), b),
    decreases b.len(),
{
    if b.len() == 0 {
        assert(a + b =~= a);
    } else {
        assert((a + b).drop_last() =~= a + b.drop_last());
        lemma_put_all_concat(acc, a, b.drop_last());
    }
}

/// A flattener: a separator, a root prefix and a suffix mode.
pub struct FlatSerializer {
    key_separator: String,
    prefix: String,
    suffix_mode: SuffixMode,
}

impl View for FlatSerializer {
    type V = Settings;

    closed spec fn view(&self) -> Settings {
        Settings {
            key_separator: self.key_separator@,
            prefix: self.prefix@,
            suffix_mode: self.suffix_mode,
        }
    }
}

impl FlatSerializer {
    /// A flattener with the given separator and prefix, and the suffix mode off.
    pub fn new(key_separator: String, prefix: String) -> (r: FlatSerializer)
        ensures
            r@ == settings_of(key_separator@, prefix@, SuffixMode::Off),
    {
        FlatSerializer { key_separator, prefix, suffix_mode: SuffixMode::Off }
    }

    /// The same flattener with the suffix mode set to `mode`.
    pub fn with_suffix_mode(self, mode: SuffixMode) -> (r: FlatSerializer)
        ensures
            r@ == settings_of(self@.key_separator, self@.prefix, mode),
    {
        FlatSerializer { key_separator: self.key_separator, prefix: self.prefix, suffix_mode: mode }
    }

    /// The suffix that a key gets for `value`.
    fn _schema_suffix(&self, value: &Value) -> (s: String)
        ensures
            s@ == suffix_of(self@, value@),
    {
        proof {
            reveal_strlit("bool");
            reveal_strlit("double");
            reveal_strlit("long");
            reveal_strlit("float");
            assert("bool"@ =~= seq!['b', 'o', 'o', 'l']);
            assert("double"@ =~= seq!['d', 'o', 'u', 'b', 'l', 'e']);
            assert("long"@ =~= seq!['l', 'o', 'n', 'g']);
            assert("float"@ =~= seq!['f', 'l', 'o', 'a', 't']);
        }
        match self.suffix_mode {
            SuffixMode::Off => String::new(),
            SuffixMode::On => match value {
                Value::Bool(_) => self.key_separator.clone().concat("bool"),
                Value::U8(_) | Value::U16(_) | Value::U32(_) | Value::U64(_) => {
                    self.key_separator.clone().concat("double")
                },
                Value::I8(_) | Value::I16(_) | Value::I32(_) | Value::I64(_) => {
                    self.key_separator.clone().concat("long")
                },
                Value::F32(_) | Value::F64(_) => self.key_separator.clone().concat("float"),
                _ => String::new(),
            },
        }
    }

    /// The path of `value` under the label `key` below `xpath`.
    pub fn format_key(&self, xpath: &str, key: &str, value: &Value) -> (s: String)
        ensures
            s@ == formatted_key(self@, xpath@, key@, value@),
    {
        if key.is_empty() {
            String::new()
        } else if xpath.is_empty() {
            let suffix = self._schema_suffix(value);
            self.prefix.clone().concat(key).concat(suffix.as_str())
        } else {
            let suffix = self._schema_suffix(value);
            String::from_str(xpath).concat(self.key_separator.as_str()).concat(key).concat(
                suffix.as_str(),
            )
        }
    }

    /// Stores the entry of every leaf below `value` into `out`, in the order
    /// in which the leaves are met. Fails when a map below `value` has a key
    /// that is neither a string nor a single character; `out` then holds the
    /// entries of the leaves met before that map.
    fn collect_into(
        &self,
        xpath: &str,
        key: &str,
        value: &Value,
        out: &mut FlatMap,
    ) -> (r: Result<(), FlattenError>)
        ensures
            r is Ok <==> keys_valid(value@),
            r is Ok ==> final(out)@ == put_all(
                old(out)@,
                leaf_entries(self@, xpath@, key@, value@),
            ),
            old(out).wf() ==> final(out).wf(),
        decreases value,
    {
        let path = self.format_key(xpath, key, value);
        let ghost start = out@;
        let ghost sorted = out.wf();
        match value {
            Value::Sequence(items) => {
                let ghost models = value@->Sequence_0;
                proof {
                    lemma_models_of(items@, items@.len());
                }
                let mut i: usize = 0;
                while i < items.len()
                    invariant
                        *value == Value::Sequence(*items),
                        value@ == ValueView::Sequence(models),
                        models.len() == items.len(),
                        forall|j: int| 0 <= j < items.len() ==> models[j] == (#[trigger] items[j])@,
                        path@ == formatted_key(self@, xpath@, key@, value@),
                        i <= items.len(),
                        forall|j: int| 0 <= j < i ==> keys_valid(#[trigger] models[j]),
                        out@ == put_all(start, items_entries(self@, path@, models, i as nat)),
                        start == old(out)@,
                        sorted == old(out).wf(),
                        sorted ==> out.wf(),
                    decreases items.len() - i,
                {
                    let label = index_label(i);
                    assert(decreases_to!(value => value->Sequence_0));
                    assert(decreases_to!(*items => items[i as int]));
                    assert(models[i as int] == items[i as int]@);
                    match self.collect_into(path.as_str(), label.as_str(), &items[i], out) {
                        Err(e) => {
                            assert(decreases_to!(value@ => value@->Sequence_0));
                            assert(decreases_to!(models => models[i as int]));
                            assert(!keys_valid(models[i as int]));
                            return Err(e);
                        },
                        Ok(()) => {},
                    }
                    proof {
                        lemma_put_all_concat(
                            start,
                            items_entries(self@, path@, models, i as nat),
                            leaf_entries(self@, path@, label@, models[i as int]),
                        );
                    }
                    i += 1;
                }
                Ok(())
            },
            Value::Mapping(pairs) => {
                let ghost models = value@->Mapping_0;
                proof {
                    lemma_pair_models_of(pairs@, pairs@.len());
                }
                let mut i: usize = 0;
                while i < pairs.len()
                    invariant
                        *value == Value::Mapping(*pairs),
                        value@ == ValueView::Mapping(models),
                        models.len() == pairs.len(),
                        forall|j: int|
                            0 <= j < pairs.len() ==> models[j] == (
                                (#[trigger] pairs[j]).0@,
                                pairs[j].1@,
                            ),
                        path@ == formatted_key(self@, xpath@, key@, value@),
                        i <= pairs.len(),
                        forall|j: int|
                            0 <= j < i ==> key_text((#[trigger] models[j]).0) is Some
                                && keys_valid(models[j].1),
                        out@ == put_all(start, pairs_entries(self@, path@, models, i as nat)),
                        start == old(out)@,
                        sorted == old(out).wf(),
                        sorted ==> out.wf(),
                    decreases pairs.len() - i,
                {
                    assert(decreases_to!(value => value->Mapping_0));
                    assert(decreases_to!(*pairs => pairs[i as int]));
                    assert(decreases_to!(pairs[i as int] => pairs[i as int].1));
                    assert(models[i as int] == (pairs[i as int].0@, pairs[i as int].1@));
                    let label = match &pairs[i].0 {
                        Value::String(data) => data.clone(),
                        Value::Char(data) => char_label(*data),
                        _ => {
                            assert(key_text(models[i as int].0) is None);
                            return Err(FlattenError::InvalidKeyType);
                        },
                    };
                    match self.collect_into(path.as_str(), label.as_str(), &pairs[i].1, out) {
                        Err(e) => {
                            assert(!keys_valid(models[i as int].1));
                            return Err(e);
                        },
                        Ok(()) => {},
                    }
                    proof {
                        lemma_put_all_concat(
                            start,
                            pairs_entries(self@, path@, models, i as nat),
                            leaf_entries(self@, path@, label@, models[i as int].1),
                        );
                    }
                    i += 1;
                }
                Ok(())
            },
            _ => {
                out.insert(path, value.duplicate());
                proof {
                    reveal_with_fuel(put_all, 2);
                    assert(leaf_entries(self@, xpath@, key@, value@).drop_last() =~= Seq::<
                        EntryView,
                    >::empty());
                }
                Ok(())
            },
        }
    }

    /// The flat mapping of the leaves below `value`, where `value` stands
    /// under the label `key` below `xpath`; of two leaves with the same key
    /// the one met later is kept.
    pub fn disassemble(&self, xpath: &str, key: &str, value: &Value) -> (r: Result<
        FlatMap,
        FlattenError,
    >)
        ensures
            match r {
                Ok(m) => keys_valid(value@) && m.wf() && m@ == put_all(
                    Seq::empty(),
                    leaf_entries(self@, xpath@, key@, value@),
                ),
                Err(e) => !keys_valid(value@) && e == FlattenError::InvalidKeyType,
            },
    {
        let mut parts = FlatMap::new();
        match self.collect_into(xpath, key, value, &mut parts) {
            Ok(()) => Ok(parts),
            Err(_) => Err(FlattenError::InvalidKeyType),
        }
    }
}

} // verus!
