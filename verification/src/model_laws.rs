//! Laws of what a file says about a model: its metadata under the names that
//! the format gives them, its tensors under theirs, and the layers that follow.

use vstd::prelude::*;
use crate::gguf;
use crate::gguf::{ConfigView, Content, ListItem, LoadError, MetaKey, MetaValue, TensorEntry, TensorName};
use crate::ieee;
use crate::layers;
use crate::layers::{FeedForward, Operator};
use crate::model;
use crate::quantized::GgmlDType;
use crate::tensor::Device;

verus! {

/// Entry `i` has this key, and no later one has.
pub open spec fn last_under(m: Seq<(String, MetaValue)>, key: Seq<char>, i: int) -> bool {
    &&& 0 <= i < m.len()
    &&& m[i].0@ == key
    &&& forall|j: int| i < j < m.len() ==> (#[trigger] m[j]).0@ != key
}

pub open spec fn nothing_under(m: Seq<(String, MetaValue)>, key: Seq<char>) -> bool {
    forall|j: int| 0 <= j < m.len() ==> (#[trigger] m[j]).0@ != key
}

/// The last entry under `key` is the number `n`.
pub open spec fn number_under(m: Seq<(String, MetaValue)>, key: Seq<char>, n: usize) -> bool {
    exists|i: int| #[trigger] last_under(m, key, i) && (m[i].1 matches MetaValue::U32(v) && v == n)
}

/// The last entry under `key` is the real number with these bits.
pub open spec fn real_under(m: Seq<(String, MetaValue)>, key: Seq<char>, bits: u32) -> bool {
    exists|i: int| #[trigger] last_under(m, key, i) && m[i].1 == MetaValue::F32(bits)
}

/// The last entry under `key` is this text.
pub open spec fn text_under(m: Seq<(String, MetaValue)>, key: Seq<char>, text: Seq<char>) -> bool {
    exists|i: int| #[trigger] last_under(m, key, i) && (m[i].1 matches MetaValue::Text(s) && s@ == text)
}

/// A list item that is the number `n`, signed or not.
pub open spec fn item_is(item: ListItem, n: usize) -> bool {
    match item {
        ListItem::U32(v) => v == n,
        ListItem::I32(v) => v == n,
        ListItem::Other => false,
    }
}

/// The last entry under `key` is this list of numbers.
pub open spec fn list_under(m: Seq<(String, MetaValue)>, key: Seq<char>, numbers: Seq<usize>) -> bool {
    exists|i: int|
        #[trigger] last_under(m, key, i) && (m[i].1 matches MetaValue::List(items) && items@.len() == numbers.len() && (
        forall|j: int| 0 <= j < numbers.len() ==> item_is(items@[j], #[trigger] numbers[j])))
}

/// The metadata describes a decoder of sigmoid-gated experts with these numbers.
pub open spec fn describes(m: Seq<(String, MetaValue)>, c: ConfigView) -> bool {
    &&& text_under(m, "general.architecture"@, "lfm2moe"@)
    &&& number_under(m, "lfm2moe.block_count"@, c.layers)
    &&& number_under(m, "lfm2moe.embedding_length"@, c.hidden)
    &&& number_under(m, "lfm2moe.attention.head_count"@, c.heads)
    &&& number_under(m, "lfm2moe.leading_dense_block_count"@, c.dense)
    &&& number_under(m, "lfm2moe.feed_forward_length"@, c.dense_ff)
    &&& number_under(m, "lfm2moe.expert_count"@, c.experts)
    &&& number_under(m, "lfm2moe.expert_used_count"@, c.topk)
    &&& number_under(m, "lfm2moe.expert_feed_forward_length"@, c.expert_ff)
    &&& number_under(m, "lfm2moe.context_length"@, c.context)
    &&& number_under(m, "lfm2moe.vocab_size"@, c.vocab)
    &&& number_under(m, "lfm2moe.shortconv.l_cache"@, c.kernel)
    &&& number_under(m, "lfm2moe.expert_gating_func"@, 2)
    &&& real_under(m, "lfm2moe.attention.layer_norm_rms_epsilon"@, c.eps)
    &&& real_under(m, "lfm2moe.rope.freq_base"@, c.theta)
    &&& list_under(m, "lfm2moe.attention.head_count_kv"@, c.kv)
}

/// A positive number that is not infinite.
pub open spec fn is_positive(bits: u32) -> bool {
    ieee::number(bits) > 0 && (bits / 0x80_0000) % 256 != 255
}

/// Heads of an even number of channels share the hidden size, key/value heads
/// share the query heads, every layer is given its kind, and nothing is empty.
pub open spec fn buildable(c: ConfigView) -> bool {
    &&& exists|pairs: int| pairs > 0 && c.hidden == #[trigger] (c.heads * (2 * pairs))
    &&& c.hidden >= 1
    &&& c.layers >= 1
    &&& c.kv.len() == c.layers
    &&& c.dense <= c.layers
    &&& c.dense_ff >= 1
    &&& c.expert_ff >= 1
    &&& 1 <= c.topk <= c.experts
    &&& c.kernel >= 1
    &&& 1 <= c.context <= 0xffff_ffff
    &&& c.vocab >= 1
    &&& forall|i: int| 0 <= i < c.kv.len() ==> #[trigger] c.kv[i] == 0 || shares(c.heads as int, c.kv[i] as int)
    &&& is_positive(c.eps)
    &&& is_positive(c.theta)
}

/// `heads` is a positive multiple of `kv`.
pub open spec fn shares(heads: int, kv: int) -> bool {
    exists|repeats: int| repeats > 0 && heads == #[trigger] (kv * repeats)
}

proof fn lemma_meta_index(m: Seq<(String, MetaValue)>, key: Seq<char>)
    ensures
        match gguf::meta_index(m, key) {
            Some(i) => last_under(m, key, i),
            None => nothing_under(m, key),
        },
    decreases m.len(),
{
    if m.len() > 0 && m.last().0@ != key {
        let rest = m.drop_last();
        lemma_meta_index(rest, key);
        assert forall|j: int| 0 <= j < m.len() - 1 implies rest[j] == #[trigger] m[j] by {}
    }
}

/// Law: of the entries with one key the last counts, and an absent key is
/// reported absent.
pub proof fn law_last_entry_counts(m: Seq<(String, MetaValue)>, key: Seq<char>, i: int)
    ensures
        gguf::meta_index(m, key) == Some(i) <==> last_under(m, key, i),
        gguf::meta_index(m, key) is None <==> nothing_under(m, key),
{
    lemma_meta_index(m, key);
    if let Some(k) = gguf::meta_index(m, key) {
        assert(m[k].0@ == key);
        if last_under(m, key, i) {
            assert(k == i) by {
                if k < i {
                    assert(m[i].0@ != key);
                } else if i < k {
                    assert(m[k].0@ != key);
                }
            }
        }
    } else if last_under(m, key, i) {
        assert(m[i].0@ != key);
    }
}

proof fn lemma_number(m: Seq<(String, MetaValue)>, key: MetaKey, n: usize)
    ensures
        gguf::number_error(m, key) is None && gguf::number_value(m, key) == n <==> number_under(m, key.spec_text(), n),
        gguf::number_error(m, key) is None ==> number_under(m, key.spec_text(), gguf::number_value(m, key)),
        nothing_under(m, key.spec_text()) ==> gguf::number_error(m, key) == Some(LoadError::MissingMetadata(key)),
{
    let text = key.spec_text();
    lemma_meta_index(m, text);
    if let Some(k) = gguf::meta_index(m, text) {
        law_last_entry_counts(m, text, k);
        assert(last_under(m, text, k));
        if number_under(m, text, n) {
            let i = choose|i: int| #[trigger] last_under(m, text, i) && (m[i].1 matches MetaValue::U32(v) && v == n);
            law_last_entry_counts(m, text, i);
        }
    } else {
        if number_under(m, text, n) {
            let i = choose|i: int| #[trigger] last_under(m, text, i) && (m[i].1 matches MetaValue::U32(v) && v == n);
            law_last_entry_counts(m, text, i);
        }
    }
    if nothing_under(m, text) {
        law_last_entry_counts(m, text, 0);
    }
}

proof fn lemma_real(m: Seq<(String, MetaValue)>, key: MetaKey, bits: u32)
    ensures
        gguf::float_error(m, key) is None && gguf::float_value(m, key) == bits <==> real_under(m, key.spec_text(), bits),
{
    let text = key.spec_text();
    lemma_meta_index(m, text);
    if let Some(k) = gguf::meta_index(m, text) {
        law_last_entry_counts(m, text, k);
        assert(last_under(m, text, k));
    }
    if real_under(m, text, bits) {
        let i = choose|i: int| #[trigger] last_under(m, text, i) && m[i].1 == MetaValue::F32(bits);
        law_last_entry_counts(m, text, i);
    }
}

proof fn lemma_architecture(m: Seq<(String, MetaValue)>)
    ensures
        gguf::architecture_error(m) is None <==> text_under(m, "general.architecture"@, "lfm2moe"@),
{
    let text = MetaKey::Architecture.spec_text();
    assert(text == "general.architecture"@);
    lemma_meta_index(m, text);
    if let Some(k) = gguf::meta_index(m, text) {
        law_last_entry_counts(m, text, k);
        assert(last_under(m, text, k));
    }
    if text_under(m, text, "lfm2moe"@) {
        let i = choose|i: int| #[trigger] last_under(m, text, i) && (m[i].1 matches MetaValue::Text(s) && s@ == "lfm2moe"@);
        law_last_entry_counts(m, text, i);
    }
}

proof fn lemma_list(m: Seq<(String, MetaValue)>, numbers: Seq<usize>)
    ensures
        gguf::kv_error(m) is None && gguf::kv_value(m) == numbers <==> list_under(
            m,
            "lfm2moe.attention.head_count_kv"@,
            numbers,
        ),
{
    let text = MetaKey::HeadCountKv.spec_text();
    assert(text == "lfm2moe.attention.head_count_kv"@);
    lemma_meta_index(m, text);
    if gguf::kv_error(m) is None && gguf::kv_value(m) == numbers {
        let k = gguf::meta_index(m, text)->0;
        assert(last_under(m, text, k));
        let items = m[k].1->List_0;
        assert forall|j: int| 0 <= j < numbers.len() implies item_is(items@[j], #[trigger] numbers[j]) by {
            assert(gguf::is_count(items@[j]));
            assert(gguf::kv_value(m)[j] == gguf::count_value(items@[j]));
        }
    }
    if list_under(m, text, numbers) {
        let i = choose|i: int|
            #[trigger] last_under(m, text, i) && (m[i].1 matches MetaValue::List(items) && items@.len() == numbers.len()
                && (forall|j: int| 0 <= j < numbers.len() ==> item_is(items@[j], #[trigger] numbers[j])));
        law_last_entry_counts(m, text, i);
        let items = m[i].1->List_0;
        assert forall|j: int| 0 <= j < items@.len() implies gguf::is_count(#[trigger] items@[j]) && gguf::count_value(
            items@[j],
        ) == numbers[j] by {
            assert(item_is(items@[j], numbers[j]));
        }
        assert(gguf::kv_value(m) =~= numbers);
    }
}

proof fn lemma_buildable(c: ConfigView)
    ensures
        c.valid() <==> buildable(c),
{
    ieee::law_signs_are_those_of_the_numbers(c.eps);
    ieee::law_signs_are_those_of_the_numbers(c.theta);
    ieee::law_exponent_tells_finite_from_infinite(c.eps);
    ieee::law_exponent_tells_finite_from_infinite(c.theta);
    let (hidden, heads) = (c.hidden as int, c.heads as int);
    if heads > 0 {
        vstd::arithmetic::div_mod::lemma_fundamental_div_mod(hidden, heads);
        assert forall|i: int| 0 <= i < c.kv.len() implies (gguf::kv_heads_fit(#[trigger] c.kv[i], c.heads) <==> c.kv[i] == 0
            || shares(heads, c.kv[i] as int)) by {
            lemma_shares(heads, c.kv[i] as int);
        }
    }
    if c.valid() {
        let pairs = (hidden / heads) / 2;
        assert(hidden / heads == 2 * pairs);
        assert(pairs > 0) by (nonlinear_arith)
            requires
                hidden == heads * (2 * pairs),
                hidden > 0,
                heads > 0,
        ;
        assert(c.hidden == c.heads * (2 * pairs));
        assert forall|i: int| 0 <= i < c.kv.len() implies #[trigger] c.kv[i] == 0 || shares(heads, c.kv[i] as int) by {
            assert(gguf::kv_heads_fit(c.kv[i], c.heads));
        }
    }
    if buildable(c) {
        let pairs = choose|pairs: int| pairs > 0 && c.hidden == #[trigger] (c.heads * (2 * pairs));
        assert(heads > 0) by (nonlinear_arith)
            requires
                hidden == heads * (2 * pairs),
                hidden > 0,
                pairs > 0,
        ;
        vstd::arithmetic::div_mod::lemma_div_multiples_vanish(2 * pairs, heads);
        vstd::arithmetic::div_mod::lemma_mod_multiples_basic(2 * pairs, heads);
        assert(heads * (2 * pairs) == (2 * pairs) * heads) by (nonlinear_arith);
        assert forall|i: int| 0 <= i < c.kv.len() implies gguf::kv_heads_fit(#[trigger] c.kv[i], c.heads) by {
            assert(c.kv[i] == 0 || shares(heads, c.kv[i] as int));
            lemma_shares(heads, c.kv[i] as int);
        }
    }
}

proof fn lemma_shares(heads: int, kv: int)
    requires
        heads > 0,
        kv >= 0,
    ensures
        kv > 0 ==> (shares(heads, kv) <==> kv <= heads && heads % kv == 0),
        shares(heads, kv) ==> kv > 0,
{
    if shares(heads, kv) {
        let r = choose|repeats: int| repeats > 0 && heads == #[trigger] (kv * repeats);
        assert(0 < kv <= heads) by (nonlinear_arith)
            requires
                heads == kv * r,
                heads > 0,
                kv >= 0,
                r > 0,
        ;
        vstd::arithmetic::div_mod::lemma_mod_multiples_basic(r, kv);
        assert(r * kv == kv * r) by (nonlinear_arith);
    }
    if kv > 0 && heads % kv == 0 {
        vstd::arithmetic::div_mod::lemma_fundamental_div_mod(heads, kv);
        let r = heads / kv;
        assert(r > 0) by (nonlinear_arith)
            requires
                heads == kv * r,
                heads > 0,
                kv > 0,
        ;
        assert(heads == kv * r);
    }
}

/// Law: a configuration is read exactly from metadata that describes it, each
/// number from the last entry under its own name, and exactly when a decoder
/// can be built from the numbers. Metadata that describes numbers which do not
/// fit together is refused as invalid.
#[verifier::rlimit(30)]
pub proof fn law_configurations_are_what_metadata_describes(m: Seq<(String, MetaValue)>, c: ConfigView)
    ensures
        gguf::config_error(m) is None && gguf::spec_config(m) == c <==> describes(m, c) && buildable(c),
        describes(m, c) && !buildable(c) ==> gguf::config_error(m) == Some(LoadError::InvalidConfig),
        gguf::config_error(m) is None ==> describes(m, gguf::spec_config(m)),
{
    lemma_reads(m, c);
    lemma_reads(m, gguf::spec_config(m));
    lemma_buildable(c);
    lemma_buildable(gguf::spec_config(m));
}

/// No key is missing or of another type, and the experts are gated by a sigmoid.
spec fn complete(m: Seq<(String, MetaValue)>) -> bool {
    &&& gguf::architecture_error(m) is None
    &&& gguf::numbers_error(m) is None
    &&& gguf::gating_error(m) is None
    &&& gguf::float_error(m, MetaKey::RmsEpsilon) is None
    &&& gguf::float_error(m, MetaKey::RopeFreqBase) is None
    &&& gguf::kv_error(m) is None
}

#[verifier::rlimit(30)]
proof fn lemma_reads(m: Seq<(String, MetaValue)>, c: ConfigView)
    ensures
        complete(m) && gguf::spec_config(m) == c <==> describes(m, c),
{
    lemma_architecture(m);
    lemma_number(m, MetaKey::BlockCount, c.layers);
    lemma_number(m, MetaKey::EmbeddingLength, c.hidden);
    lemma_number(m, MetaKey::HeadCount, c.heads);
    lemma_number(m, MetaKey::LeadingDenseBlockCount, c.dense);
    lemma_number(m, MetaKey::FeedForwardLength, c.dense_ff);
    lemma_number(m, MetaKey::ExpertCount, c.experts);
    lemma_number(m, MetaKey::ExpertUsedCount, c.topk);
    lemma_number(m, MetaKey::ExpertFeedForwardLength, c.expert_ff);
    lemma_number(m, MetaKey::ContextLength, c.context);
    lemma_number(m, MetaKey::VocabSize, c.vocab);
    lemma_number(m, MetaKey::ShortConvCache, c.kernel);
    lemma_number(m, MetaKey::ExpertGatingFunc, 2);
    lemma_real(m, MetaKey::RmsEpsilon, c.eps);
    lemma_real(m, MetaKey::RopeFreqBase, c.theta);
    lemma_list(m, c.kv);
    if describes(m, c) {
        assert(gguf::spec_config(m) =~= c);
    }
}

/// The plain numbers of a configuration under their names, in the order in
/// which they are asked for; the last tells how experts are gated.
pub open spec fn number_names() -> Seq<(MetaKey, Seq<char>)> {
    seq![
        (MetaKey::BlockCount, "lfm2moe.block_count"@),
        (MetaKey::EmbeddingLength, "lfm2moe.embedding_length"@),
        (MetaKey::HeadCount, "lfm2moe.attention.head_count"@),
        (MetaKey::LeadingDenseBlockCount, "lfm2moe.leading_dense_block_count"@),
        (MetaKey::FeedForwardLength, "lfm2moe.feed_forward_length"@),
        (MetaKey::ExpertCount, "lfm2moe.expert_count"@),
        (MetaKey::ExpertUsedCount, "lfm2moe.expert_used_count"@),
        (MetaKey::ExpertFeedForwardLength, "lfm2moe.expert_feed_forward_length"@),
        (MetaKey::ContextLength, "lfm2moe.context_length"@),
        (MetaKey::VocabSize, "lfm2moe.vocab_size"@),
        (MetaKey::ShortConvCache, "lfm2moe.shortconv.l_cache"@),
        (MetaKey::ExpertGatingFunc, "lfm2moe.expert_gating_func"@),
    ]
}

/// The last entry under `key` is some number.
pub open spec fn some_number_under(m: Seq<(String, MetaValue)>, key: Seq<char>) -> bool {
    exists|i: int| #[trigger] last_under(m, key, i) && m[i].1 is U32
}

proof fn lemma_number_kind(m: Seq<(String, MetaValue)>, key: MetaKey)
    ensures
        gguf::number_error(m, key) is None <==> some_number_under(m, key.spec_text()),
        gguf::number_error(m, key) == Some(LoadError::MissingMetadata(key)) <==> nothing_under(m, key.spec_text()),
        gguf::number_error(m, key) matches Some(e) ==> e == LoadError::MissingMetadata(key) || e
            == LoadError::MetadataType(key),
{
    let text = key.spec_text();
    lemma_meta_index(m, text);
    law_last_entry_counts(m, text, 0);
    if let Some(k) = gguf::meta_index(m, text) {
        assert(last_under(m, text, k));
    }
    if some_number_under(m, text) {
        let i = choose|i: int| #[trigger] last_under(m, text, i) && m[i].1 is U32;
        law_last_entry_counts(m, text, i);
    }
}

/// Law: the architecture is asked for first; a file of another one is refused
/// as that, whatever else it lacks.
pub proof fn law_architecture_comes_first(m: Seq<(String, MetaValue)>, i: int)
    ensures
        nothing_under(m, "general.architecture"@) ==> gguf::config_error(m) == Some(
            LoadError::MissingMetadata(MetaKey::Architecture),
        ),
        last_under(m, "general.architecture"@, i) ==> match m[i].1 {
            MetaValue::Text(s) => s@ != "lfm2moe"@ ==> gguf::config_error(m) == Some(LoadError::Architecture),
            _ => gguf::config_error(m) == Some(LoadError::MetadataType(MetaKey::Architecture)),
        },
{
    law_last_entry_counts(m, "general.architecture"@, i);
}

/// Law: then the numbers, in order: the first that is missing, or is no number,
/// is the one that is named.
#[verifier::rlimit(40)]
pub proof fn law_first_bad_number_is_named(m: Seq<(String, MetaValue)>, j: int)
    requires
        text_under(m, "general.architecture"@, "lfm2moe"@),
        0 <= j < 12,
        forall|i: int| 0 <= i < j ==> some_number_under(m, (#[trigger] number_names()[i]).1),
    ensures
        nothing_under(m, number_names()[j].1) ==> gguf::config_error(m) == Some(
            LoadError::MissingMetadata(number_names()[j].0),
        ),
        !nothing_under(m, number_names()[j].1) && !some_number_under(m, number_names()[j].1) ==> gguf::config_error(m)
            == Some(LoadError::MetadataType(number_names()[j].0)),
{
    lemma_architecture(m);
    assert forall|i: int| 0 <= i < 12 implies (#[trigger] number_names()[i]).1 == number_names()[i].0.spec_text() by {}
    assert forall|i: int| 0 <= i < 12 implies {
        let key = (#[trigger] number_names()[i]).0;
        &&& gguf::number_error(m, key) is None <==> some_number_under(m, number_names()[i].1)
        &&& gguf::number_error(m, key) == Some(LoadError::MissingMetadata(key)) <==> nothing_under(m, number_names()[i].1)
        &&& gguf::number_error(m, key) matches Some(e) ==> e == LoadError::MissingMetadata(key) || e
            == LoadError::MetadataType(key)
    } by {
        lemma_number_kind(m, number_names()[i].0);
    }
    let names = number_names();
    assert(names[0].0 == MetaKey::BlockCount);
    assert(names[1].0 == MetaKey::EmbeddingLength);
    assert(names[2].0 == MetaKey::HeadCount);
    assert(names[3].0 == MetaKey::LeadingDenseBlockCount);
    assert(names[4].0 == MetaKey::FeedForwardLength);
    assert(names[5].0 == MetaKey::ExpertCount);
    assert(names[6].0 == MetaKey::ExpertUsedCount);
    assert(names[7].0 == MetaKey::ExpertFeedForwardLength);
    assert(names[8].0 == MetaKey::ContextLength);
    assert(names[9].0 == MetaKey::VocabSize);
    assert(names[10].0 == MetaKey::ShortConvCache);
    assert(names[11].0 == MetaKey::ExpertGatingFunc);
}

/// Law: with every number in place, gating by anything but a sigmoid is refused
/// as that; then a missing or mistyped real number, and then the key/value
/// heads: missing, not listed per layer, or no counts.
#[verifier::rlimit(40)]
pub proof fn law_gating_precedes_the_rest(m: Seq<(String, MetaValue)>, gating: usize, i: int)
    requires
        text_under(m, "general.architecture"@, "lfm2moe"@),
        forall|j: int| 0 <= j < 12 ==> some_number_under(m, (#[trigger] number_names()[j]).1),
        number_under(m, "lfm2moe.expert_gating_func"@, gating),
    ensures
        gguf::config_error(m) == Some(LoadError::Gating) <==> gating != 2,
        gating == 2 && nothing_under(m, "lfm2moe.attention.layer_norm_rms_epsilon"@) ==> gguf::config_error(m) == Some(
            LoadError::MissingMetadata(MetaKey::RmsEpsilon),
        ),
        gating == 2 && last_under(m, "lfm2moe.attention.layer_norm_rms_epsilon"@, i) && !(m[i].1 is F32)
            ==> gguf::config_error(m) == Some(LoadError::MetadataType(MetaKey::RmsEpsilon)),
        gating == 2 && gguf::float_error(m, MetaKey::RmsEpsilon) is None && nothing_under(m, "lfm2moe.rope.freq_base"@)
            ==> gguf::config_error(m) == Some(LoadError::MissingMetadata(MetaKey::RopeFreqBase)),
        gating == 2 && gguf::float_error(m, MetaKey::RmsEpsilon) is None && last_under(m, "lfm2moe.rope.freq_base"@, i)
            && !(m[i].1 is F32) ==> gguf::config_error(m) == Some(LoadError::MetadataType(MetaKey::RopeFreqBase)),
        gating == 2 && gguf::float_error(m, MetaKey::RmsEpsilon) is None && gguf::float_error(m, MetaKey::RopeFreqBase) is None
            ==> {
            &&& nothing_under(m, "lfm2moe.attention.head_count_kv"@) ==> gguf::config_error(m) == Some(
                LoadError::MissingMetadata(MetaKey::HeadCountKv),
            )
            &&& last_under(m, "lfm2moe.attention.head_count_kv"@, i) ==> match m[i].1 {
                MetaValue::List(items) => (exists|j: int|
                    0 <= j < items@.len() && match #[trigger] items@[j] {
                        ListItem::U32(_) => false,
                        ListItem::I32(v) => v < 0,
                        ListItem::Other => true,
                    }) ==> gguf::config_error(m) == Some(LoadError::KvCount),
                _ => gguf::config_error(m) == Some(LoadError::KvCountsNotListed),
            }
        },
{
    lemma_architecture(m);
    lemma_numbers_in_place(m);
    lemma_number(m, MetaKey::ExpertGatingFunc, gating);
    law_last_entry_counts(m, "lfm2moe.attention.layer_norm_rms_epsilon"@, i);
    law_last_entry_counts(m, "lfm2moe.rope.freq_base"@, i);
    law_last_entry_counts(m, "lfm2moe.attention.head_count_kv"@, i);
    if last_under(m, "lfm2moe.attention.head_count_kv"@, i) {
        if let MetaValue::List(items) = m[i].1 {
            if exists|j: int|
                0 <= j < items@.len() && match #[trigger] items@[j] {
                    ListItem::U32(_) => false,
                    ListItem::I32(v) => v < 0,
                    ListItem::Other => true,
                } {
                let j = choose|j: int|
                    0 <= j < items@.len() && match #[trigger] items@[j] {
                        ListItem::U32(_) => false,
                        ListItem::I32(v) => v < 0,
                        ListItem::Other => true,
                    };
                assert(!gguf::is_count(items@[j]));
            }
        }
    }
}

proof fn lemma_numbers_in_place(m: Seq<(String, MetaValue)>)
    requires
        forall|j: int| 0 <= j < 12 ==> some_number_under(m, (#[trigger] number_names()[j]).1),
    ensures
        gguf::numbers_error(m) is None,
        gguf::number_error(m, MetaKey::ExpertGatingFunc) is None,
{
    let names = number_names();
    assert forall|i: int| 0 <= i < 12 implies gguf::number_error(m, (#[trigger] names[i]).0) is None by {
        assert(names[i].1 == names[i].0.spec_text());
        lemma_number_kind(m, names[i].0);
    }
    assert(names[0].0 == MetaKey::BlockCount);
    assert(names[1].0 == MetaKey::EmbeddingLength);
    assert(names[2].0 == MetaKey::HeadCount);
    assert(names[3].0 == MetaKey::LeadingDenseBlockCount);
    assert(names[4].0 == MetaKey::FeedForwardLength);
    assert(names[5].0 == MetaKey::ExpertCount);
    assert(names[6].0 == MetaKey::ExpertUsedCount);
    assert(names[7].0 == MetaKey::ExpertFeedForwardLength);
    assert(names[8].0 == MetaKey::ContextLength);
    assert(names[9].0 == MetaKey::VocabSize);
    assert(names[10].0 == MetaKey::ShortConvCache);
    assert(names[11].0 == MetaKey::ExpertGatingFunc);
}

/// The number that a run of decimal digits is.
pub open spec fn digits_value(s: Seq<char>) -> int
    decreases s.len(),
{
    if s.len() == 0 {
        0
    } else {
        10 * digits_value(s.drop_last()) + (s.last() as int - '0' as int)
    }
}

/// Law: a layer's number is written in decimal digits that read back as that
/// number, without leading zeros; so no two layers share a name.
pub proof fn law_layer_numbers_are_decimal(n: nat)
    ensures
        digits_value(gguf::decimal(n)) == n,
        gguf::decimal(n).len() > 0,
        forall|i: int| 0 <= i < gguf::decimal(n).len() ==> '0' <= #[trigger] gguf::decimal(n)[i] <= '9',
        n > 0 ==> gguf::decimal(n)[0] != '0',
    decreases n,
{
    let s = gguf::decimal(n);
    if n < 10 {
        assert(digits_value(s.drop_last()) == 0);
    } else {
        law_layer_numbers_are_decimal(n / 10);
        assert(s.drop_last() =~= gguf::decimal(n / 10));
        assert(s[0] == gguf::decimal(n / 10)[0]);
        assert forall|i: int| 0 <= i < s.len() implies '0' <= #[trigger] s[i] <= '9' by {
            if i < s.len() - 1 {
                assert(s[i] == gguf::decimal(n / 10)[i]);
            }
        }
    }
}

/// The name of a tensor of block `i`.
pub open spec fn block_name(i: int, rest: Seq<char>) -> Seq<char> {
    "blk."@ + gguf::decimal(i as nat) + "."@ + rest
}

/// A dimension, as a file counts it.
pub open spec fn dim(n: int) -> u64 {
    n as u64
}

/// The tensors outside the blocks, by name and shape: one row of the embedding
/// per token, the output projection likewise where the file has one, and a
/// scale per channel.
pub open spec fn head_tensors(c: ConfigView, has_output: bool) -> Seq<(Seq<char>, Seq<u64>)> {
    let (v, h) = (dim(c.vocab as int), dim(c.hidden as int));
    seq![("token_embd.weight"@, seq![v, h])] + (if has_output {
        seq![("output.weight"@, seq![v, h])]
    } else {
        seq![]
    }) + seq![("token_embd_norm.weight"@, seq![h])]
}

/// The tensors of block `i`, by name and shape, rows first: two norms; a dense
/// feed-forward in the leading blocks and experts after them; attention where
/// the layer has key/value heads and a convolution elsewhere.
pub open spec fn block_tensors(c: ConfigView, i: int) -> Seq<(Seq<char>, Seq<u64>)> {
    let h = dim(c.hidden as int);
    let e = dim(c.experts as int);
    let f = dim(if i < c.dense { c.dense_ff as int } else { c.expert_ff as int });
    let d = dim(c.hidden as int / c.heads as int);
    let kv = dim(c.kv[i] * (c.hidden as int / c.heads as int));
    seq![(block_name(i, "attn_norm.weight"@), seq![h]), (block_name(i, "ffn_norm.weight"@), seq![h])] + (if i < c.dense {
        seq![
            (block_name(i, "ffn_gate.weight"@), seq![f, h]),
            (block_name(i, "ffn_down.weight"@), seq![h, f]),
            (block_name(i, "ffn_up.weight"@), seq![f, h]),
        ]
    } else {
        seq![
            (block_name(i, "ffn_gate_inp.weight"@), seq![e, h]),
            (block_name(i, "exp_probs_b.bias"@), seq![e]),
            (block_name(i, "ffn_gate_exps.weight"@), seq![e, f, h]),
            (block_name(i, "ffn_up_exps.weight"@), seq![e, f, h]),
            (block_name(i, "ffn_down_exps.weight"@), seq![e, h, f]),
        ]
    }) + (if c.kv[i] > 0 {
        seq![
            (block_name(i, "attn_q.weight"@), seq![h, h]),
            (block_name(i, "attn_k.weight"@), seq![kv, h]),
            (block_name(i, "attn_v.weight"@), seq![kv, h]),
            (block_name(i, "attn_output.weight"@), seq![h, h]),
            (block_name(i, "attn_q_norm.weight"@), seq![d]),
            (block_name(i, "attn_k_norm.weight"@), seq![d]),
        ]
    } else {
        seq![
            (block_name(i, "shortconv.in_proj.weight"@), seq![dim(3 * c.hidden), h]),
            (block_name(i, "shortconv.out_proj.weight"@), seq![h, h]),
            (block_name(i, "shortconv.conv.weight"@), seq![h, dim(c.kernel as int)]),
        ]
    })
}

/// Requests by the text of their names.
pub open spec fn by_text(r: Seq<(TensorName, Seq<u64>)>) -> Seq<(Seq<char>, Seq<u64>)> {
    r.map_values(|x: (TensorName, Seq<u64>)| (x.0.spec_text(), x.1))
}

/// Law: a model asks for the tensors of its format under their names, with the
/// shapes that its configuration calls for, in reading order.
#[verifier::rlimit(40)]
pub proof fn law_requests_name_the_tensors(c: ConfigView, has_output: bool, i: int)
    requires
        c.valid(),
        c.bounded(),
        0 <= i < c.kv.len(),
    ensures
        by_text(gguf::head_requests(c, has_output)) == head_tensors(c, has_output),
        by_text(gguf::block_requests(c, i)) == block_tensors(c, i),
{
    assert(by_text(gguf::head_requests(c, has_output)) =~= head_tensors(c, has_output));
    let (h, got, want) = (c.hidden as int, by_text(gguf::block_requests(c, i)), block_tensors(c, i));
    assert(i as usize as nat == i);
    assert(got.len() == want.len());
    assert forall|j: int| 0 <= j < got.len() implies #[trigger] got[j] == want[j] by {
        assert(got[j].0 =~= want[j].0);
        assert(got[j].1 =~= want[j].1);
    }
    assert(got =~= want);
}

/// Every tensor of a model of `n` blocks, by name and shape, in reading order.
pub open spec fn model_tensors(c: ConfigView, has_output: bool, n: nat) -> Seq<(Seq<char>, Seq<u64>)>
    decreases n,
{
    if n == 0 {
        head_tensors(c, has_output)
    } else {
        model_tensors(c, has_output, (n - 1) as nat) + block_tensors(c, n - 1)
    }
}

proof fn lemma_model_tensors(c: ConfigView, has_output: bool, n: nat)
    requires
        c.valid(),
        c.bounded(),
        n <= c.kv.len(),
    ensures
        by_text(gguf::head_requests(c, has_output) + gguf::blocks_requests(c, n)) == model_tensors(c, has_output, n),
    decreases n,
{
    law_requests_name_the_tensors(c, has_output, 0);
    if n == 0 {
        assert(gguf::head_requests(c, has_output) + gguf::blocks_requests(c, n) =~= gguf::head_requests(c, has_output));
    } else {
        lemma_model_tensors(c, has_output, (n - 1) as nat);
        law_requests_name_the_tensors(c, has_output, n - 1);
        let (a, b) = (
            gguf::head_requests(c, has_output) + gguf::blocks_requests(c, (n - 1) as nat),
            gguf::block_requests(c, n - 1),
        );
        assert(gguf::head_requests(c, has_output) + gguf::blocks_requests(c, n) =~= a + b);
        assert(by_text(a + b) =~= by_text(a) + by_text(b));
    }
}

/// Entry `i` has this name, and no later one has.
pub open spec fn last_tensor(t: Seq<TensorEntry>, name: Seq<char>, i: int) -> bool {
    &&& 0 <= i < t.len()
    &&& t[i].name@ == name
    &&& forall|j: int| i < j < t.len() ==> (#[trigger] t[j]).name@ != name
}

pub open spec fn no_tensor(t: Seq<TensorEntry>, name: Seq<char>) -> bool {
    forall|j: int| 0 <= j < t.len() ==> (#[trigger] t[j]).name@ != name
}

pub open spec fn some_tensor(t: Seq<TensorEntry>, name: Seq<char>) -> bool {
    exists|j: int| 0 <= j < t.len() && (#[trigger] t[j]).name@ == name
}

/// The last tensor of this name has these dimensions.
pub open spec fn tensor_fits(t: Seq<TensorEntry>, want: (Seq<char>, Seq<u64>)) -> bool {
    exists|i: int| #[trigger] last_tensor(t, want.0, i) && t[i].dims@ == want.1
}

proof fn lemma_tensor_index(t: Seq<TensorEntry>, name: Seq<char>)
    ensures
        match gguf::tensor_index(t, name) {
            Some(i) => last_tensor(t, name, i),
            None => no_tensor(t, name),
        },
    decreases t.len(),
{
    if t.len() > 0 && t.last().name@ != name {
        let rest = t.drop_last();
        lemma_tensor_index(rest, name);
        assert forall|j: int| 0 <= j < t.len() - 1 implies rest[j] == #[trigger] t[j] by {}
    }
}

/// Law: of the tensors with one name the last counts, and an absent one is
/// reported absent.
pub proof fn law_last_tensor_counts(t: Seq<TensorEntry>, name: Seq<char>, i: int)
    ensures
        gguf::tensor_index(t, name) == Some(i) <==> last_tensor(t, name, i),
        gguf::tensor_index(t, name) is None <==> no_tensor(t, name),
{
    lemma_tensor_index(t, name);
    if let Some(k) = gguf::tensor_index(t, name) {
        assert(t[k].name@ == name);
        if last_tensor(t, name, i) {
            assert(k == i) by {
                if k < i {
                    assert(t[i].name@ != name);
                } else if i < k {
                    assert(t[k].name@ != name);
                }
            }
        }
    } else if last_tensor(t, name, i) {
        assert(t[i].name@ != name);
    }
}

proof fn lemma_request(t: Seq<TensorEntry>, r: (TensorName, Seq<u64>))
    ensures
        gguf::request_error(t, r) is None <==> tensor_fits(t, (r.0.spec_text(), r.1)),
        gguf::request_error(t, r) matches Some(e) ==> e == (if no_tensor(t, r.0.spec_text()) {
            LoadError::MissingTensor(r.0)
        } else {
            LoadError::TensorShape(r.0)
        }),
{
    let name = r.0.spec_text();
    lemma_tensor_index(t, name);
    law_last_tensor_counts(t, name, 0);
    let want = (name, r.1);
    if gguf::request_error(t, r) is None {
        let k = gguf::tensor_index(t, name)->0;
        assert(last_tensor(t, want.0, k) && t[k].dims@ == want.1);
    }
    if tensor_fits(t, want) {
        let i = choose|i: int| #[trigger] last_tensor(t, want.0, i) && t[i].dims@ == want.1;
        law_last_tensor_counts(t, name, i);
        assert(gguf::tensor_index(t, name) == Some(i));
    }
}

proof fn lemma_first_error(t: Seq<TensorEntry>, r: Seq<(TensorName, Seq<u64>)>, k: int)
    requires
        0 <= k <= r.len(),
        forall|j: int| 0 <= j < k ==> gguf::request_error(t, #[trigger] r[j]) is None,
        k < r.len() ==> gguf::request_error(t, r[k]) is Some,
    ensures
        k == r.len() ==> gguf::first_error(t, r) is None,
        k < r.len() ==> gguf::first_error(t, r) == gguf::request_error(t, r[k]),
    decreases r.len(),
{
    if r.len() > 0 {
        let rest = r.drop_last();
        assert forall|j: int| 0 <= j < rest.len() implies rest[j] == #[trigger] r[j] by {}
        if k == r.len() {
            lemma_first_error(t, rest, k - 1);
        } else {
            lemma_first_error(t, rest, k);
        }
    }
}

/// Law: once its configuration is read, a file is loaded exactly when it has
/// every tensor of its model, under its name and in its shape, and of those that
/// it lacks the first in reading order is named: missing where no tensor has
/// the name, else of the wrong shape. The output projection is read where there
/// is one and is the embedding elsewhere.
pub proof fn law_files_are_loaded_with_every_tensor(content: Content, device: Device, owner: u64, k: int)
    requires
        gguf::config_error(content.metadata@) is None,
    ensures
        ({
            let c = gguf::spec_config(content.metadata@);
            let t = content.tensors@;
            let want = model_tensors(c, some_tensor(t, "output.weight"@), c.layers as nat);
            &&& by_text(model::file_requests(content)) == want
            &&& model::load_error(content) is None <==> forall|j: int|
                0 <= j < want.len() ==> tensor_fits(t, #[trigger] want[j])
            &&& 0 <= k < want.len() && !tensor_fits(t, want[k]) && (forall|j: int|
                0 <= j < k ==> tensor_fits(t, #[trigger] want[j])) ==> model::load_error(content) == Some(
                if no_tensor(t, want[k].0) {
                    LoadError::MissingTensor(model::file_requests(content)[k].0)
                } else {
                    LoadError::TensorShape(model::file_requests(content)[k].0)
                },
            )
            &&& model::loaded(content, device, owner).tied <==> !some_tensor(t, "output.weight"@)
        }),
{
    let c = gguf::spec_config(content.metadata@);
    let t = content.tensors@;
    law_last_tensor_counts(t, "output.weight"@, 0);
    assert(model::has_output(t) == some_tensor(t, "output.weight"@));
    let all = model::file_requests(content);
    let want = model_tensors(c, some_tensor(t, "output.weight"@), c.layers as nat);
    assert(c.valid() && c.bounded()) by {
        lemma_bounded(content.metadata@);
    }
    lemma_model_tensors(c, some_tensor(t, "output.weight"@), c.kv.len());
    assert(by_text(all) == want);
    assert forall|j: int| 0 <= j < all.len() implies {
        &&& gguf::request_error(t, #[trigger] all[j]) is None <==> tensor_fits(t, want[j])
        &&& gguf::request_error(t, all[j]) matches Some(e) ==> e == (if no_tensor(t, want[j].0) {
            LoadError::MissingTensor(all[j].0)
        } else {
            LoadError::TensorShape(all[j].0)
        })
    } by {
        lemma_request(t, all[j]);
        assert(want[j] == (all[j].0.spec_text(), all[j].1));
    }
    if forall|j: int| 0 <= j < want.len() ==> tensor_fits(t, #[trigger] want[j]) {
        assert forall|j: int| 0 <= j < all.len() implies gguf::request_error(t, #[trigger] all[j]) is None by {
            assert(tensor_fits(t, want[j]));
        }
        lemma_first_error(t, all, all.len() as int);
    }
    if gguf::first_error(t, all) is None {
        assert forall|j: int| 0 <= j < want.len() implies tensor_fits(t, #[trigger] want[j]) by {
            gguf::lemma_no_first_error(t, all, j);
            assert(gguf::request_error(t, all[j]) is None);
        }
    }
    if 0 <= k < want.len() && !tensor_fits(t, want[k]) && (forall|j: int|
        0 <= j < k ==> tensor_fits(t, #[trigger] want[j])) {
        assert forall|j: int| 0 <= j < k implies gguf::request_error(t, #[trigger] all[j]) is None by {
            assert(tensor_fits(t, want[j]));
        }
        assert(gguf::request_error(t, all[k]) is Some);
        lemma_first_error(t, all, k);
    }
}

proof fn lemma_bounded(m: Seq<(String, MetaValue)>)
    requires
        gguf::config_error(m) is None,
    ensures
        gguf::spec_config(m).valid(),
        gguf::spec_config(m).bounded(),
{
}

/// Format of the last tensor of this name.
pub open spec fn has_format(t: Seq<TensorEntry>, name: Seq<char>, dtype: GgmlDType) -> bool {
    exists|i: int| #[trigger] last_tensor(t, name, i) && t[i].dtype == dtype
}

proof fn lemma_format(t: Seq<TensorEntry>, name: TensorName, dtype: GgmlDType)
    requires
        has_format(t, name.spec_text(), dtype),
    ensures
        model::dtype_of(t, name) == dtype,
{
    let i = choose|i: int| #[trigger] last_tensor(t, name.spec_text(), i) && t[i].dtype == dtype;
    law_last_tensor_counts(t, name.spec_text(), i);
}

/// Law: a layer with key/value heads is attention over all the query heads, its
/// three projections bundled by the formats of the tensors of their names; a
/// layer without is a convolution of the configured taps.
pub proof fn law_operators_follow_the_file(
    content: Content,
    device: Device,
    owner: u64,
    i: int,
    query: GgmlDType,
    key: GgmlDType,
    value: GgmlDType,
)
    requires
        gguf::config_error(content.metadata@) is None,
        0 <= i < gguf::spec_config(content.metadata@).layers,
        gguf::spec_config(content.metadata@).kv[i] > 0 ==> has_format(content.tensors@, block_name(i, "attn_q.weight"@), query),
        gguf::spec_config(content.metadata@).kv[i] > 0 ==> has_format(content.tensors@, block_name(i, "attn_k.weight"@), key),
        gguf::spec_config(content.metadata@).kv[i] > 0 ==> has_format(content.tensors@, block_name(i, "attn_v.weight"@), value),
    ensures
        ({
            let c = gguf::spec_config(content.metadata@);
            match model::loaded(content, device, owner).layers[i].operator {
                Operator::Attention(a) => {
                    &&& c.kv[i] > 0
                    &&& a.n_head == c.heads
                    &&& a.n_kv_head == c.kv[i]
                    &&& a.head_dim * c.heads == c.hidden
                    &&& a.qkv is Fused <==> query == key && key == value
                    &&& a.qkv is Qk <==> query == key && key != value
                    &&& a.qkv.q() == c.hidden
                    &&& a.qkv.kv() == c.kv[i] * a.head_dim
                },
                Operator::Conv { k } => c.kv[i] == 0 && k == c.kernel,
            }
        }),
{
    let c = gguf::spec_config(content.metadata@);
    let t = content.tensors@;
    lemma_bounded(content.metadata@);
    if c.kv[i] > 0 {
        lemma_format(t, TensorName::Block { layer: i as usize, part: gguf::BlockTensor::Query }, query);
        lemma_format(t, TensorName::Block { layer: i as usize, part: gguf::BlockTensor::Key }, key);
        lemma_format(t, TensorName::Block { layer: i as usize, part: gguf::BlockTensor::Value }, value);
    }
    assert(gguf::kv_heads_fit(c.kv[i], c.heads));
    gguf::lemma_kv_rows(c.kv[i] as int, c.heads as int, c.hidden as int);
    vstd::arithmetic::div_mod::lemma_fundamental_div_mod(c.hidden as int, c.heads as int);
    assert(c.hidden / c.heads * c.heads == c.heads * (c.hidden / c.heads)) by (nonlinear_arith);
}

/// Law: the leading layers are dense and all after them have experts, whose
/// weights keep the formats of the tensors of their names: gate and up in one
/// stack when these two are the same.
pub proof fn law_feed_forwards_follow_the_file(
    content: Content,
    device: Device,
    owner: u64,
    i: int,
    gate: GgmlDType,
    up: GgmlDType,
    down: GgmlDType,
)
    requires
        gguf::config_error(content.metadata@) is None,
        0 <= i < gguf::spec_config(content.metadata@).layers,
        i >= gguf::spec_config(content.metadata@).dense ==> has_format(content.tensors@, block_name(i, "ffn_gate_exps.weight"@), gate),
        i >= gguf::spec_config(content.metadata@).dense ==> has_format(content.tensors@, block_name(i, "ffn_up_exps.weight"@), up),
        i >= gguf::spec_config(content.metadata@).dense ==> has_format(content.tensors@, block_name(i, "ffn_down_exps.weight"@), down),
    ensures
        ({
            let c = gguf::spec_config(content.metadata@);
            match model::loaded(content, device, owner).layers[i].ffn {
                FeedForward::Dense => i < c.dense,
                FeedForward::Moe(m) => {
                    &&& i >= c.dense
                    &&& m.topk == c.topk
                    &&& m.bias.experts == c.experts
                    &&& m.bias.device == device
                    &&& m.down is Cpu <==> device is Cpu
                    &&& model::stack_of(m.down) == (layers::Stack {
                        dtype: down,
                        experts: c.experts as u64,
                        n: c.hidden as u64,
                        k: c.expert_ff as u64,
                    })
                    &&& match m.gate_up {
                        layers::ExpertGateUp::Merged(w) => gate == up && (w is Cpu <==> device is Cpu) && model::stack_of(w)
                            == (layers::Stack {
                            dtype: gate,
                            experts: c.experts as u64,
                            n: (2 * c.expert_ff) as u64,
                            k: c.hidden as u64,
                        }),
                        layers::ExpertGateUp::Separate { gate: g, up: u } => {
                            &&& gate != up
                            &&& g is Cpu <==> device is Cpu
                            &&& u is Cpu <==> device is Cpu
                            &&& model::stack_of(g) == (layers::Stack {
                                dtype: gate,
                                experts: c.experts as u64,
                                n: c.expert_ff as u64,
                                k: c.hidden as u64,
                            })
                            &&& model::stack_of(u) == (layers::Stack {
                                dtype: up,
                                experts: c.experts as u64,
                                n: c.expert_ff as u64,
                                k: c.hidden as u64,
                            })
                        },
                    }
                },
            }
        }),
{
    let c = gguf::spec_config(content.metadata@);
    let t = content.tensors@;
    lemma_bounded(content.metadata@);
    if i >= c.dense {
        lemma_format(t, TensorName::Block { layer: i as usize, part: gguf::BlockTensor::GateExperts }, gate);
        lemma_format(t, TensorName::Block { layer: i as usize, part: gguf::BlockTensor::UpExperts }, up);
        lemma_format(t, TensorName::Block { layer: i as usize, part: gguf::BlockTensor::DownExperts }, down);
    }
}

/// Law: whatever is read from metadata is what the metadata describes, number by
/// number under their names; metadata that describes a decoder is never refused,
/// and numbers that do not fit together always are.
pub proof fn law_read_configurations_are_described(m: Vec<(String, MetaValue)>, read: Result<gguf::Config, LoadError>, c: ConfigView)
    requires
        call_ensures(gguf::Config::read, (&m,), read),
    ensures
        read matches Ok(got) ==> describes(m@, got@) && buildable(got@),
        describes(m@, c) && buildable(c) ==> read is Ok && read->Ok_0@ == c,
        describes(m@, c) && !buildable(c) ==> read == Err::<gguf::Config, LoadError>(LoadError::InvalidConfig),
{
    law_configurations_are_what_metadata_describes(m@, c);
    if let Ok(got) = read {
        law_configurations_are_what_metadata_describes(m@, got@);
    }
}

/// Law: whatever a model asks for, by the text of its names, are the tensors of
/// its format in reading order.
pub proof fn law_asked_tensors_are_named(c: gguf::Config, has_output: bool, asked: Vec<gguf::Request>)
    requires
        call_ensures(gguf::Config::requests, (&c, has_output), asked),
        c@.valid(),
        c@.bounded(),
    ensures
        by_text(gguf::wanted(asked@)) == model_tensors(c@, has_output, c@.layers as nat),
{
    lemma_model_tensors(c@, has_output, c@.kv.len());
}

/// Law: whatever a tensor of a block is called, the name says the block in
/// decimal between `blk.` and the part's own name.
pub proof fn law_block_names_are_spelled(layer: usize, part: gguf::BlockTensor, name: String, rest: &'static str)
    requires
        call_ensures(TensorName::text, (&TensorName::Block { layer, part },), name),
        call_ensures(gguf::BlockTensor::text, (&part,), rest),
    ensures
        name@ == block_name(layer as int, rest@),
{
}

/// Law: whatever model is loaded, it was loaded from a file with a configuration
/// and every tensor of that model; it is tied exactly when the file has no
/// output projection, and asks for those tensors.
pub proof fn law_loaded_models_have_every_tensor(
    content: Content,
    device: Device,
    owner: u64,
    got: Result<(model::Model, Vec<gguf::Request>), LoadError>,
    c: ConfigView,
    k: int,
)
    requires
        call_ensures(model::Model::from_gguf, (&content, device, owner), got),
        describes(content.metadata@, c),
        buildable(c),
    ensures
        ({
            let t = content.tensors@;
            let want = model_tensors(c, some_tensor(t, "output.weight"@), c.layers as nat);
            &&& got is Ok <==> forall|j: int| 0 <= j < want.len() ==> tensor_fits(t, #[trigger] want[j])
            &&& got matches Ok((m, asked)) ==> {
                &&& m@.config == c
                &&& m@.owner == owner && m@.device == device
                &&& m@.tied <==> !some_tensor(t, "output.weight"@)
                &&& m@.layers.len() == c.layers
                &&& by_text(gguf::wanted(asked@)) == want
            }
        }),
{
    law_configurations_are_what_metadata_describes(content.metadata@, c);
    law_files_are_loaded_with_every_tensor(content, device, owner, k);
}

} // verus!
