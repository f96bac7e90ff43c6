//! Ordered sets of texts and of label maps.
use vstd::prelude::*;

use crate::codec::{
    lemma_text_less_total, lemma_text_less_transitive, same_text, text_is_less, text_less,
};
use crate::labels::{pairs_less, LabelMap, Pairs};
use crate::native_query::strings_view;

verus! {

broadcast use vstd::seq_lib::group_seq_properties;

/// First text from `from` on that is not below another one.
pub open spec fn text_place(texts: Seq<Seq<char>>, text: Seq<char>, from: int) -> int
    decreases texts.len() - from,
{
    if from >= texts.len() {
        texts.len() as int
    } else if text_less(texts[from], text) {
        text_place(texts, text, from + 1)
    } else {
        from
    }
}

/// An ascending set with one more text.
pub open spec fn insert_text(texts: Seq<Seq<char>>, text: Seq<char>) -> Seq<Seq<char>> {
    let at = text_place(texts, text, 0);
    if at < texts.len() && texts[at] == text {
        texts
    } else {
        texts.insert(at, text)
    }
}

/// Texts are strictly ascending, so that none occurs twice.
pub open spec fn rising_texts(texts: Seq<Seq<char>>) -> bool {
    forall|i: int, j: int|
        0 <= i < j < texts.len() ==> text_less(#[trigger] texts[i], #[trigger] texts[j])
}

proof fn lemma_text_place(texts: Seq<Seq<char>>, text: Seq<char>, from: int)
    requires
        0 <= from <= texts.len(),
    ensures
        from <= text_place(texts, text, from) <= texts.len(),
        forall|i: int|
            from <= i < text_place(texts, text, from) ==> text_less(#[trigger] texts[i], text),
        text_place(texts, text, from) < texts.len() ==> !text_less(
            texts[text_place(texts, text, from)],
            text,
        ),
    decreases texts.len() - from,
{
    if from < texts.len() && text_less(texts[from], text) {
        lemma_text_place(texts, text, from + 1);
    }
}

/// Inserting keeps a set ascending and adds the text and nothing else.
pub proof fn inserting_adds_one_text(texts: Seq<Seq<char>>, text: Seq<char>)
    requires
        rising_texts(texts),
    ensures
        rising_texts(insert_text(texts, text)),
        forall|other: Seq<char>| #[trigger]
            insert_text(texts, text).contains(other) <==> texts.contains(other) || other == text,
{
    let at = text_place(texts, text, 0);
    let result = insert_text(texts, text);
    lemma_text_place(texts, text, 0);
    if at < texts.len() && texts[at] == text {
        assert(texts.contains(text));
    } else {
        assert forall|i: int| at <= i < texts.len() implies text_less(text, #[trigger] texts[i]) by {
            lemma_text_less_total(texts[at], text);
            if i > at {
                lemma_text_less_transitive(text, texts[at], texts[i]);
            }
        }
        assert forall|i: int, j: int| 0 <= i < j < result.len() implies text_less(
            #[trigger] result[i],
            #[trigger] result[j],
        ) by {
            if i < at && j > at {
                assert(result[j] == texts[j - 1]);
            } else if i == at {
                assert(result[j] == texts[j - 1]);
            } else if i > at {
                assert(result[i] == texts[i - 1] && result[j] == texts[j - 1]);
            }
        }
        assert forall|other: Seq<char>| #[trigger] result.contains(other) implies texts.contains(
            other,
        ) || other == text by {
            let k = choose|k: int| 0 <= k < result.len() && result[k] == other;
            if k < at {
                assert(texts[k] == other);
            } else if k > at {
                assert(texts[k - 1] == other);
            }
        }
        assert forall|other: Seq<char>| texts.contains(other) || other == text implies #[trigger] result.contains(
            other,
        ) by {
            assert(result[at] == text);
            if other != text {
                let k = choose|k: int| 0 <= k < texts.len() && texts[k] == other;
                if k < at {
                    assert(result[k] == other);
                } else {
                    assert(result[k + 1] == other);
                }
            }
        }
    }
}

/// Adds a text to an ascending list.
pub fn add_text(texts: &mut Vec<String>, text: String)
    ensures
        strings_view(final(texts)@) == insert_text(strings_view(old(texts)@), text@),
{
    let ghost model = strings_view(texts@);
    let ghost raw = texts@;
    let mut at: usize = 0;
    while at < texts.len() && text_is_less(&texts[at], &text)
        invariant
            at <= texts@.len(),
            model == strings_view(texts@),
            text_place(model, text@, 0) == text_place(model, text@, at as int),
        decreases texts@.len() - at,
    {
        proof {
            assert(model[at as int] == texts@[at as int]@);
        }
        at = at + 1;
    }
    proof {
        if at < texts@.len() {
            assert(model[at as int] == texts@[at as int]@);
        }
    }
    if at < texts.len() && same_text(&texts[at], &text) {
        return;
    }
    proof {
        assert(strings_view(raw.insert(at as int, text)) =~= model.insert(at as int, text@));
    }
    texts.insert(at, text);
}

/// First label map from `from` on that is not below another one.
pub open spec fn labels_place(sets: Seq<Pairs>, labels: Pairs, from: int) -> int
    decreases sets.len() - from,
{
    if from >= sets.len() {
        sets.len() as int
    } else if pairs_less(sets[from], labels) {
        labels_place(sets, labels, from + 1)
    } else {
        from
    }
}

/// An ascending set with one more label map.
pub open spec fn insert_labels(sets: Seq<Pairs>, labels: Pairs) -> Seq<Pairs> {
    let at = labels_place(sets, labels, 0);
    if at < sets.len() && sets[at] == labels {
        sets
    } else {
        sets.insert(at, labels)
    }
}

/// Values of label maps.
pub open spec fn maps_view(sets: Seq<LabelMap>) -> Seq<Pairs> {
    sets.map_values(|labels: LabelMap| labels@)
}

/// Adds a label map to an ascending list.
pub fn add_labels(sets: &mut Vec<LabelMap>, labels: &LabelMap)
    ensures
        maps_view(final(sets)@) == insert_labels(maps_view(old(sets)@), labels@),
{
    let ghost model = maps_view(sets@);
    let ghost raw = sets@;
    let mut at: usize = 0;
    while at < sets.len() && sets[at].is_less(labels)
        invariant
            at <= sets@.len(),
            model == maps_view(sets@),
            labels_place(model, labels@, 0) == labels_place(model, labels@, at as int),
        decreases sets@.len() - at,
    {
        at = at + 1;
    }
    if at < sets.len() && sets[at].same(labels) {
        proof {
            assert(model[at as int] == labels@);
        }
        return;
    }
    let copy = labels.clone();
    proof {
        if at < sets@.len() {
            assert(model[at as int] == sets@[at as int]@);
        }
        assert(maps_view(raw.insert(at as int, copy)) =~= model.insert(at as int, labels@));
    }
    sets.insert(at, copy);
}

} // verus!
