//! What the trailing-comma settings of the JSONC formatter do to the gap after the
//! last element or member of a container: the items of that gap, as laid out.
use vstd::prelude::*;
use crate::jsonc_format::JsoncTrailingCommas;
use crate::jsonc_layout::{Doc, Item, drop_commas, has_comma};

verus! {

/// Dropping the commas of `items` keeps every other item, in order.
proof fn lemma_drop_commas_filter(items: Seq<Item>)
    ensures
        drop_commas(items) == items.filter(|x: Item| !(x is Comma)),
    decreases items.len(),
{
    reveal(Seq::filter);
    if items.len() > 0 {
        lemma_drop_commas_filter(items.drop_last());
        if items.last() is Comma {
            assert(drop_commas(items) =~= drop_commas(items.drop_last()));
        } else {
            assert(drop_commas(items) =~= drop_commas(items.drop_last()).push(items.last()));
        }
    }
}

/// `items` holds no comma.
pub open spec fn comma_free(items: Seq<Item>) -> bool {
    forall|k: int| 0 <= k < items.len() ==> !(#[trigger] items[k] is Comma)
}

proof fn lemma_filter_comma_free(items: Seq<Item>)
    ensures
        comma_free(items.filter(|x: Item| !(x is Comma))),
{
    let f = items.filter(|x: Item| !(x is Comma));
    assert forall|k: int| 0 <= k < f.len() implies !(#[trigger] f[k] is Comma) by {
        items.filter_lemma(|x: Item| !(x is Comma));
    }
}

/// Under `Never`, the tail gap of every container, laid out on one line or on
/// several, keeps every item but the commas, in order: no trailing comma is left.
pub proof fn lemma_never_drops_trailing_commas(d: Doc, i: int, multiline: bool, tail: Seq<Item>)
    requires
        d.f.trailing_commas == JsoncTrailingCommas::Never,
    ensures
        d.trailing(i, multiline, tail) == tail.filter(|x: Item| !(x is Comma)),
        comma_free(d.trailing(i, multiline, tail)),
{
    lemma_drop_commas_filter(tail);
    lemma_filter_comma_free(tail);
}

/// Under `AlwaysMultiline`, whatever the line-break setting: a container laid out on
/// several lines that has an element or member gets a comma in its tail gap, right
/// after its last element or member when the input had none there, and keeps the
/// rest of the gap; a container laid out on one line keeps no comma there.
pub proof fn lemma_always_multiline_commas(d: Doc, i: int, multiline: bool, tail: Seq<Item>)
    requires
        d.f.trailing_commas == JsoncTrailingCommas::AlwaysMultiline,
    ensures
        multiline && d.has_content(i) ==> has_comma(d.trailing(i, multiline, tail)),
        multiline && d.has_content(i) && !has_comma(tail) ==> d.trailing(i, multiline, tail)
            == seq![Item::Comma(d.last_end(i) as usize)] + tail,
        multiline && d.has_content(i) && has_comma(tail) ==> d.trailing(i, multiline, tail) == tail,
        !multiline ==> d.trailing(i, multiline, tail) == tail.filter(|x: Item| !(x is Comma)),
        !multiline ==> comma_free(d.trailing(i, multiline, tail)),
{
    lemma_drop_commas_filter(tail);
    lemma_filter_comma_free(tail);
    if multiline && d.has_content(i) && !has_comma(tail) {
        let r = seq![Item::Comma(d.last_end(i) as usize)] + tail;
        assert(r[0] is Comma);
    }
}

} // verus!
