//! How many decoder layers go into one partition.

use vstd::prelude::*;

use crate::text::{chars_are, parse_number, parsed_number, trim_chars, trimmed};

verus! {

/// From this many layer ends on a decoder is split without being asked to.
pub const AUTO_LAYERS: usize = 23;

/// The number of parts that an automatic split aims at.
pub const AUTO_PARTS: usize = 7;

/// The smallest automatic span.
pub const MIN_AUTO_SPAN: usize = 4;

/// The largest automatic span.
pub const MAX_AUTO_SPAN: usize = 8;

/// The automatic span: a seventh of the layers, rounded up, kept between four and eight.
pub open spec fn auto_span(layers: nat) -> Option<nat> {
    if layers < AUTO_LAYERS as nat {
        None
    } else {
        let share = (layers + AUTO_PARTS as nat - 1) / (AUTO_PARTS as int);
        if share < MIN_AUTO_SPAN {
            Some(MIN_AUTO_SPAN as nat)
        } else if share > MAX_AUTO_SPAN {
            Some(MAX_AUTO_SPAN as nat)
        } else {
            Some(share as nat)
        }
    }
}

/// The span that a setting asks for. White space around the setting is ignored.
pub open spec fn partition_span(setting: Option<Seq<char>>, layers: nat) -> Option<nat> {
    match setting {
        None => auto_span(layers),
        Some(text) => {
            let word = trimmed(text);
            if word == "0"@ || word == "off"@ || word == "false"@ {
                None
            } else if word == ""@ || word == "auto"@ {
                auto_span(layers)
            } else {
                match parsed_number(word, usize::MAX as nat) {
                    Some(span) => if span > 0 {
                        Some(span)
                    } else {
                        None
                    },
                    None => None,
                }
            }
        },
    }
}

/// What `span` says, if anything.
pub open spec fn span_view(span: Option<usize>) -> Option<nat> {
    match span {
        Some(span) => Some(span as nat),
        None => None,
    }
}

fn automatic_span(layer_count: usize) -> (span: Option<usize>)
    ensures
        span_view(span) == auto_span(layer_count as nat),
{
    if layer_count < AUTO_LAYERS {
        return None;
    }
    let whole: usize = layer_count / AUTO_PARTS;
    let share: usize = if layer_count % AUTO_PARTS == 0 {
        whole
    } else {
        whole + 1
    };
    proof {
        assert(share == (layer_count + AUTO_PARTS - 1) / (AUTO_PARTS as int));
    }
    if share < MIN_AUTO_SPAN {
        Some(MIN_AUTO_SPAN)
    } else if share > MAX_AUTO_SPAN {
        Some(MAX_AUTO_SPAN)
    } else {
        Some(share)
    }
}

/// How many layers go into one partition; `None` keeps clusters whole.
pub fn select_layer_partition_span(value: Option<&str>, layer_count: usize) -> (span: Option<usize>)
    ensures
        span_view(span) == partition_span(
            match value {
                Some(text) => Some(text@),
                None => None,
            },
            layer_count as nat,
        ),
{
    match value {
        None => automatic_span(layer_count),
        Some(text) => {
            let word: Vec<char> = trim_chars(text);
            if chars_are(&word, "0") || chars_are(&word, "off") || chars_are(&word, "false") {
                None
            } else if chars_are(&word, "") || chars_are(&word, "auto") {
                automatic_span(layer_count)
            } else {
                match parse_number(&word) {
                    Some(span) => if span > 0 {
                        Some(span)
                    } else {
                        None
                    },
                    None => None,
                }
            }
        },
    }
}

/// A decoder with few layers is kept whole, a larger one is split every four to eight layers, and
/// a larger decoder never gets a smaller span.
pub proof fn law_auto_span(layers: nat, more: nat)
    requires
        layers <= more,
    ensures
        auto_span(layers) is None <==> layers < AUTO_LAYERS as nat,
        auto_span(layers) matches Some(span) ==> MIN_AUTO_SPAN <= span <= MAX_AUTO_SPAN
            && auto_span(more) is Some && span <= auto_span(more)->0,
{
    assert(layers >= AUTO_LAYERS as nat ==> (layers + 6) / 7 <= (more + 6) / 7) by (nonlinear_arith)
        requires
            layers <= more,
    ;
}

/// A span is never zero, whatever the setting.
pub proof fn law_span_positive(setting: Option<Seq<char>>, layers: nat)
    ensures
        partition_span(setting, layers) matches Some(span) ==> span > 0,
{
}

} // verus!
