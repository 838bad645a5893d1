//! The trace document: the tracer's events and the counters in one JSON array.

use vstd::prelude::*;
use vstd::string::StringExecFns;
use vstd::utf8::encode_utf8;

use crate::rejection::texts;
use crate::text::{decimal, decimal_text, join3};

verus! {

/// A counter as an element of the array, with the comma before it. `value` is the number as it is
/// written.
pub open spec fn counter_element(
    track: Seq<char>,
    key: Seq<char>,
    value: Seq<char>,
    ts: u64,
    pid: u64,
) -> Seq<char> {
    ",{\"name\":\""@ + track + "\",\"cat\":\"gpu_counter\",\"ph\":\"C\",\"ts\":"@ + decimal(
        ts as nat,
    ) + ",\"pid\":"@ + decimal(pid as nat) + ",\"tid\":0,\"args\":{\""@ + key + "\":"@ + value
        + "}}"@
}

/// Writes a counter as an element of the array, with the comma before it.
pub fn counter_event(track: &str, key: &str, value: &str, ts: u64, pid: u64) -> (text: String)
    ensures
        text@ == counter_element(track@, key@, value@, ts, pid),
{
    let mut text: String = join3(
        ",{\"name\":\"",
        track,
        "\",\"cat\":\"gpu_counter\",\"ph\":\"C\",\"ts\":",
    );
    text.append(decimal_text(ts).as_str());
    text.append(",\"pid\":");
    text.append(decimal_text(pid).as_str());
    text.append(",\"tid\":0,\"args\":{\"");
    text.append(key);
    text.append("\":");
    text.append(value);
    text.append("}}");
    text
}

/// Texts in a row.
pub open spec fn run_on(list: Seq<Seq<char>>) -> Seq<char>
    decreases list.len(),
{
    if list.len() == 0 {
        Seq::empty()
    } else {
        run_on(list.drop_last()) + list.last()
    }
}

fn run_together(list: &Vec<String>) -> (text: String)
    ensures
        text@ == run_on(texts(list@)),
{
    let ghost all = texts(list@);
    let mut text: String = String::new();
    let mut at: usize = 0;
    proof {
        assert(all.take(0) =~= Seq::<Seq<char>>::empty());
    }
    while at < list.len()
        invariant
            at <= list@.len(),
            all == texts(list@),
            text@ == run_on(all.take(at as int)),
        decreases list@.len() - at,
    {
        proof {
            assert(all.take(at + 1).drop_last() =~= all.take(at as int));
            assert(all.take(at + 1).last() == list@[at as int]@);
        }
        text.append(list[at].as_str());
        at = at + 1;
    }
    proof {
        assert(all.take(list@.len() as int) =~= all);
    }
    text
}

/// The array with more elements, each of which brings its comma. The first comma is dropped where
/// the array held nothing; a text that does not end like an array is left alone.
pub open spec fn spliced(document: Seq<char>, tail: Seq<char>) -> Seq<char> {
    if document.len() > 0 && document.last() == ']' {
        let rest = document.drop_last();
        let held = encode_utf8(rest).len() > 1;
        rest + (if tail.len() == 0 || held {
            tail
        } else {
            tail.skip(1)
        }) + "]"@
    } else {
        document
    }
}

/// Adds counter elements to the tracer's array.
pub fn splice_counters(document: &str, elements: &Vec<String>) -> (text: String)
    ensures
        text@ == spliced(document@, run_on(texts(elements@))),
{
    let n: usize = document.unicode_len();
    if n == 0 || document.get_char(n - 1) != ']' {
        return document.to_owned();
    }
    let rest: &str = document.substring_char(0, n - 1);
    proof {
        assert(rest@ =~= document@.drop_last());
    }
    let held: bool = rest.as_bytes().len() > 1;
    let tail: String = run_together(elements);
    let mut text: String = rest.to_owned();
    let count: usize = tail.as_str().unicode_len();
    if count == 0 || held {
        text.append(tail.as_str());
    } else {
        let cut: &str = tail.as_str().substring_char(1, count);
        proof {
            assert(cut@ =~= tail@.skip(1));
        }
        text.append(cut);
    }
    text.append("]");
    text
}

/// Adding nothing to an array leaves it as it is.
pub proof fn law_splice_nothing(document: Seq<char>)
    ensures
        spliced(document, Seq::empty()) == document,
{
    reveal_strlit("]");
    if document.len() > 0 && document.last() == ']' {
        assert(document.drop_last() + Seq::<char>::empty() + "]"@ =~= document);
    }
}

} // verus!
