//! The text that a list is shown as.

use vstd::prelude::*;

verus! {

/// The texts of `parts` in their order, with `", "` between neighbours.
pub open spec fn joined(parts: Seq<Seq<char>>) -> Seq<char>
    decreases parts.len(),
{
    if parts.len() == 0 {
        Seq::empty()
    } else if parts.len() == 1 {
        parts[0]
    } else {
        joined(parts.drop_last()) + seq![',', ' '] + parts.last()
    }
}

/// The joined texts between square brackets: `[a, b, c]`, and `[]` for none.
pub open spec fn bracketed(parts: Seq<Seq<char>>) -> Seq<char> {
    seq!['['] + joined(parts) + seq![']']
}

/// A body wrapped in a label and round brackets: `label(body)`.
pub open spec fn labelled(label: Seq<char>, body: Seq<char>) -> Seq<char> {
    label + seq!['('] + body + seq![')']
}

/// Renders the texts of a list's elements as `[a, b, c]`.
pub fn render(parts: &Vec<String>) -> (text: String)
    ensures
        text@ == bracketed(parts.deep_view()),
{
    let ghost texts = parts.deep_view();
    let mut text = "[".to_owned();
    proof {
        reveal_strlit("[");
        reveal_strlit(", ");
        reveal_strlit("]");
        assert("["@ == seq!['[']);
        assert(", "@ == seq![',', ' ']);
        assert("]"@ == seq![']']);
        assert(texts.take(0) == Seq::<Seq<char>>::empty());
    }
    let mut i: usize = 0;
    while i < parts.len()
        invariant
            i <= parts.len(),
            texts == parts.deep_view(),
            ", "@ == seq![',', ' '],
            text@ == seq!['['] + joined(texts.take(i as int)),
        decreases parts.len() - i,
    {
        proof {
            assert(texts.take(i + 1).drop_last() == texts.take(i as int));
            assert(texts.take(i + 1).last() == parts[i as int]@);
        }
        if i > 0 {
            text.append(", ");
        }
        text.append(parts[i].as_str());
        i += 1;
    }
    text.append("]");
    proof {
        assert(texts.take(i as int) == texts);
    }
    text
}

/// Wraps an already rendered body in a label: `label(body)`.
pub fn render_labelled(label: &str, body: &str) -> (text: String)
    ensures
        text@ == labelled(label@, body@),
{
    proof {
        reveal_strlit("(");
        reveal_strlit(")");
        assert("("@ == seq!['(']);
        assert(")"@ == seq![')']);
    }
    let mut text = label.to_owned();
    text.append("(");
    text.append(body);
    text.append(")");
    text
}

} // verus!
