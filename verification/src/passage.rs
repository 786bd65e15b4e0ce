//! Passages and their identifiers.

use vstd::prelude::*;

verus! {

/// A passage of a source: the unit that is embedded and retrieved. It does
/// not change once made.
#[derive(Clone, Debug, PartialEq, Eq)]
pub struct Passage {
    id: String,
    content: String,
}

/// What a passage holds, as text.
pub struct PassageView {
    /// The label of the source, an underscore and the passage's position.
    pub id: Seq<char>,
    /// The text of the passage.
    pub content: Seq<char>,
}

impl View for Passage {
    type V = PassageView;

    closed spec fn view(&self) -> PassageView {
        PassageView { id: self.id@, content: self.content@ }
    }
}

impl Passage {
    /// The passage with the given identifier and text.
    pub fn new(id: String, content: String) -> (passage: Passage)
        ensures
            passage@ == (PassageView { id: id@, content: content@ }),
    {
        Passage { id, content }
    }

    /// The identifier: the label of the source, an underscore and the
    /// passage's position in the source.
    pub fn id(&self) -> (id: &str)
        ensures
            id@ == self@.id,
    {
        self.id.as_str()
    }

    /// The text of the passage.
    pub fn content(&self) -> (content: &str)
        ensures
            content@ == self@.content,
    {
        self.content.as_str()
    }
}

impl DeepView for Passage {
    type V = PassageView;

    open spec fn deep_view(&self) -> PassageView {
        self@
    }
}

/// The digit for `d`, which is below ten.
pub open spec fn digit(d: nat) -> char {
    ('0' as u8 + d) as char
}

/// The decimal numeral of `n`, without leading zeros.
pub open spec fn decimal(n: nat) -> Seq<char>
    decreases n,
{
    if n < 10 {
        seq![digit(n)]
    } else {
        decimal(n / 10).push(digit(n % 10))
    }
}

/// The identifier of the passage at position `index` of the source `label`.
pub open spec fn id_of(label: Seq<char>, index: nat) -> Seq<char> {
    label + seq!['_'] + decimal(index)
}

/// The passages of a source, each with its identifier.
pub open spec fn labelled(label: Seq<char>, contents: Seq<Seq<char>>) -> Seq<PassageView> {
    Seq::new(
        contents.len(),
        |i: int| PassageView { id: id_of(label, i as nat), content: contents[i] },
    )
}

/// Appends the decimal numeral of `n` to `s`.
fn push_decimal(s: &mut String, n: usize)
    ensures
        final(s)@ == old(s)@ + decimal(n as nat),
    decreases n,
{
    if n >= 10 {
        push_decimal(s, n / 10);
    }
    let d: u8 = (n % 10) as u8;
    s.push((48u8 + d) as char);
}

/// The identifier of the passage at position `index` of the source `label`.
pub fn passage_id(label: &str, index: usize) -> (id: String)
    ensures
        id@ == id_of(label@, index as nat),
{
    let mut id = label.to_owned();
    id.push('_');
    push_decimal(&mut id, index);
    id
}

/// Gives each passage of a source its identifier: the label, an underscore
/// and the passage's position, counted from zero.
pub fn label_passages(label: &str, contents: Vec<String>) -> (passages: Vec<Passage>)
    ensures
        passages.len() == contents.len(),
        forall|i: int|
            0 <= i < contents.len() ==> (#[trigger] passages[i])@.id == id_of(label@, i as nat)
                && passages[i]@.content == contents[i]@,
        passages.deep_view() == labelled(label@, contents.deep_view()),
{
    let mut passages: Vec<Passage> = Vec::new();
    let ghost all = contents@;
    for content in it: contents
        invariant
            it.seq() == all,
            passages.len() == it.index(),
            forall|i: int|
                0 <= i < passages.len() ==> (#[trigger] passages[i])@.id == id_of(label@, i as nat)
                    && passages[i]@.content == all[i]@,
    {
        let id = passage_id(label, passages.len());
        passages.push(Passage::new(id, content));
    }
    assert(passages.deep_view() == labelled(label@, contents.deep_view()));
    passages
}

} // verus!
