//! Text: characters, the order of strings, and looking for one string inside another.

use vstd::prelude::*;

use crate::order::{
    lemma_lex_is_strict_total_order, lex_before, lex_before_at, Ranked, strict_total_order,
};

verus! {

/// Characters are ordered by their code points.
pub open spec fn char_order() -> spec_fn(char, char) -> bool {
    |a: char, b: char| a < b
}

/// Texts are in dictionary order.
pub open spec fn text_before(a: Seq<char>, b: Seq<char>) -> bool {
    lex_before(a, b, char_order())
}

/// `part` stands somewhere in `text`, in one piece.
pub open spec fn occurs_in(part: Seq<char>, text: Seq<char>) -> bool {
    exists|at: int| #[trigger] occurs_at(part, text, at)
}

/// `part` stands in `text` from position `at` on.
pub open spec fn occurs_at(part: Seq<char>, text: Seq<char>, at: int) -> bool {
    &&& 0 <= at
    &&& at + part.len() <= text.len()
    &&& text.subrange(at, at + part.len()) == part
}

/// The views of a list of strings.
pub open spec fn texts(list: Seq<String>) -> Seq<Seq<char>> {
    list.map_values(|text: String| text@)
}

/// The order of texts is a strict total order.
pub proof fn lemma_text_order()
    ensures
        strict_total_order(|a: Seq<char>, b: Seq<char>| text_before(a, b)),
{
    lemma_lex_is_strict_total_order(char_order());
    let by_chars = |a: Seq<char>, b: Seq<char>| lex_before(a, b, char_order());
    let by_text = |a: Seq<char>, b: Seq<char>| text_before(a, b);
    assert(by_chars =~= by_text);
}

/// The characters of `text`, in order.
pub fn chars_of(text: &str) -> (chars: Vec<char>)
    ensures
        chars@ == text@,
{
    let mut chars: Vec<char> = Vec::new();
    for c in it: text.chars()
        invariant
            it.seq() == text@,
            chars@ == text@.take(it.index() as int),
    {
        chars.push(c);
        assert(text@.take(it.index() as int).push(c) =~= text@.take(it.index() as int + 1));
    }
    assert(text@.take(text@.len() as int) =~= text@);
    chars
}

/// Whether `a` comes before `b` in dictionary order.
pub fn chars_come_before(a: &Vec<char>, b: &Vec<char>) -> (before: bool)
    ensures
        before == text_before(a@, b@),
{
    let mut i: usize = 0;
    while i < a.len() && i < b.len() && a[i] == b[i]
        invariant
            i <= a@.len(),
            i <= b@.len(),
            forall|j: int| 0 <= j < i ==> a@[j] == b@[j],
        decreases a@.len() - i,
    {
        i = i + 1;
    }
    let before: bool = i < b.len() && (i == a.len() || a[i] < b[i]);
    proof {
        if before {
            assert(lex_before_at(a@, b@, char_order(), i as int));
        } else {
            assert forall|k: int| !#[trigger] lex_before_at(a@, b@, char_order(), k) by {
                if lex_before_at(a@, b@, char_order(), k) {
                    if k < i {
                        assert(a@[k] == b@[k]);
                    } else if k > i {
                        assert(a@[i as int] == b@[i as int]);
                    }
                }
            }
        }
    }
    before
}

/// Whether `part` stands at `at` in `text`.
fn stands_at(part: &Vec<char>, text: &Vec<char>, at: usize) -> (found: bool)
    requires
        at + part@.len() <= text@.len(),
    ensures
        found == occurs_at(part@, text@, at as int),
{
    for i in 0..part.len()
        invariant
            at + part.len() <= text.len(),
            forall|j: int| 0 <= j < i ==> part@[j] == text@[at + j],
    {
        if part[i] != text[at + i] {
            assert(text@.subrange(at as int, at + part@.len())[i as int] != part@[i as int]);
            return false;
        }
    }
    assert(text@.subrange(at as int, at + part@.len()) =~= part@);
    true
}

/// Whether `part` stands somewhere in `text`.
pub fn contains_text(text: &str, part: &str) -> (found: bool)
    ensures
        found == occurs_in(part@, text@),
{
    let text_chars = chars_of(text);
    let part_chars = chars_of(part);
    if part_chars.len() > text_chars.len() {
        return false;
    }
    let last: usize = text_chars.len() - part_chars.len();
    for at in 0..last
        invariant
            text_chars@ == text@,
            part_chars@ == part@,
            last + part@.len() == text@.len(),
            forall|k: int| 0 <= k < at ==> !#[trigger] occurs_at(part@, text@, k),
    {
        if stands_at(&part_chars, &text_chars, at) {
            return true;
        }
    }
    let found: bool = stands_at(&part_chars, &text_chars, last);
    proof {
        if !found {
            assert forall|k: int| !#[trigger] occurs_at(part@, text@, k) by {
                if k > last {
                    assert(k + part@.len() > text@.len());
                }
            }
        }
    }
    found
}

/// Whether `text` is one of `list`.
pub fn list_contains(list: &Vec<String>, text: &String) -> (found: bool)
    ensures
        found == texts(list@).contains(text@),
{
    for i in 0..list.len()
        invariant
            forall|j: int| 0 <= j < i ==> #[trigger] list@[j]@ != text@,
    {
        if list[i] == *text {
            assert(texts(list@)[i as int] == text@);
            return true;
        }
    }
    proof {
        if texts(list@).contains(text@) {
            let j = choose|j: int| 0 <= j < list@.len() && texts(list@)[j] == text@;
            assert(list@[j]@ == text@);
        }
    }
    false
}

impl Ranked for String {
    open spec fn ranks_before(a: Seq<char>, b: Seq<char>) -> bool {
        text_before(a, b)
    }

    proof fn ranks_are_asymmetric(a: Seq<char>, b: Seq<char>) {
        lemma_text_order();
        let by_text = |a: Seq<char>, b: Seq<char>| text_before(a, b);
        assert(by_text(a, b));
        if text_before(b, a) {
            assert(by_text(b, a));
            assert(by_text(a, a));
        }
    }

    proof fn ranks_are_transitive(a: Seq<char>, b: Seq<char>, c: Seq<char>) {
        lemma_text_order();
        let by_text = |a: Seq<char>, b: Seq<char>| text_before(a, b);
        if text_before(c, a) {
            assert(by_text(c, a));
            assert(a == b || by_text(a, b) || by_text(b, a));
            assert(b == c || by_text(b, c) || by_text(c, b));
            assert(!by_text(b, a) && !by_text(c, b));
            if a != b {
                assert(by_text(c, b));
            }
        }
    }

    fn is_ranked_before(&self, other: &Self) -> (before: bool) {
        chars_come_before(&chars_of(self.as_str()), &chars_of(other.as_str()))
    }
}

/// The first character in which two texts differ decides which comes first. Where one ends first, it
/// comes first.
pub proof fn law_text_order_by_first_difference(a: Seq<char>, b: Seq<char>, i: int)
    requires
        0 <= i <= a.len(),
        i <= b.len(),
        forall|j: int| 0 <= j < i ==> #[trigger] a[j] == b[j],
    ensures
        i == b.len() ==> !text_before(a, b),
        i == a.len() && i < b.len() ==> text_before(a, b),
        i < a.len() && i < b.len() && a[i] != b[i] ==> (text_before(a, b) <==> a[i] < b[i]),
{
    let lt = char_order();
    if i < b.len() && (i == a.len() || a[i] < b[i]) {
        assert(lex_before_at(a, b, lt, i));
    } else if i == b.len() || a[i] != b[i] {
        assert forall|k: int| !#[trigger] lex_before_at(a, b, lt, k) by {
            if lex_before_at(a, b, lt, k) {
                if k < i {
                    assert(a[k] == b[k]);
                } else if k > i {
                    assert(a[i] == b[i]);
                }
            }
        }
    }
}

/// One text stands in another if from some place on the other has the same characters.
pub proof fn law_occurs_in(part: Seq<char>, text: Seq<char>)
    ensures
        occurs_in(part, text) <==> exists|at: int|
            0 <= at && at + part.len() <= text.len() && part == #[trigger] text.subrange(
                at,
                at + part.len(),
            ),
{
    if occurs_in(part, text) {
        let at = choose|at: int| #[trigger] occurs_at(part, text, at);
        assert(part == text.subrange(at, at + part.len()));
    }
    if exists|at: int|
        0 <= at && at + part.len() <= text.len() && part == #[trigger] text.subrange(
            at,
            at + part.len(),
        ) {
        let at = choose|at: int|
            0 <= at && at + part.len() <= text.len() && part == #[trigger] text.subrange(
                at,
                at + part.len(),
            );
        assert(occurs_at(part, text, at));
    }
}

/// Strings are put in order by their text.
pub proof fn law_strings_rank_by_text(a: Seq<char>, b: Seq<char>)
    ensures
        String::ranks_before(a, b) <==> text_before(a, b),
{
}

/// The texts of a list of strings are those of its strings, one by one.
pub proof fn law_texts(list: Seq<String>)
    ensures
        texts(list).len() == list.len(),
        forall|i: int| 0 <= i < list.len() ==> #[trigger] texts(list)[i] == list[i]@,
{
}

} // verus!
