use vstd::prelude::*;

use crate::order::{listed, names_of};
use crate::text::{chars_of, contains_chars, contains_seq, lower_of, lowercase};

verus! {

/// The names that occur in `text`, each once, in the order of the list.
pub open spec fn tags_in(names: Seq<Seq<char>>, text: Seq<char>) -> Seq<Seq<char>>
    decreases names.len(),
{
    if names.len() == 0 {
        Seq::empty()
    } else {
        let prev = tags_in(names.drop_last(), text);
        let x = names.last();
        if contains_seq(text, x) && !prev.contains(x) {
            prev.push(x)
        } else {
            prev
        }
    }
}

/// The concept names that occur in the episode summary, ignoring case; `None` when there
/// are none.
pub fn suggest_tags(names: &Vec<String>, summary: &str) -> (r: Option<Vec<String>>)
    ensures
        match r {
            None => tags_in(names_of(names@), lower_of(summary@)).len() == 0,
            Some(v) => v.len() > 0 && names_of(v@) == tags_in(names_of(names@), lower_of(summary@)),
        },
{
    let lower = lowercase(summary);
    let hay = chars_of(lower.as_str());
    let ghost text = lower_of(summary@);
    let mut found: Vec<String> = Vec::new();
    let mut i: usize = 0;
    while i < names.len()
        invariant
            i <= names.len(),
            hay@ == text,
            names_of(found@) == tags_in(names_of(names@).take(i as int), text),
        decreases names.len() - i,
    {
        let needle = chars_of(names[i].as_str());
        let ghost prev = found@;
        assert(names_of(names@).take(i + 1).drop_last() =~= names_of(names@).take(i as int));
        assert(names_of(names@).take(i + 1).last() == names@[i as int]@);
        if contains_chars(&hay, &needle) && !listed(&found, &names[i]) {
            found.push(names[i].clone());
            assert(names_of(found@) =~= names_of(prev).push(names@[i as int]@));
        }
        i += 1;
    }
    assert(names_of(names@).take(names.len() as int) =~= names_of(names@));
    if found.len() == 0 {
        None
    } else {
        Some(found)
    }
}

} // verus!
