//! What an update of a list of names removes and adds.
use vstd::hash_set::StringHashSet;
use vstd::prelude::*;

use crate::text::texts;

verus! {

/// The names of one list that are not in another, each once, in the order in
/// which they first occur.
pub open spec fn difference(list: Seq<Seq<char>>, other: Seq<Seq<char>>) -> Seq<Seq<char>>
    decreases list.len(),
{
    if list.len() == 0 {
        Seq::empty()
    } else {
        let before = difference(list.drop_last(), other);
        if other.contains(list.last()) || before.contains(list.last()) {
            before
        } else {
            before.push(list.last())
        }
    }
}

/// What to remove. Where there is nothing to compare with, the list is kept as it is.
pub open spec fn removable(prev: Seq<Seq<char>>, next: Seq<Seq<char>>) -> Seq<Seq<char>> {
    if prev.len() == 0 || next.len() == 0 {
        prev
    } else {
        difference(prev, next)
    }
}

/// What to add. Where there is nothing to compare with, the list is kept as it is.
pub open spec fn addable(prev: Seq<Seq<char>>, next: Seq<Seq<char>>) -> Seq<Seq<char>> {
    if prev.len() == 0 || next.len() == 0 {
        next
    } else {
        difference(next, prev)
    }
}

/// The names of `list` that are not in `other`, each once.
pub fn subtract(list: &Vec<String>, other: &Vec<String>) -> (rest: Vec<String>)
    ensures
        texts(rest@) == difference(texts(list@), texts(other@)),
{
    let mut unwanted = StringHashSet::new();
    let mut i: usize = 0;
    while i < other.len()
        invariant
            i <= other.len(),
            forall|name: Seq<char>|
                unwanted@.contains(name) == texts(other@).take(i as int).contains(name),
        decreases other.len() - i,
    {
        let ghost before = texts(other@).take(i as int);
        unwanted.insert(other[i].clone());
        i = i + 1;
        assert(texts(other@).take(i as int) =~= before.push(other@[i - 1]@));
        assert forall|name: Seq<char>|
            unwanted@.contains(name) == texts(other@).take(i as int).contains(name) by {
            lemma_push_contains(before, other@[i - 1]@, name);
        }
    }
    assert(texts(other@).take(i as int) =~= texts(other@));
    let mut seen = StringHashSet::new();
    let mut rest: Vec<String> = Vec::new();
    let mut i: usize = 0;
    assert(texts(rest@) =~= difference(texts(list@).take(0), texts(other@)));
    while i < list.len()
        invariant
            i <= list.len(),
            forall|name: Seq<char>| unwanted@.contains(name) == texts(other@).contains(name),
            forall|name: Seq<char>| seen@.contains(name) == texts(rest@).contains(name),
            texts(rest@) == difference(texts(list@).take(i as int), texts(other@)),
        decreases list.len() - i,
    {
        let ghost name = list@[i as int]@;
        let ghost taken = texts(rest@);
        assert(texts(list@).take(i as int + 1).drop_last() =~= texts(list@).take(i as int));
        assert(texts(list@).take(i as int + 1).last() == name);
        if !unwanted.contains(list[i].as_str()) && !seen.contains(list[i].as_str()) {
            seen.insert(list[i].clone());
            rest.push(list[i].clone());
            assert(texts(rest@) =~= taken.push(name));
            assert forall|other_name: Seq<char>|
                seen@.contains(other_name) == texts(rest@).contains(other_name) by {
                lemma_push_contains(taken, name, other_name);
            }
        }
        i = i + 1;
    }
    assert(texts(list@).take(i as int) =~= texts(list@));
    rest
}

/// The names that an update from `prev` to `next` removes, and those that it adds.
pub fn changes(prev: &Vec<String>, next: &Vec<String>) -> (changed: (Vec<String>, Vec<String>))
    ensures
        texts(changed.0@) == removable(texts(prev@), texts(next@)),
        texts(changed.1@) == addable(texts(prev@), texts(next@)),
{
    if prev.len() > 0 && next.len() > 0 {
        (subtract(prev, next), subtract(next, prev))
    } else {
        (copy(prev), copy(next))
    }
}

fn copy(list: &Vec<String>) -> (copied: Vec<String>)
    ensures
        texts(copied@) == texts(list@),
{
    let mut copied: Vec<String> = Vec::new();
    let mut i: usize = 0;
    while i < list.len()
        invariant
            i <= list.len(),
            copied@ == list@.take(i as int),
        decreases list.len() - i,
    {
        copied.push(list[i].clone());
        i = i + 1;
        assert(copied@ =~= list@.take(i as int));
    }
    assert(copied@ =~= list@);
    copied
}

proof fn lemma_push_contains(list: Seq<Seq<char>>, last: Seq<char>, name: Seq<char>)
    ensures
        list.push(last).contains(name) == (list.contains(name) || name == last),
{
    let longer = list.push(last);
    if list.contains(name) {
        let i = choose|i: int| 0 <= i < list.len() && list[i] == name;
        assert(longer[i] == name);
    }
    if name == last {
        assert(longer[list.len() as int] == name);
    }
    if longer.contains(name) {
        let i = choose|i: int| 0 <= i < longer.len() && longer[i] == name;
        if i < list.len() {
            assert(list[i] == name);
        }
    }
}

/// The difference holds, each once, exactly the names that are in the first list
/// and not in the second.
pub proof fn law_difference(list: Seq<Seq<char>>, other: Seq<Seq<char>>)
    ensures
        difference(list, other).no_duplicates(),
        forall|name: Seq<char>| #[trigger]
            difference(list, other).contains(name) <==> list.contains(name) && !other.contains(
                name,
            ),
    decreases list.len(),
{
    if list.len() > 0 {
        let shorter = list.drop_last();
        let last = list.last();
        law_difference(shorter, other);
        assert(list =~= shorter.push(last));
        assert forall|name: Seq<char>| #[trigger]
            difference(list, other).contains(name) <==> list.contains(name) && !other.contains(
                name,
            ) by {
            lemma_push_contains(shorter, last, name);
            lemma_push_contains(difference(shorter, other), last, name);
        }
    }
}

/// An update touches nothing that stays: what is removed is not in the next list,
/// and what is added was not in the previous one.
pub proof fn law_changes_leave_common_names_alone(prev: Seq<Seq<char>>, next: Seq<Seq<char>>)
    ensures
        forall|name: Seq<char>|
            #![trigger removable(prev, next).contains(name)]
            #![trigger addable(prev, next).contains(name)]
            prev.contains(name) && next.contains(name) ==> !removable(prev, next).contains(name)
                && !addable(prev, next).contains(name),
{
    law_difference(prev, next);
    law_difference(next, prev);
}

/// Removing and adding turns the previous list into the next one: a name is in
/// the next list exactly if it was in the previous one and is not removed, or is
/// added.
pub proof fn law_changes_lead_to_next(prev: Seq<Seq<char>>, next: Seq<Seq<char>>)
    ensures
        forall|name: Seq<char>|
            #![trigger next.contains(name)]
            next.contains(name) <==> (prev.contains(name) && !removable(prev, next).contains(name))
                || addable(prev, next).contains(name),
        forall|name: Seq<char>| #[trigger]
            removable(prev, next).contains(name) ==> prev.contains(name),
{
    law_difference(prev, next);
    law_difference(next, prev);
}

/// From a list to itself there is nothing to remove and nothing to add.
pub proof fn law_no_changes(list: Seq<Seq<char>>)
    requires
        list.len() > 0,
    ensures
        removable(list, list).len() == 0,
        addable(list, list).len() == 0,
{
    law_difference(list, list);
    if difference(list, list).len() > 0 {
        assert(difference(list, list).contains(difference(list, list)[0]));
    }
}

/// Where there were names and are names, each name that was and is no longer is
/// removed once, and each that is and was not is added once. Where there were none,
/// all are added as they stand; where there are none, all are removed as they stand.
pub proof fn law_changes(prev: Seq<Seq<char>>, next: Seq<Seq<char>>)
    ensures
        prev.len() == 0 ==> removable(prev, next).len() == 0 && addable(prev, next) == next,
        next.len() == 0 ==> removable(prev, next) == prev && addable(prev, next).len() == 0,
        prev.len() > 0 && next.len() > 0 ==> removable(prev, next).no_duplicates() && addable(
            prev,
            next,
        ).no_duplicates(),
        forall|name: Seq<char>| #[trigger]
            removable(prev, next).contains(name) <==> prev.contains(name) && !next.contains(name),
        forall|name: Seq<char>| #[trigger]
            addable(prev, next).contains(name) <==> next.contains(name) && !prev.contains(name),
{
    law_difference(prev, next);
    law_difference(next, prev);
}

} // verus!
