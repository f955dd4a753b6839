//! Contents: what the registry holds, and what requests that succeed do to it.
//!
//! The registry does not tell upper from lower case. Which characters it takes for
//! the same is left open: all that is said here holds of any folding of characters
//! that keeps the backslash apart.
use vstd::prelude::*;

use crate::plan::ValueView;
use crate::run::{below, Effect};

verus! {

/// What stands for a character when names are compared.
pub type Folding = spec_fn(char) -> char;

/// The backslash, which separates the names of a path, stands for itself alone.
pub open spec fn keeps_separator(fold: Folding) -> bool {
    forall|c: char| #[trigger] fold(c) == '\\' <==> c == '\\'
}

/// A path or a name as the registry compares it.
pub open spec fn folded(fold: Folding, text: Seq<char>) -> Seq<char> {
    text.map_values(fold)
}

/// What the registry holds below the key of the current user: the keys that exist,
/// by their folded paths, and the values of keys, by folded path and folded name.
#[verifier::ext_equal]
pub struct Contents {
    pub keys: Set<Seq<char>>,
    pub values: Map<(Seq<char>, Seq<char>), ValueView>,
}

/// A key is in the tree of another: it is that key itself or below it.
pub open spec fn under(tree: Seq<char>, path: Seq<char>) -> bool {
    path == tree || (tree + seq!['\\']).is_prefix_of(path)
}

impl Contents {
    /// A key exists only below keys that exist, and values belong to keys that exist.
    pub open spec fn well_formed(self) -> bool {
        &&& forall|tree: Seq<char>, path: Seq<char>|
            self.keys.contains(path) && #[trigger] under(tree, path) ==> self.keys.contains(tree)
        &&& forall|path: Seq<char>, name: Seq<char>| #[trigger]
            self.values.contains_key((path, name)) ==> self.keys.contains(path)
    }

    /// A key does not exist, but all keys above it do.
    pub open spec fn lacks_only(self, path: Seq<char>) -> bool {
        &&& !self.keys.contains(path)
        &&& forall|tree: Seq<char>| #[trigger]
            under(tree, path) && tree != path ==> self.keys.contains(tree)
    }

    /// The same values of a key, all of them.
    pub open spec fn same_values(self, other: Contents, path: Seq<char>) -> bool {
        forall|name: Seq<char>|
            #![trigger self.values.contains_key((path, name))]
            #![trigger other.values.contains_key((path, name))]
            self.values.contains_key((path, name)) == other.values.contains_key((path, name)) && (
            self.values.contains_key((path, name)) ==> self.values[(path, name)]
                == other.values[(path, name)])
    }
}

/// What the registry holds after a request that was done. Opening a key creates the
/// keys above it too, where they do not exist.
pub open spec fn apply(fold: Folding, e: Effect, held: Contents) -> Contents {
    match e {
        Effect::CreateKey { path, .. } => Contents {
            keys: held.keys.union(Set::new(|tree: Seq<char>| under(tree, folded(fold, path)))),
            ..held
        },
        Effect::SetValue { path, name, value } => Contents {
            values: held.values.insert((folded(fold, path), folded(fold, name)), value),
            ..held
        },
        Effect::GetValue { .. } => held,
        Effect::DeleteTree { path } => Contents {
            keys: held.keys.filter(|key: Seq<char>| !under(folded(fold, path), key)),
            values: held.values.remove_keys(
                Set::new(|entry: (Seq<char>, Seq<char>)| under(folded(fold, path), entry.0)),
            ),
        },
        Effect::DeleteKey { path } => Contents {
            keys: held.keys.remove(folded(fold, path)),
            values: held.values.remove_keys(
                Set::new(|entry: (Seq<char>, Seq<char>)| entry.0 == folded(fold, path)),
            ),
        },
    }
}

/// What the registry holds after these requests were done.
pub open spec fn apply_all(fold: Folding, effects: Seq<Effect>, held: Contents) -> Contents
    decreases effects.len(),
{
    if effects.len() == 0 {
        held
    } else {
        apply(fold, effects.last(), apply_all(fold, effects.drop_last(), held))
    }
}

/// Requests in a row do what the first do, then what the others do.
pub proof fn lemma_apply_append(
    fold: Folding,
    first: Seq<Effect>,
    second: Seq<Effect>,
    held: Contents,
)
    ensures
        apply_all(fold, first + second, held) == apply_all(
            fold,
            second,
            apply_all(fold, first, held),
        ),
    decreases second.len(),
{
    if second.len() == 0 {
        assert(first + second =~= first);
    } else {
        assert((first + second).drop_last() =~= first + second.drop_last());
        lemma_apply_append(fold, first, second.drop_last(), held);
    }
}

/// One request does what it does.
pub proof fn lemma_apply_one(fold: Folding, e: Effect, held: Contents)
    ensures
        apply_all(fold, seq![e], held) == apply(fold, e, held),
{
    reveal_with_fuel(apply_all, 2);
    assert(seq![e].drop_last() =~= Seq::<Effect>::empty());
}

/// Trees in trees.
pub proof fn lemma_under_transitive(a: Seq<char>, b: Seq<char>, c: Seq<char>)
    requires
        under(a, b),
        under(b, c),
    ensures
        under(a, c),
{
    if a != b && b != c {
        let s = a + seq!['\\'];
        let t = b + seq!['\\'];
        assert(s.is_prefix_of(c)) by {
            assert forall|i: int| 0 <= i < s.len() implies s[i] == #[trigger] c[i] by {
                assert(s[i] == b[i] && b[i] == t[i] && t[i] == c[i]);
            }
            assert(s =~= c.take(s.len() as int));
        }
    }
}

/// Of two keys above the same key, one is above the other.
pub proof fn lemma_under_comparable(a: Seq<char>, b: Seq<char>, c: Seq<char>)
    requires
        under(a, c),
        under(b, c),
    ensures
        under(a, b) || under(b, a),
{
    let s = a + seq!['\\'];
    let t = b + seq!['\\'];
    if a == c || b == c {
    } else if a.len() < b.len() {
        assert forall|i: int| 0 <= i < s.len() implies s[i] == #[trigger] b[i] by {
            assert(s[i] == c[i] && t[i] == c[i] && t[i] == b[i]);
        }
        assert(s =~= b.take(s.len() as int));
    } else if b.len() < a.len() {
        assert forall|i: int| 0 <= i < t.len() implies t[i] == #[trigger] a[i] by {
            assert(t[i] == c[i] && s[i] == c[i] && s[i] == a[i]);
        }
        assert(t =~= a.take(t.len() as int));
    } else {
        assert forall|i: int| 0 <= i < a.len() implies a[i] == #[trigger] b[i] by {
            assert(s[i] == c[i] && t[i] == c[i]);
        }
        assert(a =~= b);
    }
}

/// A sub key is in the tree of its key.
pub proof fn lemma_below_under(fold: Folding, path: Seq<char>, sub_key: Seq<char>)
    requires
        keeps_separator(fold),
        path.len() > 0,
    ensures
        under(folded(fold, path), folded(fold, below(path, sub_key))),
        sub_key.len() > 0 ==> folded(fold, below(path, sub_key)) == folded(fold, path) + seq!['\\']
            + folded(fold, sub_key),
{
    let p = folded(fold, path);
    let q = folded(fold, below(path, sub_key));
    if sub_key.len() > 0 {
        assert(fold('\\') == '\\');
        assert(q =~= p + seq!['\\'] + folded(fold, sub_key));
        assert(p + seq!['\\'] =~= q.take(p.len() as int + 1));
    }
}

/// Below a key that exists, a key with a name of its own that does not exist is all
/// that is lacking.
pub proof fn law_lacks_only(fold: Folding, held: Contents, parent: Seq<char>, name: Seq<char>)
    requires
        keeps_separator(fold),
        held.well_formed(),
        parent.len() > 0,
        held.keys.contains(folded(fold, parent)),
        name.len() > 0,
        !name.contains('\\'),
        !held.keys.contains(folded(fold, below(parent, name))),
    ensures
        held.lacks_only(folded(fold, below(parent, name))),
{
    let p = folded(fold, parent);
    let q = folded(fold, below(parent, name));
    lemma_below_under(fold, parent, name);
    assert forall|tree: Seq<char>| #[trigger]
        under(tree, q) && tree != q implies held.keys.contains(tree) by {
        let s = tree + seq!['\\'];
        assert(s[tree.len() as int] == '\\' && s[tree.len() as int] == q[tree.len() as int]);
        if tree.len() > p.len() {
            let c = name[tree.len() - p.len() - 1];
            assert(q[tree.len() as int] == fold(c));
            assert(name.contains(c));
            assert(false);
        }
        lemma_under_comparable(tree, p, q);
        if under(p, tree) {
            assert(tree == p);
        }
        assert(under(tree, p));
    }
}

/// A request neither deletes nor changes values otherwise than by writing them.
pub open spec fn only_writes(effects: Seq<Effect>) -> bool {
    forall|i: int|
        #![trigger effects[i]]
        0 <= i < effects.len() ==> !(effects[i] is DeleteTree) && !(effects[i] is DeleteKey)
}

/// One of these requests creates a key or keys below it.
pub open spec fn creates(fold: Folding, effects: Seq<Effect>, key: Seq<char>) -> bool {
    exists|i: int|
        0 <= i < effects.len() && (#[trigger] effects[i]) is CreateKey && under(
            key,
            folded(fold, effects[i]->CreateKey_path),
        )
}

/// What the last of these requests that writes a value writes to it.
pub open spec fn last_written(
    fold: Folding,
    effects: Seq<Effect>,
    entry: (Seq<char>, Seq<char>),
) -> Option<ValueView>
    decreases effects.len(),
{
    if effects.len() == 0 {
        None
    } else {
        match effects.last() {
            Effect::SetValue { path, name, value } if (folded(fold, path), folded(fold, name))
                == entry => Some(value),
            _ => last_written(fold, effects.drop_last(), entry),
        }
    }
}

/// Requests that only write leave the keys that there were and those that they
/// create, and of each value what was written to it last, or what it was.
pub proof fn lemma_only_writes(fold: Folding, effects: Seq<Effect>, held: Contents)
    requires
        only_writes(effects),
    ensures
        ({
            let after = apply_all(fold, effects, held);
            &&& forall|key: Seq<char>| #[trigger]
                after.keys.contains(key) <==> held.keys.contains(key) || creates(
                    fold,
                    effects,
                    key,
                )
            &&& forall|entry: (Seq<char>, Seq<char>)|
                #![trigger after.values.contains_key(entry)]
                match last_written(fold, effects, entry) {
                    Some(value) => after.values.contains_key(entry) && after.values[entry]
                        == value,
                    None => after.values.contains_key(entry) == held.values.contains_key(entry)
                        && after.values[entry] == held.values[entry],
                }
        }),
    decreases effects.len(),
{
    if effects.len() > 0 {
        let first = effects.drop_last();
        let e = effects.last();
        assert forall|i: int| #![trigger first[i]] 0 <= i < first.len() implies !(
        first[i] is DeleteTree) && !(first[i] is DeleteKey) by {
            assert(first[i] == effects[i]);
        }
        lemma_only_writes(fold, first, held);
        let before = apply_all(fold, first, held);
        let after = apply_all(fold, effects, held);
        assert(effects[effects.len() - 1] == e);
        assert forall|key: Seq<char>| #[trigger]
            after.keys.contains(key) <==> held.keys.contains(key) || creates(
                fold,
                effects,
                key,
            ) by {
            if creates(fold, first, key) {
                let i = choose|i: int|
                    0 <= i < first.len() && (#[trigger] first[i]) is CreateKey && under(
                        key,
                        folded(fold, first[i]->CreateKey_path),
                    );
                assert(effects[i] == first[i]);
            }
            if creates(fold, effects, key) {
                let i = choose|i: int|
                    0 <= i < effects.len() && (#[trigger] effects[i]) is CreateKey && under(
                        key,
                        folded(fold, effects[i]->CreateKey_path),
                    );
                if i < first.len() {
                    assert(first[i] == effects[i]);
                }
            }
            assert(before.keys.contains(key) <==> held.keys.contains(key) || creates(
                fold,
                first,
                key,
            ));
        }
        assert forall|entry: (Seq<char>, Seq<char>)|
            #![trigger after.values.contains_key(entry)]
            match last_written(fold, effects, entry) {
                Some(value) => after.values.contains_key(entry) && after.values[entry] == value,
                None => after.values.contains_key(entry) == held.values.contains_key(entry)
                    && after.values[entry] == held.values[entry],
            } by {
            assert(before.values.contains_key(entry) || !before.values.contains_key(entry));
        }
    }
}

/// Writing the same twice leaves the same as writing it once.
pub proof fn law_writes_twice(fold: Folding, effects: Seq<Effect>, held: Contents)
    requires
        only_writes(effects),
    ensures
        apply_all(fold, effects, apply_all(fold, effects, held)) == apply_all(fold, effects, held),
{
    let once = apply_all(fold, effects, held);
    let twice = apply_all(fold, effects, once);
    lemma_only_writes(fold, effects, held);
    lemma_only_writes(fold, effects, once);
    assert(twice.keys =~= once.keys);
    assert forall|entry: (Seq<char>, Seq<char>)| #[trigger]
        twice.values.contains_key(entry) == once.values.contains_key(entry) && (
        once.values.contains_key(entry) ==> twice.values[entry] == once.values[entry]) by {
        assert(once.values.contains_key(entry) || !once.values.contains_key(entry));
    }
    assert(twice.values =~= once.values);
}

/// A request writes a value of an existing key, or deletes the key.
pub open spec fn changes_key(fold: Folding, e: Effect, key: Seq<char>) -> bool {
    match e {
        Effect::CreateKey { .. } => false,
        Effect::SetValue { path, .. } => folded(fold, path) == key,
        Effect::GetValue { .. } => false,
        Effect::DeleteTree { path } => under(folded(fold, path), key),
        Effect::DeleteKey { path } => folded(fold, path) == key,
    }
}

/// A key that no request changes stays, with the values that it has.
pub proof fn law_unchanged_key(
    fold: Folding,
    effects: Seq<Effect>,
    held: Contents,
    key: Seq<char>,
)
    requires
        held.keys.contains(key),
        forall|i: int| 0 <= i < effects.len() ==> !changes_key(fold, #[trigger] effects[i], key),
    ensures
        apply_all(fold, effects, held).keys.contains(key),
        apply_all(fold, effects, held).same_values(held, key),
    decreases effects.len(),
{
    if effects.len() > 0 {
        let first = effects.drop_last();
        assert forall|i: int| 0 <= i < first.len() implies !changes_key(
            fold,
            #[trigger] first[i],
            key,
        ) by {
            assert(first[i] == effects[i]);
        }
        law_unchanged_key(fold, first, held, key);
        let before = apply_all(fold, first, held);
        assert(!changes_key(fold, effects[effects.len() - 1], key));
        let after = apply_all(fold, effects, held);
        assert forall|name: Seq<char>|
            #![trigger after.values.contains_key((key, name))]
            #![trigger held.values.contains_key((key, name))]
            after.values.contains_key((key, name)) == held.values.contains_key((key, name)) && (
            after.values.contains_key((key, name)) ==> after.values[(key, name)]
                == held.values[(key, name)]) by {
            assert(before.values.contains_key((key, name)) == held.values.contains_key(
                (key, name),
            ));
        }
    }
}

/// Apart from these paths, the same keys with the same values.
pub open spec fn same_apart_from(a: Contents, b: Contents, area: spec_fn(Seq<char>) -> bool) -> bool {
    &&& forall|key: Seq<char>|
        #![trigger a.keys.contains(key)]
        #![trigger b.keys.contains(key)]
        !area(key) ==> a.keys.contains(key) == b.keys.contains(key)
    &&& forall|entry: (Seq<char>, Seq<char>)|
        #![trigger a.values.contains_key(entry)]
        #![trigger b.values.contains_key(entry)]
        !area(entry.0) ==> a.values.contains_key(entry) == b.values.contains_key(entry) && (
        a.values.contains_key(entry) ==> a.values[entry] == b.values[entry])
}

/// At these paths there are no keys and no values.
pub open spec fn nothing_in(held: Contents, area: spec_fn(Seq<char>) -> bool) -> bool {
    &&& forall|key: Seq<char>| #[trigger] held.keys.contains(key) ==> !area(key)
    &&& forall|entry: (Seq<char>, Seq<char>)| #[trigger]
        held.values.contains_key(entry) ==> !area(entry.0)
}

/// Two registries that are the same apart from some paths, at which both hold
/// nothing, are the same.
pub proof fn lemma_same(a: Contents, b: Contents, area: spec_fn(Seq<char>) -> bool)
    requires
        same_apart_from(a, b, area),
        nothing_in(a, area),
        nothing_in(b, area),
    ensures
        a == b,
{
    assert forall|key: Seq<char>| a.keys.contains(key) == b.keys.contains(key) by {
        if !area(key) {
            assert(a.keys.contains(key) == b.keys.contains(key));
        }
    }
    assert(a.keys =~= b.keys);
    assert forall|entry: (Seq<char>, Seq<char>)| #[trigger]
        a.values.contains_key(entry) == b.values.contains_key(entry) && (a.values.contains_key(
            entry,
        ) ==> a.values[entry] == b.values[entry]) by {
        if !area(entry.0) {
            assert(a.values.contains_key(entry) == b.values.contains_key(entry));
        }
    }
    assert(a.values =~= b.values);
}

/// A request changes nothing but at these paths, given what the registry held.
pub open spec fn stays_in(
    fold: Folding,
    e: Effect,
    held: Contents,
    area: spec_fn(Seq<char>) -> bool,
) -> bool {
    match e {
        Effect::CreateKey { path, .. } => forall|tree: Seq<char>| #[trigger]
            under(tree, folded(fold, path)) ==> area(tree) || held.keys.contains(tree),
        Effect::SetValue { path, .. } => area(folded(fold, path)),
        Effect::GetValue { .. } => true,
        Effect::DeleteTree { path } => forall|key: Seq<char>| #[trigger]
            under(folded(fold, path), key) ==> area(key),
        Effect::DeleteKey { path } => area(folded(fold, path)),
    }
}

/// Requests that each stay in some paths leave all else as it was.
pub proof fn lemma_stays_in(
    fold: Folding,
    effects: Seq<Effect>,
    held: Contents,
    now: Contents,
    area: spec_fn(Seq<char>) -> bool,
)
    requires
        same_apart_from(held, now, area),
        forall|i: int| 0 <= i < effects.len() ==> stays_in(fold, #[trigger] effects[i], held, area),
    ensures
        same_apart_from(held, apply_all(fold, effects, now), area),
    decreases effects.len(),
{
    if effects.len() > 0 {
        let first = effects.drop_last();
        assert forall|i: int| 0 <= i < first.len() implies stays_in(
            fold,
            #[trigger] first[i],
            held,
            area,
        ) by {
            assert(first[i] == effects[i]);
        }
        lemma_stays_in(fold, first, held, now, area);
        let e = effects.last();
        let before = apply_all(fold, first, now);
        let after = apply_all(fold, effects, now);
        assert(stays_in(fold, effects[effects.len() - 1], held, area));
        assert forall|key: Seq<char>| !area(key) implies #[trigger] held.keys.contains(key)
            == after.keys.contains(key) by {
            assert(held.keys.contains(key) == before.keys.contains(key));
        }
        assert forall|entry: (Seq<char>, Seq<char>)| !area(entry.0) implies #[trigger]
            held.values.contains_key(entry) == after.values.contains_key(entry) && (
        held.values.contains_key(entry) ==> held.values[entry] == after.values[entry]) by {
            assert(held.values.contains_key(entry) == before.values.contains_key(entry));
        }
    }
}

/// What is well-formed stays so when a key is created.
pub proof fn lemma_create_well_formed(fold: Folding, e: Effect, held: Contents)
    requires
        held.well_formed(),
        e is CreateKey,
    ensures
        apply(fold, e, held).well_formed(),
{
    let after = apply(fold, e, held);
    assert forall|tree: Seq<char>, path: Seq<char>|
        after.keys.contains(path) && #[trigger] under(tree, path) implies after.keys.contains(
        tree,
    ) by {
        let created = folded(fold, e->CreateKey_path);
        if !held.keys.contains(path) {
            lemma_under_transitive(tree, path, created);
        }
    }
}

} // verus!
