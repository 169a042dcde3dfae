//! Discovery of the exports of a database by walking its object listing.
//!
//! The listing is asked for one key at a time. Once an export is seen, the walk
//! goes on behind the export's subtree: '0' is the character after '/', so the key
//! `{export}0` comes after every key under `{export}/` and before every key of
//! another export that comes later.

use vstd::prelude::*;
use vstd::string::StringExecFns;
use crate::gc::listing::{directory_text, exports_prefix, first_part, law_first_part};
use crate::gc::state::texts;
use crate::text::{
    chars_of, find_char, lemma_before_char, lemma_is_before_char, strip_prefix, text_between,
};

verus! {

/// Whether `a` comes before `b` because of what stands at place `i`.
pub open spec fn less_at(a: Seq<char>, b: Seq<char>, i: int) -> bool {
    0 <= i <= a.len() && i < b.len() && a.take(i) == b.take(i) && (i < a.len() ==> a[i] < b[i])
}

/// Whether `a` comes before `b` in the order of characters.
pub open spec fn less(a: Seq<char>, b: Seq<char>) -> bool {
    exists|i: int| #[trigger] less_at(a, b, i)
}

proof fn lemma_take_at(a: Seq<char>, b: Seq<char>, n: int, i: int)
    requires
        a.take(n) == b.take(n),
        0 <= i < n <= a.len(),
        n <= b.len(),
    ensures
        a[i] == b[i],
{
    assert(a.take(n)[i] == a[i]);
    assert(b.take(n)[i] == b[i]);
}

/// The order is transitive.
proof fn lemma_less_transitive(a: Seq<char>, b: Seq<char>, c: Seq<char>)
    requires
        less(a, b),
        less(b, c),
    ensures
        less(a, c),
{
    let i = choose|i: int| less_at(a, b, i);
    let j = choose|j: int| less_at(b, c, j);
    let k = if i < j {
        i
    } else {
        j
    };
    assert forall|m: int| 0 <= m < k implies a[m] == c[m] by {
        lemma_take_at(a, b, i, m);
        lemma_take_at(b, c, j, m);
    }
    assert(a.take(k) =~= c.take(k));
    if i < j {
        lemma_take_at(b, c, j, i);
    } else if j < i {
        lemma_take_at(a, b, i, j);
    }
    assert(less_at(a, c, k));
}

pub(crate) fn text_less(a: &str, b: &str) -> (yes: bool)
    ensures
        yes == less(a@, b@),
        !yes ==> a@ == b@ || less(b@, a@),
{
    let x: Vec<char> = chars_of(a);
    let y: Vec<char> = chars_of(b);
    let mut i: usize = 0;
    while i < x.len() && i < y.len() && x[i] == y[i]
        invariant
            i <= x@.len(),
            i <= y@.len(),
            x@.take(i as int) == y@.take(i as int),
        decreases x@.len() - i,
    {
        proof {
            assert(x@.take(i + 1) =~= x@.take(i as int).push(x@[i as int]));
            assert(y@.take(i + 1) =~= y@.take(i as int).push(y@[i as int]));
        }
        i = i + 1;
    }
    let yes: bool = i < y.len() && (i == x.len() || x[i] < y[i]);
    proof {
        if yes {
            assert(less_at(a@, b@, i as int));
        } else {
            if i == y.len() && i == x.len() {
                assert(x@.take(i as int) =~= x@);
                assert(y@.take(i as int) =~= y@);
            } else {
                assert(less_at(b@, a@, i as int));
            }
            if less(a@, b@) {
                let j = choose|j: int| less_at(a@, b@, j);
                if i < j {
                    lemma_take_at(a@, b@, j, i as int);
                } else if j < i {
                    lemma_take_at(a@, b@, i as int, j);
                }
            }
        }
    }
    yes
}

/// Whether texts stand in ascending order, each once.
pub open spec fn ascending(list: Seq<Seq<char>>) -> bool {
    forall|i: int, j: int| 0 <= i < j < list.len() ==> less(#[trigger] list[i], #[trigger] list[j])
}

/// Adds a text to a list in ascending order, unless it is there.
pub(crate) fn insert_ascending(list: &mut Vec<String>, text: String)
    requires
        ascending(texts(old(list)@)),
    ensures
        ascending(texts(final(list)@)),
        forall|t: Seq<char>| #[trigger]
            texts(final(list)@).contains(t) == (texts(old(list)@).contains(t) || t == text@),
{
    let ghost before = texts(list@);
    let mut i: usize = 0;
    while i < list.len() && text_less(list[i].as_str(), text.as_str())
        invariant
            i <= list@.len(),
            list@ == old(list)@,
            before == texts(old(list)@),
            forall|j: int| 0 <= j < i ==> less(#[trigger] before[j], text@),
        decreases list@.len() - i,
    {
        assert(before[i as int] == list@[i as int]@);
        i = i + 1;
    }
    if i < list.len() && list[i] == text {
        assert(before[i as int] == text@);
        return;
    }
    let ghost t = text@;
    proof {
        if i < list@.len() {
            assert(before[i as int] == list@[i as int]@);
            assert(less(t, before[i as int]));
        }
    }
    list.insert(i, text);
    proof {
        let after = texts(list@);
        assert(after =~= before.insert(i as int, t));
        assert forall|a: int, b: int| 0 <= a < b < after.len() implies less(
            #[trigger] after[a],
            #[trigger] after[b],
        ) by {
            let x = if a < i {
                a
            } else {
                a - 1
            };
            let y = if b < i {
                b
            } else {
                b - 1
            };
            if a == i {
                if y > i {
                    assert(less(before[i as int], before[y]));
                    lemma_less_transitive(t, before[i as int], before[y]);
                }
                assert(after[b] == before[y]);
            } else if b == i {
                assert(after[a] == before[x]);
            } else {
                assert(after[a] == before[x] && after[b] == before[y]);
            }
        }
        assert forall|u: Seq<char>| #[trigger] after.contains(u) == (before.contains(u) || u
            == t) by {
            if after.contains(u) {
                let a = choose|a: int| 0 <= a < after.len() && after[a] == u;
                if a < i {
                    assert(before[a] == u);
                } else if a > i {
                    assert(before[a - 1] == u);
                }
            }
            if before.contains(u) {
                let x = choose|x: int| 0 <= x < before.len() && before[x] == u;
                if x < i {
                    assert(after[x] == u);
                } else {
                    assert(after[x + 1] == u);
                }
            }
            assert(after[i as int] == t);
        }
    }
}

/// What the walk does next.
#[derive(Debug)]
pub enum DiscoverNext {
    /// Ask for the first key after this one.
    ListAfter(String),
    /// Nothing is left.
    Done,
}

/// A walk over the listing of a database's exports.
#[derive(Debug)]
pub struct Discovery {
    pub prefix: String,
    pub prefixes: Vec<String>,
}

/// What a key does to a walk: the export that it belongs to, if any, and where the
/// walk goes on.
pub open spec fn walk_on(key: Seq<char>, prefix: Seq<char>) -> Seq<char> {
    match first_part(key, prefix) {
        Some(name) => (prefix + name).push('0'),
        None => key,
    }
}

impl Discovery {
    /// Starts the walk over the exports of a database.
    pub fn new(db_path: &str) -> (walk: Self)
        ensures
            walk.prefix@ == directory_text(db_path@, "exports"@),
            walk.prefixes@.len() == 0,
    {
        Discovery { prefix: exports_prefix(db_path), prefixes: Vec::new() }
    }

    /// Takes in the first key that the listing gave. A key outside the exports
    /// ends the walk, and one without a directory is passed over.
    pub fn entry(&mut self, key: Option<&str>) -> (next: DiscoverNext)
        requires
            ascending(texts(old(self).prefixes@)),
        ensures
            final(self).prefix == old(self).prefix,
            ascending(texts(final(self).prefixes@)),
            match key {
                Some(key) => if old(self).prefix@.is_prefix_of(key@) {
                    &&& next matches DiscoverNext::ListAfter(offset)
                    &&& offset@ == walk_on(key@, old(self).prefix@)
                    &&& forall|t: Seq<char>| #[trigger]
                        texts(final(self).prefixes@).contains(t) == (texts(
                            old(self).prefixes@,
                        ).contains(t) || (first_part(key@, old(self).prefix@) matches Some(name)
                            && t == old(self).prefix@ + name))
                } else {
                    next is Done && final(self).prefixes == old(self).prefixes
                },
                None => next is Done && final(self).prefixes == old(self).prefixes,
            },
    {
        let key: &str = match key {
            Some(key) => key,
            None => {
                return DiscoverNext::Done;
            },
        };
        let rel: String = match strip_prefix(key, self.prefix.as_str()) {
            Some(rel) => rel,
            None => {
                return DiscoverNext::Done;
            },
        };
        let chars: Vec<char> = chars_of(rel.as_str());
        let slash: usize = find_char(&chars, '/');
        if slash == chars.len() {
            return DiscoverNext::ListAfter(String::from_str(key));
        }
        let name: String = text_between(&chars, 0, slash);
        assert(name@ =~= rel@.take(slash as int));
        let mut found: String = self.prefix.clone();
        found.append(name.as_str());
        let mut offset: String = found.clone();
        offset.push('0');
        insert_ascending(&mut self.prefixes, found);
        DiscoverNext::ListAfter(offset)
    }
}

/// Whether a listing is one of a directory: its keys stand in ascending order, and
/// each starts with the directory.
pub open spec fn is_listing(keys: Seq<Seq<char>>, prefix: Seq<char>) -> bool {
    ascending(keys) && forall|i: int|
        0 <= i < keys.len() ==> prefix.is_prefix_of(#[trigger] keys[i])
}

/// The place of the first key after `offset`, from place `i` on.
pub open spec fn first_after(keys: Seq<Seq<char>>, offset: Seq<char>, i: int) -> int
    decreases keys.len() - i,
{
    if i >= keys.len() || less(offset, keys[i]) {
        i
    } else {
        first_after(keys, offset, i + 1)
    }
}

/// The exports that a walk from place `i` of a listing on finds.
pub open spec fn walked(keys: Seq<Seq<char>>, prefix: Seq<char>, i: int) -> Set<Seq<char>>
    decreases keys.len() - i,
{
    if i >= keys.len() || i < 0 {
        Set::empty()
    } else {
        let next = first_after(keys, walk_on(keys[i], prefix), i + 1);
        let rest = if i < next <= keys.len() {
            walked(keys, prefix, next)
        } else {
            Set::empty()
        };
        match first_part(keys[i], prefix) {
            Some(name) => rest.insert(name),
            None => rest,
        }
    }
}

proof fn lemma_first_after(keys: Seq<Seq<char>>, offset: Seq<char>, i: int)
    requires
        0 <= i <= keys.len(),
    ensures
        i <= first_after(keys, offset, i) <= keys.len(),
        forall|m: int|
            i <= m < first_after(keys, offset, i) ==> !less(offset, #[trigger] keys[m]),
    decreases keys.len() - i,
{
    if i < keys.len() && !less(offset, keys[i]) {
        lemma_first_after(keys, offset, i + 1);
    }
}

/// A key between a key of an export and the place where the walk goes on belongs
/// to the same export, or to none.
proof fn lemma_skipped(prefix: Seq<char>, key: Seq<char>, name: Seq<char>, skipped: Seq<char>)
    requires
        first_part(key, prefix) == Some(name),
        prefix.is_prefix_of(skipped),
        less(key, skipped),
        !less((prefix + name).push('0'), skipped),
    ensures
        first_part(skipped, prefix) is None || first_part(skipped, prefix) == Some(name),
{
    let whole = prefix + name;
    let n = whole.len() as int;
    let offset = whole.push('0');
    let rel = key.skip(prefix.len() as int);
    lemma_before_char(rel, '/');
    assert(key.take(n) =~= whole) by {
        assert(key.subrange(0, prefix.len() as int) =~= prefix);
        assert forall|i: int| 0 <= i < n implies key[i] == whole[i] by {
            if i >= prefix.len() {
                assert(key[i] == rel[i - prefix.len()]);
                assert(name[i - prefix.len()] == rel[i - prefix.len()]);
            } else {
                assert(key.subrange(0, prefix.len() as int)[i] == prefix[i]);
            }
        }
    }
    assert(key[n] == '/') by {
        assert(rel[name.len() as int] == key[n]);
    }
    let d = choose|d: int| less_at(key, skipped, d);
    if d < n {
        assert(offset.take(d) =~= skipped.take(d)) by {
            assert forall|i: int| 0 <= i < d implies offset[i] == skipped[i] by {
                lemma_take_at(key, skipped, d, i);
                assert(key.take(n)[i] == whole[i]);
            }
        }
        assert(key.take(n)[d] == whole[d]);
        assert(less_at(offset, skipped, d));
    } else {
        assert(skipped.take(n) =~= whole) by {
            assert forall|i: int| 0 <= i < n implies skipped[i] == whole[i] by {
                lemma_take_at(key, skipped, d, i);
                assert(key.take(n)[i] == whole[i]);
            }
        }
        let rest = skipped.skip(prefix.len() as int);
        assert forall|i: int| 0 <= i < name.len() implies #[trigger] rest[i] == name[i] by {
            assert(skipped.take(n)[prefix.len() + i] == whole[prefix.len() + i]);
        }
        assert forall|i: int| 0 <= i < name.len() implies #[trigger] rest[i] != '/' by {
            assert(name[i] == rel[i]);
        }
        if d == n {
            assert(offset.take(n) =~= whole);
            if skipped[n] != '0' {
                assert(less_at(offset, skipped, n));
            }
            assert(skipped.len() == n + 1) by {
                if skipped.len() > n + 1 {
                    assert(offset.take(n + 1) =~= skipped.take(n + 1)) by {
                        assert forall|i: int| 0 <= i < n + 1 implies offset[i] == skipped[i] by {
                            if i < n {
                                assert(skipped.take(n)[i] == whole[i]);
                            }
                        }
                    }
                    assert(less_at(offset, skipped, n + 1));
                }
            }
            assert forall|i: int| 0 <= i < rest.len() implies #[trigger] rest[i] != '/' by {
                if i == name.len() {
                    assert(rest[i] == skipped[n]);
                }
            }
            lemma_is_before_char(rest, '/', rest.len() as int);
        } else {
            lemma_take_at(key, skipped, d, n);
            assert(rest[name.len() as int] == skipped[n]);
            lemma_is_before_char(rest, '/', name.len() as int);
            assert(rest.take(name.len() as int) =~= name);
        }
    }
}

/// The walk finds every export of a listing, and nothing else, though it asks for
/// only one key of each.
pub proof fn law_walk_finds_every_export(keys: Seq<Seq<char>>, prefix: Seq<char>, i: int)
    requires
        is_listing(keys, prefix),
        0 <= i,
    ensures
        forall|name: Seq<char>| #[trigger]
            walked(keys, prefix, i).contains(name) == exists|m: int|
                i <= m < keys.len() && first_part(#[trigger] keys[m], prefix) == Some(name),
    decreases keys.len() - i,
{
    if i < keys.len() {
        let offset = walk_on(keys[i], prefix);
        let next = first_after(keys, offset, i + 1);
        lemma_first_after(keys, offset, i + 1);
        law_walk_finds_every_export(keys, prefix, next);
        assert forall|name: Seq<char>| #[trigger]
            walked(keys, prefix, i).contains(name) == exists|m: int|
                i <= m < keys.len() && first_part(#[trigger] keys[m], prefix) == Some(name) by {
            let here = first_part(keys[i], prefix) == Some(name);
            assert(walked(keys, prefix, i).contains(name) == (here || walked(
                keys,
                prefix,
                next,
            ).contains(name)));
            if exists|m: int|
                i <= m < keys.len() && first_part(#[trigger] keys[m], prefix) == Some(name) {
                let m = choose|m: int|
                    i <= m < keys.len() && first_part(#[trigger] keys[m], prefix) == Some(name);
                if i < m < next {
                    match first_part(keys[i], prefix) {
                        Some(first) => {
                            lemma_skipped(prefix, keys[i], first, keys[m]);
                        },
                        None => {
                            assert(less(keys[i], keys[m]));
                        },
                    }
                }
            }
        }
    }
}

/// The walk makes progress: a key comes before the place where the walk goes on
/// behind it, or is that place.
pub proof fn law_walk_goes_on(key: Seq<char>, prefix: Seq<char>)
    ensures
        key == walk_on(key, prefix) || less(key, walk_on(key, prefix)),
{
    match first_part(key, prefix) {
        Some(name) => {
            let whole = prefix + name;
            let n = whole.len() as int;
            let rel = key.skip(prefix.len() as int);
            lemma_before_char(rel, '/');
            assert(key.take(n) =~= whole) by {
                assert forall|i: int| 0 <= i < n implies key[i] == whole[i] by {
                    if i >= prefix.len() {
                        assert(key[i] == rel[i - prefix.len()]);
                        assert(name[i - prefix.len()] == rel[i - prefix.len()]);
                    } else {
                        assert(key.subrange(0, prefix.len() as int)[i] == prefix[i]);
                    }
                }
            }
            assert(rel[name.len() as int] == key[n]);
            assert(whole.push('0').take(n) =~= whole);
            assert(less_at(key, whole.push('0'), n));
        },
        None => {},
    }
}

/// What one step of the walk does. A key in the directory of an export adds the export, once,
/// and the walk goes on behind everything in that directory. A key that lies directly below the
/// exports adds nothing, and the walk goes on behind it. A key outside ends the walk, as does
/// the end of the listing.
pub proof fn law_walk_step(
    walk: &mut Discovery,
    key: Option<&str>,
    next: DiscoverNext,
    name: Seq<char>,
    rest: Seq<char>,
)
    requires
        call_ensures(Discovery::entry, (walk, key), next),
        !name.contains('/'),
    ensures
        ({
            let prefix = mut_ref_current(walk).prefix@;
            let before = texts(mut_ref_current(walk).prefixes@);
            let after = texts(mut_ref_future(walk).prefixes@);
            &&& mut_ref_future(walk).prefix@ == prefix
            &&& key is None ==> next is Done && after == before
            &&& key is Some && !prefix.is_prefix_of(key->Some_0@) ==> next is Done && after == before
            &&& key is Some && key->Some_0@ == prefix + name.push('/') + rest ==> {
                &&& next is ListAfter
                &&& next->ListAfter_0@ == prefix + name + seq!['0']
                &&& forall|t: Seq<char>| #[trigger]
                    after.contains(t) <==> before.contains(t) || t == prefix + name
            }
            &&& key is Some && key->Some_0@ == prefix + name ==> {
                &&& next is ListAfter
                &&& next->ListAfter_0@ == key->Some_0@
                &&& forall|t: Seq<char>| #[trigger] after.contains(t) <==> before.contains(t)
            }
        }),
{
    let prefix = mut_ref_current(walk).prefix@;
    law_first_part(prefix, name, rest);
    let file = prefix + name;
    assert(file.subrange(0, prefix.len() as int) =~= prefix);
    let path = prefix + name.push('/') + rest;
    assert(path.subrange(0, prefix.len() as int) =~= prefix);
    assert((prefix + name).push('0') =~= prefix + name + seq!['0']);
}

/// The order of texts is that of a dictionary over the characters: it is strict, any two different
/// texts are ordered one way, and a text comes after each of its beginnings.
pub proof fn law_texts_are_ordered(a: Seq<char>, b: Seq<char>, c: char, rest: Seq<char>)
    ensures
        !less(a, a),
        less(a, b) ==> !less(b, a),
        less(a, a.push(c) + rest),
        forall|x: char, y: char|
            x < y ==> #[trigger] less(a.push(x) + rest, a.push(y) + b),
{
    if less(a, a) {
        let i = choose|i: int| less_at(a, a, i);
    }
    if less(a, b) && less(b, a) {
        lemma_less_transitive(a, b, a);
        let i = choose|i: int| less_at(a, a, i);
    }
    let longer = a.push(c) + rest;
    assert(a.take(a.len() as int) =~= longer.take(a.len() as int));
    assert(less_at(a, longer, a.len() as int));
    assert forall|x: char, y: char| x < y implies #[trigger] less(
        a.push(x) + rest,
        a.push(y) + b,
    ) by {
        let u = a.push(x) + rest;
        let v = a.push(y) + b;
        let n = a.len() as int;
        assert(u.take(n) =~= v.take(n));
        assert(u[n] == x && v[n] == y);
        assert(less_at(u, v, n));
    }
}

/// A walk starts in the directory of the exports, with none found.
pub proof fn law_walk_starts(db_path: &str, walk: Discovery, prefix: String)
    requires
        call_ensures(Discovery::new, (db_path,), walk),
        call_ensures(exports_prefix, (db_path,), prefix),
    ensures
        walk.prefix@ == prefix@,
        walk.prefixes@.len() == 0,
{
}

} // verus!
