//! Attribute maps from names to values.
use crate::text::{same, take_next};
use vstd::prelude::*;

verus! {

/// A map from names to values, both of them texts.
#[derive(Debug, Clone)]
pub struct AttrMap {
    entries: Vec<(String, String)>,
}

/// The map that pairs make when they are put in one after the other: of two
/// pairs with one name the later one counts.
pub open spec fn map_of(pairs: Seq<(String, String)>) -> Map<Seq<char>, Seq<char>>
    decreases pairs.len(),
{
    if pairs.len() == 0 {
        Map::empty()
    } else {
        map_of(pairs.drop_last()).insert(pairs.last().0@, pairs.last().1@)
    }
}

/// What pairs of a name and a value say.
pub open spec fn pair_views(pairs: Seq<(String, String)>) -> Seq<(Seq<char>, Seq<char>)> {
    pairs.map_values(|p: (String, String)| (p.0@, p.1@))
}

/// The map that pairs make when they are put into `attrs` one after the other.
pub open spec fn put_all(
    attrs: Map<Seq<char>, Seq<char>>,
    pairs: Seq<(Seq<char>, Seq<char>)>,
) -> Map<Seq<char>, Seq<char>>
    decreases pairs.len(),
{
    if pairs.len() == 0 {
        attrs
    } else {
        put_all(attrs, pairs.drop_last()).insert(pairs.last().0, pairs.last().1)
    }
}

/// The value with the given name, and the empty text where there is none.
pub open spec fn text_or_empty(attrs: Map<Seq<char>, Seq<char>>, name: Seq<char>) -> Seq<char> {
    if attrs.contains_key(name) {
        attrs[name]
    } else {
        Seq::empty()
    }
}

/// No two pairs have the same name.
pub open spec fn names_distinct(pairs: Seq<(String, String)>) -> bool {
    forall|i: int, j: int|
        0 <= i < j < pairs.len() ==> (#[trigger] pairs[i]).0@ != (#[trigger] pairs[j]).0@
}

impl View for AttrMap {
    type V = Map<Seq<char>, Seq<char>>;

    closed spec fn view(&self) -> Map<Seq<char>, Seq<char>> {
        map_of(self.entries@)
    }
}

proof fn last_pair_counts(pairs: Seq<(String, String)>, i: int)
    requires
        0 <= i < pairs.len(),
        forall|j: int| i < j < pairs.len() ==> (#[trigger] pairs[j]).0@ != pairs[i].0@,
    ensures
        map_of(pairs).contains_key(pairs[i].0@),
        map_of(pairs)[pairs[i].0@] == pairs[i].1@,
    decreases pairs.len(),
{
    if i < pairs.len() - 1 {
        assert(pairs.last() == pairs[pairs.len() - 1]);
        last_pair_counts(pairs.drop_last(), i);
    }
}

proof fn unnamed_is_absent(pairs: Seq<(String, String)>, name: Seq<char>)
    requires
        forall|j: int| 0 <= j < pairs.len() ==> (#[trigger] pairs[j]).0@ != name,
    ensures
        !map_of(pairs).contains_key(name),
    decreases pairs.len(),
{
    if pairs.len() > 0 {
        assert(pairs.last() == pairs[pairs.len() - 1]);
        assert forall|j: int| 0 <= j < pairs.drop_last().len() implies (#[trigger] pairs.drop_last()[j]).0@
            != name by {
            assert(pairs.drop_last()[j] == pairs[j]);
        }
        unnamed_is_absent(pairs.drop_last(), name);
    }
}

proof fn replacing_inserts(pairs: Seq<(String, String)>, i: int, pair: (String, String))
    requires
        0 <= i < pairs.len(),
        names_distinct(pairs),
        pairs[i].0@ == pair.0@,
    ensures
        map_of(pairs.update(i, pair)) =~= map_of(pairs).insert(pair.0@, pair.1@),
    decreases pairs.len(),
{
    let changed = pairs.update(i, pair);
    if i == pairs.len() - 1 {
        assert(changed.drop_last() =~= pairs.drop_last());
    } else {
        assert(changed.drop_last() =~= pairs.drop_last().update(i, pair));
        assert(names_distinct(pairs.drop_last())) by {
            assert forall|a: int, b: int| 0 <= a < b < pairs.drop_last().len() implies (
            #[trigger] pairs.drop_last()[a]).0@ != (#[trigger] pairs.drop_last()[b]).0@ by {
                assert(pairs.drop_last()[a] == pairs[a]);
                assert(pairs.drop_last()[b] == pairs[b]);
            }
        }
        replacing_inserts(pairs.drop_last(), i, pair);
        assert(pairs[i].0@ != pairs[pairs.len() - 1].0@);
    }
}

impl AttrMap {
    /// The map without entries.
    pub fn new() -> (r: AttrMap)
        ensures
            r@ == Map::<Seq<char>, Seq<char>>::empty(),
    {
        AttrMap { entries: Vec::new() }
    }

    /// The map that the pairs make; of two pairs with one name the later one
    /// counts.
    pub fn from_pairs(pairs: Vec<(String, String)>) -> (r: AttrMap)
        ensures
            r@ == map_of(pairs@),
    {
        AttrMap { entries: pairs }
    }

    /// The value with the given name.
    pub fn get(&self, name: &str) -> (r: Option<&str>)
        ensures
            match r {
                Some(v) => self@.contains_key(name@) && v@ == self@[name@],
                None => !self@.contains_key(name@),
            },
    {
        let mut i: usize = self.entries.len();
        while i > 0
            invariant
                i <= self.entries.len(),
                forall|j: int| i <= j < self.entries.len() ==> (#[trigger] self.entries@[j]).0@ != name@,
            decreases i,
        {
            if same(self.entries[i - 1].0.as_str(), name) {
                proof {
                    last_pair_counts(self.entries@, i - 1);
                }
                return Some(self.entries[i - 1].1.as_str());
            }
            i = i - 1;
        }
        proof {
            unnamed_is_absent(self.entries@, name@);
        }
        None
    }

    /// Whether the value with the given name is `value`.
    pub fn holds(&self, name: &str, value: &str) -> (r: bool)
        ensures
            r == (self@.contains_key(name@) && self@[name@] == value@),
    {
        match self.get(name) {
            Some(v) => same(v, value),
            None => false,
        }
    }

    /// Gives the value with the given name, in place of any that it had.
    pub fn set(&mut self, name: &str, value: &str)
        ensures
            final(self)@ == old(self)@.insert(name@, value@),
    {
        let ghost before = self.entries@;
        self.entries.push((name.to_owned(), value.to_owned()));
        assert(self.entries@.drop_last() =~= before);
    }

    /// Gives each pair's value to its name, one pair after the other.
    pub fn set_all(&mut self, pairs: &[(String, String)])
        ensures
            final(self)@ == put_all(old(self)@, pair_views(pairs@)),
    {
        let ghost start = self@;
        let ghost all = pair_views(pairs@);
        let mut i: usize = 0;
        while i < pairs.len()
            invariant
                i <= pairs.len(),
                all == pair_views(pairs@),
                self@ == put_all(start, all.take(i as int)),
            decreases pairs.len() - i,
        {
            proof {
                take_next(all, i as int);
            }
            self.set(pairs[i].0.as_str(), pairs[i].1.as_str());
            i = i + 1;
        }
        assert(all.take(all.len() as int) =~= all);
    }

    /// A map with the same entries.
    pub fn copied(&self) -> (r: AttrMap)
        ensures
            r@ == self@,
    {
        let mut entries: Vec<(String, String)> = Vec::new();
        let mut i: usize = 0;
        while i < self.entries.len()
            invariant
                i <= self.entries.len(),
                entries@ =~= self.entries@.take(i as int),
            decreases self.entries.len() - i,
        {
            let name: String = self.entries[i].0.clone();
            let value: String = self.entries[i].1.clone();
            entries.push((name, value));
            i = i + 1;
        }
        assert(self.entries@.take(self.entries@.len() as int) =~= self.entries@);
        AttrMap { entries }
    }

    /// The entries as pairs, each name once.
    pub fn into_pairs(self) -> (r: Vec<(String, String)>)
        ensures
            map_of(r@) == self@,
            names_distinct(r@),
    {
        let mut out: Vec<(String, String)> = Vec::new();
        let mut i: usize = 0;
        assert(map_of(out@) =~= map_of(self.entries@.take(0)));
        while i < self.entries.len()
            invariant
                i <= self.entries.len(),
                map_of(out@) =~= map_of(self.entries@.take(i as int)),
                names_distinct(out@),
            decreases self.entries.len() - i,
        {
            let name: String = self.entries[i].0.clone();
            let value: String = self.entries[i].1.clone();
            proof {
                take_next(self.entries@, i as int);
            }
            let mut k: usize = 0;
            while k < out.len() && !same(out[k].0.as_str(), name.as_str())
                invariant
                    k <= out.len(),
                    forall|j: int| 0 <= j < k ==> (#[trigger] out@[j]).0@ != name@,
                decreases out.len() - k,
            {
                k = k + 1;
            }
            let ghost before = out@;
            let ghost pair = (name, value);
            if k < out.len() {
                proof {
                    replacing_inserts(out@, k as int, pair);
                }
                out.set(k, (name, value));
                assert(names_distinct(out@)) by {
                    assert forall|a: int, b: int| 0 <= a < b < out@.len() implies (#[trigger] out@[a]).0@
                        != (#[trigger] out@[b]).0@ by {
                        assert(before[a].0@ != before[b].0@);
                    }
                }
            } else {
                out.push((name, value));
                assert(out@.drop_last() =~= before);
                assert(names_distinct(out@)) by {
                    assert forall|a: int, b: int| 0 <= a < b < out@.len() implies (#[trigger] out@[a]).0@
                        != (#[trigger] out@[b]).0@ by {
                        if b < before.len() {
                            assert(before[a].0@ != before[b].0@);
                        } else {
                            assert(before[a].0@ != name@);
                        }
                    }
                }
            }
            i = i + 1;
        }
        assert(self.entries@.take(self.entries@.len() as int) =~= self.entries@);
        out
    }
}

/// Once pairs are put in, a name has the value of the last pair with that name;
/// where no pair has the name, it has what it had.
pub proof fn the_last_pair_of_a_name_counts(
    attrs: Map<Seq<char>, Seq<char>>,
    pairs: Seq<(Seq<char>, Seq<char>)>,
    name: Seq<char>,
    i: int,
)
    requires
        -1 <= i < pairs.len(),
        i >= 0 ==> pairs[i].0 == name,
        forall|j: int| i < j < pairs.len() ==> (#[trigger] pairs[j]).0 != name,
    ensures
        i >= 0 ==> put_all(attrs, pairs).contains_key(name) && put_all(attrs, pairs)[name]
            == pairs[i].1,
        i == -1 ==> put_all(attrs, pairs).contains_key(name) == attrs.contains_key(name),
        i == -1 && attrs.contains_key(name) ==> put_all(attrs, pairs)[name] == attrs[name],
    decreases pairs.len(),
{
    if pairs.len() > 0 && i < pairs.len() - 1 {
        assert(pairs.last() == pairs[pairs.len() - 1]);
        the_last_pair_of_a_name_counts(attrs, pairs.drop_last(), name, i);
    }
}

/// Pairs make the map that they make when they are put into an empty one.
pub proof fn a_map_is_made_pair_by_pair(pairs: Seq<(String, String)>)
    ensures
        map_of(pairs) =~= put_all(Map::empty(), pair_views(pairs)),
    decreases pairs.len(),
{
    if pairs.len() > 0 {
        a_map_is_made_pair_by_pair(pairs.drop_last());
        assert(pair_views(pairs).drop_last() =~= pair_views(pairs.drop_last()));
        assert(pair_views(pairs).last() == (pairs.last().0@, pairs.last().1@));
    }
}

/// The value that was given to a name is read, whatever the other names have, and
/// a name without a value reads as nothing.
pub proof fn names_read_as_given(
    attrs: Map<Seq<char>, Seq<char>>,
    name: Seq<char>,
    other: Seq<char>,
    value: Seq<char>,
)
    ensures
        text_or_empty(attrs.insert(name, value), name) == value,
        other != name ==> text_or_empty(attrs.insert(name, value), other) == text_or_empty(
            attrs,
            other,
        ),
        text_or_empty(attrs.remove(name), name).len() == 0,
{
}

} // verus!
