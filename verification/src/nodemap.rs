//! The identifier map of a document: which path text each identifier stands
//! for.
//!
//! The map mints its identifiers itself. An identifier is a random part, a
//! hyphen, the numeral of the map's generation, a hyphen, and the serial
//! number of the binding. The serial number keeps the identifiers of one
//! generation apart from each other, and the generation, which every renewal
//! of the map raises, keeps them apart from those of every generation
//! before: neither rests on the random part.

use vstd::prelude::*;
use vstd::string::*;
use crate::path::{
    all_digits, decimal_digits, decimal_value, format_number, is_digit, lemma_decimal_round_trip,
    next_numeral,
};
use crate::text::same_text;

verus! {

/// One binding of an identifier to a path text.
#[derive(Clone, Debug, PartialEq, Eq)]
pub struct Binding {
    pub id: String,
    pub path: String,
}

/// The bindings of a document's identifiers, in the order in which they were
/// made, and the generation that they belong to.
#[derive(Clone, Debug, PartialEq, Eq)]
pub struct NodeMap {
    entries: Vec<Binding>,
    generation: String,
}

/// The map that a run of bindings amounts to: later bindings override
/// earlier ones.
pub open spec fn bindings_map(s: Seq<(Seq<char>, Seq<char>)>) -> Map<Seq<char>, Seq<char>>
    decreases s.len(),
{
    if s.len() == 0 {
        Map::empty()
    } else {
        bindings_map(s.drop_last()).insert(s.last().0, s.last().1)
    }
}

/// No identifier occurs twice in a run of bindings.
pub open spec fn distinct_ids(b: Seq<(Seq<char>, Seq<char>)>) -> bool {
    forall|i: int, j: int| 0 <= i < j < b.len() ==> (#[trigger] b[i]).0 != (#[trigger] b[j]).0
}

/// Whether a text ends in a hyphen and the given digits.
pub open spec fn ends_in(key: Seq<char>, digits: Seq<char>) -> bool {
    let tail = seq!['-'] + digits;
    key.len() >= tail.len() && key.subrange(key.len() - tail.len(), key.len() as int) == tail
}

/// Whether an identifier carries the given generation and serial number: it
/// ends in a hyphen, the numeral of the generation, a hyphen, and the numeral
/// of the serial number.
pub open spec fn stamped(key: Seq<char>, generation: Seq<char>, serial: nat) -> bool {
    let digits = decimal_digits(serial);
    &&& ends_in(key, digits)
    &&& ends_in(key.take(key.len() - digits.len() - 1), generation)
}

/// Whether the identifiers of a run of bindings carry the generation and the
/// serial numbers from 0 on, in their order.
pub open spec fn stamps_in_order(b: Seq<(Seq<char>, Seq<char>)>, generation: Seq<char>) -> bool {
    forall|i: int| 0 <= i < b.len() ==> stamped(#[trigger] b[i].0, generation, i as nat)
}

/// A text ends in a hyphen and digits in one way only.
pub proof fn lemma_one_ending(key: Seq<char>, a: Seq<char>, b: Seq<char>)
    requires
        ends_in(key, a),
        ends_in(key, b),
        all_digits(a),
        all_digits(b),
    ensures
        a == b,
{
    let ta = seq!['-'] + a;
    let tb = seq!['-'] + b;
    let len = key.len() as int;
    let sa = key.subrange(len - ta.len(), len);
    let sb = key.subrange(len - tb.len(), len);
    if a.len() == b.len() {
        assert(a =~= b) by {
            assert forall|k: int| 0 <= k < a.len() implies a[k] == b[k] by {
                assert(sa[k + 1] == ta[k + 1] && sb[k + 1] == tb[k + 1]);
            }
        }
    } else if a.len() < b.len() {
        let k = b.len() - a.len();
        assert(sa[0] == ta[0] && sb[k] == tb[k]);
        assert(key[len - ta.len()] == '-');
        assert(tb[k] == b[k - 1]);
        assert(is_digit(b[k - 1]));
    } else {
        let k = a.len() - b.len();
        assert(sb[0] == tb[0] && sa[k] == ta[k]);
        assert(key[len - tb.len()] == '-');
        assert(ta[k] == a[k - 1]);
        assert(is_digit(a[k - 1]));
    }
}

/// An identifier carries one generation and one serial number only.
pub proof fn lemma_one_stamp(key: Seq<char>, g: Seq<char>, n: nat, h: Seq<char>, m: nat)
    requires
        stamped(key, g, n),
        stamped(key, h, m),
        all_digits(g),
        all_digits(h),
    ensures
        g == h,
        n == m,
{
    lemma_decimal_round_trip(n);
    lemma_decimal_round_trip(m);
    lemma_one_ending(key, decimal_digits(n), decimal_digits(m));
    lemma_one_ending(key.take(key.len() - decimal_digits(n).len() - 1), g, h);
}

/// Bindings whose identifiers carry one generation and the serial numbers in
/// their order hold no identifier twice.
pub proof fn lemma_stamps_are_distinct(b: Seq<(Seq<char>, Seq<char>)>, generation: Seq<char>)
    requires
        stamps_in_order(b, generation),
        all_digits(generation),
    ensures
        distinct_ids(b),
{
    assert forall|i: int, j: int| 0 <= i < j < b.len() implies (#[trigger] b[i]).0 != (
    #[trigger] b[j]).0 by {
        if b[i].0 == b[j].0 {
            lemma_one_stamp(b[i].0, generation, i as nat, generation, j as nat);
        }
    }
}

/// Every key of the map of a run of bindings is the identifier of one of the
/// bindings.
pub proof fn lemma_key_is_bound(s: Seq<(Seq<char>, Seq<char>)>, k: Seq<char>) -> (i: int)
    requires
        bindings_map(s).contains_key(k),
    ensures
        0 <= i < s.len(),
        s[i].0 == k,
    decreases s.len(),
{
    if s.last().0 == k {
        s.len() - 1
    } else {
        lemma_key_is_bound(s.drop_last(), k)
    }
}

/// Where no identifier occurs twice, each binding is in the map as it was
/// made.
pub proof fn lemma_distinct_bindings(s: Seq<(Seq<char>, Seq<char>)>, i: int)
    requires
        0 <= i < s.len(),
        distinct_ids(s),
    ensures
        bindings_map(s).contains_key(s[i].0),
        bindings_map(s)[s[i].0] == s[i].1,
    decreases s.len(),
{
    if i < s.len() - 1 {
        let front = s.drop_last();
        assert forall|a: int, b: int| 0 <= a < b < front.len() implies (#[trigger] front[a]).0 != (
        #[trigger] front[b]).0 by {
            assert(front[a] == s[a] && front[b] == s[b]);
        }
        lemma_distinct_bindings(front, i);
        assert(front[i] == s[i]);
        assert(s[i].0 != s[s.len() - 1].0);
    }
}

impl NodeMap {
    /// The bindings, oldest first.
    pub closed spec fn bindings(&self) -> Seq<(Seq<char>, Seq<char>)> {
        Seq::new(self.entries@.len(), |i: int| (self.entries@[i].id@, self.entries@[i].path@))
    }

    /// The numeral of the generation.
    pub closed spec fn generation(&self) -> Seq<char> {
        self.generation@
    }

    /// The number of the generation: how often the map was renewed.
    pub open spec fn generation_number(&self) -> nat {
        decimal_value(self.generation())
    }

    /// Whether the map is in order: its generation is a numeral, and its
    /// identifiers carry the generation and their serial numbers.
    pub open spec fn wf(&self) -> bool {
        &&& all_digits(self.generation())
        &&& self.generation().len() >= 1
        &&& stamps_in_order(self.bindings(), self.generation())
    }

    /// A map without bindings, in generation 0.
    pub fn new() -> (r: NodeMap)
        ensures
            r.wf(),
            r.bindings() == Seq::<(Seq<char>, Seq<char>)>::empty(),
            r@ == Map::<Seq<char>, Seq<char>>::empty(),
            r.generation_number() == 0,
    {
        proof {
            reveal_strlit("0");
            assert("0"@.drop_last() =~= Seq::<char>::empty());
            assert(decimal_value("0"@.drop_last()) == 0);
        }
        let r = NodeMap { entries: Vec::new(), generation: String::from_str("0") };
        assert(r.bindings() =~= Seq::<(Seq<char>, Seq<char>)>::empty());
        r
    }

    /// Forgets every binding and enters the next generation.
    pub fn renew(&mut self)
        requires
            old(self).wf(),
        ensures
            final(self).wf(),
            final(self).bindings() == Seq::<(Seq<char>, Seq<char>)>::empty(),
            final(self)@ == Map::<Seq<char>, Seq<char>>::empty(),
            final(self).generation_number() == old(self).generation_number() + 1,
    {
        self.entries.clear();
        self.generation = next_numeral(self.generation.as_str());
        assert(self.bindings() =~= Seq::<(Seq<char>, Seq<char>)>::empty());
    }

    /// Mints an identifier from the given random part and binds it to `path`.
    /// The identifier carries the generation of the map and, as its serial
    /// number, the number of bindings made before.
    pub fn bind(&mut self, random: &str, path: String) -> (key: String)
        requires
            old(self).wf(),
        ensures
            final(self).wf(),
            final(self).generation() == old(self).generation(),
            stamped(key@, old(self).generation(), old(self).bindings().len()),
            final(self).bindings() == old(self).bindings().push((key@, path@)),
            final(self)@ == old(self)@.insert(key@, path@),
    {
        let ghost generation = self.generation@;
        let ghost serial = decimal_digits(self.entries@.len() as nat);
        let mut key = String::from_str(random);
        proof {
            reveal_strlit("-");
        }
        key.append("-");
        key.append(self.generation.as_str());
        key.append("-");
        key.append(format_number(self.entries.len()).as_str());
        proof {
            let front = random@ + seq!['-'] + generation;
            assert(key@ =~= front + (seq!['-'] + serial));
            assert(key@.subrange(key@.len() - serial.len() - 1, key@.len() as int) =~= seq!['-']
                + serial);
            assert(key@.take(key@.len() - serial.len() - 1) =~= front);
            assert(front.subrange(front.len() - generation.len() - 1, front.len() as int)
                =~= seq!['-'] + generation);
        }
        let ghost before = self.bindings();
        self.entries.push(Binding { id: key.clone(), path });
        proof {
            assert(self.bindings() =~= before.push((key@, path@)));
            assert(self.bindings().drop_last() =~= before);
            assert forall|i: int| 0 <= i < self.bindings().len() implies stamped(
                #[trigger] self.bindings()[i].0,
                generation,
                i as nat,
            ) by {
                if i < before.len() {
                    assert(self.bindings()[i] == before[i]);
                }
            }
        }
        key
    }

    /// The path text that `id` stands for, if it is bound.
    pub fn get(&self, id: &str) -> (r: Option<&String>)
        ensures
            match r {
                Some(path) => self@.contains_key(id@) && self@[id@] == path@,
                None => !self@.contains_key(id@),
            },
    {
        let ghost all = self.bindings();
        let mut i = self.entries.len();
        assert(all.take(i as int) =~= all);
        while i > 0
            invariant
                i <= self.entries@.len(),
                all == self.bindings(),
                bindings_map(all).contains_key(id@) == bindings_map(all.take(i as int)).contains_key(
                    id@,
                ),
                bindings_map(all).contains_key(id@) ==> bindings_map(all)[id@] == bindings_map(
                    all.take(i as int),
                )[id@],
            decreases i,
        {
            i -= 1;
            assert(all.take(i + 1).drop_last() =~= all.take(i as int));
            assert(all.take(i + 1).last() == all[i as int]);
            if same_text(self.entries[i].id.as_str(), id) {
                return Some(&self.entries[i].path);
            }
        }
        assert(all.take(0) =~= Seq::<(Seq<char>, Seq<char>)>::empty());
        None
    }

    /// The number of bindings made.
    pub fn len(&self) -> (n: usize)
        ensures
            n == self.bindings().len(),
    {
        self.entries.len()
    }
}

impl View for NodeMap {
    type V = Map<Seq<char>, Seq<char>>;

    closed spec fn view(&self) -> Map<Seq<char>, Seq<char>> {
        bindings_map(self.bindings())
    }
}

impl NodeMap {
    /// The map is what its bindings amount to.
    pub proof fn lemma_view(&self)
        ensures
            self@ == bindings_map(self.bindings()),
    {
    }

    /// A map in order holds no identifier twice.
    pub proof fn lemma_distinct(&self)
        requires
            self.wf(),
        ensures
            distinct_ids(self.bindings()),
    {
        lemma_stamps_are_distinct(self.bindings(), self.generation());
    }

    /// Maps of different generations share no identifier.
    pub proof fn lemma_generations_apart(&self, other: &NodeMap)
        requires
            self.wf(),
            other.wf(),
            self.generation_number() != other.generation_number(),
        ensures
            forall|k: Seq<char>| self@.contains_key(k) ==> !other@.contains_key(k),
    {
        assert forall|k: Seq<char>| self@.contains_key(k) implies !other@.contains_key(k) by {
            if other@.contains_key(k) {
                let i = lemma_key_is_bound(self.bindings(), k);
                let j = lemma_key_is_bound(other.bindings(), k);
                lemma_one_stamp(k, self.generation(), i as nat, other.generation(), j as nat);
            }
        }
    }
}

} // verus!
