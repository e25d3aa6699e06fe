//! Names with values that a snapshot carries beside its entries.

use vstd::prelude::*;

use crate::order;
use crate::order::bytes_le;
use crate::text;
use crate::text::text_from_lossy;

verus! {

/// The text comes before the other, by its bytes.
pub open spec fn text_lt(a: Seq<char>, b: Seq<char>) -> bool {
    a != b && order::lex_le(vstd::utf8::encode_utf8(a), vstd::utf8::encode_utf8(b))
}

/// Names with values, each name once, in the order of the names.
#[derive(Debug, Clone, PartialEq, Eq)]
pub struct RdbAux {
    pairs: Vec<(String, String)>,
}

/// The names ascend.
pub open spec fn names_ascend(pairs: Seq<(String, String)>) -> bool {
    forall|i: int, j: int|
        0 <= i < j < pairs.len() ==> text_lt((#[trigger] pairs[i]).0@, (#[trigger] pairs[j]).0@)
}

/// The value of the name among pairs.
pub open spec fn lookup(pairs: Seq<(String, String)>, name: Seq<char>) -> Option<Seq<char>>
    decreases pairs.len(),
{
    if pairs.len() == 0 {
        None
    } else if pairs.last().0@ == name {
        Some(pairs.last().1@)
    } else {
        lookup(pairs.drop_last(), name)
    }
}

/// Names with values as a map.
pub open spec fn pairs_map(pairs: Seq<(String, String)>) -> Map<Seq<char>, Seq<char>> {
    Map::new(
        |name: Seq<char>| lookup(pairs, name) is Some,
        |name: Seq<char>| lookup(pairs, name)->Some_0,
    )
}

proof fn lemma_lookup(pairs: Seq<(String, String)>, name: Seq<char>, i: int)
    requires
        names_ascend(pairs),
        0 <= i < pairs.len(),
        pairs[i].0@ == name,
    ensures
        lookup(pairs, name) == Some(pairs[i].1@),
    decreases pairs.len(),
{
    if i < pairs.len() - 1 {
        let front = pairs.drop_last();
        assert(text_lt(pairs[i].0@, pairs[pairs.len() - 1].0@));
        assert forall|a: int, b: int| 0 <= a < b < front.len() implies text_lt(
            (#[trigger] front[a]).0@,
            (#[trigger] front[b]).0@,
        ) by {
            assert(text_lt(pairs[a].0@, pairs[b].0@));
        }
        lemma_lookup(front, name, i);
    }
}

proof fn lemma_lookup_none(pairs: Seq<(String, String)>, name: Seq<char>)
    requires
        forall|i: int| 0 <= i < pairs.len() ==> (#[trigger] pairs[i]).0@ != name,
    ensures
        lookup(pairs, name) is None,
    decreases pairs.len(),
{
    if pairs.len() > 0 {
        assert(pairs[pairs.len() - 1].0@ != name);
        let front = pairs.drop_last();
        assert forall|i: int| 0 <= i < front.len() implies (#[trigger] front[i]).0@ != name by {
            assert(pairs[i].0@ != name);
        }
        lemma_lookup_none(front, name);
    }
}

proof fn lemma_found(pairs: Seq<(String, String)>, name: Seq<char>) -> (i: int)
    requires
        lookup(pairs, name) is Some,
    ensures
        0 <= i < pairs.len(),
        pairs[i].0@ == name,
        lookup(pairs, name) == Some(pairs[i].1@),
    decreases pairs.len(),
{
    if pairs.last().0@ == name {
        pairs.len() - 1
    } else {
        lemma_found(pairs.drop_last(), name)
    }
}

proof fn lemma_text_order(a: Seq<char>, b: Seq<char>)
    ensures
        a == b || text_lt(a, b) || text_lt(b, a),
        !(text_lt(a, b) && text_lt(b, a)),
{
    let x = vstd::utf8::encode_utf8(a);
    let y = vstd::utf8::encode_utf8(b);
    order::lemma_lex_total(x, y);
    vstd::utf8::encode_utf8_decode_utf8(a);
    vstd::utf8::encode_utf8_decode_utf8(b);
}

proof fn lemma_text_lt_transitive(a: Seq<char>, b: Seq<char>, c: Seq<char>)
    requires
        text_lt(a, b),
        text_lt(b, c),
    ensures
        text_lt(a, c),
{
    order::lemma_lex_transitive(
        vstd::utf8::encode_utf8(a),
        vstd::utf8::encode_utf8(b),
        vstd::utf8::encode_utf8(c),
    );
    lemma_text_order(a, b);
}

fn text_before(a: &str, b: &str) -> (r: bool)
    ensures
        r == text_lt(a@, b@),
{
    proof {
        vstd::utf8::encode_utf8_decode_utf8(a@);
        vstd::utf8::encode_utf8_decode_utf8(b@);
        order::lemma_lex_total(vstd::utf8::encode_utf8(a@), vstd::utf8::encode_utf8(b@));
    }
    bytes_le(a.as_bytes(), b.as_bytes()) && !bytes_le(b.as_bytes(), a.as_bytes())
}

impl View for RdbAux {
    type V = Map<Seq<char>, Seq<char>>;

    closed spec fn view(&self) -> Map<Seq<char>, Seq<char>> {
        pairs_map(self.pairs@)
    }
}

impl RdbAux {
    /// The names ascend.
    pub closed spec fn wf(&self) -> bool {
        names_ascend(self.pairs@)
    }

    /// No names.
    pub fn new() -> (aux: RdbAux)
        ensures
            aux.wf(),
            aux@ == Map::<Seq<char>, Seq<char>>::empty(),
    {
        let aux = RdbAux { pairs: Vec::new() };
        assert(aux@ =~= Map::<Seq<char>, Seq<char>>::empty());
        aux
    }

    /// The first place whose name is not before `name`.
    fn place_of(&self, name: &str) -> (at: usize)
        requires
            self.wf(),
        ensures
            at <= self.pairs@.len(),
            forall|i: int| 0 <= i < at ==> text_lt((#[trigger] self.pairs@[i]).0@, name@),
            forall|i: int|
                at <= i < self.pairs@.len() ==> (#[trigger] self.pairs@[i]).0@ == name@ || text_lt(
                    name@,
                    self.pairs@[i].0@,
                ),
            forall|i: int|
                at < i < self.pairs@.len() ==> text_lt(name@, (#[trigger] self.pairs@[i]).0@),
    {
        let mut at: usize = 0;
        while at < self.pairs.len() && text_before(self.pairs[at].0.as_str(), name)
            invariant
                at <= self.pairs@.len(),
                forall|i: int| 0 <= i < at ==> text_lt((#[trigger] self.pairs@[i]).0@, name@),
            ensures
                at == self.pairs@.len() || !text_lt(self.pairs@[at as int].0@, name@),
            decreases self.pairs@.len() - at,
        {
            at = at + 1;
        }
        proof {
            if at < self.pairs@.len() {
                let here = self.pairs@[at as int].0@;
                lemma_text_order(here, name@);
                assert forall|i: int| at < i < self.pairs@.len() implies text_lt(
                    name@,
                    (#[trigger] self.pairs@[i]).0@,
                ) by {
                    assert(text_lt(here, self.pairs@[i].0@));
                    if here != name@ {
                        lemma_text_lt_transitive(name@, here, self.pairs@[i].0@);
                    }
                }
            }
        }
        at
    }

    /// Gives a name a value; a name that is there already gets the new one.
    pub fn insert(&mut self, name: String, value: String)
        requires
            old(self).wf(),
        ensures
            final(self).wf(),
            final(self)@ == old(self)@.insert(name@, value@),
    {
        let ghost before = self.pairs@;
        let at: usize = self.place_of(name.as_str());
        let here: bool = at < self.pairs.len() && !text_before(
            name.as_str(),
            self.pairs[at].0.as_str(),
        );
        proof {
            if at < before.len() {
                lemma_text_order(name@, before[at as int].0@);
            }
        }
        let pair = (name, value);
        if here {
            self.pairs.set(at, pair);
        } else {
            self.pairs.insert(at, pair);
        }
        proof {
            let now = self.pairs@;
            assert forall|i: int, j: int| 0 <= i < j < now.len() implies text_lt(
                (#[trigger] now[i]).0@,
                (#[trigger] now[j]).0@,
            ) by {
                if here {
                    assert(text_lt(before[i].0@, before[j].0@));
                } else {
                    let a = if i < at {
                        i
                    } else {
                        i - 1
                    };
                    let b = if j < at {
                        j
                    } else {
                        j - 1
                    };
                    if i != at && j != at {
                        assert(now[i] == before[a]);
                        assert(now[j] == before[b]);
                        assert(text_lt(before[a].0@, before[b].0@));
                    } else if i == at {
                        assert(now[j] == before[b]);
                    } else {
                        assert(now[i] == before[a]);
                    }
                }
            }
            assert(now[at as int] == pair);
            assert forall|n: Seq<char>| lookup(now, n) == (if n == name@ {
                Some(value@)
            } else {
                lookup(before, n)
            }) by {
                if n == name@ {
                    lemma_lookup(now, n, at as int);
                } else {
                    if lookup(before, n) is Some {
                        let i = lemma_found(before, n);
                        let j = if here || i < at {
                            i
                        } else {
                            i + 1
                        };
                        assert(now[j] == before[i]);
                        lemma_lookup(now, n, j);
                    } else {
                        assert forall|j: int| 0 <= j < now.len() implies (#[trigger] now[j]).0@
                            != n by {
                            if j != at {
                                let i = if here || j < at {
                                    j
                                } else {
                                    j - 1
                                };
                                assert(now[j] == before[i]);
                                if before[i].0@ == n {
                                    lemma_lookup(before, n, i);
                                }
                            }
                        }
                        lemma_lookup_none(now, n);
                    }
                }
            }
            assert(self@ =~= old(self)@.insert(name@, value@));
        }
    }

    /// The value of a name.
    pub fn get(&self, name: &str) -> (value: Option<&String>)
        requires
            self.wf(),
        ensures
            match value {
                Some(v) => self@.dom().contains(name@) && self@[name@] == v@,
                None => !self@.dom().contains(name@),
            },
    {
        let at: usize = self.place_of(name);
        if at < self.pairs.len() && !text_before(name, self.pairs[at].0.as_str()) {
            proof {
                lemma_text_order(name@, self.pairs@[at as int].0@);
                lemma_lookup(self.pairs@, name@, at as int);
            }
            Some(&self.pairs[at].1)
        } else {
            proof {
                lemma_text_order(name@, name@);
                assert forall|i: int| 0 <= i < self.pairs@.len() implies (#[trigger] self.pairs@[i]).0@
                    != name@ by {
                    lemma_text_order(name@, self.pairs@[i].0@);
                }
                lemma_lookup_none(self.pairs@, name@);
            }
            None
        }
    }

    /// The names with their values, in the order of the names.
    pub fn pairs(&self) -> (pairs: &[(String, String)])
        requires
            self.wf(),
        ensures
            names_ascend(pairs@),
            pairs_map(pairs@) == self@,
    {
        self.pairs.as_slice()
    }

    /// Whether there are no names.
    pub fn is_empty(&self) -> (r: bool)
        ensures
            r == (self@.dom() == Set::<Seq<char>>::empty()),
    {
        proof {
            if self.pairs@.len() > 0 {
                let name = self.pairs@.last().0@;
                assert(lookup(self.pairs@, name) is Some);
                assert(self@.dom().contains(name));
            } else {
                assert(self@.dom() =~= Set::<Seq<char>>::empty());
            }
        }
        self.pairs.len() == 0
    }
}

/// Gives the name that bytes stand for the value that bytes stand for.
pub fn insert_lossy(aux: &mut RdbAux, name: &[u8], value: &[u8])
    requires
        old(aux).wf(),
    ensures
        final(aux).wf(),
        final(aux)@ == old(aux)@.insert(text::text_of(name@), text::text_of(value@)),
{
    let name_text: String = text_from_lossy(name);
    let value_text: String = text_from_lossy(value);
    aux.insert(name_text, value_text);
}

} // verus!
