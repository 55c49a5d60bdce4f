//! Label sets identifying metric series.

use vstd::prelude::*;

verus! {

/// The mathematical model of a key: the sequence of its label pairs,
/// each a (name, value) pair of character sequences.
pub type KeyView = Seq<(Seq<char>, Seq<char>)>;

/// First value bound to `name` in `pairs`, if any.
pub open spec fn key_get(pairs: KeyView, name: Seq<char>) -> Option<Seq<char>>
    decreases pairs.len(),
{
    if pairs.len() == 0 {
        None
    } else if pairs[0].0 == name {
        Some(pairs[0].1)
    } else {
        key_get(pairs.drop_first(), name)
    }
}

/// Label names are pairwise distinct.
pub open spec fn distinct_names(pairs: KeyView) -> bool {
    forall|i: int, j: int| 0 <= i < j < pairs.len() ==> (#[trigger] pairs[i]).0 != (#[trigger] pairs[j]).0
}

/// An immutable label set identifying one metric series: ordered
/// (label name, label value) pairs with pairwise-distinct names. The pair
/// order is part of the key's identity: two keys carrying the same labels
/// in different orders compare unequal, so collectors must present labels
/// in one canonical order per series.
#[derive(Debug)]
pub struct Key {
    pairs: Vec<(String, String)>,
}

impl View for Key {
    type V = KeyView;

    closed spec fn view(&self) -> KeyView {
        self.pairs@.map_values(|p: (String, String)| (p.0@, p.1@))
    }
}

proof fn lemma_key_get_skip(pairs: KeyView, name: Seq<char>, i: int)
    requires
        0 <= i < pairs.len(),
        pairs[i].0 != name,
    ensures
        key_get(pairs.skip(i), name) == key_get(pairs.skip(i + 1), name),
{
    let s = pairs.skip(i);
    assert(s[0] == pairs[i]);
    assert(s.drop_first() =~= pairs.skip(i + 1));
}

impl Key {
    /// The label set is well formed: no two pairs share a name.
    pub open spec fn wf(self) -> bool {
        distinct_names(self@)
    }

    /// A key carrying the single label `metric: name`.
    pub fn metric(name: &str) -> (k: Key)
        ensures
            k.wf(),
            k@.len() == 1,
            k@[0].0 == "metric"@,
            k@[0].1 == name@,
    {
        let mut pairs: Vec<(String, String)> = Vec::new();
        pairs.push(("metric".to_owned(), name.to_owned()));
        Key { pairs }
    }

    /// A key made of the given label pairs; `None` when two pairs share a
    /// name.
    pub fn pairs(items: Vec<(String, String)>) -> (r: Option<Key>)
        ensures
            match r {
                Some(k) => {
                    &&& k.wf()
                    &&& k@ == items@.map_values(|p: (String, String)| (p.0@, p.1@))
                },
                None => !distinct_names(
                    items@.map_values(|p: (String, String)| (p.0@, p.1@)),
                ),
            },
    {
        let ghost model = items@.map_values(|p: (String, String)| (p.0@, p.1@));
        let n = items.len();
        let mut i: usize = 0;
        while i < n
            invariant
                n == items@.len(),
                0 <= i <= n,
                model == items@.map_values(|p: (String, String)| (p.0@, p.1@)),
                forall|a: int, b: int|
                    0 <= a < b < model.len() && a < i ==> (#[trigger] model[a]).0 != (
                    #[trigger] model[b]).0,
            decreases n - i,
        {
            let mut j: usize = i + 1;
            while j < n
                invariant
                    n == items@.len(),
                    0 <= i < j <= n,
                    model == items@.map_values(|p: (String, String)| (p.0@, p.1@)),
                    forall|b: int| i < b < j ==> model[i as int].0 != (#[trigger] model[b]).0,
                decreases n - j,
            {
                if items[i].0 == items[j].0 {
                    assert(model[i as int].0 == model[j as int].0);
                    return None;
                }
                j = j + 1;
            }
            i = i + 1;
        }
        Some(Key { pairs: items })
    }

    /// Whether this key is well formed: no two pairs share a name.
    pub fn is_wf(&self) -> (b: bool)
        ensures
            b == self.wf(),
    {
        let n = self.pairs.len();
        let mut i: usize = 0;
        while i < n
            invariant
                n == self.pairs@.len(),
                n == self@.len(),
                0 <= i <= n,
                forall|a: int, b: int|
                    0 <= a < b < self@.len() && a < i ==> (#[trigger] self@[a]).0 != (
                    #[trigger] self@[b]).0,
            decreases n - i,
        {
            let mut j: usize = i + 1;
            while j < n
                invariant
                    n == self.pairs@.len(),
                    n == self@.len(),
                    0 <= i < j <= n,
                    forall|b: int| i < b < j ==> self@[i as int].0 != (#[trigger] self@[b]).0,
                decreases n - j,
            {
                if self.pairs[i].0 == self.pairs[j].0 {
                    proof {
                        assert(self@[i as int].0 == self@[j as int].0);
                    }
                    return false;
                }
                j = j + 1;
            }
            i = i + 1;
        }
        true
    }

    /// A key carrying the given pairs as they come; the decoder pairs this
    /// with its own well-formedness checks.
    pub(crate) fn from_pairs_raw(items: Vec<(String, String)>) -> (k: Key)
        ensures
            k@ == items@.map_values(|p: (String, String)| (p.0@, p.1@)),
    {
        Key { pairs: items }
    }

    /// The value bound to `name`, or `None` when the label is absent.
    pub fn get<'a>(&'a self, name: &String) -> (r: Option<&'a String>)
        ensures
            match r {
                Some(v) => key_get(self@, name@) == Some(v@),
                None => key_get(self@, name@) is None,
            },
    {
        let n = self.pairs.len();
        proof {
            assert(self@.skip(0) =~= self@);
        }
        let mut i: usize = 0;
        while i < n
            invariant
                n == self.pairs@.len(),
                n == self@.len(),
                0 <= i <= n,
                key_get(self@, name@) == key_get(self@.skip(i as int), name@),
                forall|k: int| 0 <= k < n ==> self@[k] == ((#[trigger] self.pairs@[k]).0@, self.pairs@[k].1@),
            decreases n - i,
        {
            if self.pairs[i].0 == *name {
                assert(self@.skip(i as int)[0] == self@[i as int]);
                return Some(&self.pairs[i].1);
            }
            proof {
                lemma_key_get_skip(self@, name@, i as int);
            }
            i = i + 1;
        }
        assert(self@.skip(n as int) =~= Seq::<(Seq<char>, Seq<char>)>::empty());
        None
    }

    /// The label pairs of this key, in order.
    pub fn get_map(&self) -> (r: Vec<(String, String)>)
        ensures
            r@.map_values(|p: (String, String)| (p.0@, p.1@)) == self@,
    {
        let mut out: Vec<(String, String)> = Vec::new();
        let n = self.pairs.len();
        let mut i: usize = 0;
        while i < n
            invariant
                n == self.pairs@.len(),
                0 <= i <= n,
                out@.len() == i,
                forall|k: int|
                    0 <= k < i ==> #[trigger] out@[k] == self.pairs@[k],
            decreases n - i,
        {
            let name = self.pairs[i].0.clone();
            let value = self.pairs[i].1.clone();
            out.push((name, value));
            i = i + 1;
        }
        proof {
            assert(out@ =~= self.pairs@);
        }
        out
    }

    /// A copy of this key.
    pub fn dup(&self) -> (r: Key)
        ensures
            r@ == self@,
    {
        let pairs = self.get_map();
        let r = Key { pairs };
        proof {
            assert(r@ =~= self@);
        }
        r
    }

    /// Structural equality of two keys, over their label pairs.
    pub fn same(&self, other: &Key) -> (r: bool)
        ensures
            r == (self@ == other@),
    {
        let n = self.pairs.len();
        if n != other.pairs.len() {
            proof {
                assert(self@.len() != other@.len());
            }
            return false;
        }
        let mut i: usize = 0;
        while i < n
            invariant
                n == self.pairs@.len(),
                n == other.pairs@.len(),
                0 <= i <= n,
                forall|k: int| 0 <= k < i ==> #[trigger] self@[k] == other@[k],
            decreases n - i,
        {
            if !(self.pairs[i].0 == other.pairs[i].0) || !(self.pairs[i].1 == other.pairs[i].1) {
                proof {
                    assert(self@[i as int] != other@[i as int]);
                }
                return false;
            }
            i = i + 1;
        }
        proof {
            assert(self@ =~= other@);
        }
        true
    }
}

} // verus!
