//! Heterogeneous, per-algorithm parameter storage: a key-value bag whose
//! values carry their own shape, looked up with type-checked retrieval.
//! A lookup under the wrong shape is answered with "absent", never a fault.

use vstd::prelude::*;

verus! {

use vstd::string::StrSliceExecFns;

/// A dynamically shaped parameter value: the closed set of shapes a tuning
/// parameter may take.
#[derive(Debug)]
pub enum ParamValue {
    Bool(bool),
    UInt(u64),
    Int(i64),
    Text(String),
}

/// Mathematical image of a `ParamValue`; text is seen as its character
/// sequence.
pub enum ParamView {
    Bool(bool),
    UInt(u64),
    Int(i64),
    Text(Seq<char>),
}

impl View for ParamValue {
    type V = ParamView;

    open spec fn view(&self) -> ParamView {
        match self {
            ParamValue::Bool(b) => ParamView::Bool(*b),
            ParamValue::UInt(n) => ParamView::UInt(*n),
            ParamValue::Int(n) => ParamView::Int(*n),
            ParamValue::Text(s) => ParamView::Text(s@),
        }
    }
}

/// Compares two string slices by their character sequences.
pub fn str_eq(a: &str, b: &str) -> (r: bool)
    ensures
        r == (a@ == b@),
{
    let la = a.unicode_len();
    let lb = b.unicode_len();
    if la != lb {
        return false;
    }
    let mut i: usize = 0;
    while i < la
        invariant
            la == a@.len(),
            lb == b@.len(),
            la == lb,
            i <= la,
            forall|j: int| 0 <= j < i ==> a@[j] == b@[j],
        decreases la - i,
    {
        let ca = a.get_char(i);
        let cb = b.get_char(i);
        if ca != cb {
            return false;
        }
        i += 1;
    }
    proof {
        assert(a@ =~= b@);
    }
    true
}

/// Each key's character sequence occurs at most once among the pairs.
pub open spec fn unique_keys(s: Seq<(String, ParamValue)>) -> bool {
    forall|i: int, j: int| 0 <= i < j < s.len() ==> s[i].0@ != s[j].0@
}

pub open spec fn seq_has_key(s: Seq<(String, ParamValue)>, k: Seq<char>) -> bool {
    exists|i: int| 0 <= i < s.len() && s[i].0@ == k
}

pub open spec fn seq_key_at(s: Seq<(String, ParamValue)>, k: Seq<char>) -> int {
    choose|i: int| 0 <= i < s.len() && s[i].0@ == k
}

/// Under unique keys, the index chosen for a key is the index of its one
/// occurrence.
proof fn lemma_key_at(s: Seq<(String, ParamValue)>, k: Seq<char>, i: int)
    requires
        unique_keys(s),
        0 <= i < s.len(),
        s[i].0@ == k,
    ensures
        seq_has_key(s, k),
        seq_key_at(s, k) == i,
{
    assert(seq_has_key(s, k));
    let j = seq_key_at(s, k);
    assert(0 <= j < s.len() && s[j].0@ == k);
    if j < i {
        assert(s[j].0@ != s[i].0@);
    } else if i < j {
        assert(s[i].0@ != s[j].0@);
    }
}

/// A per-algorithm parameter bag: a mapping from string key to a
/// dynamically shaped value. Keys are unique within one bag; insertion
/// overwrites; retrieval is type-checked.
#[derive(Debug)]
pub struct Params {
    pairs: Vec<(String, ParamValue)>,
}

impl Params {
    #[verifier::type_invariant]
    spec fn inv(self) -> bool {
        unique_keys(self.pairs@)
    }
}

impl View for Params {
    type V = Map<Seq<char>, ParamView>;

    closed spec fn view(&self) -> Map<Seq<char>, ParamView> {
        Map::new(
            |k: Seq<char>| seq_has_key(self.pairs@, k),
            |k: Seq<char>| self.pairs@[seq_key_at(self.pairs@, k)].1@,
        )
    }
}

impl Params {
    /// Creates an empty bag.
    pub fn new() -> (r: Params)
        ensures
            r@ == Map::<Seq<char>, ParamView>::empty(),
    {
        let r = Params { pairs: Vec::new() };
        proof {
            assert(r@ =~= Map::<Seq<char>, ParamView>::empty());
        }
        r
    }

    /// Inserts `value` under `key`, discarding any value stored there before.
    pub fn add_param(&mut self, key: String, value: ParamValue)
        ensures
            final(self)@ == old(self)@.insert(key@, value@),
    {
        proof {
            use_type_invariant(&*self);
        }
        let ghost old_pairs = self.pairs@;
        let ghost old_map = self@;
        let ghost k = key@;
        let ghost v = value@;
        let mut pairs: Vec<(String, ParamValue)> = Vec::new();
        std::mem::swap(&mut pairs, &mut self.pairs);
        let n = pairs.len();
        let mut idx: usize = n;
        let mut i: usize = 0;
        while i < n
            invariant
                pairs@ == old_pairs,
                n == pairs@.len(),
                i <= n,
                idx == n || (idx < i && pairs@[idx as int].0@ == key@),
                idx == n ==> forall|j: int| 0 <= j < i ==> pairs@[j].0@ != key@,
            decreases n - i,
        {
            if idx == n && str_eq(pairs[i].0.as_str(), key.as_str()) {
                idx = i;
            }
            i += 1;
        }
        if idx < n {
            pairs[idx] = (key, value);
        } else {
            pairs.push((key, value));
        }
        let ghost np = pairs@;
        proof {
            assert forall|a: int, b: int| 0 <= a < b < np.len() implies np[a].0@ != np[b].0@ by {
                assert(old_pairs[a].0@ != old_pairs[b].0@ || b >= old_pairs.len());
            }
        }
        self.pairs = pairs;
        proof {
            assert forall|kk: Seq<char>|
                #![trigger old_map.insert(k, v).contains_key(kk)]
                true implies {
                    (seq_has_key(np, kk) <==> old_map.insert(k, v).contains_key(kk))
                    && (seq_has_key(np, kk) ==> np[seq_key_at(np, kk)].1@ == old_map.insert(
                        k,
                        v,
                    )[kk])
                } by {
                let widx: int = if idx < n { idx as int } else { n as int };
                assert(np[widx].0@ == k && np[widx].1@ == v);
                if kk == k {
                    lemma_key_at(np, kk, widx);
                } else {
                    if seq_has_key(np, kk) {
                        let a = choose|a: int| 0 <= a < np.len() && np[a].0@ == kk;
                        assert(a != widx);
                        assert(np[a] == old_pairs[a]);
                        lemma_key_at(np, kk, a);
                        lemma_key_at(old_pairs, kk, a);
                    }
                    if seq_has_key(old_pairs, kk) {
                        let b = choose|b: int| 0 <= b < old_pairs.len() && old_pairs[b].0@ == kk;
                        assert(b != widx || old_pairs[b].0@ == k);
                        assert(np[b].0@ == kk);
                        assert(seq_has_key(np, kk));
                    }
                }
            }
            assert(self@ =~= old_map.insert(k, v));
        }
    }

    /// Looks the raw value up by key; absent when the key is not present.
    pub fn get(&self, key: &str) -> (r: Option<&ParamValue>)
        ensures
            match r {
                Some(pv) => self@.contains_key(key@) && pv@ == self@[key@],
                None => !self@.contains_key(key@),
            },
    {
        proof {
            use_type_invariant(&*self);
        }
        let n = self.pairs.len();
        let mut i: usize = 0;
        while i < n
            invariant
                n == self.pairs@.len(),
                i <= n,
                unique_keys(self.pairs@),
                forall|j: int| 0 <= j < i ==> self.pairs@[j].0@ != key@,
            decreases n - i,
        {
            let pair = &self.pairs[i];
            if str_eq(pair.0.as_str(), key) {
                proof {
                    lemma_key_at(self.pairs@, key@, i as int);
                }
                return Some(&pair.1);
            }
            i += 1;
        }
        None
    }

    /// Type-checked retrieval of a boolean parameter; absent when the key is
    /// missing or holds another shape.
    pub fn get_bool(&self, key: &str) -> (r: Option<&bool>)
        ensures
            match r {
                Some(b) => self@.contains_key(key@) && self@[key@] == ParamView::Bool(*b),
                None => !self@.contains_key(key@) || !(self@[key@] is Bool),
            },
    {
        match self.get(key) {
            Some(ParamValue::Bool(b)) => Some(b),
            _ => None,
        }
    }

    /// Type-checked retrieval of an unsigned integer parameter; absent when
    /// the key is missing or holds another shape.
    pub fn get_u64(&self, key: &str) -> (r: Option<&u64>)
        ensures
            match r {
                Some(x) => self@.contains_key(key@) && self@[key@] == ParamView::UInt(*x),
                None => !self@.contains_key(key@) || !(self@[key@] is UInt),
            },
    {
        match self.get(key) {
            Some(ParamValue::UInt(x)) => Some(x),
            _ => None,
        }
    }

    /// Type-checked retrieval of a signed integer parameter; absent when the
    /// key is missing or holds another shape.
    pub fn get_i64(&self, key: &str) -> (r: Option<&i64>)
        ensures
            match r {
                Some(x) => self@.contains_key(key@) && self@[key@] == ParamView::Int(*x),
                None => !self@.contains_key(key@) || !(self@[key@] is Int),
            },
    {
        match self.get(key) {
            Some(ParamValue::Int(x)) => Some(x),
            _ => None,
        }
    }

    /// Type-checked retrieval of a text parameter; absent when the key is
    /// missing or holds another shape.
    pub fn get_text(&self, key: &str) -> (r: Option<&String>)
        ensures
            match r {
                Some(s) => self@.contains_key(key@) && self@[key@] == ParamView::Text(s@),
                None => !self@.contains_key(key@) || !(self@[key@] is Text),
            },
    {
        match self.get(key) {
            Some(ParamValue::Text(s)) => Some(s),
            _ => None,
        }
    }
}

/// A value just added under a key is exactly what a later lookup of that key
/// sees, and a lookup of the same key under any other shape sees a mismatch,
/// not that value.
pub proof fn lemma_get_after_add(m: Map<Seq<char>, ParamView>, k: Seq<char>, v: ParamView)
    ensures
        m.insert(k, v).contains_key(k),
        m.insert(k, v)[k] == v,
{
}

} // verus!
