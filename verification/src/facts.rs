//! Environment facts: the flat name-to-value mapping used to resolve
//! templated identifiers.
//!
//! The mapping is built once at process start (from instance metadata) and is
//! read-only afterwards.  Its mathematical model is a `Map<Seq<char>,
//! Seq<char>>`; a later insertion of the same name wins.

use vstd::prelude::*;

verus! {

/// Model of a list of name/value pairs as a mapping; a later pair with the
/// same name overrides an earlier one.
pub open spec fn pairs_map(pairs: Seq<(String, String)>) -> Map<Seq<char>, Seq<char>>
    decreases pairs.len(),
{
    if pairs.len() == 0 {
        Map::empty()
    } else {
        pairs_map(pairs.drop_last()).insert(pairs.last().0@, pairs.last().1@)
    }
}

/// A flat mapping from fact name to value, e.g. `accountId` to the account
/// identifier of the running instance.
#[derive(Debug, Clone)]
pub struct Facts {
    pairs: Vec<(String, String)>,
}

impl View for Facts {
    type V = Map<Seq<char>, Seq<char>>;

    closed spec fn view(&self) -> Map<Seq<char>, Seq<char>> {
        pairs_map(self.pairs@)
    }
}

impl Facts {
    /// The empty fact mapping, the safe fallback when no metadata could be
    /// fetched.
    pub fn new() -> (f: Facts)
        ensures
            f@ == Map::<Seq<char>, Seq<char>>::empty(),
    {
        Facts { pairs: Vec::new() }
    }

    /// Binds `name` to `value`, overriding any earlier binding of `name`.
    pub fn insert(&mut self, name: String, value: String)
        ensures
            final(self)@ == old(self)@.insert(name@, value@),
    {
        let ghost before = self.pairs@;
        self.pairs.push((name, value));
        proof {
            assert(self.pairs@.drop_last() =~= before);
        }
    }

    /// Looks the fact `name` up; `None` exactly when no pair binds it.
    pub fn get<'a>(&'a self, name: &String) -> (r: Option<&'a String>)
        ensures
            match r {
                Some(v) => self@.contains_key(name@) && v@ == self@[name@],
                None => !self@.contains_key(name@),
            },
    {
        let mut found: Option<usize> = None;
        let mut i: usize = 0;
        while i < self.pairs.len()
            invariant
                i <= self.pairs.len(),
                match found {
                    Some(j) => {
                        &&& j < i
                        &&& pairs_map(self.pairs@.take(i as int)).contains_key(name@)
                        &&& self.pairs@[j as int].1@ == pairs_map(self.pairs@.take(i as int))[name@]
                    },
                    None => !pairs_map(self.pairs@.take(i as int)).contains_key(name@),
                },
            decreases self.pairs.len() - i,
        {
            let ghost prefix = self.pairs@.take(i as int);
            if self.pairs[i].0 == *name {
                found = Some(i);
            }
            i = i + 1;
            proof {
                assert(self.pairs@.take(i as int).drop_last() =~= prefix);
            }
        }
        proof {
            assert(self.pairs@.take(self.pairs@.len() as int) =~= self.pairs@);
        }
        match found {
            Some(j) => Some(&self.pairs[j].1),
            None => None,
        }
    }
}

/// The instance metadata fetched once at startup: the fields of the
/// instance-identity document that the library reads.
#[derive(Debug, Clone, PartialEq, Eq)]
pub struct InstanceMetadata {
    pub account_id: String,
}

impl Default for InstanceMetadata {
    /// The fallback metadata when the fetch failed: an empty account id.
    fn default() -> (m: InstanceMetadata)
        ensures
            m.account_id@ == Seq::<char>::empty(),
    {
        InstanceMetadata { account_id: String::new() }
    }
}

impl InstanceMetadata {
    /// Metadata with the given account identifier.
    pub fn new(account_id: String) -> (m: InstanceMetadata)
        ensures
            m.account_id == account_id,
    {
        InstanceMetadata { account_id }
    }

    /// The fact mapping derived from the metadata: it binds exactly
    /// `accountId`, to the account identifier.
    pub fn get(&self) -> (f: Facts)
        ensures
            f@ == Map::<Seq<char>, Seq<char>>::empty().insert("accountId"@, self.account_id@),
    {
        let mut f = Facts::new();
        f.insert(String::from_str("accountId"), self.account_id.clone());
        f
    }
}

} // verus!
