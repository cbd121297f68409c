//! The data model: desired-state records, stored document entries, and the
//! role/user partition decision.
//!
//! Both flavours of document entry, and the desired-state record, share one
//! mathematical model, [`Entry`]: a resolved identifier, a principal name and
//! optional group memberships, each as a sequence of characters.

use crate::facts::Facts;
use crate::template::{rendered, Template};
use vstd::prelude::*;

verus! {

/// The mathematical model of a record: an identifier, a principal name and
/// optional group memberships.
#[verifier::ext_equal]
pub ghost struct Entry {
    pub arn: Seq<char>,
    pub username: Seq<char>,
    pub groups: Option<Seq<Seq<char>>>,
}

/// An ARN-like identifier, already resolved against the environment facts.
#[derive(Debug, Clone, PartialEq, Eq)]
pub struct ARN(pub String);

impl View for ARN {
    type V = Seq<char>;

    open spec fn view(&self) -> Seq<char> {
        self.0@
    }
}

impl ARN {
    /// The identity value resolver: decoding a raw identifier always runs it
    /// through the placeholder renderer against the environment facts, the
    /// single injection point for fact substitution.
    pub fn resolve(raw: &str, facts: &Facts) -> (a: ARN)
        ensures
            a@ == rendered(raw@, facts@, 0),
    {
        let template = Template::new(raw);
        ARN(template.render(facts))
    }

    /// The identifier's text.
    pub fn as_str(&self) -> (s: &str)
        ensures
            s@ == self@,
    {
        self.0.as_str()
    }
}

/// A desired-state record: the spec of one identity-mapping resource.
#[derive(Debug, Clone, PartialEq, Eq)]
pub struct IAMIdentityMappingSpec {
    pub arn: String,
    pub username: String,
    pub groups: Option<Vec<String>>,
}

impl View for IAMIdentityMappingSpec {
    type V = Entry;

    open spec fn view(&self) -> Entry {
        Entry { arn: self.arn@, username: self.username@, groups: self.groups.deep_view() }
    }
}

/// A stored role entry of the document's role list.
#[derive(Debug, Clone, PartialEq, Eq)]
pub struct MapRole {
    pub username: String,
    pub groups: Option<Vec<String>>,
    pub rolearn: ARN,
}

impl View for MapRole {
    type V = Entry;

    open spec fn view(&self) -> Entry {
        Entry { arn: self.rolearn@, username: self.username@, groups: self.groups.deep_view() }
    }
}

/// A stored user entry of the document's user list.
#[derive(Debug, Clone, PartialEq, Eq)]
pub struct MapUser {
    pub username: String,
    pub groups: Option<Vec<String>>,
    pub userarn: ARN,
}

impl View for MapUser {
    type V = Entry;

    open spec fn view(&self) -> Entry {
        Entry { arn: self.userarn@, username: self.username@, groups: self.groups.deep_view() }
    }
}

/// The text that marks an identifier as a role.
pub open spec fn role_tag() -> Seq<char> {
    seq![':', 'r', 'o', 'l', 'e', '/']
}

/// The role tag occurs in `s` at position `i`.
pub open spec fn has_role_tag_at(s: Seq<char>, i: int) -> bool {
    0 <= i && i + 6 <= s.len() && s.subrange(i, i + 6) == role_tag()
}

/// Partition decision: an identifier that contains the role tag belongs to
/// the role partition, every other one to the user partition.
pub open spec fn is_role_arn(s: Seq<char>) -> bool {
    exists|i: int| has_role_tag_at(s, i)
}

/// Decides the partition of an identifier: `true` exactly when it contains
/// the role tag.
pub fn arn_is_role(arn: &str) -> (b: bool)
    ensures
        b == is_role_arn(arn@),
{
    let n = arn.unicode_len();
    if n < 6 {
        return false;
    }
    let mut i: usize = 0;
    while i <= n - 6
        invariant
            6 <= n == arn@.len(),
            i <= n - 5,
            forall|t: int| 0 <= t < i ==> !has_role_tag_at(arn@, t),
        decreases n - i,
    {
        if arn.get_char(i) == ':' && arn.get_char(i + 1) == 'r' && arn.get_char(i + 2) == 'o'
            && arn.get_char(i + 3) == 'l' && arn.get_char(i + 4) == 'e' && arn.get_char(i + 5)
            == '/' {
            proof {
                assert(arn@.subrange(i as int, i as int + 6) =~= role_tag());
                assert(has_role_tag_at(arn@, i as int));
            }
            return true;
        }
        proof {
            assert(!has_role_tag_at(arn@, i as int)) by {
                if has_role_tag_at(arn@, i as int) {
                    let tag = arn@.subrange(i as int, i as int + 6);
                    assert(arn@[i as int] == tag[0]);
                    assert(arn@[i as int + 1] == tag[1]);
                    assert(arn@[i as int + 2] == tag[2]);
                    assert(arn@[i as int + 3] == tag[3]);
                    assert(arn@[i as int + 4] == tag[4]);
                    assert(arn@[i as int + 5] == tag[5]);
                    assert(false);
                }
            }
        }
        i = i + 1;
    }
    proof {
        assert(forall|t: int| 0 <= t < arn@.len() ==> !has_role_tag_at(arn@, t));
    }
    false
}

} // verus!
