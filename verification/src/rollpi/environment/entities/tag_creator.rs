//! The counter from which a participant mints the keys of its steps.

use crate::rollpi::syntax::TagKey;
use crate::text::{decimal, is_digit, lemma_decimal_digits, lemma_decimal_injective, push_decimal};
use vstd::prelude::*;
use vstd::string::StringExecFns;

verus! {

/// Mints keys that carry the owner's prefix and a running number.
pub struct TagCreator {
    tag_count: usize,
    tag_prefix: String,
}

/// The key that a creator with the prefix `prefix` mints as its `n`-th.
pub open spec fn minted_key(prefix: Seq<char>, n: nat) -> Seq<char> {
    seq!['_', 't', 'a', 'g', '_'] + prefix + seq!['_'] + decimal(n)
}

/// Tag uniqueness: two minted keys are the same only where both the prefix
/// and the number are. So one creator never mints a key twice, and two
/// creators with different prefixes never mint the same key.
pub proof fn lemma_minted_keys_distinct(p: Seq<char>, i: nat, q: Seq<char>, j: nat)
    requires
        minted_key(p, i) == minted_key(q, j),
    ensures
        p == q,
        i == j,
{
    let head = seq!['_', 't', 'a', 'g', '_'];
    let a = minted_key(p, i);
    let b = minted_key(q, j);
    let x = p + seq!['_'] + decimal(i);
    let y = q + seq!['_'] + decimal(j);
    assert(a.subrange(5, a.len() as int) =~= x);
    assert(b.subrange(5, b.len() as int) =~= y);
    assert(x == y);
    lemma_decimal_digits(i);
    lemma_decimal_digits(j);
    if p.len() < q.len() {
        let k = q.len() as int;
        assert(y[k] == '_');
        assert(x.len() == y.len());
        assert(x[k] == decimal(i)[k - p.len() - 1]);
        assert(is_digit(decimal(i)[k - p.len() - 1]));
        assert(false);
    } else if q.len() < p.len() {
        let k = p.len() as int;
        assert(x[k] == '_');
        assert(x.len() == y.len());
        assert(y[k] == decimal(j)[k - q.len() - 1]);
        assert(is_digit(decimal(j)[k - q.len() - 1]));
        assert(false);
    } else {
        let n = p.len() as int;
        assert(p =~= x.subrange(0, n));
        assert(q =~= y.subrange(0, n));
        assert(decimal(i) =~= x.subrange(n + 1, x.len() as int));
        assert(decimal(j) =~= y.subrange(n + 1, y.len() as int));
        lemma_decimal_injective(i, j);
    }
}

impl TagCreator {
    /// How many keys the creator has minted.
    pub closed spec fn count(&self) -> nat {
        self.tag_count as nat
    }

    /// The prefix of the creator's keys.
    pub closed spec fn prefix(&self) -> Seq<char> {
        self.tag_prefix@
    }

    /// A creator that has minted nothing yet.
    pub fn new(tag_prefix: String) -> (r: Self)
        ensures
            r.count() == 0,
            r.prefix() == tag_prefix@,
    {
        TagCreator { tag_count: 0, tag_prefix }
    }

    /// Whether the creator can mint one more key.
    pub fn can_create(&self) -> (b: bool)
        ensures
            b == (self.count() < usize::MAX),
    {
        self.tag_count < usize::MAX
    }

    /// Mints the next key.
    pub fn create_new_tag(&mut self) -> (tag: TagKey)
        requires
            old(self).count() < usize::MAX,
        ensures
            tag@ == minted_key(old(self).prefix(), old(self).count()),
            final(self).count() == old(self).count() + 1,
            final(self).prefix() == old(self).prefix(),
    {
        proof {
            reveal_strlit("_tag_");
            reveal_strlit("_");
        }
        let mut s = String::from_str("_tag_");
        s.append(self.tag_prefix.as_str());
        s.append("_");
        push_decimal(&mut s, self.tag_count);
        assert(s@ =~= minted_key(self.tag_prefix@, self.tag_count as nat));
        self.tag_count += 1;
        TagKey(s)
    }
}

} // verus!
